use reverse_proxy::balance::least_loaded;
use reverse_proxy::decimal::{decimal_string, parse_unsigned};
use reverse_proxy::document::{get_member, get_text, has_countable_fractions, parse_json, Json};
use reverse_proxy::double::read_uint;
use reverse_proxy::headers::Headers;
use reverse_proxy::search::find_in_u8_slice;
use reverse_proxy::text::{split_at_space, str_eq, trim_start};

#[test]
fn bytes_are_found_where_they_first_occur() {
    assert_eq!(find_in_u8_slice(b"a\r\nb\r\n", b"\r\n"), Some(1));
    assert_eq!(find_in_u8_slice(b"\r\n", b"\r\n"), Some(0));
    assert_eq!(find_in_u8_slice(b"\r", b"\r\n"), None);
    assert_eq!(find_in_u8_slice(b"", b":"), None);
    assert_eq!(find_in_u8_slice(b"\r\r\n", b"\r\n"), Some(1));
}

#[test]
fn texts_are_compared_and_split() {
    assert!(str_eq("Host", "Host"));
    assert!(!str_eq("Host", "host"));
    assert!(!str_eq("Host", "Hos"));
    assert!(str_eq("é", "é"));
    assert_eq!(split_at_space("GET / HTTP/1.1"), ("GET", Some("/ HTTP/1.1")));
    assert_eq!(split_at_space("é x"), ("é", Some("x")));
    assert_eq!(split_at_space("x "), ("x", Some("")));
    assert_eq!(split_at_space(""), ("", None));
}

#[test]
fn white_space_is_that_of_std() {
    for n in 0..=0x10ffffu32 {
        if let Some(c) = char::from_u32(n) {
            let text = format!("{c}x ");
            assert_eq!(trim_start(&text), text.trim_start());
        }
    }
    assert_eq!(trim_start(" \t\u{3000}\u{a0}value "), "value ");
    assert_eq!(trim_start("  "), "");
}

#[test]
fn numbers_are_read_as_std_reads_them() {
    let texts = [
        "0", "7", "007", "+7", "+", "-", "-1", "", " 1", "1 ", "12a", "4294967295", "4294967296",
        "18446744073709551615", "18446744073709551616", "99999999999999999999999", "1_000", "１",
    ];
    for text in texts {
        assert_eq!(parse_unsigned(text, u64::MAX), text.parse::<u64>().ok(), "{text}");
        assert_eq!(
            parse_unsigned(text, u32::MAX as u64),
            text.parse::<u32>().ok().map(|n| n as u64),
            "{text}"
        );
    }
}

#[test]
fn numbers_are_written_as_std_writes_them() {
    for n in [0, 1, 9, 10, 99, 100, 404, 65535, u32::MAX as u64, u64::MAX] {
        assert_eq!(decimal_string(n), n.to_string());
        assert_eq!(parse_unsigned(&decimal_string(n), u64::MAX), Some(n));
    }
}

#[test]
fn doubles_are_read_as_casts_read_them() {
    let numbers = [
        0.0, -0.0, 0.5, -0.5, 1.0, -1.0, 1.5, 4.999, 65535.0, 65535.5, 65536.0, 9007199254740993.0,
        1.8446744073709552e19, 3.6893488147419103e19, 1e300, -1e300, f64::MIN_POSITIVE, 5e-324, f64::NAN,
        f64::INFINITY, f64::NEG_INFINITY, 18446744073709549568.0,
    ];
    for n in numbers {
        let all = if n >= 0.0 && n <= u64::MAX as f64 { Some(n as u64) } else { None };
        assert_eq!(read_uint(n.to_bits(), 1 << 64, u64::MAX), all, "{n}");
        let ports = if n >= 0.0 && n <= 65535.0 { Some(n as u64) } else { None };
        assert_eq!(read_uint(n.to_bits(), 65535, 65535), ports, "{n}");
    }
}

fn number(text: &str) -> f64 {
    match parse_json(text) {
        Ok(Json::Number(bits)) => f64::from_bits(bits),
        _ => panic!("Expected a number"),
    }
}

#[test]
fn json_numbers_become_doubles() {
    assert_eq!(number("0"), 0.0);
    assert_eq!(number("5"), 5.0);
    assert_eq!(number("-3"), -3.0);
    assert_eq!(number("0.25"), 0.25);
    assert_eq!(number("12e2"), 1200.0);
    assert_eq!(number("9007199254740992"), 9007199254740992.0);
    assert_eq!(number("18446744073709551615"), 18446744073709551615.0);
}

#[test]
fn json_documents_become_values() {
    let document = parse_json(
        r#"{"short": "a", "long": "a text that does not fit into a small buffer", "none": null,
            "yes": true, "no": false, "list": [1, "x", {}], "short": "b"}"#,
    )
    .unwrap();
    let entries = match document {
        Json::Object(entries) => entries,
        _ => panic!("Expected an object"),
    };
    assert_eq!(entries[0].0, "short");
    assert_eq!(get_text(&entries, "short").unwrap(), "b");
    assert_eq!(
        get_text(&entries, "long").unwrap(),
        "a text that does not fit into a small buffer"
    );
    assert!(get_text(&entries, "none").is_none());
    assert!(matches!(get_member(&entries, "none"), Some(Json::Null)));
    assert!(get_member(&entries, "nothing").is_none());
    assert!(matches!(get_member(&entries, "yes"), Some(Json::Boolean(true))));
    assert!(matches!(get_member(&entries, "no"), Some(Json::Boolean(false))));
    match get_member(&entries, "list") {
        Some(Json::Array(list)) => {
            assert_eq!(list.len(), 3);
            assert!(matches!(list[0], Json::Number(_)));
            assert!(matches!(list[1], Json::Text(_)));
            assert!(matches!(&list[2], Json::Object(entries) if entries.is_empty()));
        }
        _ => panic!("Expected an array"),
    }
}

#[test]
fn json_complaints_are_those_of_the_library() {
    for text in ["", "{", "[1,]", "tru", "{\"a\" 1}", "1 2"] {
        assert_eq!(parse_json(text).err(), json::parse(text).err().map(|e| e.to_string()), "{text}");
    }
}

#[test]
fn fractions_that_cannot_be_counted_are_noticed() {
    let zeros = |n: usize| "0".repeat(n);
    assert!(has_countable_fractions(""));
    assert!(has_countable_fractions("{\"a\": 12}"));
    let whole = "1".repeat(40000);
    assert!(has_countable_fractions(&whole));
    assert_eq!(parse_json(&whole).err(), json::parse(&whole).err().map(|e| e.to_string()));
    let countable = [
        "1".repeat(30000),
        format!("0.{}", "1".repeat(40000)),
        format!("0.{}", zeros(32768)),
        format!("-0.{}{}", zeros(32748), "9".repeat(100)),
        format!("1.{}", zeros(40000)),
        format!("10.{}", zeros(40000)),
        format!("\"0.{}\"", zeros(40000)),
        format!("\"\\\"0.{}\"", zeros(40000)),
        format!("[\"\", \"\\\\\", 0.5, {{\"0.{}\": 0.0}}]", zeros(40000)),
    ];
    for text in &countable {
        assert!(has_countable_fractions(text));
        assert!(parse_json(text).is_ok());
    }
    assert!(!has_countable_fractions(&format!("0.{}", zeros(32769))));
    assert!(!has_countable_fractions(&format!("-0.{}", zeros(32769))));
    assert!(!has_countable_fractions(&format!("[1, \"\\\\\", 0.{}1]", zeros(32768))));
    assert!(!has_countable_fractions(&format!("0.{}{}", zeros(32749), "9".repeat(20))));
}

#[test]
fn headers_keep_one_value_per_name() {
    let mut headers = Headers::new();
    assert_eq!(headers.get("Host"), None);
    headers.insert("Host".to_string(), "a".to_string());
    headers.insert("Accept".to_string(), "b".to_string());
    headers.insert("Host".to_string(), "c".to_string());
    assert_eq!(headers.len(), 2);
    assert_eq!(headers.entry(0), ("Host", "c"));
    assert_eq!(headers.get("Accept"), Some("b"));
    assert_eq!(headers.get("host"), None);
    assert_eq!(headers.clone().get("Host"), Some("c"));
}

#[test]
fn the_first_of_the_least_loaded_workers_is_chosen() {
    assert_eq!(least_loaded(&vec![]), None);
    assert_eq!(least_loaded(&vec![3]), Some(0));
    assert_eq!(least_loaded(&vec![3, 1, 2, 1]), Some(1));
    assert_eq!(least_loaded(&vec![0, 0]), Some(0));
}
