use reverse_proxy::errors::HttpProxyErr;
use reverse_proxy::http::{
    get_content_length, parse_header_key_value, parse_headers, parse_request_line, parse_status_line, HttpMethod,
    HttpVersion, Request, Response,
};
use reverse_proxy::rewrite::{proxy_rewrite_request, ProxtRule, ProxyRuleHost, ProxyRules};
use reverse_proxy::transmittable::HttpTransmittable;

fn request(text: &str) -> (Request, usize) {
    Request::parse_headers(text.as_bytes()).unwrap()
}

fn refused(text: &str) -> HttpProxyErr {
    match Request::parse_headers(text.as_bytes()) {
        Ok(_) => panic!("Expected an error"),
        Err(e) => e,
    }
}

#[test]
fn versions_and_methods_have_texts() {
    assert!(HttpVersion::from_str("HTTP/1.1") == Ok(HttpVersion::HTTPv1_1));
    assert!(HttpVersion::from_str("HTTP/1.0") == Ok(HttpVersion::HTTPv1));
    assert!(HttpVersion::from_str("HTTP/2") == Err(HttpProxyErr::UnsupportedVersion));
    assert_eq!(HttpVersion::HTTPv1_1.to_string(), "HTTP/1.1");
    assert_eq!(HttpVersion::HTTPv1.to_string(), "HTTP/1.0");
    assert!(matches!(HttpMethod::from_str("GET"), Ok(HttpMethod::GET)));
    assert!(matches!(HttpMethod::from_str("POST"), Ok(HttpMethod::POST)));
    assert!(matches!(HttpMethod::from_str("PUT"), Err(HttpProxyErr::UnsupportedMethod)));
    assert_eq!(HttpMethod::GET.to_string(), "GET");
    assert_eq!(HttpMethod::POST.to_string(), "POST");
}

#[test]
fn a_request_is_read_and_written() {
    let text = "POST /a/b?c=d HTTP/1.0\r\nHost: example.com\r\nContent-Length: 3\r\n\r\nxyz";
    let (mut request, size) = request(text);
    assert_eq!(size, text.len() - 3);
    assert!(*request.get_http_version() == HttpVersion::HTTPv1);
    assert_eq!(request.get_headers().get("Host"), Some("example.com"));
    assert_eq!(get_content_length(request.get_headers()), 3);
    assert!(request.get_body().is_empty());
    request.get_body().extend_from_slice(b"xyz");
    assert_eq!(request.to_vec_u8(), text.as_bytes());
    assert_eq!(request.clone().to_vec_u8(), text.as_bytes());
}

#[test]
fn a_response_is_read_and_written() {
    let text = "HTTP/1.1 404 Missing\r\nContent-Length: 2\r\nX: y\r\n\r\nno";
    let (mut response, size) = Response::parse_headers(text.as_bytes()).unwrap();
    assert_eq!(size, text.len() - 2);
    assert!(*response.get_http_version() == HttpVersion::HTTPv1_1);
    response.get_body().extend_from_slice(b"no");
    assert_eq!(response.to_vec_u8(), text.as_bytes());
    response.set_headers("X", "z");
    response.set_headers("New", "1");
    assert_eq!(
        response.to_vec_u8(),
        b"HTTP/1.1 404 Missing\r\nContent-Length: 2\r\nX: z\r\nNew: 1\r\n\r\nno"
    );
}

#[test]
fn values_lose_leading_white_space_and_later_fields_win() {
    let (request, _) = request("GET / HTTP/1.1\r\nHost:  a \r\nX:1\r\nX: 2\r\n\r\n");
    assert_eq!(request.get_headers().get("Host"), Some("a "));
    assert_eq!(request.get_headers().get("X"), Some("2"));
    let written = request.to_vec_u8();
    assert_eq!(written, b"GET / HTTP/1.1\r\nHost: a \r\nX: 2\r\n\r\n");
    let (again, size) = Request::parse_headers(&written).unwrap();
    assert_eq!(size, written.len());
    assert_eq!(again.to_vec_u8(), written);
}

#[test]
fn heads_that_are_refused() {
    assert_eq!(refused("GET / HTTP/1.1"), HttpProxyErr::UnexpectedHeaderFormat);
    assert_eq!(refused("GET /\r\n\r\n"), HttpProxyErr::UnexpectedHeaderFormat);
    assert_eq!(refused("PUT / HTTP/1.1\r\nHost: a\r\n\r\n"), HttpProxyErr::UnsupportedMethod);
    assert_eq!(refused("GET / HTTP/3\r\nHost: a\r\n\r\n"), HttpProxyErr::UnsupportedVersion);
    assert_eq!(refused("GET / HTTP/1.1\r\nHost\r\n\r\n"), HttpProxyErr::UnexpectedHeaderFormat);
    assert_eq!(refused("GET / HTTP/1.1\r\nX: a\r\n\r\n"), HttpProxyErr::UnexpectedHeaderFormat);
    assert_eq!(refused("GET / HTTP/1.1\r\nHost: a\r\n"), HttpProxyErr::MaxHeaderSizeExceeded);
    assert_eq!(
        refused("GET / HTTP/1.1\r\nHost: a\r\nContent-Length: x\r\n\r\n"),
        HttpProxyErr::UnexpectedHeaderFormat
    );
    let mut bytes = b"GET / HTTP/1.1\r\nHost: ".to_vec();
    bytes.extend_from_slice(&[0xff, 0xfe]);
    bytes.extend_from_slice(b"\r\n\r\n");
    assert!(matches!(Request::parse_headers(&bytes), Err(HttpProxyErr::UnexpectedHeaderFormat)));
}

#[test]
fn lines_are_read() {
    assert!(matches!(parse_header_key_value(b"Host: a:b"), Ok(("Host", "a:b"))));
    assert!(matches!(parse_header_key_value(b":"), Ok(("", ""))));
    assert!(matches!(parse_header_key_value(b"Host"), Err(HttpProxyErr::UnexpectedHeaderFormat)));
    match parse_request_line(b"GET /x HTTP/1.1 more") {
        Ok((HttpMethod::GET, uri, HttpVersion::HTTPv1_1)) => assert_eq!(uri, "/x"),
        _ => panic!("Expected a request line"),
    }
    match parse_status_line(b"HTTP/1.0 200") {
        Ok((HttpVersion::HTTPv1, 200, reason)) => assert_eq!(reason, ""),
        _ => panic!("Expected a status line"),
    }
    match parse_status_line(b"HTTP/1.1 200 Not much") {
        Ok((HttpVersion::HTTPv1_1, 200, reason)) => assert_eq!(reason, "Not"),
        _ => panic!("Expected a status line"),
    }
    assert!(matches!(parse_status_line(b"HTTP/1.1"), Err(HttpProxyErr::UnexpectedHeaderFormat)));
    assert!(matches!(parse_status_line(b"HTTP/1.1 abc"), Err(HttpProxyErr::UnexpectedHeaderFormat)));
    assert!(matches!(parse_status_line(b"HTTP/1.1 4294967296"), Err(HttpProxyErr::UnexpectedHeaderFormat)));
    assert!(matches!(parse_status_line(b"HTTP/9 200"), Err(HttpProxyErr::UnsupportedVersion)));
}

#[test]
fn a_header_block_ends_at_an_empty_line_or_in_a_line_without_end() {
    match parse_headers(b"A: 1\r\nB: 2\r\n\r\nbody") {
        Ok((headers, size)) => {
            assert_eq!(headers.len(), 2);
            assert_eq!(size, 14);
        }
        Err(_) => panic!("Expected headers"),
    }
    match parse_headers(b"A: 1\r\nB: 2") {
        Ok((headers, size)) => {
            assert_eq!(headers.get("A"), Some("1"));
            assert_eq!(headers.get("B"), None);
            assert_eq!(size, 6);
        }
        Err(_) => panic!("Expected headers"),
    }
    assert!(matches!(parse_headers(b""), Err(HttpProxyErr::MaxHeaderSizeExceeded)));
    match parse_headers(b"\r\n") {
        Ok((headers, size)) => {
            assert_eq!(get_content_length(&headers), 0);
            assert_eq!(size, 2);
        }
        Err(_) => panic!("Expected headers"),
    }
}

#[test]
fn what_follows_a_head_does_not_change_it() {
    let head = "GET / HTTP/1.1\r\nHost: a\r\n\r\n";
    let (first, size) = request(head);
    let (second, same) = request(&format!("{head}GET /other HTTP/1.1\r\n"));
    assert_eq!(size, head.len());
    assert_eq!(same, size);
    assert_eq!(first.to_vec_u8(), second.to_vec_u8());
}

#[test]
fn host_rules_are_tried_in_order() {
    let rules: ProxyRules = vec![
        ProxyRuleHost::new("a", "first"),
        ProxyRuleHost::new("b", "second"),
        ProxyRuleHost::new("b", "third"),
    ];
    let (mut b, _) = request("GET / HTTP/1.1\r\nHost: b\r\n\r\n");
    assert!(!rules[0].matches(&b));
    assert_eq!(proxy_rewrite_request(&mut b, &rules), Ok(1));
    assert_eq!(b.to_vec_u8(), b"GET / HTTP/1.1\r\nHost: second\r\n\r\n");
    let (mut c, _) = request("GET / HTTP/1.1\r\nHost: c\r\n\r\n");
    assert_eq!(proxy_rewrite_request(&mut c, &rules), Err(HttpProxyErr::ProxyRuleNotFound));
    assert_eq!(c.to_vec_u8(), b"GET / HTTP/1.1\r\nHost: c\r\n\r\n");
}
