//! What holds between reading and writing message heads.
use crate::decimal::{decimal_text, is_digit, lemma_decimal_round_trip};
use crate::errors::HttpProxyErr;
use crate::headers::{has_field, law_put, named_at, put, unique_names, Fields};
use crate::http::{
    content_length, crlf, field_lines, has_needed_fields, method_text, parse_block, parse_field,
    parse_fields, parse_head, parse_method, parse_start, parse_version, serialized, start_text,
    version_text, Head, HttpMethod, HttpVersion, MessageKind, StartLine,
};
use crate::search::{
    first_at, index_of, lemma_index_is, lemma_index_of, lemma_index_prefix, lemma_occurs_index, occurs_at,
};
use crate::text::{lemma_encode_ascii, lemma_encode_concat, lemma_no_ascii, split_space, trimmed};
use crate::transmittable::valid_head;
use vstd::prelude::*;
use vstd::utf8::*;

verus! {

/// Header lines take no more bytes than there are, and read names stay unique.
pub proof fn lemma_fields_bounds(buf: Seq<u8>, acc: Fields)
    requires
        unique_names(acc),
    ensures
        parse_fields(buf, acc) matches Ok((fields, n)) ==> 0 <= n <= buf.len() && unique_names(fields),
    decreases buf.len(),
{
    lemma_index_of(buf, crlf());
    if buf.len() > 0 {
        if let Some(i) = index_of(buf, crlf()) {
            if i > 0 {
                if let Ok((name, value)) = parse_field(buf.take(i)) {
                    law_put(acc, name, value);
                    lemma_fields_bounds(buf.skip(i + 2), put(acc, name, value));
                }
            }
        }
    }
}

/// A head takes at least the two bytes of a line end, and no more bytes than there are; what is
/// read can be sent.
pub proof fn law_head_bounds(kind: MessageKind, buf: Seq<u8>)
    ensures
        parse_head(kind, buf) matches Ok((head, n)) ==> {
            &&& 2 <= n <= buf.len()
            &&& valid_head(kind, head)
            &&& content_length(head.fields) is Some
        },
{
    lemma_index_of(buf, crlf());
    if let Some(i) = index_of(buf, crlf()) {
        lemma_fields_bounds(buf.skip(i + 2), seq![]);
    }
}

proof fn lemma_fields_prefix(buf: Seq<u8>, more: Seq<u8>, acc: Fields)
    requires
        unique_names(acc),
    ensures
        parse_fields(buf + more, acc) matches Ok((fields, n)) ==> n < buf.len() ==> parse_fields(buf, acc)
            == parse_fields(buf + more, acc),
    decreases buf.len(),
{
    let whole = buf + more;
    lemma_index_of(whole, crlf());
    lemma_index_of(buf, crlf());
    lemma_fields_bounds(whole, acc);
    if let Ok((fields, n)) = parse_fields(whole, acc) {
        if n < buf.len() {
            match index_of(whole, crlf()) {
                None => {
                    if let Some(i) = index_of(buf, crlf()) {
                        assert(whole.subrange(i, i + 2) =~= buf.subrange(i, i + 2));
                        assert(occurs_at(whole, crlf(), i));
                    }
                },
                Some(i) => {
                    if i > 0 {
                        let (name, value) = parse_field(whole.take(i))->Ok_0;
                        law_put(acc, name, value);
                        lemma_fields_bounds(whole.skip(i + 2), put(acc, name, value));
                    }
                    assert(i + 2 <= n);
                    assert(buf.subrange(i, i + 2) =~= whole.subrange(i, i + 2));
                    assert(occurs_at(buf, crlf(), i));
                    lemma_occurs_index(buf, crlf(), i);
                    lemma_index_prefix(buf, more, crlf());
                    assert(index_of(buf, crlf()) == Some(i));
                    if i > 0 {
                        assert(buf.take(i) =~= whole.take(i));
                        let (name, value) = parse_field(buf.take(i))->Ok_0;
                        assert(whole.skip(i + 2) =~= buf.skip(i + 2) + more);
                        lemma_fields_prefix(buf.skip(i + 2), more, put(acc, name, value));
                    }
                },
            }
        }
    }
}

/// A head that ends within the bytes at hand is read the same way whatever follows them.
pub proof fn law_head_prefix(kind: MessageKind, buf: Seq<u8>, more: Seq<u8>)
    ensures
        parse_head(kind, buf + more) matches Ok((head, n)) ==> n < buf.len() ==> parse_head(kind, buf)
            == parse_head(kind, buf + more),
{
    let whole = buf + more;
    law_head_bounds(kind, whole);
    lemma_index_of(whole, crlf());
    if let Ok((head, n)) = parse_head(kind, whole) {
        if n < buf.len() {
            let i = index_of(whole, crlf())->0;
            lemma_fields_bounds(whole.skip(i + 2), seq![]);
            assert(buf.subrange(i, i + 2) =~= whole.subrange(i, i + 2));
            assert(occurs_at(buf, crlf(), i));
            lemma_occurs_index(buf, crlf(), i);
            lemma_index_prefix(buf, more, crlf());
            assert(buf.take(i) =~= whole.take(i));
            assert(whole.skip(i + 2) =~= buf.skip(i + 2) + more);
            lemma_fields_prefix(buf.skip(i + 2), more, seq![]);
        }
    }
}

/// No line end stands in the encoding of a text.
pub open spec fn one_line(s: Seq<char>) -> bool {
    index_of(encode_utf8(s), crlf()) is None
}

/// A field that can stand in a header line.
pub open spec fn clean_field(name: Seq<char>, value: Seq<char>) -> bool {
    &&& index_of(name, seq![':']) is None
    &&& one_line(name)
    &&& one_line(value)
    &&& trimmed(value) == value
}

/// A word that can stand in a first line.
pub open spec fn clean_word(s: Seq<char>) -> bool {
    &&& index_of(s, seq![' ']) is None
    &&& one_line(s)
}

/// A head all of whose parts survive being written.
pub open spec fn clean_head(kind: MessageKind, head: Head) -> bool {
    &&& valid_head(kind, head)
    &&& content_length(head.fields) is Some
    &&& match head.start {
        StartLine::Request { method, uri, version } => clean_word(uri),
        StartLine::Response { version, status, reason } => status <= u32::MAX && clean_word(reason),
    }
    &&& forall|i: int|
        0 <= i < head.fields.len() ==> clean_field((#[trigger] head.fields[i]).0, head.fields[i].1)
}

/// A part of bytes without a line end has no line end.
proof fn lemma_part_one_line(whole: Seq<u8>, from: int, to: int)
    requires
        index_of(whole, crlf()) is None,
        0 <= from <= to <= whole.len(),
    ensures
        index_of(whole.subrange(from, to), crlf()) is None,
{
    let part = whole.subrange(from, to);
    lemma_index_of(whole, crlf());
    lemma_index_of(part, crlf());
    if let Some(i) = index_of(part, crlf()) {
        assert(whole.subrange(from + i, from + i + 2) =~= part.subrange(i, i + 2));
        assert(occurs_at(whole, crlf(), from + i));
    }
}

/// The line in front of the first line end has no line end.
proof fn lemma_line(buf: Seq<u8>, i: int)
    requires
        first_at(buf, crlf(), i),
    ensures
        index_of(buf.take(i), crlf()) is None,
{
    let line = buf.take(i);
    lemma_index_of(line, crlf());
    if let Some(k) = index_of(line, crlf()) {
        assert(buf.subrange(k, k + 2) =~= line.subrange(k, k + 2));
        assert(occurs_at(buf, crlf(), k));
    }
}

/// A part of a text without a line end has no line end.
proof fn lemma_text_part_one_line(s: Seq<char>, from: int, to: int)
    requires
        one_line(s),
        0 <= from <= to <= s.len(),
    ensures
        one_line(s.subrange(from, to)),
{
    let a = s.subrange(0, from);
    let b = s.subrange(from, to);
    let c = s.subrange(to, s.len() as int);
    assert(s =~= a + b + c);
    lemma_encode_concat(a, b);
    lemma_encode_concat(a + b, c);
    let x = encode_utf8(a).len() as int;
    let y = encode_utf8(b).len() as int;
    assert(encode_utf8(s).subrange(x, x + y) =~= encode_utf8(b));
    lemma_part_one_line(encode_utf8(s), x, x + y);
}

/// The first word of a one-line text is a clean word, and the rest is one line.
proof fn lemma_split_clean(s: Seq<char>)
    requires
        one_line(s),
    ensures
        clean_word(split_space(s).0),
        split_space(s).1 matches Some(rest) ==> one_line(rest),
{
    lemma_index_of(s, seq![' ']);
    if let Some(i) = index_of(s, seq![' ']) {
        let word = s.take(i);
        assert(word =~= s.subrange(0, i));
        assert(s.skip(i + 1) =~= s.subrange(i + 1, s.len() as int));
        lemma_text_part_one_line(s, 0, i);
        lemma_text_part_one_line(s, i + 1, s.len() as int);
        lemma_index_of(word, seq![' ']);
        if let Some(k) = index_of(word, seq![' ']) {
            assert(s.subrange(k, k + 1) =~= word.subrange(k, k + 1));
            assert(occurs_at(s, seq![' '], k));
        }
    }
}

/// Trimming drops a prefix and leaves nothing to trim.
proof fn lemma_trimmed(s: Seq<char>) -> (k: int)
    ensures
        0 <= k <= s.len(),
        trimmed(s) == s.subrange(k, s.len() as int),
        trimmed(trimmed(s)) == trimmed(s),
    decreases s.len(),
{
    if s.len() > 0 && crate::text::is_white_space(s[0]) {
        let k = lemma_trimmed(s.drop_first());
        assert(s.drop_first().subrange(k, s.len() - 1) =~= s.subrange(k + 1, s.len() as int));
        k + 1
    } else {
        assert(s.subrange(0, s.len() as int) =~= s);
        0
    }
}

proof fn lemma_field_clean(line: Seq<u8>)
    requires
        index_of(line, crlf()) is None,
    ensures
        parse_field(line) matches Ok((name, value)) ==> clean_field(name, value),
{
    let colon = seq![':' as u8];
    lemma_index_of(line, colon);
    if let Ok((name, value)) = parse_field(line) {
        let i = index_of(line, colon)->0;
        let key = line.take(i);
        let raw = decode_utf8(line.skip(i + 1));
        assert(key =~= line.subrange(0, i));
        assert(line.skip(i + 1) =~= line.subrange(i + 1, line.len() as int));
        lemma_part_one_line(line, 0, i);
        lemma_part_one_line(line, i + 1, line.len() as int);
        decode_utf8_encode_utf8(key);
        decode_utf8_encode_utf8(line.skip(i + 1));
        let k = lemma_trimmed(raw);
        lemma_text_part_one_line(raw, k, raw.len() as int);
        lemma_index_of(key, colon);
        if let Some(j) = index_of(key, colon) {
            assert(line.subrange(j, j + 1) =~= key.subrange(j, j + 1));
            assert(occurs_at(line, colon, j));
        }
        lemma_no_ascii(name, ':');
    }
}

proof fn lemma_fields_clean(buf: Seq<u8>, acc: Fields)
    requires
        unique_names(acc),
        forall|i: int| 0 <= i < acc.len() ==> clean_field((#[trigger] acc[i]).0, acc[i].1),
    ensures
        parse_fields(buf, acc) matches Ok((fields, n)) ==> forall|i: int|
            0 <= i < fields.len() ==> clean_field((#[trigger] fields[i]).0, fields[i].1),
    decreases buf.len(),
{
    lemma_index_of(buf, crlf());
    if buf.len() > 0 {
        if let Some(i) = index_of(buf, crlf()) {
            if i > 0 {
                if let Ok((name, value)) = parse_field(buf.take(i)) {
                    lemma_line(buf, i);
                    lemma_field_clean(buf.take(i));
                    law_put(acc, name, value);
                    let next = put(acc, name, value);
                    assert forall|k: int| 0 <= k < next.len() implies clean_field(
                        (#[trigger] next[k]).0,
                        next[k].1,
                    ) by {
                        if next[k] != (name, value) {
                            assert(k < acc.len() && next[k] == acc[k]);
                        }
                    }
                    lemma_fields_clean(buf.skip(i + 2), next);
                }
            }
        }
    }
}

/// Every head that is read survives being written.
pub proof fn law_parsed_clean(kind: MessageKind, buf: Seq<u8>)
    ensures
        parse_head(kind, buf) matches Ok((head, n)) ==> clean_head(kind, head),
{
    law_head_bounds(kind, buf);
    lemma_index_of(buf, crlf());
    if let Ok((head, n)) = parse_head(kind, buf) {
        let i = index_of(buf, crlf())->0;
        let line = buf.take(i);
        lemma_line(buf, i);
        decode_utf8_encode_utf8(line);
        let s = decode_utf8(line);
        lemma_split_clean(s);
        let rest = split_space(s).1->0;
        lemma_split_clean(rest);
        if split_space(rest).1 is Some {
            lemma_split_clean(split_space(rest).1->0);
        } else if kind is Response {
            lemma_empty_clean();
        }
        lemma_fields_clean(buf.skip(i + 2), seq![]);
    }
}

proof fn lemma_empty_clean()
    ensures
        clean_word(seq![]),
{
    let empty = Seq::<char>::empty();
    lemma_index_of(empty, seq![' ']);
    lemma_index_of(encode_utf8(empty), crlf());
}

/// A sequence without an element has no occurrence of it.
pub proof fn lemma_absent<T>(s: Seq<T>, c: T)
    requires
        forall|i: int| 0 <= i < s.len() ==> #[trigger] s[i] != c,
    ensures
        index_of(s, seq![c]) is None,
{
    lemma_index_of(s, seq![c]);
    if let Some(i) = index_of(s, seq![c]) {
        assert(s.subrange(i, i + 1)[0] == s[i]);
    }
}

/// The converse: where an element has no occurrence, every element is another.
proof fn lemma_absent_converse<T>(s: Seq<T>, c: T)
    requires
        index_of(s, seq![c]) is None,
    ensures
        forall|i: int| 0 <= i < s.len() ==> #[trigger] s[i] != c,
{
    lemma_index_of(s, seq![c]);
    assert forall|i: int| 0 <= i < s.len() implies #[trigger] s[i] != c by {
        if s[i] == c {
            assert(s.subrange(i, i + 1) =~= seq![c]);
            assert(occurs_at(s, seq![c], i));
        }
    }
}

/// An element behind a sequence without it stands there first.
pub proof fn lemma_first_after<T>(s: Seq<T>, c: T, rest: Seq<T>)
    requires
        index_of(s, seq![c]) is None,
    ensures
        index_of(s + seq![c] + rest, seq![c]) == Some(s.len() as int),
{
    let whole = s + seq![c] + rest;
    let n = s.len() as int;
    lemma_absent_converse(s, c);
    assert(whole.subrange(n, n + 1) =~= seq![c]);
    assert forall|j: int| 0 <= j < n implies !#[trigger] occurs_at(whole, seq![c], j) by {
        if occurs_at(whole, seq![c], j) {
            assert(whole.subrange(j, j + 1)[0] == s[j]);
        }
    }
    lemma_index_is(whole, seq![c], n);
}

/// Splitting undoes joining with a space.
pub proof fn lemma_split_joined(word: Seq<char>, rest: Seq<char>)
    requires
        index_of(word, seq![' ']) is None,
    ensures
        split_space(word + seq![' '] + rest) == (word, Some(rest)),
{
    let whole = word + seq![' '] + rest;
    lemma_first_after(word, ' ', rest);
    assert(whole.take(word.len() as int) =~= word);
    assert(whole.skip(word.len() as int + 1) =~= rest);
}

/// A text without a carriage return is one line.
proof fn lemma_no_cr(s: Seq<char>)
    requires
        index_of(s, seq!['\r']) is None,
    ensures
        one_line(s),
{
    let bytes = encode_utf8(s);
    let cr: u8 = '\r' as u8;
    assert(cr == 13u8);
    lemma_no_ascii(s, '\r');
    lemma_absent_converse(bytes, cr);
    lemma_index_of(bytes, crlf());
    if let Some(i) = index_of(bytes, crlf()) {
        assert(bytes.subrange(i, i + 2)[0] == bytes[i]);
    }
}

/// Bytes without a line end stay so when joined by a byte that is no part of one.
proof fn lemma_joined_one_line(a: Seq<u8>, c: u8, b: Seq<u8>)
    requires
        index_of(a, crlf()) is None,
        index_of(b, crlf()) is None,
        c != 13 && c != 10,
    ensures
        index_of(a + seq![c] + b, crlf()) is None,
{
    let whole = a + seq![c] + b;
    lemma_index_of(a, crlf());
    lemma_index_of(b, crlf());
    lemma_index_of(whole, crlf());
    if let Some(i) = index_of(whole, crlf()) {
        assert(whole.subrange(i, i + 2)[0] == whole[i]);
        assert(whole.subrange(i, i + 2)[1] == whole[i + 1]);
        let n = a.len() as int;
        assert(whole[n] == c);
        if i + 1 < n {
            assert(a.subrange(i, i + 2) =~= whole.subrange(i, i + 2));
            assert(occurs_at(a, crlf(), i));
        } else {
            assert(i > n);
            assert(b.subrange(i - n - 1, i - n + 1) =~= whole.subrange(i, i + 2));
            assert(occurs_at(b, crlf(), i - n - 1));
        }
    }
}

/// The first line end behind a line is the one that ends it.
pub proof fn lemma_line_end(line: Seq<u8>, rest: Seq<u8>)
    requires
        index_of(line, crlf()) is None,
    ensures
        index_of(line + crlf() + rest, crlf()) == Some(line.len() as int),
{
    let whole = line + crlf() + rest;
    let n = line.len() as int;
    lemma_index_of(line, crlf());
    assert(whole.subrange(n, n + 2) =~= crlf());
    assert forall|j: int| 0 <= j < n implies !#[trigger] occurs_at(whole, crlf(), j) by {
        if occurs_at(whole, crlf(), j) {
            assert(whole.subrange(j, j + 2)[1] == whole[j + 1]);
            assert(whole[n] == 13u8);
            assert(j + 1 < n);
            assert(line.subrange(j, j + 2) =~= whole.subrange(j, j + 2));
            assert(occurs_at(line, crlf(), j));
        }
    }
    lemma_index_is(whole, crlf(), n);
}

/// Version and method texts are words, and are read back.
pub proof fn lemma_fixed_words(version: HttpVersion, method: HttpMethod)
    requires
        version != HttpVersion::HTTPv2,
    ensures
        clean_word(version_text(version)),
        clean_word(method_text(method)),
        parse_version(version_text(version)) == Ok::<HttpVersion, HttpProxyErr>(version),
        parse_method(method_text(method)) == Ok::<HttpMethod, HttpProxyErr>(method),
{
    reveal_strlit("HTTP/1.1");
    reveal_strlit("HTTP/1.0");
    reveal_strlit("GET");
    reveal_strlit("POST");
    assert("HTTP/1.1"@[7] == '1' && "HTTP/1.0"@[7] == '0');
    assert("GET"@[0] == 'G' && "POST"@[0] == 'P');
    lemma_absent(version_text(version), ' ');
    lemma_absent(version_text(version), '\r');
    lemma_absent(method_text(method), ' ');
    lemma_absent(method_text(method), '\r');
    lemma_no_cr(version_text(version));
    lemma_no_cr(method_text(method));
}

/// Two words joined by a space are one line.
proof fn lemma_words_one_line(a: Seq<char>, b: Seq<char>)
    requires
        one_line(a),
        one_line(b),
    ensures
        one_line(a + seq![' '] + b),
{
    lemma_encode_ascii(' ');
    lemma_encode_concat(a, seq![' ']);
    lemma_encode_concat(a + seq![' '], b);
    lemma_joined_one_line(encode_utf8(a), ' ' as u8, encode_utf8(b));
}

/// A first line that is written is one line, and is read back.
proof fn lemma_start_round_trip(kind: MessageKind, head: Head)
    requires
        clean_head(kind, head),
    ensures
        one_line(start_text(head.start)),
        parse_start(kind, encode_utf8(start_text(head.start))) == Ok::<StartLine, HttpProxyErr>(head.start),
{
    let text = start_text(head.start);
    encode_utf8_valid_utf8(text);
    encode_utf8_decode_utf8(text);
    let space = seq![' '];
    match head.start {
        StartLine::Request { method, uri, version } => {
            let m = method_text(method);
            let v = version_text(version);
            lemma_fixed_words(version, method);
            assert(text =~= m + space + (uri + space + v));
            lemma_split_joined(m, uri + space + v);
            lemma_split_joined(uri, v);
            lemma_words_one_line(uri, v);
            lemma_words_one_line(m, uri + space + v);
        },
        StartLine::Response { version, status, reason } => {
            let v = version_text(version);
            let d = decimal_text(status);
            lemma_fixed_words(version, HttpMethod::GET);
            lemma_decimal_round_trip(status);
            assert forall|i: int| 0 <= i < d.len() implies #[trigger] d[i] != ' ' by {
                assert(is_digit(d[i]));
            }
            assert forall|i: int| 0 <= i < d.len() implies #[trigger] d[i] != '\r' by {
                assert(is_digit(d[i]));
            }
            lemma_absent(d, ' ');
            lemma_absent(d, '\r');
            lemma_no_cr(d);
            assert(text =~= v + space + (d + space + reason));
            lemma_split_joined(v, d + space + reason);
            lemma_split_joined(d, reason);
            lemma_words_one_line(d, reason);
            lemma_words_one_line(v, d + space + reason);
        },
    }
}

/// The bytes of one header line, without its end.
pub open spec fn field_line(name: Seq<char>, value: Seq<char>) -> Seq<u8> {
    encode_utf8(name) + seq![':' as u8, ' ' as u8] + encode_utf8(value)
}

/// A header line that is written is one line, and is read back.
proof fn lemma_field_round_trip(name: Seq<char>, value: Seq<char>)
    requires
        clean_field(name, value),
    ensures
        index_of(field_line(name, value), crlf()) is None,
        parse_field(field_line(name, value)) == Ok::<(Seq<char>, Seq<char>), HttpProxyErr>((name, value)),
{
    let line = field_line(name, value);
    let k = encode_utf8(name);
    let v = encode_utf8(value);
    let colon: u8 = ':' as u8;
    let padded = seq![' '] + value;
    lemma_encode_ascii(' ');
    lemma_encode_concat(seq![' '], value);
    let tail = encode_utf8(padded);
    assert(tail =~= seq![' ' as u8] + v);
    assert(line =~= k + seq![colon] + tail);
    let empty = Seq::<u8>::empty();
    lemma_index_of(empty, crlf());
    lemma_joined_one_line(empty, ' ' as u8, v);
    assert(empty + seq![' ' as u8] + v =~= tail);
    lemma_joined_one_line(k, colon, tail);
    lemma_no_ascii(name, ':');
    lemma_first_after(k, colon, tail);
    assert(line.take(k.len() as int) =~= k);
    assert(line.skip(k.len() as int + 1) =~= tail);
    encode_utf8_valid_utf8(name);
    encode_utf8_valid_utf8(padded);
    encode_utf8_decode_utf8(name);
    encode_utf8_decode_utf8(padded);
    assert(padded.drop_first() =~= value);
    assert(padded[0] == ' ');
}

/// Header lines, taken from the front.
proof fn lemma_lines_front(fields: Fields)
    requires
        fields.len() > 0,
    ensures
        field_lines(fields) == field_line(fields[0].0, fields[0].1) + crlf() + field_lines(fields.drop_first()),
    decreases fields.len(),
{
    let rest = fields.drop_first();
    if rest.len() == 0 {
        assert(fields.drop_last() =~= Seq::<(Seq<char>, Seq<char>)>::empty());
        assert(field_lines(fields.drop_last()) =~= Seq::<u8>::empty());
        assert(field_lines(rest) =~= Seq::<u8>::empty());
        assert(field_lines(fields) =~= field_line(fields[0].0, fields[0].1) + crlf() + field_lines(rest));
    } else {
        lemma_lines_front(fields.drop_last());
        assert(fields.drop_last().drop_first() =~= rest.drop_last());
        assert(fields.last() == rest.last());
        assert(field_lines(fields) =~= field_line(fields[0].0, fields[0].1) + crlf() + field_lines(rest));
    }
}

/// Reading a block whose first line is a given field goes on behind that line.
proof fn lemma_first_field(name: Seq<char>, value: Seq<char>, behind: Seq<u8>, acc: Fields)
    requires
        clean_field(name, value),
    ensures
        parse_fields(field_line(name, value) + crlf() + behind, acc) == (match parse_fields(
            behind,
            put(acc, name, value),
        ) {
            Ok((fields, n)) => Ok::<(Fields, int), HttpProxyErr>(
                (fields, n + field_line(name, value).len() + 2),
            ),
            Err(e) => Err(e),
        }),
{
    let line = field_line(name, value);
    let buf = line + crlf() + behind;
    lemma_field_round_trip(name, value);
    lemma_line_end(line, behind);
    assert(buf.take(line.len() as int) =~= line);
    assert(buf.skip(line.len() as int + 2) =~= behind);
    assert(line.len() > 0);
}

/// Written header lines are read back.
proof fn lemma_lines_round_trip(fields: Fields, acc: Fields, body: Seq<u8>)
    requires
        unique_names(acc + fields),
        forall|i: int| 0 <= i < fields.len() ==> clean_field((#[trigger] fields[i]).0, fields[i].1),
    ensures
        parse_fields(field_lines(fields) + crlf() + body, acc) == Ok::<(Fields, int), HttpProxyErr>(
            (acc + fields, field_lines(fields).len() as int + 2),
        ),
    decreases fields.len(),
{
    let buf = field_lines(fields) + crlf() + body;
    if fields.len() == 0 {
        let empty = Seq::<u8>::empty();
        lemma_index_of(empty, crlf());
        lemma_line_end(empty, body);
        assert(buf =~= empty + crlf() + body);
        assert(acc + fields =~= acc);
    } else {
        let (name, value) = fields[0];
        let rest = fields.drop_first();
        let line = field_line(name, value);
        let behind = field_lines(rest) + crlf() + body;
        lemma_lines_front(fields);
        assert(buf =~= line + crlf() + behind);
        lemma_first_field(name, value, behind, acc);
        assert(!has_field(acc, name)) by {
            if has_field(acc, name) {
                let k = choose|k: int| named_at(acc, name, k);
                assert(named_at(acc, name, k));
                assert((acc + fields)[k].0 == (acc + fields)[acc.len() as int].0);
            }
        }
        let next = put(acc, name, value);
        assert(next + rest =~= acc + fields);
        assert forall|i: int| 0 <= i < rest.len() implies clean_field((#[trigger] rest[i]).0, rest[i].1) by {
            assert(rest[i] == fields[i + 1]);
        }
        lemma_lines_round_trip(rest, next, body);
    }
}

/// Reading a head is reading its first line, then the block behind it.
proof fn lemma_head_of_parts(
    kind: MessageKind,
    line: Seq<u8>,
    block: Seq<u8>,
    start: StartLine,
    fields: Fields,
    n: int,
)
    requires
        index_of(line, crlf()) is None,
        parse_start(kind, line) == Ok::<StartLine, HttpProxyErr>(start),
        parse_block(block) == Ok::<(Fields, int), HttpProxyErr>((fields, n)),
        has_needed_fields(kind, fields),
    ensures
        parse_head(kind, line + crlf() + block) == Ok::<(Head, int), HttpProxyErr>(
            (Head { start, fields }, n + line.len() + 2),
        ),
{
    let buf = line + crlf() + block;
    lemma_line_end(line, block);
    assert(buf.take(line.len() as int) =~= line);
    assert(buf.skip(line.len() as int + 2) =~= block);
}

/// A written block is read back.
proof fn lemma_block_round_trip(kind: MessageKind, head: Head, body: Seq<u8>)
    requires
        clean_head(kind, head),
    ensures
        parse_block(field_lines(head.fields) + crlf() + body) == Ok::<(Fields, int), HttpProxyErr>(
            (head.fields, field_lines(head.fields).len() as int + 2),
        ),
{
    let empty = Seq::<(Seq<char>, Seq<char>)>::empty();
    assert(empty + head.fields =~= head.fields);
    lemma_lines_round_trip(head.fields, empty, body);
}

/// The bytes of a message, by its parts.
proof fn lemma_serialized_parts(line: Seq<u8>, lines: Seq<u8>, body: Seq<u8>)
    ensures
        line + crlf() + lines + crlf() + body == line + crlf() + (lines + crlf() + body),
        (line + crlf() + lines + crlf() + body).len() - body.len() == lines.len() + 2 + line.len() + 2,
        (line + crlf() + lines + crlf() + body).skip(lines.len() as int + 2 + line.len() + 2) == body,
{
    assert(line + crlf() + lines + crlf() + body =~= line + crlf() + (lines + crlf() + body));
    assert((line + crlf() + lines + crlf() + body).skip(lines.len() as int + 2 + line.len() + 2) =~= body);
}

/// A clean head that is written, with any body behind it, is read back, and the body starts where
/// the head ends.
pub proof fn law_round_trip(kind: MessageKind, head: Head, body: Seq<u8>)
    requires
        clean_head(kind, head),
    ensures
        parse_head(kind, serialized(head, body)) == Ok::<(Head, int), HttpProxyErr>(
            (head, serialized(head, body).len() - body.len()),
        ),
        serialized(head, body).skip(serialized(head, body).len() - body.len()) == body,
{
    let line = encode_utf8(start_text(head.start));
    let lines = field_lines(head.fields);
    lemma_start_round_trip(kind, head);
    lemma_block_round_trip(kind, head, body);
    lemma_serialized_parts(line, lines, body);
    lemma_head_of_parts(
        kind,
        line,
        lines + crlf() + body,
        head.start,
        head.fields,
        lines.len() as int + 2,
    );
}

/// A message that was read, whatever body it got, is read back as the same message from the bytes
/// it is sent as.
pub proof fn law_reread(kind: MessageKind, buf: Seq<u8>, body: Seq<u8>)
    ensures
        parse_head(kind, buf) matches Ok((head, n)) ==> parse_head(kind, serialized(head, body)) == Ok::<
            (Head, int),
            HttpProxyErr,
        >((head, serialized(head, body).len() - body.len())),
{
    law_parsed_clean(kind, buf);
    if let Ok((head, n)) = parse_head(kind, buf) {
        law_round_trip(kind, head, body);
    }
}

/// Setting a field to a clean value leaves a head clean, except for the length of the body.
pub proof fn law_put_clean(kind: MessageKind, head: Head, name: Seq<char>, value: Seq<char>)
    requires
        clean_head(kind, head),
        clean_field(name, value),
        name != "Content-Length"@,
    ensures
        clean_head(kind, Head { fields: put(head.fields, name, value), ..head }),
        content_length(put(head.fields, name, value)) == content_length(head.fields),
{
    let next = put(head.fields, name, value);
    law_put(head.fields, name, value);
    assert forall|k: int| 0 <= k < next.len() implies clean_field((#[trigger] next[k]).0, next[k].1) by {
        if next[k] != (name, value) {
            assert(k < head.fields.len() && next[k] == head.fields[k]);
        }
    }
    if has_field(head.fields, "Host"@) {
        if name != "Host"@ {
            assert(crate::headers::lookup(next, "Host"@) is Some);
        }
    }
}

} // verus!
