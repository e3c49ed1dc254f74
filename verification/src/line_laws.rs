//! What holds of reading and writing the lines of a message.
use crate::decimal::{decimal_text, lemma_decimal_round_trip, unsigned, unsigned_up_to};
use crate::errors::HttpProxyErr;
use crate::headers::{lookup, put, Fields};
use crate::http::{
    content_length, crlf, field_lines, method_text, parse_block, parse_field, parse_fields, parse_head, parse_method,
    parse_start, parse_version, serialized, start_text, start_version, version_text, Head, HttpMethod, HttpVersion,
    MessageKind, StartLine,
};
use crate::http_laws::{lemma_absent, lemma_first_after, lemma_fixed_words, lemma_line_end};
use crate::search::{index_of, lemma_index_of};
use crate::text::{lemma_encode_ascii, lemma_encode_concat, lemma_no_ascii, trimmed};
use crate::word_laws::{law_number_text, law_split};
use vstd::prelude::*;
use vstd::utf8::*;

verus! {

/// Two versions have a text, and a text is read as the version whose text it is, if it is one.
pub proof fn law_versions(text: Seq<char>)
    ensures
        version_text(HttpVersion::HTTPv1_1) == "HTTP/1.1"@,
        version_text(HttpVersion::HTTPv1) == "HTTP/1.0"@,
        match parse_version(text) {
            Ok(version) => version != HttpVersion::HTTPv2 && text == version_text(version),
            Err(e) => {
                &&& e == HttpProxyErr::UnsupportedVersion
                &&& text != "HTTP/1.1"@
                &&& text != "HTTP/1.0"@
            },
        },
{
}

/// A method has a text, and a text is read as the method whose text it is, if it is one.
pub proof fn law_methods(text: Seq<char>)
    ensures
        method_text(HttpMethod::GET) == "GET"@,
        method_text(HttpMethod::POST) == "POST"@,
        match parse_method(text) {
            Ok(method) => text == method_text(method),
            Err(e) => {
                &&& e == HttpProxyErr::UnsupportedMethod
                &&& text != "GET"@
                &&& text != "POST"@
            },
        },
{
}

/// No space stands in a text.
pub open spec fn no_space(s: Seq<char>) -> bool {
    forall|i: int| 0 <= i < s.len() ==> #[trigger] s[i] != ' '
}

/// A text is empty, or opens with a space.
pub open spec fn set_apart(s: Seq<char>) -> bool {
    s.len() == 0 || s[0] == ' '
}

/// The first word of a text is what stands in front of what is set apart.
proof fn lemma_first_word(word: Seq<char>, tail: Seq<char>)
    requires
        no_space(word),
        set_apart(tail),
    ensures
        crate::text::split_space(word + tail) == (
            word,
            if tail.len() == 0 {
                None
            } else {
                Some(tail.skip(1))
            },
        ),
{
    if tail.len() == 0 {
        assert(word + tail =~= word);
        law_split(word, seq![]);
    } else {
        assert(word + tail =~= word + seq![' '] + tail.skip(1));
        law_split(word, tail.skip(1));
    }
}

/// A request line is three words set apart by single spaces: a method, a target, a version. More
/// may follow.
pub proof fn law_request_line(method: Seq<char>, uri: Seq<char>, version: Seq<char>, tail: Seq<char>)
    requires
        no_space(method),
        no_space(uri),
        no_space(version),
        set_apart(tail),
    ensures
        parse_start(
            MessageKind::Request,
            encode_utf8(method + seq![' '] + uri + seq![' '] + version + tail),
        ) == match (parse_method(method), parse_version(version)) {
            (Ok(method), Ok(version)) => Ok::<StartLine, HttpProxyErr>(
                StartLine::Request { method, uri, version },
            ),
            (Err(e), _) => Err(e),
            (_, Err(e)) => Err(e),
        },
{
    let line = method + seq![' '] + uri + seq![' '] + version + tail;
    encode_utf8_valid_utf8(line);
    encode_utf8_decode_utf8(line);
    assert(line =~= method + seq![' '] + (uri + seq![' '] + (version + tail)));
    law_split(method, uri + seq![' '] + (version + tail));
    law_split(uri, version + tail);
    lemma_first_word(version, tail);
}

/// A line of one or two words is no request line.
pub proof fn law_request_line_short(method: Seq<char>, uri: Seq<char>)
    requires
        no_space(method),
        no_space(uri),
    ensures
        parse_start(MessageKind::Request, encode_utf8(method)) == Err::<StartLine, HttpProxyErr>(
            HttpProxyErr::UnexpectedHeaderFormat,
        ),
        parse_start(MessageKind::Request, encode_utf8(method + seq![' '] + uri)) == Err::<
            StartLine,
            HttpProxyErr,
        >(HttpProxyErr::UnexpectedHeaderFormat),
{
    encode_utf8_valid_utf8(method);
    encode_utf8_decode_utf8(method);
    let line = method + seq![' '] + uri;
    encode_utf8_valid_utf8(line);
    encode_utf8_decode_utf8(line);
    law_split(method, uri);
    law_split(uri, seq![]);
}

/// A status line is a version and a number up to the largest of 32 bits, set apart by a space, and
/// the next word, if there is one, is the reason. More may follow.
pub proof fn law_status_line(version: Seq<char>, code: Seq<char>, reason: Seq<char>, tail: Seq<char>)
    requires
        no_space(version),
        no_space(code),
        no_space(reason),
        set_apart(tail),
    ensures
        parse_start(
            MessageKind::Response,
            encode_utf8(version + seq![' '] + code + seq![' '] + reason + tail),
        ) == match (parse_version(version), unsigned_up_to(code, 0xffff_ffff)) {
            (Ok(version), Some(status)) => Ok::<StartLine, HttpProxyErr>(
                StartLine::Response { version, status, reason },
            ),
            (Err(e), _) => Err(e),
            (_, None) => Err(HttpProxyErr::UnexpectedHeaderFormat),
        },
        parse_start(MessageKind::Response, encode_utf8(version + seq![' '] + code)) == match (
            parse_version(version),
            unsigned_up_to(code, 0xffff_ffff),
        ) {
            (Ok(version), Some(status)) => Ok::<StartLine, HttpProxyErr>(
                StartLine::Response { version, status, reason: Seq::empty() },
            ),
            (Err(e), _) => Err(e),
            (_, None) => Err(HttpProxyErr::UnexpectedHeaderFormat),
        },
        parse_start(MessageKind::Response, encode_utf8(version)) == Err::<StartLine, HttpProxyErr>(
            HttpProxyErr::UnexpectedHeaderFormat,
        ),
{
    let line = version + seq![' '] + code + seq![' '] + reason + tail;
    encode_utf8_valid_utf8(line);
    encode_utf8_decode_utf8(line);
    assert(line =~= version + seq![' '] + (code + seq![' '] + (reason + tail)));
    law_split(version, code + seq![' '] + (reason + tail));
    law_split(code, reason + tail);
    lemma_first_word(reason, tail);
    let short = version + seq![' '] + code;
    encode_utf8_valid_utf8(short);
    encode_utf8_decode_utf8(short);
    law_split(version, code);
    encode_utf8_valid_utf8(version);
    encode_utf8_decode_utf8(version);
}

/// Whatever follows them, the version and the status of a status line are those that it opens with.
pub proof fn law_status(version: HttpVersion, status: nat, text: Seq<char>)
    requires
        version != HttpVersion::HTTPv2,
        status <= 0xffff_ffff,
    ensures
        parse_start(
            MessageKind::Response,
            encode_utf8(version_text(version) + seq![' '] + decimal_text(status) + seq![' '] + text),
        ) matches Ok(StartLine::Response { version: v, status: s, reason }) && v == version && s == status && {
            &&& no_space(reason)
            &&& reason == text.take(reason.len() as int)
            &&& set_apart(text.skip(reason.len() as int))
            &&& reason.len() <= text.len()
        },
{
    let v = version_text(version);
    let d = decimal_text(status);
    lemma_fixed_words(version, HttpMethod::GET);
    law_number_text(status);
    reveal_strlit("HTTP/1.1");
    reveal_strlit("HTTP/1.0");
    assert(no_space(v));
    assert(no_space(d)) by {
        assert forall|i: int| 0 <= i < d.len() implies #[trigger] d[i] != ' ' by {
            assert('0' <= d[i] <= '9');
        }
    }
    let k = lemma_word_length(text);
    let word = text.take(k);
    let tail = text.skip(k);
    assert(word + tail =~= text);
    assert(v + seq![' '] + d + seq![' '] + text =~= v + seq![' '] + d + seq![' '] + word + tail);
    law_status_line(v, d, word, tail);
}

/// How long the first word of a text is.
proof fn lemma_word_length(s: Seq<char>) -> (k: int)
    ensures
        0 <= k <= s.len(),
        no_space(s.take(k)),
        set_apart(s.skip(k)),
    decreases s.len(),
{
    if s.len() == 0 || s[0] == ' ' {
        assert(s.skip(0) =~= s);
        0
    } else {
        let k = lemma_word_length(s.skip(1));
        assert forall|i: int| 0 <= i < s.take(k + 1).len() implies #[trigger] s.take(k + 1)[i] != ' ' by {
            if i > 0 {
                assert(s.take(k + 1)[i] == s.skip(1).take(k)[i - 1]);
            }
        }
        assert(s.skip(1).skip(k) =~= s.skip(k + 1));
        k + 1
    }
}

/// A first line that is no text is refused.
pub proof fn law_start_is_text(kind: MessageKind, line: Seq<u8>)
    requires
        !valid_utf8(line),
    ensures
        parse_start(kind, line) == Err::<StartLine, HttpProxyErr>(HttpProxyErr::UnexpectedHeaderFormat),
{
}

/// A first line is written with single spaces.
pub proof fn law_start_text(method: HttpMethod, uri: Seq<char>, version: HttpVersion, status: nat, reason: Seq<char>)
    ensures
        start_text(StartLine::Request { method, uri, version }) == method_text(method) + (seq![' '] + (uri + (seq![
            ' ',
        ] + version_text(version)))),
        start_text(StartLine::Response { version, status, reason }) == version_text(version) + (seq![' '] + (
        decimal_text(status) + (seq![' '] + reason))),
        start_version(StartLine::Request { method, uri, version }) == version,
        start_version(StartLine::Response { version, status, reason }) == version,
{
    assert(start_text(StartLine::Request { method, uri, version }) =~= method_text(method) + (seq![' '] + (uri + (
    seq![' '] + version_text(version)))));
    assert(start_text(StartLine::Response { version, status, reason }) =~= version_text(version) + (seq![' '] + (
    decimal_text(status) + (seq![' '] + reason))));
}

/// A header line is a name in front of the first colon, and behind it a value, without the white
/// space that it opens with.
pub proof fn law_field(name: Seq<char>, value: Seq<char>)
    requires
        forall|i: int| 0 <= i < name.len() ==> #[trigger] name[i] != ':',
    ensures
        parse_field(encode_utf8(name) + seq![58u8] + encode_utf8(value)) == Ok::<
            (Seq<char>, Seq<char>),
            HttpProxyErr,
        >((name, trimmed(value))),
{
    let k = encode_utf8(name);
    let v = encode_utf8(value);
    let line = k + seq![58u8] + v;
    assert(':' as u8 == 58u8);
    lemma_absent(name, ':');
    lemma_no_ascii(name, ':');
    lemma_first_after(k, 58u8, v);
    assert(line.take(k.len() as int) =~= k);
    assert(line.skip(k.len() as int + 1) =~= v);
    encode_utf8_valid_utf8(name);
    encode_utf8_decode_utf8(name);
    encode_utf8_valid_utf8(value);
    encode_utf8_decode_utf8(value);
}

/// A line without a colon is no header line, nor is one whose name or value is no text.
pub proof fn law_field_refused(name: Seq<u8>, value: Seq<u8>)
    requires
        forall|i: int| 0 <= i < name.len() ==> #[trigger] name[i] != 58,
    ensures
        parse_field(name) == Err::<(Seq<char>, Seq<char>), HttpProxyErr>(HttpProxyErr::UnexpectedHeaderFormat),
        !valid_utf8(name) || !valid_utf8(value) ==> parse_field(name + seq![58u8] + value) == Err::<
            (Seq<char>, Seq<char>),
            HttpProxyErr,
        >(HttpProxyErr::UnexpectedHeaderFormat),
{
    let line = name + seq![58u8] + value;
    assert(':' as u8 == 58u8);
    lemma_absent(name, 58u8);
    lemma_first_after(name, 58u8, value);
    assert(line.take(name.len() as int) =~= name);
    assert(line.skip(name.len() as int + 1) =~= value);
}

/// No line ends in these bytes.
pub open spec fn no_line_end(s: Seq<u8>) -> bool {
    forall|i: int| 0 <= i < s.len() - 1 ==> !(#[trigger] s[i] == 13 && s[i + 1] == 10)
}

proof fn lemma_no_line_end(s: Seq<u8>)
    requires
        no_line_end(s),
    ensures
        index_of(s, crlf()) is None,
{
    lemma_index_of(s, crlf());
    if let Some(i) = index_of(s, crlf()) {
        assert(s.subrange(i, i + 2)[0] == s[i]);
        assert(s.subrange(i, i + 2)[1] == s[i + 1]);
    }
}

/// Header lines end behind an empty line, or in front of a line that does not end; there has to be
/// something.
pub proof fn law_fields_end(acc: Fields, rest: Seq<u8>, unfinished: Seq<u8>)
    requires
        no_line_end(unfinished),
        unfinished.len() > 0,
    ensures
        parse_fields(Seq::empty(), acc) == Err::<(Fields, int), HttpProxyErr>(
            HttpProxyErr::MaxHeaderSizeExceeded,
        ),
        parse_fields(seq![13u8, 10u8] + rest, acc) == Ok::<(Fields, int), HttpProxyErr>((acc, 2)),
        parse_fields(unfinished, acc) == Ok::<(Fields, int), HttpProxyErr>((acc, 0)),
{
    lemma_no_line_end(unfinished);
    let empty = Seq::<u8>::empty();
    lemma_no_line_end(empty);
    lemma_line_end(empty, rest);
    assert(empty + crlf() + rest =~= seq![13u8, 10u8] + rest);
}

/// A header line sets a field, and those behind it follow.
pub proof fn law_fields_line(line: Seq<u8>, rest: Seq<u8>, acc: Fields)
    requires
        no_line_end(line),
        line.len() > 0,
    ensures
        parse_fields(line + seq![13u8, 10u8] + rest, acc) == match parse_field(line) {
            Ok((name, value)) => match parse_fields(rest, put(acc, name, value)) {
                Ok((fields, n)) => Ok::<(Fields, int), HttpProxyErr>((fields, n + line.len() + 2)),
                Err(e) => Err(e),
            },
            Err(e) => Err(e),
        },
{
    lemma_no_line_end(line);
    lemma_line_end(line, rest);
    let buf = line + seq![13u8, 10u8] + rest;
    assert(buf =~= line + crlf() + rest);
    assert(buf.take(line.len() as int) =~= line);
    assert(buf.skip(line.len() as int + 2) =~= rest);
}

/// The announced length of a body is the number that the field says, and zero without the field.
/// What is no number, or one too large to count to, announces nothing.
pub proof fn law_content_length(fields: Fields, n: nat, text: Seq<char>)
    ensures
        lookup(fields, "Content-Length"@) == Some(decimal_text(n)) && n <= usize::MAX ==> content_length(fields)
            == Some(n),
        lookup(fields, "Content-Length"@) is None ==> content_length(fields) == Some(0nat),
        lookup(fields, "Content-Length"@) == Some(text) ==> (content_length(fields) == Some(n) <==> unsigned(text)
            == Some(n) && n <= usize::MAX),
{
    lemma_decimal_round_trip(n);
}

/// A block of header lines is accepted if what it says of the length is a length.
pub proof fn law_block(buf: Seq<u8>)
    ensures
        match parse_fields(buf, Seq::empty()) {
            Ok((fields, n)) => parse_block(buf) == if content_length(fields) is Some {
                Ok::<(Fields, int), HttpProxyErr>((fields, n))
            } else {
                Err(HttpProxyErr::UnexpectedHeaderFormat)
            },
            Err(e) => parse_block(buf) == Err::<(Fields, int), HttpProxyErr>(e),
        },
{
    assert(Seq::<(Seq<char>, Seq<char>)>::empty() =~= seq![]);
}

/// Without the end of a line there is no head.
pub proof fn law_no_head(kind: MessageKind, line: Seq<u8>)
    requires
        no_line_end(line),
    ensures
        parse_head(kind, line) == Err::<(Head, int), HttpProxyErr>(HttpProxyErr::UnexpectedHeaderFormat),
{
    lemma_no_line_end(line);
}

/// A head is a first line and a block behind it. A request's block says which host it is for.
pub proof fn law_head(kind: MessageKind, line: Seq<u8>, rest: Seq<u8>)
    requires
        no_line_end(line),
    ensures
        parse_head(kind, line + seq![13u8, 10u8] + rest) == match (parse_start(kind, line), parse_block(rest)) {
            (Err(e), _) => Err::<(Head, int), HttpProxyErr>(e),
            (_, Err(e)) => Err(e),
            (Ok(start), Ok((fields, n))) => if kind == MessageKind::Request && lookup(fields, "Host"@) is None {
                Err(HttpProxyErr::UnexpectedHeaderFormat)
            } else {
                Ok((Head { start, fields }, line.len() + 2 + n))
            },
        },
{
    let buf = line + seq![13u8, 10u8] + rest;
    let n = line.len() as int;
    assert(index_of(buf, crlf()) == Some(n)) by {
        lemma_no_line_end(line);
        lemma_line_end(line, rest);
        assert(buf =~= line + crlf() + rest);
    }
    assert(buf.take(n) =~= line);
    assert(buf.skip(n + 2) =~= rest);
    lemma_head_by_line(kind, buf, n);
}

/// Reading a head, by the end of its first line.
proof fn lemma_head_by_line(kind: MessageKind, buf: Seq<u8>, i: int)
    requires
        index_of(buf, crlf()) == Some(i),
    ensures
        parse_head(kind, buf) == match (parse_start(kind, buf.take(i)), parse_block(buf.skip(i + 2))) {
            (Err(e), _) => Err::<(Head, int), HttpProxyErr>(e),
            (_, Err(e)) => Err(e),
            (Ok(start), Ok((fields, n))) => if kind == MessageKind::Request && lookup(fields, "Host"@) is None {
                Err(HttpProxyErr::UnexpectedHeaderFormat)
            } else {
                Ok((Head { start, fields }, n + i + 2))
            },
        },
{
}

/// A field more is a line more: the name, a colon, a space and the value.
pub proof fn law_lines(fields: Fields, name: Seq<char>, value: Seq<char>)
    ensures
        field_lines(Seq::empty()) == Seq::<u8>::empty(),
        field_lines(fields.push((name, value))) == field_lines(fields) + (encode_utf8(name) + seq![58u8, 32u8]
            + encode_utf8(value) + seq![13u8, 10u8]),
{
    assert(fields.push((name, value)).drop_last() =~= fields);
    assert(':' as u8 == 58u8 && ' ' as u8 == 32u8);
    assert(field_lines(fields.push((name, value))) =~= field_lines(fields) + (encode_utf8(name) + seq![58u8, 32u8]
        + encode_utf8(value) + seq![13u8, 10u8]));
}

/// A message is written as its first line, its header lines, an empty line, and its body.
pub proof fn law_serialized(
    method: HttpMethod,
    uri: Seq<char>,
    version: HttpVersion,
    status: nat,
    reason: Seq<char>,
    fields: Fields,
    body: Seq<u8>,
)
    ensures
        serialized(Head { start: StartLine::Request { method, uri, version }, fields }, body) == encode_utf8(
            method_text(method),
        ) + seq![32u8] + encode_utf8(uri) + seq![32u8] + encode_utf8(version_text(version)) + seq![13u8, 10u8]
            + field_lines(fields) + seq![13u8, 10u8] + body,
        serialized(Head { start: StartLine::Response { version, status, reason }, fields }, body) == encode_utf8(
            version_text(version),
        ) + seq![32u8] + encode_utf8(decimal_text(status)) + seq![32u8] + encode_utf8(reason) + seq![13u8, 10u8]
            + field_lines(fields) + seq![13u8, 10u8] + body,
{
    lemma_three_words(method_text(method), uri, version_text(version));
    lemma_three_words(version_text(version), decimal_text(status), reason);
}

/// Three words with spaces between them, as bytes.
proof fn lemma_three_words(a: Seq<char>, b: Seq<char>, c: Seq<char>)
    ensures
        encode_utf8(a + seq![' '] + b + seq![' '] + c) == encode_utf8(a) + seq![32u8] + encode_utf8(b) + seq![32u8]
            + encode_utf8(c),
{
    lemma_encode_ascii(' ');
    assert(' ' as u8 == 32u8);
    lemma_encode_concat(a, seq![' ']);
    lemma_encode_concat(a + seq![' '], b);
    lemma_encode_concat(a + seq![' '] + b, seq![' ']);
    lemma_encode_concat(a + seq![' '] + b + seq![' '], c);
}

} // verus!
