//! HTTP/1 messages: reading a message head out of bytes, and writing a message back.
use crate::decimal::{decimal_string, decimal_text, parse_unsigned, unsigned_up_to};
use crate::errors::HttpProxyErr;
use crate::headers::{has_field, lookup, put, Fields, Headers};
use crate::search::{find_in_u8_slice, index_of, lemma_index_of};
use crate::text::{
    lemma_encode_ascii, lemma_encode_concat, split_at_space, split_space, str_eq, trim_start, trimmed, utf8_text,
};
use crate::transmittable::HttpTransmittable;
use vstd::prelude::*;
use vstd::slice::*;
use vstd::string::*;
use vstd::utf8::*;

verus! {

#[derive(Clone, Copy, Debug, PartialEq, Eq, Structural)]
pub enum HttpVersion {
    HTTPv1,
    HTTPv1_1,
    HTTPv2,
}

#[derive(Clone, Copy, Debug, PartialEq, Eq, Structural)]
pub enum HttpMethod {
    GET,
    POST,
}

/// The text of a protocol version that can stand in a message.
pub open spec fn version_text(version: HttpVersion) -> Seq<char> {
    match version {
        HttpVersion::HTTPv1 => "HTTP/1.0"@,
        _ => "HTTP/1.1"@,
    }
}

pub open spec fn parse_version(text: Seq<char>) -> Result<HttpVersion, HttpProxyErr> {
    if text == "HTTP/1.1"@ {
        Ok(HttpVersion::HTTPv1_1)
    } else if text == "HTTP/1.0"@ {
        Ok(HttpVersion::HTTPv1)
    } else {
        Err(HttpProxyErr::UnsupportedVersion)
    }
}

pub open spec fn method_text(method: HttpMethod) -> Seq<char> {
    match method {
        HttpMethod::GET => "GET"@,
        HttpMethod::POST => "POST"@,
    }
}

pub open spec fn parse_method(text: Seq<char>) -> Result<HttpMethod, HttpProxyErr> {
    if text == "GET"@ {
        Ok(HttpMethod::GET)
    } else if text == "POST"@ {
        Ok(HttpMethod::POST)
    } else {
        Err(HttpProxyErr::UnsupportedMethod)
    }
}

impl HttpVersion {
    pub fn from_str(s: &str) -> (version: Result<Self, HttpProxyErr>)
        ensures
            version == parse_version(s@),
    {
        if str_eq(s, "HTTP/1.1") {
            return Ok(HttpVersion::HTTPv1_1);
        }
        if str_eq(s, "HTTP/1.0") {
            return Ok(HttpVersion::HTTPv1);
        }
        Err(HttpProxyErr::UnsupportedVersion)
    }

    /// The version as it stands in a message; HTTP/2 has no such text.
    pub fn to_string(&self) -> (text: String)
        requires
            self != HttpVersion::HTTPv2,
        ensures
            text@ == version_text(*self),
    {
        match self {
            HttpVersion::HTTPv1 => "HTTP/1.0".to_owned(),
            _ => "HTTP/1.1".to_owned(),
        }
    }
}

impl HttpMethod {
    pub fn from_str(s: &str) -> (method: Result<Self, HttpProxyErr>)
        ensures
            method == parse_method(s@),
    {
        if str_eq(s, "GET") {
            return Ok(HttpMethod::GET);
        }
        if str_eq(s, "POST") {
            return Ok(HttpMethod::POST);
        }
        Err(HttpProxyErr::UnsupportedMethod)
    }

    pub fn to_string(&self) -> (text: String)
        ensures
            text@ == method_text(*self),
    {
        match self {
            HttpMethod::GET => "GET".to_owned(),
            HttpMethod::POST => "POST".to_owned(),
        }
    }
}

/// Requests and responses differ in their first line.
#[derive(Clone, Copy, Debug, PartialEq, Eq, Structural)]
pub enum MessageKind {
    Request,
    Response,
}

/// The first line of a message.
pub enum StartLine {
    Request { method: HttpMethod, uri: Seq<char>, version: HttpVersion },
    Response { version: HttpVersion, status: nat, reason: Seq<char> },
}

/// A message without its body.
pub struct Head {
    pub start: StartLine,
    pub fields: Fields,
}

/// The end of a line.
pub open spec fn crlf() -> Seq<u8> {
    seq![13u8, 10u8]
}

/// A request line: method, target and version, set apart by single spaces. What follows a third
/// space is left out.
pub open spec fn parse_request_start(line: Seq<char>) -> Result<StartLine, HttpProxyErr> {
    match split_space(line) {
        (method, Some(rest)) => match split_space(rest) {
            (uri, Some(rest)) => match parse_method(method) {
                Ok(method) => match parse_version(split_space(rest).0) {
                    Ok(version) => Ok(StartLine::Request { method, uri, version }),
                    Err(e) => Err(e),
                },
                Err(e) => Err(e),
            },
            (_, None) => Err(HttpProxyErr::UnexpectedHeaderFormat),
        },
        (_, None) => Err(HttpProxyErr::UnexpectedHeaderFormat),
    }
}

/// A status line: version, status code and the first word of the reason, which may be missing.
pub open spec fn parse_status_start(line: Seq<char>) -> Result<StartLine, HttpProxyErr> {
    match split_space(line) {
        (version, Some(rest)) => {
            let (code, after) = split_space(rest);
            let reason = match after {
                Some(after) => split_space(after).0,
                None => seq![],
            };
            match parse_version(version) {
                Ok(version) => match unsigned_up_to(code, u32::MAX as nat) {
                    Some(status) => Ok(StartLine::Response { version, status, reason }),
                    None => Err(HttpProxyErr::UnexpectedHeaderFormat),
                },
                Err(e) => Err(e),
            }
        },
        (_, None) => Err(HttpProxyErr::UnexpectedHeaderFormat),
    }
}

pub open spec fn parse_start(kind: MessageKind, line: Seq<u8>) -> Result<StartLine, HttpProxyErr> {
    if !valid_utf8(line) {
        Err(HttpProxyErr::UnexpectedHeaderFormat)
    } else {
        match kind {
            MessageKind::Request => parse_request_start(decode_utf8(line)),
            MessageKind::Response => parse_status_start(decode_utf8(line)),
        }
    }
}

/// The text of a first line.
pub open spec fn start_text(start: StartLine) -> Seq<char> {
    match start {
        StartLine::Request { method, uri, version } => method_text(method) + seq![' '] + uri + seq![' ']
            + version_text(version),
        StartLine::Response { version, status, reason } => version_text(version) + seq![' ']
            + decimal_text(status) + seq![' '] + reason,
    }
}

/// A header line: a name, a colon, and a value without its leading white space.
pub open spec fn parse_field(line: Seq<u8>) -> Result<(Seq<char>, Seq<char>), HttpProxyErr> {
    match index_of(line, seq![':' as u8]) {
        Some(i) => if valid_utf8(line.take(i)) && valid_utf8(line.skip(i + 1)) {
            Ok((decode_utf8(line.take(i)), trimmed(decode_utf8(line.skip(i + 1)))))
        } else {
            Err(HttpProxyErr::UnexpectedHeaderFormat)
        },
        None => Err(HttpProxyErr::UnexpectedHeaderFormat),
    }
}

/// The header lines at the front of `buf`, added to `acc`, and the number of bytes that they take.
/// They end behind an empty line, or in front of a line whose end is not there yet; they do not
/// end where `buf` does.
pub open spec fn parse_fields(buf: Seq<u8>, acc: Fields) -> Result<(Fields, int), HttpProxyErr>
    decreases buf.len(),
{
    if buf.len() == 0 {
        Err(HttpProxyErr::MaxHeaderSizeExceeded)
    } else {
        match index_of(buf, crlf()) {
            None => Ok((acc, 0)),
            Some(i) => if i == 0 {
                Ok((acc, 2))
            } else {
                proof {
                    lemma_index_of(buf, crlf());
                }
                match parse_field(buf.take(i)) {
                    Ok((name, value)) => match parse_fields(buf.skip(i + 2), put(acc, name, value)) {
                        Ok((fields, n)) => Ok((fields, n + i + 2)),
                        Err(e) => Err(e),
                    },
                    Err(e) => Err(e),
                }
            },
        }
    }
}

/// The length of the body that the fields announce: zero where they announce none, and nothing
/// where what they announce is no length.
pub open spec fn content_length(fields: Fields) -> Option<nat> {
    match lookup(fields, "Content-Length"@) {
        Some(text) => unsigned_up_to(text, usize::MAX as nat),
        None => Some(0),
    }
}

/// The header block at the front of `buf`, and its length.
pub open spec fn parse_block(buf: Seq<u8>) -> Result<(Fields, int), HttpProxyErr> {
    match parse_fields(buf, seq![]) {
        Ok((fields, n)) => if content_length(fields) is Some {
            Ok((fields, n))
        } else {
            Err(HttpProxyErr::UnexpectedHeaderFormat)
        },
        Err(e) => Err(e),
    }
}

/// A request names its host; a response needs no field.
pub open spec fn has_needed_fields(kind: MessageKind, fields: Fields) -> bool {
    kind is Request ==> has_field(fields, "Host"@)
}

/// The message head at the front of `buf`, and its length.
pub open spec fn parse_head(kind: MessageKind, buf: Seq<u8>) -> Result<(Head, int), HttpProxyErr> {
    match index_of(buf, crlf()) {
        Some(i) => match parse_start(kind, buf.take(i)) {
            Ok(start) => match parse_block(buf.skip(i + 2)) {
                Ok((fields, n)) => if has_needed_fields(kind, fields) {
                    Ok((Head { start, fields }, n + i + 2))
                } else {
                    Err(HttpProxyErr::UnexpectedHeaderFormat)
                },
                Err(e) => Err(e),
            },
            Err(e) => Err(e),
        },
        None => Err(HttpProxyErr::UnexpectedHeaderFormat),
    }
}

/// The bytes of header lines.
pub open spec fn field_lines(fields: Fields) -> Seq<u8>
    decreases fields.len(),
{
    if fields.len() == 0 {
        seq![]
    } else {
        field_lines(fields.drop_last()) + encode_utf8(fields.last().0) + seq![':' as u8, ' ' as u8]
            + encode_utf8(fields.last().1) + crlf()
    }
}

/// The bytes of a message.
pub open spec fn serialized(head: Head, body: Seq<u8>) -> Seq<u8> {
    encode_utf8(start_text(head.start)) + crlf() + field_lines(head.fields) + crlf() + body
}

/// Reads a header line.
pub fn parse_header_key_value(buf: &[u8]) -> (field: Result<(&str, &str), HttpProxyErr>)
    ensures
        match field {
            Ok((name, value)) => parse_field(buf@) == Ok::<(Seq<char>, Seq<char>), HttpProxyErr>(
                (name@, value@),
            ),
            Err(e) => parse_field(buf@) == Err::<(Seq<char>, Seq<char>), HttpProxyErr>(e),
        },
{
    let len: usize = buf.len();
    let colon: [u8; 1] = [':' as u8];
    assert(colon@ =~= seq![':' as u8]);
    match find_in_u8_slice(buf, &colon) {
        Some(i) => {
            let name = utf8_text(slice_subrange(buf, 0, i));
            let value = utf8_text(slice_subrange(buf, i + 1, len));
            assert(buf@.subrange(0, i as int) =~= buf@.take(i as int));
            assert(buf@.subrange(i + 1, buf@.len() as int) =~= buf@.skip(i + 1));
            match (name, value) {
                (Some(name), Some(value)) => Ok((name, trim_start(value))),
                _ => Err(HttpProxyErr::UnexpectedHeaderFormat),
            }
        },
        None => Err(HttpProxyErr::UnexpectedHeaderFormat),
    }
}

/// Reads a request line.
pub fn parse_request_line(buf: &[u8]) -> (line: Result<(HttpMethod, String, HttpVersion), HttpProxyErr>)
    ensures
        match line {
            Ok((method, uri, version)) => parse_start(MessageKind::Request, buf@) == Ok::<
                StartLine,
                HttpProxyErr,
            >(StartLine::Request { method, uri: uri@, version }),
            Err(e) => parse_start(MessageKind::Request, buf@) == Err::<StartLine, HttpProxyErr>(e),
        },
{
    match utf8_text(buf) {
        Some(line) => {
            let (method, rest) = split_at_space(line);
            let rest = match rest {
                Some(rest) => rest,
                None => return Err(HttpProxyErr::UnexpectedHeaderFormat),
            };
            let (uri, rest) = split_at_space(rest);
            let rest = match rest {
                Some(rest) => rest,
                None => return Err(HttpProxyErr::UnexpectedHeaderFormat),
            };
            let (version, _) = split_at_space(rest);
            let method = match HttpMethod::from_str(method) {
                Ok(method) => method,
                Err(e) => return Err(e),
            };
            match HttpVersion::from_str(version) {
                Ok(version) => Ok((method, uri.to_owned(), version)),
                Err(e) => Err(e),
            }
        },
        None => Err(HttpProxyErr::UnexpectedHeaderFormat),
    }
}

/// Reads a status line.
pub fn parse_status_line(buf: &[u8]) -> (line: Result<(HttpVersion, u32, String), HttpProxyErr>)
    ensures
        match line {
            Ok((version, status, reason)) => parse_start(MessageKind::Response, buf@) == Ok::<
                StartLine,
                HttpProxyErr,
            >(StartLine::Response { version, status: status as nat, reason: reason@ }),
            Err(e) => parse_start(MessageKind::Response, buf@) == Err::<StartLine, HttpProxyErr>(e),
        },
{
    match utf8_text(buf) {
        Some(line) => {
            let (version, rest) = split_at_space(line);
            let rest = match rest {
                Some(rest) => rest,
                None => return Err(HttpProxyErr::UnexpectedHeaderFormat),
            };
            let (code, after) = split_at_space(rest);
            let reason = match after {
                Some(after) => {
                    let (reason, _) = split_at_space(after);
                    reason.to_owned()
                },
                None => String::new(),
            };
            let version = match HttpVersion::from_str(version) {
                Ok(version) => version,
                Err(e) => return Err(e),
            };
            match parse_unsigned(code, u32::MAX as u64) {
                Some(status) => Ok((version, status as u32, reason)),
                None => Err(HttpProxyErr::UnexpectedHeaderFormat),
            }
        },
        None => Err(HttpProxyErr::UnexpectedHeaderFormat),
    }
}

/// Reads a header block.
pub fn parse_headers(buf: &[u8]) -> (block: Result<(Headers, usize), HttpProxyErr>)
    ensures
        match block {
            Ok((headers, n)) => headers.wf() && n <= buf@.len() && parse_block(buf@) == Ok::<
                (Fields, int),
                HttpProxyErr,
            >((headers@, n as int)),
            Err(e) => parse_block(buf@) == Err::<(Fields, int), HttpProxyErr>(e),
        },
{
    let line_end: [u8; 2] = [13, 10];
    assert(line_end@ =~= crlf());
    let len: usize = buf.len();
    let mut headers = Headers::new();
    let mut pos: usize = 0;
    let mut parsing = true;
    assert(buf@.skip(0) =~= buf@);
    while parsing
        invariant
            len == buf@.len(),
            pos <= len,
            line_end@ == crlf(),
            headers.wf(),
            parsing ==> match parse_fields(buf@.skip(pos as int), headers@) {
                Ok((fields, n)) => parse_fields(buf@, seq![]) == Ok::<(Fields, int), HttpProxyErr>(
                    (fields, n + pos),
                ),
                Err(e) => parse_fields(buf@, seq![]) == Err::<(Fields, int), HttpProxyErr>(e),
            },
            !parsing ==> parse_fields(buf@, seq![]) == Ok::<(Fields, int), HttpProxyErr>(
                (headers@, pos as int),
            ),
        decreases len - pos, (if parsing { 1int } else { 0int }),
    {
        let rest = slice_subrange(buf, pos, len);
        assert(rest@ =~= buf@.skip(pos as int));
        if pos == len {
            return Err(HttpProxyErr::MaxHeaderSizeExceeded);
        }
        match find_in_u8_slice(rest, &line_end) {
            Some(i) => {
                if i == 0 {
                    pos = pos + 2;
                    parsing = false;
                } else {
                    let line = slice_subrange(rest, 0, i);
                    assert(line@ =~= rest@.take(i as int));
                    let (name, value) = match parse_header_key_value(line) {
                        Ok(field) => field,
                        Err(e) => return Err(e),
                    };
                    headers.insert(name.to_owned(), value.to_owned());
                    assert(rest@.skip(i + 2) =~= buf@.skip(pos + i + 2));
                    pos = pos + i + 2;
                }
            },
            None => {
                parsing = false;
            },
        }
    }
    if let Some(text) = headers.get("Content-Length") {
        if parse_unsigned(text, usize::MAX as u64).is_none() {
            return Err(HttpProxyErr::UnexpectedHeaderFormat);
        }
    }
    Ok((headers, pos))
}

/// The length of the body that the headers announce.
pub fn get_content_length(headers: &Headers) -> (n: usize)
    requires
        headers.wf(),
        content_length(headers@) is Some,
    ensures
        content_length(headers@) == Some(n as nat),
{
    match headers.get("Content-Length") {
        Some(text) => match parse_unsigned(text, usize::MAX as u64) {
            Some(n) => n as usize,
            None => 0,
        },
        None => 0,
    }
}

/// A request without its body.
pub struct RequestHeader {
    version: HttpVersion,
    method: HttpMethod,
    uri: String,
    headers: Headers,
}

/// A response without its body.
pub struct ResponseHeader {
    version: HttpVersion,
    status_code: u32,
    msg: String,
    headers: Headers,
}

pub struct Request {
    header: RequestHeader,
    body: Vec<u8>,
}

pub struct Response {
    header: ResponseHeader,
    body: Vec<u8>,
}

impl RequestHeader {
    pub closed spec fn head(&self) -> Head {
        Head {
            start: StartLine::Request { method: self.method, uri: self.uri@, version: self.version },
            fields: self.headers@,
        }
    }
}

impl ResponseHeader {
    pub closed spec fn head(&self) -> Head {
        Head {
            start: StartLine::Response {
                version: self.version,
                status: self.status_code as nat,
                reason: self.msg@,
            },
            fields: self.headers@,
        }
    }
}

impl Clone for RequestHeader {
    fn clone(&self) -> (copy: Self)
        ensures
            copy.head() == self.head(),
    {
        RequestHeader {
            version: self.version,
            method: self.method,
            uri: self.uri.clone(),
            headers: self.headers.clone(),
        }
    }
}

impl Clone for ResponseHeader {
    fn clone(&self) -> (copy: Self)
        ensures
            copy.head() == self.head(),
    {
        ResponseHeader {
            version: self.version,
            status_code: self.status_code,
            msg: self.msg.clone(),
            headers: self.headers.clone(),
        }
    }
}

impl Clone for Request {
    fn clone(&self) -> (copy: Self)
        ensures
            copy.head() == self.head(),
            copy.body() == self.body(),
    {
        Request { header: self.header.clone(), body: self.body.clone() }
    }
}

impl Clone for Response {
    fn clone(&self) -> (copy: Self)
        ensures
            copy.head() == self.head(),
            copy.body() == self.body(),
    {
        Response { header: self.header.clone(), body: self.body.clone() }
    }
}

/// The protocol version that a first line names.
pub open spec fn start_version(start: StartLine) -> HttpVersion {
    match start {
        StartLine::Request { method, uri, version } => version,
        StartLine::Response { version, status, reason } => version,
    }
}

impl Request {
    pub fn get_http_version(&self) -> (version: &HttpVersion)
        ensures
            *version == start_version(self.head().start),
    {
        &self.header.version
    }
}

impl Response {
    pub fn get_http_version(&self) -> (version: &HttpVersion)
        ensures
            *version == start_version(self.head().start),
    {
        &self.header.version
    }
}

/// Appends the header lines, the empty line and the body to what stands in `buffer`.
fn write_rest(buffer: &mut Vec<u8>, headers: &Headers, body: &Vec<u8>)
    ensures
        final(buffer)@ == old(buffer)@ + crlf() + field_lines(headers@) + crlf() + body@,
{
    let line_end: [u8; 2] = [13, 10];
    assert(line_end@ =~= crlf());
    let separator: [u8; 2] = [':' as u8, ' ' as u8];
    assert(separator@ =~= seq![':' as u8, ' ' as u8]);
    let ghost start = buffer@;
    buffer.extend_from_slice(&line_end);
    let n: usize = headers.len();
    let mut i: usize = 0;
    assert(headers@.take(0) =~= Seq::<(Seq<char>, Seq<char>)>::empty());
    assert(buffer@ =~= start + crlf() + field_lines(headers@.take(0)));
    while i < n
        invariant
            n == headers@.len(),
            i <= n,
            line_end@ == crlf(),
            separator@ == seq![':' as u8, ' ' as u8],
            buffer@ == start + crlf() + field_lines(headers@.take(i as int)),
        decreases n - i,
    {
        let (key, value) = headers.entry(i);
        buffer.extend_from_slice(key.as_bytes());
        buffer.extend_from_slice(&separator);
        buffer.extend_from_slice(value.as_bytes());
        buffer.extend_from_slice(&line_end);
        assert(headers@.take(i + 1).drop_last() =~= headers@.take(i as int));
        assert(headers@.take(i + 1).last() == headers@[i as int]);
        assert(buffer@ =~= start + crlf() + field_lines(headers@.take(i + 1)));
        i += 1;
    }
    assert(headers@.take(n as int) =~= headers@);
    buffer.extend_from_slice(&line_end);
    buffer.extend_from_slice(body.as_slice());
    assert(buffer@ =~= start + crlf() + field_lines(headers@) + crlf() + body@);
}

impl HttpTransmittable for Request {
    open spec fn kind() -> MessageKind {
        MessageKind::Request
    }

    closed spec fn head(&self) -> Head {
        self.header.head()
    }

    closed spec fn body(&self) -> Seq<u8> {
        self.body@
    }

    fn parse_headers(buf: &[u8]) -> (parsed: Result<(Self, usize), HttpProxyErr>) {
        let len: usize = buf.len();
        let line_end: [u8; 2] = [13, 10];
        assert(line_end@ =~= crlf());
        let end: usize = match find_in_u8_slice(buf, &line_end) {
            Some(end) => end,
            None => return Err(HttpProxyErr::UnexpectedHeaderFormat),
        };
        assert(buf@.subrange(0, end as int) =~= buf@.take(end as int));
        assert(buf@.subrange(end + 2, len as int) =~= buf@.skip(end + 2));
        let (method, uri, version) = match parse_request_line(slice_subrange(buf, 0, end)) {
            Ok(line) => line,
            Err(e) => return Err(e),
        };
        let (headers, size) = match parse_headers(slice_subrange(buf, end + 2, len)) {
            Ok(block) => block,
            Err(e) => return Err(e),
        };
        // Every request has to say which host it is for.
        if headers.get("Host").is_none() {
            return Err(HttpProxyErr::UnexpectedHeaderFormat);
        }
        let header = RequestHeader { version, method, uri, headers };
        let request = Request { header, body: Vec::new() };
        Ok((request, size + end + 2))
    }

    fn get_body(&mut self) -> (body: &mut Vec<u8>) {
        &mut self.body
    }

    fn get_headers(&self) -> (headers: &Headers) {
        &self.header.headers
    }

    fn set_headers(&mut self, key: &str, value: &str) {
        self.header.headers.insert(key.to_owned(), value.to_owned());
    }

    fn to_vec_u8(&self) -> (bytes: Vec<u8>) {
        let space: [u8; 1] = [' ' as u8];
        let mut buffer: Vec<u8> = Vec::new();
        let method = self.header.method.to_string();
        let version = self.header.version.to_string();
        buffer.extend_from_slice(method.as_str().as_bytes());
        buffer.extend_from_slice(&space);
        buffer.extend_from_slice(self.header.uri.as_str().as_bytes());
        buffer.extend_from_slice(&space);
        buffer.extend_from_slice(version.as_str().as_bytes());
        proof {
            lemma_encode_ascii(' ');
            let m = method_text(self.header.method);
            let u = self.header.uri@;
            let v = version_text(self.header.version);
            lemma_encode_concat(m, seq![' ']);
            lemma_encode_concat(m + seq![' '], u);
            lemma_encode_concat(m + seq![' '] + u, seq![' ']);
            lemma_encode_concat(m + seq![' '] + u + seq![' '], v);
            assert(buffer@ =~= encode_utf8(start_text(self.head().start)));
        }
        write_rest(&mut buffer, &self.header.headers, &self.body);
        buffer
    }
}

impl HttpTransmittable for Response {
    open spec fn kind() -> MessageKind {
        MessageKind::Response
    }

    closed spec fn head(&self) -> Head {
        self.header.head()
    }

    closed spec fn body(&self) -> Seq<u8> {
        self.body@
    }

    fn parse_headers(buf: &[u8]) -> (parsed: Result<(Self, usize), HttpProxyErr>) {
        let len: usize = buf.len();
        let line_end: [u8; 2] = [13, 10];
        assert(line_end@ =~= crlf());
        let end: usize = match find_in_u8_slice(buf, &line_end) {
            Some(end) => end,
            None => return Err(HttpProxyErr::UnexpectedHeaderFormat),
        };
        assert(buf@.subrange(0, end as int) =~= buf@.take(end as int));
        assert(buf@.subrange(end + 2, len as int) =~= buf@.skip(end + 2));
        let (version, status_code, msg) = match parse_status_line(slice_subrange(buf, 0, end)) {
            Ok(line) => line,
            Err(e) => return Err(e),
        };
        let (headers, size) = match parse_headers(slice_subrange(buf, end + 2, len)) {
            Ok(block) => block,
            Err(e) => return Err(e),
        };
        let header = ResponseHeader { version, status_code, msg, headers };
        let response = Response { header, body: Vec::new() };
        Ok((response, size + end + 2))
    }

    fn get_body(&mut self) -> (body: &mut Vec<u8>) {
        &mut self.body
    }

    fn get_headers(&self) -> (headers: &Headers) {
        &self.header.headers
    }

    fn set_headers(&mut self, key: &str, value: &str) {
        self.header.headers.insert(key.to_owned(), value.to_owned());
    }

    fn to_vec_u8(&self) -> (bytes: Vec<u8>) {
        let space: [u8; 1] = [' ' as u8];
        let mut buffer: Vec<u8> = Vec::new();
        let version = self.header.version.to_string();
        let status = decimal_string(self.header.status_code as u64);
        buffer.extend_from_slice(version.as_str().as_bytes());
        buffer.extend_from_slice(&space);
        buffer.extend_from_slice(status.as_str().as_bytes());
        buffer.extend_from_slice(&space);
        buffer.extend_from_slice(self.header.msg.as_str().as_bytes());
        proof {
            lemma_encode_ascii(' ');
            let v = version_text(self.header.version);
            let s = decimal_text(self.header.status_code as nat);
            let r = self.header.msg@;
            lemma_encode_concat(v, seq![' ']);
            lemma_encode_concat(v + seq![' '], s);
            lemma_encode_concat(v + seq![' '] + s, seq![' ']);
            lemma_encode_concat(v + seq![' '] + s + seq![' '], r);
            assert(buffer@ =~= encode_utf8(start_text(self.head().start)));
        }
        write_rest(&mut buffer, &self.header.headers, &self.body);
        buffer
    }
}

} // verus!
