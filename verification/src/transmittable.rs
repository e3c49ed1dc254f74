//! What requests and responses have in common while they pass through the proxy.
use crate::errors::HttpProxyErr;
use crate::headers::{put, unique_names, Headers};
use crate::http::{
    content_length, has_needed_fields, parse_head, serialized, Head, HttpVersion, MessageKind, StartLine,
};
use vstd::prelude::*;

verus! {

/// A head that can be sent: of its kind, with a version that has a text, each name at most once,
/// and the fields that its kind needs.
pub open spec fn valid_head(kind: MessageKind, head: Head) -> bool {
    &&& match head.start {
        StartLine::Request { method, uri, version } => kind is Request && version != HttpVersion::HTTPv2,
        StartLine::Response { version, status, reason } => kind is Response && version
            != HttpVersion::HTTPv2,
    }
    &&& unique_names(head.fields)
    &&& has_needed_fields(kind, head.fields)
}

/// A message that is read from one side and sent to the other.
pub trait HttpTransmittable: Clone {
    /// Whether these are requests or responses.
    spec fn kind() -> MessageKind;

    spec fn head(&self) -> Head;

    spec fn body(&self) -> Seq<u8>;

    /// Reads the head at the front of `buf`. The message has no body yet.
    fn parse_headers(buf: &[u8]) -> (parsed: Result<(Self, usize), HttpProxyErr>)
        ensures
            match parsed {
                Ok((message, n)) => {
                    &&& parse_head(Self::kind(), buf@) == Ok::<(Head, int), HttpProxyErr>(
                        (message.head(), n as int),
                    )
                    &&& n <= buf@.len()
                    &&& message.body() == Seq::<u8>::empty()
                    &&& valid_head(Self::kind(), message.head())
                    &&& content_length(message.head().fields) is Some
                },
                Err(e) => parse_head(Self::kind(), buf@) == Err::<(Head, int), HttpProxyErr>(e),
            },
    ;

    fn get_body(&mut self) -> (body: &mut Vec<u8>)
        ensures
            body@ == old(self).body(),
            final(self).body() == final(body)@,
            final(self).head() == old(self).head(),
    ;

    fn get_headers(&self) -> (headers: &Headers)
        ensures
            headers@ == self.head().fields,
    ;

    fn set_headers(&mut self, key: &str, value: &str)
        requires
            unique_names(old(self).head().fields),
        ensures
            final(self).head() == (Head {
                fields: put(old(self).head().fields, key@, value@),
                ..old(self).head()
            }),
            final(self).body() == old(self).body(),
    ;

    /// The bytes of the message.
    fn to_vec_u8(&self) -> (bytes: Vec<u8>)
        requires
            valid_head(Self::kind(), self.head()),
        ensures
            bytes@ == serialized(self.head(), self.body()),
    ;
}

} // verus!
