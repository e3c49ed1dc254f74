//! One message on its way through the proxy.
use crate::errors::HttpProxyErr;
use crate::http::{content_length, get_content_length, parse_head, Head, MessageKind};
use crate::http_laws::{law_head_bounds, law_head_prefix};
use crate::transmittable::{valid_head, HttpTransmittable};
use vstd::prelude::*;
use vstd::slice::slice_subrange;

verus! {

/// From this many bytes on, a head that still cannot be read is given up.
pub const MAX_HEADER_SIZE: usize = 16384;

/// The most bytes that are read at once.
pub const MAX_TCP_PACKET_SIZE: usize = 655350;

/// A message: bytes that are no head yet, a message whose body is still coming in, or the bytes
/// that are still to be sent.
pub enum HttpMessage<T: HttpTransmittable> {
    Unparsed(Vec<u8>),
    HeaderParsed(T),
    Sending(Vec<u8>),
}

/// A message as mathematical data.
pub enum Message {
    Unparsed(Seq<u8>),
    HeaderParsed(Head, Seq<u8>),
    Sending(Seq<u8>),
}

impl<T: HttpTransmittable> View for HttpMessage<T> {
    type V = Message;

    open spec fn view(&self) -> Message {
        match self {
            HttpMessage::Unparsed(buffer) => Message::Unparsed(buffer@),
            HttpMessage::HeaderParsed(message) => Message::HeaderParsed(message.head(), message.body()),
            HttpMessage::Sending(bytes) => Message::Sending(bytes@),
        }
    }
}

/// How a connection is used: for messages, for messages after the client asked for a web socket,
/// or as a web socket.
#[derive(Clone, Copy, PartialEq, Eq, Structural)]
pub enum StreamState {
    Http,
    UpgradeWebsocket,
    WebSocket,
}

/// A message that changes as its bytes come in and go out.
pub struct HttpMessageHandle<T: HttpTransmittable> {
    pub message: HttpMessage<T>,
}

impl<T: HttpTransmittable> View for HttpMessageHandle<T> {
    type V = Message;

    open spec fn view(&self) -> Message {
        self.message@
    }
}

impl<T: HttpTransmittable> Default for HttpMessageHandle<T> {
    fn default() -> (handle: Self)
        ensures
            handle@ == Message::Unparsed(Seq::empty()),
    {
        let handle = HttpMessageHandle { message: HttpMessage::Unparsed(Vec::new()) };
        assert(handle.message->Unparsed_0@ =~= Seq::empty());
        handle
    }
}

/// What holds of a message between packets: bytes that are no head yet cannot be read as one, a
/// message whose body is coming in can be sent and lacks a part of its body, and what is to be
/// sent is not empty.
pub open spec fn message_ok(kind: MessageKind, message: Message) -> bool {
    match message {
        Message::Unparsed(buffer) => parse_head(kind, buffer) is Err,
        Message::HeaderParsed(head, body) => {
            &&& valid_head(kind, head)
            &&& content_length(head.fields) matches Some(length) && body.len() < length
        },
        Message::Sending(bytes) => bytes.len() > 0,
    }
}

/// What the bytes `packet` make of a message, how many of them it takes, and whether it is complete
/// then. A message that is complete with the packet that its head ends in takes all that is left of
/// that packet as its body, but counts no more bytes than its length as taken.
#[verifier::opaque]
pub open spec fn take_in(kind: MessageKind, message: Message, packet: Seq<u8>, state: StreamState) -> (
    Message,
    Result<(int, bool), HttpProxyErr>,
)
    recommends
        message !is Sending,
{
    match message {
        Message::Unparsed(buffer) => {
            let all = buffer + packet;
            if state == StreamState::WebSocket {
                (Message::Sending(all), Ok((packet.len() as int, true)))
            } else {
                match parse_head(kind, all) {
                    Ok((head, n)) => {
                        let length = content_length(head.fields)->0;
                        let rest = all.skip(n);
                        if length == 0 {
                            (Message::HeaderParsed(head, Seq::empty()), Ok((n - buffer.len(), true)))
                        } else if length > rest.len() {
                            (Message::HeaderParsed(head, rest), Ok((packet.len() as int, false)))
                        } else {
                            (
                                Message::HeaderParsed(head, rest),
                                Ok((n - buffer.len() + length as int, true)),
                            )
                        }
                    },
                    Err(_) => (
                        Message::Unparsed(all),
                        if all.len() >= MAX_HEADER_SIZE {
                            Err(HttpProxyErr::CorruptedClientConnection)
                        } else {
                            Ok((packet.len() as int, false))
                        },
                    ),
                }
            }
        },
        Message::HeaderParsed(head, body) => {
            let missing = content_length(head.fields)->0 - body.len();
            if missing > packet.len() {
                (Message::HeaderParsed(head, body + packet), Ok((packet.len() as int, false)))
            } else {
                (Message::HeaderParsed(head, body + packet.take(missing)), Ok((missing, true)))
            }
        },
        Message::Sending(_) => (message, Ok((0, false))),
    }
}

/// A message takes no more bytes of a packet than there are, and all of them unless it is complete.
/// Where it takes none, it had bytes before. A message that is not complete stays one that more
/// bytes can come for, and a complete one can be sent.
pub proof fn law_take_in(kind: MessageKind, message: Message, packet: Seq<u8>, state: StreamState)
    requires
        message_ok(kind, message),
        message !is Sending,
    ensures
        ({
            let (next, result) = take_in(kind, message, packet, state);
            result matches Ok((size, ready)) ==> {
                &&& 0 <= size <= packet.len()
                &&& size == 0 < packet.len() ==> (message matches Message::Unparsed(buffer) && buffer.len() > 0)
                &&& !ready ==> size == packet.len() && message_ok(kind, next) && next !is Sending
                &&& ready ==> match next {
                    Message::Unparsed(_) => false,
                    Message::HeaderParsed(head, body) => {
                        &&& valid_head(kind, head)
                        &&& content_length(head.fields) is Some
                    },
                    Message::Sending(bytes) => {
                        &&& size == packet.len()
                        &&& bytes.len() >= size
                    },
                }
            }
        }),
{
    reveal(take_in);
    if let Message::Unparsed(buffer) = message {
        law_head_bounds(kind, buffer + packet);
        law_head_prefix(kind, buffer, packet);
    }
}

/// Appends bytes.
pub fn append_bytes(buffer: &mut Vec<u8>, bytes: &[u8])
    ensures
        final(buffer)@ == old(buffer)@ + bytes@,
{
    buffer.extend_from_slice(bytes);
    assert(buffer@ =~= old(buffer)@ + bytes@);
}

/// Gives a message the next bytes. Says how many of them it takes, and whether it is complete.
pub fn process_http_transittable<T: HttpTransmittable>(
    packet: &[u8],
    transittable_handle: &mut HttpMessageHandle<T>,
    state: &StreamState,
) -> (result: Result<(usize, bool), HttpProxyErr>)
    requires
        message_ok(T::kind(), old(transittable_handle)@),
        old(transittable_handle)@ !is Sending,
    ensures
        final(transittable_handle)@ == take_in(T::kind(), old(transittable_handle)@, packet@, *state).0,
        match result {
            Ok((size, ready)) => take_in(T::kind(), old(transittable_handle)@, packet@, *state).1 == Ok::<
                (int, bool),
                HttpProxyErr,
            >((size as int, ready)),
            Err(e) => take_in(T::kind(), old(transittable_handle)@, packet@, *state).1 == Err::<
                (int, bool),
                HttpProxyErr,
            >(e),
        },
{
    proof {
        reveal(take_in);
        law_take_in(T::kind(), transittable_handle@, packet@, *state);
    }
    let mut message: HttpMessage<T> = HttpMessage::Unparsed(Vec::new());
    std::mem::swap(&mut message, &mut transittable_handle.message);
    match message {
        HttpMessage::Unparsed(buffer) => {
            let mut buffer = buffer;
            let initial_buffer_len: usize = buffer.len();
            proof {
                law_head_prefix(T::kind(), buffer@, packet@);
            }
            append_bytes(&mut buffer, packet);
            if *state == StreamState::WebSocket {
                transittable_handle.message = HttpMessage::Sending(buffer);
                return Ok((packet.len(), true));
            }
            match T::parse_headers(buffer.as_slice()) {
                Ok((transittable, header_size)) => {
                    let mut transittable = transittable;
                    let content_length: usize = get_content_length(transittable.get_headers());
                    let incomming_packet_header_size: usize = header_size - initial_buffer_len;
                    if content_length == 0 {
                        transittable_handle.message = HttpMessage::HeaderParsed(transittable);
                        return Ok((incomming_packet_header_size, true));
                    }
                    let body = slice_subrange(buffer.as_slice(), header_size, buffer.len());
                    append_bytes(transittable.get_body(), body);
                    assert(transittable.body() =~= buffer@.skip(header_size as int));
                    transittable_handle.message = HttpMessage::HeaderParsed(transittable);
                    if content_length > body.len() {
                        return Ok((packet.len(), false));
                    }
                    Ok((incomming_packet_header_size + content_length, true))
                },
                Err(_) => {
                    let full = buffer.len() >= MAX_HEADER_SIZE;
                    transittable_handle.message = HttpMessage::Unparsed(buffer);
                    if full {
                        return Err(HttpProxyErr::CorruptedClientConnection);
                    }
                    Ok((packet.len(), false))
                },
            }
        },
        HttpMessage::HeaderParsed(transittable) => {
            let mut transittable = transittable;
            let content_length: usize = get_content_length(transittable.get_headers());
            let content_missing_len: usize = content_length - transittable.get_body().len();
            if content_missing_len > packet.len() {
                append_bytes(transittable.get_body(), packet);
                transittable_handle.message = HttpMessage::HeaderParsed(transittable);
                return Ok((packet.len(), false));
            }
            let rest = slice_subrange(packet, 0, content_missing_len);
            assert(rest@ =~= packet@.take(content_missing_len as int));
            append_bytes(transittable.get_body(), rest);
            transittable_handle.message = HttpMessage::HeaderParsed(transittable);
            Ok((content_missing_len, true))
        },
        HttpMessage::Sending(bytes) => {
            transittable_handle.message = HttpMessage::Sending(bytes);
            Ok((0, false))
        },
    }
}

} // verus!
