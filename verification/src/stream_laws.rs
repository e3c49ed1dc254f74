//! What holds of everything that passes through the proxy.
use crate::errors::HttpProxyErr;
use crate::http::{content_length, parse_head, serialized, Head, MessageKind};
use crate::http_laws::{clean_head, law_head_bounds, law_round_trip};
use crate::message::{law_take_in, take_in, Message, StreamState, MAX_HEADER_SIZE};
use crate::stream::{
    asks_for_websocket, behind, bytes_waiting, completed, feed, given_up, lemma_new_message, receptive, Fed,
    PacketRewrite,
};
use crate::transmittable::HttpTransmittable;
use vstd::prelude::*;

verus! {

/// A message that nothing has come for.
pub open spec fn fresh() -> Message {
    Message::Unparsed(Seq::empty())
}

/// Where a packet is a head and the whole body that it announces, the message is rewritten, becomes
/// one to be sent, and a new one takes its place.
pub proof fn law_whole_message<R: PacketRewrite>(
    rewriter: R,
    packet: Seq<u8>,
    state: StreamState,
    upgrade: bool,
    rewritten: Option<R::Output>,
)
    requires
        state != StreamState::WebSocket,
        parse_head(R::Packet::kind(), packet) is Ok,
        ({
            let (head, n) = parse_head(R::Packet::kind(), packet)->Ok_0;
            content_length(head.fields) == Some((packet.len() - n) as nat)
        }),
    ensures
        ({
            let (head, n) = parse_head(R::Packet::kind(), packet)->Ok_0;
            feed::<R>(rewriter, fresh(), packet, state, upgrade, rewritten) == match rewriter.outcome(head) {
                Ok((next, output)) => Fed {
                    messages: seq![Message::Sending(serialized(next, packet.skip(n))), fresh()],
                    kept: true,
                    upgrade: asks_for_websocket(head),
                    rewritten: Some(output),
                },
                Err(_) => given_up(seq![Message::HeaderParsed(head, packet.skip(n))]),
            }
        }),
{
    reveal(feed);
    let kind = R::Packet::kind();
    let (head, n) = parse_head(kind, packet)->Ok_0;
    law_head_bounds(kind, packet);
    lemma_new_message(kind);
    assert(Seq::<u8>::empty() + packet =~= packet);
    let (next, result) = take_in(kind, fresh(), packet, state);
    assert(next == Message::HeaderParsed(head, packet.skip(n)) && result == Ok::<(int, bool), HttpProxyErr>(
        (packet.len() as int, true),
    )) by {
        reveal(take_in);
        assert(packet.skip(packet.len() as int) =~= Seq::empty());
    }
    assert(packet.skip(packet.len() as int).len() == 0);
}

/// A clean message that comes in one packet is sent on rewritten, with its body as it came.
pub proof fn law_forwarded<R: PacketRewrite>(
    rewriter: R,
    head: Head,
    body: Seq<u8>,
    state: StreamState,
    upgrade: bool,
    rewritten: Option<R::Output>,
)
    requires
        state != StreamState::WebSocket,
        clean_head(R::Packet::kind(), head),
        content_length(head.fields) == Some(body.len()),
    ensures
        feed::<R>(rewriter, fresh(), serialized(head, body), state, upgrade, rewritten)
            == match rewriter.outcome(head) {
            Ok((next, output)) => Fed {
                messages: seq![Message::Sending(serialized(next, body)), fresh()],
                kept: true,
                upgrade: asks_for_websocket(head),
                rewritten: Some(output),
            },
            Err(_) => given_up(seq![Message::HeaderParsed(head, body)]),
        },
{
    law_round_trip(R::Packet::kind(), head, body);
    law_whole_message::<R>(rewriter, serialized(head, body), state, upgrade, rewritten);
}

/// A message without a body ends where its head ends: what follows is for a new message.
pub proof fn law_pipelined<R: PacketRewrite>(
    rewriter: R,
    packet: Seq<u8>,
    head: Head,
    n: int,
    state: StreamState,
    upgrade: bool,
    rewritten: Option<R::Output>,
)
    requires
        state != StreamState::WebSocket,
        parse_head(R::Packet::kind(), packet) == Ok::<(Head, int), HttpProxyErr>((head, n)),
        content_length(head.fields) == Some(0nat),
        n < packet.len(),
    ensures
        feed::<R>(rewriter, fresh(), packet, state, upgrade, rewritten) == match rewriter.outcome(head) {
            Ok((next, output)) => behind(
                seq![Message::Sending(serialized(next, Seq::empty()))],
                feed::<R>(
                    rewriter,
                    fresh(),
                    packet.skip(n),
                    state,
                    asks_for_websocket(head),
                    Some(output),
                ),
            ),
            Err(_) => given_up(seq![Message::HeaderParsed(head, Seq::empty())]),
        },
{
    reveal(feed);
    let kind = R::Packet::kind();
    law_head_bounds(kind, packet);
    lemma_new_message(kind);
    assert(Seq::<u8>::empty() + packet =~= packet);
    let (next, result) = take_in(kind, fresh(), packet, state);
    assert(next == Message::HeaderParsed(head, Seq::empty()) && result == Ok::<(int, bool), HttpProxyErr>(
        (n, true),
    )) by {
        reveal(take_in);
    }
}

/// A head that comes with a part of its body waits for the rest.
pub proof fn law_incomplete<R: PacketRewrite>(
    rewriter: R,
    packet: Seq<u8>,
    head: Head,
    n: int,
    state: StreamState,
    upgrade: bool,
    rewritten: Option<R::Output>,
)
    requires
        state != StreamState::WebSocket,
        parse_head(R::Packet::kind(), packet) == Ok::<(Head, int), HttpProxyErr>((head, n)),
        content_length(head.fields) matches Some(length) && packet.len() - n < length,
    ensures
        feed::<R>(rewriter, fresh(), packet, state, upgrade, rewritten) == (Fed {
            messages: seq![Message::HeaderParsed(head, packet.skip(n))],
            kept: true,
            upgrade,
            rewritten,
        }),
        receptive(R::Packet::kind(), Message::HeaderParsed(head, packet.skip(n))),
{
    reveal(feed);
    let kind = R::Packet::kind();
    law_head_bounds(kind, packet);
    lemma_new_message(kind);
    assert(Seq::<u8>::empty() + packet =~= packet);
    reveal(take_in);
}

/// A head that comes in several packets is treated as if it had come in one.
pub proof fn law_joined<R: PacketRewrite>(
    rewriter: R,
    buffer: Seq<u8>,
    packet: Seq<u8>,
    state: StreamState,
    upgrade: bool,
    rewritten: Option<R::Output>,
)
    requires
        receptive(R::Packet::kind(), Message::Unparsed(buffer)),
        packet.len() > 0,
    ensures
        feed::<R>(rewriter, Message::Unparsed(buffer), packet, state, upgrade, rewritten) == feed::<R>(
            rewriter,
            fresh(),
            buffer + packet,
            state,
            upgrade,
            rewritten,
        ),
{
    reveal(feed);
    let kind = R::Packet::kind();
    let all = buffer + packet;
    lemma_new_message(kind);
    assert(Seq::<u8>::empty() + all =~= all);
    law_take_in(kind, Message::Unparsed(buffer), packet, state);
    law_take_in(kind, fresh(), all, state);
    let (next, result) = take_in(kind, Message::Unparsed(buffer), packet, state);
    let (joined_next, joined) = take_in(kind, fresh(), all, state);
    assert(next == joined_next && match result {
        Ok((size, ready)) => joined == Ok::<(int, bool), HttpProxyErr>((size + buffer.len(), ready)),
        Err(e) => joined == Err::<(int, bool), HttpProxyErr>(e),
    }) by {
        reveal(take_in);
    }
    if let Ok((size, ready)) = result {
        assert(all.skip(size + buffer.len()) =~= packet.skip(size));
    }
}

/// Bytes that are no head yet are kept until there are too many.
pub proof fn law_kept_back<R: PacketRewrite>(
    rewriter: R,
    buffer: Seq<u8>,
    packet: Seq<u8>,
    state: StreamState,
    upgrade: bool,
    rewritten: Option<R::Output>,
)
    requires
        state != StreamState::WebSocket,
        receptive(R::Packet::kind(), Message::Unparsed(buffer)),
        packet.len() > 0,
        parse_head(R::Packet::kind(), buffer + packet) is Err,
    ensures
        feed::<R>(rewriter, Message::Unparsed(buffer), packet, state, upgrade, rewritten) == if buffer.len()
            + packet.len() >= MAX_HEADER_SIZE {
            given_up(seq![Message::Unparsed(buffer + packet)])
        } else {
            Fed { messages: seq![Message::Unparsed(buffer + packet)], kept: true, upgrade, rewritten }
        },
{
    reveal(feed);
    reveal(take_in);
}

/// A body that comes in several packets is put together; what follows it is for a new message.
pub proof fn law_body<R: PacketRewrite>(
    rewriter: R,
    head: Head,
    body: Seq<u8>,
    packet: Seq<u8>,
    state: StreamState,
    upgrade: bool,
    rewritten: Option<R::Output>,
)
    requires
        receptive(R::Packet::kind(), Message::HeaderParsed(head, body)),
        packet.len() > 0,
    ensures
        ({
            let missing = content_length(head.fields)->0 - body.len();
            let fed = feed::<R>(
                rewriter,
                Message::HeaderParsed(head, body),
                packet,
                state,
                upgrade,
                rewritten,
            );
            if packet.len() < missing {
                fed == (Fed {
                    messages: seq![Message::HeaderParsed(head, body + packet)],
                    kept: true,
                    upgrade,
                    rewritten,
                })
            } else {
                match rewriter.outcome(head) {
                    Err(_) => fed == given_up::<R::Output>(
                        seq![Message::HeaderParsed(head, body + packet.take(missing))],
                    ),
                    Ok((next, output)) => {
                        let sent = Message::Sending(serialized(next, body + packet.take(missing)));
                        if packet.len() == missing {
                            fed == (Fed {
                                messages: seq![sent, fresh()],
                                kept: true,
                                upgrade: asks_for_websocket(head),
                                rewritten: Some(output),
                            })
                        } else {
                            fed == behind(
                                seq![sent],
                                feed::<R>(
                                    rewriter,
                                    fresh(),
                                    packet.skip(missing),
                                    state,
                                    asks_for_websocket(head),
                                    Some(output),
                                ),
                            )
                        }
                    },
                }
            }
        }),
{
    reveal(feed);
    reveal(take_in);
}

/// On a web socket bytes are sent on as they come.
pub proof fn law_websocket<R: PacketRewrite>(
    rewriter: R,
    buffer: Seq<u8>,
    packet: Seq<u8>,
    upgrade: bool,
    rewritten: Option<R::Output>,
)
    requires
        receptive(R::Packet::kind(), Message::Unparsed(buffer)),
        packet.len() > 0,
    ensures
        feed::<R>(rewriter, Message::Unparsed(buffer), packet, StreamState::WebSocket, upgrade, rewritten) == (Fed {
            messages: seq![Message::Sending(buffer + packet), fresh()],
            kept: true,
            upgrade,
            rewritten,
        }),
{
    reveal(feed);
    reveal(take_in);
    assert(packet.skip(packet.len() as int).len() == 0);
}

/// The heads of the messages that a packet completes, in order.
pub open spec fn completed_heads(kind: MessageKind, message: Message, packet: Seq<u8>, state: StreamState) -> Seq<
    Head,
>
    decreases packet.len(), bytes_waiting(message),
    when receptive(kind, message) && packet.len() > 0
{
    proof {
        law_take_in(kind, message, packet, state);
    }
    let (next, result) = take_in(kind, message, packet, state);
    match result {
        Err(_) => Seq::empty(),
        Ok((size, ready)) => if !ready {
            Seq::empty()
        } else {
            let rest = packet.skip(size);
            (match next {
                Message::HeaderParsed(head, _) => seq![head],
                _ => Seq::empty(),
            }) + (if rest.len() == 0 {
                Seq::empty()
            } else {
                completed_heads(kind, fresh(), rest, state)
            })
        },
    }
}

/// Whether a connection that is kept is to become a web socket goes by the last message that the
/// packet completes. One that is given up is not to become one.
pub proof fn law_upgrade<R: PacketRewrite>(
    rewriter: R,
    message: Message,
    packet: Seq<u8>,
    state: StreamState,
    upgrade: bool,
    rewritten: Option<R::Output>,
)
    requires
        receptive(R::Packet::kind(), message),
        packet.len() > 0,
    ensures
        ({
            let heads = completed_heads(R::Packet::kind(), message, packet, state);
            let fed = feed::<R>(rewriter, message, packet, state, upgrade, rewritten);
            fed.upgrade == (fed.kept && if heads.len() > 0 {
                asks_for_websocket(heads.last())
            } else {
                upgrade
            })
        }),
    decreases packet.len(), bytes_waiting(message),
{
    reveal(feed);
    let kind = R::Packet::kind();
    law_take_in(kind, message, packet, state);
    lemma_new_message(kind);
    let (next, result) = take_in(kind, message, packet, state);
    if let Ok((size, ready)) = result {
        if ready {
            if let Some((sent, up, output)) = completed::<R>(rewriter, next, upgrade, rewritten) {
                let rest = packet.skip(size);
                if rest.len() > 0 {
                    law_upgrade::<R>(rewriter, fresh(), rest, state, up, output);
                    let heads = completed_heads(kind, message, packet, state);
                    let later = completed_heads(kind, fresh(), rest, state);
                    if later.len() > 0 {
                        assert(heads.last() == later.last());
                    }
                }
            }
        }
    }
}

} // verus!
