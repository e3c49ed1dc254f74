//! What holds of every connection.
use crate::config::{host_header, Backend, ProxyRule, ProxyRuleConfig};
use crate::connection::{
    after_backend, after_client, after_write, connection_ok, next_sending, requests_step, responses_step, sendable,
    Connection, RequestEvent, ResponseEvent, SendAction,
};
use crate::errors::HttpProxyErr;
use crate::http::{content_length, parse_head, serialized, Head, MessageKind};
use crate::http_laws::{clean_field, clean_head, law_head_bounds, law_put_clean, law_round_trip};
use crate::message::{Message, StreamState};
use crate::rewrite::{first_rule, is_first_rule, is_for_host, with_host};
use crate::stream::{
    asks_for_websocket, feed, given_up, lemma_new_message, messages_ok, receptive, with_new, ByRules, Fed,
    PacketRewrite, Received, Unchanged,
};
use crate::stream_laws::{
    completed_heads, fresh, law_body, law_joined, law_upgrade, law_websocket, law_whole_message,
};
use crate::transmittable::HttpTransmittable;
use vstd::prelude::*;

verus! {

/// With a packet, the last message of one direction is complete, and nothing follows it: either it
/// is bytes that, with the packet behind them, are a head and the whole body that it announces, or
/// the packet is the rest of its body.
pub open spec fn completes(
    kind: MessageKind,
    messages: Seq<Message>,
    packet: Seq<u8>,
    head: Head,
    body: Seq<u8>,
) -> bool {
    &&& content_length(head.fields) == Some(body.len())
    &&& match with_new(messages).last() {
        Message::Unparsed(buffer) => match parse_head(kind, buffer + packet) {
            Ok((read, n)) => read == head && body == (buffer + packet).skip(n),
            Err(_) => false,
        },
        Message::HeaderParsed(read, part) => read == head && body == part + packet,
        Message::Sending(_) => false,
    }
}

/// What a packet that completes a message comes to.
proof fn lemma_completes<R: PacketRewrite>(
    rewriter: R,
    messages: Seq<Message>,
    packet: Seq<u8>,
    head: Head,
    body: Seq<u8>,
    state: StreamState,
)
    requires
        state != StreamState::WebSocket,
        messages_ok(R::Packet::kind(), messages),
        completes(R::Packet::kind(), messages, packet, head, body),
    ensures
        packet.len() > 0,
        feed::<R>(rewriter, with_new(messages).last(), packet, state, false, None) == match rewriter.outcome(
            head,
        ) {
            Ok((next, output)) => Fed {
                messages: seq![Message::Sending(serialized(next, body)), fresh()],
                kept: true,
                upgrade: asks_for_websocket(head),
                rewritten: Some(output),
            },
            Err(_) => given_up(seq![Message::HeaderParsed(head, body)]),
        },
{
    let kind = R::Packet::kind();
    lemma_new_message(kind);
    assert(receptive(kind, with_new(messages).last()));
    match with_new(messages).last() {
        Message::Unparsed(buffer) => {
            if packet.len() == 0 {
                assert(buffer + packet =~= buffer);
            }
            law_head_bounds(kind, buffer + packet);
            law_joined::<R>(rewriter, buffer, packet, state, false, None);
            law_whole_message::<R>(rewriter, buffer + packet, state, false, None);
        },
        Message::HeaderParsed(_, part) => {
            assert(packet.take(packet.len() as int) =~= packet);
            law_body::<R>(rewriter, head, part, packet, state, false, None);
        },
        Message::Sending(_) => {},
    }
}

/// A request that a packet completes goes to the backend of the first rule that picks it, rewritten
/// by that rule, with its body as it came.
pub proof fn law_proxied<R: ProxyRule>(
    c: Connection,
    head: Head,
    body: Seq<u8>,
    packet: &[u8],
    rules: &Vec<R>,
    i: int,
)
    requires
        connection_ok(c),
        c.state != StreamState::WebSocket,
        completes(MessageKind::Request, c.requests, packet@, head, body),
        is_first_rule(rules@, head, i),
    ensures
        after_client(c, Received::Bytes(packet), rules) == (
            Connection {
                requests: with_new(c.requests).drop_last() + seq![
                    Message::Sending(serialized(rules@[i].rewritten(head), body)),
                    fresh(),
                ],
                state: if asks_for_websocket(head) {
                    StreamState::UpgradeWebsocket
                } else {
                    c.state
                },
                backend: Some(rules@[i].target()),
                ..c
            },
            true,
        ),
{
    lemma_first_rule(rules@, head, i);
    assert(i < rules.len());
    lemma_completes::<ByRules<R>>(ByRules { rules }, c.requests, packet@, head, body, c.state);
}

/// There is only one first rule.
proof fn lemma_first_rule<R: ProxyRule>(rules: Seq<R>, head: Head, i: int)
    requires
        is_first_rule(rules, head, i),
    ensures
        first_rule(rules, head) == Some(i),
{
    assert forall|k: int| is_first_rule(rules, head, k) implies k == i by {
        if k < i {
            assert(!rules[k].applies(head));
        } else if i < k {
            assert(!rules[i].applies(head));
        }
    }
}

/// A request for the host of a rule of the configuration, where no earlier rule is about that host,
/// goes to that rule's backend, with the host header that the backend expects.
pub proof fn law_host_proxied(
    c: Connection,
    head: Head,
    body: Seq<u8>,
    packet: &[u8],
    rules: &Vec<ProxyRuleConfig>,
    i: int,
)
    requires
        connection_ok(c),
        c.state != StreamState::WebSocket,
        completes(MessageKind::Request, c.requests, packet@, head, body),
        0 <= i < rules@.len(),
        is_for_host(head, rules@[i]@.from),
        forall|j: int| 0 <= j < i ==> (#[trigger] rules@[j])@.from != rules@[i]@.from,
    ensures
        after_client(c, Received::Bytes(packet), rules) == (
            Connection {
                requests: with_new(c.requests).drop_last() + seq![
                    Message::Sending(serialized(with_host(head, host_header(rules@[i]@.to)), body)),
                    fresh(),
                ],
                state: if asks_for_websocket(head) {
                    StreamState::UpgradeWebsocket
                } else {
                    c.state
                },
                backend: Some(rules@[i]@.to),
                ..c
            },
            true,
        ),
{
    assert(is_first_rule(rules@, head, i));
    law_proxied(c, head, body, packet, rules, i);
}

/// A backend whose host header is clean reads a clean request that is sent to it as the request
/// with that header, and its body as it came.
pub proof fn law_backend_reads(head: Head, body: Seq<u8>, backend: Backend)
    requires
        clean_head(MessageKind::Request, head),
        clean_field("Host"@, host_header(backend)),
    ensures
        ({
            let sent = with_host(head, host_header(backend));
            let bytes = serialized(sent, body);
            &&& parse_head(MessageKind::Request, bytes) == Ok::<(Head, int), HttpProxyErr>(
                (sent, bytes.len() - body.len()),
            )
            &&& bytes.skip(bytes.len() - body.len()) == body
            &&& content_length(sent.fields) == content_length(head.fields)
        }),
{
    reveal_strlit("Host");
    reveal_strlit("Content-Length");
    assert("Host"@.len() != "Content-Length"@.len());
    law_put_clean(MessageKind::Request, head, "Host"@, host_header(backend));
    law_round_trip(MessageKind::Request, with_host(head, host_header(backend)), body);
}

/// The connection of a client that sends a request which no rule picks is given up.
pub proof fn law_refused<R: ProxyRule>(c: Connection, head: Head, body: Seq<u8>, packet: &[u8], rules: &Vec<R>)
    requires
        connection_ok(c),
        c.state != StreamState::WebSocket,
        completes(MessageKind::Request, c.requests, packet@, head, body),
        forall|i: int| 0 <= i < rules@.len() ==> !(#[trigger] rules@[i]).applies(head),
    ensures
        !after_client(c, Received::Bytes(packet), rules).1,
{
    lemma_completes::<ByRules<R>>(ByRules { rules }, c.requests, packet@, head, body, c.state);
}

/// A response that a packet completes goes to the client with its head and body as they came.
pub proof fn law_response(c: Connection, head: Head, body: Seq<u8>, packet: &[u8])
    requires
        connection_ok(c),
        c.state != StreamState::WebSocket,
        completes(MessageKind::Response, c.responses, packet@, head, body),
    ensures
        after_backend(c, Received::Bytes(packet)) == (
            Connection {
                responses: with_new(c.responses).drop_last() + seq![
                    Message::Sending(serialized(head, body)),
                    fresh(),
                ],
                state: if asks_for_websocket(head) && c.state == StreamState::UpgradeWebsocket {
                    StreamState::WebSocket
                } else {
                    c.state
                },
                ..c
            },
            true,
        ),
{
    lemma_completes::<Unchanged>(Unchanged {  }, c.responses, packet@, head, body, c.state);
}

/// The bytes of a clean message are one that a packet of them completes, so a clean response goes
/// to the client byte for byte.
pub proof fn law_clean_completes(kind: MessageKind, messages: Seq<Message>, head: Head, body: Seq<u8>)
    requires
        with_new(messages).last() == fresh(),
        clean_head(kind, head),
        content_length(head.fields) == Some(body.len()),
    ensures
        completes(kind, messages, serialized(head, body), head, body),
{
    law_round_trip(kind, head, body);
    assert(Seq::<u8>::empty() + serialized(head, body) =~= serialized(head, body));
}

/// On a web socket what either side sends goes to the other as it comes, and nothing else changes.
/// Bytes from before that were no head yet go ahead of it.
pub proof fn law_websocket_passes<R: ProxyRule>(c: Connection, packet: &[u8], rules: &Vec<R>)
    requires
        connection_ok(c),
        c.state == StreamState::WebSocket,
        packet@.len() > 0,
    ensures
        with_new(c.requests).last() matches Message::Unparsed(buffer) ==> after_client(
            c,
            Received::Bytes(packet),
            rules,
        ) == (
            Connection {
                requests: with_new(c.requests).drop_last() + seq![
                    Message::Sending(buffer + packet@),
                    fresh(),
                ],
                ..c
            },
            true,
        ),
        with_new(c.responses).last() matches Message::Unparsed(buffer) ==> after_backend(
            c,
            Received::Bytes(packet),
        ) == (
            Connection {
                responses: with_new(c.responses).drop_last() + seq![
                    Message::Sending(buffer + packet@),
                    fresh(),
                ],
                ..c
            },
            true,
        ),
{
    lemma_new_message(MessageKind::Request);
    lemma_new_message(MessageKind::Response);
    if let Message::Unparsed(buffer) = with_new(c.requests).last() {
        law_websocket::<ByRules<R>>(ByRules { rules }, buffer, packet@, false, None);
    }
    if let Message::Unparsed(buffer) = with_new(c.responses).last() {
        law_websocket::<Unchanged>(Unchanged {  }, buffer, packet@, false, None);
    }
}

/// The last message that is completed by what is received asks for a web socket, or grants one.
pub open spec fn brings_upgrade(
    kind: MessageKind,
    messages: Seq<Message>,
    received: Received,
    state: StreamState,
) -> bool {
    match received {
        Received::Bytes(packet) => packet@.len() > 0 && {
            let heads = completed_heads(kind, with_new(messages).last(), packet@, state);
            heads.len() > 0 && asks_for_websocket(heads.last())
        },
        _ => false,
    }
}

/// A connection that is kept waits for a web socket from the moment on at which the last request
/// that the client completes asks for one, and only then. It becomes a web socket if it waits for
/// one and the last response that the backend completes grants it, and only then. Otherwise, and
/// where the connection is given up, the state stays.
pub proof fn law_states<R: ProxyRule>(c: Connection, received: Received, rules: &Vec<R>)
    requires
        connection_ok(c),
    ensures
        ({
            let (next, kept) = after_client(c, received, rules);
            next.state == if kept && brings_upgrade(MessageKind::Request, c.requests, received, c.state) {
                StreamState::UpgradeWebsocket
            } else {
                c.state
            }
        }),
        ({
            let (next, kept) = after_backend(c, received);
            next.state == if kept && c.state == StreamState::UpgradeWebsocket && brings_upgrade(
                MessageKind::Response,
                c.responses,
                received,
                c.state,
            ) {
                StreamState::WebSocket
            } else {
                c.state
            }
        }),
{
    lemma_new_message(MessageKind::Request);
    lemma_new_message(MessageKind::Response);
    if let Received::Bytes(packet) = received {
        if packet@.len() > 0 {
            law_upgrade::<ByRules<R>>(
                ByRules { rules },
                with_new(c.requests).last(),
                packet@,
                c.state,
                false,
                None,
            );
            law_upgrade::<Unchanged>(
                Unchanged {  },
                with_new(c.responses).last(),
                packet@,
                c.state,
                false,
                None,
            );
        }
    }
}

/// A connection that is closed or that fails is given up, as it was, and one that has nothing to say
/// yet stays.
pub proof fn law_read_ends<R: ProxyRule>(c: Connection, rules: &Vec<R>, packet: &[u8])
    requires
        packet@.len() == 0,
    ensures
        after_client(c, Received::Bytes(packet), rules) == (
            Connection { requests: with_new(c.requests), ..c },
            false,
        ),
        after_client(c, Received::Failed, rules) == (
            Connection { requests: with_new(c.requests), ..c },
            false,
        ),
        after_client(c, Received::WouldBlock, rules) == (
            Connection { requests: with_new(c.requests), ..c },
            true,
        ),
        after_backend(c, Received::Bytes(packet)) == (
            Connection { responses: with_new(c.responses), ..c },
            false,
        ),
        after_backend(c, Received::Failed) == (
            Connection { responses: with_new(c.responses), ..c },
            false,
        ),
        after_backend(c, Received::WouldBlock) == (
            Connection { responses: with_new(c.responses), ..c },
            true,
        ),
{
}

/// The bytes that are still to be sent, in order.
pub open spec fn pending(messages: Seq<Message>) -> Seq<u8>
    decreases messages.len(),
{
    if messages.len() == 0 {
        Seq::empty()
    } else {
        (match messages[0] {
            Message::Sending(bytes) => bytes,
            _ => Seq::empty(),
        }) + pending(messages.drop_first())
    }
}

/// The bytes that a write takes are the first of its message; none is lost or sent twice, and the
/// other messages stay.
pub proof fn law_written(messages: Seq<Message>, at: int, n: int)
    requires
        sendable(messages, at, n),
        0 <= n,
    ensures
        ({
            let bytes = messages[at]->Sending_0;
            let left = bytes.skip(n);
            &&& bytes.take(n) + left == bytes
            &&& after_write(messages, at, n).0 == if left.len() == 0 {
                messages.take(at) + messages.skip(at + 1)
            } else {
                messages.take(at).push(Message::Sending(left)) + messages.skip(at + 1)
            }
        }),
{
    let bytes = messages[at]->Sending_0;
    assert(bytes.take(n) + bytes.skip(n) =~= bytes);
    if n == bytes.len() {
        assert(messages.remove(at) =~= messages.take(at) + messages.skip(at + 1));
    } else {
        assert(messages.update(at, Message::Sending(bytes.skip(n))) =~= messages.take(at).push(
            Message::Sending(bytes.skip(n)),
        ) + messages.skip(at + 1));
    }
}

/// Writing the first message takes the next bytes of all that is to be sent.
pub proof fn law_in_order(messages: Seq<Message>, n: int)
    requires
        sendable(messages, 0, n),
        0 <= n,
    ensures
        pending(messages) == messages[0]->Sending_0.take(n) + pending(after_write(messages, 0, n).0),
{
    let bytes = messages[0]->Sending_0;
    let next = after_write(messages, 0, n).0;
    assert(bytes.take(n) + bytes.skip(n) =~= bytes);
    if n == bytes.len() {
        assert(next =~= messages.drop_first());
        assert(bytes.take(n) =~= bytes);
    } else {
        assert(next.drop_first() =~= messages.drop_first());
        assert(bytes.take(n) + (bytes.skip(n) + pending(messages.drop_first())) =~= bytes + pending(
            messages.drop_first(),
        ));
    }
}

/// Where requests are to be sent, the backend is connected first; then the first request is
/// written.
pub proof fn law_connects_first(c: Connection, at: int)
    requires
        connection_ok(c),
        c.requests.len() > 1,
    ensures
        requests_step(c, at, RequestEvent::Start) == (
            c,
            if c.connected {
                SendAction::Write(0)
            } else {
                SendAction::Connect(0)
            },
        ),
        c.backend is Some,
        requests_step(c, 0, RequestEvent::Connected) == (
            Connection { connected: true, ..c },
            SendAction::Write(0),
        ),
{
    assert(c.requests[0] is Sending);
}

/// Where the first request is written whole, it goes away, and the next one follows if there is
/// one.
pub proof fn law_full_write(c: Connection, n: usize)
    requires
        connection_ok(c),
        c.connected,
        c.requests.len() > 1,
        c.requests[0]->Sending_0.len() == n,
    ensures
        requests_step(c, 0, RequestEvent::Written(n)) == (
            Connection { requests: c.requests.drop_first(), ..c },
            if c.requests.len() > 2 {
                SendAction::Write(0)
            } else {
                SendAction::Finished
            },
        ),
{
    assert(c.requests[0] is Sending);
    let next = c.requests.remove(0);
    assert(next =~= c.requests.drop_first());
    assert(next[0] == c.requests[1]);
    assert(next_sending(next, 1) is None || next.len() > 1);
}

/// What is found to be sent lies at or behind the position where the search starts.
proof fn lemma_next_sending(messages: Seq<Message>, from: int)
    ensures
        next_sending(messages, from) matches Some(i) ==> from <= i < messages.len() && messages[i] is Sending,
    decreases messages.len() - from,
{
    if from < messages.len() && messages[from] !is Sending {
        lemma_next_sending(messages, from + 1);
    }
}

/// Sending goes through the messages once: after each write, successful or not, fewer messages are
/// left from the position of the next one on.
pub proof fn law_sending_ends(c: Connection, at: int, request: RequestEvent, response: ResponseEvent)
    requires
        c.requests.len() <= usize::MAX,
        c.responses.len() <= usize::MAX,
    ensures
        ({
            let (next, action) = requests_step(c, at, request);
            let n: int = if let RequestEvent::Written(n) = request {
                n as int
            } else {
                0
            };
            sendable(c.requests, at, n) && !(request is Start) && !(request is Connected) ==> match action {
                SendAction::Write(i) | SendAction::Connect(i) => next.requests.len() - i < c.requests.len() - at,
                _ => true,
            }
        }),
        ({
            let (next, action) = responses_step(c, at, response);
            let n: int = if let ResponseEvent::Written(n) = response {
                n as int
            } else {
                0
            };
            sendable(c.responses, at, n) && !(response is Start) ==> match action {
                SendAction::Write(i) => next.responses.len() - i < c.responses.len() - at,
                _ => true,
            }
        }),
{
    let next = requests_step(c, at, request).0.requests;
    lemma_next_sending(next, at);
    lemma_next_sending(next, at + 1);
    let next = responses_step(c, at, response).0.responses;
    lemma_next_sending(next, at);
    lemma_next_sending(next, at + 1);
}

} // verus!
