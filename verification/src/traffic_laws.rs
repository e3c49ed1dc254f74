//! What holds of messages as they come in and go out, whatever the bytes.
use crate::config::{
    backend_views, rule_views, BackendConfig, Failure, ProxyConfigError, ProxyRule, ProxyRuleConfig,
};
use crate::connection::{
    after_backend, after_client, after_write, connection_ok, new_connection, next_sending, requests_step,
    responses_step, Connection, RequestEvent, ResponseEvent, SendAction,
};
use crate::errors::HttpProxyErr;
use crate::headers::{put, unique_names, Fields};
use crate::http::{content_length, parse_head, serialized, Head, MessageKind, StartLine};
use crate::http_laws::law_head_bounds;
use crate::message::{
    law_take_in, take_in, HttpMessage, HttpMessageHandle, Message, StreamState, MAX_HEADER_SIZE,
    MAX_TCP_PACKET_SIZE,
};
use crate::rewrite::{first_rule, is_first_rule};
use crate::server::{config_view, reads_as, server_view, server_views, Addresses, Server, ServerConfig};
use crate::stream::{
    asks_for_websocket, behind, bytes_waiting, completed, feed, given_up, lemma_new_message, receive, receptive,
    views, with_new, ByRules, Fed, PacketRewrite, Received, Unchanged,
};
use crate::stream_laws::{completed_heads, fresh};
use crate::transmittable::HttpTransmittable;
use crate::word_laws::{law_field_at_end, law_field_in_place};
use vstd::prelude::*;

verus! {

/// How long a head may be, and how much is read at once.
pub proof fn law_sizes()
    ensures
        MAX_HEADER_SIZE == 16384,
        MAX_TCP_PACKET_SIZE == 655350,
{
}

/// A message asks for a web socket if and only if the value of its upgrade field is that word,
/// whatever its other fields are.
pub proof fn law_asks(before: Fields, value: Seq<char>, after: Fields, start: StartLine)
    requires
        forall|i: int| 0 <= i < before.len() ==> (#[trigger] before[i]).0 != "Upgrade"@,
        forall|i: int| 0 <= i < after.len() ==> (#[trigger] after[i]).0 != "Upgrade"@,
    ensures
        asks_for_websocket(Head { start, fields: before + seq![("Upgrade"@, value)] + after }) <==> value
            == "websocket"@,
        !asks_for_websocket(Head { start, fields: before }),
{
    law_field_in_place(before, "Upgrade"@, value, after, value);
    law_field_at_end(before, "Upgrade"@, value);
}

/// Setting another field does not change whether a message asks for a web socket. Setting the
/// upgrade field to that word makes it ask.
pub proof fn law_asks_by_one_field(head: Head, name: Seq<char>, value: Seq<char>)
    requires
        unique_names(head.fields),
    ensures
        name != "Upgrade"@ ==> (asks_for_websocket(Head { fields: put(head.fields, name, value), ..head })
            <==> asks_for_websocket(head)),
        asks_for_websocket(Head { fields: put(head.fields, "Upgrade"@, "websocket"@), ..head }),
{
    crate::headers::law_put(head.fields, name, value);
    crate::headers::law_put(head.fields, "Upgrade"@, "websocket"@);
}

/// On a web socket a message is what has come so far.
pub proof fn law_takes_all(kind: MessageKind, buffer: Seq<u8>, packet: Seq<u8>)
    ensures
        take_in(kind, Message::Unparsed(buffer), packet, StreamState::WebSocket) == (
            Message::Sending(buffer + packet),
            Ok::<(int, bool), HttpProxyErr>((packet.len() as int, true)),
        ),
{
    reveal(take_in);
}

/// A message whose head has come is complete once as many bytes follow the head as it announces,
/// and it ends behind so many.
pub proof fn law_takes_head(
    kind: MessageKind,
    buffer: Seq<u8>,
    packet: Seq<u8>,
    state: StreamState,
    head: Head,
    n: int,
    length: nat,
)
    requires
        state != StreamState::WebSocket,
        parse_head(kind, buffer + packet) == Ok::<(Head, int), HttpProxyErr>((head, n)),
        content_length(head.fields) == Some(length),
    ensures
        ({
            let came = buffer.len() + packet.len() - n;
            let (next, result) = take_in(kind, Message::Unparsed(buffer), packet, state);
            &&& next == Message::HeaderParsed(
                head,
                if length == 0 {
                    Seq::empty()
                } else {
                    (buffer + packet).skip(n)
                },
            )
            &&& result matches Ok((size, ready)) && {
                &&& ready <==> length <= came
                &&& ready ==> buffer.len() + size == n + length
                &&& !ready ==> size == packet.len()
            }
        }),
{
    reveal(take_in);
    law_head_bounds(kind, buffer + packet);
}

/// Bytes that are no head are kept, all of them, as long as they are fewer than a head may have.
pub proof fn law_takes_no_head(kind: MessageKind, buffer: Seq<u8>, packet: Seq<u8>, state: StreamState)
    requires
        state != StreamState::WebSocket,
        parse_head(kind, buffer + packet) is Err,
    ensures
        take_in(kind, Message::Unparsed(buffer), packet, state) == (
            Message::Unparsed(buffer + packet),
            if buffer.len() + packet.len() < 16384 {
                Ok::<(int, bool), HttpProxyErr>((packet.len() as int, false))
            } else {
                Err(HttpProxyErr::CorruptedClientConnection)
            },
        ),
{
    reveal(take_in);
}

/// A message whose body comes in takes what it lacks, and is complete with that.
pub proof fn law_takes_body(
    kind: MessageKind,
    head: Head,
    body: Seq<u8>,
    packet: Seq<u8>,
    state: StreamState,
    lacks: nat,
)
    requires
        content_length(head.fields) == Some(body.len() + lacks),
    ensures
        lacks <= packet.len() ==> take_in(kind, Message::HeaderParsed(head, body), packet, state) == (
            Message::HeaderParsed(head, body + packet.take(lacks as int)),
            Ok::<(int, bool), HttpProxyErr>((lacks as int, true)),
        ),
        lacks > packet.len() ==> take_in(kind, Message::HeaderParsed(head, body), packet, state) == (
            Message::HeaderParsed(head, body + packet),
            Ok::<(int, bool), HttpProxyErr>((packet.len() as int, false)),
        ),
{
    reveal(take_in);
}

/// A body that comes with its head, and more behind it, takes all of that; but what is behind the
/// announced length is for a new message too.
pub proof fn law_overlong<R: PacketRewrite>(
    rewriter: R,
    packet: Seq<u8>,
    head: Head,
    n: int,
    length: nat,
    state: StreamState,
    upgrade: bool,
    rewritten: Option<R::Output>,
)
    requires
        state != StreamState::WebSocket,
        parse_head(R::Packet::kind(), packet) == Ok::<(Head, int), HttpProxyErr>((head, n)),
        content_length(head.fields) == Some(length),
        0 < length < packet.len() - n,
    ensures
        feed::<R>(rewriter, fresh(), packet, state, upgrade, rewritten) == match rewriter.outcome(head) {
            Ok((next, output)) => behind(
                seq![Message::Sending(serialized(next, packet.skip(n)))],
                feed::<R>(
                    rewriter,
                    fresh(),
                    packet.skip(n + length as int),
                    state,
                    asks_for_websocket(head),
                    Some(output),
                ),
            ),
            Err(_) => given_up(seq![Message::HeaderParsed(head, packet.skip(n))]),
        },
{
    reveal(feed);
    let kind = R::Packet::kind();
    law_head_bounds(kind, packet);
    lemma_new_message(kind);
    assert(Seq::<u8>::empty() + packet =~= packet);
    let (next, result) = take_in(kind, fresh(), packet, state);
    assert(next == Message::HeaderParsed(head, packet.skip(n)) && result == Ok::<(int, bool), HttpProxyErr>(
        (n + length as int, true),
    )) by {
        law_takes_head(kind, Seq::empty(), packet, state, head, n, length);
    }
}

/// What is learned is learned of the last message that the packet completes.
pub proof fn law_learned<R: PacketRewrite>(
    rewriter: R,
    message: Message,
    packet: Seq<u8>,
    state: StreamState,
    upgrade: bool,
    rewritten: Option<R::Output>,
)
    requires
        receptive(R::Packet::kind(), message),
        packet.len() > 0,
    ensures
        ({
            let heads = completed_heads(R::Packet::kind(), message, packet, state);
            let fed = feed::<R>(rewriter, message, packet, state, upgrade, rewritten);
            &&& fed.kept && heads.len() == 0 ==> fed.rewritten == rewritten
            &&& fed.kept && heads.len() > 0 ==> (rewriter.outcome(heads.last()) matches Ok((_, output))
                && fed.rewritten == Some(output))
            &&& !fed.kept ==> fed.rewritten is None
        }),
    decreases packet.len(), bytes_waiting(message),
{
    reveal(feed);
    let kind = R::Packet::kind();
    law_take_in(kind, message, packet, state);
    lemma_new_message(kind);
    let (next, result) = take_in(kind, message, packet, state);
    if let Ok((size, ready)) = result {
        if ready {
            if let Some((sent, up, output)) = completed::<R>(rewriter, next, upgrade, rewritten) {
                let rest = packet.skip(size);
                if rest.len() > 0 {
                    law_learned::<R>(rewriter, fresh(), rest, state, up, output);
                    let heads = completed_heads(kind, message, packet, state);
                    let later = completed_heads(kind, fresh(), rest, state);
                    if later.len() > 0 {
                        assert(heads.last() == later.last());
                    }
                }
            }
        }
    }
}

/// Every message that a packet completes is sent on, rewritten, in order, and one more is begun.
pub proof fn law_all_sent<R: PacketRewrite>(
    rewriter: R,
    message: Message,
    packet: Seq<u8>,
    state: StreamState,
    upgrade: bool,
    rewritten: Option<R::Output>,
)
    requires
        receptive(R::Packet::kind(), message),
        packet.len() > 0,
        state != StreamState::WebSocket,
    ensures
        ({
            let heads = completed_heads(R::Packet::kind(), message, packet, state);
            let fed = feed::<R>(rewriter, message, packet, state, upgrade, rewritten);
            fed.kept ==> {
                &&& fed.messages.len() == heads.len() + 1
                &&& fed.messages.last() !is Sending
                &&& forall|k: int|
                    0 <= k < heads.len() ==> sent_as::<R>(rewriter, heads[k], #[trigger] fed.messages[k])
            }
        }),
    decreases packet.len(), bytes_waiting(message),
{
    reveal(feed);
    let kind = R::Packet::kind();
    lemma_new_message(kind);
    let (next, result) = take_in(kind, message, packet, state);
    assert(next !is Sending) by {
        reveal(take_in);
    }
    assert(result matches Ok((size, ready)) ==> {
        &&& 0 <= size <= packet.len()
        &&& size == 0 ==> bytes_waiting(message) > 0
        &&& ready ==> next is HeaderParsed
    }) by {
        law_take_in(kind, message, packet, state);
    }
    let heads = completed_heads(kind, message, packet, state);
    let fed = feed::<R>(rewriter, message, packet, state, upgrade, rewritten);
    if let Ok((size, ready)) = result {
        if ready {
            if let Some((sent, up, output)) = completed::<R>(rewriter, next, upgrade, rewritten) {
                let (head, body) = (next->HeaderParsed_0, next->HeaderParsed_1);
                assert(sent == Message::Sending(serialized(rewriter.outcome(head)->Ok_0.0, body)));
                assert(sent_as::<R>(rewriter, head, sent));
                let rest = packet.skip(size);
                if rest.len() > 0 {
                    law_all_sent::<R>(rewriter, fresh(), rest, state, up, output);
                    let later = feed::<R>(rewriter, fresh(), rest, state, up, output);
                    let later_heads = completed_heads(kind, fresh(), rest, state);
                    assert(fed == behind(seq![sent], later));
                    assert(heads =~= seq![head] + later_heads);
                    lemma_all_sent_behind::<R>(rewriter, head, sent, later_heads, later);
                } else {
                    assert(heads =~= seq![head]);
                }
            }
        } else {
            assert(heads.len() == 0);
        }
    }
}

/// One message more that is sent on, in front of those that are.
proof fn lemma_all_sent_behind<R: PacketRewrite>(
    rewriter: R,
    head: Head,
    sent: Message,
    heads: Seq<Head>,
    fed: Fed<R::Output>,
)
    requires
        sent_as::<R>(rewriter, head, sent),
        fed.kept ==> fed.messages.len() == heads.len() + 1,
        fed.kept ==> forall|k: int|
            0 <= k < heads.len() ==> sent_as::<R>(rewriter, heads[k], #[trigger] fed.messages[k]),
    ensures
        fed.kept ==> forall|k: int|
            0 <= k <= heads.len() ==> sent_as::<R>(
                rewriter,
                (seq![head] + heads)[k],
                #[trigger] behind(seq![sent], fed).messages[k],
            ),
        fed.kept ==> behind(seq![sent], fed).messages.last() == fed.messages.last(),
{
    if fed.kept {
        assert forall|k: int| 0 <= k <= heads.len() implies sent_as::<R>(
            rewriter,
            (seq![head] + heads)[k],
            #[trigger] behind(seq![sent], fed).messages[k],
        ) by {
            if k > 0 {
                assert(behind(seq![sent], fed).messages[k] == fed.messages[k - 1]);
                assert((seq![head] + heads)[k] == heads[k - 1]);
            }
        }
    }
}

/// A message to be sent is the bytes of a head, rewritten, and some body.
pub open spec fn sent_as<R: PacketRewrite>(rewriter: R, head: Head, message: Message) -> bool {
    rewriter.outcome(head) matches Ok((next, _)) && exists|body: Seq<u8>|
        message == Message::Sending(#[trigger] serialized(next, body))
}

/// What the client sends goes behind what it sent before, and changes nothing on the backend's side.
/// The backend becomes that of the first rule for the last request that is completed.
pub proof fn law_client_packet<R: ProxyRule>(c: Connection, packet: &[u8], rules: &Vec<R>)
    requires
        connection_ok(c),
        packet@.len() > 0,
    ensures
        ({
            let (next, kept) = after_client(c, Received::Bytes(packet), rules);
            let last = with_new(c.requests).last();
            let heads = completed_heads(MessageKind::Request, last, packet@, c.state);
            let fed = feed::<ByRules<R>>(ByRules { rules }, last, packet@, c.state, false, None);
            &&& kept == fed.kept
            &&& next.requests == with_new(c.requests).drop_last() + fed.messages
            &&& next.responses == c.responses
            &&& next.connected == c.connected
            &&& !kept || heads.len() == 0 ==> next.backend == c.backend
            &&& kept && heads.len() > 0 ==> exists|i: int|
                0 <= i < rules@.len() && rules@[i].applies(heads.last()) && (forall|j: int|
                    0 <= j < i ==> !(#[trigger] rules@[j]).applies(heads.last())) && next.backend == Some(
                    (#[trigger] rules@[i]).target(),
                )
        }),
{
    let last = with_new(c.requests).last();
    lemma_new_message(MessageKind::Request);
    law_learned::<ByRules<R>>(ByRules { rules }, last, packet@, c.state, false, None);
    let heads = completed_heads(MessageKind::Request, last, packet@, c.state);
    let (next, kept) = after_client(c, Received::Bytes(packet), rules);
    if kept && heads.len() > 0 {
        let i = choose|i: int| is_first_rule(rules@, heads.last(), i);
        assert(first_rule(rules@, heads.last()) == Some(i));
        assert(is_first_rule(rules@, heads.last(), i));
        assert(i < rules.len());
        assert(next.backend == Some(rules@[i].target()));
    }
}

/// What the backend sends goes behind what it sent before, and changes nothing on the client's side.
pub proof fn law_backend_packet(c: Connection, packet: &[u8])
    requires
        packet@.len() > 0,
    ensures
        ({
            let (next, kept) = after_backend(c, Received::Bytes(packet));
            let last = with_new(c.responses).last();
            let fed = feed::<Unchanged>(Unchanged {  }, last, packet@, c.state, false, None);
            &&& kept == fed.kept
            &&& next.responses == with_new(c.responses).drop_last() + fed.messages
            &&& next.requests == c.requests
            &&& next.connected == c.connected
            &&& next.backend == c.backend
        }),
{
}

/// The messages of a direction are those that there are; where there are none, there is a new one.
pub proof fn law_with_new(messages: Seq<Message>)
    ensures
        messages.len() > 0 ==> with_new(messages) == messages,
        messages.len() == 0 ==> with_new(messages) == seq![Message::Unparsed(Seq::<u8>::empty())],
        fresh() == Message::Unparsed(Seq::<u8>::empty()),
{
}

/// A new connection has no messages, no backend and no web socket.
pub proof fn law_new_connection()
    ensures
        new_connection().requests.len() == 0,
        new_connection().responses.len() == 0,
        new_connection().state == StreamState::Http,
        new_connection().backend is None,
        !new_connection().connected,
{
}

/// `i` is the first position from `from` on with a message that is to be sent.
pub open spec fn is_next(messages: Seq<Message>, from: int, i: int) -> bool {
    &&& from <= i < messages.len()
    &&& messages[i] is Sending
    &&& forall|j: int| from <= j < i ==> (#[trigger] messages[j]) !is Sending
}

/// What is sent next is the first message from a position on that is to be sent.
pub proof fn law_next_sending(messages: Seq<Message>, from: int, i: int)
    requires
        0 <= from,
    ensures
        next_sending(messages, from) == Some(i) <==> is_next(messages, from, i),
        next_sending(messages, from) is None <==> forall|j: int|
            from <= j < messages.len() ==> (#[trigger] messages[j]) !is Sending,
    decreases messages.len() - from,
{
    if from < messages.len() && messages[from] !is Sending {
        law_next_sending(messages, from + 1, i);
        assert forall|j: int| from <= j < messages.len() && next_sending(messages, from) is None implies (
        #[trigger] messages[j]) !is Sending by {}
        if is_next(messages, from, i) {
            assert(i != from);
            assert(is_next(messages, from + 1, i));
        }
        if is_next(messages, from + 1, i) {
            assert(is_next(messages, from, i));
        }
    }
}

/// What is done next is about the first message from a position on that is to be sent, and sending
/// is finished where there is none.
pub open spec fn goes_on(messages: Seq<Message>, from: int, connected: bool, action: SendAction) -> bool {
    match action {
        SendAction::Write(i) => connected && is_next(messages, from, i as int),
        SendAction::Connect(i) => !connected && is_next(messages, from, i as int),
        SendAction::Finished => forall|j: int| from <= j < messages.len() ==> (#[trigger] messages[j]) !is Sending,
        SendAction::GiveUp => false,
    }
}

/// The messages after a write, with the written bytes put back in front of what is left of the
/// message, are those from before. A message goes away only when it is written whole.
pub open spec fn drains(before: Seq<Message>, at: int, n: int, after: Seq<Message>) -> bool {
    let bytes = before[at]->Sending_0;
    &&& n == bytes.len() ==> after == before.take(at) + before.skip(at + 1)
    &&& n < bytes.len() ==> {
        &&& after.len() == before.len()
        &&& after[at] matches Message::Sending(left) && bytes.take(n) + left == bytes
        &&& forall|j: int| 0 <= j < before.len() && j != at ==> #[trigger] after[j] == before[j]
    }
}

proof fn lemma_drains(messages: Seq<Message>, at: int, n: int)
    requires
        0 <= at < messages.len(),
        messages[at] matches Message::Sending(bytes) && 0 <= n <= bytes.len(),
    ensures
        drains(messages, at, n, after_write(messages, at, n).0),
        after_write(messages, at, n).1 == if n == messages[at]->Sending_0.len() {
            at
        } else {
            at + 1
        },
{
    let bytes = messages[at]->Sending_0;
    assert(bytes.take(n) + bytes.skip(n) =~= bytes);
    assert(messages.remove(at) =~= messages.take(at) + messages.skip(at + 1));
}

proof fn lemma_next(messages: Seq<Message>, from: int)
    requires
        0 <= from,
    ensures
        next_sending(messages, from) matches Some(i) ==> is_next(messages, from, i),
        next_sending(messages, from) is None ==> forall|j: int|
            from <= j < messages.len() ==> (#[trigger] messages[j]) !is Sending,
{
    law_next_sending(messages, from, 0);
    if let Some(i) = next_sending(messages, from) {
        law_next_sending(messages, from, i);
    }
}

/// To start sending changes nothing and looks at the first message of its direction that is to be
/// sent, whatever messages there are.
pub proof fn law_sending_starts(c: Connection, at: int)
    requires
        c.requests.len() <= usize::MAX,
        c.responses.len() <= usize::MAX,
    ensures
        ({
            let (next, action) = requests_step(c, at, RequestEvent::Start);
            next == c && goes_on(c.requests, 0, c.connected, action)
        }),
        ({
            let (next, action) = responses_step(c, at, ResponseEvent::Start);
            next == c && goes_on(c.responses, 0, true, action)
        }),
{
    lemma_next(c.requests, 0);
    lemma_next(c.responses, 0);
}

/// Sending responses: what is written goes away and nothing else, what cannot be written yet stays,
/// and a response that fails goes away; then the next one follows. Nothing but the responses
/// changes.
pub proof fn law_responses_sent(c: Connection, at: int, n: usize)
    requires
        c.responses.len() <= usize::MAX,
        0 <= at < c.responses.len(),
        c.responses[at] matches Message::Sending(bytes) && n <= bytes.len(),
    ensures
        ({
            let (next, action) = responses_step(c, at, ResponseEvent::Written(n));
            let from = if n == c.responses[at]->Sending_0.len() {
                at
            } else {
                at + 1
            };
            &&& drains(c.responses, at, n as int, next.responses)
            &&& next == (Connection { responses: next.responses, ..c })
            &&& goes_on(next.responses, from, true, action)
        }),
        ({
            let (next, action) = responses_step(c, at, ResponseEvent::WouldBlock);
            next == c && goes_on(c.responses, at + 1, true, action)
        }),
        ({
            let (next, action) = responses_step(c, at, ResponseEvent::WriteFailed);
            &&& next.responses == c.responses.take(at) + c.responses.skip(at + 1)
            &&& next == (Connection { responses: next.responses, ..c })
            &&& goes_on(next.responses, at, true, action)
        }),
{
    lemma_drains(c.responses, at, n as int);
    let written = after_write(c.responses, at, n as int).0;
    lemma_next(written, at);
    lemma_next(written, at + 1);
    lemma_next(c.responses, at + 1);
    let removed = c.responses.remove(at);
    assert(removed =~= c.responses.take(at) + c.responses.skip(at + 1));
    lemma_next(removed, at);
}

/// Sending requests: what is written goes away and nothing else, what cannot be written yet stays,
/// and a failure ends the connection; a backend that is not connected is connected first. Nothing
/// but the requests, and whether the backend is connected, changes.
pub proof fn law_requests_sent(c: Connection, at: int, n: usize)
    requires
        c.requests.len() <= usize::MAX,
        0 <= at < c.requests.len(),
        c.requests[at] matches Message::Sending(bytes) && n <= bytes.len(),
    ensures
        ({
            let (next, action) = requests_step(c, at, RequestEvent::Written(n));
            let from = if n == c.requests[at]->Sending_0.len() {
                at
            } else {
                at + 1
            };
            &&& drains(c.requests, at, n as int, next.requests)
            &&& next == (Connection { requests: next.requests, ..c })
            &&& goes_on(next.requests, from, c.connected, action)
        }),
        ({
            let (next, action) = requests_step(c, at, RequestEvent::WouldBlock);
            next == c && goes_on(c.requests, at + 1, c.connected, action)
        }),
        requests_step(c, at, RequestEvent::WriteFailed) == (c, SendAction::GiveUp),
        requests_step(c, at, RequestEvent::ConnectFailed) == (c, SendAction::GiveUp),
        requests_step(c, at, RequestEvent::Connected) == (
            Connection { connected: true, ..c },
            SendAction::Write(at as usize),
        ),
{
    lemma_drains(c.requests, at, n as int);
    let written = after_write(c.requests, at, n as int).0;
    lemma_next(written, at);
    lemma_next(written, at + 1);
    lemma_next(c.requests, at + 1);
}

/// A parser goes by the text alone if and only if what it may give for a text is what there is for
/// that text.
pub proof fn law_reads_as<A, F: Fn(&str) -> Result<A, String>>(parse_addr: F, addresses: Addresses<A>)
    ensures
        reads_as(parse_addr, addresses) <==> forall|s: &str, r: Result<A, String>| #[trigger]
            call_ensures(parse_addr, (s,), r) ==> match r {
                Ok(address) => addresses(s@) == Ok::<A, Seq<char>>(address),
                Err(e) => addresses(s@) == Err::<A, Seq<char>>(e@),
            },
{
    if reads_as(parse_addr, addresses) {
        assert forall|s: &str, r: Result<A, String>| #[trigger] call_ensures(parse_addr, (s,), r) implies match r {
            Ok(address) => addresses(s@) == Ok::<A, Seq<char>>(address),
            Err(e) => addresses(s@) == Err::<A, Seq<char>>(e@),
        } by {
            assert(addresses(s@) == crate::server::address_view(r));
        }
    }
}

/// Backends, errors, servers and messages are seen with everything that they hold.
pub proof fn law_views<A, T: HttpTransmittable>(
    backend: BackendConfig,
    error: ProxyConfigError,
    server: ServerConfig<A>,
    message: HttpMessage<T>,
)
    ensures
        backend@.name == backend.name@ && backend@.host == backend.host@ && backend@.port == backend.port
            && backend@.https == backend.https,
        backend.hostname matches Some(s) ==> backend@.hostname == Some(s@),
        backend.hostname is None ==> backend@.hostname is None,
        match error {
            ProxyConfigError::FailedToReadFile(e) => error@ == Failure::Read(e@),
            ProxyConfigError::FailedToParseConfig(e) => error@ == Failure::Parse(e@),
            ProxyConfigError::BadConfigFormat(e) => error@ == Failure::Format(e@),
            ProxyConfigError::ServerConfigIsNotAnObject(e) => error@ == Failure::NotAnObject(e@),
            ProxyConfigError::ConfigParamInvalid(p, e) => error@ == Failure::Param(p@, e@),
            ProxyConfigError::InvalidListnerAddr(e) => error@ == Failure::Listener(e@),
        },
        server@.name == server.server_name@ && server@.listener == server.listener_addr && server@.worker_count
            == server.worker_count,
        server@.rules.len() == server.proxy_rules@.len() && server@.backends.len() == server.backends@.len(),
        forall|i: int|
            0 <= i < server.proxy_rules@.len() ==> server@.rules[i] == (#[trigger] server.proxy_rules@[i])@,
        forall|i: int| 0 <= i < server.backends@.len() ==> server@.backends[i] == (#[trigger] server.backends@[i])@,
        match message {
            HttpMessage::Unparsed(bytes) => message@ == Message::Unparsed(bytes@),
            HttpMessage::HeaderParsed(m) => message@ == Message::HeaderParsed(m.head(), m.body()),
            HttpMessage::Sending(bytes) => message@ == Message::Sending(bytes@),
        },
{
}

/// Lists are seen item by item, in order, and results with what they hold.
pub proof fn law_list_views<A, T: HttpTransmittable>(
    backends: Seq<BackendConfig>,
    rules: Seq<ProxyRuleConfig>,
    servers: Seq<ServerConfig<A>>,
    messages: Seq<HttpMessageHandle<T>>,
    server: Result<ServerConfig<A>, ProxyConfigError>,
    parsed: Result<Vec<ServerConfig<A>>, ProxyConfigError>,
)
    ensures
        backend_views(backends).len() == backends.len(),
        forall|i: int| 0 <= i < backends.len() ==> backend_views(backends)[i] == (#[trigger] backends[i])@,
        rule_views(rules).len() == rules.len(),
        forall|i: int| 0 <= i < rules.len() ==> rule_views(rules)[i] == (#[trigger] rules[i])@,
        server_views(servers).len() == servers.len(),
        forall|i: int| 0 <= i < servers.len() ==> server_views(servers)[i] == (#[trigger] servers[i])@,
        views(messages).len() == messages.len(),
        forall|i: int| 0 <= i < messages.len() ==> views(messages)[i] == (#[trigger] messages[i]).message@,
        match server {
            Ok(server) => server_view(Ok::<ServerConfig<A>, ProxyConfigError>(server)) == Ok::<Server<A>, Failure>(
                server@,
            ),
            Err(e) => server_view(Err::<ServerConfig<A>, ProxyConfigError>(e)) == Err::<Server<A>, Failure>(e@),
        },
        match parsed {
            Ok(list) => config_view(Ok::<Vec<ServerConfig<A>>, ProxyConfigError>(list)) == Ok::<
                Seq<Server<A>>,
                Failure,
            >(server_views(list@)),
            Err(e) => config_view(Err::<Vec<ServerConfig<A>>, ProxyConfigError>(e)) == Err::<
                Seq<Server<A>>,
                Failure,
            >(e@),
        },
{
}

/// Messages in front of what a packet comes to are in front of its messages, and change nothing
/// else of it. To give a connection up is to learn nothing.
pub proof fn law_behind<A>(messages: Seq<Message>, fed: Fed<A>)
    ensures
        behind(messages, fed).messages == messages + fed.messages,
        behind(messages, fed).kept == fed.kept,
        behind(messages, fed).upgrade == fed.upgrade,
        behind(messages, fed).rewritten == fed.rewritten,
        given_up::<A>(messages).messages == messages,
        !given_up::<A>(messages).kept,
        !given_up::<A>(messages).upgrade,
        given_up::<A>(messages).rewritten is None,
{
}

/// Bytes are fed to the last message of a direction. To be closed or to fail ends a connection and
/// leaves its messages; where there is nothing yet, all stays.
pub proof fn law_receive<R: PacketRewrite>(
    rewriter: R,
    messages: Seq<Message>,
    packet: &[u8],
    state: StreamState,
)
    ensures
        packet@.len() > 0 ==> receive::<R>(rewriter, messages, Received::Bytes(packet), state) == behind(
            with_new(messages).drop_last(),
            feed::<R>(rewriter, with_new(messages).last(), packet@, state, false, None),
        ),
        packet@.len() == 0 ==> receive::<R>(rewriter, messages, Received::Bytes(packet), state) == given_up::<
            R::Output,
        >(with_new(messages)),
        receive::<R>(rewriter, messages, Received::Failed, state) == given_up::<R::Output>(with_new(messages)),
        ({
            let fed = receive::<R>(rewriter, messages, Received::WouldBlock, state);
            fed.messages == with_new(messages) && fed.kept && !fed.upgrade && fed.rewritten is None
        }),
{
}

} // verus!
