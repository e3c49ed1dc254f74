//! The messages of one direction of a connection.
use crate::errors::HttpProxyErr;
use crate::headers::lookup;
use crate::http::{serialized, Head, MessageKind, Request, Response};
use crate::http_laws::law_head_bounds;
use crate::message::{
    law_take_in, message_ok, process_http_transittable, take_in, HttpMessage, HttpMessageHandle, Message,
    StreamState,
};
use crate::rewrite::{proxy_rewrite_request, rewrite_head, ProxtRule};
use crate::text::str_eq;
use crate::transmittable::{valid_head, HttpTransmittable};
use vstd::prelude::*;
use vstd::slice::slice_subrange;

verus! {

/// What becomes of a complete message before it is sent on.
pub trait PacketRewrite {
    /// The messages that are rewritten.
    type Packet: HttpTransmittable;

    /// What is learned of a message while it is rewritten.
    type Output;

    /// The head that a message gets and what is learned of it, or why it is refused.
    spec fn outcome(&self, head: Head) -> Result<(Head, Self::Output), HttpProxyErr>;

    fn packet_rewrite(&self, packet: &mut Self::Packet) -> (result: Result<Self::Output, HttpProxyErr>)
        requires
            valid_head(Self::Packet::kind(), old(packet).head()),
        ensures
            match result {
                Ok(output) => self.outcome(old(packet).head()) == Ok::<(Head, Self::Output), HttpProxyErr>(
                    (final(packet).head(), output),
                ),
                Err(e) => {
                    &&& self.outcome(old(packet).head()) == Err::<(Head, Self::Output), HttpProxyErr>(e)
                    &&& final(packet).head() == old(packet).head()
                },
            },
            final(packet).body() == old(packet).body(),
            valid_head(Self::Packet::kind(), final(packet).head()),
    ;
}

/// Requests are rewritten by the first rule that picks them; its position is learned.
pub struct ByRules<'a, R: ProxtRule> {
    pub rules: &'a Vec<R>,
}

impl<'a, R: ProxtRule> PacketRewrite for ByRules<'a, R> {
    type Packet = Request;

    type Output = usize;

    open spec fn outcome(&self, head: Head) -> Result<(Head, usize), HttpProxyErr> {
        match rewrite_head(self.rules@, head) {
            Ok((rewritten, i)) => Ok((rewritten, i as usize)),
            Err(e) => Err(e),
        }
    }

    fn packet_rewrite(&self, packet: &mut Request) -> (result: Result<usize, HttpProxyErr>) {
        proxy_rewrite_request(packet, self.rules)
    }
}

/// Responses are sent on as they are.
pub struct Unchanged {}

impl PacketRewrite for Unchanged {
    type Packet = Response;

    type Output = ();

    open spec fn outcome(&self, head: Head) -> Result<(Head, ()), HttpProxyErr> {
        Ok((head, ()))
    }

    fn packet_rewrite(&self, packet: &mut Response) -> (result: Result<(), HttpProxyErr>) {
        Ok(())
    }
}

/// The fields ask for a web socket, or grant one.
pub open spec fn asks_for_websocket(head: Head) -> bool {
    lookup(head.fields, "Upgrade"@) == Some("websocket"@)
}

/// Whether a message asks for a web socket, or grants one.
pub fn check_for_websocket_upgrade<T: HttpTransmittable>(request: &T) -> (yes: bool)
    requires
        valid_head(T::kind(), request.head()),
    ensures
        yes == asks_for_websocket(request.head()),
{
    match request.get_headers().get("Upgrade") {
        Some(upgrade) => str_eq(upgrade, "websocket"),
        None => false,
    }
}

pub open spec fn views<T: HttpTransmittable>(list: Seq<HttpMessageHandle<T>>) -> Seq<Message> {
    Seq::new(list.len(), |i: int| list[i]@)
}

/// What holds of the messages of one direction between packets: all but the last are to be sent,
/// and the last still comes in.
pub open spec fn messages_ok(kind: MessageKind, messages: Seq<Message>) -> bool {
    forall|i: int|
        0 <= i < messages.len() ==> message_ok(kind, #[trigger] messages[i]) && (messages[i] is Sending
            <==> i < messages.len() - 1)
}

/// What a packet comes to: the messages that take the place of the one it came for, whether the
/// connection is kept, whether the last complete message asks for a web socket, and what was
/// learned when it was rewritten.
#[verifier::ext_equal]
pub struct Fed<A> {
    pub messages: Seq<Message>,
    pub kept: bool,
    pub upgrade: bool,
    pub rewritten: Option<A>,
}

/// The connection is given up.
pub open spec fn given_up<A>(messages: Seq<Message>) -> Fed<A> {
    Fed { messages, kept: false, upgrade: false, rewritten: None }
}

/// Messages with those behind them that a packet comes to.
pub open spec fn behind<A>(messages: Seq<Message>, fed: Fed<A>) -> Fed<A> {
    Fed { messages: messages + fed.messages, ..fed }
}

/// A message that more bytes can come for.
pub open spec fn receptive(kind: MessageKind, message: Message) -> bool {
    message_ok(kind, message) && message !is Sending
}

/// What a packet comes to: each complete message is rewritten and becomes one to be sent, and the
/// bytes behind it are for a new message. Where bytes cannot be read or a message is refused, the
/// connection is given up.
#[verifier::opaque]
pub open spec fn feed<R: PacketRewrite>(
    rewriter: R,
    message: Message,
    packet: Seq<u8>,
    state: StreamState,
    upgrade: bool,
    rewritten: Option<R::Output>,
) -> Fed<R::Output>
    decreases packet.len(), bytes_waiting(message),
    when receptive(R::Packet::kind(), message) && packet.len() > 0
{
    proof {
        law_take_in(R::Packet::kind(), message, packet, state);
    }
    let (next, result) = take_in(R::Packet::kind(), message, packet, state);
    match result {
        Err(_) => given_up(seq![next]),
        Ok((size, ready)) => if !ready {
            Fed { messages: seq![next], kept: true, upgrade, rewritten }
        } else {
            match completed::<R>(rewriter, next, upgrade, rewritten) {
                None => given_up(seq![next]),
                Some((sent, upgrade, rewritten)) => {
                    let rest = packet.skip(size);
                    if rest.len() == 0 {
                        Fed {
                            messages: seq![sent, Message::Unparsed(Seq::empty())],
                            kept: true,
                            upgrade,
                            rewritten,
                        }
                    } else {
                        behind(
                            seq![sent],
                            feed::<R>(
                                rewriter,
                                Message::Unparsed(Seq::empty()),
                                rest,
                                state,
                                upgrade,
                                rewritten,
                            ),
                        )
                    }
                },
            }
        },
    }
}

/// What a complete message becomes, unless it is refused.
pub open spec fn completed<R: PacketRewrite>(
    rewriter: R,
    message: Message,
    upgrade: bool,
    rewritten: Option<R::Output>,
) -> Option<(Message, bool, Option<R::Output>)> {
    match message {
        Message::HeaderParsed(head, body) => match rewriter.outcome(head) {
            Ok((rewritten, output)) => Some(
                (
                    Message::Sending(serialized(rewritten, body)),
                    asks_for_websocket(head),
                    Some(output),
                ),
            ),
            Err(_) => None,
        },
        _ => Some((message, upgrade, rewritten)),
    }
}

/// Whether a message has bytes that are no head yet.
pub open spec fn bytes_waiting(message: Message) -> nat {
    match message {
        Message::Unparsed(buffer) => if buffer.len() > 0 {
            1
        } else {
            0
        },
        _ => 0,
    }
}

/// A new message can be given bytes.
pub proof fn lemma_new_message(kind: MessageKind)
    ensures
        receptive(kind, Message::Unparsed(Seq::empty())),
{
    law_head_bounds(kind, Seq::empty());
}

/// What came from a connection: bytes (none where it was closed), nothing yet, or an error.
pub enum Received<'a> {
    Bytes(&'a [u8]),
    WouldBlock,
    Failed,
}

/// The messages with a new one where there were none.
pub open spec fn with_new(messages: Seq<Message>) -> Seq<Message> {
    if messages.len() == 0 {
        seq![Message::Unparsed(Seq::empty())]
    } else {
        messages
    }
}

/// What it comes to that something is received.
pub open spec fn receive<R: PacketRewrite>(
    rewriter: R,
    messages: Seq<Message>,
    received: Received,
    state: StreamState,
) -> Fed<R::Output> {
    let messages = with_new(messages);
    match received {
        Received::Bytes(packet) => if packet@.len() == 0 {
            given_up(messages)
        } else {
            behind(
                messages.drop_last(),
                feed::<R>(rewriter, messages.last(), packet@, state, false, None),
            )
        },
        Received::WouldBlock => Fed { messages, kept: true, upgrade: false, rewritten: None },
        Received::Failed => given_up(messages),
    }
}

/// Rewrites a complete message and turns it into its bytes, or gives it back where it is refused.
fn finish_message<R: PacketRewrite>(
    handle: HttpMessageHandle<R::Packet>,
    rewriter: &R,
    upgrade: bool,
    rewritten: Option<R::Output>,
) -> (finished: Result<(HttpMessageHandle<R::Packet>, bool, Option<R::Output>), HttpMessageHandle<R::Packet>>)
    requires
        match handle@ {
            Message::Unparsed(_) => false,
            Message::HeaderParsed(head, body) => valid_head(R::Packet::kind(), head),
            Message::Sending(bytes) => bytes.len() > 0,
        },
    ensures
        match finished {
            Ok((sending, asks, output)) => {
                &&& completed::<R>(*rewriter, handle@, upgrade, rewritten) == Some((sending@, asks, output))
                &&& sending@ is Sending
                &&& message_ok(R::Packet::kind(), sending@)
            },
            Err(refused) => {
                &&& completed::<R>(*rewriter, handle@, upgrade, rewritten) is None
                &&& refused@ == handle@
            },
        },
{
    match handle.message {
        HttpMessage::HeaderParsed(parsed) => {
            let mut parsed = parsed;
            let asks = check_for_websocket_upgrade(&parsed);
            match rewriter.packet_rewrite(&mut parsed) {
                Ok(output) => Ok(
                    (
                        HttpMessageHandle { message: HttpMessage::Sending(parsed.to_vec_u8()) },
                        asks,
                        Some(output),
                    ),
                ),
                Err(_) => Err(HttpMessageHandle { message: HttpMessage::HeaderParsed(parsed) }),
            }
        },
        message => Ok((HttpMessageHandle { message }, upgrade, rewritten)),
    }
}

/// Messages that are to be sent.
pub open spec fn all_sending(kind: MessageKind, messages: Seq<Message>) -> bool {
    forall|i: int| 0 <= i < messages.len() ==> (#[trigger] messages[i]) is Sending && message_ok(kind, messages[i])
}

/// What the message that a packet came for becomes.
enum Step<R: PacketRewrite> {
    /// It takes the whole packet and is not complete: with what was learned before.
    Waits(HttpMessageHandle<R::Packet>, Option<R::Output>),
    /// It cannot be read, or it is refused.
    GivenUp(HttpMessageHandle<R::Packet>),
    /// It is complete and to be sent: with how many bytes of the packet, whether it asks for a web
    /// socket, and what was learned when it was rewritten.
    Complete(HttpMessageHandle<R::Packet>, usize, bool, Option<R::Output>),
}

/// Gives a packet to the message that it came for, up to the end of that message.
fn feed_step<R: PacketRewrite>(
    handle: HttpMessageHandle<R::Packet>,
    packet: &[u8],
    stream_state: &StreamState,
    rewriter: &R,
    upgrade: bool,
    rewritten: Option<R::Output>,
) -> (step: Step<R>)
    requires
        receptive(R::Packet::kind(), handle@),
        packet@.len() > 0,
    ensures
        ({
            let fed = feed::<R>(*rewriter, handle@, packet@, *stream_state, upgrade, rewritten);
            match step {
                Step::Waits(next, output) => {
                    &&& fed == (Fed { messages: seq![next@], kept: true, upgrade, rewritten: output })
                    &&& receptive(R::Packet::kind(), next@)
                },
                Step::GivenUp(next) => fed == given_up::<R::Output>(seq![next@]),
                Step::Complete(sent, size, asks, output) => {
                    &&& sent@ is Sending
                    &&& message_ok(R::Packet::kind(), sent@)
                    &&& size <= packet@.len()
                    &&& size == 0 ==> bytes_waiting(handle@) > 0
                    &&& fed == if size == packet@.len() {
                        Fed {
                            messages: seq![sent@, Message::Unparsed(Seq::empty())],
                            kept: true,
                            upgrade: asks,
                            rewritten: output,
                        }
                    } else {
                        behind(
                            seq![sent@],
                            feed::<R>(
                                *rewriter,
                                Message::Unparsed(Seq::empty()),
                                packet@.skip(size as int),
                                *stream_state,
                                asks,
                                output,
                            ),
                        )
                    }
                },
            }
        }),
{
    proof {
        reveal(feed);
        law_take_in(R::Packet::kind(), handle@, packet@, *stream_state);
    }
    let mut handle = handle;
    match process_http_transittable(packet, &mut handle, stream_state) {
        Ok((size, ready_to_send)) => if !ready_to_send {
            Step::Waits(handle, rewritten)
        } else {
            match finish_message(handle, rewriter, upgrade, rewritten) {
                Ok((sent, asks, output)) => Step::Complete(sent, size, asks, output),
                Err(refused) => Step::GivenUp(refused),
            }
        },
        Err(_) => Step::GivenUp(handle),
    }
}

/// Gives a packet to the message that it came for. Gives the messages that take its place, whether
/// the connection is kept, whether the last complete message asks for a web socket, and what was
/// learned when it was rewritten.
fn feed_message<R: PacketRewrite>(
    last: HttpMessageHandle<R::Packet>,
    bytes: &[u8],
    stream_state: &StreamState,
    rewriter: &R,
) -> (fed: (Vec<HttpMessageHandle<R::Packet>>, bool, bool, Option<R::Output>))
    requires
        receptive(R::Packet::kind(), last@),
        bytes@.len() > 0,
    ensures
        ({
            let (list, kept, upgrade, rewritten) = fed;
            &&& feed::<R>(*rewriter, last@, bytes@, *stream_state, false, None) == (Fed {
                messages: views(list@),
                kept,
                upgrade,
                rewritten,
            })
            &&& list@.len() > 0
            &&& kept ==> {
                &&& all_sending(R::Packet::kind(), views(list@).drop_last())
                &&& receptive(R::Packet::kind(), views(list@).last())
            }
        }),
{
    let ghost goal = feed::<R>(*rewriter, last@, bytes@, *stream_state, false, None);
    let mut handle = last;
    let mut packet = bytes;
    let mut websocket_upgrade = false;
    let mut rewrite_return: Option<R::Output> = None;
    let mut list: Vec<HttpMessageHandle<R::Packet>> = Vec::new();
    proof {
        lemma_new_message(R::Packet::kind());
        assert(views(list@) =~= seq![]);
        assert(views(list@) + goal.messages =~= goal.messages);
    }
    loop
        invariant
            packet@.len() > 0,
            receptive(R::Packet::kind(), handle@),
            receptive(R::Packet::kind(), Message::Unparsed(Seq::empty())),
            all_sending(R::Packet::kind(), views(list@)),
            goal == feed::<R>(*rewriter, last@, bytes@, *stream_state, false, None),
            goal == behind(
                views(list@),
                feed::<R>(*rewriter, handle@, packet@, *stream_state, websocket_upgrade, rewrite_return),
            ),
        decreases packet@.len(), bytes_waiting(handle@),
    {
        let ghost done = views(list@);
        match feed_step(handle, packet, stream_state, rewriter, websocket_upgrade, rewrite_return) {
            Step::Waits(next, rewritten) => {
                list.push(next);
                assert(views(list@) =~= done + seq![next@]);
                assert(views(list@).drop_last() =~= done);
                return (list, true, websocket_upgrade, rewritten);
            },
            Step::GivenUp(next) => {
                list.push(next);
                assert(views(list@) =~= done + seq![next@]);
                return (list, false, false, None);
            },
            Step::Complete(sent, size, upgrade, rewritten) => {
                let ghost message = sent@;
                list.push(sent);
                assert(views(list@) =~= done.push(message));
                handle = HttpMessageHandle::default();
                packet = slice_subrange(packet, size, packet.len());
                websocket_upgrade = upgrade;
                rewrite_return = rewritten;
                if packet.len() == 0 {
                    list.push(handle);
                    assert(views(list@) =~= done + seq![message, Message::Unparsed(Seq::empty())]);
                    assert(views(list@).drop_last() =~= done.push(message));
                    return (list, true, websocket_upgrade, rewrite_return);
                }
                proof {
                    lemma_behind(
                        done,
                        message,
                        feed::<R>(
                            *rewriter,
                            handle@,
                            packet@,
                            *stream_state,
                            websocket_upgrade,
                            rewrite_return,
                        ),
                    );
                }
            },
        }
    }
}

/// Messages stand behind one another in any grouping.
proof fn lemma_behind<A>(done: Seq<Message>, message: Message, fed: Fed<A>)
    ensures
        behind(done, behind(seq![message], fed)) == behind(done.push(message), fed),
{
    assert(done + (seq![message] + fed.messages) =~= done.push(message) + fed.messages);
}

/// Messages of one direction, with those that a packet comes to in place of the last.
proof fn lemma_fed_ok(kind: MessageKind, before: Seq<Message>, fed: Seq<Message>)
    requires
        before.len() > 0,
        messages_ok(kind, before),
        fed.len() > 0,
        all_sending(kind, fed.drop_last()),
        receptive(kind, fed.last()),
    ensures
        messages_ok(kind, before.drop_last() + fed),
{
    let all = before.drop_last() + fed;
    let n = before.len() - 1;
    assert forall|i: int| 0 <= i < all.len() implies message_ok(kind, #[trigger] all[i]) && (all[i] is Sending
        <==> i < all.len() - 1) by {
        if i < n {
            assert(all[i] == before[i]);
        } else if i < all.len() - 1 {
            assert(all[i] == fed.drop_last()[i - n]);
        }
    }
}

/// Gives what was received to the messages of one direction. Says whether the connection is kept,
/// whether it is to become a web socket, and what was learned when a message was rewritten.
pub fn process_http_messages<R: PacketRewrite>(
    request_list: &mut Vec<HttpMessageHandle<R::Packet>>,
    received: Received,
    stream_state: &StreamState,
    rewriter: &R,
) -> (result: (bool, bool, Option<R::Output>))
    requires
        messages_ok(R::Packet::kind(), views(old(request_list)@)),
    ensures
        receive::<R>(*rewriter, views(old(request_list)@), received, *stream_state) == (Fed {
            messages: views(final(request_list)@),
            kept: result.0,
            upgrade: result.1,
            rewritten: result.2,
        }),
        result.0 ==> messages_ok(R::Packet::kind(), views(final(request_list)@)),
{
    let ghost kind = R::Packet::kind();
    let ghost before = with_new(views(request_list@));
    proof {
        lemma_new_message(kind);
    }
    if request_list.len() == 0 {
        request_list.push(HttpMessageHandle::default());
    }
    assert(views(request_list@) =~= before);
    assert(messages_ok(kind, before));
    let bytes = match received {
        Received::Bytes(bytes) => bytes,
        Received::WouldBlock => return (true, false, None),
        Received::Failed => return (false, false, None),
    };
    if bytes.len() == 0 {
        return (false, false, None);
    }
    let last = request_list.pop().unwrap();
    assert(last@ == before.last());
    assert(views(request_list@) =~= before.drop_last());
    let (mut list, kept, websocket_upgrade, rewrite_return) = feed_message(
        last,
        bytes,
        stream_state,
        rewriter,
    );
    let ghost fed = views(list@);
    proof {
        if kept {
            lemma_fed_ok(kind, before, fed);
        }
    }
    request_list.append(&mut list);
    assert(views(request_list@) =~= before.drop_last() + fed);
    (kept, websocket_upgrade, rewrite_return)
}

} // verus!
