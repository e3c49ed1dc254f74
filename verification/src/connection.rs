//! A client's connection and the connection to the backend that its requests go to.
use crate::config::{Backend, BackendConfig, ProxyRule};
use crate::http::{Head, MessageKind, Request, Response};
use crate::message::{law_take_in, message_ok, take_in, HttpMessage, HttpMessageHandle, Message, StreamState};
use crate::rewrite::{first_rule, is_first_rule};
use crate::stream::{
    behind, bytes_waiting, completed, feed, lemma_new_message, messages_ok, process_http_messages, receive,
    receptive, views, with_new, ByRules, PacketRewrite, Received, Unchanged,
};
use crate::stream_laws::fresh;
use crate::transmittable::HttpTransmittable;
use vstd::prelude::*;

verus! {

/// What the proxy knows of a client's connection: the requests and responses on their way, how the
/// connection is used, the backend that its requests go to, and whether that is connected.
pub struct RequestStreamHandle {
    requests: Vec<HttpMessageHandle<Request>>,
    responses: Vec<HttpMessageHandle<Response>>,
    client_state: StreamState,
    backend: Option<BackendConfig>,
    connected: bool,
}

/// A connection as mathematical data.
#[verifier::ext_equal]
pub struct Connection {
    pub requests: Seq<Message>,
    pub responses: Seq<Message>,
    pub state: StreamState,
    pub backend: Option<Backend>,
    pub connected: bool,
}

impl View for RequestStreamHandle {
    type V = Connection;

    closed spec fn view(&self) -> Connection {
        Connection {
            requests: views(self.requests@),
            responses: views(self.responses@),
            state: self.client_state,
            backend: match self.backend {
                Some(backend) => Some(backend@),
                None => None,
            },
            connected: self.connected,
        }
    }
}

/// What holds of a connection at all times: its messages are those of one direction each, and
/// where a request is to be sent, or a web socket was asked for, there is a backend to go to.
pub open spec fn connection_ok(c: Connection) -> bool {
    &&& messages_ok(MessageKind::Request, c.requests)
    &&& messages_ok(MessageKind::Response, c.responses)
    &&& c.requests.len() > 1 ==> c.backend is Some
    &&& c.state != StreamState::Http ==> c.backend is Some
}

/// A new connection.
pub open spec fn new_connection() -> Connection {
    Connection {
        requests: Seq::empty(),
        responses: Seq::empty(),
        state: StreamState::Http,
        backend: None,
        connected: false,
    }
}

/// What a connection becomes by what the client sent, and whether it is kept.
pub open spec fn after_client<R: ProxyRule>(c: Connection, received: Received, rules: &Vec<R>) -> (Connection, bool) {
    let fed = receive::<ByRules<R>>(ByRules { rules }, c.requests, received, c.state);
    (
        Connection {
            requests: fed.messages,
            state: if fed.upgrade {
                StreamState::UpgradeWebsocket
            } else {
                c.state
            },
            backend: match fed.rewritten {
                Some(i) => Some(rules@[i as int].target()),
                None => c.backend,
            },
            ..c
        },
        fed.kept,
    )
}

/// What a connection becomes by what the backend sent, and whether it is kept.
pub open spec fn after_backend(c: Connection, received: Received) -> (Connection, bool) {
    let fed = receive::<Unchanged>(Unchanged {  }, c.responses, received, c.state);
    (
        Connection {
            responses: fed.messages,
            state: if fed.upgrade && c.state == StreamState::UpgradeWebsocket {
                StreamState::WebSocket
            } else {
                c.state
            },
            ..c
        },
        fed.kept,
    )
}

/// Something is learned wherever a message asks for a web socket, and, unless the connection is one,
/// wherever a message is complete.
proof fn lemma_feed_learns<R: PacketRewrite>(
    rewriter: R,
    message: Message,
    packet: Seq<u8>,
    state: StreamState,
    upgrade: bool,
    rewritten: Option<R::Output>,
)
    requires
        receptive(R::Packet::kind(), message),
        packet.len() > 0,
        upgrade ==> rewritten is Some,
    ensures
        ({
            let fed = feed::<R>(rewriter, message, packet, state, upgrade, rewritten);
            &&& fed.messages.len() > 0
            &&& fed.upgrade ==> fed.rewritten is Some
            &&& fed.kept && rewritten is Some ==> fed.rewritten is Some
            &&& fed.kept && state != StreamState::WebSocket && fed.messages.len() > 1 ==> fed.rewritten is Some
        }),
    decreases packet.len(), bytes_waiting(message),
{
    reveal(feed);
    let kind = R::Packet::kind();
    lemma_new_message(kind);
    let (next, result) = take_in(kind, message, packet, state);
    assert(result matches Ok((size, ready)) ==> {
        &&& 0 <= size <= packet.len()
        &&& size == 0 ==> bytes_waiting(message) > 0
        &&& ready ==> next !is Unparsed
    }) by {
        law_take_in(kind, message, packet, state);
    }
    assert(state != StreamState::WebSocket ==> next !is Sending) by {
        reveal(take_in);
    }
    if let Ok((size, ready)) = result {
        if ready {
            if let Some((sent, up, output)) = completed::<R>(rewriter, next, upgrade, rewritten) {
                let rest = packet.skip(size);
                if rest.len() > 0 {
                    let later = feed::<R>(rewriter, fresh(), rest, state, up, output);
                    assert(feed::<R>(rewriter, message, packet, state, upgrade, rewritten) == behind(
                        seq![sent],
                        later,
                    ));
                    lemma_feed_learns::<R>(rewriter, fresh(), rest, state, up, output);
                }
            }
        }
    }
}

/// What is learned comes from rewriting a message.
proof fn lemma_feed_origin<R: PacketRewrite>(
    rewriter: R,
    message: Message,
    packet: Seq<u8>,
    state: StreamState,
    upgrade: bool,
    rewritten: Option<R::Output>,
)
    requires
        receptive(R::Packet::kind(), message),
        packet.len() > 0,
    ensures
        feed::<R>(rewriter, message, packet, state, upgrade, rewritten).rewritten matches Some(output) ==> {
            ||| rewritten == Some(output)
            ||| learnable::<R>(rewriter, output)
        },
    decreases packet.len(), bytes_waiting(message),
{
    reveal(feed);
    let kind = R::Packet::kind();
    lemma_new_message(kind);
    let (next, result) = take_in(kind, message, packet, state);
    assert(result matches Ok((size, ready)) ==> {
        &&& 0 <= size <= packet.len()
        &&& size == 0 ==> bytes_waiting(message) > 0
    }) by {
        law_take_in(kind, message, packet, state);
    }
    if let Ok((size, ready)) = result {
        if ready {
            if let Some((sent, up, output)) = completed::<R>(rewriter, next, upgrade, rewritten) {
                if let Message::HeaderParsed(head, _) = next {
                    assert(rewriter.outcome(head) is Ok);
                    assert(learnable::<R>(rewriter, output->0));
                }
                let rest = packet.skip(size);
                if rest.len() > 0 {
                    lemma_feed_origin::<R>(rewriter, fresh(), rest, state, up, output);
                }
            }
        }
    }
}

/// This is learned of some message when it is rewritten.
spec fn learnable<R: PacketRewrite>(rewriter: R, output: R::Output) -> bool {
    exists|head: Head| (#[trigger] rewriter.outcome(head)) is Ok && rewriter.outcome(head)->Ok_0.1 == output
}

impl RequestStreamHandle {
    /// A connection that nothing has come from.
    pub fn new() -> (handle: Self)
        ensures
            handle@ == new_connection(),
            connection_ok(handle@),
    {
        let handle = RequestStreamHandle {
            requests: Vec::new(),
            responses: Vec::new(),
            client_state: StreamState::Http,
            backend: None,
            connected: false,
        };
        assert(handle@ =~= new_connection());
        handle
    }

    /// Takes in what the client sent. Says whether the connection is kept.
    pub fn client_received<R: ProxyRule>(&mut self, received: Received, rules: &Vec<R>) -> (retain: bool)
        requires
            connection_ok(old(self)@),
        ensures
            (final(self)@, retain) == after_client(old(self)@, received, rules),
            retain ==> connection_ok(final(self)@),
    {
        let ghost before = self@;
        proof {
            lemma_new_message(MessageKind::Request);
            let messages = with_new(before.requests);
            if let Received::Bytes(packet) = received {
                if packet@.len() > 0 {
                    lemma_feed_learns::<ByRules<R>>(
                        ByRules { rules },
                        messages.last(),
                        packet@,
                        before.state,
                        false,
                        None,
                    );
                    lemma_feed_origin::<ByRules<R>>(
                        ByRules { rules },
                        messages.last(),
                        packet@,
                        before.state,
                        false,
                        None,
                    );
                }
            }
        }
        let rewriter = ByRules { rules };
        let (retain, websocket_upgrade, rule) = process_http_messages(
            &mut self.requests,
            received,
            &self.client_state,
            &rewriter,
        );
        if let Some(i) = rule {
            assert(i < rules@.len()) by {
                let head = choose|head: Head|
                    (#[trigger] rewriter.outcome(head)) is Ok && rewriter.outcome(head)->Ok_0.1 == i;
                let k = choose|k: int| is_first_rule(rules@, head, k);
                assert(first_rule(rules@, head) == Some(k));
            }
            self.backend = Some(rules[i].backend().clone());
        }
        if websocket_upgrade {
            self.client_state = StreamState::UpgradeWebsocket;
        }
        retain
    }

    /// Takes in what the backend sent. Says whether the connection is kept.
    pub fn backend_received(&mut self, received: Received) -> (retain: bool)
        requires
            connection_ok(old(self)@),
        ensures
            (final(self)@, retain) == after_backend(old(self)@, received),
            retain ==> connection_ok(final(self)@),
    {
        let rewriter = Unchanged {  };
        let (retain, websocket_upgrade, _) = process_http_messages(
            &mut self.responses,
            received,
            &self.client_state,
            &rewriter,
        );
        if websocket_upgrade && self.client_state == StreamState::UpgradeWebsocket {
            self.client_state = StreamState::WebSocket;
        }
        retain
    }
}

/// What became of sending requests so far: nothing was tried yet, the connection to the backend was
/// made or was not, or some bytes were written, none could be yet, or none ever will.
pub enum RequestEvent {
    Start,
    Connected,
    ConnectFailed,
    Written(usize),
    WouldBlock,
    WriteFailed,
}

/// What became of sending responses so far.
pub enum ResponseEvent {
    Start,
    Written(usize),
    WouldBlock,
    WriteFailed,
}

/// What to do next: connect to the backend because of the request at a position, write the message
/// at a position, go on to the next connection, or give this one up.
pub enum SendAction {
    Connect(usize),
    Write(usize),
    Finished,
    GiveUp,
}

/// The first message from a position on that is to be sent.
pub open spec fn next_sending(messages: Seq<Message>, from: int) -> Option<int>
    decreases messages.len() - from,
{
    if from >= messages.len() {
        None
    } else if messages[from] is Sending {
        Some(from)
    } else {
        next_sending(messages, from + 1)
    }
}

/// What to do about the requests from a position on.
pub open spec fn next_request(c: Connection, from: int) -> SendAction {
    match next_sending(c.requests, from) {
        Some(i) => if c.connected {
            SendAction::Write(i as usize)
        } else {
            SendAction::Connect(i as usize)
        },
        None => SendAction::Finished,
    }
}

/// What to do about the responses from a position on.
pub open spec fn next_response(c: Connection, from: int) -> SendAction {
    match next_sending(c.responses, from) {
        Some(i) => SendAction::Write(i as usize),
        None => SendAction::Finished,
    }
}

/// The messages once `n` bytes of the one at a position are written, and the position to go on
/// from: a message that is written whole goes away.
pub open spec fn after_write(messages: Seq<Message>, at: int, n: int) -> (Seq<Message>, int) {
    let bytes = messages[at]->Sending_0;
    if n == bytes.len() {
        (messages.remove(at), at)
    } else {
        (messages.update(at, Message::Sending(bytes.skip(n))), at + 1)
    }
}

/// What a connection becomes while its requests are sent, and what to do next.
pub open spec fn requests_step(c: Connection, at: int, event: RequestEvent) -> (Connection, SendAction) {
    match event {
        RequestEvent::Start => (c, next_request(c, 0)),
        RequestEvent::Connected => (Connection { connected: true, ..c }, SendAction::Write(at as usize)),
        RequestEvent::ConnectFailed => (c, SendAction::GiveUp),
        RequestEvent::Written(n) => {
            let (requests, from) = after_write(c.requests, at, n as int);
            let next = Connection { requests, ..c };
            (next, next_request(next, from))
        },
        RequestEvent::WouldBlock => (c, next_request(c, at + 1)),
        RequestEvent::WriteFailed => (c, SendAction::GiveUp),
    }
}

/// What a connection becomes while its responses are sent, and what to do next. A response that
/// cannot be written goes away.
pub open spec fn responses_step(c: Connection, at: int, event: ResponseEvent) -> (Connection, SendAction) {
    match event {
        ResponseEvent::Start => (c, next_response(c, 0)),
        ResponseEvent::Written(n) => {
            let (responses, from) = after_write(c.responses, at, n as int);
            let next = Connection { responses, ..c };
            (next, next_response(next, from))
        },
        ResponseEvent::WouldBlock => (c, next_response(c, at + 1)),
        ResponseEvent::WriteFailed => {
            let next = Connection { responses: c.responses.remove(at), ..c };
            (next, next_response(next, at))
        },
    }
}

/// The message at a position is to be sent, and has at least `n` bytes.
pub open spec fn sendable(messages: Seq<Message>, at: int, n: int) -> bool {
    &&& 0 <= at < messages.len()
    &&& messages[at] matches Message::Sending(bytes) && n <= bytes.len()
}

/// The first message from a position on that is to be sent.
fn find_sending<T: HttpTransmittable>(list: &Vec<HttpMessageHandle<T>>, from: usize) -> (found: Option<usize>)
    requires
        from <= list@.len(),
    ensures
        match found {
            Some(i) => {
                &&& next_sending(views(list@), from as int) == Some(i as int)
                &&& i < list@.len()
                &&& views(list@)[i as int] is Sending
            },
            None => next_sending(views(list@), from as int) is None,
        },
{
    let n: usize = list.len();
    let mut i: usize = from;
    while i < n
        invariant
            n == list@.len(),
            from <= i <= n,
            next_sending(views(list@), from as int) == next_sending(views(list@), i as int),
        decreases n - i,
    {
        if let HttpMessage::Sending(_) = &list[i].message {
            return Some(i);
        }
        i += 1;
    }
    None
}

/// Takes written bytes off the message at a position. Gives the position to go on from.
fn drain_message<T: HttpTransmittable>(list: &mut Vec<HttpMessageHandle<T>>, at: usize, n: usize) -> (from: usize)
    requires
        sendable(views(old(list)@), at as int, n as int),
    ensures
        (views(final(list)@), from as int) == after_write(views(old(list)@), at as int, n as int),
        from <= final(list)@.len(),
{
    let ghost before = views(list@);
    let _len: usize = list.len();
    let handle = list.remove(at);
    let ghost rest = before.remove(at as int);
    assert(views(list@) =~= rest);
    match handle.message {
        HttpMessage::Sending(bytes) => {
            let mut bytes = bytes;
            if n == bytes.len() {
                return at;
            }
            let left = bytes.split_off(n);
            assert(left@ =~= before[at as int]->Sending_0.skip(n as int));
            list.insert(at, HttpMessageHandle { message: HttpMessage::Sending(left) });
            assert(views(list@) =~= before.update(at as int, Message::Sending(left@)));
            at + 1
        },
        message => {
            list.insert(at, HttpMessageHandle { message });
            at
        },
    }
}

/// Messages of one direction are such still after bytes of one are written.
pub proof fn lemma_written_ok(kind: MessageKind, messages: Seq<Message>, at: int, n: int)
    requires
        messages_ok(kind, messages),
        sendable(messages, at, n),
        0 <= n,
    ensures
        messages_ok(kind, after_write(messages, at, n).0),
        messages_ok(kind, messages.remove(at)),
        after_write(messages, at, n).0.len() <= messages.len(),
{
    let removed = messages.remove(at);
    assert(at < messages.len() - 1);
    assert forall|i: int| 0 <= i < removed.len() implies message_ok(kind, #[trigger] removed[i]) && (
    removed[i] is Sending <==> i < removed.len() - 1) by {
        if i < at {
            assert(removed[i] == messages[i]);
        } else {
            assert(removed[i] == messages[i + 1]);
        }
    }
    let bytes = messages[at]->Sending_0;
    if n != bytes.len() {
        let updated = messages.update(at, Message::Sending(bytes.skip(n)));
        assert forall|i: int| 0 <= i < updated.len() implies message_ok(kind, #[trigger] updated[i]) && (
        updated[i] is Sending <==> i < updated.len() - 1) by {
            if i != at {
                assert(updated[i] == messages[i]);
            }
        }
    }
}

impl RequestStreamHandle {
    /// Whether the backend is connected.
    pub fn is_connected(&self) -> (yes: bool)
        ensures
            yes == self@.connected,
    {
        self.connected
    }

    /// The backend that requests go to, once there is one.
    pub fn backend(&self) -> (backend: Option<&BackendConfig>)
        ensures
            match backend {
                Some(backend) => self@.backend == Some(backend@),
                None => self@.backend is None,
            },
    {
        match &self.backend {
            Some(backend) => Some(backend),
            None => None,
        }
    }

    /// The bytes of the request at a position that are still to be written, if it is to be sent.
    pub fn request_bytes(&self, at: usize) -> (bytes: Option<&Vec<u8>>)
        ensures
            match bytes {
                Some(bytes) => at < self@.requests.len() && self@.requests[at as int] == Message::Sending(bytes@),
                None => !sendable(self@.requests, at as int, 0),
            },
    {
        sending_bytes(&self.requests, at)
    }

    /// The bytes of the response at a position that are still to be written, if it is to be sent.
    pub fn response_bytes(&self, at: usize) -> (bytes: Option<&Vec<u8>>)
        ensures
            match bytes {
                Some(bytes) => at < self@.responses.len() && self@.responses[at as int] == Message::Sending(bytes@),
                None => !sendable(self@.responses, at as int, 0),
            },
    {
        sending_bytes(&self.responses, at)
    }

    /// One step of sending the requests: takes in what became of the last action, which was about
    /// the request at `at`, and says what to do next.
    pub fn send_out_requests(&mut self, at: usize, event: RequestEvent) -> (action: SendAction)
        requires
            connection_ok(old(self)@),
            event !is Start ==> sendable(old(self)@.requests, at as int, 0),
            event matches RequestEvent::Written(n) ==> sendable(old(self)@.requests, at as int, n as int),
        ensures
            (final(self)@, action) == requests_step(old(self)@, at as int, event),
            connection_ok(final(self)@),
            match action {
                SendAction::Connect(i) => {
                    &&& sendable(final(self)@.requests, i as int, 0)
                    &&& final(self)@.backend is Some
                },
                SendAction::Write(i) => sendable(final(self)@.requests, i as int, 0),
                _ => true,
            },
    {
        let ghost before = self@;
        let _len: usize = self.requests.len();
        let from: usize = match event {
            RequestEvent::Start => 0,
            RequestEvent::Connected => {
                self.connected = true;
                return SendAction::Write(at);
            },
            RequestEvent::ConnectFailed => return SendAction::GiveUp,
            RequestEvent::Written(n) => {
                proof {
                    lemma_written_ok(MessageKind::Request, self@.requests, at as int, n as int);
                }
                let from: usize = drain_message(&mut self.requests, at, n);
                assert(self@ == (Connection { requests: views(self.requests@), ..before }));
                from
            },
            RequestEvent::WouldBlock => at + 1,
            RequestEvent::WriteFailed => return SendAction::GiveUp,
        };
        match find_sending(&self.requests, from) {
            Some(i) => if self.connected {
                SendAction::Write(i)
            } else {
                SendAction::Connect(i)
            },
            None => SendAction::Finished,
        }
    }

    /// One step of sending the responses: takes in what became of the last action, which was about
    /// the response at `at`, and says what to do next.
    pub fn send_out_responses(&mut self, at: usize, event: ResponseEvent) -> (action: SendAction)
        requires
            connection_ok(old(self)@),
            event !is Start ==> sendable(old(self)@.responses, at as int, 0),
            event matches ResponseEvent::Written(n) ==> sendable(old(self)@.responses, at as int, n as int),
        ensures
            (final(self)@, action) == responses_step(old(self)@, at as int, event),
            connection_ok(final(self)@),
            match action {
                SendAction::Write(i) => sendable(final(self)@.responses, i as int, 0),
                SendAction::Finished => true,
                _ => false,
            },
    {
        let ghost before = self@;
        let _len: usize = self.responses.len();
        let from: usize = match event {
            ResponseEvent::Start => 0,
            ResponseEvent::Written(n) => {
                proof {
                    lemma_written_ok(MessageKind::Response, before.responses, at as int, n as int);
                }
                let from: usize = drain_message(&mut self.responses, at, n);
                assert(self@ == (Connection { responses: views(self.responses@), ..before }));
                from
            },
            ResponseEvent::WouldBlock => at + 1,
            ResponseEvent::WriteFailed => {
                proof {
                    lemma_written_ok(MessageKind::Response, before.responses, at as int, 0);
                }
                self.responses.remove(at);
                assert(views(self.responses@) =~= before.responses.remove(at as int));
                assert(self@ == (Connection { responses: views(self.responses@), ..before }));
                at
            },
        };
        match find_sending(&self.responses, from) {
            Some(i) => SendAction::Write(i),
            None => SendAction::Finished,
        }
    }
}

/// The bytes of the message at a position, if it is to be sent.
fn sending_bytes<T: HttpTransmittable>(list: &Vec<HttpMessageHandle<T>>, at: usize) -> (bytes: Option<&Vec<u8>>)
    ensures
        match bytes {
            Some(bytes) => at < list@.len() && views(list@)[at as int] == Message::Sending(bytes@),
            None => !sendable(views(list@), at as int, 0),
        },
{
    if at < list.len() {
        if let HttpMessage::Sending(bytes) = &list[at].message {
            return Some(bytes);
        }
    }
    None
}

} // verus!
