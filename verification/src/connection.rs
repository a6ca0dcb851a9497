//! The client's side of a NATS connection as a state machine: what each
//! event from the WebSocket does to the connection, and what the caller is to
//! do in answer (send bytes, answer a waiting callback, deliver a message).
//! The socket, the message channel and the callbacks' calls stay with the
//! caller.
use crate::client_message::{client_bytes, control_line_text, spaced, ClientMessage, ClientMessageView};
use crate::error::{protocol_error, state_error, Error, ErrorView};
use crate::message::{Message, MessageView, MessageWithSid};
use crate::server_error::{server_result_view, ServerErrorView, ServerResult};
use crate::server_message::{is_hmsg, is_pong, parse_spec, ServerMessage, ServerMessageView};
use crate::sid::{is_uuid_v4_text, SubscriptionId};
use vstd::prelude::*;
use vstd::utf8::{encode_utf8, is_ascii_chars, is_ascii_chars_encode_utf8};
use std::collections::VecDeque;

verus! {

/// Where the connection stands.
pub enum State {
    /// The WebSocket is being opened.
    Initial,
    /// The WebSocket is open; the server has not described itself yet.
    WsOpen,
    /// The server has sent `INFO`, with this description.
    Connected(String),
    /// The WebSocket is closed.
    WsClosed,
}

/// The model of a [`State`].
pub enum StateView {
    Initial,
    WsOpen,
    Connected(Seq<char>),
    WsClosed,
}

impl View for State {
    type V = StateView;

    open spec fn view(&self) -> StateView {
        match self {
            State::Initial => StateView::Initial,
            State::WsOpen => StateView::WsOpen,
            State::Connected(s) => StateView::Connected(s@),
            State::WsClosed => StateView::WsClosed,
        }
    }
}

/// An event of the WebSocket other than a binary message, whose bytes go to
/// [`ConnectionState::process_next`].
pub enum SocketEvent {
    /// The WebSocket opened.
    Opened,
    /// A message that is not binary arrived; the text describes it.
    UnexpectedMessage(String),
    /// The WebSocket reported an error.
    Error(String),
    /// The WebSocket closed.
    Closed,
}

/// Why a received message could not be handed to the message channel.
pub enum DeliveryFailure {
    /// The channel is full.
    Full,
    /// The receiving end is gone.
    Closed,
}

/// What the caller is to do after one server message.
pub enum Action<C> {
    /// Nothing.
    Continue,
    /// Send these bytes to the server.
    Send(Vec<u8>),
    /// Call this callback with this result.
    Respond(C, ServerResult),
    /// Hand this message to the message channel.
    Deliver(MessageWithSid),
}

/// The state of a connection, with the callbacks that wait for the server's
/// `+OK` or `-ERR`, oldest first.
pub struct ConnectionState<C> {
    state: State,
    server_result_callbacks: VecDeque<C>,
}

/// The model of a [`ConnectionState`].
pub struct ConnectionView<C> {
    pub state: StateView,
    pub callbacks: Seq<C>,
}

impl<C> View for ConnectionState<C> {
    type V = ConnectionView<C>;

    closed spec fn view(&self) -> ConnectionView<C> {
        ConnectionView { state: self.state@, callbacks: self.server_result_callbacks@ }
    }
}

/// The connection is open and the server has described itself.
pub open spec fn is_connected_spec<C>(v: ConnectionView<C>) -> bool {
    v.state is Connected
}

/// The model of a [`SocketEvent`].
pub enum SocketEventView {
    Opened,
    UnexpectedMessage(Seq<char>),
    Error(Seq<char>),
    Closed,
}

impl View for SocketEvent {
    type V = SocketEventView;

    open spec fn view(&self) -> SocketEventView {
        match self {
            SocketEvent::Opened => SocketEventView::Opened,
            SocketEvent::UnexpectedMessage(t) => SocketEventView::UnexpectedMessage(t@),
            SocketEvent::Error(t) => SocketEventView::Error(t@),
            SocketEvent::Closed => SocketEventView::Closed,
        }
    }
}

/// The model of an [`Action`].
pub enum ActionView<C> {
    Continue,
    Send(Seq<u8>),
    Respond(C, Result<(), ServerErrorView>),
    Deliver(Seq<char>, MessageView),
}

impl<C> View for Action<C> {
    type V = ActionView<C>;

    open spec fn view(&self) -> ActionView<C> {
        match self {
            Action::Continue => ActionView::Continue,
            Action::Send(b) => ActionView::Send(b@),
            Action::Respond(cb, r) => ActionView::Respond(*cb, server_result_view(*r)),
            Action::Deliver((sid, m)) => ActionView::Deliver(sid@, m@),
        }
    }
}

/// Registering a callback for a message that waits for the server's answer:
/// it joins the back of the queue, once connected; otherwise "not connected".
pub open spec fn register_spec<C>(v: ConnectionView<C>, cb: C) -> Result<
    ConnectionView<C>,
    ErrorView,
> {
    if is_connected_spec(v) {
        Ok(ConnectionView { state: v.state, callbacks: v.callbacks.push(cb) })
    } else {
        Err(ErrorView::State("not connected"@))
    }
}

/// Taking in a WebSocket event other than a binary message.
pub open spec fn event_spec<C>(v: ConnectionView<C>, e: SocketEventView) -> Result<
    ConnectionView<C>,
    ErrorView,
> {
    match e {
        SocketEventView::Opened => if v.state is Initial {
            Ok(ConnectionView { state: StateView::WsOpen, callbacks: v.callbacks })
        } else {
            Err(ErrorView::State("WebSocket opened event in invalid state"@))
        },
        SocketEventView::UnexpectedMessage(t) => Err(
            ErrorView::NatsProtocol("unexpected message type: "@ + t),
        ),
        SocketEventView::Error(t) => Err(ErrorView::WebSocket(t)),
        SocketEventView::Closed => Ok(ConnectionView { state: StateView::WsClosed, callbacks: v.callbacks }),
    }
}

/// A server message the connection takes in; `HMSG` and `PONG` it does not.
pub open spec fn is_admitted(m: ServerMessageView) -> bool {
    !(m is HMsg) && !(m is Pong)
}

/// Taking in a server message: `INFO` connects with the server's description,
/// `PING` is answered with `PONG`, `+OK`/`-ERR` go to the oldest waiting
/// callback (an error if none waits) and `MSG` is to be delivered. The next
/// state and the action, or the error; for `HMSG` and `PONG`, which are not
/// taken in, nothing happens.
pub open spec fn receive_spec<C>(v: ConnectionView<C>, m: ServerMessageView) -> Result<
    (ConnectionView<C>, ActionView<C>),
    ErrorView,
> {
    match m {
        ServerMessageView::Info(info) => Ok(
            (
                ConnectionView { state: StateView::Connected(info), callbacks: v.callbacks },
                ActionView::Continue,
            ),
        ),
        ServerMessageView::Ping => Ok((v, ActionView::Send(client_bytes(ClientMessageView::Pong)))),
        ServerMessageView::ServerResult(res) => if v.callbacks.len() > 0 {
            Ok(
                (
                    ConnectionView { state: v.state, callbacks: v.callbacks.drop_first() },
                    ActionView::Respond(v.callbacks[0], res),
                ),
            )
        } else {
            Err(ErrorView::NatsProtocol("no callback for server result"@))
        },
        ServerMessageView::Msg(sid, msg) => Ok((v, ActionView::Deliver(sid, msg))),
        ServerMessageView::HMsg => Ok((v, ActionView::Continue)),
        ServerMessageView::Pong => Ok((v, ActionView::Continue)),
    }
}

/// One step of a connection's life, as its model sees it.
pub enum Step<C> {
    /// A message that waits for the server's answer is sent, with this
    /// callback for the answer.
    Send(ClientMessageView, C),
    /// A WebSocket event other than a binary message.
    Socket(SocketEventView),
    /// A server message read off a binary WebSocket message.
    Receive(ServerMessageView),
}

/// What one step does: the next state and the actions it asks for. A step
/// that fails leaves the state as it was and asks for nothing.
pub open spec fn apply_step<C>(v: ConnectionView<C>, s: Step<C>) -> (
    ConnectionView<C>,
    Seq<ActionView<C>>,
) {
    match s {
        Step::Send(msg, cb) => match register_spec(v, cb) {
            Ok(nv) => (nv, seq![ActionView::Send(client_bytes(msg))]),
            Err(_) => (v, Seq::empty()),
        },
        Step::Socket(e) => match event_spec(v, e) {
            Ok(nv) => (nv, Seq::empty()),
            Err(_) => (v, Seq::empty()),
        },
        Step::Receive(m) => match receive_spec(v, m) {
            Ok((nv, a)) => (nv, seq![a]),
            Err(_) => (v, Seq::empty()),
        },
    }
}

/// A run of steps from state `v`: the final state and all actions, in order.
pub open spec fn run<C>(v: ConnectionView<C>, steps: Seq<Step<C>>) -> (
    ConnectionView<C>,
    Seq<ActionView<C>>,
)
    decreases steps.len(),
{
    if steps.len() == 0 {
        (v, Seq::empty())
    } else {
        let (mid, acts) = run(v, steps.drop_last());
        let (last, more) = apply_step(mid, steps.last());
        (last, acts + more)
    }
}

/// The callbacks that a run from `v` queues, in the order they join.
pub open spec fn queued<C>(v: ConnectionView<C>, steps: Seq<Step<C>>) -> Seq<C>
    decreases steps.len(),
{
    if steps.len() == 0 {
        Seq::empty()
    } else {
        let before = queued(v, steps.drop_last());
        match steps.last() {
            Step::Send(_, cb) => if is_connected_spec(run(v, steps.drop_last()).0) {
                before.push(cb)
            } else {
                before
            },
            _ => before,
        }
    }
}

/// The callbacks that the actions call, in order.
pub open spec fn answered<C>(acts: Seq<ActionView<C>>) -> Seq<C>
    decreases acts.len(),
{
    if acts.len() == 0 {
        Seq::empty()
    } else {
        let before = answered(acts.drop_last());
        match acts.last() {
            ActionView::Respond(cb, _) => before.push(cb),
            _ => before,
        }
    }
}

/// The server results that the actions hand to callbacks, in order.
pub open spec fn answers<C>(acts: Seq<ActionView<C>>) -> Seq<Result<(), ServerErrorView>>
    decreases acts.len(),
{
    if acts.len() == 0 {
        Seq::empty()
    } else {
        let before = answers(acts.drop_last());
        match acts.last() {
            ActionView::Respond(_, r) => before.push(r),
            _ => before,
        }
    }
}

/// The messages that the actions deliver, in order.
pub open spec fn delivered<C>(acts: Seq<ActionView<C>>) -> Seq<(Seq<char>, MessageView)>
    decreases acts.len(),
{
    if acts.len() == 0 {
        Seq::empty()
    } else {
        let before = delivered(acts.drop_last());
        match acts.last() {
            ActionView::Deliver(sid, m) => before.push((sid, m)),
            _ => before,
        }
    }
}

/// The `MSG` messages among the steps, in order.
pub open spec fn received_msgs<C>(steps: Seq<Step<C>>) -> Seq<(Seq<char>, MessageView)>
    decreases steps.len(),
{
    if steps.len() == 0 {
        Seq::empty()
    } else {
        let before = received_msgs(steps.drop_last());
        match steps.last() {
            Step::Receive(ServerMessageView::Msg(sid, m)) => before.push((sid, m)),
            _ => before,
        }
    }
}

/// The server results among the steps, in order.
pub open spec fn received_results<C>(steps: Seq<Step<C>>) -> Seq<Result<(), ServerErrorView>>
    decreases steps.len(),
{
    if steps.len() == 0 {
        Seq::empty()
    } else {
        let before = received_results(steps.drop_last());
        match steps.last() {
            Step::Receive(ServerMessageView::ServerResult(r)) => before.push(r),
            _ => before,
        }
    }
}

/// The step is an `INFO` with this description.
pub open spec fn is_info_step<C>(s: Step<C>, info: Seq<char>) -> bool {
    s matches Step::Receive(ServerMessageView::Info(i)) && i == info
}

/// The step changes whether and how the connection is connected: an `INFO`
/// or the WebSocket's closing.
pub open spec fn is_link_step<C>(s: Step<C>) -> bool {
    ||| s matches Step::Receive(ServerMessageView::Info(_))
    ||| s matches Step::Socket(SocketEventView::Closed)
}

/// The error for a message that the channel would not take.
pub fn delivery_error(failure: DeliveryFailure) -> (e: Error)
    ensures
        e@ == ErrorView::MessageChannel(
            match failure {
                DeliveryFailure::Full => "message channel full"@,
                DeliveryFailure::Closed => "receiver has been closed"@,
            },
        ),
{
    match failure {
        DeliveryFailure::Full => Error::MessageChannel("message channel full".to_owned()),
        DeliveryFailure::Closed => Error::MessageChannel("receiver has been closed".to_owned()),
    }
}

impl<C> ConnectionState<C> {
    /// A connection whose WebSocket is being opened, with no callback waiting.
    pub fn new() -> (c: Self)
        ensures
            c@ == (ConnectionView { state: StateView::Initial, callbacks: Seq::<C>::empty() }),
    {
        ConnectionState { state: State::Initial, server_result_callbacks: VecDeque::new() }
    }

    /// Returns true if the connection is open and server info has been received.
    pub fn is_connected(&self) -> (b: bool)
        ensures
            b == is_connected_spec(self@),
    {
        match self.state {
            State::Connected(_) => true,
            _ => false,
        }
    }

    /// The server's description, once it has been received.
    pub fn get_server_info(&self) -> (info: Option<&String>)
        ensures
            match self@.state {
                StateView::Connected(s) => info matches Some(i) && i@ == s,
                _ => info is None,
            },
    {
        match &self.state {
            State::Connected(info) => Some(info),
            _ => None,
        }
    }

    /// Fails with "not connected" unless the connection is connected.
    fn check_connected(&self) -> (r: Result<(), Error>)
        ensures
            r is Ok <==> is_connected_spec(self@),
            r matches Err(e) ==> e@ == ErrorView::State("not connected"@),
    {
        if self.is_connected() {
            Ok(())
        } else {
            Err(state_error("not connected"))
        }
    }

    /// Registers `on_response` to receive the server's answer to `msg` and
    /// gives back the bytes to send; fails, changing nothing, unless connected.
    pub fn send_with_callback(&mut self, msg: ClientMessage, on_response: C) -> (r: Result<
        Vec<u8>,
        Error,
    >)
        ensures
            match register_spec(old(self)@, on_response) {
                Ok(nv) => r matches Ok(bytes) && bytes@ == client_bytes(msg@) && final(self)@ == nv,
                Err(se) => r matches Err(e) && e@ == se && final(self)@ == old(self)@,
            },
    {
        match self.check_connected() {
            Ok(()) => {},
            Err(e) => {
                return Err(e);
            },
        }
        self.server_result_callbacks.push_back(on_response);
        Ok(msg.to_nats_protocol())
    }

    /// Publishes a message: the bytes of its `PUB`, once connected.
    pub fn publish(&mut self, message: Message, on_response: C) -> (r: Result<Vec<u8>, Error>)
        ensures
            r is Ok <==> is_connected_spec(old(self)@),
            r matches Ok(bytes) ==> bytes@ == client_bytes(ClientMessageView::Pub(message@))
                && final(self)@ == (ConnectionView {
                state: old(self)@.state,
                callbacks: old(self)@.callbacks.push(on_response),
            }),
            r matches Err(e) ==> e@ == ErrorView::State("not connected"@) && final(self)@ == old(self)@,
    {
        let msg = ClientMessage::Pub(message);
        self.send_with_callback(msg, on_response)
    }

    /// Subscribes to a subject pattern with an optional queue group, under a
    /// fresh subscription ID: the ID and the bytes of its `SUB`, once
    /// connected.
    pub fn subscribe(&mut self, subject: String, queue_group: Option<String>, on_response: C) -> (r:
        Result<(SubscriptionId, Vec<u8>), Error>)
        ensures
            r is Ok <==> is_connected_spec(old(self)@),
            r matches Ok((sid, bytes)) ==> is_uuid_v4_text(sid@) && bytes@ == client_bytes(
                ClientMessageView::Sub {
                    subject: subject@,
                    queue_group: match queue_group {
                        Some(q) => Some(q@),
                        None => None,
                    },
                    sid: sid@,
                },
            ) && final(self)@ == (ConnectionView {
                state: old(self)@.state,
                callbacks: old(self)@.callbacks.push(on_response),
            }),
            r matches Err(e) ==> e@ == ErrorView::State("not connected"@) && final(self)@ == old(self)@,
    {
        let sid = SubscriptionId::new();
        let msg = ClientMessage::Sub {
            subject,
            queue_group,
            sid: sid.clone(),
        };
        match self.send_with_callback(msg, on_response) {
            Ok(bytes) => Ok((sid, bytes)),
            Err(e) => Err(e),
        }
    }

    /// Ends a subscription, optionally after `max_msgs` more messages: the
    /// bytes of its `UNSUB`, once connected.
    pub fn unsubscribe(&mut self, sid: SubscriptionId, max_msgs: Option<u32>, on_response: C) -> (r:
        Result<Vec<u8>, Error>)
        ensures
            r is Ok <==> is_connected_spec(old(self)@),
            r matches Ok(bytes) ==> bytes@ == client_bytes(
                ClientMessageView::Unsub { sid: sid@, max_msgs },
            ) && final(self)@ == (ConnectionView {
                state: old(self)@.state,
                callbacks: old(self)@.callbacks.push(on_response),
            }),
            r matches Err(e) ==> e@ == ErrorView::State("not connected"@) && final(self)@ == old(self)@,
    {
        let msg = ClientMessage::Unsub { sid, max_msgs };
        self.send_with_callback(msg, on_response)
    }

    /// Whether events may be received: not once the WebSocket has closed.
    pub fn begin_receive(&self) -> (r: Result<(), Error>)
        ensures
            r is Err <==> self@.state is WsClosed,
            r matches Err(e) ==> e@ == ErrorView::State("closed"@),
    {
        match self.state {
            State::WsClosed => Err(state_error("closed")),
            _ => Ok(()),
        }
    }

    /// Takes in a WebSocket event other than a binary message.
    pub fn handle_event(&mut self, event: SocketEvent) -> (r: Result<(), Error>)
        ensures
            match event_spec(old(self)@, event@) {
                Ok(nv) => r is Ok && final(self)@ == nv,
                Err(se) => r matches Err(e) && e@ == se && final(self)@ == old(self)@,
            },
    {
        match event {
            SocketEvent::Opened => {
                match self.state {
                    State::Initial => {},
                    _ => {
                        return Err(state_error("WebSocket opened event in invalid state"));
                    },
                }
                self.state = State::WsOpen;
                Ok(())
            },
            SocketEvent::UnexpectedMessage(text) => Err(
                Error::NatsProtocol("unexpected message type: ".to_owned().concat(text.as_str())),
            ),
            SocketEvent::Error(text) => Err(Error::WebSocket(text)),
            SocketEvent::Closed => {
                self.state = State::WsClosed;
                Ok(())
            },
        }
    }

    /// Reads the server message at the head of `input` (bytes of a binary
    /// WebSocket message) and takes it in: `INFO` connects, `PING` is answered
    /// with `PONG`, `+OK`/`-ERR` go to the oldest waiting callback and `MSG`
    /// is to be delivered. Gives back the bytes after the message and what the
    /// caller is to do.
    pub fn process_next<'a>(&mut self, input: &'a [u8]) -> (r: Result<(&'a [u8], Action<C>), Error>)
        requires
            !is_hmsg(input@),
            !is_pong(input@),
        ensures
            match parse_spec(input@) {
                Err(se) => r matches Err(e) && e@ == se && final(self)@ == old(self)@,
                Ok((srest, sm)) => match receive_spec(old(self)@, sm) {
                    Ok((nv, act)) => r matches Ok((rest, a)) && rest@ == srest && a@ == act
                        && final(self)@ == nv,
                    Err(se) => r matches Err(e) && e@ == se && final(self)@ == old(self)@,
                },
            },
    {
        let (rest, message) = match ServerMessage::parse(input) {
            Ok(x) => x,
            Err(e) => {
                return Err(e);
            },
        };
        match message {
            ServerMessage::Info(info) => {
                self.state = State::Connected(info);
                Ok((rest, Action::Continue))
            },
            ServerMessage::Ping => Ok((rest, Action::Send(ClientMessage::Pong.to_nats_protocol()))),
            ServerMessage::ServerResult(result) => {
                match self.server_result_callbacks.pop_front() {
                    Some(on_result) => {
                        assert(old(self)@.callbacks.drop_first() =~= self@.callbacks);
                        Ok((rest, Action::Respond(on_result, result)))
                    },
                    None => Err(protocol_error("no callback for server result")),
                }
            },
            ServerMessage::Msg(m) => Ok((rest, Action::Deliver(m))),
            ServerMessage::HMsg => unreached(),
            ServerMessage::Pong => {
                proof {
                    assert(is_pong(input@));
                }
                unreached()
            },
        }
    }
}

} // verus!

verus! {

/// What one action contributes to the answered callbacks, the answers and the
/// deliveries.
proof fn lemma_single_action<C>(a: ActionView<C>)
    ensures
        answered(seq![a]) == (match a {
            ActionView::Respond(cb, _) => seq![cb],
            _ => Seq::<C>::empty(),
        }),
        answers(seq![a]) == (match a {
            ActionView::Respond(_, r) => seq![r],
            _ => Seq::<Result<(), ServerErrorView>>::empty(),
        }),
        delivered(seq![a]) == (match a {
            ActionView::Deliver(sid, m) => seq![(sid, m)],
            _ => Seq::<(Seq<char>, MessageView)>::empty(),
        }),
{
    let s = seq![a];
    assert(s.drop_last() =~= Seq::<ActionView<C>>::empty());
    assert(s.last() == a);
    assert(answered(s.drop_last()) =~= Seq::<C>::empty());
    assert(answers(s.drop_last()) =~= Seq::<Result<(), ServerErrorView>>::empty());
    assert(delivered(s.drop_last()) =~= Seq::<(Seq<char>, MessageView)>::empty());
    assert(Seq::<C>::empty().push(a->Respond_0) =~= seq![a->Respond_0]);
    assert(Seq::<Result<(), ServerErrorView>>::empty().push(a->Respond_1) =~= seq![a->Respond_1]);
    assert(Seq::<(Seq<char>, MessageView)>::empty().push((a->Deliver_0, a->Deliver_1)) =~= seq![
        (a->Deliver_0, a->Deliver_1),
    ]);
}

/// What one step contributes to the answered callbacks, the answers and the
/// deliveries.
proof fn lemma_single_step<C>(v: ConnectionView<C>, s: Step<C>)
    ensures
        answered(apply_step(v, s).1) + apply_step(v, s).0.callbacks == v.callbacks + (match s {
            Step::Send(_, cb) => if is_connected_spec(v) {
                seq![cb]
            } else {
                Seq::<C>::empty()
            },
            _ => Seq::<C>::empty(),
        }),
        answers(apply_step(v, s).1) == (match s {
            Step::Receive(ServerMessageView::ServerResult(r)) => if v.callbacks.len() > 0 {
                seq![r]
            } else {
                Seq::<Result<(), ServerErrorView>>::empty()
            },
            _ => Seq::<Result<(), ServerErrorView>>::empty(),
        }),
        delivered(apply_step(v, s).1) == (match s {
            Step::Receive(ServerMessageView::Msg(sid, m)) => seq![(sid, m)],
            _ => Seq::<(Seq<char>, MessageView)>::empty(),
        }),
{
    let (nv, more) = apply_step(v, s);
    if more.len() == 0 {
        assert(answered(more) =~= Seq::<C>::empty());
        assert(answers(more) =~= Seq::<Result<(), ServerErrorView>>::empty());
        assert(delivered(more) =~= Seq::<(Seq<char>, MessageView)>::empty());
    } else {
        assert(more =~= seq![more[0]]);
        lemma_single_action(more[0]);
    }
    match s {
        Step::Receive(ServerMessageView::ServerResult(r)) => {
            if v.callbacks.len() > 0 {
                assert(v.callbacks =~= seq![v.callbacks[0]] + v.callbacks.drop_first());
            }
        },
        _ => {},
    }
    assert(answered(apply_step(v, s).1) + apply_step(v, s).0.callbacks =~= v.callbacks + (
    match s {
        Step::Send(_, cb) => if is_connected_spec(v) {
            seq![cb]
        } else {
            Seq::<C>::empty()
        },
        _ => Seq::<C>::empty(),
    }));
}

/// Callbacks are answered in the order they were queued, each at most once:
/// over any run, the callbacks that the actions call, followed by those still
/// waiting, are exactly those waiting at the start followed by those the run
/// queued.
pub proof fn lemma_callbacks_in_order<C>(v: ConnectionView<C>, steps: Seq<Step<C>>)
    ensures
        answered(run(v, steps).1) + run(v, steps).0.callbacks == v.callbacks + queued(v, steps),
    decreases steps.len(),
{
    if steps.len() == 0 {
        assert(answered(Seq::<ActionView<C>>::empty()) =~= Seq::<C>::empty());
        assert(queued(v, steps) =~= Seq::<C>::empty());
        assert(answered(run(v, steps).1) + run(v, steps).0.callbacks =~= v.callbacks + queued(
            v,
            steps,
        ));
    } else {
        let init = steps.drop_last();
        lemma_callbacks_in_order(v, init);
        let mid = run(v, init).0;
        let acts = run(v, init).1;
        let s = steps.last();
        let more = apply_step(mid, s).1;
        lemma_answered_append(acts, more);
        lemma_single_step(mid, s);
        assert(run(v, steps).1 == acts + more);
        assert(run(v, steps).0 == apply_step(mid, s).0);
        let inc = match s {
            Step::Send(_, cb) => if is_connected_spec(mid) {
                seq![cb]
            } else {
                Seq::<C>::empty()
            },
            _ => Seq::<C>::empty(),
        };
        assert(queued(v, steps) =~= queued(v, init) + inc);
        assert(answered(more) + apply_step(mid, s).0.callbacks == mid.callbacks + inc);
        assert(answered(acts) + mid.callbacks == v.callbacks + queued(v, init));
        assert(answered(run(v, steps).1) + run(v, steps).0.callbacks =~= answered(acts) + (
        answered(more) + apply_step(mid, s).0.callbacks));
        assert(answered(acts) + (mid.callbacks + inc) =~= (answered(acts) + mid.callbacks) + inc);
        assert(answered(run(v, steps).1) + run(v, steps).0.callbacks =~= v.callbacks + queued(
            v,
            steps,
        ));
    }
}

proof fn lemma_answered_append<C>(a: Seq<ActionView<C>>, b: Seq<ActionView<C>>)
    ensures
        answered(a + b) == answered(a) + answered(b),
        answers(a + b) == answers(a) + answers(b),
        delivered(a + b) == delivered(a) + delivered(b),
    decreases b.len(),
{
    if b.len() == 0 {
        assert(a + b =~= a);
        assert(answered(b) =~= Seq::<C>::empty());
        assert(answers(b) =~= Seq::<Result<(), ServerErrorView>>::empty());
        assert(delivered(b) =~= Seq::<(Seq<char>, MessageView)>::empty());
        assert(answered(a) + answered(b) =~= answered(a));
        assert(answers(a) + answers(b) =~= answers(a));
        assert(delivered(a) + delivered(b) =~= delivered(a));
    } else {
        lemma_answered_append(a, b.drop_last());
        assert((a + b).drop_last() =~= a + b.drop_last());
        assert((a + b).last() == b.last());
        assert(answered(a + b) =~= answered(a) + answered(b));
        assert(answers(a + b) =~= answers(a) + answers(b));
        assert(delivered(a + b) =~= delivered(a) + delivered(b));
    }
}

/// Every server result of a run that finds a waiting callback is handed on:
/// if no server result of the run came while no callback waited, the results
/// that the actions hand to callbacks are exactly the server results received,
/// in order.
pub proof fn lemma_results_in_order<C>(v: ConnectionView<C>, steps: Seq<Step<C>>)
    requires
        forall|i: int|
            0 <= i < steps.len() && (#[trigger] steps[i] matches Step::Receive(
                ServerMessageView::ServerResult(_),
            )) ==> run(v, steps.take(i)).0.callbacks.len() > 0,
    ensures
        answers(run(v, steps).1) == received_results(steps),
    decreases steps.len(),
{
    if steps.len() == 0 {
        assert(answers(run(v, steps).1) =~= received_results(steps));
    } else {
        let init = steps.drop_last();
        assert forall|i: int|
            0 <= i < init.len() && (#[trigger] init[i] matches Step::Receive(
                ServerMessageView::ServerResult(_),
            )) implies run(v, init.take(i)).0.callbacks.len() > 0 by {
            assert(init[i] == steps[i]);
            assert(init.take(i) =~= steps.take(i));
        }
        lemma_results_in_order(v, init);
        let mid = run(v, init).0;
        let acts = run(v, init).1;
        let s = steps.last();
        let more = apply_step(mid, s).1;
        lemma_answered_append(acts, more);
        lemma_single_step(mid, s);
        assert(steps.take(steps.len() - 1) =~= init);
        assert(steps[steps.len() - 1] == s);
        assert(run(v, steps).1 == acts + more);
        assert(answers(run(v, steps).1) =~= received_results(steps));
    }
}

/// Every message received is delivered, in the order received, with the
/// subscription ID, subject, reply-to and payload that it came with; nothing
/// else is delivered.
pub proof fn lemma_messages_delivered_in_order<C>(v: ConnectionView<C>, steps: Seq<Step<C>>)
    ensures
        delivered(run(v, steps).1) == received_msgs(steps),
    decreases steps.len(),
{
    if steps.len() == 0 {
        assert(delivered(run(v, steps).1) =~= received_msgs(steps));
    } else {
        let init = steps.drop_last();
        lemma_messages_delivered_in_order(v, init);
        let mid = run(v, init).0;
        let acts = run(v, init).1;
        let s = steps.last();
        let more = apply_step(mid, s).1;
        lemma_answered_append(acts, more);
        lemma_single_step(mid, s);
        assert(run(v, steps).1 == acts + more);
        assert(delivered(run(v, steps).1) =~= received_msgs(steps));
    }
}

/// The connection ends a run connected with description `info` exactly when
/// the last `INFO` or closing of the run was an `INFO` with `info`, or when
/// the run holds neither and it started connected with `info`. So
/// `is_connected` holds exactly when an `INFO` came with no closing after it
/// (or the connection was connected and neither came), and `get_server_info`
/// gives the most recent `INFO`'s description.
pub proof fn lemma_connected_after_run<C>(
    v: ConnectionView<C>,
    steps: Seq<Step<C>>,
    info: Seq<char>,
)
    ensures
        (run(v, steps).0.state == StateView::Connected(info)) <==> ((exists|i: int|
            0 <= i < steps.len() && is_info_step(#[trigger] steps[i], info) && forall|j: int|
                i < j < steps.len() ==> !is_link_step(#[trigger] steps[j])) || (v.state
            == StateView::Connected(info) && forall|j: int|
            0 <= j < steps.len() ==> !is_link_step(#[trigger] steps[j]))),
    decreases steps.len(),
{
    if steps.len() > 0 {
        let init = steps.drop_last();
        let n = steps.len() - 1;
        lemma_connected_after_run(v, init, info);
        let (mid, acts) = run(v, init);
        let s = steps.last();
        assert(steps[n] == s);
        assert forall|j: int| 0 <= j < n implies init[j] == steps[j] by {}
        if is_link_step(s) {
            if is_info_step(s, info) {
                assert(is_info_step(steps[n], info));
            } else {
                assert forall|i: int|
                    0 <= i < steps.len() && is_info_step(#[trigger] steps[i], info) implies !(
                forall|j: int| i < j < steps.len() ==> !is_link_step(#[trigger] steps[j])) by {
                    assert(i != n);
                    assert(is_link_step(steps[n]));
                }
                assert(is_link_step(steps[n]));
            }
        } else {
            assert(run(v, steps).0.state == StateView::Connected(info) <==> mid.state
                == StateView::Connected(info));
            if exists|i: int|
                0 <= i < init.len() && is_info_step(#[trigger] init[i], info) && forall|j: int|
                    i < j < init.len() ==> !is_link_step(#[trigger] init[j]) {
                let i = choose|i: int|
                    0 <= i < init.len() && is_info_step(#[trigger] init[i], info) && forall|j: int|
                        i < j < init.len() ==> !is_link_step(#[trigger] init[j]);
                assert(is_info_step(steps[i], info));
                assert forall|j: int| i < j < steps.len() implies !is_link_step(
                    #[trigger] steps[j],
                ) by {
                    if j < n {
                        assert(init[j] == steps[j]);
                    }
                }
            }
            if exists|i: int|
                0 <= i < steps.len() && is_info_step(#[trigger] steps[i], info) && forall|j: int|
                    i < j < steps.len() ==> !is_link_step(#[trigger] steps[j]) {
                let i = choose|i: int|
                    0 <= i < steps.len() && is_info_step(#[trigger] steps[i], info) && forall|
                        j: int,
                    | i < j < steps.len() ==> !is_link_step(#[trigger] steps[j]);
                assert(i != n);
                assert(is_info_step(init[i], info));
                assert forall|j: int| i < j < init.len() implies !is_link_step(
                    #[trigger] init[j],
                ) by {
                    assert(init[j] == steps[j]);
                }
            }
            if forall|j: int| 0 <= j < init.len() ==> !is_link_step(#[trigger] init[j]) {
                assert forall|j: int| 0 <= j < steps.len() implies !is_link_step(
                    #[trigger] steps[j],
                ) by {
                    if j < n {
                        assert(init[j] == steps[j]);
                    }
                }
            }
            if forall|j: int| 0 <= j < steps.len() ==> !is_link_step(#[trigger] steps[j]) {
                assert forall|j: int| 0 <= j < init.len() implies !is_link_step(
                    #[trigger] init[j],
                ) by {
                    assert(init[j] == steps[j]);
                }
            }
        }
    }
}


/// The bytes `PONG\r\n`.
pub open spec fn pong_wire() -> Seq<u8> {
    seq![0x50u8, 0x4fu8, 0x4eu8, 0x47u8, 0x0du8, 0x0au8]
}

/// Every `PING` is answered, whatever the state: taking in a `PING` leaves the
/// connection as it is (its state and its waiting callbacks) and asks for
/// exactly the bytes `PONG\r\n` to be sent.
pub proof fn lemma_ping_answered<C>(v: ConnectionView<C>)
    ensures
        apply_step(v, Step::Receive(ServerMessageView::Ping)) == (
            v,
            seq![ActionView::<C>::Send(pong_wire())],
        ),
{
    reveal_strlit("PONG");
    reveal_strlit("\r\n");
    let line = control_line_text("PONG"@, Seq::empty());
    assert(spaced(Seq::<Seq<char>>::empty()) =~= Seq::<char>::empty());
    assert(line =~= seq!['P', 'O', 'N', 'G', '\r', '\n']);
    assert(is_ascii_chars(line));
    is_ascii_chars_encode_utf8(line);
    assert(encode_utf8(line) =~= pong_wire());
}

/// A `Closed` event closes the connection from any state, keeping the
/// callbacks that wait.
pub proof fn lemma_closed_closes<C>(v: ConnectionView<C>)
    ensures
        apply_step(v, Step::Socket(SocketEventView::Closed)) == (
            ConnectionView { state: StateView::WsClosed, callbacks: v.callbacks },
            Seq::<ActionView<C>>::empty(),
        ),
{
}

/// Once the WebSocket has closed, the connection stays closed until an `INFO`
/// comes: over any run in which a `Closed` event is followed by no `INFO`,
/// the connection ends closed, so that `begin_receive` then refuses with
/// "closed".
pub proof fn lemma_closed_after_run<C>(v: ConnectionView<C>, steps: Seq<Step<C>>, i: int)
    requires
        0 <= i < steps.len(),
        steps[i] == Step::<C>::Socket(SocketEventView::Closed),
        forall|j: int|
            i < j < steps.len() ==> !(#[trigger] steps[j] matches Step::Receive(
                ServerMessageView::Info(_),
            )),
    ensures
        run(v, steps).0.state == StateView::WsClosed,
    decreases steps.len(),
{
    let n = steps.len() - 1;
    let init = steps.drop_last();
    assert(steps.last() == steps[n]);
    if i < n {
        assert forall|j: int|
            i < j < init.len() implies !(#[trigger] init[j] matches Step::Receive(
                ServerMessageView::Info(_),
            )) by {
            assert(init[j] == steps[j]);
        }
        assert(init[i] == steps[i]);
        lemma_closed_after_run(v, init, i);
    }
}

/// The number of actions that send `PONG\r\n`.
pub open spec fn pongs_sent<C>(acts: Seq<ActionView<C>>) -> nat
    decreases acts.len(),
{
    if acts.len() == 0 {
        0
    } else {
        pongs_sent(acts.drop_last()) + if acts.last() == ActionView::<C>::Send(pong_wire()) {
            1nat
        } else {
            0nat
        }
    }
}

/// The number of `PING`s among the steps.
pub open spec fn pings_received<C>(steps: Seq<Step<C>>) -> nat
    decreases steps.len(),
{
    if steps.len() == 0 {
        0
    } else {
        pings_received(steps.drop_last()) + if steps.last() matches Step::Receive(
            ServerMessageView::Ping,
        ) {
            1nat
        } else {
            0nat
        }
    }
}

proof fn lemma_pongs_append<C>(a: Seq<ActionView<C>>, b: Seq<ActionView<C>>)
    ensures
        pongs_sent(a + b) == pongs_sent(a) + pongs_sent(b),
    decreases b.len(),
{
    if b.len() == 0 {
        assert(a + b =~= a);
    } else {
        lemma_pongs_append(a, b.drop_last());
        assert((a + b).drop_last() =~= a + b.drop_last());
        assert((a + b).last() == b.last());
    }
}

/// The first bytes of a control line with an ASCII operation name are that
/// name's characters.
proof fn lemma_line_starts_with(op: Seq<char>, fs: Seq<Seq<char>>)
    requires
        is_ascii_chars(op),
    ensures
        encode_utf8(control_line_text(op, fs)).len() >= op.len(),
        forall|k: int| 0 <= k < op.len() ==> encode_utf8(control_line_text(op, fs))[k] == op[k] as u8,
{
    let rest = spaced(fs) + "\r\n"@;
    assert(control_line_text(op, fs) =~= op + rest);
    crate::frame::lemma_encode_concat(op, rest);
    is_ascii_chars_encode_utf8(op);
}

/// The bytes of a message other than `PONG` are not `PONG\r\n`.
proof fn lemma_not_pong(msg: ClientMessageView)
    requires
        !(msg is Pong),
    ensures
        client_bytes(msg) != pong_wire(),
{
    reveal_strlit("PUB");
    reveal_strlit("SUB");
    reveal_strlit("UNSUB");
    match msg {
        ClientMessageView::Pub(m) => {
            let fs = crate::client_message::pub_fields(m);
            assert(is_ascii_chars("PUB"@));
            lemma_line_starts_with("PUB"@, fs);
            let e = encode_utf8(control_line_text("PUB"@, fs));
            assert(client_bytes(msg)[1] == e[1]);
            assert(e[1] == 0x55);
        },
        ClientMessageView::Sub { subject, queue_group, sid } => {
            let fs = seq![subject] + crate::client_message::optional_field(queue_group) + seq![sid];
            assert(is_ascii_chars("SUB"@));
            lemma_line_starts_with("SUB"@, fs);
            assert(client_bytes(msg)[0] == 0x53);
        },
        ClientMessageView::Unsub { sid, max_msgs } => {
            let fs = seq![sid] + crate::client_message::optional_field(
                match max_msgs {
                    Some(n) => Some(crate::decimal::decimal(n as nat)),
                    None => None,
                },
            );
            assert(is_ascii_chars("UNSUB"@));
            lemma_line_starts_with("UNSUB"@, fs);
            assert(client_bytes(msg)[0] == 0x55);
        },
        ClientMessageView::Pong => {},
    }
}

/// Every `PING` of a run is answered with one `PONG`, and nothing else sends
/// `PONG`: over any run whose sent messages are publications, subscriptions
/// and unsubscriptions, the number of `PONG\r\n` sends equals the number of
/// `PING`s received.
pub proof fn lemma_pings_answered_in_run<C>(v: ConnectionView<C>, steps: Seq<Step<C>>)
    requires
        forall|j: int|
            0 <= j < steps.len() ==> !(#[trigger] steps[j] matches Step::Send(
                ClientMessageView::Pong,
                _,
            )),
    ensures
        pongs_sent(run(v, steps).1) == pings_received(steps),
    decreases steps.len(),
{
    if steps.len() == 0 {
    } else {
        let init = steps.drop_last();
        assert forall|j: int|
            0 <= j < init.len() implies !(#[trigger] init[j] matches Step::Send(
                ClientMessageView::Pong,
                _,
            )) by {
            assert(init[j] == steps[j]);
        }
        lemma_pings_answered_in_run(v, init);
        let mid = run(v, init).0;
        let acts = run(v, init).1;
        let s = steps.last();
        assert(s == steps[steps.len() - 1]);
        let more = apply_step(mid, s).1;
        lemma_pongs_append(acts, more);
        assert(run(v, steps).1 == acts + more);
        if more.len() > 0 {
            assert(more =~= seq![more[0]]);
            assert(more.drop_last() =~= Seq::<ActionView<C>>::empty());
            assert(pongs_sent(more.drop_last()) == 0);
            assert(more.last() == more[0]);
            assert(pongs_sent(more) == (if more[0] == ActionView::<C>::Send(pong_wire()) {
                1nat
            } else {
                0nat
            }));
        }
        assert(pings_received(steps) == pings_received(init) + if s matches Step::Receive(
            ServerMessageView::Ping,
        ) {
            1nat
        } else {
            0nat
        });
        match s {
            Step::Send(msg, cb) => {
                lemma_not_pong(msg);
            },
            Step::Receive(ServerMessageView::Ping) => {
                lemma_ping_answered(mid);
            },
            _ => {},
        }
        assert(pongs_sent(more) == if s matches Step::Receive(ServerMessageView::Ping) {
            1nat
        } else {
            0nat
        });
    }
}

} // verus!
