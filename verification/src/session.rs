//! A connection as the daemon serves it.
//!
//! A session alternates between decisions and outside work: frames are read and
//! sent, a request is decoded and dispatched, changes are waited for. While it
//! awaits outside work it is a [`SessionStage`]; [`advance`] takes the outcome
//! of that work and decides how the session goes on.
use vstd::prelude::*;

use crate::documents::{covers, is_covered};
use crate::protocol::{ChangeEvent, DocumentKind, FixtureScope, Rejection, Reply, Request};
use crate::wire::{Frame, NegotiatedWire, SessionError};

verus! {

/// The changes that a subscriber is told of.
#[derive(Clone, Copy, Debug, PartialEq, Eq, Structural)]
pub struct Subscription {
    pub scope: FixtureScope,
    pub kind: Option<DocumentKind>,
}

/// The subscription that a request opens, if it opens one.
pub open spec fn subscription_of(request: Request) -> Option<Subscription> {
    match request {
        Request::Subscribe { scope, kind } => Some(Subscription { scope, kind }),
        _ => None,
    }
}

impl Subscription {
    /// The subscription that a request opens, if it opens one.
    pub fn opened_by(request: &Request) -> (subscription: Option<Subscription>)
        ensures
            subscription == subscription_of(*request),
    {
        match request {
            Request::Subscribe { scope, kind } => Some(Subscription { scope: *scope, kind: *kind }),
            _ => None,
        }
    }

    /// What the subscriber is told of a change: the change where the
    /// subscription covers its document, else nothing.
    pub fn notice(&self, change: ChangeEvent) -> (notice: Option<Reply>)
        ensures
            notice == if covers(self.scope, self.kind, change.document.key) {
                Some(Reply::Event(change))
            } else {
                None
            },
    {
        if is_covered(self.scope, self.kind, &change.document.key) {
            Some(Reply::Event(change))
        } else {
            None
        }
    }
}

/// The outside work that a session awaits.
#[derive(Clone, Debug, PartialEq, Eq)]
pub enum SessionStage {
    /// The first frame is to be read.
    Greet,
    /// The handshake is to be answered and the next frame read.
    AnswerHandshake(NegotiatedWire),
    /// The request is to be answered with a rejection; its payload is left
    /// undecoded.
    Refuse(Rejection),
    /// The payload of the request is to be decoded.
    Decode,
    /// Changes are to be listened for from now on, before the request is
    /// dispatched.
    Attend { request: Request, subscription: Option<Subscription> },
    /// The request is to be dispatched.
    Dispatch { request: Request, subscription: Option<Subscription> },
    /// The reply is to be sent.
    Send { reply: Reply, subscription: Option<Subscription> },
    /// The next change is to be waited for.
    Listen(Subscription),
    /// The session is over.
    Closed,
}

/// The outcome of outside work.
#[derive(Clone, Debug, PartialEq, Eq)]
pub enum SessionEvent {
    /// A frame was read.
    Frame(Frame),
    /// A reply was sent.
    Sent,
    /// The payload of the request was decoded.
    Decoded(Request),
    /// Every change from now on will be heard of.
    Attending,
    /// The request was answered.
    Replied(Reply),
    /// A document was stored.
    Changed(ChangeEvent),
    /// There will be no more changes.
    Ended,
}

impl SessionStage {
    /// Whether an outcome is one of the awaited work.
    pub open spec fn awaits(self, event: SessionEvent) -> bool {
        match self {
            SessionStage::Greet => event is Frame,
            SessionStage::AnswerHandshake(_) => event is Frame,
            SessionStage::Refuse(_) => event is Sent,
            SessionStage::Decode => event is Decoded,
            SessionStage::Attend { .. } => event is Attending,
            SessionStage::Dispatch { .. } => event is Replied,
            SessionStage::Send { .. } => event is Sent,
            SessionStage::Listen(_) => event is Changed || event is Ended,
            SessionStage::Closed => false,
        }
    }

    /// Whether the session has let its peer's request through.
    pub open spec fn serves(self) -> bool {
        self is Decode || self is Attend || self is Dispatch || self is Send || self is Listen
    }

    /// Whether an outcome is one of the awaited work.
    pub fn is_awaiting(&self, event: &SessionEvent) -> (awaiting: bool)
        ensures
            awaiting == self.awaits(*event),
    {
        match (self, event) {
            (SessionStage::Greet, SessionEvent::Frame(_)) => true,
            (SessionStage::AnswerHandshake(_), SessionEvent::Frame(_)) => true,
            (SessionStage::Refuse(_), SessionEvent::Sent) => true,
            (SessionStage::Decode, SessionEvent::Decoded(_)) => true,
            (SessionStage::Attend { .. }, SessionEvent::Attending) => true,
            (SessionStage::Dispatch { .. }, SessionEvent::Replied(_)) => true,
            (SessionStage::Send { .. }, SessionEvent::Sent) => true,
            (SessionStage::Listen(_), SessionEvent::Changed(_)) => true,
            (SessionStage::Listen(_), SessionEvent::Ended) => true,
            _ => false,
        }
    }
}

/// Where a session goes once a reply was sent: on to its subscription where it
/// has one, else to its end.
pub open spec fn after_sending(subscription: Option<Subscription>) -> SessionStage {
    match subscription {
        Some(subscription) => SessionStage::Listen(subscription),
        None => SessionStage::Closed,
    }
}

/// How a session goes on from a stage, given the outcome of the awaited work.
/// The first frame must be a handshake and the second a request. A peer that is
/// not accepted is refused before its request is decoded. A request is dispatched
/// once changes are listened for, so that none is missed after it was answered. A
/// request that subscribes is followed by each change that its subscription
/// covers.
pub open spec fn advanced(stage: SessionStage, event: SessionEvent) -> Result<
    SessionStage,
    SessionError,
> {
    match (stage, event) {
        (SessionStage::Greet, SessionEvent::Frame(frame)) => match frame {
            Frame::HandshakeRequest { peer, accepted } => Ok(
                SessionStage::AnswerHandshake(NegotiatedWire { peer, accepted }),
            ),
            _ => Err(SessionError::HandshakeExpected),
        },
        (SessionStage::AnswerHandshake(wire), SessionEvent::Frame(frame)) => if frame
            != Frame::Request {
            Err(SessionError::RequestExpected)
        } else if wire.accepted {
            Ok(SessionStage::Decode)
        } else {
            Ok(SessionStage::Refuse(Rejection::IncompatibleWireVersion))
        },
        (SessionStage::Decode, SessionEvent::Decoded(request)) => Ok(
            SessionStage::Attend { request, subscription: subscription_of(request) },
        ),
        (SessionStage::Attend { request, subscription }, SessionEvent::Attending) => Ok(
            SessionStage::Dispatch { request, subscription },
        ),
        (SessionStage::Dispatch { subscription, .. }, SessionEvent::Replied(reply)) => Ok(
            SessionStage::Send { reply, subscription },
        ),
        (SessionStage::Send { subscription, .. }, SessionEvent::Sent) => Ok(
            after_sending(subscription),
        ),
        (SessionStage::Listen(subscription), SessionEvent::Changed(change)) => Ok(
            if covers(subscription.scope, subscription.kind, change.document.key) {
                SessionStage::Send {
                    reply: Reply::Event(change),
                    subscription: Some(subscription),
                }
            } else {
                SessionStage::Listen(subscription)
            },
        ),
        _ => Ok(SessionStage::Closed),
    }
}

/// Decides how a session goes on from a stage, given the outcome of the awaited
/// work.
pub fn advance(stage: SessionStage, event: SessionEvent) -> (next: Result<
    SessionStage,
    SessionError,
>)
    requires
        stage.awaits(event),
    ensures
        next == advanced(stage, event),
{
    match (stage, event) {
        (SessionStage::Greet, SessionEvent::Frame(frame)) => match frame {
            Frame::HandshakeRequest { peer, accepted } => Ok(
                SessionStage::AnswerHandshake(NegotiatedWire::new(peer, accepted)),
            ),
            _ => Err(SessionError::HandshakeExpected),
        },
        (SessionStage::AnswerHandshake(wire), SessionEvent::Frame(frame)) => {
            if frame != Frame::Request {
                return Err(SessionError::RequestExpected);
            }
            match wire.request_rejection() {
                Some(rejection) => Ok(SessionStage::Refuse(rejection)),
                None => Ok(SessionStage::Decode),
            }
        },
        (SessionStage::Decode, SessionEvent::Decoded(request)) => {
            let subscription = Subscription::opened_by(&request);
            Ok(SessionStage::Attend { request, subscription })
        },
        (SessionStage::Attend { request, subscription }, SessionEvent::Attending) => Ok(
            SessionStage::Dispatch { request, subscription },
        ),
        (SessionStage::Dispatch { subscription, .. }, SessionEvent::Replied(reply)) => Ok(
            SessionStage::Send { reply, subscription },
        ),
        (SessionStage::Send { subscription, .. }, SessionEvent::Sent) => match subscription {
            Some(subscription) => Ok(SessionStage::Listen(subscription)),
            None => Ok(SessionStage::Closed),
        },
        (SessionStage::Listen(subscription), SessionEvent::Changed(change)) => {
            match subscription.notice(change) {
                Some(reply) => Ok(SessionStage::Send { reply, subscription: Some(subscription) }),
                None => Ok(SessionStage::Listen(subscription)),
            }
        },
        _ => Ok(SessionStage::Closed),
    }
}

/// A peer whose version is not accepted is answered with the rejection of its
/// version, and its request is neither decoded nor dispatched.
pub proof fn incompatible_peers_are_refused(wire: NegotiatedWire, frame: Frame)
    requires
        !wire.accepted,
    ensures
        match advanced(SessionStage::AnswerHandshake(wire), SessionEvent::Frame(frame)) {
            Ok(stage) => {
                &&& frame == Frame::Request
                &&& stage == SessionStage::Refuse(Rejection::IncompatibleWireVersion)
                &&& advanced(stage, SessionEvent::Sent) == Ok::<SessionStage, SessionError>(
                    SessionStage::Closed,
                )
            },
            Err(_) => frame != Frame::Request,
        },
{
}

/// A session comes to serve a request only from the handshake of a peer that is
/// accepted.
pub proof fn only_accepted_peers_are_served(
    stage: SessionStage,
    event: SessionEvent,
    next: SessionStage,
)
    requires
        advanced(stage, event) == Ok::<SessionStage, SessionError>(next),
        next.serves(),
    ensures
        stage.serves() || (stage matches SessionStage::AnswerHandshake(wire) && wire.accepted),
{
}

/// Whether a session went through stages by the outcomes of the awaited work, from
/// its beginning on.
pub open spec fn is_session(stages: Seq<SessionStage>, events: Seq<SessionEvent>) -> bool {
    &&& stages.len() == events.len() + 1
    &&& stages[0] == SessionStage::Greet
    &&& forall|index: int|
        0 <= index < events.len() ==> {
            &&& stages[index].awaits(#[trigger] events[index])
            &&& advanced(stages[index], events[index]) == Ok::<SessionStage, SessionError>(
                stages[index + 1],
            )
        }
}

/// Whether a session opened with a handshake, whose peer was accepted or not, and
/// then a request.
pub open spec fn has_opened(events: Seq<SessionEvent>, accepted: bool) -> bool {
    &&& events[0] matches SessionEvent::Frame(Frame::HandshakeRequest { accepted: answer, .. })
    &&& answer == accepted
    &&& events[1] == SessionEvent::Frame(Frame::Request)
}

/// Whether the events of a session up to a place lead to a stage.
pub open spec fn leads_to(events: Seq<SessionEvent>, place: int, stage: SessionStage) -> bool {
    match stage {
        SessionStage::Greet => place == 0,
        SessionStage::AnswerHandshake(wire) => place == 1 && events[0] == SessionEvent::Frame(
            Frame::HandshakeRequest { peer: wire.peer, accepted: wire.accepted },
        ),
        SessionStage::Refuse(rejection) => {
            &&& place == 2
            &&& has_opened(events, false)
            &&& rejection == Rejection::IncompatibleWireVersion
        },
        SessionStage::Decode => place == 2 && has_opened(events, true),
        SessionStage::Attend { request, subscription } => {
            &&& place == 3
            &&& has_opened(events, true)
            &&& events[2] == SessionEvent::Decoded(request)
            &&& subscription == subscription_of(request)
        },
        SessionStage::Dispatch { request, subscription } => {
            &&& place == 4
            &&& has_opened(events, true)
            &&& events[2] == SessionEvent::Decoded(request)
            &&& events[3] == SessionEvent::Attending
            &&& subscription == subscription_of(request)
        },
        SessionStage::Send { reply, subscription } => {
            &&& has_opened(events, true)
            &&& events[2] matches SessionEvent::Decoded(request)
            &&& events[3] == SessionEvent::Attending
            &&& subscription == subscription_of(request)
            &&& place == 5 && events[4] == SessionEvent::Replied(reply) || (place > 5 && (
            events[place - 1] matches SessionEvent::Changed(change) && reply == Reply::Event(change)
                && (subscription matches Some(listening) && covers(
                listening.scope,
                listening.kind,
                change.document.key,
            ))))
        },
        SessionStage::Listen(listening) => {
            &&& place > 5
            &&& has_opened(events, true)
            &&& events[2] matches SessionEvent::Decoded(request)
            &&& events[3] == SessionEvent::Attending
            &&& subscription_of(request) == Some(listening)
        },
        SessionStage::Closed => place > 2,
    }
}

/// The stages of a session come in order, whatever its events are. A request is
/// decoded, listened for and dispatched only behind the handshake of a peer that is
/// accepted, and a refusal comes only behind that of one that is not. A request is
/// dispatched only once changes are listened for. What is sent is the answer to the
/// request first, and then only changes that its subscription covers.
pub proof fn sessions_come_to_their_stages_in_order(
    stages: Seq<SessionStage>,
    events: Seq<SessionEvent>,
    place: int,
)
    requires
        is_session(stages, events),
        0 <= place < stages.len(),
    ensures
        leads_to(events, place, stages[place]),
    decreases place,
{
    if place > 0 {
        sessions_come_to_their_stages_in_order(stages, events, place - 1);
        assert(stages[place - 1].awaits(events[place - 1]));
    }
}

/// A session decodes, dispatches or answers a request only if its first event was
/// the handshake of a peer that is accepted.
pub proof fn only_accepted_peers_are_ever_served(
    stages: Seq<SessionStage>,
    events: Seq<SessionEvent>,
    place: int,
)
    requires
        is_session(stages, events),
        0 <= place < stages.len(),
        stages[place].serves(),
    ensures
        events[0] matches SessionEvent::Frame(Frame::HandshakeRequest { accepted: true, .. }),
{
    sessions_come_to_their_stages_in_order(stages, events, place);
}

/// A session dispatches a request only once it listens for changes, so every change
/// after the request was answered is heard of.
pub proof fn requests_are_dispatched_only_while_listening(
    stages: Seq<SessionStage>,
    events: Seq<SessionEvent>,
    place: int,
)
    requires
        is_session(stages, events),
        0 <= place < stages.len(),
        stages[place] is Dispatch,
    ensures
        place > 0,
        stages[place - 1] is Attend,
        events[place - 1] == SessionEvent::Attending,
{
    sessions_come_to_their_stages_in_order(stages, events, place);
    sessions_come_to_their_stages_in_order(stages, events, place - 1);
    assert(stages[place - 1].awaits(events[place - 1]));
}

} // verus!
