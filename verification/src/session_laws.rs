//! Laws of sessions, told by the frames that are read, the requests that are decoded
//! and the changes that are heard of.
use vstd::prelude::*;

use crate::protocol::{ChangeEvent, Rejection, Reply, Request};
use crate::session::{
    SessionEvent, SessionStage, Subscription, advance, advanced, is_session,
};
use crate::wire::{Frame, NegotiatedWire, SessionError};

verus! {

/// A session goes on as its stages are said to follow each other.
pub proof fn a_session_advances_as_its_stages_follow(
    stage: SessionStage,
    event: SessionEvent,
    next: Result<SessionStage, SessionError>,
)
    requires
        call_ensures(advance, (stage, event), next),
    ensures
        next == advanced(stage, event),
{
}

/// A session opens with a handshake and with nothing else: what the peer declared and
/// whether it is accepted are kept, whatever they are.
pub proof fn a_session_opens_with_a_handshake(
    frame: Frame,
    next: Result<SessionStage, SessionError>,
)
    requires
        call_ensures(advance, (SessionStage::Greet, SessionEvent::Frame(frame)), next),
    ensures
        match frame {
            Frame::HandshakeRequest { peer, accepted } => next == Ok::<SessionStage, SessionError>(
                SessionStage::AnswerHandshake(NegotiatedWire { peer, accepted }),
            ),
            _ => next == Err::<SessionStage, SessionError>(SessionError::HandshakeExpected),
        },
{
}

/// Behind the handshake a request is let through exactly if the peer is accepted, and
/// is refused for its version exactly if not; any other frame ends the session.
pub proof fn a_request_is_let_through_exactly_if_its_peer_is_accepted(
    wire: NegotiatedWire,
    frame: Frame,
    next: Result<SessionStage, SessionError>,
)
    requires
        call_ensures(
            advance,
            (SessionStage::AnswerHandshake(wire), SessionEvent::Frame(frame)),
            next,
        ),
    ensures
        match frame {
            Frame::Request => if wire.accepted {
                next == Ok::<SessionStage, SessionError>(SessionStage::Decode)
            } else {
                next == Ok::<SessionStage, SessionError>(
                    SessionStage::Refuse(Rejection::IncompatibleWireVersion),
                )
            },
            _ => next == Err::<SessionStage, SessionError>(SessionError::RequestExpected),
        },
{
}

/// A session is over once its refusal was sent.
pub proof fn a_refused_session_is_over(
    rejection: Rejection,
    next: Result<SessionStage, SessionError>,
)
    requires
        call_ensures(advance, (SessionStage::Refuse(rejection), SessionEvent::Sent), next),
    ensures
        next == Ok::<SessionStage, SessionError>(SessionStage::Closed),
{
}

/// A request that was let through is dispatched unchanged once changes are listened
/// for, its reply is sent unchanged, and then the session listens on for the scope and
/// kind of a request that subscribes, and is over behind any other.
pub proof fn a_request_is_dispatched_and_its_reply_sent(
    request: Request,
    reply: Reply,
    first: Result<SessionStage, SessionError>,
    second: Result<SessionStage, SessionError>,
    third: Result<SessionStage, SessionError>,
    last: Result<SessionStage, SessionError>,
)
    requires
        call_ensures(advance, (SessionStage::Decode, SessionEvent::Decoded(request)), first),
        first matches Ok(stage) ==> call_ensures(advance, (stage, SessionEvent::Attending), second),
        second matches Ok(stage) ==> call_ensures(
            advance,
            (stage, SessionEvent::Replied(reply)),
            third,
        ),
        third matches Ok(stage) ==> call_ensures(advance, (stage, SessionEvent::Sent), last),
    ensures
        first matches Ok(SessionStage::Attend { request: asked, .. }) && asked == request,
        second matches Ok(SessionStage::Dispatch { request: asked, .. }) && asked == request,
        third matches Ok(SessionStage::Send { reply: sent, .. }) && sent == reply,
        match request {
            Request::Subscribe { scope, kind } => last == Ok::<SessionStage, SessionError>(
                SessionStage::Listen(Subscription { scope, kind }),
            ),
            _ => last == Ok::<SessionStage, SessionError>(SessionStage::Closed),
        },
{
}

/// No covered change is dropped and no other is told: a session that listens sends a
/// change exactly if the change's document has the scope of the subscription, and its
/// kind where it has one. Either way it goes on to listen for the same.
pub proof fn a_change_is_told_exactly_if_it_is_covered(
    subscription: Subscription,
    change: ChangeEvent,
    next: Result<SessionStage, SessionError>,
    last: Result<SessionStage, SessionError>,
)
    requires
        call_ensures(
            advance,
            (SessionStage::Listen(subscription), SessionEvent::Changed(change)),
            next,
        ),
        next matches Ok(stage) ==> (stage is Send ==> call_ensures(
            advance,
            (stage, SessionEvent::Sent),
            last,
        )),
    ensures
        if change.document.key.scope == subscription.scope && (subscription.kind is None
            || subscription.kind == Some(change.document.key.kind)) {
            &&& next == Ok::<SessionStage, SessionError>(
                SessionStage::Send {
                    reply: Reply::Event(change),
                    subscription: Some(subscription),
                },
            )
            &&& last == Ok::<SessionStage, SessionError>(SessionStage::Listen(subscription))
        } else {
            next == Ok::<SessionStage, SessionError>(SessionStage::Listen(subscription))
        },
{
}

/// A session that listens is over once there will be no more changes.
pub proof fn a_session_is_over_when_changes_end(
    subscription: Subscription,
    next: Result<SessionStage, SessionError>,
)
    requires
        call_ensures(
            advance,
            (SessionStage::Listen(subscription), SessionEvent::Ended),
            next,
        ),
    ensures
        next == Ok::<SessionStage, SessionError>(SessionStage::Closed),
{
}

/// What a session sends from one place to another, in order.
pub open spec fn told(stages: Seq<SessionStage>, from: int, to: int) -> Seq<Reply>
    decreases to - from,
{
    if to <= from {
        Seq::empty()
    } else {
        match stages[to] {
            SessionStage::Send { reply, .. } => told(stages, from, to - 1).push(reply),
            _ => told(stages, from, to - 1),
        }
    }
}

/// The changes of a scope, and of one kind where a kind is given, that a session hears
/// of from one place to another, in order.
pub open spec fn heard(
    events: Seq<SessionEvent>,
    subscription: Subscription,
    from: int,
    to: int,
) -> Seq<Reply>
    decreases to - from,
{
    if to <= from {
        Seq::empty()
    } else {
        match events[to - 1] {
            SessionEvent::Changed(change) => if change.document.key.scope == subscription.scope && (
            subscription.kind is None || subscription.kind == Some(change.document.key.kind)) {
                heard(events, subscription, from, to - 1).push(Reply::Event(change))
            } else {
                heard(events, subscription, from, to - 1)
            },
            _ => heard(events, subscription, from, to - 1),
        }
    }
}

/// Over a whole session, what is sent from when it listens on is exactly the covered
/// changes that were heard of, each once and in order.
pub proof fn a_session_tells_exactly_the_covered_changes(
    stages: Seq<SessionStage>,
    events: Seq<SessionEvent>,
    subscription: Subscription,
    from: int,
    to: int,
)
    requires
        is_session(stages, events),
        0 <= from <= to < stages.len(),
        stages[from] == SessionStage::Listen(subscription),
    ensures
        told(stages, from, to) == heard(events, subscription, from, to),
        match stages[to] {
            SessionStage::Listen(listening) => listening == subscription,
            SessionStage::Send { subscription: listening, .. } => listening == Some(subscription),
            SessionStage::Closed => true,
            _ => false,
        },
    decreases to - from,
{
    if from < to {
        a_session_tells_exactly_the_covered_changes(stages, events, subscription, from, to - 1);
        assert(stages[to - 1].awaits(events[to - 1]));
    }
}

/// A request opens a subscription exactly if it subscribes, and then of its scope and
/// kind.
pub proof fn a_subscription_is_opened_by_subscribing(
    request: Request,
    opened: Option<Subscription>,
)
    requires
        call_ensures(Subscription::opened_by, (&request,), opened),
    ensures
        match opened {
            Some(subscription) => request == (Request::Subscribe {
                scope: subscription.scope,
                kind: subscription.kind,
            }),
            None => !(request is Subscribe),
        },
{
}

/// What a session awaits is told by its stage, whatever the stage and the outcome hold.
pub proof fn a_session_awaits_every_outcome_of_its_work(
    stage: SessionStage,
    event: SessionEvent,
    awaiting: bool,
)
    requires
        call_ensures(SessionStage::is_awaiting, (&stage, &event), awaiting),
    ensures
        awaiting == stage.awaits(event),
        awaiting <==> ((stage is Greet || stage is AnswerHandshake) && event is Frame) || ((stage
            is Refuse || stage is Send) && event is Sent) || (stage is Decode && event is Decoded)
            || (stage is Attend && event is Attending) || (stage is Dispatch && event is Replied)
            || (stage is Listen && (event is Changed || event is Ended)),
{
}

} // verus!
