//! Which peers a daemon serves, and how a session runs.

use sema_storage::protocol::{
    ChangeEvent, ContentHash, DocumentKey, DocumentKind, FixtureScope, Rejection, Reply, Request,
    SlotIdentifier, SlotSummary, Snapshot, SubscriptionIdentifier, Version,
};
use sema_storage::session::{advance, SessionEvent, SessionStage, Subscription};
use sema_storage::wire::{
    confirm, expect_reply, frame_buffer, Frame, NegotiatedWire, ProtocolVersion, RequestSequence,
    SessionError, FRAME_LIMIT,
};

fn version(major: u64) -> ProtocolVersion {
    ProtocolVersion {
        major,
        minor: 0,
        patch: 0,
    }
}

fn change(scope: u64, kind: DocumentKind) -> ChangeEvent {
    ChangeEvent {
        subscription: SubscriptionIdentifier(0),
        snapshot: Snapshot(4),
        document: SlotSummary {
            key: DocumentKey {
                scope: FixtureScope(scope),
                kind,
                slot: SlotIdentifier(2),
            },
            version: Version(1),
            hash: ContentHash([5; 32]),
        },
    }
}

#[test]
fn current_wire_version_is_served_and_incompatible_is_rejected() {
    let current = NegotiatedWire::new(version(1), true);
    assert!(current.is_compatible());
    assert_eq!(current.request_rejection(), None);

    let incompatible = NegotiatedWire::new(version(1 + 1), false);
    assert!(!incompatible.is_compatible());
    assert_eq!(
        incompatible.request_rejection(),
        Some(Rejection::IncompatibleWireVersion),
    );
}

#[test]
fn the_first_frame_must_be_a_handshake() {
    assert_eq!(
        advance(SessionStage::Greet, SessionEvent::Frame(Frame::Request)),
        Err(SessionError::HandshakeExpected),
    );
    assert_eq!(
        advance(
            SessionStage::Greet,
            SessionEvent::Frame(Frame::HandshakeRequest {
                peer: version(3),
                accepted: false,
            }),
        ),
        Ok(SessionStage::AnswerHandshake(NegotiatedWire::new(
            version(3),
            false
        ))),
    );
}

#[test]
fn the_second_frame_must_be_a_request() {
    let wire = NegotiatedWire::new(version(1), true);
    assert_eq!(
        advance(
            SessionStage::AnswerHandshake(wire),
            SessionEvent::Frame(Frame::Reply)
        ),
        Err(SessionError::RequestExpected),
    );
    assert_eq!(
        advance(
            SessionStage::AnswerHandshake(wire),
            SessionEvent::Frame(Frame::Request)
        ),
        Ok(SessionStage::Decode),
    );
}

#[test]
fn an_incompatible_peer_is_refused_and_the_session_ends() {
    let wire = NegotiatedWire::new(version(9), false);
    let refused = advance(
        SessionStage::AnswerHandshake(wire),
        SessionEvent::Frame(Frame::Request),
    );
    assert_eq!(
        refused,
        Ok(SessionStage::Refuse(Rejection::IncompatibleWireVersion)),
    );
    assert_eq!(
        advance(refused.unwrap(), SessionEvent::Sent),
        Ok(SessionStage::Closed),
    );
}

#[test]
fn a_plain_request_is_answered_once() {
    let request = Request::Snapshot {
        scope: FixtureScope(1),
    };
    let attending = advance(SessionStage::Decode, SessionEvent::Decoded(request.clone()));
    assert_eq!(
        attending,
        Ok(SessionStage::Attend {
            request: request.clone(),
            subscription: None,
        }),
    );
    let dispatched = advance(attending.unwrap(), SessionEvent::Attending);
    assert_eq!(
        dispatched,
        Ok(SessionStage::Dispatch {
            request,
            subscription: None,
        }),
    );
    let reply = Reply::Snapshotted(Snapshot(8));
    let sending = advance(dispatched.unwrap(), SessionEvent::Replied(reply.clone()));
    assert_eq!(
        sending,
        Ok(SessionStage::Send {
            reply,
            subscription: None,
        }),
    );
    assert_eq!(
        advance(sending.unwrap(), SessionEvent::Sent),
        Ok(SessionStage::Closed),
    );
}

#[test]
fn a_subscriber_is_told_of_the_changes_that_it_covers() {
    let subscription = Subscription {
        scope: FixtureScope(1),
        kind: Some(DocumentKind::Nomos),
    };
    let opened = Subscription::opened_by(&Request::Subscribe {
        scope: FixtureScope(1),
        kind: Some(DocumentKind::Nomos),
    });
    assert_eq!(opened, Some(subscription));
    let listening = SessionStage::Listen(subscription);

    let covered = change(1, DocumentKind::Nomos);
    let told = advance(listening.clone(), SessionEvent::Changed(covered));
    assert_eq!(
        told,
        Ok(SessionStage::Send {
            reply: Reply::Event(covered),
            subscription: Some(subscription),
        }),
    );
    assert_eq!(
        advance(told.unwrap(), SessionEvent::Sent),
        Ok(listening.clone())
    );

    for other in [change(2, DocumentKind::Nomos), change(1, DocumentKind::Logos)] {
        assert_eq!(
            advance(listening.clone(), SessionEvent::Changed(other)),
            Ok(listening.clone()),
        );
    }
    assert_eq!(
        advance(listening.clone(), SessionEvent::Ended),
        Ok(SessionStage::Closed)
    );

    let every_kind = Subscription {
        scope: FixtureScope(1),
        kind: None,
    };
    assert!(every_kind.notice(change(1, DocumentKind::Logos)).is_some());
    assert!(every_kind.notice(change(3, DocumentKind::Logos)).is_none());
}

#[test]
fn a_session_comes_to_its_stages_in_order() {
    let subscribe = Request::Subscribe {
        scope: FixtureScope(1),
        kind: None,
    };
    let subscription = Some(Subscription {
        scope: FixtureScope(1),
        kind: None,
    });
    let initial = Reply::Subscribed {
        identifier: SubscriptionIdentifier(0),
        initial: Vec::new(),
    };
    let covered = change(1, DocumentKind::Logos);
    let wire = NegotiatedWire::new(version(1), true);
    let mut stage = SessionStage::Greet;
    for (event, next) in [
        (
            SessionEvent::Frame(Frame::HandshakeRequest {
                peer: version(1),
                accepted: true,
            }),
            SessionStage::AnswerHandshake(wire),
        ),
        (SessionEvent::Frame(Frame::Request), SessionStage::Decode),
        (
            SessionEvent::Decoded(subscribe.clone()),
            SessionStage::Attend {
                request: subscribe.clone(),
                subscription,
            },
        ),
        (
            SessionEvent::Attending,
            SessionStage::Dispatch {
                request: subscribe.clone(),
                subscription,
            },
        ),
        (
            SessionEvent::Replied(initial.clone()),
            SessionStage::Send {
                reply: initial.clone(),
                subscription,
            },
        ),
        (SessionEvent::Sent, SessionStage::Listen(subscription.unwrap())),
        (
            SessionEvent::Changed(covered),
            SessionStage::Send {
                reply: Reply::Event(covered),
                subscription,
            },
        ),
        (SessionEvent::Sent, SessionStage::Listen(subscription.unwrap())),
        (
            SessionEvent::Changed(change(2, DocumentKind::Logos)),
            SessionStage::Listen(subscription.unwrap()),
        ),
        (SessionEvent::Ended, SessionStage::Closed),
    ] {
        assert!(stage.is_awaiting(&event));
        stage = advance(stage, event).unwrap();
        assert_eq!(stage, next);
    }
}

#[test]
fn a_request_is_not_dispatched_before_changes_are_listened_for() {
    let request = Request::Snapshot {
        scope: FixtureScope(1),
    };
    let attending = SessionStage::Attend {
        request,
        subscription: None,
    };
    assert!(attending.is_awaiting(&SessionEvent::Attending));
    assert!(!attending.is_awaiting(&SessionEvent::Replied(Reply::Snapshotted(Snapshot(1)))));
}

#[test]
fn a_stage_knows_what_it_awaits() {
    assert!(SessionStage::Greet.is_awaiting(&SessionEvent::Frame(Frame::Other)));
    assert!(!SessionStage::Greet.is_awaiting(&SessionEvent::Sent));
    assert!(!SessionStage::Closed.is_awaiting(&SessionEvent::Ended));
}

#[test]
fn a_client_checks_what_it_is_answered() {
    assert_eq!(confirm(Frame::HandshakeReply { accepted: true }), Ok(()));
    assert_eq!(
        confirm(Frame::HandshakeReply { accepted: false }),
        Err(SessionError::HandshakeRejected),
    );
    assert_eq!(confirm(Frame::Reply), Err(SessionError::HandshakeRejected));
    assert_eq!(expect_reply(Frame::Reply), Ok(()));
    assert_eq!(
        expect_reply(Frame::Request),
        Err(SessionError::ReplyExpected)
    );
}

#[test]
fn session_errors_have_their_words() {
    assert_eq!(
        SessionError::HandshakeExpected.message(),
        "first frame was not a protocol handshake"
    );
    assert_eq!(
        SessionError::HandshakeRejected.message(),
        "daemon rejected shared frame protocol"
    );
    assert_eq!(
        SessionError::RequestExpected.message(),
        "expected shared request frame"
    );
    assert_eq!(
        SessionError::ReplyExpected.message(),
        "expected shared reply frame"
    );
    assert_eq!(SessionError::FrameTooLarge.message(), "frame too large");
}

#[test]
fn a_frame_begins_with_its_length() {
    assert_eq!(frame_buffer(0), Ok(vec![0, 0, 0, 0]));
    assert_eq!(frame_buffer(3), Ok(vec![0, 0, 0, 3, 0, 0, 0]));
    let frame = frame_buffer(0x01_02_03).unwrap();
    assert_eq!(&frame[..4], &[0, 1, 2, 3]);
    assert_eq!(frame.len(), 0x01_02_03 + 4);
    assert!(frame[4..].iter().all(|byte| *byte == 0));
}

#[test]
fn a_frame_may_be_sixteen_mebibytes_and_no_larger() {
    assert_eq!(FRAME_LIMIT, 16 * 1024 * 1024);
    let largest = frame_buffer(FRAME_LIMIT).unwrap();
    assert_eq!(&largest[..4], &FRAME_LIMIT.to_be_bytes());
    assert_eq!(
        frame_buffer(FRAME_LIMIT + 1),
        Err(SessionError::FrameTooLarge)
    );
}

#[test]
fn requests_are_numbered_from_zero() {
    let mut sequence = RequestSequence::new();
    assert_eq!(sequence.take(), 0);
    assert_eq!(sequence.take(), 1);
}
