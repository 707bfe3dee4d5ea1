//! Laws of the wire, told in frames, bytes and words.
use vstd::prelude::*;

use crate::protocol::Rejection;
use crate::wire::{
    Frame, NegotiatedWire, ProtocolVersion, RequestSequence, SessionError, confirm, expect_reply,
    frame_buffer,
};

verus! {

/// A frame is taken exactly if it declares no more than sixteen mebibytes. Its buffer is
/// the declared length in four bytes, the most significant first, and then as many
/// zeros.
pub proof fn a_frame_is_its_length_and_its_content(
    length: u32,
    buffer: Result<Vec<u8>, SessionError>,
)
    requires
        call_ensures(frame_buffer, (length,), buffer),
    ensures
        match buffer {
            Ok(frame) => {
                &&& length <= 16 * 1024 * 1024
                &&& frame@.len() == length + 4
                &&& ((frame@[0] * 256 + frame@[1]) * 256 + frame@[2]) * 256 + frame@[3] == length
                &&& forall|index: int| 4 <= index < frame@.len() ==> #[trigger] frame@[index] == 0
            },
            Err(error) => length > 16 * 1024 * 1024 && error == SessionError::FrameTooLarge,
        },
{
}

/// A client goes on exactly if the daemon has accepted its handshake.
pub proof fn a_handshake_is_confirmed_exactly_if_accepted(
    frame: Frame,
    confirmed: Result<(), SessionError>,
)
    requires
        call_ensures(confirm, (frame,), confirmed),
    ensures
        confirmed is Ok <==> (frame matches Frame::HandshakeReply { accepted } && accepted),
        confirmed is Err ==> confirmed == Err::<(), SessionError>(SessionError::HandshakeRejected),
{
}

/// A client takes a reply and nothing else as the answer to its request.
pub proof fn only_a_reply_answers_a_request(frame: Frame, expected: Result<(), SessionError>)
    requires
        call_ensures(expect_reply, (frame,), expected),
    ensures
        expected is Ok <==> frame is Reply,
        expected is Err ==> expected == Err::<(), SessionError>(SessionError::ReplyExpected),
{
}

/// A peer can be served exactly if its version is accepted, whatever version that is,
/// and any other is answered with the rejection of its version.
pub proof fn a_peer_is_served_exactly_if_accepted(
    peer: ProtocolVersion,
    accepted: bool,
    wire: NegotiatedWire,
    compatible: bool,
    rejection: Option<Rejection>,
)
    requires
        call_ensures(NegotiatedWire::new, (peer, accepted), wire),
        call_ensures(NegotiatedWire::is_compatible, (wire,), compatible),
        call_ensures(NegotiatedWire::request_rejection, (wire,), rejection),
    ensures
        wire.peer == peer,
        compatible == accepted,
        accepted ==> rejection is None,
        !accepted ==> rejection == Some(Rejection::IncompatibleWireVersion),
{
}

/// A connection numbers its requests from zero.
pub proof fn requests_are_numbered_from_zero(sequence: RequestSequence)
    requires
        call_ensures(RequestSequence::new, (), sequence),
    ensures
        sequence.next == 0,
{
}

/// What ends a session is told in these words.
pub proof fn session_failures_are_told_in_words(error: SessionError, text: &'static str)
    requires
        call_ensures(SessionError::message, (error,), text),
    ensures
        error is HandshakeExpected ==> text@ == "first frame was not a protocol handshake"@,
        error is HandshakeRejected ==> text@ == "daemon rejected shared frame protocol"@,
        error is RequestExpected ==> text@ == "expected shared request frame"@,
        error is ReplyExpected ==> text@ == "expected shared reply frame"@,
        error is FrameTooLarge ==> text@ == "frame too large"@,
{
}

/// A request has the number at which its connection stands, and the next one the number
/// behind it.
pub proof fn requests_are_numbered_one_by_one(sequence: &mut RequestSequence, number: u64)
    requires
        call_ensures(RequestSequence::take, (sequence,), number),
    ensures
        number == old(sequence).next,
        final(sequence).next == number + 1,
{
}

} // verus!
