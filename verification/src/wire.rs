//! The wire between a daemon and its clients: which peers are served, which
//! frames are expected, and how large a frame may be.
use vstd::prelude::*;

use crate::protocol::Rejection;

verus! {

/// A version of the shared-frame protocol.
#[derive(Clone, Copy, Debug, PartialEq, Eq, Structural)]
pub struct ProtocolVersion {
    pub major: u64,
    pub minor: u64,
    pub patch: u64,
}

/// The protocol version that a connecting peer declared at handshake, paired
/// with the daemon's authority to serve requests under it.
///
/// The version is negotiated once per connection. Every later request on the
/// connection is served only while the daemon's own version accepts the peer's;
/// a peer that is not accepted is answered with a typed rejection rather than
/// served.
#[derive(Clone, Copy, Debug, PartialEq, Eq, Structural)]
pub struct NegotiatedWire {
    /// The version that the peer declared.
    pub peer: ProtocolVersion,
    /// Whether the daemon's own version accepts it.
    pub accepted: bool,
}

impl NegotiatedWire {
    /// A peer's version, and whether the daemon's own version accepts it.
    pub fn new(peer: ProtocolVersion, accepted: bool) -> (wire: NegotiatedWire)
        ensures
            wire.peer == peer,
            wire.accepted == accepted,
    {
        NegotiatedWire { peer, accepted }
    }

    /// Whether the daemon can serve this peer.
    pub fn is_compatible(self) -> (compatible: bool)
        ensures
            compatible == self.accepted,
    {
        self.accepted
    }

    /// The rejection with which to answer a request of this peer, or `None`
    /// where the daemon can serve it.
    pub fn request_rejection(self) -> (rejection: Option<Rejection>)
        ensures
            rejection == if self.accepted {
                None
            } else {
                Some(Rejection::IncompatibleWireVersion)
            },
    {
        if self.is_compatible() {
            None
        } else {
            Some(Rejection::IncompatibleWireVersion)
        }
    }
}

/// What a frame turned out to be once it was decoded.
#[derive(Clone, Copy, Debug, PartialEq, Eq, Structural)]
pub enum Frame {
    /// A peer declares its version; `accepted` says whether the daemon's own
    /// version accepts it.
    HandshakeRequest { peer: ProtocolVersion, accepted: bool },
    /// A daemon answers a handshake.
    HandshakeReply { accepted: bool },
    /// A request, whose payload is not decoded yet.
    Request,
    /// A reply, whose payload is not decoded yet.
    Reply,
    /// Any other frame.
    Other,
}

/// Why a session ends before its request is answered.
#[derive(Clone, Copy, Debug, PartialEq, Eq, Structural)]
pub enum SessionError {
    /// The first frame was not a protocol handshake.
    HandshakeExpected,
    /// The daemon rejected the shared-frame protocol.
    HandshakeRejected,
    /// A request frame was expected.
    RequestExpected,
    /// A reply frame was expected.
    ReplyExpected,
    /// A frame is larger than a frame may be.
    FrameTooLarge,
}

impl SessionError {
    /// The reason in words.
    pub fn message(self) -> (text: &'static str)
        ensures
            text@ == match self {
                SessionError::HandshakeExpected => "first frame was not a protocol handshake"@,
                SessionError::HandshakeRejected => "daemon rejected shared frame protocol"@,
                SessionError::RequestExpected => "expected shared request frame"@,
                SessionError::ReplyExpected => "expected shared reply frame"@,
                SessionError::FrameTooLarge => "frame too large"@,
            },
    {
        match self {
            SessionError::HandshakeExpected => "first frame was not a protocol handshake",
            SessionError::HandshakeRejected => "daemon rejected shared frame protocol",
            SessionError::RequestExpected => "expected shared request frame",
            SessionError::ReplyExpected => "expected shared reply frame",
            SessionError::FrameTooLarge => "frame too large",
        }
    }
}

/// Takes the daemon's answer to a handshake.
pub fn confirm(frame: Frame) -> (confirmed: Result<(), SessionError>)
    ensures
        confirmed == if frame == (Frame::HandshakeReply { accepted: true }) {
            Ok::<(), SessionError>(())
        } else {
            Err::<(), SessionError>(SessionError::HandshakeRejected)
        },
{
    match frame {
        Frame::HandshakeReply { accepted: true } => Ok(()),
        _ => Err(SessionError::HandshakeRejected),
    }
}

/// Takes the daemon's answer to a request.
pub fn expect_reply(frame: Frame) -> (expected: Result<(), SessionError>)
    ensures
        expected == if frame == Frame::Reply {
            Ok::<(), SessionError>(())
        } else {
            Err::<(), SessionError>(SessionError::ReplyExpected)
        },
{
    match frame {
        Frame::Reply => Ok(()),
        _ => Err(SessionError::ReplyExpected),
    }
}

/// The largest length that a frame may declare: sixteen mebibytes.
pub const FRAME_LIMIT: u32 = 16_777_216;

/// The number that four bytes stand for, the most significant first.
pub open spec fn big_endian(bytes: Seq<u8>) -> int {
    bytes[0] * 0x100_0000 + bytes[1] * 0x1_0000 + bytes[2] * 0x100 + bytes[3]
}

/// A frame of the declared length before its content is read: the length in
/// four bytes, the most significant first, and zeros in place of the content.
pub fn frame_buffer(length: u32) -> (buffer: Result<Vec<u8>, SessionError>)
    ensures
        if length > FRAME_LIMIT {
            buffer == Err::<Vec<u8>, SessionError>(SessionError::FrameTooLarge)
        } else {
            &&& buffer matches Ok(frame)
            &&& frame@.len() == length + 4
            &&& big_endian(frame@) == length
            &&& forall|index: int| 4 <= index < frame@.len() ==> #[trigger] frame@[index] == 0
        },
{
    if length > FRAME_LIMIT {
        return Err(SessionError::FrameTooLarge);
    }
    let mut frame: Vec<u8> = Vec::with_capacity(length as usize + 4);
    let high: u32 = length / 0x1_0000;
    let low: u32 = length % 0x1_0000;
    frame.push((high / 0x100) as u8);
    frame.push((high % 0x100) as u8);
    frame.push((low / 0x100) as u8);
    frame.push((low % 0x100) as u8);
    let ghost header = frame@;
    assert(big_endian(header) == length);
    frame.resize(length as usize + 4, 0);
    assert(forall|index: int| 0 <= index < 4 ==> #[trigger] frame@[index] == header[index]);
    Ok(frame)
}

/// The numbers of a client's requests on one connection.
#[derive(Clone, Copy, Debug, PartialEq, Eq, Structural)]
pub struct RequestSequence {
    pub next: u64,
}

impl RequestSequence {
    /// The sequence of a connection on which nothing was asked yet.
    pub fn new() -> (sequence: RequestSequence)
        ensures
            sequence.next == 0,
    {
        RequestSequence { next: 0 }
    }

    /// The number of the next request. The one after it has the next number.
    pub fn take(&mut self) -> (number: u64)
        requires
            old(self).next < u64::MAX,
        ensures
            number == old(self).next,
            final(self).next == old(self).next + 1,
    {
        let number: u64 = self.next;
        self.next = number + 1;
        number
    }
}

} // verus!
