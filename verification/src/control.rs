//! The control channel before the tunnel: protocol versions, and the frames that
//! carry the TLS handshake.
use crate::buffers;
use crate::channel_id::{ChannelId, ControlMessageId};
use crate::framing;
use crate::framing::{Frame, FrameType, FrameView};
use crate::octets;
use vstd::prelude::*;

verus! {

/// The version of the protocol that is spoken: before the point.
pub const PROTOCOL_MAJOR: u16 = 1;

/// The version of the protocol that is spoken: behind the point.
pub const PROTOCOL_MINOR: u16 = 7;

/// Why a frame is not the one that was expected.
#[derive(Debug, Clone, Copy, PartialEq, Eq, Structural)]
pub enum ControlError {
    /// It is on another channel.
    NotControl(u8),
    /// It is too short; its length is given.
    TooShort(usize),
    /// It holds another message.
    WrongMessage(u16),
}

/// The body of a version message.
pub open spec fn version_body() -> Seq<u8> {
    octets::be16(PROTOCOL_MAJOR) + octets::be16(PROTOCOL_MINOR)
}

fn own_version() -> (r: Vec<u8>)
    ensures
        r@ == version_body(),
{
    let mut body: Vec<u8> = Vec::new();
    octets::push_be16(&mut body, PROTOCOL_MAJOR);
    octets::push_be16(&mut body, PROTOCOL_MINOR);
    assert(body@ =~= version_body());
    body
}

/// The frame that asks for the peer's version.
pub fn version_request() -> (r: Frame)
    ensures
        r@ == framing::bulk(0, 1, version_body()),
{
    let body: Vec<u8> = own_version();
    Frame::bulk_control(
        ChannelId::Control.code(),
        ControlMessageId::VersionRequest.code(),
        body.as_slice(),
    )
}

/// The frame that answers with the own version: six bytes, without a status.
pub fn version_response() -> (r: Frame)
    ensures
        r@ == framing::bulk(0, 2, version_body()),
{
    let body: Vec<u8> = own_version();
    Frame::bulk_control(
        ChannelId::Control.code(),
        ControlMessageId::VersionResponse.code(),
        body.as_slice(),
    )
}

/// The version in a version message with this number.
pub open spec fn version_in(f: FrameView, message_id: u16) -> Result<(u16, u16), ControlError> {
    if f.channel_id != 0 {
        Err(ControlError::NotControl(f.channel_id))
    } else if f.payload.len() < 6 {
        Err(ControlError::TooShort(f.payload.len() as usize))
    } else if octets::be16_at(f.payload, 0) != message_id {
        Err(ControlError::WrongMessage(octets::be16_at(f.payload, 0)))
    } else {
        Ok((octets::be16_at(f.payload, 2), octets::be16_at(f.payload, 4)))
    }
}

fn read_version(frame: &Frame, message_id: u16) -> (r: Result<(u16, u16), ControlError>)
    ensures
        r == version_in(frame@, message_id),
{
    if frame.channel_id != ChannelId::Control.code() {
        return Err(ControlError::NotControl(frame.channel_id));
    }
    let payload: &[u8] = buffers::slice_of(&frame.payload);
    if payload.len() < 6 {
        return Err(ControlError::TooShort(payload.len()));
    }
    let found: u16 = octets::read_be16(payload, 0);
    if found != message_id {
        return Err(ControlError::WrongMessage(found));
    }
    Ok((octets::read_be16(payload, 2), octets::read_be16(payload, 4)))
}

/// The peer's version in a frame that asks for the own version.
pub fn read_version_request(frame: &Frame) -> (r: Result<(u16, u16), ControlError>)
    ensures
        r == version_in(frame@, 1),
{
    read_version(frame, ControlMessageId::VersionRequest.code())
}

/// The status in a version answer: zero where there is none.
pub open spec fn version_status(payload: Seq<u8>) -> u16 {
    if payload.len() >= 8 {
        octets::be16_at(payload, 6)
    } else {
        0
    }
}

/// The peer's version and status in a frame that answers with them.
pub fn read_version_response(frame: &Frame) -> (r: Result<(u16, u16, u16), ControlError>)
    ensures
        match version_in(frame@, 2) {
            Ok((major, minor)) => r == Ok::<(u16, u16, u16), ControlError>(
                (major, minor, version_status(frame@.payload)),
            ),
            Err(e) => r == Err::<(u16, u16, u16), ControlError>(e),
        },
{
    let (major, minor) = match read_version(frame, ControlMessageId::VersionResponse.code()) {
        Ok(found) => found,
        Err(e) => {
            return Err(e);
        },
    };
    let payload: &[u8] = buffers::slice_of(&frame.payload);
    let status: u16 = if payload.len() >= 8 {
        octets::read_be16(payload, 6)
    } else {
        0
    };
    Ok((major, minor, status))
}

/// Whatever version stands in a version message, the peer finds it there; and the
/// status is zero where the message ends behind the version.
pub proof fn lemma_version_handshake(message_id: u16, major: u16, minor: u16)
    ensures
        ({
            let f = framing::bulk(0, message_id, octets::be16(major) + octets::be16(minor));
            &&& version_in(f, message_id) == Ok::<(u16, u16), ControlError>((major, minor))
            &&& version_status(f.payload) == 0
        }),
{
    octets::lemma_be16_read_back(message_id);
    octets::lemma_be16_read_back(major);
    octets::lemma_be16_read_back(minor);
}

/// The first four bytes of a frame.
#[derive(Debug, Clone, Copy, PartialEq, Eq, Structural)]
pub struct FrameHead {
    pub channel_id: u8,
    pub frame_type: FrameType,
    pub control: bool,
    pub encrypted: bool,
    /// The length of the payload.
    pub payload_len: u16,
}

/// What the first four bytes of a frame say.
pub open spec fn head_of(bytes: Seq<u8>) -> FrameHead {
    FrameHead {
        channel_id: bytes[0],
        frame_type: framing::type_of(bytes[1]),
        control: bytes[1] / 4 % 2 == 1,
        encrypted: bytes[1] / 8 % 2 == 1,
        payload_len: octets::be16_at(bytes, 2),
    }
}

impl FrameHead {
    /// Reads the first four bytes of a frame.
    pub fn decode(bytes: &[u8]) -> (r: Self)
        requires
            bytes@.len() == 4,
        ensures
            r == head_of(bytes@),
    {
        let flags: u8 = bytes[1];
        FrameHead {
            channel_id: bytes[0],
            frame_type: FrameType::from_flags(flags),
            control: flags / 4 % 2 == 1,
            encrypted: flags / 8 % 2 == 1,
            payload_len: octets::read_be16(bytes, 2),
        }
    }

    /// Whether the length of the whole message comes before the payload.
    pub fn has_total_length(&self) -> (r: bool)
        ensures
            r == (self.frame_type == FrameType::First),
    {
        self.frame_type == FrameType::First
    }

    /// The frame with this head. `total` is the length of the whole message, as four
    /// bytes, where it comes before the payload.
    pub fn complete(&self, total: &[u8], payload: Vec<u8>) -> (r: Frame)
        requires
            self.frame_type == FrameType::First ==> total@.len() == 4,
        ensures
            r@ == completed(*self, total@, payload@),
    {
        let total_length: Option<u32> = if self.has_total_length() {
            Some(octets::read_be32(total, 0))
        } else {
            None
        };
        Frame {
            channel_id: self.channel_id,
            frame_type: self.frame_type,
            control: self.control,
            encrypted: self.encrypted,
            total_length,
            payload: buffers::from_vec(payload),
        }
    }
}

/// The frame with a head.
pub open spec fn completed(head: FrameHead, total: Seq<u8>, payload: Seq<u8>) -> FrameView {
    FrameView {
        channel_id: head.channel_id,
        frame_type: head.frame_type,
        control: head.control,
        encrypted: head.encrypted,
        total_length: if head.frame_type == FrameType::First {
            Some(octets::be32_at(total, 0))
        } else {
            None
        },
        payload,
    }
}

/// A frame that is read piece by piece (head, length of the message where there is
/// one, payload) is the frame that is parsed from the bytes at once.
pub proof fn lemma_piecewise_read(s: Seq<u8>)
    requires
        framing::frame_len(s) is Some,
    ensures
        ({
            let head = head_of(s.subrange(0, 4));
            let h: int = if head.frame_type == FrameType::First {
                8
            } else {
                4
            };
            framing::frame_len(s) == Some(h + head.payload_len) && completed(
                head,
                s.subrange(4, h),
                s.subrange(h, h + head.payload_len),
            ) == framing::frame_of(s)
        }),
{
    let head = head_of(s.subrange(0, 4));
    assert(octets::be16_at(s.subrange(0, 4), 2) == octets::be16_at(s, 2));
    if head.frame_type == FrameType::First {
        let total = s.subrange(4, 8);
        assert(total[0] == s[4] && total[1] == s[5] && total[2] == s[6] && total[3] == s[7]);
        assert(octets::be32_at(total, 0) == octets::be32_at(s, 4));
    }
}

/// A frame with a piece of the TLS handshake.
pub open spec fn handshake_frame(body: Seq<u8>) -> FrameView {
    FrameView { control: true, ..framing::bulk(0, 3, body) }
}

/// A frame with a piece of the TLS handshake. The control flag is set.
pub fn ssl_handshake_frame(body: &[u8]) -> (r: Frame)
    ensures
        r@ == handshake_frame(body@),
{
    let mut frame: Frame = Frame::bulk_control(
        ChannelId::Control.code(),
        ControlMessageId::SslHandshake.code(),
        body,
    );
    frame.control = true;
    frame
}

/// The piece of the TLS handshake in a frame.
pub open spec fn handshake_in(f: FrameView) -> Result<Seq<u8>, ControlError> {
    if f.channel_id != 0 || !f.control {
        Err(ControlError::NotControl(f.channel_id))
    } else if f.payload.len() < 2 {
        Err(ControlError::TooShort(f.payload.len() as usize))
    } else if octets::be16_at(f.payload, 0) != 3 {
        Err(ControlError::WrongMessage(octets::be16_at(f.payload, 0)))
    } else {
        Ok(f.payload.skip(2))
    }
}

/// The piece of the TLS handshake in a frame.
pub fn ssl_handshake_body(frame: &Frame) -> (r: Result<&[u8], ControlError>)
    ensures
        match handshake_in(frame@) {
            Ok(body) => r matches Ok(b) && b@ == body,
            Err(e) => r matches Err(x) && x == e,
        },
{
    if frame.channel_id != ChannelId::Control.code() || !frame.control {
        return Err(ControlError::NotControl(frame.channel_id));
    }
    let payload: &[u8] = buffers::slice_of(&frame.payload);
    if payload.len() < 2 {
        return Err(ControlError::TooShort(payload.len()));
    }
    let message_id: u16 = octets::read_be16(payload, 0);
    if message_id != ControlMessageId::SslHandshake.code() {
        return Err(ControlError::WrongMessage(message_id));
    }
    let body: &[u8] = &payload[2..payload.len()];
    assert(body@ =~= frame@.payload.skip(2));
    Ok(body)
}

/// What goes into a handshake frame comes out of it.
pub proof fn lemma_handshake_round_trip(body: Seq<u8>)
    ensures
        handshake_in(handshake_frame(body)) == Ok::<Seq<u8>, ControlError>(body),
{
    octets::lemma_be16_read_back(3);
    let payload = handshake_frame(body).payload;
    assert(payload[0] == octets::be16(3)[0] && payload[1] == octets::be16(3)[1]);
    assert(payload.skip(2) =~= body);
}

/// The version that is spoken is 1.7, and a frame that tells it holds just that.
pub proof fn lemma_own_version(message_id: u16)
    ensures
        version_body() == seq![0u8, 1, 0, 7],
        version_in(framing::bulk(0, message_id, version_body()), message_id) == Ok::<
            (u16, u16),
            ControlError,
        >((1, 7)),
{
    lemma_version_handshake(message_id, 1, 7);
    assert(version_body() =~= seq![0u8, 1, 0, 7]);
}

/// A version is read exactly from a frame of the control channel that is long enough
/// and holds the message that is waited for.
pub proof fn lemma_version_is_read(f: FrameView, message_id: u16)
    ensures
        version_in(f, message_id) is Ok <==> f.channel_id == 0 && f.payload.len() >= 6 && 256
            * f.payload[0] + f.payload[1] == message_id,
        version_in(f, message_id) matches Ok((major, minor)) ==> major == 256 * f.payload[2]
            + f.payload[3] && minor == 256 * f.payload[4] + f.payload[5],
        f.payload.len() >= 8 ==> version_status(f.payload) == 256 * f.payload[6] + f.payload[7],
        f.payload.len() < 8 ==> version_status(f.payload) == 0,
{
}

/// A piece of the handshake is read exactly from a frame of the control channel that has
/// the control flag and the number three; it goes out in a whole frame of the same kind,
/// in plain.
pub proof fn lemma_handshake_is_read(f: FrameView, body: Seq<u8>)
    ensures
        handshake_in(f) is Ok <==> f.channel_id == 0 && f.control && f.payload.len() >= 2
            && f.payload[0] == 0 && f.payload[1] == 3,
        handshake_in(f) matches Ok(b) ==> b == f.payload.skip(2),
        ({
            let h = handshake_frame(body);
            &&& h.channel_id == 0
            &&& h.frame_type is Bulk
            &&& h.control
            &&& !h.encrypted
            &&& h.payload.len() == 2 + body.len()
        }),
{
}

} // verus!
