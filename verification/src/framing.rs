//! Frames.
//!
//! ```text
//!   byte 0   : channel
//!   byte 1   : flags (1 first, 2 last, 4 control, 8 encrypted)
//!   bytes 2-3: payload length
//!   bytes 4-7: length of the whole message; only in a frame that is the first
//!              of several
//!   payload
//! ```
//!
//! All numbers are most significant byte first. A frame that is both first and
//! last carries a whole message, and is called a bulk frame.
use crate::buffers;
use crate::octets;
use bytes::{Bytes, BytesMut};
use vstd::prelude::*;

verus! {

pub const FLAG_MIDDLE: u8 = 0x00;

pub const FLAG_FIRST: u8 = 0x01;

pub const FLAG_LAST: u8 = 0x02;

pub const FLAG_BULK: u8 = 0x03;

pub const FLAG_CONTROL: u8 = 0x04;

pub const FLAG_ENCRYPTED: u8 = 0x08;

/// Where in a message a frame stands.
#[derive(Debug, Clone, Copy, PartialEq, Eq, Structural)]
pub enum FrameType {
    Middle,
    First,
    Last,
    Bulk,
}

/// The frame type that the low two bits of `flags` stand for.
pub open spec fn type_of(flags: u8) -> FrameType {
    if flags % 4 == FLAG_BULK {
        FrameType::Bulk
    } else if flags % 4 == FLAG_FIRST {
        FrameType::First
    } else if flags % 4 == FLAG_LAST {
        FrameType::Last
    } else {
        FrameType::Middle
    }
}

/// The flags that stand for a frame type.
pub open spec fn type_bits(t: FrameType) -> u8 {
    match t {
        FrameType::Middle => FLAG_MIDDLE,
        FrameType::First => FLAG_FIRST,
        FrameType::Last => FLAG_LAST,
        FrameType::Bulk => FLAG_BULK,
    }
}

impl FrameType {
    pub fn from_flags(flags: u8) -> (r: Self)
        ensures
            r == type_of(flags),
    {
        match flags % 4 {
            FLAG_BULK => FrameType::Bulk,
            FLAG_FIRST => FrameType::First,
            FLAG_LAST => FrameType::Last,
            _ => FrameType::Middle,
        }
    }

    pub fn bits(self) -> (r: u8)
        ensures
            r == type_bits(self),
    {
        match self {
            FrameType::Middle => FLAG_MIDDLE,
            FrameType::First => FLAG_FIRST,
            FrameType::Last => FLAG_LAST,
            FrameType::Bulk => FLAG_BULK,
        }
    }
}

/// A frame.
#[derive(Debug)]
pub struct Frame {
    pub channel_id: u8,
    pub frame_type: FrameType,
    pub control: bool,
    pub encrypted: bool,
    /// In the first of several frames, the length of the whole message.
    pub total_length: Option<u32>,
    pub payload: Bytes,
}

/// What a frame says.
pub struct FrameView {
    pub channel_id: u8,
    pub frame_type: FrameType,
    pub control: bool,
    pub encrypted: bool,
    pub total_length: Option<u32>,
    pub payload: Seq<u8>,
}

impl View for Frame {
    type V = FrameView;

    open spec fn view(&self) -> FrameView {
        FrameView {
            channel_id: self.channel_id,
            frame_type: self.frame_type,
            control: self.control,
            encrypted: self.encrypted,
            total_length: self.total_length,
            payload: buffers::bytes_of(self.payload),
        }
    }
}

impl Clone for Frame {
    fn clone(&self) -> (r: Self)
        ensures
            r@ == self@,
    {
        Frame {
            channel_id: self.channel_id,
            frame_type: self.frame_type,
            control: self.control,
            encrypted: self.encrypted,
            total_length: self.total_length,
            payload: self.payload.clone(),
        }
    }
}

impl FrameView {
    /// The flags byte.
    pub open spec fn flags(self) -> u8 {
        (type_bits(self.frame_type) + (if self.control {
            FLAG_CONTROL as int
        } else {
            0
        }) + (if self.encrypted {
            FLAG_ENCRYPTED as int
        } else {
            0
        })) as u8
    }

    /// The frame's bytes on the wire.
    pub open spec fn encoded(self) -> Seq<u8> {
        seq![self.channel_id, self.flags()] + octets::be16(
            (self.payload.len() % 65536) as u16,
        ) + self.total_length_field() + self.payload
    }

    /// The length of the whole message, where the frame carries it.
    pub open spec fn total_length_field(self) -> Seq<u8> {
        if self.frame_type == FrameType::First && self.total_length is Some {
            octets::be32(self.total_length->Some_0)
        } else {
            Seq::empty()
        }
    }

    /// Whether a frame can be told from its bytes: the payload's length fits its
    /// field, and the length of the whole message stands in a first frame only.
    pub open spec fn well_formed(self) -> bool {
        &&& self.payload.len() <= u16::MAX
        &&& self.frame_type == FrameType::First <==> self.total_length is Some
    }
}

/// The length of a frame's header.
pub open spec fn header_len(flags: u8) -> int {
    if type_of(flags) == FrameType::First {
        8
    } else {
        4
    }
}

/// The number of bytes that the frame at the front of `s` takes, if all of it is
/// there.
pub open spec fn frame_len(s: Seq<u8>) -> Option<int> {
    if s.len() < 4 {
        None
    } else {
        let n = header_len(s[1]) + octets::be16_at(s, 2);
        if s.len() < n {
            None
        } else {
            Some(n)
        }
    }
}

/// The frame at the front of `s`.
pub open spec fn frame_of(s: Seq<u8>) -> FrameView {
    let flags = s[1];
    let h = header_len(flags);
    FrameView {
        channel_id: s[0],
        frame_type: type_of(flags),
        control: flags / 4 % 2 == 1,
        encrypted: flags / 8 % 2 == 1,
        total_length: if h == 8 {
            Some(octets::be32_at(s, 4))
        } else {
            None
        },
        payload: s.subrange(h, h + octets::be16_at(s, 2)),
    }
}

/// Why a stream of frames cannot go on.
#[derive(Debug, Clone, Copy, PartialEq, Eq, Structural)]
pub enum FrameError {
    /// The bytes are not a frame.
    Malformed,
}

impl Frame {
    fn flags(&self) -> (r: u8)
        ensures
            r == self@.flags(),
    {
        self.frame_type.bits() + (if self.control {
            FLAG_CONTROL
        } else {
            0
        }) + (if self.encrypted {
            FLAG_ENCRYPTED
        } else {
            0
        })
    }

    /// Appends the frame's bytes to `dst`.
    pub fn encode_into(&self, dst: &mut BytesMut)
        ensures
            buffers::buffer_of(*final(dst)) == buffers::buffer_of(*old(dst)) + self@.encoded(),
    {
        let ghost before = buffers::buffer_of(*dst);
        let payload: &[u8] = buffers::slice_of(&self.payload);
        buffers::put_u8(dst, self.channel_id);
        buffers::put_u8(dst, self.flags());
        buffers::put_u16(dst, (payload.len() % 65536) as u16);
        if let FrameType::First = self.frame_type {
            if let Some(total) = self.total_length {
                buffers::put_u32(dst, total);
            }
        }
        buffers::put_slice(dst, payload);
        assert(buffers::buffer_of(*dst) =~= before + self@.encoded());
    }

    /// The frame's bytes.
    pub fn encode(&self) -> (r: Bytes)
        ensures
            buffers::bytes_of(r) == self@.encoded(),
    {
        let mut buf: BytesMut = buffers::new_buffer();
        self.encode_into(&mut buf);
        assert(Seq::<u8>::empty() + self@.encoded() =~= self@.encoded());
        buffers::freeze(buf)
    }

    /// Takes one frame off the front of `buf`. Where the frame is not complete
    /// yet, `buf` stays as it is and there is none; read more and try again.
    pub fn parse(buf: &mut BytesMut) -> (r: Result<Option<Frame>, FrameError>)
        ensures
            match frame_len(buffers::buffer_of(*old(buf))) {
                Some(n) => {
                    &&& r matches Ok(Some(frame)) && frame@ == frame_of(
                        buffers::buffer_of(*old(buf)),
                    )
                    &&& buffers::buffer_of(*final(buf)) == buffers::buffer_of(*old(buf)).subrange(
                        n,
                        buffers::buffer_of(*old(buf)).len() as int,
                    )
                },
                None => r == Ok::<Option<Frame>, FrameError>(None) && buffers::buffer_of(
                    *final(buf),
                ) == buffers::buffer_of(*old(buf)),
            },
    {
        let ghost whole = buffers::buffer_of(*buf);
        let head: &[u8] = buffers::buffer_slice(buf);
        let len: usize = head.len();
        if len < 4 {
            return Ok(None);
        }
        let channel_id: u8 = head[0];
        let flags: u8 = head[1];
        let payload_len: usize = octets::read_be16(head, 2) as usize;
        let frame_type: FrameType = FrameType::from_flags(flags);
        let first: bool = frame_type == FrameType::First;
        let header_len: usize = if first {
            8
        } else {
            4
        };
        if len < header_len + payload_len {
            return Ok(None);
        }
        buffers::advance(buf, 4);
        let total_length: Option<u32> = if first {
            Some(buffers::get_u32(buf))
        } else {
            None
        };
        let payload: Bytes = buffers::freeze(buffers::split_to(buf, payload_len));
        assert(buffers::bytes_of(payload) =~= frame_of(whole).payload);
        assert(buffers::buffer_of(*buf) =~= whole.subrange(
            header_len + payload_len,
            whole.len() as int,
        ));
        Ok(
            Some(
                Frame {
                    channel_id,
                    frame_type,
                    control: flags / 4 % 2 == 1,
                    encrypted: flags / 8 % 2 == 1,
                    total_length,
                    payload,
                },
            ),
        )
    }

    /// A bulk frame with a message: its number and its body. The control flag is
    /// not set; head units refuse it on channel 0.
    pub fn bulk_control(channel_id: u8, message_id: u16, body: &[u8]) -> (r: Frame)
        ensures
            r@ == bulk(channel_id, message_id, body@),
    {
        let mut payload: BytesMut = buffers::new_buffer();
        buffers::put_u16(&mut payload, message_id);
        buffers::put_slice(&mut payload, body);
        assert(buffers::buffer_of(payload) =~= octets::be16(message_id) + body@);
        Frame {
            channel_id,
            frame_type: FrameType::Bulk,
            control: false,
            encrypted: false,
            total_length: None,
            payload: buffers::freeze(payload),
        }
    }
}

/// A plaintext bulk frame with a message.
pub open spec fn bulk(channel_id: u8, message_id: u16, body: Seq<u8>) -> FrameView {
    FrameView {
        channel_id,
        frame_type: FrameType::Bulk,
        control: false,
        encrypted: false,
        total_length: None,
        payload: octets::be16(message_id) + body,
    }
}

/// What was encoded is what is parsed, whatever follows it: exactly the frame's
/// bytes are taken, and the frame is the same.
pub proof fn lemma_parse_inverts_encode(f: FrameView, rest: Seq<u8>)
    requires
        f.well_formed(),
    ensures
        frame_len(f.encoded() + rest) == Some(f.encoded().len() as int),
        frame_of(f.encoded() + rest) == f,
        (f.encoded() + rest).subrange(
            f.encoded().len() as int,
            (f.encoded() + rest).len() as int,
        ) == rest,
{
    let s = f.encoded() + rest;
    let n = f.payload.len() as u16;
    octets::lemma_be16_read_back(n);
    assert(s[2] == octets::be16(n)[0] && s[3] == octets::be16(n)[1]);
    assert(octets::be16_at(s, 2) == n);
    assert(type_of(f.flags()) == f.frame_type);
    if f.total_length is Some {
        let t = f.total_length->Some_0;
        octets::lemma_be32_read_back(t);
        assert(s[4] == octets::be32(t)[0] && s[5] == octets::be32(t)[1] && s[6] == octets::be32(
            t,
        )[2] && s[7] == octets::be32(t)[3]);
        assert(octets::be32_at(s, 4) == t);
    }
    assert(frame_of(s).payload =~= f.payload);
    assert(s.subrange(f.encoded().len() as int, s.len() as int) =~= rest);
}

/// A frame that is cut short is not parsed.
pub proof fn lemma_partial_frame(f: FrameView, n: int)
    requires
        f.well_formed(),
        0 <= n < f.encoded().len(),
    ensures
        frame_len(f.encoded().subrange(0, n)) is None,
{
    let s = f.encoded();
    let part = s.subrange(0, n);
    lemma_parse_inverts_encode(f, Seq::empty());
    assert(s + Seq::<u8>::empty() =~= s);
    if n >= 4 {
        assert(part[1] == s[1] && part[2] == s[2] && part[3] == s[3]);
        assert(octets::be16_at(part, 2) == octets::be16_at(s, 2));
    }
}

/// What stands where in a frame: the channel; the flags, of which the first two bits say
/// where in its message the frame stands, the third is for control and the fourth for
/// encryption; the length of the payload, high byte first; in the first of several
/// frames the length of the message; and the payload.
pub proof fn lemma_wire_layout(f: FrameView)
    requires
        f.well_formed(),
    ensures
        ({
            let s = f.encoded();
            let h: int = if f.frame_type is First {
                8
            } else {
                4
            };
            &&& s.len() == h + f.payload.len()
            &&& s[0] == f.channel_id
            &&& s[1] % 2 == 1 <==> f.frame_type is First || f.frame_type is Bulk
            &&& s[1] / 2 % 2 == 1 <==> f.frame_type is Last || f.frame_type is Bulk
            &&& s[1] / 4 % 2 == 1 <==> f.control
            &&& s[1] / 8 % 2 == 1 <==> f.encrypted
            &&& s[1] < 16
            &&& 256 * s[2] + s[3] == f.payload.len()
            &&& f.total_length matches Some(t) ==> 16777216 * s[4] + 65536 * s[5] + 256 * s[6] + s[7]
                == t
            &&& s.skip(h) == f.payload
        }),
{
    let s = f.encoded();
    let n = f.payload.len() as u16;
    assert(s[2] == octets::be16(n)[0] && s[3] == octets::be16(n)[1]);
    if f.total_length is Some {
        let t = f.total_length->Some_0;
        assert(s[4] == octets::be32(t)[0] && s[5] == octets::be32(t)[1] && s[6] == octets::be32(
            t,
        )[2] && s[7] == octets::be32(t)[3]);
        assert(s.skip(8) =~= f.payload);
    } else {
        assert(s.skip(4) =~= f.payload);
    }
}

/// A frame with a message is whole and in plain, and holds the message's number and
/// then its body.
pub proof fn lemma_bulk(channel_id: u8, message_id: u16, body: Seq<u8>)
    ensures
        ({
            let f = bulk(channel_id, message_id, body);
            &&& f.channel_id == channel_id
            &&& f.frame_type is Bulk
            &&& !f.control
            &&& !f.encrypted
            &&& f.total_length is None
            &&& octets::be16_at(f.payload, 0) == message_id
            &&& f.payload.skip(2) == body
        }),
{
    octets::lemma_be16_read_back(message_id);
    assert(bulk(channel_id, message_id, body).payload.skip(2) =~= body);
}

} // verus!
