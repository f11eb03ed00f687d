//! The state of the video stream.
//!
//! Every start and every stop begins a new generation; a streamer goes on as long
//! as its own generation is the current one. It sends a frame only while fewer
//! frames than allowed are unacknowledged.
use crate::buffers;
use crate::channels::video::source::{TestPatternProfile, VideoFrame};
use crate::channels::{Outbound, OutboundMessage};
use crate::octets;
use bytes::BytesMut;
use vstd::prelude::*;

verus! {

/// The number of a media message with a timestamp. Its body is the timestamp in
/// microseconds and the access unit.
pub const MSG_AV_MEDIA_WITH_TIMESTAMP_INDICATION: u16 = 0x0000;

/// The channel number before the car has named one. No channel of a car has it,
/// so nothing that the car sends is taken for a message of the video channel.
pub const NO_WIRE_CHANNEL: u8 = 255;

/// The state of the video stream.
#[derive(Debug, Clone, Copy, PartialEq, Eq, Structural)]
pub struct VideoPipeline {
    /// The current generation.
    pub generation: u64,
    /// The session that the car gave at the last start.
    pub session: i32,
    /// How many frames are sent and not acknowledged.
    pub in_flight: u32,
    /// How many frames may be sent and not acknowledged.
    pub max_in_flight: u32,
    /// The number that the car gave the video channel.
    pub wire: u8,
}

/// A streamer to start.
#[derive(Debug, Clone, Copy, PartialEq, Eq, Structural)]
pub struct StreamStart {
    /// The generation that it belongs to.
    pub generation: u64,
    /// What it replays.
    pub profile: TestPatternProfile,
}

/// What a streamer does next.
#[derive(Debug, Clone, Copy, PartialEq, Eq, Structural)]
pub enum StreamerStep {
    /// End: another generation has begun.
    Exit,
    /// Wait for an acknowledgement.
    Wait,
    /// Send the next frame.
    Send,
}

/// The number after `n`, from the start again after the last.
pub open spec fn following(n: u64) -> u64 {
    if n == u64::MAX {
        0
    } else {
        (n + 1) as u64
    }
}

/// What a pattern index of the car stands for.
pub open spec fn profile_of(config: u32) -> TestPatternProfile {
    if config == 0 {
        TestPatternProfile::P1080p30
    } else {
        TestPatternProfile::P720p30
    }
}

/// The state after a start.
pub open spec fn started(p: VideoPipeline, session: i32) -> VideoPipeline {
    VideoPipeline { generation: following(p.generation), session, in_flight: 0, ..p }
}

/// The state after a stop.
pub open spec fn stopped(p: VideoPipeline) -> VideoPipeline {
    VideoPipeline { generation: following(p.generation), in_flight: 0, ..p }
}

/// The state after an acknowledgement. One that comes too often changes nothing.
pub open spec fn acked(p: VideoPipeline) -> VideoPipeline {
    VideoPipeline {
        in_flight: if p.in_flight > 0 {
            (p.in_flight - 1) as u32
        } else {
            0
        },
        ..p
    }
}

/// The state after a frame was sent.
pub open spec fn sent(p: VideoPipeline) -> VideoPipeline {
    VideoPipeline {
        in_flight: if p.in_flight == u32::MAX {
            0
        } else {
            (p.in_flight + 1) as u32
        },
        ..p
    }
}

/// What a streamer of generation `mine` does next.
pub open spec fn next_step(p: VideoPipeline, mine: u64) -> StreamerStep {
    if p.generation != mine {
        StreamerStep::Exit
    } else if p.in_flight >= p.max_in_flight {
        StreamerStep::Wait
    } else {
        StreamerStep::Send
    }
}

/// The body of a media message.
pub open spec fn media_body(pts_us: u64, bytes: Seq<u8>) -> Seq<u8> {
    octets::be64(pts_us) + bytes
}

impl VideoPipeline {
    /// A stream that is not started, with this many frames allowed in flight.
    pub fn new(max_in_flight: u32) -> (r: Self)
        ensures
            r == (VideoPipeline {
                generation: 0,
                session: 0,
                in_flight: 0,
                max_in_flight,
                wire: NO_WIRE_CHANNEL,
            }),
    {
        VideoPipeline {
            generation: 0,
            session: 0,
            in_flight: 0,
            max_in_flight,
            wire: NO_WIRE_CHANNEL,
        }
    }

    /// Sets the channel number that frames go out on.
    pub fn set_wire_channel(&mut self, ch: u8)
        ensures
            *final(self) == (VideoPipeline { wire: ch, ..*old(self) }),
    {
        self.wire = ch;
    }

    /// The channel number that frames go out on.
    pub fn wire_channel(&self) -> (r: u8)
        ensures
            r == self.wire,
    {
        self.wire
    }

    /// Starts streaming. A streamer of an earlier generation ends.
    pub fn start(&mut self, session: i32, config: u32) -> (r: StreamStart)
        ensures
            *final(self) == started(*old(self), session),
            r == (StreamStart {
                generation: final(self).generation,
                profile: profile_of(config),
            }),
    {
        self.session = session;
        self.in_flight = 0;
        self.generation = self.generation.wrapping_add(1);
        let profile: TestPatternProfile = if config == 0 {
            TestPatternProfile::P1080p30
        } else {
            TestPatternProfile::P720p30
        };
        StreamStart { generation: self.generation, profile }
    }

    /// Stops streaming.
    pub fn stop(&mut self)
        ensures
            *final(self) == stopped(*old(self)),
    {
        self.generation = self.generation.wrapping_add(1);
        self.in_flight = 0;
    }

    /// Takes an acknowledgement.
    pub fn on_media_ack(&mut self)
        ensures
            *final(self) == acked(*old(self)),
    {
        if self.in_flight > 0 {
            self.in_flight = self.in_flight - 1;
        }
    }

    /// The session that the car gave at the last start.
    pub fn session_id(&self) -> (r: i32)
        ensures
            r == self.session,
    {
        self.session
    }

    /// What a streamer of generation `mine` does next.
    pub fn streamer_step(&self, mine: u64) -> (r: StreamerStep)
        ensures
            r == next_step(*self, mine),
    {
        if self.generation != mine {
            StreamerStep::Exit
        } else if self.in_flight >= self.max_in_flight {
            StreamerStep::Wait
        } else {
            StreamerStep::Send
        }
    }

    /// The message for a frame.
    pub fn media_message(&self, frame: &VideoFrame) -> (r: OutboundMessage)
        ensures
            r@ == (Outbound {
                channel: self.wire,
                message_id: MSG_AV_MEDIA_WITH_TIMESTAMP_INDICATION,
                payload: media_body(frame.pts_us, frame.annex_b@),
            }),
            r@.payload.len() == 8 + frame.annex_b@.len(),
            octets::be64_at(r@.payload, 0) == frame.pts_us,
            r@.payload.skip(8) == frame.annex_b@,
    {
        proof {
            lemma_media_read_back(frame.pts_us, frame.annex_b@);
        }
        let mut payload: BytesMut = buffers::new_buffer();
        buffers::put_u64(&mut payload, frame.pts_us);
        buffers::put_slice(&mut payload, frame.annex_b.as_slice());
        assert(buffers::buffer_of(payload) =~= media_body(frame.pts_us, frame.annex_b@));
        OutboundMessage::new(
            self.wire,
            MSG_AV_MEDIA_WITH_TIMESTAMP_INDICATION,
            buffers::freeze(payload),
        )
    }

    /// Counts a frame that was sent.
    pub fn frame_sent(&mut self)
        ensures
            *final(self) == sent(*old(self)),
    {
        self.in_flight = self.in_flight.wrapping_add(1);
    }
}

/// Flow control holds: a streamer that may send keeps the number of frames in
/// flight within what is allowed, and an acknowledgement makes room again.
pub proof fn lemma_flow_control(p: VideoPipeline, mine: u64)
    requires
        p.in_flight <= p.max_in_flight,
    ensures
        next_step(p, mine) is Send ==> sent(p).in_flight <= p.max_in_flight,
        acked(p).in_flight <= p.max_in_flight,
        stopped(p).in_flight == 0,
        next_step(p, mine) is Wait && p.max_in_flight > 0 ==> next_step(acked(p), mine) is Send,
{
}

/// A stop, and a new start, end every streamer that was running.
pub proof fn lemma_generations(p: VideoPipeline, session: i32)
    ensures
        next_step(stopped(p), p.generation) is Exit,
        next_step(started(p, session), p.generation) is Exit,
{
}

/// Whoever reads a media message finds the frame's timestamp in its first eight bytes,
/// and the access unit behind them.
pub proof fn lemma_media_read_back(pts_us: u64, bytes: Seq<u8>)
    ensures
        media_body(pts_us, bytes).len() == 8 + bytes.len(),
        octets::be64_at(media_body(pts_us, bytes), 0) == pts_us,
        media_body(pts_us, bytes).skip(8) == bytes,
{
    let body = media_body(pts_us, bytes);
    octets::lemma_be64_read_back(pts_us);
    assert(forall|i: int| 0 <= i < 8 ==> #[trigger] body[i] == octets::be64(pts_us)[i]);
    assert(body.skip(8) =~= bytes);
}

/// Frames with different timestamps, or with different bytes, make different messages.
pub proof fn lemma_media_is_told_apart(p: u64, q: u64, a: Seq<u8>, b: Seq<u8>)
    requires
        media_body(p, a) == media_body(q, b),
    ensures
        p == q,
        a == b,
{
    lemma_media_read_back(p, a);
    lemma_media_read_back(q, b);
}

/// An acknowledgement takes back one frame that was sent, and nothing else; a stream on
/// which no frame is out stays as it is.
pub proof fn lemma_acknowledged(p: VideoPipeline)
    ensures
        p.in_flight < u32::MAX ==> acked(sent(p)) == p,
        p.in_flight < u32::MAX ==> sent(p).in_flight == p.in_flight + 1,
        p.in_flight == 0 ==> acked(p) == p,
        p.in_flight > 0 ==> sent(acked(p)) == p,
{
}

/// A streamer sends exactly while its generation is the current one and fewer frames
/// than allowed are out; it waits exactly while the window is full, and it ends exactly
/// where another generation has begun.
pub proof fn lemma_streamer(p: VideoPipeline, mine: u64)
    ensures
        next_step(p, mine) is Send <==> p.generation == mine && p.in_flight < p.max_in_flight,
        next_step(p, mine) is Wait <==> p.generation == mine && p.max_in_flight <= p.in_flight,
        next_step(p, mine) is Exit <==> p.generation != mine,
{
}

/// A start opens the whole window to a streamer of its own generation, keeps the
/// channel and the window's size, and remembers the session; a stop keeps the session.
pub proof fn lemma_start(p: VideoPipeline, session: i32)
    ensures
        ({
            let s = started(p, session);
            &&& s.session == session
            &&& s.wire == p.wire
            &&& s.max_in_flight == p.max_in_flight
            &&& s.in_flight == 0
            &&& s.generation != p.generation
            &&& p.max_in_flight > 0 ==> next_step(s, s.generation) is Send
        }),
        ({
            let s = stopped(p);
            &&& s.session == p.session
            &&& s.wire == p.wire
            &&& s.max_in_flight == p.max_in_flight
            &&& s.in_flight == 0
            &&& s.generation != p.generation
            &&& s.generation == started(p, session).generation
        }),
{
}

/// Only the first of the car's picture formats is for the large pattern.
pub proof fn lemma_profiles(config: u32)
    ensures
        profile_of(config) is P1080p30 <==> config == 0,
        profile_of(config) is P720p30 <==> config != 0,
{
}

} // verus!
