//! The sound channels.
//!
//! | Channel | Sound  | Direction   | Format                |
//! |---------|--------|-------------|-----------------------|
//! | 4       | media  | to the car  | 48 kHz stereo, 16 bit |
//! | 5       | speech | from the car| 16 kHz stereo, 16 bit |
//! | 6       | system | from the car| 48 kHz stereo, 16 bit |
//!
//! A media message is a timestamp in microseconds and samples. Samples from the
//! car are taken while the channel is open and a sink is attached, and each frame
//! that is taken is acknowledged.
use crate::buffers;
use crate::channel_id;
use crate::channel_id::ChannelId;
use crate::channels;
use crate::channels::{HandleError, Outbound, OutboundMessage};
use crate::octets;
use crate::proto::enums;
use crate::proto::message;
use crate::proto::message::Message;
use crate::proto::messages::{
    AvChannelSetupRequest, AvChannelSetupResponse, AvChannelSetupResponseView,
    AvChannelStartIndication, AvInputOpenRequest, AvInputOpenResponse, AvMediaAckIndication,
};
use bytes::{Bytes, BytesMut};
use std::collections::HashMap;
use vstd::prelude::*;
use vstd::std_specs::hash::*;

verus! {

pub const MSG_AV_MEDIA_WITH_TIMESTAMP_INDICATION: u16 = 0x0000;

pub const MSG_AV_MEDIA_INDICATION: u16 = 0x0001;

pub const MSG_SETUP_REQUEST: u16 = 0x8000;

pub const MSG_START_INDICATION: u16 = 0x8001;

pub const MSG_STOP_INDICATION: u16 = 0x8002;

pub const MSG_SETUP_RESPONSE: u16 = 0x8003;

pub const MSG_AV_MEDIA_ACK_INDICATION: u16 = 0x8004;

pub const MSG_AV_INPUT_OPEN_REQUEST: u16 = 0x8005;

pub const MSG_AV_INPUT_OPEN_RESPONSE: u16 = 0x8006;

/// How many frames of sound may be unacknowledged.
pub const AUDIO_MAX_UNACKED: u32 = 10;

/// Which way sound goes.
#[derive(Debug, Clone, Copy, PartialEq, Eq, Structural)]
pub enum AudioDirection {
    /// To the car.
    Output,
    /// From the car.
    Input,
}

/// A format of samples.
#[derive(Debug, Clone, Copy, PartialEq, Eq, Structural)]
pub struct AudioFormat {
    pub sample_rate: u32,
    pub channels: u16,
    pub bit_depth: u16,
}

impl AudioFormat {
    pub fn new(sample_rate: u32, channels: u16, bit_depth: u16) -> (r: Self)
        ensures
            r == (AudioFormat { sample_rate, channels, bit_depth }),
    {
        AudioFormat { sample_rate, channels, bit_depth }
    }

    /// How many bytes a sample takes in all channels together.
    pub fn bytes_per_sample(&self) -> (r: usize)
        ensures
            r == self.bit_depth as int / 8 * self.channels,
    {
        proof {
            let a: int = self.bit_depth as int / 8;
            let b: int = self.channels as int;
            assert(a * b <= 8191 * 65535) by (nonlinear_arith)
                requires
                    0 <= a <= 8191,
                    0 <= b <= 65535,
            ;
        }
        (self.bit_depth as usize / 8) * self.channels as usize
    }
}

/// A run of samples.
#[derive(Debug)]
pub struct AudioFrame {
    /// Microseconds since the stream began.
    pub timestamp_us: u64,
    /// Samples, interleaved and little-endian.
    pub pcm: Bytes,
}

/// What a run of samples is.
#[verifier::ext_equal]
pub struct Samples {
    pub timestamp_us: u64,
    pub pcm: Seq<u8>,
}

impl View for AudioFrame {
    type V = Samples;

    open spec fn view(&self) -> Samples {
        Samples { timestamp_us: self.timestamp_us, pcm: buffers::bytes_of(self.pcm) }
    }
}

impl Clone for AudioFrame {
    fn clone(&self) -> (r: Self)
        ensures
            r@ == self@,
    {
        AudioFrame { timestamp_us: self.timestamp_us, pcm: self.pcm.clone() }
    }
}

/// The format of a sound channel.
pub open spec fn format_of(channel: ChannelId) -> Option<AudioFormat> {
    match channel {
        ChannelId::MediaAudio => Some(
            AudioFormat { sample_rate: 48_000, channels: 2, bit_depth: 16 },
        ),
        ChannelId::SpeechAudio => Some(
            AudioFormat { sample_rate: 16_000, channels: 2, bit_depth: 16 },
        ),
        ChannelId::SystemAudio => Some(
            AudioFormat { sample_rate: 48_000, channels: 2, bit_depth: 16 },
        ),
        _ => None,
    }
}

/// Which way the sound of a channel goes.
pub open spec fn way_of(channel: ChannelId) -> Option<AudioDirection> {
    match channel {
        ChannelId::MediaAudio => Some(AudioDirection::Output),
        ChannelId::SpeechAudio | ChannelId::SystemAudio => Some(AudioDirection::Input),
        _ => None,
    }
}

/// The format of a sound channel.
pub fn default_format(channel: ChannelId) -> (r: Option<AudioFormat>)
    ensures
        r == format_of(channel),
{
    match channel {
        ChannelId::MediaAudio => Some(AudioFormat::new(48_000, 2, 16)),
        ChannelId::SpeechAudio => Some(AudioFormat::new(16_000, 2, 16)),
        ChannelId::SystemAudio => Some(AudioFormat::new(48_000, 2, 16)),
        _ => None,
    }
}

/// Which way the sound of a channel goes.
pub fn direction_of(channel: ChannelId) -> (r: Option<AudioDirection>)
    ensures
        r == way_of(channel),
{
    match channel {
        ChannelId::MediaAudio => Some(AudioDirection::Output),
        ChannelId::SpeechAudio | ChannelId::SystemAudio => Some(AudioDirection::Input),
        _ => None,
    }
}

/// What a channel is called in the name of its log.
pub open spec fn tag_of(channel: ChannelId) -> Seq<char> {
    match channel {
        ChannelId::MediaAudio => "media"@,
        ChannelId::SpeechAudio => "speech"@,
        ChannelId::SystemAudio => "system"@,
        _ => "other"@,
    }
}

fn channel_log_tag(channel: ChannelId) -> (r: &'static str)
    ensures
        r@ == tag_of(channel),
{
    match channel {
        ChannelId::MediaAudio => "media",
        ChannelId::SpeechAudio => "speech",
        ChannelId::SystemAudio => "system",
        _ => "other",
    }
}

/// Where the samples of a channel are logged.
pub fn log_path(channel: ChannelId) -> (r: String)
    ensures
        r@ == "/data/local/tmp/aabox-audio-"@ + tag_of(channel) + ".bin"@,
{
    let mut path: String = "/data/local/tmp/aabox-audio-".to_string();
    path.append(channel_log_tag(channel));
    path.append(".bin");
    path
}

/// A log of samples: how much of it is written.
#[derive(Debug, Clone, Copy, PartialEq, Eq, Structural)]
pub struct LogTally {
    /// How many bytes of samples.
    pub bytes_written: u64,
    /// How many frames.
    pub frames_written: u64,
}

/// The record of a frame in a log: its timestamp, its length and its samples.
pub open spec fn record_of(frame: Samples) -> Seq<u8> {
    octets::be64(frame.timestamp_us) + octets::be32(octets::low32(frame.pcm.len() as int))
        + frame.pcm
}

/// The record of a frame in a log.
pub fn log_record(frame: &AudioFrame) -> (r: Vec<u8>)
    ensures
        r@ == record_of(frame@),
{
    let pcm: &[u8] = buffers::slice_of(&frame.pcm);
    let mut out: Vec<u8> = Vec::new();
    octets::push_be64(&mut out, frame.timestamp_us);
    octets::push_be32(&mut out, octets::low32_of(pcm.len()));
    octets::push_all(&mut out, pcm);
    assert(out@ =~= record_of(frame@));
    out
}

impl LogTally {
    /// The tally of an empty log.
    pub fn new() -> (r: Self)
        ensures
            r == (LogTally { bytes_written: 0, frames_written: 0 }),
    {
        LogTally { bytes_written: 0, frames_written: 0 }
    }

    /// Counts a frame that was written.
    pub fn count(&mut self, frame: &AudioFrame)
        requires
            old(self).frames_written < u64::MAX,
            old(self).bytes_written + frame@.pcm.len() <= u64::MAX,
        ensures
            final(self).frames_written == old(self).frames_written + 1,
            final(self).bytes_written == old(self).bytes_written + frame@.pcm.len(),
    {
        self.frames_written = self.frames_written + 1;
        self.bytes_written = self.bytes_written + buffers::slice_of(&frame.pcm).len() as u64;
    }
}

/// A tone, as a plan of its frames.
#[derive(Debug, Clone, Copy, PartialEq, Eq, Structural)]
pub struct TestToneSource {
    pub format: AudioFormat,
    /// The number of the next sample.
    pub sample_idx: u64,
    /// How many samples a frame has in each channel.
    pub samples_per_frame: u32,
    /// How many frames there are.
    pub max_frames: u64,
    /// How many frames have gone out.
    pub frames_emitted: u64,
}

/// Which samples of a tone a frame has.
#[derive(Debug, Clone, Copy, PartialEq, Eq, Structural)]
pub struct ToneFrame {
    /// The number of the first sample.
    pub first_sample: u64,
    /// How many samples there are in each channel.
    pub samples: u32,
}

/// At least one.
pub open spec fn at_least_one(n: u32) -> u32 {
    if n == 0 {
        1
    } else {
        n
    }
}

impl TestToneSource {
    /// A tone without end, in frames of a fiftieth of a second.
    pub fn new(format: AudioFormat) -> (r: Self)
        ensures
            r == (TestToneSource {
                format,
                sample_idx: 0,
                samples_per_frame: at_least_one((format.sample_rate / 50) as u32),
                max_frames: u64::MAX,
                frames_emitted: 0,
            }),
            format.sample_rate >= 50 ==> 50 * r.samples_per_frame <= format.sample_rate < 50 * (
            r.samples_per_frame + 1),
            r.samples_per_frame > 0,
    {
        let per_frame: u32 = format.sample_rate / 50;
        TestToneSource {
            format,
            sample_idx: 0,
            samples_per_frame: if per_frame == 0 {
                1
            } else {
                per_frame
            },
            max_frames: u64::MAX,
            frames_emitted: 0,
        }
    }

    /// The same tone with an end after this many frames.
    pub fn with_limit(self, frames: u64) -> (r: Self)
        ensures
            r == (TestToneSource { max_frames: frames, ..self }),
    {
        TestToneSource { max_frames: frames, ..self }
    }

    /// The same tone in frames of this many samples in each channel.
    pub fn with_frame_size(self, samples_per_frame: u32) -> (r: Self)
        ensures
            r == (TestToneSource { samples_per_frame: at_least_one(samples_per_frame), ..self }),
    {
        TestToneSource {
            samples_per_frame: if samples_per_frame == 0 {
                1
            } else {
                samples_per_frame
            },
            ..self
        }
    }

    /// The next frame, until the limit is reached.
    pub fn next_frame(&mut self) -> (r: Option<ToneFrame>)
        requires
            old(self).sample_idx + old(self).samples_per_frame <= u64::MAX,
        ensures
            if old(self).frames_emitted >= old(self).max_frames {
                r is None && *final(self) == *old(self)
            } else {
                &&& r == Some(
                    ToneFrame {
                        first_sample: old(self).sample_idx,
                        samples: old(self).samples_per_frame,
                    },
                )
                &&& *final(self) == (TestToneSource {
                    sample_idx: (old(self).sample_idx + old(self).samples_per_frame) as u64,
                    frames_emitted: (old(self).frames_emitted + 1) as u64,
                    ..*old(self)
                })
            },
            r matches Some(frame) ==> frame.first_sample == old(self).sample_idx
                && final(self).sample_idx == frame.first_sample + frame.samples,
            r is Some <==> old(self).frames_emitted < old(self).max_frames,
            r is Some ==> final(self).frames_emitted == old(self).frames_emitted + 1,
    {
        if self.frames_emitted >= self.max_frames {
            return None;
        }
        let plan = ToneFrame {
            first_sample: self.sample_idx,
            samples: self.samples_per_frame,
        };
        self.frames_emitted = self.frames_emitted + 1;
        self.sample_idx = self.sample_idx + self.samples_per_frame as u64;
        Some(plan)
    }
}

/// Samples in all channels, little-endian: each sample once for every channel.
pub open spec fn interleaved(samples: Seq<u16>, channels: nat) -> Seq<u8>
    decreases samples.len(),
{
    if samples.len() == 0 {
        Seq::empty()
    } else {
        interleaved(samples.drop_last(), channels) + repeated_sample(samples.last(), channels)
    }
}

/// A sample once for every channel.
pub open spec fn repeated_sample(sample: u16, channels: nat) -> Seq<u8>
    decreases channels,
{
    if channels == 0 {
        Seq::empty()
    } else {
        repeated_sample(sample, (channels - 1) as nat) + octets::le16(sample)
    }
}

/// The bytes of a run of samples that is the same in all channels. A sample is
/// given as its sixteen bits.
pub fn interleave(samples: &Vec<u16>, channels: u16) -> (r: Vec<u8>)
    ensures
        r@ == interleaved(samples@, channels as nat),
{
    let mut out: Vec<u8> = Vec::new();
    let mut i: usize = 0;
    assert(samples@.take(0) =~= Seq::<u16>::empty());
    while i < samples.len()
        invariant
            i <= samples.len(),
            out@ == interleaved(samples@.take(i as int), channels as nat),
        decreases samples.len() - i,
    {
        let ghost before = out@;
        let sample: u16 = samples[i];
        let mut c: u16 = 0;
        assert(before + Seq::<u8>::empty() =~= before);
        while c < channels
            invariant
                c <= channels,
                out@ == before + repeated_sample(sample, c as nat),
            decreases channels - c,
        {
            octets::push_le16(&mut out, sample);
            assert(out@ =~= before + repeated_sample(sample, (c + 1) as nat));
            c += 1;
        }
        assert(samples@.take(i + 1).drop_last() =~= samples@.take(i as int));
        i += 1;
    }
    assert(samples@.take(samples@.len() as int) =~= samples@);
    out
}

/// How many bytes interleaved samples take.
pub proof fn lemma_interleaved_len(samples: Seq<u16>, channels: nat)
    ensures
        interleaved(samples, channels).len() == samples.len() * channels * 2,
    decreases samples.len(),
{
    if samples.len() > 0 {
        lemma_interleaved_len(samples.drop_last(), channels);
        lemma_repeated_len(samples.last(), channels);
        let n: int = samples.len() as int;
        let c: int = channels as int;
        assert((n - 1) * c * 2 + c * 2 == n * c * 2) by (nonlinear_arith);
    }
}

proof fn lemma_repeated_len(sample: u16, channels: nat)
    ensures
        repeated_sample(sample, channels).len() == channels * 2,
    decreases channels,
{
    if channels > 0 {
        lemma_repeated_len(sample, (channels - 1) as nat);
    }
}

/// The samples in a media message.
pub open spec fn decoded(payload: Seq<u8>, with_timestamp: bool) -> Result<Samples, HandleError> {
    if !with_timestamp {
        Ok(Samples { timestamp_us: 0, pcm: payload })
    } else if payload.len() < 8 {
        Err(HandleError::TimestampMissing)
    } else {
        Ok(Samples { timestamp_us: octets::be64_at(payload, 0), pcm: payload.skip(8) })
    }
}

/// Reads media messages from the car.
#[derive(Debug, Clone, Copy, PartialEq, Eq, Structural)]
pub struct MediaInboundDecoder {
    pub format: AudioFormat,
}

impl MediaInboundDecoder {
    pub fn new(format: AudioFormat) -> (r: Self)
        ensures
            r == (MediaInboundDecoder { format }),
    {
        MediaInboundDecoder { format }
    }

    /// The samples in a media message, with or without a timestamp.
    pub fn decode(&self, payload: &[u8], with_timestamp: bool) -> (r: Result<
        AudioFrame,
        HandleError,
    >)
        ensures
            match decoded(payload@, with_timestamp) {
                Ok(frame) => r matches Ok(f) && f@ == frame,
                Err(e) => r matches Err(x) && x == e,
            },
    {
        if !with_timestamp {
            return Ok(AudioFrame { timestamp_us: 0, pcm: buffers::copy_from_slice(payload) });
        }
        if payload.len() < 8 {
            return Err(HandleError::TimestampMissing);
        }
        let timestamp_us: u64 = octets::read_be64(payload, 0);
        let pcm: Bytes = buffers::copy_from_slice(&payload[8..payload.len()]);
        assert(buffers::bytes_of(pcm) =~= payload@.skip(8));
        Ok(AudioFrame { timestamp_us, pcm })
    }
}

/// The media message for a run of samples.
pub open spec fn media_of(channel: u8, frame: Samples) -> Outbound {
    Outbound {
        channel,
        message_id: MSG_AV_MEDIA_WITH_TIMESTAMP_INDICATION,
        payload: octets::be64(frame.timestamp_us) + frame.pcm,
    }
}

/// The media message for a run of samples.
pub fn encode_outbound_frame(channel: ChannelId, frame: &AudioFrame) -> (r: OutboundMessage)
    ensures
        r@ == media_of(channel_id::channel_code(channel), frame@),
{
    let mut buf: BytesMut = buffers::new_buffer();
    buffers::put_u64(&mut buf, frame.timestamp_us);
    buffers::put_slice(&mut buf, buffers::slice_of(&frame.pcm));
    assert(buffers::buffer_of(buf) =~= media_of(
        channel_id::channel_code(channel),
        frame@,
    ).payload);
    OutboundMessage::new(
        channel.code(),
        MSG_AV_MEDIA_WITH_TIMESTAMP_INDICATION,
        buffers::freeze(buf),
    )
}

/// The samples that go into a media message come out of it.
pub proof fn lemma_media_round_trip(channel: u8, frame: Samples)
    ensures
        decoded(media_of(channel, frame).payload, true) == Ok::<Samples, HandleError>(frame),
{
    let payload = media_of(channel, frame).payload;
    octets::lemma_be64_read_back(frame.timestamp_us);
    assert(forall|i: int|
        0 <= i < 8 ==> #[trigger] payload[i] == octets::be64(frame.timestamp_us)[i]);
    assert(octets::be64_at(payload, 0) == frame.timestamp_us);
    assert(payload.skip(8) =~= frame.pcm);
}

/// The state of a sound channel.
#[derive(Debug, Clone, Copy, PartialEq, Eq, Structural)]
pub struct AudioChannelState {
    pub direction: AudioDirection,
    pub format: AudioFormat,
    /// Whether a sink takes the samples from the car.
    pub sink: bool,
    /// Whether an encoder sends samples to the car.
    pub pumping: bool,
    /// The session that the car gave at the last start.
    pub session: i32,
    /// Whether the channel is open.
    pub started: bool,
}

/// What is to be done about a message of a sound channel, besides the answer.
#[derive(Debug)]
pub enum AudioAction {
    Nothing,
    /// Start an encoder; if `replace`, end the one that runs first.
    StartEncoder { channel: ChannelId, format: AudioFormat, replace: bool },
    /// End the encoder, if one runs, and flush the sink, if there is one.
    Stop { end_encoder: bool, flush_sink: bool },
    /// Attach a sink.
    AttachSink { channel: ChannelId, format: AudioFormat },
    /// Hand samples to the sink.
    Push(AudioFrame),
}

/// What an action is.
pub enum Deed {
    Nothing,
    StartEncoder { channel: ChannelId, format: AudioFormat, replace: bool },
    Stop { end_encoder: bool, flush_sink: bool },
    AttachSink { channel: ChannelId, format: AudioFormat },
    Push(Samples),
}

impl View for AudioAction {
    type V = Deed;

    open spec fn view(&self) -> Deed {
        match *self {
            AudioAction::Nothing => Deed::Nothing,
            AudioAction::StartEncoder { channel, format, replace } => Deed::StartEncoder {
                channel,
                format,
                replace,
            },
            AudioAction::Stop { end_encoder, flush_sink } => Deed::Stop { end_encoder, flush_sink },
            AudioAction::AttachSink { channel, format } => Deed::AttachSink { channel, format },
            AudioAction::Push(frame) => Deed::Push(frame@),
        }
    }
}

/// What is to be done about a message of a sound channel.
#[derive(Debug)]
pub struct AudioStep {
    /// The messages to send back.
    pub replies: Vec<OutboundMessage>,
    /// What else is to be done.
    pub action: AudioAction,
}

/// The answer to a request to set a sound channel up.
pub open spec fn setup_granted(channel: u8) -> Outbound {
    channels::said_on::<AvChannelSetupResponse>(
        channel,
        MSG_SETUP_RESPONSE,
        AvChannelSetupResponseView {
            media_status: enums::AV_CHANNEL_SETUP_STATUS_OK,
            max_unacked: AUDIO_MAX_UNACKED,
            configs: seq![0u32],
        },
    )
}

/// The answer to a request to open or close the microphone.
pub open spec fn open_granted(channel: u8) -> Outbound {
    channels::said_on::<AvInputOpenResponse>(
        channel,
        MSG_AV_INPUT_OPEN_RESPONSE,
        AvInputOpenResponse { session: 0, value: 0 },
    )
}

/// The acknowledgement of a frame.
pub open spec fn frame_acked(channel: u8, session: i32) -> Outbound {
    channels::said_on::<AvMediaAckIndication>(
        channel,
        MSG_AV_MEDIA_ACK_INDICATION,
        AvMediaAckIndication { session, value: 1 },
    )
}

/// A sound channel of which nothing has been heard yet.
pub open spec fn fresh(cid: ChannelId) -> AudioChannelState {
    AudioChannelState {
        direction: way_of(cid)->Some_0,
        format: format_of(cid)->Some_0,
        sink: false,
        pumping: false,
        session: 0,
        started: false,
    }
}

/// What becomes of a sound channel, what is answered and what else is done.
pub open spec fn heard(
    st: AudioChannelState,
    cid: ChannelId,
    msg_id: u16,
    payload: Seq<u8>,
) -> (AudioChannelState, Result<(Seq<Outbound>, Deed), HandleError>) {
    let channel = channel_id::channel_code(cid);
    if msg_id == MSG_SETUP_REQUEST {
        match message::message_of::<AvChannelSetupRequest>(payload) {
            Some(_) => (st, Ok((seq![setup_granted(channel)], Deed::Nothing))),
            None => (st, Err(HandleError::SetupRequest)),
        }
    } else if msg_id == MSG_START_INDICATION {
        match message::message_of::<AvChannelStartIndication>(payload) {
            Some(ind) => {
                let open = AudioChannelState { session: ind.session, started: true, ..st };
                match st.direction {
                    AudioDirection::Output => (
                        AudioChannelState { pumping: true, ..open },
                        Ok(
                            (
                                Seq::empty(),
                                Deed::StartEncoder {
                                    channel: cid,
                                    format: st.format,
                                    replace: st.pumping,
                                },
                            ),
                        ),
                    ),
                    AudioDirection::Input => (open, Ok((Seq::empty(), Deed::Nothing))),
                }
            },
            None => (st, Err(HandleError::StartIndication)),
        }
    } else if msg_id == MSG_STOP_INDICATION {
        (
            AudioChannelState { started: false, pumping: false, ..st },
            Ok((Seq::empty(), Deed::Stop { end_encoder: st.pumping, flush_sink: st.sink })),
        )
    } else if msg_id == MSG_AV_INPUT_OPEN_REQUEST {
        match message::message_of::<AvInputOpenRequest>(payload) {
            Some(req) => (
                AudioChannelState { sink: true, started: req.open, ..st },
                Ok(
                    (
                        seq![open_granted(channel)],
                        if st.sink {
                            Deed::Nothing
                        } else {
                            Deed::AttachSink { channel: cid, format: st.format }
                        },
                    ),
                ),
            ),
            None => (st, Err(HandleError::InputOpenRequest)),
        }
    } else if msg_id == MSG_AV_MEDIA_WITH_TIMESTAMP_INDICATION || msg_id
        == MSG_AV_MEDIA_INDICATION {
        if st.started && st.sink {
            match decoded(payload, msg_id == MSG_AV_MEDIA_WITH_TIMESTAMP_INDICATION) {
                Ok(frame) => (
                    st,
                    Ok((seq![frame_acked(channel, st.session)], Deed::Push(frame))),
                ),
                Err(e) => (st, Err(e)),
            }
        } else {
            (st, Ok((Seq::empty(), Deed::Nothing)))
        }
    } else {
        (st, Ok((Seq::empty(), Deed::Nothing)))
    }
}

/// Whether a handler's result is the one expected.
pub open spec fn audio_answers(
    r: Result<AudioStep, HandleError>,
    expected: Result<(Seq<Outbound>, Deed), HandleError>,
) -> bool {
    match expected {
        Ok((replies, deed)) => r matches Ok(step) && channels::flight(step.replies@) == replies
            && step.action@ == deed,
        Err(e) => r matches Err(x) && x == e,
    }
}

/// The states of the sound channels, and what becomes of them.
pub open spec fn all_heard(
    states: Map<u8, AudioChannelState>,
    channel: u8,
    msg_id: u16,
    payload: Seq<u8>,
) -> (Map<u8, AudioChannelState>, Result<(Seq<Outbound>, Deed), HandleError>) {
    match channel_id::channel_of(channel) {
        Ok(cid) => if way_of(cid) is Some {
            let st = if states.contains_key(channel) {
                states[channel]
            } else {
                fresh(cid)
            };
            let (after, answer) = heard(st, cid, msg_id, payload);
            (states.insert(channel, after), answer)
        } else {
            (states, Ok((Seq::empty(), Deed::Nothing)))
        },
        Err(_) => (states, Ok((Seq::empty(), Deed::Nothing))),
    }
}

fn nothing() -> (r: AudioStep)
    ensures
        channels::flight(r.replies@) == Seq::<Outbound>::empty(),
        r.action@ == Deed::Nothing,
{
    AudioStep { replies: channels::silence(), action: AudioAction::Nothing }
}

fn setup_response(channel: u8) -> (r: OutboundMessage)
    ensures
        r@ == setup_granted(channel),
{
    let configs: Vec<u32> = vec![0];
    assert(configs@ =~= seq![0u32]);
    let resp = AvChannelSetupResponse {
        media_status: enums::AV_CHANNEL_SETUP_STATUS_OK,
        max_unacked: AUDIO_MAX_UNACKED,
        configs,
    };
    channels::encode_outbound(channel, MSG_SETUP_RESPONSE, &resp)
}

fn open_response(channel: u8) -> (r: OutboundMessage)
    ensures
        r@ == open_granted(channel),
{
    let resp = AvInputOpenResponse { session: 0, value: 0 };
    channels::encode_outbound(channel, MSG_AV_INPUT_OPEN_RESPONSE, &resp)
}

impl AudioChannelState {
    fn on_setup_request(&self, cid: ChannelId, payload: &[u8]) -> (r: Result<
        AudioStep,
        HandleError,
    >)
        ensures
            audio_answers(r, heard(*self, cid, MSG_SETUP_REQUEST, payload@).1),
    {
        match AvChannelSetupRequest::decode(payload) {
            Ok(_) => Ok(
                AudioStep {
                    replies: channels::single(setup_response(cid.code())),
                    action: AudioAction::Nothing,
                },
            ),
            Err(_) => Err(HandleError::SetupRequest),
        }
    }

    fn on_start_indication(&mut self, cid: ChannelId, payload: &[u8]) -> (r: Result<
        AudioStep,
        HandleError,
    >)
        ensures
            *final(self) == heard(*old(self), cid, MSG_START_INDICATION, payload@).0,
            audio_answers(r, heard(*old(self), cid, MSG_START_INDICATION, payload@).1),
    {
        match AvChannelStartIndication::decode(payload) {
            Ok(ind) => {
                self.session = ind.session;
                self.started = true;
                match self.direction {
                    AudioDirection::Output => {
                        let replace: bool = self.pumping;
                        self.pumping = true;
                        Ok(
                            AudioStep {
                                replies: channels::silence(),
                                action: AudioAction::StartEncoder {
                                    channel: cid,
                                    format: self.format,
                                    replace,
                                },
                            },
                        )
                    },
                    AudioDirection::Input => Ok(nothing()),
                }
            },
            Err(_) => Err(HandleError::StartIndication),
        }
    }

    fn on_stop_indication(&mut self, cid: ChannelId, payload: &[u8]) -> (r: Result<
        AudioStep,
        HandleError,
    >)
        ensures
            *final(self) == heard(*old(self), cid, MSG_STOP_INDICATION, payload@).0,
            audio_answers(r, heard(*old(self), cid, MSG_STOP_INDICATION, payload@).1),
    {
        let action = AudioAction::Stop { end_encoder: self.pumping, flush_sink: self.sink };
        self.started = false;
        self.pumping = false;
        Ok(AudioStep { replies: channels::silence(), action })
    }

    fn on_input_open(&mut self, cid: ChannelId, payload: &[u8]) -> (r: Result<
        AudioStep,
        HandleError,
    >)
        ensures
            *final(self) == heard(*old(self), cid, MSG_AV_INPUT_OPEN_REQUEST, payload@).0,
            audio_answers(r, heard(*old(self), cid, MSG_AV_INPUT_OPEN_REQUEST, payload@).1),
    {
        match AvInputOpenRequest::decode(payload) {
            Ok(req) => {
                let action: AudioAction = if self.sink {
                    AudioAction::Nothing
                } else {
                    AudioAction::AttachSink { channel: cid, format: self.format }
                };
                self.sink = true;
                self.started = req.open;
                Ok(AudioStep { replies: channels::single(open_response(cid.code())), action })
            },
            Err(_) => Err(HandleError::InputOpenRequest),
        }
    }

    fn on_data_frame(&self, cid: ChannelId, payload: &[u8], with_timestamp: bool) -> (r: Result<
        AudioStep,
        HandleError,
    >)
        ensures
            audio_answers(
                r,
                heard(
                    *self,
                    cid,
                    if with_timestamp {
                        MSG_AV_MEDIA_WITH_TIMESTAMP_INDICATION
                    } else {
                        MSG_AV_MEDIA_INDICATION
                    },
                    payload@,
                ).1,
            ),
    {
        if !self.started || !self.sink {
            return Ok(nothing());
        }
        match MediaInboundDecoder::new(self.format).decode(payload, with_timestamp) {
            Ok(frame) => {
                let ack = AvMediaAckIndication { session: self.session, value: 1 };
                let reply: OutboundMessage = channels::encode_outbound(
                    cid.code(),
                    MSG_AV_MEDIA_ACK_INDICATION,
                    &ack,
                );
                Ok(AudioStep { replies: channels::single(reply), action: AudioAction::Push(frame) })
            },
            Err(e) => Err(e),
        }
    }
}

/// The states of the sound channels.
#[derive(Debug)]
pub struct AudioChannelManager {
    pub channels: HashMap<u8, AudioChannelState>,
}

impl AudioChannelManager {
    pub fn new() -> (r: Self)
        ensures
            r.channels@ == Map::<u8, AudioChannelState>::empty(),
    {
        AudioChannelManager { channels: HashMap::new() }
    }

    /// The state of a channel, or that of one of which nothing has been heard.
    fn state_of(&self, cid: ChannelId, direction: AudioDirection, format: AudioFormat) -> (r:
        AudioChannelState)
        requires
            way_of(cid) == Some(direction),
            format_of(cid) == Some(format),
        ensures
            r == if self.channels@.contains_key(channel_id::channel_code(cid)) {
                self.channels@[channel_id::channel_code(cid)]
            } else {
                fresh(cid)
            },
    {
        broadcast use group_hash_axioms;

        match self.channels.get(&cid.code()) {
            Some(st) => *st,
            None => AudioChannelState {
                direction,
                format,
                sink: false,
                pumping: false,
                session: 0,
                started: false,
            },
        }
    }

    /// Handles a message of a sound channel; `payload` is what follows its number.
    /// A message of another channel is ignored.
    pub fn handle(&mut self, channel: u8, msg_id: u16, payload: &[u8]) -> (r: Result<
        AudioStep,
        HandleError,
    >)
        ensures
            final(self).channels@ == all_heard(
                old(self).channels@,
                channel,
                msg_id,
                payload@,
            ).0,
            audio_answers(r, all_heard(old(self).channels@, channel, msg_id, payload@).1),
    {
        broadcast use group_hash_axioms;

        let cid: ChannelId = match ChannelId::try_from(channel) {
            Ok(cid) => cid,
            Err(_) => {
                return Ok(nothing());
            },
        };
        proof {
            channel_id::lemma_channel_codes(cid, channel);
        }
        let (direction, format) = match (direction_of(cid), default_format(cid)) {
            (Some(direction), Some(format)) => (direction, format),
            _ => {
                return Ok(nothing());
            },
        };
        let mut st: AudioChannelState = self.state_of(cid, direction, format);
        let answer: Result<AudioStep, HandleError> = match msg_id {
            MSG_SETUP_REQUEST => st.on_setup_request(cid, payload),
            MSG_START_INDICATION => st.on_start_indication(cid, payload),
            MSG_STOP_INDICATION => st.on_stop_indication(cid, payload),
            MSG_AV_INPUT_OPEN_REQUEST => st.on_input_open(cid, payload),
            MSG_AV_MEDIA_WITH_TIMESTAMP_INDICATION => st.on_data_frame(cid, payload, true),
            MSG_AV_MEDIA_INDICATION => st.on_data_frame(cid, payload, false),
            _ => Ok(nothing()),
        };
        self.channels.insert(channel, st);
        answer
    }
}

/// What is answered on a sound channel without a state.
pub open spec fn fallback(channel: u8, msg_id: u16, payload: Seq<u8>) -> Result<
    Seq<Outbound>,
    HandleError,
> {
    if msg_id == MSG_SETUP_REQUEST {
        match message::message_of::<AvChannelSetupRequest>(payload) {
            Some(_) => Ok(seq![setup_granted(channel)]),
            None => Err(HandleError::SetupRequest),
        }
    } else if msg_id == MSG_AV_INPUT_OPEN_REQUEST {
        Ok(seq![open_granted(channel)])
    } else {
        Ok(Seq::empty())
    }
}

/// Handles a message of a sound channel without a state: requests are granted, and
/// everything else is taken without an answer.
pub fn handle(channel: u8, msg_id: u16, payload: &[u8]) -> (r: Result<
    Vec<OutboundMessage>,
    HandleError,
>)
    ensures
        channels::answers(r, fallback(channel, msg_id, payload@)),
{
    match msg_id {
        MSG_SETUP_REQUEST => match AvChannelSetupRequest::decode(payload) {
            Ok(_) => Ok(channels::single(setup_response(channel))),
            Err(_) => Err(HandleError::SetupRequest),
        },
        MSG_AV_INPUT_OPEN_REQUEST => Ok(channels::single(open_response(channel))),
        _ => Ok(channels::silence()),
    }
}

/// Samples are dropped, and not acknowledged, before a channel is open and after
/// it is stopped.
pub proof fn lemma_closed_channel_drops(
    st: AudioChannelState,
    cid: ChannelId,
    msg_id: u16,
    payload: Seq<u8>,
    stop: Seq<u8>,
)
    requires
        msg_id == MSG_AV_MEDIA_WITH_TIMESTAMP_INDICATION || msg_id == MSG_AV_MEDIA_INDICATION,
    ensures
        !st.started ==> heard(st, cid, msg_id, payload) == (
            st,
            Ok::<(Seq<Outbound>, Deed), HandleError>((Seq::empty(), Deed::Nothing)),
        ),
        ({
            let after = heard(st, cid, MSG_STOP_INDICATION, stop).0;
            heard(after, cid, msg_id, payload) == (
                after,
                Ok::<(Seq<Outbound>, Deed), HandleError>((Seq::empty(), Deed::Nothing)),
            )
        }),
{
}

/// After the car has opened the microphone, every frame that can be read goes to
/// the sink and is acknowledged once.
pub proof fn lemma_open_channel_takes(
    st: AudioChannelState,
    cid: ChannelId,
    open: Seq<u8>,
    payload: Seq<u8>,
)
    requires
        message::message_of::<AvInputOpenRequest>(open) matches Some(req) && req.open,
        payload.len() >= 8,
    ensures
        ({
            let after = heard(st, cid, MSG_AV_INPUT_OPEN_REQUEST, open).0;
            heard(after, cid, MSG_AV_MEDIA_WITH_TIMESTAMP_INDICATION, payload) == (
                after,
                Ok::<(Seq<Outbound>, Deed), HandleError>(
                    (
                        seq![frame_acked(channel_id::channel_code(cid), st.session)],
                        Deed::Push(
                            Samples {
                                timestamp_us: octets::be64_at(payload, 0),
                                pcm: payload.skip(8),
                            },
                        ),
                    ),
                ),
            )
        }),
{
}

/// A message to one sound channel leaves the others as they are.
pub proof fn lemma_other_channels_kept(
    states: Map<u8, AudioChannelState>,
    channel: u8,
    msg_id: u16,
    payload: Seq<u8>,
    other: u8,
)
    requires
        other != channel,
    ensures
        all_heard(states, channel, msg_id, payload).0.contains_key(other) == states.contains_key(
            other,
        ),
        states.contains_key(other) ==> all_heard(states, channel, msg_id, payload).0[other]
            == states[other],
{
}

/// After the car has closed the microphone, whatever the state before, samples are
/// dropped: they change nothing, they are not answered, and nothing follows from them.
pub proof fn lemma_closed_microphone_drops(
    st: AudioChannelState,
    cid: ChannelId,
    close: Seq<u8>,
    msg_id: u16,
    payload: Seq<u8>,
)
    requires
        message::message_of::<AvInputOpenRequest>(close) matches Some(req) && !req.open,
        msg_id == 0x0000 || msg_id == 0x0001,
    ensures
        ({
            let after = heard(st, cid, 0x8005, close).0;
            &&& !after.started
            &&& heard(after, cid, msg_id, payload) == (
                after,
                Ok::<(Seq<Outbound>, Deed), HandleError>((Seq::empty(), Deed::Nothing)),
            )
        }),
{
}

/// Samples that come with a timestamp and samples that come without one are taken on an
/// open microphone: the whole of them goes to the sink, and each message is
/// acknowledged once, on its channel, with the session of the last start.
pub proof fn lemma_open_microphone_takes(
    st: AudioChannelState,
    cid: ChannelId,
    open: Seq<u8>,
    payload: Seq<u8>,
)
    requires
        message::message_of::<AvInputOpenRequest>(open) matches Some(req) && req.open,
    ensures
        ({
            let after = heard(st, cid, 0x8005, open).0;
            let ack = channels::said_on::<AvMediaAckIndication>(
                channel_id::channel_code(cid),
                0x8004,
                AvMediaAckIndication { session: st.session, value: 1 },
            );
            &&& heard(after, cid, 0x0001, payload) == (
                after,
                Ok::<(Seq<Outbound>, Deed), HandleError>(
                    (seq![ack], Deed::Push(Samples { timestamp_us: 0, pcm: payload })),
                ),
            )
            &&& payload.len() >= 8 ==> heard(after, cid, 0x0000, payload) == (
                after,
                Ok::<(Seq<Outbound>, Deed), HandleError>(
                    (
                        seq![ack],
                        Deed::Push(
                            Samples {
                                timestamp_us: octets::be64_at(payload, 0),
                                pcm: payload.skip(8),
                            },
                        ),
                    ),
                ),
            )
            &&& payload.len() < 8 ==> heard(after, cid, 0x0000, payload) == (
                after,
                Err::<(Seq<Outbound>, Deed), HandleError>(HandleError::TimestampMissing),
            )
        }),
{
}

/// A request to open or close the microphone that can be read is answered once, on its
/// channel; a sink is attached then, unless there is one; and the channel is open after
/// it exactly where the request says so. One that cannot be read changes nothing.
pub proof fn lemma_microphone_request(st: AudioChannelState, cid: ChannelId, payload: Seq<u8>)
    ensures
        ({
            let (after, answer) = heard(st, cid, 0x8005, payload);
            match message::message_of::<AvInputOpenRequest>(payload) {
                Some(req) => {
                    &&& after.started == req.open
                    &&& after.sink
                    &&& after.session == st.session
                    &&& after.pumping == st.pumping
                    &&& after.format == st.format
                    &&& after.direction == st.direction
                    &&& answer matches Ok((replies, deed)) && replies == seq![
                        channels::said_on::<AvInputOpenResponse>(
                            channel_id::channel_code(cid),
                            0x8006,
                            AvInputOpenResponse { session: 0, value: 0 },
                        ),
                    ] && (if st.sink {
                        deed == Deed::Nothing
                    } else {
                        deed == Deed::AttachSink { channel: cid, format: st.format }
                    })
                },
                None => after == st && answer is Err,
            }
        }),
{
}

/// A start that can be read opens the channel and remembers the session. Where sound
/// goes to the car an encoder starts in the channel's format, in place of the one that
/// runs; where it comes from the car nothing else is done. A start is not answered.
pub proof fn lemma_sound_starts(st: AudioChannelState, cid: ChannelId, payload: Seq<u8>)
    ensures
        ({
            let (after, answer) = heard(st, cid, 0x8001, payload);
            match message::message_of::<AvChannelStartIndication>(payload) {
                Some(ind) => {
                    &&& after.started
                    &&& after.session == ind.session
                    &&& after.sink == st.sink
                    &&& after.format == st.format
                    &&& after.direction == st.direction
                    &&& after.pumping == (st.pumping || st.direction is Output)
                    &&& answer matches Ok((replies, deed)) && replies.len() == 0 && (
                    if st.direction is Output {
                        deed == Deed::StartEncoder {
                            channel: cid,
                            format: st.format,
                            replace: st.pumping,
                        }
                    } else {
                        deed == Deed::Nothing
                    })
                },
                None => after == st && answer is Err,
            }
        }),
{
}

/// A stop closes the channel. The encoder, where one runs, is ended, and the sink, where
/// there is one, is flushed and stays. A stop is not answered, and a start after it
/// starts a new encoder without ending one.
pub proof fn lemma_sound_stops(
    st: AudioChannelState,
    cid: ChannelId,
    payload: Seq<u8>,
    start: Seq<u8>,
)
    ensures
        ({
            let (after, answer) = heard(st, cid, 0x8002, payload);
            &&& !after.started
            &&& !after.pumping
            &&& after.sink == st.sink
            &&& after.session == st.session
            &&& after.format == st.format
            &&& after.direction == st.direction
            &&& answer == Ok::<(Seq<Outbound>, Deed), HandleError>(
                (
                    Seq::empty(),
                    Deed::Stop { end_encoder: st.pumping, flush_sink: st.sink },
                ),
            )
            &&& heard(after, cid, 0x8001, start).1 matches Ok((_, Deed::StartEncoder { replace, .. }))
                ==> !replace
        }),
{
}

/// A request to set the channel up that can be read is granted, with ten frames in
/// flight and the first format; it changes nothing. Messages of any other number are
/// taken without an answer, and change nothing either.
pub proof fn lemma_sound_setup(
    st: AudioChannelState,
    cid: ChannelId,
    msg_id: u16,
    payload: Seq<u8>,
)
    ensures
        heard(st, cid, 0x8000, payload).0 == st,
        match message::message_of::<AvChannelSetupRequest>(payload) {
            Some(_) => heard(st, cid, 0x8000, payload).1 == Ok::<
                (Seq<Outbound>, Deed),
                HandleError,
            >(
                (
                    seq![
                        channels::said_on::<AvChannelSetupResponse>(
                            channel_id::channel_code(cid),
                            0x8003,
                            AvChannelSetupResponseView {
                                media_status: 2,
                                max_unacked: 10,
                                configs: seq![0u32],
                            },
                        ),
                    ],
                    Deed::Nothing,
                ),
            ),
            None => heard(st, cid, 0x8000, payload).1 is Err,
        },
        msg_id != 0x0000 && msg_id != 0x0001 && msg_id != 0x8000 && msg_id != 0x8001 && msg_id
            != 0x8002 && msg_id != 0x8005 ==> heard(st, cid, msg_id, payload) == (
            st,
            Ok::<(Seq<Outbound>, Deed), HandleError>((Seq::empty(), Deed::Nothing)),
        ),
{
}

/// Media sound goes to the car at 48 kHz; speech comes from it at 16 kHz, and system
/// sound at 48 kHz. All of them are stereo of sixteen bits, and nothing else is sound.
pub proof fn lemma_sound_channels(cid: ChannelId)
    ensures
        way_of(cid) == Some(AudioDirection::Output) <==> channel_id::channel_code(cid) == 4,
        way_of(cid) == Some(AudioDirection::Input) <==> channel_id::channel_code(cid) == 5
            || channel_id::channel_code(cid) == 6,
        format_of(cid) is Some <==> way_of(cid) is Some,
        format_of(cid) matches Some(f) ==> f.channels == 2 && f.bit_depth == 16 && f.sample_rate
            == (if channel_id::channel_code(cid) == 5 {
            16_000u32
        } else {
            48_000u32
        }),
{
}

/// A sound channel that nothing was heard of is closed and has no sink: samples are
/// dropped on it. A message makes the channel's state from that one; messages of other
/// channels are taken without an answer.
pub proof fn lemma_sound_is_closed_at_first(
    states: Map<u8, AudioChannelState>,
    channel: u8,
    msg_id: u16,
    payload: Seq<u8>,
)
    ensures
        !(4 <= channel <= 6) ==> all_heard(states, channel, msg_id, payload) == (
            states,
            Ok::<(Seq<Outbound>, Deed), HandleError>((Seq::empty(), Deed::Nothing)),
        ),
        4 <= channel <= 6 && !states.contains_key(channel) && (msg_id == 0x0000 || msg_id
            == 0x0001) ==> all_heard(states, channel, msg_id, payload).1 == Ok::<
            (Seq<Outbound>, Deed),
            HandleError,
        >((Seq::empty(), Deed::Nothing)),
        4 <= channel <= 6 ==> all_heard(states, channel, msg_id, payload).0.contains_key(channel),
{
}

/// The microphone of a session, from the messages of its channel alone: samples are
/// taken exactly after an opening, until a close or a stop.
pub proof fn lemma_microphone_session(
    states: Map<u8, AudioChannelState>,
    channel: u8,
    request: Seq<u8>,
    payload: Seq<u8>,
)
    requires
        channel == 5 || channel == 6,
        message::message_of::<AvInputOpenRequest>(request) is Some,
    ensures
        ({
            let open = message::message_of::<AvInputOpenRequest>(request)->Some_0.open;
            let after = all_heard(states, channel, 0x8005, request).0;
            let answer = all_heard(after, channel, 0x0001, payload).1;
            &&& open ==> (answer matches Ok((replies, deed)) && replies.len() == 1 && deed
                == Deed::Push(Samples { timestamp_us: 0, pcm: payload }))
            &&& !open ==> answer == Ok::<(Seq<Outbound>, Deed), HandleError>(
                (Seq::empty(), Deed::Nothing),
            )
        }),
{
}

/// Without a state, requests are granted as with one, and nothing else is answered.
pub proof fn lemma_fallback(channel: u8, msg_id: u16, payload: Seq<u8>)
    ensures
        msg_id == 0x8005 ==> fallback(channel, msg_id, payload) == Ok::<
            Seq<Outbound>,
            HandleError,
        >(
            seq![
                channels::said_on::<AvInputOpenResponse>(
                    channel,
                    0x8006,
                    AvInputOpenResponse { session: 0, value: 0 },
                ),
            ],
        ),
        msg_id == 0x8000 ==> match message::message_of::<AvChannelSetupRequest>(payload) {
            Some(_) => fallback(channel, msg_id, payload) == Ok::<Seq<Outbound>, HandleError>(
                seq![
                    channels::said_on::<AvChannelSetupResponse>(
                        channel,
                        0x8003,
                        AvChannelSetupResponseView {
                            media_status: 2,
                            max_unacked: 10,
                            configs: seq![0u32],
                        },
                    ),
                ],
            ),
            None => fallback(channel, msg_id, payload) is Err,
        },
        msg_id != 0x8000 && msg_id != 0x8005 ==> fallback(channel, msg_id, payload) == Ok::<
            Seq<Outbound>,
            HandleError,
        >(Seq::empty()),
{
}

/// The message that a run of samples goes out as: its timestamp in the first eight
/// bytes, and all of its samples behind them.
pub proof fn lemma_media_read_back(channel: u8, frame: Samples)
    ensures
        media_of(channel, frame).channel == channel,
        media_of(channel, frame).message_id == 0,
        media_of(channel, frame).payload.len() == 8 + frame.pcm.len(),
        octets::be64_at(media_of(channel, frame).payload, 0) == frame.timestamp_us,
        media_of(channel, frame).payload.skip(8) == frame.pcm,
{
    lemma_media_round_trip(channel, frame);
    let payload = media_of(channel, frame).payload;
    octets::lemma_be64_read_back(frame.timestamp_us);
    assert(forall|i: int|
        0 <= i < 8 ==> #[trigger] payload[i] == octets::be64(frame.timestamp_us)[i]);
    assert(payload.skip(8) =~= frame.pcm);
}

/// A record of the log gives back the timestamp, the length and the samples.
pub proof fn lemma_record_read_back(frame: Samples)
    requires
        frame.pcm.len() <= u32::MAX,
    ensures
        octets::be64_at(record_of(frame), 0) == frame.timestamp_us,
        octets::be32_at(record_of(frame), 8) == frame.pcm.len(),
        record_of(frame).skip(12) == frame.pcm,
{
    let record = record_of(frame);
    let n = octets::low32(frame.pcm.len() as int);
    octets::lemma_be64_read_back(frame.timestamp_us);
    octets::lemma_be32_read_back(n);
    assert(forall|i: int|
        0 <= i < 8 ==> #[trigger] record[i] == octets::be64(frame.timestamp_us)[i]);
    assert(record[8] == octets::be32(n)[0] && record[9] == octets::be32(n)[1] && record[10]
        == octets::be32(n)[2] && record[11] == octets::be32(n)[3]);
    assert(record.skip(12) =~= frame.pcm);
}

proof fn lemma_repeated_bytes(sample: u16, channels: nat, c: int)
    requires
        0 <= c < channels,
    ensures
        repeated_sample(sample, channels).len() == channels * 2,
        repeated_sample(sample, channels)[2 * c] == sample % 256,
        repeated_sample(sample, channels)[2 * c + 1] == sample / 256,
    decreases channels,
{
    lemma_repeated_len(sample, channels);
    lemma_repeated_len(sample, (channels - 1) as nat);
    if c < channels - 1 {
        lemma_repeated_bytes(sample, (channels - 1) as nat, c);
    }
}

/// Where a sample stands among interleaved ones: for each channel its low byte and then
/// its high byte, all channels of a sample before the next sample.
pub proof fn lemma_interleaved_bytes(samples: Seq<u16>, channels: nat, i: int, c: int)
    requires
        0 <= i < samples.len(),
        0 <= c < channels,
    ensures
        ({
            let at = 2 * (i * channels + c);
            let bytes = interleaved(samples, channels);
            &&& 0 <= at && at + 1 < bytes.len()
            &&& bytes[at] + 256 * bytes[at + 1] == samples[i]
        }),
    decreases samples.len(),
{
    let front = samples.drop_last();
    let n = samples.len() - 1;
    lemma_interleaved_len(samples, channels);
    lemma_interleaved_len(front, channels);
    assert(n * channels * 2 == 2 * (n * channels)) by (nonlinear_arith);
    assert(samples.len() * channels * 2 == 2 * (n * channels) + 2 * channels) by (nonlinear_arith)
        requires
            n == samples.len() - 1,
    ;
    if i < n {
        lemma_interleaved_bytes(front, channels, i, c);
    } else {
        lemma_repeated_bytes(samples.last(), channels, c);
        lemma_repeated_len(samples.last(), channels);
        assert(i * channels >= 0) by (nonlinear_arith)
            requires
                i >= 0,
                channels >= 0,
        ;
    }
}

/// The three channels for sound are told apart by their tags.
pub proof fn lemma_tags()
    ensures
        tag_of(ChannelId::MediaAudio) == "media"@,
        tag_of(ChannelId::SpeechAudio) == "speech"@,
        tag_of(ChannelId::SystemAudio) == "system"@,
        tag_of(ChannelId::MediaAudio) != tag_of(ChannelId::SpeechAudio),
        tag_of(ChannelId::MediaAudio) != tag_of(ChannelId::SystemAudio),
        tag_of(ChannelId::SpeechAudio) != tag_of(ChannelId::SystemAudio),
{
    reveal_strlit("media");
    reveal_strlit("speech");
    reveal_strlit("system");
    assert("media"@.len() == 5);
    assert("speech"@.len() == 6);
    assert("system"@.len() == 6);
    assert("speech"@[1] == 'p');
    assert("system"@[1] == 'y');
}

} // verus!
