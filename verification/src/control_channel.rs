//! The session after the handshake.
//!
//! The head unit says that it accepts the certificate, and is asked which channels
//! it offers. Every channel it offers that is of use is opened and set up. From then
//! on messages are answered as they come ([`dispatch`], [`Session`]), and directions
//! and media go out in between.
//!
//! A message goes out encrypted, in one frame, or in several where it is long
//! ([`fragments`], [`seal`]).
use crate::buffers;
use crate::channel_id;
use crate::channel_id::{ChannelId, ControlMessageId};
use crate::channels;
use crate::channels::audio;
use crate::channels::audio::{AudioAction, AudioChannelManager, AudioChannelState, Deed};
use crate::channels::input;
use crate::channels::nav;
use crate::channels::nav::NavInstruction;
use crate::channels::sensor;
use crate::channels::sensor::SensorHandler;
use crate::channels::video;
use crate::channels::video::pipeline;
use crate::channels::video::pipeline::{StreamStart, VideoPipeline};
use crate::channels::video::source::TestPatternProfile;
use crate::channels::{HandleError, Outbound, OutboundMessage};
use crate::encrypted;
use crate::encrypted::TunnelError;
use crate::framing::{Frame, FrameType, FrameView};
use crate::octets;
use crate::proto::data::{ChannelDescriptor, ChannelDescriptorView, GpsLocation};
use crate::proto::enums;
use crate::proto::message;
use crate::proto::message::Message;
use crate::proto::messages::{
    AudioFocusRequest, AudioFocusResponse, AuthCompleteIndication, AvChannelSetupRequest,
    AvChannelSetupResponse, AvChannelSetupResponseView, AvChannelStartIndication, BindingRequest,
    BindingResponse, ChannelOpenRequest, ChannelOpenResponse, NavigationFocusResponse, PhoneInfo, PhoneInfoView,
    PingRequest, PingResponse, SensorEventIndication, SensorEventIndicationView,
    SensorStartRequestMessage, SensorStartResponseMessage, ServiceDiscoveryRequest,
    ServiceDiscoveryRequestView, ServiceDiscoveryResponse, ServiceDiscoveryResponseView,
    ShutdownResponse,
};
use crate::proto::record;
use crate::proto::wire;
use crate::proto::wire::{WireField, WireValue};
use rustls::Connection;
use vstd::prelude::*;

verus! {

// ---- Sending ---------------------------------------------------------------

/// How much plaintext a frame carries at most.
pub const MAX_FRAGMENT_PLAINTEXT: usize = 0x1f00;

/// The plaintext of a message: its number and its body.
pub open spec fn plain_of(m: Outbound) -> Seq<u8> {
    octets::be16(m.message_id) + m.payload
}

/// `s` cut into pieces of at most [`MAX_FRAGMENT_PLAINTEXT`] bytes, all of them full
/// but the last.
pub open spec fn cut(s: Seq<u8>) -> Seq<Seq<u8>>
    decreases s.len(),
{
    if s.len() <= MAX_FRAGMENT_PLAINTEXT {
        seq![s]
    } else {
        seq![s.take(MAX_FRAGMENT_PLAINTEXT as int)] + cut(s.skip(MAX_FRAGMENT_PLAINTEXT as int))
    }
}

/// The plaintexts of the frames that a message goes out in.
pub open spec fn fragments_of(m: Outbound) -> Seq<Seq<u8>> {
    cut(plain_of(m))
}

/// What vectors hold.
pub open spec fn contents(v: Seq<Vec<u8>>) -> Seq<Seq<u8>> {
    Seq::new(v.len(), |i: int| v[i]@)
}

/// The plaintexts of the frames that a message goes out in.
pub fn fragments(out: &OutboundMessage) -> (r: Vec<Vec<u8>>)
    ensures
        contents(r@) == fragments_of(out@),
        r@.len() > 0,
{
    let mut plain: Vec<u8> = Vec::new();
    octets::push_be16(&mut plain, out.message_id);
    octets::push_all(&mut plain, buffers::slice_of(&out.payload));
    assert(plain@ =~= plain_of(out@));
    let ghost whole = plain@;
    let total: usize = plain.len();
    let mut pieces: Vec<Vec<u8>> = Vec::new();
    let mut at: usize = 0;
    assert(whole.skip(0) =~= whole);
    assert(contents(pieces@) + cut(whole) =~= cut(whole));
    while total - at > MAX_FRAGMENT_PLAINTEXT
        invariant
            at <= total,
            total == whole.len(),
            plain@ == whole,
            cut(whole) == contents(pieces@) + cut(whole.skip(at as int)),
        decreases total - at,
    {
        let ghost before = contents(pieces@);
        let ghost rest = whole.skip(at as int);
        let end: usize = at + MAX_FRAGMENT_PLAINTEXT;
        pieces.push(octets::to_vec(&plain.as_slice()[at..end]));
        assert(rest.take(MAX_FRAGMENT_PLAINTEXT as int) =~= whole.subrange(at as int, end as int));
        assert(rest.skip(MAX_FRAGMENT_PLAINTEXT as int) =~= whole.skip(end as int));
        assert(contents(pieces@) =~= before.push(whole.subrange(at as int, end as int)));
        assert(before + cut(rest) =~= contents(pieces@) + cut(whole.skip(end as int)));
        at = end;
    }
    let ghost before = contents(pieces@);
    pieces.push(octets::to_vec(&plain.as_slice()[at..total]));
    assert(whole.subrange(at as int, total as int) =~= whole.skip(at as int));
    assert(contents(pieces@) =~= before + seq![whole.skip(at as int)]);
    pieces
}

/// Pieces one after the other.
pub open spec fn joined(pieces: Seq<Seq<u8>>) -> Seq<u8>
    decreases pieces.len(),
{
    if pieces.len() == 0 {
        Seq::empty()
    } else {
        pieces[0] + joined(pieces.drop_first())
    }
}

proof fn lemma_cut(s: Seq<u8>)
    ensures
        joined(cut(s)) == s,
        forall|i: int|
            0 <= i < cut(s).len() ==> (#[trigger] cut(s)[i]).len() <= MAX_FRAGMENT_PLAINTEXT,
        cut(s).len() == 1 <==> s.len() <= MAX_FRAGMENT_PLAINTEXT,
        cut(s).len() >= 1,
    decreases s.len(),
{
    if s.len() <= MAX_FRAGMENT_PLAINTEXT {
        assert(cut(s).drop_first() =~= Seq::<Seq<u8>>::empty());
        assert(joined(Seq::<Seq<u8>>::empty()) =~= Seq::<u8>::empty());
        assert(joined(cut(s)) =~= s);
    } else {
        let rest = s.skip(MAX_FRAGMENT_PLAINTEXT as int);
        lemma_cut(rest);
        assert(cut(s).drop_first() =~= cut(rest));
        assert(joined(cut(s)) =~= s);
        assert forall|i: int| 0 <= i < cut(s).len() implies (#[trigger] cut(s)[i]).len()
            <= MAX_FRAGMENT_PLAINTEXT by {
            if i > 0 {
                assert(cut(s)[i] == cut(rest)[i - 1]);
            }
        }
    }
}

/// The frames of a message carry its plaintext, piece by piece and in order, and
/// none carries more than it may. One frame is enough exactly where all of it fits.
pub proof fn lemma_fragments_reassemble(m: Outbound)
    ensures
        joined(fragments_of(m)) == plain_of(m),
        forall|i: int|
            0 <= i < fragments_of(m).len() ==> (#[trigger] fragments_of(m)[i]).len()
                <= MAX_FRAGMENT_PLAINTEXT,
        fragments_of(m).len() == 1 <==> plain_of(m).len() <= MAX_FRAGMENT_PLAINTEXT,
{
    lemma_cut(plain_of(m));
}

/// Where the `k`-th of `n` frames stands in its message.
pub open spec fn position(k: int, n: int) -> FrameType {
    if n == 1 {
        FrameType::Bulk
    } else if k == 0 {
        FrameType::First
    } else if k == n - 1 {
        FrameType::Last
    } else {
        FrameType::Middle
    }
}

/// The `k`-th of `n` frames of a message, with its plaintext encrypted as
/// `ciphertext`.
///
/// The control flag is set where a request or an answer to open a channel goes out
/// on that channel; never on channel 0. The first of several frames says how long
/// the plaintext is.
pub open spec fn sealed_frame(m: Outbound, k: int, n: int, ciphertext: Seq<u8>) -> FrameView {
    FrameView {
        channel_id: m.channel,
        frame_type: position(k, n),
        control: n == 1 && m.channel != 0 && (m.message_id == 0x0007 || m.message_id == 0x0008),
        encrypted: true,
        total_length: if position(k, n) == FrameType::First {
            Some(octets::low32(plain_of(m).len() as int))
        } else {
            None
        },
        payload: ciphertext,
    }
}

/// Pieces one after the other, with one more behind them.
proof fn lemma_joined_push(pieces: Seq<Seq<u8>>, last: Seq<u8>)
    ensures
        joined(pieces.push(last)) == joined(pieces) + last,
    decreases pieces.len(),
{
    if pieces.len() == 0 {
        assert(pieces.push(last).drop_first() =~= Seq::<Seq<u8>>::empty());
        assert(joined(pieces.push(last).drop_first()) =~= Seq::<u8>::empty());
        assert(joined(pieces) =~= Seq::<u8>::empty());
        assert(joined(pieces.push(last)) =~= last);
        assert(joined(pieces) + last =~= last);
    } else {
        lemma_joined_push(pieces.drop_first(), last);
        assert(pieces.push(last).drop_first() =~= pieces.drop_first().push(last));
        assert(joined(pieces.push(last)) =~= joined(pieces) + last);
    }
}

/// The `k`-th of `n` frames of a message.
pub fn frame_for(out: &OutboundMessage, k: usize, n: usize, ciphertext: Vec<u8>) -> (r: Frame)
    requires
        k < n,
    ensures
        r@ == sealed_frame(out@, k as int, n as int, ciphertext@),
{
    let frame_type: FrameType = if n == 1 {
        FrameType::Bulk
    } else if k == 0 {
        FrameType::First
    } else if k == n - 1 {
        FrameType::Last
    } else {
        FrameType::Middle
    };
    let control: bool = n == 1 && out.channel != 0 && (out.message_id
        == ControlMessageId::ChannelOpenRequest.code() || out.message_id
        == ControlMessageId::ChannelOpenResponse.code());
    let body: &[u8] = buffers::slice_of(&out.payload);
    let total_length: Option<u32> = if frame_type == FrameType::First {
        Some(octets::low32_of_sum(2, body.len()))
    } else {
        None
    };
    Frame {
        channel_id: out.channel,
        frame_type,
        control,
        encrypted: true,
        total_length,
        payload: buffers::from_vec(ciphertext),
    }
}

/// What frames say.
pub open spec fn frames_view(fs: Seq<Frame>) -> Seq<FrameView> {
    Seq::new(fs.len(), |i: int| fs[i]@)
}

/// The frames of a message, with its plaintexts encrypted as `ciphertexts`.
pub open spec fn sealed(m: Outbound, ciphertexts: Seq<Seq<u8>>) -> Seq<FrameView> {
    Seq::new(
        ciphertexts.len(),
        |k: int| sealed_frame(m, k, ciphertexts.len() as int, ciphertexts[k]),
    )
}

/// Whether the first plaintexts of `plains` went through a connection, one after the
/// other: `states` is what the connection was at first and after each of them. Each
/// was taken, and all records that then waited came out: those are its ciphertext.
pub open spec fn gone_through(
    states: Seq<Connection>,
    plains: Seq<Seq<u8>>,
    ciphertexts: Seq<Seq<u8>>,
) -> bool {
    &&& ciphertexts.len() <= plains.len()
    &&& states.len() == ciphertexts.len() + 1
    &&& forall|k: int|
        0 <= k < ciphertexts.len() ==> #[trigger] encrypted::takes(states[k], plains[k])
            && encrypted::written(states[k + 1]) == encrypted::written(states[k]) + plains[k]
            && encrypted::emitted(states[k + 1]) == encrypted::emitted(states[k]) + ciphertexts[k]
            && encrypted::begins_with(ciphertexts[k], encrypted::outgoing(states[k]))
            && encrypted::outgoing(states[k + 1]) == Seq::<u8>::empty()
}

/// The encrypted frames of a message. Each plaintext of [`fragments`] goes through
/// the tunnel in turn, and its records make one frame. It fails exactly where the
/// connection does not take one of them.
pub fn seal(conn: &mut Connection, out: &OutboundMessage) -> (r: Result<Vec<Frame>, TunnelError>)
    ensures
        exists|states: Seq<Connection>, ciphertexts: Seq<Seq<u8>>| #[trigger]
            gone_through(states, fragments_of(out@), ciphertexts) && states[0] == *old(conn)
                && match r {
                Ok(frames) => ciphertexts.len() == fragments_of(out@).len() && *final(conn)
                    == states.last() && frames_view(frames@) == sealed(out@, ciphertexts)
                    && encrypted::emitted(*final(conn)) == encrypted::emitted(*old(conn))
                    + joined(ciphertexts),
                Err(e) => e == TunnelError::Write && ciphertexts.len() < fragments_of(out@).len()
                    && !encrypted::takes(
                    states.last(),
                    fragments_of(out@)[ciphertexts.len() as int],
                ),
            },
        r is Ok ==> encrypted::written(*final(conn)) == encrypted::written(*old(conn)) + plain_of(
            out@,
        ),
        plain_of(out@).len() <= MAX_FRAGMENT_PLAINTEXT ==> (r is Ok <==> encrypted::takes(
            *old(conn),
            plain_of(out@),
        )),
        encrypted::failed(*old(conn)) ==> r is Err,
        encrypted::processed(*final(conn)) == encrypted::processed(*old(conn)),
        encrypted::failed(*final(conn)) == encrypted::failed(*old(conn)),
        encrypted::received(*final(conn)) == encrypted::received(*old(conn)),
        encrypted::fed(*final(conn)) == encrypted::fed(*old(conn)),
        encrypted::delivered(*final(conn)) == encrypted::delivered(*old(conn)),
{
    let plains: Vec<Vec<u8>> = fragments(out);
    let n: usize = plains.len();
    let mut frames: Vec<Frame> = Vec::new();
    let ghost mut ciphertexts: Seq<Seq<u8>> = Seq::empty();
    let ghost mut states: Seq<Connection> = seq![*conn];
    let ghost all = contents(plains@);
    let mut k: usize = 0;
    assert(all.take(0) =~= Seq::<Seq<u8>>::empty());
    assert(joined(Seq::<Seq<u8>>::empty()) =~= Seq::<u8>::empty());
    assert(encrypted::written(*conn) =~= encrypted::written(*old(conn)) + joined(all.take(0)));
    assert(encrypted::emitted(*conn) =~= encrypted::emitted(*old(conn)) + joined(ciphertexts));
    while k < n
        invariant
            k <= n,
            n == plains@.len(),
            contents(plains@) == fragments_of(out@),
            all == contents(plains@),
            encrypted::written(*conn) == encrypted::written(*old(conn)) + joined(
                all.take(k as int),
            ),
            encrypted::emitted(*conn) == encrypted::emitted(*old(conn)) + joined(ciphertexts),
            encrypted::fed(*conn) == encrypted::fed(*old(conn)),
            encrypted::delivered(*conn) == encrypted::delivered(*old(conn)),
            ciphertexts.len() == k,
            k > 0 ==> !encrypted::failed(*old(conn)),
            encrypted::processed(*conn) == encrypted::processed(*old(conn)),
            encrypted::failed(*conn) == encrypted::failed(*old(conn)),
            states.len() == k + 1,
            states[0] == *old(conn),
            states.last() == *conn,
            gone_through(states, all, ciphertexts),
            frames@.len() == k,
            forall|i: int|
                0 <= i < k ==> #[trigger] frames@[i]@ == sealed_frame(
                    out@,
                    i,
                    n as int,
                    ciphertexts[i],
                ),
            encrypted::received(*conn) == encrypted::received(*old(conn)),
        decreases n - k,
    {
        match encrypted::encrypt_payload(conn, plains[k].as_slice()) {
            Ok(ciphertext) => {
                proof {
                    lemma_joined_push(all.take(k as int), plains@[k as int]@);
                    lemma_joined_push(ciphertexts, ciphertext@);
                    assert(all.take(k as int).push(plains@[k as int]@) =~= all.take(k + 1));
                    let (before, had) = (states, ciphertexts);
                    ciphertexts = ciphertexts.push(ciphertext@);
                    states = states.push(*conn);
                    assert forall|i: int| 0 <= i < ciphertexts.len() implies #[trigger]
                        encrypted::takes(states[i], all[i]) && encrypted::written(states[i + 1])
                        == encrypted::written(states[i]) + all[i] && encrypted::emitted(
                        states[i + 1],
                    ) == encrypted::emitted(states[i]) + ciphertexts[i] && encrypted::begins_with(
                        ciphertexts[i],
                        encrypted::outgoing(states[i]),
                    ) && encrypted::outgoing(states[i + 1]) == Seq::<u8>::empty() by {
                        if i < k {
                            assert(encrypted::takes(before[i], all[i]));
                            assert(states[i] == before[i] && states[i + 1] == before[i + 1]);
                            assert(ciphertexts[i] == had[i]);
                        }
                    }
                    assert(encrypted::written(*conn) =~= encrypted::written(*old(conn)) + joined(
                        all.take(k + 1),
                    ));
                    assert(encrypted::emitted(*conn) =~= encrypted::emitted(*old(conn)) + joined(
                        ciphertexts,
                    ));
                }
                frames.push(frame_for(out, k, n, ciphertext));
            },
            Err(e) => {
                proof {
                    lemma_fragments_reassemble(out@);
                    assert(gone_through(states, fragments_of(out@), ciphertexts));
                }
                return Err(e);
            },
        }
        k += 1;
    }
    assert(contents(plains@).len() == n);
    assert(all.take(n as int) =~= all);
    proof {
        lemma_fragments_reassemble(out@);
    }
    assert(frames_view(frames@) =~= sealed(out@, ciphertexts));
    assert(gone_through(states, fragments_of(out@), ciphertexts));
    assert(encrypted::takes(states[0], fragments_of(out@)[0]));
    Ok(frames)
}

/// The plaintext in a frame: what it carries, decrypted where it is encrypted. What is
/// not encrypted is always taken.
pub fn open_frame(conn: &mut Connection, frame: &Frame) -> (r: Result<Vec<u8>, TunnelError>)
    ensures
        !frame.encrypted ==> (r matches Ok(v) && v@ == frame@.payload) && *final(conn) == *old(
            conn,
        ),
        frame.encrypted ==> (r matches Ok(v) ==> encrypted::begins_with(
            v@,
            encrypted::received(*old(conn)),
        ) && encrypted::received(*final(conn)) == Seq::<u8>::empty() && encrypted::fed(*final(conn))
            == encrypted::fed(*old(conn)) + frame@.payload && encrypted::delivered(*final(conn))
            == encrypted::delivered(*old(conn)) + v@ && !encrypted::cut_off(*final(conn))),
        frame.encrypted ==> match r {
            Ok(_) => encrypted::handed(
                *old(conn),
                frame@.payload,
                encrypted::fed(*final(conn)),
                true,
            ),
            Err(TunnelError::Process) => encrypted::handed(
                *old(conn),
                frame@.payload,
                encrypted::fed(*final(conn)),
                true,
            ),
            Err(TunnelError::GiveRecords) => encrypted::handed(
                *old(conn),
                frame@.payload,
                encrypted::fed(*final(conn)),
                false,
            ),
            Err(TunnelError::Read) => encrypted::handed(
                *old(conn),
                frame@.payload,
                encrypted::fed(*final(conn)),
                true,
            ) && encrypted::cut_off(*final(conn)) && encrypted::received(*final(conn)).len() == 0,
            Err(_) => false,
        },
        frame.encrypted ==> if r == Err::<Vec<u8>, TunnelError>(TunnelError::GiveRecords) {
            encrypted::processed(*final(conn)) == encrypted::processed(*old(conn))
                && encrypted::failed(*final(conn)) == encrypted::failed(*old(conn))
        } else {
            encrypted::processed(*final(conn)) == encrypted::fed(*final(conn)) && (
            encrypted::failed(*final(conn)) <==> r == Err::<Vec<u8>, TunnelError>(
                TunnelError::Process,
            ))
        },
        frame.encrypted && encrypted::failed(*old(conn)) ==> r is Err && encrypted::failed(
            *final(conn),
        ),
        encrypted::cut_off(*final(conn)) ==> encrypted::cut_off(*old(conn)),
        encrypted::written(*final(conn)) == encrypted::written(*old(conn)),
        encrypted::emitted(*final(conn)) == encrypted::emitted(*old(conn)),
{
    let payload: &[u8] = buffers::slice_of(&frame.payload);
    if frame.encrypted {
        encrypted::decrypt_payload(conn, payload)
    } else {
        Ok(octets::to_vec(payload))
    }
}

// ---- The opening -----------------------------------------------------------

/// Why the session cannot begin.
#[derive(Debug, Clone, Copy, PartialEq, Eq, Structural)]
pub enum AuthError {
    /// The frame is too short; its length is given.
    TooShort(usize),
    /// Another message came.
    WrongMessage(u16),
    /// The message cannot be read.
    Undecodable,
    /// The head unit refused the certificate, with this status.
    Refused(i32),
}

/// What the first frame after the handshake says.
pub open spec fn auth_of(payload: Seq<u8>) -> Result<(), AuthError> {
    if payload.len() < 2 {
        Err(AuthError::TooShort(payload.len() as usize))
    } else if octets::be16_at(payload, 0) != 0x0004 {
        Err(AuthError::WrongMessage(octets::be16_at(payload, 0)))
    } else {
        match message::message_of::<AuthCompleteIndication>(payload.skip(2)) {
            None => Err(AuthError::Undecodable),
            Some(ind) => if ind.status == enums::STATUS_OK {
                Ok(())
            } else {
                Err(AuthError::Refused(ind.status))
            },
        }
    }
}

/// Reads the first frame after the handshake. The session begins where the head
/// unit says that it accepts the certificate.
pub fn check_auth_complete(payload: &[u8]) -> (r: Result<(), AuthError>)
    ensures
        r == auth_of(payload@),
{
    let n: usize = payload.len();
    if n < 2 {
        return Err(AuthError::TooShort(n));
    }
    let message_id: u16 = octets::read_be16(payload, 0);
    if message_id != ControlMessageId::AuthComplete.code() {
        return Err(AuthError::WrongMessage(message_id));
    }
    let body: &[u8] = &payload[2..n];
    assert(body@ =~= payload@.skip(2));
    match AuthCompleteIndication::decode(body) {
        Err(_) => Err(AuthError::Undecodable),
        Ok(ind) => {
            if ind.status == enums::STATUS_OK {
                Ok(())
            } else {
                Err(AuthError::Refused(ind.status))
            }
        },
    }
}

/// Who this phone is.
pub open spec fn identity() -> ServiceDiscoveryRequestView {
    ServiceDiscoveryRequestView {
        small_icon: Seq::empty(),
        medium_icon: Seq::empty(),
        large_icon: Seq::empty(),
        label_text: "Auto"@,
        device_name: "Pixel 6"@,
        phone_info: Some(
            PhoneInfoView {
                instance_id: "AABOX0123456789"@,
                connectivity_lifetime_id: "aabox-rock5bp-1"@,
            },
        ),
    }
}

/// The message that says who this phone is and asks which channels there are.
pub fn service_discovery_request() -> (r: OutboundMessage)
    ensures
        r@ == channels::said_on::<ServiceDiscoveryRequest>(0, 0x0005, identity()),
{
    let sdr = ServiceDiscoveryRequest {
        small_icon: Vec::new(),
        medium_icon: Vec::new(),
        large_icon: Vec::new(),
        label_text: "Auto".to_string(),
        device_name: "Pixel 6".to_string(),
        phone_info: Some(
            PhoneInfo {
                instance_id: "AABOX0123456789".to_string(),
                connectivity_lifetime_id: "aabox-rock5bp-1".to_string(),
            },
        ),
    };
    assert(sdr@.small_icon =~= identity().small_icon);
    channels::encode_outbound(
        ChannelId::Control.code(),
        ControlMessageId::ServiceDiscoveryRequest.code(),
        &sdr,
    )
}

/// Where directions come from.
#[derive(Debug, Clone, Copy, PartialEq, Eq, Structural)]
pub enum NavMode {
    /// A router.
    Source,
    /// A demonstration that repeats one instruction.
    Demo,
    /// Nowhere.
    Silent,
}

/// How often the demonstration repeats its instruction, in seconds.
pub const DEMO_NAV_INTERVAL_SECS: u64 = 15;

/// Where directions come from: a router, if there is one, however the
/// demonstration is set.
pub fn nav_mode(has_source: bool, demo_nav: bool) -> (r: NavMode)
    ensures
        r == if has_source {
            NavMode::Source
        } else if demo_nav {
            NavMode::Demo
        } else {
            NavMode::Silent
        },
        r is Source <==> has_source,
        r is Silent <==> !has_source && !demo_nav,
{
    if has_source {
        NavMode::Source
    } else if demo_nav {
        NavMode::Demo
    } else {
        NavMode::Silent
    }
}

// ---- The channels of the head unit -----------------------------------------

/// What a channel of the head unit is for.
#[derive(Debug, Clone, Copy, PartialEq, Eq, Structural)]
pub enum ServiceKind {
    Sensor,
    Video,
    AudioSpeech,
    AudioSystem,
    AudioMedia,
    AudioAlarm,
    AudioUnknown,
    Input,
    AvInput,
    Bluetooth,
    Navigation,
    VendorExt,
    Unknown,
}

/// What a channel of the head unit is for. A media channel with a picture format is
/// for pictures, whatever its stream type says.
pub open spec fn kind_of(ch: ChannelDescriptorView) -> ServiceKind {
    if ch.sensor_channel is Some {
        ServiceKind::Sensor
    } else if ch.av_channel is Some {
        let av = ch.av_channel->Some_0;
        if av.video_configs.len() > 0 || av.stream_type == enums::AV_STREAM_TYPE_VIDEO {
            ServiceKind::Video
        } else if av.audio_type == enums::AUDIO_TYPE_SPEECH {
            ServiceKind::AudioSpeech
        } else if av.audio_type == enums::AUDIO_TYPE_SYSTEM {
            ServiceKind::AudioSystem
        } else if av.audio_type == enums::AUDIO_TYPE_MEDIA {
            ServiceKind::AudioMedia
        } else if av.audio_type == enums::AUDIO_TYPE_ALARM {
            ServiceKind::AudioAlarm
        } else {
            ServiceKind::AudioUnknown
        }
    } else if ch.input_channel is Some {
        ServiceKind::Input
    } else if ch.av_input_channel is Some {
        ServiceKind::AvInput
    } else if ch.bluetooth_channel is Some {
        ServiceKind::Bluetooth
    } else if ch.navigation_channel is Some {
        ServiceKind::Navigation
    } else if ch.vendor_extension_channel is Some {
        ServiceKind::VendorExt
    } else {
        ServiceKind::Unknown
    }
}

/// What a channel of the head unit is for.
pub fn classify_channel(ch: &ChannelDescriptor) -> (r: ServiceKind)
    ensures
        r == kind_of(ch@),
{
    if ch.sensor_channel.is_some() {
        return ServiceKind::Sensor;
    }
    if let Some(av) = &ch.av_channel {
        if av.video_configs.len() > 0 || av.stream_type == enums::AV_STREAM_TYPE_VIDEO {
            return ServiceKind::Video;
        }
        return match av.audio_type {
            enums::AUDIO_TYPE_SPEECH => ServiceKind::AudioSpeech,
            enums::AUDIO_TYPE_SYSTEM => ServiceKind::AudioSystem,
            enums::AUDIO_TYPE_MEDIA => ServiceKind::AudioMedia,
            enums::AUDIO_TYPE_ALARM => ServiceKind::AudioAlarm,
            _ => ServiceKind::AudioUnknown,
        };
    }
    if ch.input_channel.is_some() {
        ServiceKind::Input
    } else if ch.av_input_channel.is_some() {
        ServiceKind::AvInput
    } else if ch.bluetooth_channel.is_some() {
        ServiceKind::Bluetooth
    } else if ch.navigation_channel.is_some() {
        ServiceKind::Navigation
    } else if ch.vendor_extension_channel.is_some() {
        ServiceKind::VendorExt
    } else {
        ServiceKind::Unknown
    }
}

/// Whether channels of this kind are opened: all but those of a vendor's own and
/// those that are not recognised.
pub open spec fn opened(kind: ServiceKind) -> bool {
    kind != ServiceKind::VendorExt && kind != ServiceKind::Unknown
}

/// Whether channels of this kind are opened.
pub fn should_open(kind: ServiceKind) -> (r: bool)
    ensures
        r == opened(kind),
{
    kind != ServiceKind::VendorExt && kind != ServiceKind::Unknown
}

/// The keys that are asked for, as a packed field.
pub open spec fn key_binding() -> Seq<u8> {
    seq![
        0x0a,
        0x0d,
        0x03,
        0x04,
        0x05,
        0x06,
        0x13,
        0x14,
        0x15,
        0x16,
        0x17,
        0x54,
        0x55,
        0x57,
        0x58,
    ]
}

/// The number of the message that sets up a channel of this kind, and its body.
/// Fields that are zero are written out, since head units ask for them.
pub open spec fn setup_of(kind: ServiceKind) -> Option<(u16, Seq<u8>)> {
    match kind {
        ServiceKind::AudioMedia
        | ServiceKind::AudioSpeech
        | ServiceKind::AudioSystem
        | ServiceKind::AudioAlarm
        | ServiceKind::AudioUnknown => Some((0x8000, seq![0x08, 0x01])),
        ServiceKind::AvInput => Some((0x8005, seq![0x08, 0x00])),
        ServiceKind::Video => Some((0x8000, seq![0x08, 0x03])),
        ServiceKind::Sensor => Some((0x8001, seq![0x08, 0x0d, 0x10, 0x00])),
        ServiceKind::Input => Some((0x8002, key_binding())),
        _ => None,
    }
}

/// The byte that stands for a channel in a frame.
pub open spec fn channel_byte(channel_id: u32) -> u8 {
    (channel_id % 256) as u8
}

/// The message that sets up a channel of this kind, if there is one.
pub fn setup_message_for(channel_id: u32, kind: ServiceKind) -> (r: Option<OutboundMessage>)
    ensures
        match setup_of(kind) {
            Some((message_id, payload)) => r matches Some(m) && m@ == (Outbound {
                channel: channel_byte(channel_id),
                message_id,
                payload,
            }),
            None => r is None,
        },
{
    let channel: u8 = (channel_id % 256) as u8;
    match kind {
        ServiceKind::AudioMedia
        | ServiceKind::AudioSpeech
        | ServiceKind::AudioSystem
        | ServiceKind::AudioAlarm
        | ServiceKind::AudioUnknown => {
            let body: Vec<u8> = vec![0x08, 0x01];
            assert(body@ =~= setup_of(kind)->Some_0.1);
            Some(OutboundMessage::of_vec(channel, 0x8000, body))
        },
        ServiceKind::AvInput => {
            let body: Vec<u8> = vec![0x08, 0x00];
            assert(body@ =~= setup_of(kind)->Some_0.1);
            Some(OutboundMessage::of_vec(channel, 0x8005, body))
        },
        ServiceKind::Video => {
            let body: Vec<u8> = vec![0x08, 0x03];
            assert(body@ =~= setup_of(kind)->Some_0.1);
            Some(OutboundMessage::of_vec(channel, 0x8000, body))
        },
        ServiceKind::Sensor => {
            let body: Vec<u8> = vec![0x08, 0x0d, 0x10, 0x00];
            assert(body@ =~= setup_of(kind)->Some_0.1);
            Some(OutboundMessage::of_vec(channel, 0x8001, body))
        },
        ServiceKind::Input => {
            let body: Vec<u8> = vec![
                0x0a,
                0x0d,
                0x03,
                0x04,
                0x05,
                0x06,
                0x13,
                0x14,
                0x15,
                0x16,
                0x17,
                0x54,
                0x55,
                0x57,
                0x58,
            ];
            assert(body@ =~= key_binding());
            Some(OutboundMessage::of_vec(channel, 0x8002, body))
        },
        _ => None,
    }
}

/// The body of a request to open a channel, with its priority written out.
pub open spec fn open_body(channel_id: u32) -> Seq<u8> {
    seq![0x08u8, 0x00, 0x10] + wire::varint(channel_id as u64)
}

/// The request to open a channel. It goes out on that channel.
pub open spec fn open_request(channel_id: u32) -> Outbound {
    Outbound {
        channel: channel_byte(channel_id),
        message_id: 0x0007,
        payload: open_body(channel_id),
    }
}

/// The messages that open a channel and set it up.
pub open spec fn openings(ch: ChannelDescriptorView) -> Seq<Outbound> {
    if opened(kind_of(ch)) {
        match setup_of(kind_of(ch)) {
            Some((message_id, payload)) => seq![
                open_request(ch.channel_id),
                Outbound { channel: channel_byte(ch.channel_id), message_id, payload },
            ],
            None => seq![open_request(ch.channel_id)],
        }
    } else {
        Seq::empty()
    }
}

/// The messages that open all channels and set them up, in order.
pub open spec fn all_openings(chs: Seq<ChannelDescriptorView>) -> Seq<Outbound>
    decreases chs.len(),
{
    if chs.len() == 0 {
        Seq::empty()
    } else {
        all_openings(chs.drop_last()) + openings(chs.last())
    }
}

/// The state of the phone: the battery is full, and no call can be made.
pub open spec fn phone_status() -> Seq<Outbound> {
    seq![
        Outbound { channel: 0, message_id: 0x0017, payload: seq![0x08, 0x64] },
        Outbound { channel: 0, message_id: 0x0018, payload: seq![0x08, 0x00] },
    ]
}

fn push_openings(outs: &mut Vec<OutboundMessage>, ch: &ChannelDescriptor)
    ensures
        channels::flight(final(outs)@) == channels::flight(old(outs)@) + openings(ch@),
{
    let ghost before = channels::flight(outs@);
    let kind: ServiceKind = classify_channel(ch);
    if !should_open(kind) {
        assert(before + Seq::<Outbound>::empty() =~= before);
        return ;
    }
    let mut body: Vec<u8> = vec![0x08, 0x00, 0x10];
    assert(body@ =~= seq![0x08u8, 0x00, 0x10]);
    wire::encode_varint(ch.channel_id as u64, &mut body);
    outs.push(
        OutboundMessage::of_vec(
            (ch.channel_id % 256) as u8,
            ControlMessageId::ChannelOpenRequest.code(),
            body,
        ),
    );
    assert(channels::flight(outs@) =~= before.push(open_request(ch.channel_id)));
    if let Some(setup) = setup_message_for(ch.channel_id, kind) {
        let ghost now = channels::flight(outs@);
        outs.push(setup);
        assert(channels::flight(outs@) =~= now.push(setup@));
    }
    assert(channels::flight(outs@) =~= before + openings(ch@));
}

/// The messages that follow when the head unit has said which channels it offers.
pub fn open_channels(resp: &ServiceDiscoveryResponse) -> (r: Vec<OutboundMessage>)
    ensures
        channels::flight(r@) == phone_status() + all_openings(resp@.channels),
{
    let battery: Vec<u8> = vec![0x08, 0x64];
    let calls: Vec<u8> = vec![0x08, 0x00];
    assert(battery@ =~= phone_status()[0].payload);
    assert(calls@ =~= phone_status()[1].payload);
    let mut outs: Vec<OutboundMessage> = Vec::new();
    outs.push(OutboundMessage::of_vec(ChannelId::Control.code(), 0x0017, battery));
    outs.push(OutboundMessage::of_vec(ChannelId::Control.code(), 0x0018, calls));
    assert(channels::flight(outs@) =~= phone_status());
    let ghost chs = resp@.channels;
    let mut i: usize = 0;
    assert(chs.take(0) =~= Seq::<ChannelDescriptorView>::empty());
    assert(phone_status() + Seq::<Outbound>::empty() =~= phone_status());
    while i < resp.channels.len()
        invariant
            i <= resp.channels@.len(),
            chs == message::said::<ChannelDescriptor>(resp.channels@),
            channels::flight(outs@) == phone_status() + all_openings(chs.take(i as int)),
        decreases resp.channels.len() - i,
    {
        let ghost before = channels::flight(outs@);
        push_openings(&mut outs, &resp.channels[i]);
        assert(chs[i as int] == resp.channels@[i as int]@);
        assert(chs.take(i + 1).drop_last() =~= chs.take(i as int));
        assert(chs.take(i + 1).last() == chs[i as int]);
        assert(phone_status() + (all_openings(chs.take(i as int)) + openings(chs[i as int]))
            =~= before + openings(chs[i as int]));
        i += 1;
    }
    assert(chs.take(chs.len() as int) =~= chs);
    outs
}

// ---- Answers ---------------------------------------------------------------

/// What is answered on the control channel; `offer` is what this side offers.
pub open spec fn control_reply(
    msg_id: u16,
    body: Seq<u8>,
    offer: ServiceDiscoveryResponseView,
) -> Result<Seq<Outbound>, HandleError> {
    match channel_id::message_of(msg_id) {
        Ok(ControlMessageId::ServiceDiscoveryResponse) => Ok(
            match message::message_of::<ServiceDiscoveryResponse>(body) {
                Some(resp) => phone_status() + all_openings(resp.channels),
                None => Seq::empty(),
            },
        ),
        Ok(ControlMessageId::ChannelOpenResponse) => match message::message_of::<
            ChannelOpenResponse,
        >(body) {
            Some(_) => Ok(Seq::empty()),
            None => Err(HandleError::ChannelOpenResponse),
        },
        Ok(ControlMessageId::ServiceDiscoveryRequest) => Ok(
            match message::message_of::<ServiceDiscoveryRequest>(body) {
                Some(_) => seq![channels::said_on::<ServiceDiscoveryResponse>(0, 0x0006, offer)],
                None => Seq::empty(),
            },
        ),
        Ok(ControlMessageId::PingRequest) => match message::message_of::<PingRequest>(body) {
            Some(req) => Ok(
                seq![
                    channels::said_on::<PingResponse>(
                        0,
                        0x000c,
                        PingResponse { timestamp: req.timestamp },
                    ),
                ],
            ),
            None => Err(HandleError::PingRequest),
        },
        Ok(ControlMessageId::AudioFocusRequest) => match message::message_of::<AudioFocusRequest>(
            body,
        ) {
            Some(_) => Ok(
                seq![
                    channels::said_on::<AudioFocusResponse>(
                        0,
                        0x0013,
                        AudioFocusResponse { audio_focus_state: enums::AUDIO_FOCUS_STATE_GAIN },
                    ),
                ],
            ),
            None => Err(HandleError::AudioFocusRequest),
        },
        Ok(ControlMessageId::NavigationFocusRequest) => Ok(
            seq![
                channels::said_on::<NavigationFocusResponse>(
                    0,
                    0x000e,
                    NavigationFocusResponse { focus_type: 1 },
                ),
            ],
        ),
        Ok(ControlMessageId::ChannelOpenRequest) => match message::message_of::<ChannelOpenRequest>(
            body,
        ) {
            Some(_) => Ok(
                seq![
                    channels::said_on::<ChannelOpenResponse>(
                        0,
                        0x0008,
                        ChannelOpenResponse { status: enums::STATUS_OK },
                    ),
                ],
            ),
            None => Err(HandleError::ChannelOpenRequest),
        },
        Ok(ControlMessageId::ShutdownRequest) => Ok(
            seq![channels::said_on::<ShutdownResponse>(0, 0x0010, ShutdownResponse {  })],
        ),
        _ => Ok(Seq::empty()),
    }
}

fn control_message<M: Message>(id: ControlMessageId, m: &M) -> (r: Vec<OutboundMessage>)
    ensures
        channels::flight(r@) == seq![
            channels::said_on::<M>(0, channel_id::message_code(id), m@),
        ],
{
    channels::single(channels::encode_outbound(ChannelId::Control.code(), id.code(), m))
}

/// Handles a message of the control channel; `body` is what follows its number.
pub fn dispatch_control(msg_id: u16, body: &[u8], sdr_template: &ServiceDiscoveryResponse) -> (r:
    Result<Vec<OutboundMessage>, HandleError>)
    ensures
        channels::answers(r, control_reply(msg_id, body@, sdr_template@)),
{
    let id: ControlMessageId = match ControlMessageId::try_from(msg_id) {
        Ok(id) => id,
        Err(_) => {
            return Ok(channels::silence());
        },
    };
    match id {
        ControlMessageId::ServiceDiscoveryResponse => match ServiceDiscoveryResponse::decode(body) {
            Ok(resp) => Ok(open_channels(&resp)),
            Err(_) => Ok(channels::silence()),
        },
        ControlMessageId::ChannelOpenResponse => match ChannelOpenResponse::decode(body) {
            Ok(_) => Ok(channels::silence()),
            Err(_) => Err(HandleError::ChannelOpenResponse),
        },
        ControlMessageId::ServiceDiscoveryRequest => match ServiceDiscoveryRequest::decode(body) {
            Ok(_) => Ok(control_message(ControlMessageId::ServiceDiscoveryResponse, sdr_template)),
            Err(_) => Ok(channels::silence()),
        },
        ControlMessageId::PingRequest => match PingRequest::decode(body) {
            Ok(req) => Ok(
                control_message(
                    ControlMessageId::PingResponse,
                    &PingResponse { timestamp: req.timestamp },
                ),
            ),
            Err(_) => Err(HandleError::PingRequest),
        },
        ControlMessageId::AudioFocusRequest => match AudioFocusRequest::decode(body) {
            Ok(_) => Ok(
                control_message(
                    ControlMessageId::AudioFocusResponse,
                    &AudioFocusResponse { audio_focus_state: enums::AUDIO_FOCUS_STATE_GAIN },
                ),
            ),
            Err(_) => Err(HandleError::AudioFocusRequest),
        },
        ControlMessageId::NavigationFocusRequest => Ok(
            control_message(
                ControlMessageId::NavigationFocusResponse,
                &NavigationFocusResponse { focus_type: 1 },
            ),
        ),
        ControlMessageId::ChannelOpenRequest => match ChannelOpenRequest::decode(body) {
            Ok(_) => Ok(
                control_message(
                    ControlMessageId::ChannelOpenResponse,
                    &ChannelOpenResponse { status: enums::STATUS_OK },
                ),
            ),
            Err(_) => Err(HandleError::ChannelOpenRequest),
        },
        ControlMessageId::ShutdownRequest => Ok(
            control_message(ControlMessageId::ShutdownResponse, &ShutdownResponse {  }),
        ),
        _ => Ok(channels::silence()),
    }
}

/// What is to be done about a message.
#[derive(Debug)]
pub struct Dispatched {
    /// The messages to send back.
    pub replies: Vec<OutboundMessage>,
    /// The positions to log and to hand on.
    pub fixes: Vec<GpsLocation>,
}

/// A video stream that nothing is connected to.
pub open spec fn idle_pipeline() -> VideoPipeline {
    VideoPipeline {
        generation: 0,
        session: 0,
        in_flight: 0,
        max_in_flight: video::VIDEO_MAX_UNACKED,
        wire: pipeline::NO_WIRE_CHANNEL,
    }
}

/// Answers without positions.
pub open spec fn without_fixes(r: Result<Seq<Outbound>, HandleError>) -> Result<
    (Seq<Outbound>, Seq<GpsLocation>),
    HandleError,
> {
    match r {
        Ok(replies) => Ok((replies, Seq::empty())),
        Err(e) => Err(e),
    }
}

/// Whether a message is taken without an answer on any channel, or on this one: an
/// answer to a request of this side, or a complaint about one.
pub open spec fn taken_silently(channel_id: u8, msg_id: u16) -> bool {
    ||| msg_id == 0x0008
    ||| msg_id == 0x00ff
    ||| msg_id == 0x8003 && channel_id != 2
    ||| msg_id == 0x0013 && channel_id == 0
    ||| msg_id == 0x8002 && channel_id == 2
    ||| msg_id == 0x8006 && channel_id == 7
}

/// The message that says that pictures start.
pub open spec fn video_start(channel_id: u8) -> Outbound {
    Outbound { channel: channel_id, message_id: 0x8001, payload: seq![0x08, 0x01, 0x10, 0x00] }
}

/// What is answered to a message, whatever the state of the session, and which
/// positions it holds; `offer` is what this side offers.
pub open spec fn dispatched(
    channel_id: u8,
    msg_id: u16,
    body: Seq<u8>,
    offer: ServiceDiscoveryResponseView,
) -> Result<(Seq<Outbound>, Seq<GpsLocation>), HandleError> {
    if msg_id == 0x8008 {
        Ok((seq![video_start(channel_id)], Seq::empty()))
    } else if taken_silently(channel_id, msg_id) {
        Ok((Seq::empty(), Seq::empty()))
    } else {
        match channel_id::channel_of(channel_id) {
            Ok(ChannelId::Control) => without_fixes(control_reply(msg_id, body, offer)),
            Ok(ChannelId::Input) => without_fixes(input::reply(msg_id, body)),
            Ok(ChannelId::Sensor) => sensor::sensed(msg_id, body),
            Ok(ChannelId::Video) => match video::shown(idle_pipeline(), channel_id, msg_id, body).1 {
                Ok((replies, _)) => Ok((replies, Seq::empty())),
                Err(e) => Err(e),
            },
            Ok(ChannelId::MediaAudio)
            | Ok(ChannelId::SpeechAudio)
            | Ok(ChannelId::SystemAudio)
            | Ok(ChannelId::AvInput) => without_fixes(audio::fallback(channel_id, msg_id, body)),
            _ => Ok((Seq::empty(), Seq::empty())),
        }
    }
}

fn only_replies(r: Result<Vec<OutboundMessage>, HandleError>) -> (out: Result<
    Dispatched,
    HandleError,
>)
    ensures
        match r {
            Ok(v) => out matches Ok(d) && d.replies == v && d.fixes@ == Seq::<GpsLocation>::empty(),
            Err(e) => out matches Err(x) && x == e,
        },
{
    match r {
        Ok(replies) => Ok(Dispatched { replies, fixes: Vec::new() }),
        Err(e) => Err(e),
    }
}

/// Handles a message by its channel and its number; `body` is what follows them.
pub fn dispatch(
    channel_id: u8,
    msg_id: u16,
    body: &[u8],
    sdr_template: &ServiceDiscoveryResponse,
    sensor_handler: &SensorHandler,
) -> (r: Result<Dispatched, HandleError>)
    ensures
        match dispatched(channel_id, msg_id, body@, sdr_template@) {
            Ok((replies, fixes)) => r matches Ok(d) && channels::flight(d.replies@) == replies
                && d.fixes@ == fixes,
            Err(e) => r matches Err(x) && x == e,
        },
{
    if msg_id == 0x8008 {
        let start: Vec<u8> = vec![0x08, 0x01, 0x10, 0x00];
        assert(start@ =~= video_start(channel_id).payload);
        return only_replies(
            Ok(channels::single(OutboundMessage::of_vec(channel_id, 0x8001, start))),
        );
    }
    let taken: bool = msg_id == ControlMessageId::ChannelOpenResponse.code() || msg_id == 0x00ff
        || (msg_id == 0x8003 && channel_id != ChannelId::Sensor.code()) || (msg_id
        == ControlMessageId::AudioFocusResponse.code() && channel_id == ChannelId::Control.code())
        || (msg_id == 0x8002 && channel_id == ChannelId::Sensor.code()) || (msg_id == 0x8006
        && channel_id == ChannelId::AvInput.code());
    if taken {
        return only_replies(Ok(channels::silence()));
    }
    let channel: ChannelId = match ChannelId::try_from(channel_id) {
        Ok(channel) => channel,
        Err(_) => {
            return only_replies(Ok(channels::silence()));
        },
    };
    match channel {
        ChannelId::Control => only_replies(dispatch_control(msg_id, body, sdr_template)),
        ChannelId::Input => only_replies(input::handle(msg_id, body)),
        ChannelId::Sensor => match sensor_handler.handle(msg_id, body) {
            Ok(step) => Ok(Dispatched { replies: step.replies, fixes: step.fixes }),
            Err(e) => Err(e),
        },
        ChannelId::Video => {
            let mut idle: VideoPipeline = VideoPipeline::new(video::VIDEO_MAX_UNACKED);
            match video::handle(channel_id, msg_id, body, &mut idle) {
                Ok(step) => only_replies(Ok(step.replies)),
                Err(e) => Err(e),
            }
        },
        ChannelId::MediaAudio
        | ChannelId::SpeechAudio
        | ChannelId::SystemAudio
        | ChannelId::AvInput => only_replies(audio::handle(channel_id, msg_id, body)),
        ChannelId::Navigation => only_replies(nav::handle(msg_id, body)),
        ChannelId::Bluetooth | ChannelId::Unset => only_replies(Ok(channels::silence())),
    }
}

// ---- The session -----------------------------------------------------------

/// What a session keeps between messages.
#[derive(Debug)]
pub struct Session {
    pub video: VideoPipeline,
    pub audio: AudioChannelManager,
    pub sensor: SensorHandler,
    pub sdr_template: ServiceDiscoveryResponse,
}

/// What is to be done about an event.
#[derive(Debug)]
pub struct Step {
    /// The messages to send.
    pub replies: Vec<OutboundMessage>,
    /// A video streamer to start.
    pub start: Option<StreamStart>,
    /// What to do about sound.
    pub audio: AudioAction,
    /// The positions to log and to hand on.
    pub fixes: Vec<GpsLocation>,
}

/// What is to be done, as a value.
pub struct Todo {
    pub replies: Seq<Outbound>,
    pub start: Option<StreamStart>,
    pub audio: Deed,
    pub fixes: Seq<GpsLocation>,
}

impl View for Step {
    type V = Todo;

    open spec fn view(&self) -> Todo {
        Todo {
            replies: channels::flight(self.replies@),
            start: self.start,
            audio: self.audio@,
            fixes: self.fixes@,
        }
    }
}

/// What a message does to the video stream before it is handled as one of its
/// channel: the head unit's wish to see pictures starts the stream on the channel on
/// which it came; an acknowledgement, whatever its channel, makes room for a frame;
/// and a stop counts on the stream's own channel only.
pub open spec fn poked(v: VideoPipeline, channel: u8, msg_id: u16) -> VideoPipeline {
    if msg_id == 0x8008 {
        pipeline::started(VideoPipeline { wire: channel, ..v }, 1)
    } else if msg_id == 0x8004 {
        pipeline::acked(v)
    } else if msg_id == 0x8002 && channel == v.wire {
        pipeline::stopped(v)
    } else {
        v
    }
}

/// The streamer that a message starts before it is handled as one of its channel.
pub open spec fn poke_start(v: VideoPipeline, channel: u8, msg_id: u16) -> Option<StreamStart> {
    if msg_id == 0x8008 {
        Some(
            StreamStart {
                generation: poked(v, channel, msg_id).generation,
                profile: TestPatternProfile::P1080p30,
            },
        )
    } else {
        None
    }
}

/// Whether a message goes to the sound channels.
pub open spec fn is_audio(channel: u8) -> bool {
    4 <= channel <= 7
}

/// Whether a message is about another message, whatever its channel.
pub open spec fn is_cross_channel(msg_id: u16) -> bool {
    msg_id == 0x0008 || msg_id == 0x00ff
}

/// What becomes of the video stream and the sound channels, and what is to be done,
/// when a frame with this plaintext has come.
pub open spec fn framed(
    v: VideoPipeline,
    states: Map<u8, AudioChannelState>,
    offer: ServiceDiscoveryResponseView,
    channel: u8,
    plain: Seq<u8>,
) -> (VideoPipeline, Map<u8, AudioChannelState>, Result<Todo, HandleError>) {
    if plain.len() < 2 {
        (v, states, Err(HandleError::MessageIdMissing))
    } else {
        let msg_id = octets::be16_at(plain, 0);
        let body = plain.skip(2);
        let w = poked(v, channel, msg_id);
        let start = poke_start(v, channel, msg_id);
        if !is_cross_channel(msg_id) && is_audio(channel) {
            let (after, answer) = audio::all_heard(states, channel, msg_id, body);
            (
                w,
                after,
                match answer {
                    Ok((replies, deed)) => Ok(
                        Todo { replies, start, audio: deed, fixes: Seq::empty() },
                    ),
                    Err(e) => Err(e),
                },
            )
        } else if !is_cross_channel(msg_id) && channel == 3 {
            let (after, answer) = video::shown(w, channel, msg_id, body);
            (
                after,
                states,
                match answer {
                    Ok((replies, second)) => Ok(
                        Todo {
                            replies,
                            start: if second is Some {
                                second
                            } else {
                                start
                            },
                            audio: Deed::Nothing,
                            fixes: Seq::empty(),
                        },
                    ),
                    Err(e) => Err(e),
                },
            )
        } else {
            (
                w,
                states,
                match dispatched(channel, msg_id, body, offer) {
                    Ok((replies, fixes)) => Ok(
                        Todo { replies, start, audio: Deed::Nothing, fixes },
                    ),
                    Err(e) => Err(e),
                },
            )
        }
    }
}

/// Whether a step is the one expected.
pub open spec fn steps(r: Result<Step, HandleError>, expected: Result<Todo, HandleError>) -> bool {
    match expected {
        Ok(todo) => r matches Ok(step) && step@ == todo,
        Err(e) => r matches Err(x) && x == e,
    }
}

/// Something that happens in a session.
#[derive(Debug)]
pub enum Event {
    /// A frame has come; its channel and its plaintext.
    Plain { channel: u8, bytes: Vec<u8> },
    /// A frame has come that could not be decrypted.
    Garbled,
    /// An instruction to the driver is ready.
    Instruction(NavInstruction),
    /// A frame of sound or a picture is ready.
    Media(OutboundMessage),
    /// The stream of frames has ended.
    Closed,
}

/// What follows an event.
#[derive(Debug)]
pub enum Outcome {
    /// Do this and go on.
    Go(Step),
    /// A message could not be handled; go on.
    Ignored(HandleError),
    /// A frame could not be decrypted; go on.
    Skipped,
    /// The session is over.
    End,
}

/// Nothing to be done but to send messages.
pub open spec fn just_send(replies: Seq<Outbound>) -> Todo {
    Todo { replies, start: None, audio: Deed::Nothing, fixes: Seq::empty() }
}

impl Session {
    /// A session in which nothing has happened yet.
    pub fn new(sensor: SensorHandler, sdr_template: ServiceDiscoveryResponse) -> (r: Self)
        ensures
            r.video == idle_pipeline(),
            r.audio.channels@ == Map::<u8, AudioChannelState>::empty(),
            r.sensor == sensor,
            r.sdr_template == sdr_template,
    {
        Session {
            video: VideoPipeline::new(video::VIDEO_MAX_UNACKED),
            audio: AudioChannelManager::new(),
            sensor,
            sdr_template,
        }
    }

    fn poke(&mut self, channel: u8, msg_id: u16) -> (r: Option<StreamStart>)
        ensures
            final(self).video == poked(old(self).video, channel, msg_id),
            final(self).audio == old(self).audio,
            final(self).sensor == old(self).sensor,
            final(self).sdr_template == old(self).sdr_template,
            r == poke_start(old(self).video, channel, msg_id),
    {
        if msg_id == 0x8008 {
            self.video.set_wire_channel(channel);
            return Some(self.video.start(1, 0));
        }
        if msg_id == 0x8004 {
            self.video.on_media_ack();
        }
        if msg_id == 0x8002 && channel == self.video.wire_channel() {
            self.video.stop();
        }
        None
    }

    /// Handles a frame by its channel and its plaintext.
    pub fn handle_frame(&mut self, channel: u8, plain: &[u8]) -> (r: Result<Step, HandleError>)
        ensures
            ({
                let (v, states, expected) = framed(
                    old(self).video,
                    old(self).audio.channels@,
                    old(self).sdr_template@,
                    channel,
                    plain@,
                );
                final(self).video == v && final(self).audio.channels@ == states && steps(
                    r,
                    expected,
                )
            }),
            final(self).sensor == old(self).sensor,
            final(self).sdr_template == old(self).sdr_template,
    {
        let n: usize = plain.len();
        if n < 2 {
            return Err(HandleError::MessageIdMissing);
        }
        let msg_id: u16 = octets::read_be16(plain, 0);
        let body: &[u8] = &plain[2..n];
        assert(body@ =~= plain@.skip(2));
        let start: Option<StreamStart> = self.poke(channel, msg_id);
        let cross: bool = msg_id == ControlMessageId::ChannelOpenResponse.code() || msg_id
            == 0x00ff;
        if !cross && 4 <= channel && channel <= 7 {
            match self.audio.handle(channel, msg_id, body) {
                Ok(step) => Ok(
                    Step {
                        replies: step.replies,
                        start,
                        audio: step.action,
                        fixes: Vec::new(),
                    },
                ),
                Err(e) => Err(e),
            }
        } else if !cross && channel == ChannelId::Video.code() {
            match video::handle(channel, msg_id, body, &mut self.video) {
                Ok(step) => {
                    let start: Option<StreamStart> = if step.start.is_some() {
                        step.start
                    } else {
                        start
                    };
                    Ok(
                        Step {
                            replies: step.replies,
                            start,
                            audio: AudioAction::Nothing,
                            fixes: Vec::new(),
                        },
                    )
                },
                Err(e) => Err(e),
            }
        } else {
            match dispatch(channel, msg_id, body, &self.sdr_template, &self.sensor) {
                Ok(d) => Ok(
                    Step { replies: d.replies, start, audio: AudioAction::Nothing, fixes: d.fixes },
                ),
                Err(e) => Err(e),
            }
        }
    }

    /// Takes an event and says what follows. No message, however it is broken, ends
    /// the session: only the end of the stream does.
    pub fn on_event(&mut self, event: Event) -> (r: Outcome)
        ensures
            match event {
                Event::Plain { channel, bytes } => {
                    let (v, states, expected) = framed(
                        old(self).video,
                        old(self).audio.channels@,
                        old(self).sdr_template@,
                        channel,
                        bytes@,
                    );
                    final(self).video == v && final(self).audio.channels@ == states
                        && match expected {
                        Ok(todo) => r matches Outcome::Go(step) && step@ == todo,
                        Err(e) => r matches Outcome::Ignored(x) && x == e,
                    }
                },
                Event::Garbled => r is Skipped && *final(self) == *old(self),
                Event::Instruction(instr) => r matches Outcome::Go(step) && step@ == just_send(
                    nav::instruction_flight(instr@),
                ) && *final(self) == *old(self),
                Event::Media(m) => r matches Outcome::Go(step) && step@ == just_send(seq![m@])
                    && *final(self) == *old(self),
                Event::Closed => r is End && *final(self) == *old(self),
            },
            r is End <==> event is Closed,
            r is Skipped <==> event is Garbled,
            event matches Event::Instruction(i) ==> (r matches Outcome::Go(step)
                && step@.replies.len() == 3 && step@.replies[0].payload.skip(3)
                == vstd::utf8::encode_utf8(i@.status_text) && octets::be32_at(
                step@.replies[1].payload,
                0,
            ) == i.turn_id && octets::be32_at(step@.replies[2].payload, 0) == i.distance_m),
            final(self).sensor == old(self).sensor,
            final(self).sdr_template == old(self).sdr_template,
    {
        match event {
            Event::Plain { channel, bytes } => match self.handle_frame(channel, bytes.as_slice()) {
                Ok(step) => Outcome::Go(step),
                Err(e) => Outcome::Ignored(e),
            },
            Event::Garbled => Outcome::Skipped,
            Event::Instruction(instr) => {
                proof {
                    nav::lemma_instruction_read_back(instr@);
                }
                Outcome::Go(
                    Step {
                        replies: nav::encode_instruction(&instr),
                        start: None,
                        audio: AudioAction::Nothing,
                        fixes: Vec::new(),
                    },
                )
            },
            Event::Media(m) => Outcome::Go(
                Step {
                    replies: channels::single(m),
                    start: None,
                    audio: AudioAction::Nothing,
                    fixes: Vec::new(),
                },
            ),
            Event::Closed => Outcome::End,
        }
    }
}

// ---- Laws ------------------------------------------------------------------

/// Whoever reads a request to open a channel finds the channel in it, with priority
/// zero; and the request goes out on that very channel.
pub proof fn lemma_open_request_names_its_channel(channel_id: u32)
    ensures
        message::message_of::<ChannelOpenRequest>(open_request(channel_id).payload) == Some(
            ChannelOpenRequest { priority: 0, channel_id: channel_id as u64 as i32 },
        ),
        channel_id < 256 ==> open_request(channel_id).channel == channel_id
            && channel_id as u64 as i32 == channel_id,
{
    let v = channel_id as u64;
    let priority = WireField { tag: 1, value: WireValue::Varint(0) };
    let channel = WireField { tag: 2, value: WireValue::Varint(v) };
    let fs = seq![priority, channel];
    assert(wire::encoded(fs) =~= open_body(channel_id)) by {
        reveal_with_fuel(wire::encoded, 3);
        assert(wire::varint(8) =~= seq![8u8]);
        assert(wire::varint(0) =~= seq![0u8]);
        assert(wire::varint(16) =~= seq![16u8]);
        assert(fs.drop_first() =~= seq![channel]);
        assert(fs.drop_first().drop_first() =~= Seq::<WireField>::empty());
    }
    wire::lemma_fields_of_encoded(fs, wire::MAX_NESTING as nat);
    assert(record::values(fs, 1) =~= seq![WireValue::Varint(0)]
        && record::values(fs, 2) =~= seq![WireValue::Varint(v)]) by {
        reveal_with_fuel(record::values, 3);
        assert(fs.drop_first() =~= seq![channel]);
        assert(fs.drop_first().drop_first() =~= Seq::<WireField>::empty());
    }
}

proof fn lemma_openings(ch: ChannelDescriptorView)
    ensures
        opened(kind_of(ch)) ==> openings(ch).len() > 0 && openings(ch)[0] == open_request(
            ch.channel_id,
        ),
        !opened(kind_of(ch)) ==> openings(ch).len() == 0,
        forall|k: int|
            0 <= k < openings(ch).len() ==> (#[trigger] openings(ch)[k]).channel == channel_byte(
                ch.channel_id,
            ),
{
}

/// Every channel of the head unit that is of use is asked to be opened.
pub proof fn lemma_channel_is_opened(chs: Seq<ChannelDescriptorView>, i: int)
    requires
        0 <= i < chs.len(),
        opened(kind_of(chs[i])),
    ensures
        all_openings(chs).contains(open_request(chs[i].channel_id)),
    decreases chs.len(),
{
    let front = chs.drop_last();
    let before = all_openings(front);
    let last = openings(chs.last());
    let request = open_request(chs[i].channel_id);
    assert(all_openings(chs) == before + last);
    if i < front.len() {
        lemma_channel_is_opened(front, i);
        let k = choose|k: int| 0 <= k < before.len() && before[k] == request;
        assert((before + last)[k] == request);
    } else {
        lemma_openings(chs.last());
        assert((before + last)[before.len() as int] == request);
    }
}

/// Whatever is sent to open channels and to set them up goes out on a channel of the
/// head unit that is of use.
pub proof fn lemma_only_useful_channels_are_opened(chs: Seq<ChannelDescriptorView>, k: int)
    requires
        0 <= k < all_openings(chs).len(),
    ensures
        exists|i: int|
            0 <= i < chs.len() && opened(kind_of(#[trigger] chs[i])) && all_openings(chs)[k].channel
                == channel_byte(chs[i].channel_id),
    decreases chs.len(),
{
    assert(chs.len() > 0);
    let front = chs.drop_last();
    let before = all_openings(front);
    let last = openings(chs.last());
    assert(all_openings(chs) == before + last);
    if k < before.len() {
        lemma_only_useful_channels_are_opened(front, k);
        let i = choose|i: int|
            0 <= i < front.len() && opened(kind_of(#[trigger] front[i])) && before[k].channel
                == channel_byte(front[i].channel_id);
        assert(chs[i] == front[i]);
    } else {
        lemma_openings(chs.last());
        assert((before + last)[k] == last[k - before.len()]);
        assert(opened(kind_of(chs[chs.len() - 1])));
    }
}

/// A ping is answered with its own timestamp.
pub proof fn lemma_ping_is_echoed(timestamp: i64, offer: ServiceDiscoveryResponseView)
    ensures
        dispatched(
            0,
            0x000b,
            message::bytes_of::<PingRequest>(PingRequest { timestamp }),
            offer,
        ) == Ok::<(Seq<Outbound>, Seq<GpsLocation>), HandleError>(
            (
                seq![
                    channels::said_on::<PingResponse>(0, 0x000c, PingResponse { timestamp }),
                ],
                Seq::empty(),
            ),
        ),
{
    let req = PingRequest { timestamp };
    lemma_ping_len(timestamp);
    message::lemma_message_read_back::<PingRequest>(req);
}

proof fn lemma_ping_len(timestamp: i64)
    ensures
        message::bytes_of::<PingRequest>(PingRequest { timestamp }).len() <= u64::MAX,
{
    let req = PingRequest { timestamp };
    let part = record::scalar_field(1, timestamp as u64);
    let parts = <PingRequest as message::Schema>::parts(req);
    assert(parts =~= seq![part]);
    assert(parts.drop_last() =~= Seq::<Seq<WireField>>::empty());
    assert(message::concat(Seq::<Seq<WireField>>::empty()) =~= Seq::<WireField>::empty());
    assert(message::concat(parts) =~= part);
    reveal_with_fuel(wire::encoded, 3);
    if part.len() > 0 {
        assert(part.drop_first() =~= Seq::<WireField>::empty());
        wire::lemma_varint_len(timestamp as u64);
        wire::lemma_varint_len(8);
    }
}

/// An answer to a request to open a channel, and a complaint, are never answered,
/// and change nothing.
pub proof fn lemma_complaints_are_not_answered(
    v: VideoPipeline,
    states: Map<u8, AudioChannelState>,
    offer: ServiceDiscoveryResponseView,
    channel: u8,
    plain: Seq<u8>,
)
    requires
        plain.len() >= 2,
        is_cross_channel(octets::be16_at(plain, 0)),
    ensures
        framed(v, states, offer, channel, plain) == (
            v,
            states,
            Ok::<Todo, HandleError>(just_send(Seq::empty())),
        ),
{
}

/// The positions that a car tells are those that are handed on, and a car that tells
/// them gets no answer.
pub proof fn lemma_positions_are_handed_on(
    v: VideoPipeline,
    states: Map<u8, AudioChannelState>,
    offer: ServiceDiscoveryResponseView,
    event: SensorEventIndicationView,
)
    requires
        message::bytes_of::<SensorEventIndication>(event).len() <= u64::MAX,
    ensures
        framed(
            v,
            states,
            offer,
            2,
            octets::be16(0x8003) + message::bytes_of::<SensorEventIndication>(event),
        ) == (
            v,
            states,
            Ok::<Todo, HandleError>(
                Todo {
                    replies: Seq::empty(),
                    start: None,
                    audio: Deed::Nothing,
                    fixes: event.gps_location,
                },
            ),
        ),
{
    let body = message::bytes_of::<SensorEventIndication>(event);
    let plain = octets::be16(0x8003) + body;
    octets::lemma_be16_read_back(0x8003);
    assert(plain.skip(2) =~= body);
    assert(plain[0] == octets::be16(0x8003)[0] && plain[1] == octets::be16(0x8003)[1]);
    message::lemma_message_read_back::<SensorEventIndication>(event);
}

/// A stop on another channel than the one that the pictures go out on, and than the
/// video channel itself, does not touch the stream: there it is the answer to
/// another request.
pub proof fn lemma_stop_is_gated(
    v: VideoPipeline,
    states: Map<u8, AudioChannelState>,
    offer: ServiceDiscoveryResponseView,
    channel: u8,
    plain: Seq<u8>,
)
    requires
        plain.len() >= 2,
        octets::be16_at(plain, 0) == 0x8002,
        channel != v.wire,
        channel != 3,
    ensures
        framed(v, states, offer, channel, plain).0 == v,
{
}

/// The head unit's wish to see pictures starts the stream on the channel on which it
/// came, whatever that is.
pub proof fn lemma_video_focus_starts_stream(
    v: VideoPipeline,
    states: Map<u8, AudioChannelState>,
    offer: ServiceDiscoveryResponseView,
    channel: u8,
    plain: Seq<u8>,
)
    requires
        plain.len() >= 2,
        octets::be16_at(plain, 0) == 0x8008,
    ensures
        ({
            let (after, _, todo) = framed(v, states, offer, channel, plain);
            &&& after == pipeline::started(VideoPipeline { wire: channel, ..v }, 1)
            &&& todo matches Ok(t) && t.start == Some(
                StreamStart { generation: after.generation, profile: TestPatternProfile::P1080p30 },
            ) && (!is_audio(channel) && channel != 3 ==> t.replies == seq![video_start(channel)])
        }),
{
}

/// No message makes more frames count as unacknowledged than may be.
pub proof fn lemma_flow_control_kept(
    v: VideoPipeline,
    states: Map<u8, AudioChannelState>,
    offer: ServiceDiscoveryResponseView,
    channel: u8,
    plain: Seq<u8>,
)
    requires
        v.in_flight <= v.max_in_flight,
    ensures
        ({
            let after = framed(v, states, offer, channel, plain).0;
            after.in_flight <= after.max_in_flight && after.max_in_flight == v.max_in_flight
        }),
{
}

/// Whether a channel of the head unit is offered for something that this side uses:
/// sensors, pictures or sound, input, a microphone, Bluetooth or directions.
pub open spec fn offered(ch: ChannelDescriptorView) -> bool {
    ||| ch.sensor_channel is Some
    ||| ch.av_channel is Some
    ||| ch.input_channel is Some
    ||| ch.av_input_channel is Some
    ||| ch.bluetooth_channel is Some
    ||| ch.navigation_channel is Some
}

/// Whether a message asks to open this channel: it goes out on it, and whoever reads it
/// finds the channel's number in it.
#[verifier::opaque]
pub open spec fn asks_to_open(m: Outbound, channel_id: u32) -> bool {
    &&& m.message_id == 0x0007
    &&& m.channel == channel_id % 256
    &&& message::message_of::<ChannelOpenRequest>(m.payload) == Some(
        ChannelOpenRequest { priority: 0, channel_id: channel_id as u64 as i32 },
    )
}

/// The messages of one channel stand together among those of all.
proof fn lemma_openings_at(chs: Seq<ChannelDescriptorView>, i: int) -> (k: int)
    requires
        0 <= i < chs.len(),
    ensures
        0 <= k,
        k + openings(chs[i]).len() <= all_openings(chs).len(),
        all_openings(chs).subrange(k, k + openings(chs[i]).len()) == openings(chs[i]),
    decreases chs.len(),
{
    let front = chs.drop_last();
    let before = all_openings(front);
    let last = openings(chs.last());
    if i < front.len() {
        let k = lemma_openings_at(front, i);
        assert((before + last).subrange(k, k + openings(chs[i]).len()) =~= before.subrange(
            k,
            k + openings(chs[i]).len(),
        ));
        k
    } else {
        assert((before + last).subrange(
            before.len() as int,
            (before.len() + last.len()) as int,
        ) =~= last);
        before.len() as int
    }
}

/// Whether one of these messages asks to open this channel.
pub open spec fn is_asked_for(replies: Seq<Outbound>, channel_id: u32) -> bool {
    exists|k: int| 0 <= k < replies.len() && asks_to_open(#[trigger] replies[k], channel_id)
}

proof fn lemma_offered_at(chs: Seq<ChannelDescriptorView>, i: int)
    requires
        0 <= i < chs.len(),
        offered(chs[i]),
    ensures
        is_asked_for(phone_status() + all_openings(chs), chs[i].channel_id),
{
    let k = lemma_openings_at(chs, i);
    let n = openings(chs[i]).len();
    lemma_open_request_names_its_channel(chs[i].channel_id);
    assert(openings(chs[i])[0] == open_request(chs[i].channel_id));
    assert(all_openings(chs).subrange(k, k + n)[0] == all_openings(chs)[k]);
    reveal(asks_to_open);
    assert((phone_status() + all_openings(chs))[2 + k] == all_openings(chs)[k]);
}

/// What answers a response that can be read.
proof fn lemma_response_answered(
    body: Seq<u8>,
    resp: ServiceDiscoveryResponseView,
    offer: ServiceDiscoveryResponseView,
)
    requires
        message::message_of::<ServiceDiscoveryResponse>(body) == Some(resp),
    ensures
        dispatched(0, 0x0006, body, offer) == Ok::<(Seq<Outbound>, Seq<GpsLocation>), HandleError>(
            (phone_status() + all_openings(resp.channels), Seq::empty()),
        ),
{
}

/// Every channel that the head unit offers for something of use is asked to be opened
/// when it has said what it offers, by a message on that channel with its number in it.
#[verifier::spinoff_prover]
#[verifier::rlimit(40)]
pub proof fn lemma_offered_channels_are_opened(
    body: Seq<u8>,
    resp: ServiceDiscoveryResponseView,
    offer: ServiceDiscoveryResponseView,
    i: int,
)
    requires
        message::message_of::<ServiceDiscoveryResponse>(body) == Some(resp),
        0 <= i < resp.channels.len(),
        offered(resp.channels[i]),
    ensures
        dispatched(0, 0x0006, body, offer) matches Ok((replies, _)) && is_asked_for(
            replies,
            resp.channels[i].channel_id,
        ),
{
    lemma_offered_at(resp.channels, i);
    lemma_response_answered(body, resp, offer);
}

/// What opens a channel and sets it up, from what the head unit says of it: pictures
/// are asked for where it is for pictures, sound where it is for sound, a microphone is
/// opened, a sensor is started, and keys are bound. A channel for Bluetooth or for
/// directions is opened and needs nothing more; any other one is left alone.
pub proof fn lemma_channel_setup(ch: ChannelDescriptorView)
    ensures
        offered(ch) ==> openings(ch).len() >= 1 && asks_to_open(openings(ch)[0], ch.channel_id),
        !offered(ch) ==> openings(ch).len() == 0,
        openings(ch).len() <= 2,
        ({
            let pictures = ch.av_channel matches Some(av) && (av.video_configs.len() > 0
                || av.stream_type == 3);
            let setup = |message_id: u16, payload: Seq<u8>|
                openings(ch).len() == 2 && openings(ch)[1] == (Outbound {
                    channel: (ch.channel_id % 256) as u8,
                    message_id,
                    payload,
                });
            if ch.sensor_channel is Some {
                setup(0x8001, seq![0x08u8, 0x0d, 0x10, 0x00])
            } else if ch.av_channel is Some {
                if pictures {
                    setup(0x8000, seq![0x08u8, 0x03])
                } else {
                    setup(0x8000, seq![0x08u8, 0x01])
                }
            } else if ch.input_channel is Some {
                setup(
                    0x8002,
                    seq![
                        0x0au8,
                        0x0d,
                        0x03,
                        0x04,
                        0x05,
                        0x06,
                        0x13,
                        0x14,
                        0x15,
                        0x16,
                        0x17,
                        0x54,
                        0x55,
                        0x57,
                        0x58,
                    ],
                )
            } else if ch.av_input_channel is Some {
                setup(0x8005, seq![0x08u8, 0x00])
            } else if offered(ch) {
                openings(ch).len() == 1
            } else {
                openings(ch).len() == 0
            }
        }),
{
    lemma_open_request_names_its_channel(ch.channel_id);
    reveal(asks_to_open);
}

/// The messages that follow a response are the state of the phone (a full battery, and
/// no calls) and then the messages of each channel, channel by channel in the order of
/// the response.
pub proof fn lemma_openings_in_order(
    a: Seq<ChannelDescriptorView>,
    b: Seq<ChannelDescriptorView>,
)
    ensures
        all_openings(a + b) == all_openings(a) + all_openings(b),
        b.len() == 1 ==> all_openings(b) == openings(b[0]),
        a.len() == 0 ==> all_openings(a).len() == 0,
        phone_status().len() == 2,
        phone_status()[0] == (Outbound {
            channel: 0,
            message_id: 0x0017,
            payload: seq![0x08u8, 100],
        }),
        phone_status()[1] == (Outbound { channel: 0, message_id: 0x0018, payload: seq![0x08u8, 0] }),
    decreases b.len(),
{
    if b.len() == 0 {
        assert(a + b =~= a);
        assert(all_openings(a) + all_openings(b) =~= all_openings(a));
    } else {
        lemma_openings_in_order(a, b.drop_last());
        assert((a + b).drop_last() =~= a + b.drop_last());
        assert(all_openings(a + b) =~= all_openings(a) + all_openings(b));
        if b.len() == 1 {
            assert(b.drop_last() =~= Seq::<ChannelDescriptorView>::empty());
            assert(all_openings(b) =~= openings(b[0]));
        }
    }
}

/// The requests of the control channel that can be read are granted, each with its own
/// answer on that channel; requests that need no reading are granted whatever they hold.
pub proof fn lemma_requests_are_granted(body: Seq<u8>, offer: ServiceDiscoveryResponseView)
    ensures
        match message::message_of::<AudioFocusRequest>(body) {
            Some(_) => dispatched(0, 0x0012, body, offer) == just_answer(
                channels::said_on::<AudioFocusResponse>(
                    0,
                    0x0013,
                    AudioFocusResponse { audio_focus_state: 1 },
                ),
            ),
            None => dispatched(0, 0x0012, body, offer) is Err,
        },
        match message::message_of::<ChannelOpenRequest>(body) {
            Some(_) => dispatched(0, 0x0007, body, offer) == just_answer(
                channels::said_on::<ChannelOpenResponse>(
                    0,
                    0x0008,
                    ChannelOpenResponse { status: 0 },
                ),
            ),
            None => dispatched(0, 0x0007, body, offer) is Err,
        },
        match message::message_of::<PingRequest>(body) {
            Some(req) => dispatched(0, 0x000b, body, offer) == just_answer(
                channels::said_on::<PingResponse>(
                    0,
                    0x000c,
                    PingResponse { timestamp: req.timestamp },
                ),
            ),
            None => dispatched(0, 0x000b, body, offer) is Err,
        },
        message::message_of::<ServiceDiscoveryRequest>(body) is Some ==> dispatched(
            0,
            0x0005,
            body,
            offer,
        ) == just_answer(channels::said_on::<ServiceDiscoveryResponse>(0, 0x0006, offer)),
        dispatched(0, 0x000d, body, offer) == just_answer(
            channels::said_on::<NavigationFocusResponse>(
                0,
                0x000e,
                NavigationFocusResponse { focus_type: 1 },
            ),
        ),
        dispatched(0, 0x000f, body, offer) == just_answer(
            channels::said_on::<ShutdownResponse>(0, 0x0010, ShutdownResponse {  }),
        ),
{
}

/// One answer, and no positions.
pub open spec fn just_answer(m: Outbound) -> Result<
    (Seq<Outbound>, Seq<GpsLocation>),
    HandleError,
> {
    Ok((seq![m], Seq::empty()))
}

/// No answer, and no positions.
pub open spec fn no_answer() -> Result<(Seq<Outbound>, Seq<GpsLocation>), HandleError> {
    Ok((Seq::empty(), Seq::empty()))
}

/// On the input channel keys are bound, and on the sensor channel sensors are started,
/// each with an answer that all is well; what else comes on the input channel, and all
/// that comes on channels that nothing is known of, is taken without an answer.
pub proof fn lemma_other_requests_are_granted(
    msg_id: u16,
    body: Seq<u8>,
    channel: u8,
    offer: ServiceDiscoveryResponseView,
)
    ensures
        match message::message_of::<BindingRequest>(body) {
            Some(_) => dispatched(1, 0x8002, body, offer) == just_answer(
                channels::said_on::<BindingResponse>(1, 0x8003, BindingResponse { status: 0 }),
            ),
            None => dispatched(1, 0x8002, body, offer) is Err,
        },
        match message::message_of::<SensorStartRequestMessage>(body) {
            Some(_) => dispatched(2, 0x8001, body, offer) == just_answer(
                channels::said_on::<SensorStartResponseMessage>(
                    2,
                    0x8002,
                    SensorStartResponseMessage { status: 0 },
                ),
            ),
            None => dispatched(2, 0x8001, body, offer) is Err,
        },
        match message::message_of::<SensorEventIndication>(body) {
            Some(ev) => dispatched(2, 0x8003, body, offer) == Ok::<
                (Seq<Outbound>, Seq<GpsLocation>),
                HandleError,
            >((Seq::empty(), ev.gps_location)),
            None => dispatched(2, 0x8003, body, offer) is Err,
        },
        msg_id != 0x8002 && msg_id != 0x8008 ==> dispatched(1, msg_id, body, offer) == no_answer(),
        msg_id != 0x8001 && msg_id != 0x8003 && msg_id != 0x8008 ==> dispatched(
            2,
            msg_id,
            body,
            offer,
        ) == no_answer(),
        8 <= channel && msg_id != 0x8008 ==> dispatched(channel, msg_id, body, offer)
            == no_answer(),
{
}

/// The session begins exactly where the first message after the handshake is the fourth
/// of the control channel and its status is zero.
pub proof fn lemma_session_begins(payload: Seq<u8>)
    ensures
        auth_of(payload) is Ok <==> payload.len() >= 2 && payload[0] == 0 && payload[1] == 4 && (
        message::message_of::<AuthCompleteIndication>(payload.skip(2)) matches Some(ind)
            && ind.status == 0),
        payload.len() < 2 ==> auth_of(payload) == Err::<(), AuthError>(
            AuthError::TooShort(payload.len() as usize),
        ),
{
}

/// A message's plaintext holds its number in the first two bytes and its body behind
/// them; and every frame of it is encrypted and on its channel. One frame alone is
/// whole; of several the first says how long the plaintext is, the last ends it, and
/// the others stand between them.
pub proof fn lemma_frames_of_a_message(m: Outbound, k: int, n: int, ciphertext: Seq<u8>)
    requires
        0 <= k < n,
        plain_of(m).len() <= u32::MAX,
    ensures
        octets::be16_at(plain_of(m), 0) == m.message_id,
        plain_of(m).skip(2) == m.payload,
        fragments_of(m).len() == 1 <==> m.payload.len() + 2 <= 7936,
        ({
            let f = sealed_frame(m, k, n, ciphertext);
            &&& f.channel_id == m.channel
            &&& f.encrypted
            &&& f.payload == ciphertext
            &&& f.frame_type is Bulk <==> n == 1
            &&& f.frame_type is First <==> n > 1 && k == 0
            &&& f.frame_type is Last <==> n > 1 && k == n - 1
            &&& f.total_length == if n > 1 && k == 0 {
                Some(plain_of(m).len() as u32)
            } else {
                None
            }
            &&& f.control <==> n == 1 && m.channel != 0 && 7 <= m.message_id <= 8
        }),
{
    octets::lemma_be16_read_back(m.message_id);
    lemma_cut(plain_of(m));
    assert(plain_of(m).skip(2) =~= m.payload);
}

/// An acknowledgement on any channel but the one for pictures makes room for one frame;
/// a stop on the channel that pictures go out on ends every streamer; and other
/// messages on those channels leave the stream as it is.
pub proof fn lemma_stream_is_told(
    v: VideoPipeline,
    states: Map<u8, AudioChannelState>,
    offer: ServiceDiscoveryResponseView,
    channel: u8,
    plain: Seq<u8>,
)
    requires
        plain.len() >= 2,
        channel != 3,
    ensures
        ({
            let after = framed(v, states, offer, channel, plain).0;
            let id = octets::be16_at(plain, 0);
            &&& id == 0x8004 && v.in_flight > 0 ==> after == (VideoPipeline {
                in_flight: (v.in_flight - 1) as u32,
                ..v
            })
            &&& id == 0x8002 && channel == v.wire ==> pipeline::next_step(
                after,
                v.generation,
            ) is Exit && after.in_flight == 0
            &&& id != 0x8002 && id != 0x8004 && id != 0x8008 ==> after == v
        }),
{
}

/// A frame on a sound channel does to it what its message says, and what is answered and
/// done about it is what the sound channels say; sound channels are not touched by
/// frames of other channels.
pub proof fn lemma_sound_is_told(
    v: VideoPipeline,
    states: Map<u8, AudioChannelState>,
    offer: ServiceDiscoveryResponseView,
    channel: u8,
    msg_id: u16,
    body: Seq<u8>,
)
    requires
        msg_id != 0x0008,
        msg_id != 0x00ff,
    ensures
        ({
            let (_, after, todo) = framed(v, states, offer, channel, octets::be16(msg_id) + body);
            &&& !(4 <= channel <= 7) ==> after == states
            &&& 4 <= channel <= 7 ==> {
                let (heard, answer) = audio::all_heard(states, channel, msg_id, body);
                &&& after == heard
                &&& answer is Err ==> todo is Err
                &&& answer matches Ok((replies, deed)) ==> (todo matches Ok(t) && t.replies
                    == replies && t.audio == deed && t.fixes.len() == 0)
            }
        }),
{
    let plain = octets::be16(msg_id) + body;
    octets::lemma_be16_read_back(msg_id);
    assert(plain.skip(2) =~= body);
    assert(plain[0] == octets::be16(msg_id)[0] && plain[1] == octets::be16(msg_id)[1]);
}

/// A frame on the channel for pictures is answered, and starts a streamer, as the video
/// channel says; a request to set it up is granted with the format that the car named,
/// and a start that can be read starts a streamer that may send.
pub proof fn lemma_pictures_are_told(
    v: VideoPipeline,
    states: Map<u8, AudioChannelState>,
    offer: ServiceDiscoveryResponseView,
    body: Seq<u8>,
)
    ensures
        ({
            let (after, kept, todo) = framed(v, states, offer, 3, octets::be16(0x8000) + body);
            &&& after == v
            &&& kept == states
            &&& match message::message_of::<AvChannelSetupRequest>(body) {
                Some(req) => todo matches Ok(t) && t.start is None && t.replies == seq![
                    channels::said_on::<AvChannelSetupResponse>(
                        3,
                        0x8003,
                        AvChannelSetupResponseView {
                            media_status: 2,
                            max_unacked: 10,
                            configs: seq![req.config_index],
                        },
                    ),
                ],
                None => todo is Err,
            }
        }),
        ({
            let (after, kept, todo) = framed(v, states, offer, 3, octets::be16(0x8001) + body);
            &&& kept == states
            &&& match message::message_of::<AvChannelStartIndication>(body) {
                Some(ind) => after.session == ind.session && pipeline::next_step(
                    after,
                    v.generation,
                ) is Exit && (todo matches Ok(t) && t.replies.len() == 0 && (
                t.start matches Some(start) && (v.max_in_flight > 0 ==> pipeline::next_step(
                    after,
                    start.generation,
                ) is Send))),
                None => after == v && todo is Err,
            }
        }),
        ({
            let (after, kept, todo) = framed(v, states, offer, 3, octets::be16(0x8002) + body);
            &&& kept == states
            &&& pipeline::next_step(after, v.generation) is Exit
            &&& after.in_flight == 0
            &&& todo matches Ok(t) && t.replies.len() == 0 && t.start is None
        }),
{
    lemma_plain(0x8000, body);
    lemma_plain(0x8001, body);
    lemma_plain(0x8002, body);
}

proof fn lemma_plain(msg_id: u16, body: Seq<u8>)
    ensures
        octets::be16_at(octets::be16(msg_id) + body, 0) == msg_id,
        (octets::be16(msg_id) + body).skip(2) == body,
{
    let plain = octets::be16(msg_id) + body;
    octets::lemma_be16_read_back(msg_id);
    assert(plain.skip(2) =~= body);
    assert(plain[0] == octets::be16(msg_id)[0] && plain[1] == octets::be16(msg_id)[1]);
}

/// The head unit's wish to see pictures is answered, on its channel, with the message
/// that pictures start, in the first session and the first format.
pub proof fn lemma_video_focus_is_answered(
    channel: u8,
    body: Seq<u8>,
    offer: ServiceDiscoveryResponseView,
)
    ensures
        dispatched(channel, 0x8008, body, offer) == just_answer(
            Outbound {
                channel,
                message_id: 0x8001,
                payload: seq![0x08u8, 0x01, 0x10, 0x00],
            },
        ),
{
}

/// What is no request of the control channel is taken without an answer there, and so is
/// a request for services, or an answer to one, that cannot be read.
pub proof fn lemma_no_request_no_answer(
    msg_id: u16,
    body: Seq<u8>,
    offer: ServiceDiscoveryResponseView,
)
    requires
        msg_id != 0x0006,
        msg_id != 0x0007,
        msg_id != 0x000b,
        msg_id != 0x000d,
        msg_id != 0x000f,
        msg_id != 0x0012,
        msg_id != 0x8008,
        msg_id == 0x0005 ==> message::message_of::<ServiceDiscoveryRequest>(body) is None,
    ensures
        dispatched(0, msg_id, body, offer) == no_answer(),
        message::message_of::<ServiceDiscoveryResponse>(body) is None ==> dispatched(
            0,
            0x0006,
            body,
            offer,
        ) == no_answer(),
{
}

/// What the phone says of itself.
pub proof fn lemma_identity()
    ensures
        identity().label_text == "Auto"@,
        identity().device_name == "Pixel 6"@,
        identity().phone_info matches Some(info) && info.instance_id == "AABOX0123456789"@
            && info.connectivity_lifetime_id == "aabox-rock5bp-1"@,
        identity().small_icon.len() == 0,
        identity().medium_icon.len() == 0,
        identity().large_icon.len() == 0,
{
}

} // verus!
