//! Channels and control-channel messages, and the numbers that stand for them
//! on the wire.
use vstd::prelude::*;

verus! {

/// A channel. Its number is the first byte of every frame.
#[derive(Debug, Clone, Copy, PartialEq, Eq, Hash, Structural)]
pub enum ChannelId {
    Control,
    Input,
    Sensor,
    Video,
    MediaAudio,
    SpeechAudio,
    SystemAudio,
    AvInput,
    Bluetooth,
    Navigation,
    Unset,
}

/// The number of a channel.
pub open spec fn channel_code(c: ChannelId) -> u8 {
    match c {
        ChannelId::Control => 0,
        ChannelId::Input => 1,
        ChannelId::Sensor => 2,
        ChannelId::Video => 3,
        ChannelId::MediaAudio => 4,
        ChannelId::SpeechAudio => 5,
        ChannelId::SystemAudio => 6,
        ChannelId::AvInput => 7,
        ChannelId::Bluetooth => 8,
        ChannelId::Navigation => 9,
        ChannelId::Unset => 255,
    }
}

/// The channel with a number, or the number.
pub open spec fn channel_of(value: u8) -> Result<ChannelId, u8> {
    if value == 0 {
        Ok(ChannelId::Control)
    } else if value == 1 {
        Ok(ChannelId::Input)
    } else if value == 2 {
        Ok(ChannelId::Sensor)
    } else if value == 3 {
        Ok(ChannelId::Video)
    } else if value == 4 {
        Ok(ChannelId::MediaAudio)
    } else if value == 5 {
        Ok(ChannelId::SpeechAudio)
    } else if value == 6 {
        Ok(ChannelId::SystemAudio)
    } else if value == 7 {
        Ok(ChannelId::AvInput)
    } else if value == 8 {
        Ok(ChannelId::Bluetooth)
    } else if value == 9 {
        Ok(ChannelId::Navigation)
    } else if value == 255 {
        Ok(ChannelId::Unset)
    } else {
        Err(value)
    }
}

impl ChannelId {
    /// The number of the channel.
    pub fn code(self) -> (r: u8)
        ensures
            r == channel_code(self),
    {
        match self {
            ChannelId::Control => 0,
            ChannelId::Input => 1,
            ChannelId::Sensor => 2,
            ChannelId::Video => 3,
            ChannelId::MediaAudio => 4,
            ChannelId::SpeechAudio => 5,
            ChannelId::SystemAudio => 6,
            ChannelId::AvInput => 7,
            ChannelId::Bluetooth => 8,
            ChannelId::Navigation => 9,
            ChannelId::Unset => 255,
        }
    }
}

impl TryFrom<u8> for ChannelId {
    type Error = u8;

    fn try_from(value: u8) -> (r: Result<Self, u8>) {
        match value {
            0 => Ok(ChannelId::Control),
            1 => Ok(ChannelId::Input),
            2 => Ok(ChannelId::Sensor),
            3 => Ok(ChannelId::Video),
            4 => Ok(ChannelId::MediaAudio),
            5 => Ok(ChannelId::SpeechAudio),
            6 => Ok(ChannelId::SystemAudio),
            7 => Ok(ChannelId::AvInput),
            8 => Ok(ChannelId::Bluetooth),
            9 => Ok(ChannelId::Navigation),
            255 => Ok(ChannelId::Unset),
            other => Err(other),
        }
    }
}

impl vstd::std_specs::convert::TryFromSpecImpl<u8> for ChannelId {
    open spec fn obeys_try_from_spec() -> bool {
        true
    }

    open spec fn try_from_spec(value: u8) -> Result<Self, u8> {
        channel_of(value)
    }
}

/// A message of the control channel. Its number stands in front of the message.
#[derive(Debug, Clone, Copy, PartialEq, Eq, Hash, Structural)]
pub enum ControlMessageId {
    Unset,
    VersionRequest,
    VersionResponse,
    SslHandshake,
    AuthComplete,
    ServiceDiscoveryRequest,
    ServiceDiscoveryResponse,
    ChannelOpenRequest,
    ChannelOpenResponse,
    PingRequest,
    PingResponse,
    NavigationFocusRequest,
    NavigationFocusResponse,
    ShutdownRequest,
    ShutdownResponse,
    VoiceSessionRequest,
    AudioFocusRequest,
    AudioFocusResponse,
}

/// The number of a control message.
pub open spec fn message_code(m: ControlMessageId) -> u16 {
    match m {
        ControlMessageId::Unset => 0x0000,
        ControlMessageId::VersionRequest => 0x0001,
        ControlMessageId::VersionResponse => 0x0002,
        ControlMessageId::SslHandshake => 0x0003,
        ControlMessageId::AuthComplete => 0x0004,
        ControlMessageId::ServiceDiscoveryRequest => 0x0005,
        ControlMessageId::ServiceDiscoveryResponse => 0x0006,
        ControlMessageId::ChannelOpenRequest => 0x0007,
        ControlMessageId::ChannelOpenResponse => 0x0008,
        ControlMessageId::PingRequest => 0x000b,
        ControlMessageId::PingResponse => 0x000c,
        ControlMessageId::NavigationFocusRequest => 0x000d,
        ControlMessageId::NavigationFocusResponse => 0x000e,
        ControlMessageId::ShutdownRequest => 0x000f,
        ControlMessageId::ShutdownResponse => 0x0010,
        ControlMessageId::VoiceSessionRequest => 0x0011,
        ControlMessageId::AudioFocusRequest => 0x0012,
        ControlMessageId::AudioFocusResponse => 0x0013,
    }
}

/// The control message with a number, or the number.
pub open spec fn message_of(v: u16) -> Result<ControlMessageId, u16> {
    if v == 0x0000 {
        Ok(ControlMessageId::Unset)
    } else if v == 0x0001 {
        Ok(ControlMessageId::VersionRequest)
    } else if v == 0x0002 {
        Ok(ControlMessageId::VersionResponse)
    } else if v == 0x0003 {
        Ok(ControlMessageId::SslHandshake)
    } else if v == 0x0004 {
        Ok(ControlMessageId::AuthComplete)
    } else if v == 0x0005 {
        Ok(ControlMessageId::ServiceDiscoveryRequest)
    } else if v == 0x0006 {
        Ok(ControlMessageId::ServiceDiscoveryResponse)
    } else if v == 0x0007 {
        Ok(ControlMessageId::ChannelOpenRequest)
    } else if v == 0x0008 {
        Ok(ControlMessageId::ChannelOpenResponse)
    } else if v == 0x000b {
        Ok(ControlMessageId::PingRequest)
    } else if v == 0x000c {
        Ok(ControlMessageId::PingResponse)
    } else if v == 0x000d {
        Ok(ControlMessageId::NavigationFocusRequest)
    } else if v == 0x000e {
        Ok(ControlMessageId::NavigationFocusResponse)
    } else if v == 0x000f {
        Ok(ControlMessageId::ShutdownRequest)
    } else if v == 0x0010 {
        Ok(ControlMessageId::ShutdownResponse)
    } else if v == 0x0011 {
        Ok(ControlMessageId::VoiceSessionRequest)
    } else if v == 0x0012 {
        Ok(ControlMessageId::AudioFocusRequest)
    } else if v == 0x0013 {
        Ok(ControlMessageId::AudioFocusResponse)
    } else {
        Err(v)
    }
}

impl ControlMessageId {
    /// The number of the message.
    pub fn code(self) -> (r: u16)
        ensures
            r == message_code(self),
    {
        match self {
            ControlMessageId::Unset => 0x0000,
            ControlMessageId::VersionRequest => 0x0001,
            ControlMessageId::VersionResponse => 0x0002,
            ControlMessageId::SslHandshake => 0x0003,
            ControlMessageId::AuthComplete => 0x0004,
            ControlMessageId::ServiceDiscoveryRequest => 0x0005,
            ControlMessageId::ServiceDiscoveryResponse => 0x0006,
            ControlMessageId::ChannelOpenRequest => 0x0007,
            ControlMessageId::ChannelOpenResponse => 0x0008,
            ControlMessageId::PingRequest => 0x000b,
            ControlMessageId::PingResponse => 0x000c,
            ControlMessageId::NavigationFocusRequest => 0x000d,
            ControlMessageId::NavigationFocusResponse => 0x000e,
            ControlMessageId::ShutdownRequest => 0x000f,
            ControlMessageId::ShutdownResponse => 0x0010,
            ControlMessageId::VoiceSessionRequest => 0x0011,
            ControlMessageId::AudioFocusRequest => 0x0012,
            ControlMessageId::AudioFocusResponse => 0x0013,
        }
    }
}

impl TryFrom<u16> for ControlMessageId {
    type Error = u16;

    fn try_from(v: u16) -> (r: Result<Self, u16>) {
        match v {
            0x0000 => Ok(ControlMessageId::Unset),
            0x0001 => Ok(ControlMessageId::VersionRequest),
            0x0002 => Ok(ControlMessageId::VersionResponse),
            0x0003 => Ok(ControlMessageId::SslHandshake),
            0x0004 => Ok(ControlMessageId::AuthComplete),
            0x0005 => Ok(ControlMessageId::ServiceDiscoveryRequest),
            0x0006 => Ok(ControlMessageId::ServiceDiscoveryResponse),
            0x0007 => Ok(ControlMessageId::ChannelOpenRequest),
            0x0008 => Ok(ControlMessageId::ChannelOpenResponse),
            0x000b => Ok(ControlMessageId::PingRequest),
            0x000c => Ok(ControlMessageId::PingResponse),
            0x000d => Ok(ControlMessageId::NavigationFocusRequest),
            0x000e => Ok(ControlMessageId::NavigationFocusResponse),
            0x000f => Ok(ControlMessageId::ShutdownRequest),
            0x0010 => Ok(ControlMessageId::ShutdownResponse),
            0x0011 => Ok(ControlMessageId::VoiceSessionRequest),
            0x0012 => Ok(ControlMessageId::AudioFocusRequest),
            0x0013 => Ok(ControlMessageId::AudioFocusResponse),
            other => Err(other),
        }
    }
}

impl vstd::std_specs::convert::TryFromSpecImpl<u16> for ControlMessageId {
    open spec fn obeys_try_from_spec() -> bool {
        true
    }

    open spec fn try_from_spec(v: u16) -> Result<Self, u16> {
        message_of(v)
    }
}

/// A channel is found again by its number, and a number that names a channel is
/// that channel's number.
pub proof fn lemma_channel_codes(c: ChannelId, value: u8)
    ensures
        channel_of(channel_code(c)) == Ok::<ChannelId, u8>(c),
        match channel_of(value) {
            Ok(found) => channel_code(found) == value,
            Err(e) => e == value,
        },
{
}

/// A control message is found again by its number, and a number that names a
/// control message is that message's number.
pub proof fn lemma_message_codes(m: ControlMessageId, v: u16)
    ensures
        message_of(message_code(m)) == Ok::<ControlMessageId, u16>(m),
        match message_of(v) {
            Ok(found) => message_code(found) == v,
            Err(e) => e == v,
        },
{
}

/// The numbers of the channels: the ten that a car and a phone use are the first ten, in
/// this order.
pub proof fn lemma_channel_numbers()
    ensures
        channel_of(0) == Ok::<ChannelId, u8>(ChannelId::Control),
        channel_of(1) == Ok::<ChannelId, u8>(ChannelId::Input),
        channel_of(2) == Ok::<ChannelId, u8>(ChannelId::Sensor),
        channel_of(3) == Ok::<ChannelId, u8>(ChannelId::Video),
        channel_of(4) == Ok::<ChannelId, u8>(ChannelId::MediaAudio),
        channel_of(5) == Ok::<ChannelId, u8>(ChannelId::SpeechAudio),
        channel_of(6) == Ok::<ChannelId, u8>(ChannelId::SystemAudio),
        channel_of(7) == Ok::<ChannelId, u8>(ChannelId::AvInput),
        channel_of(8) == Ok::<ChannelId, u8>(ChannelId::Bluetooth),
        channel_of(9) == Ok::<ChannelId, u8>(ChannelId::Navigation),
        channel_of(255) == Ok::<ChannelId, u8>(ChannelId::Unset),
        forall|v: u8| 10 <= v < 255 ==> #[trigger] channel_of(v) is Err,
{
}

/// The numbers of the control messages: an answer has the number behind its request's.
pub proof fn lemma_message_numbers()
    ensures
        message_of(1) == Ok::<ControlMessageId, u16>(ControlMessageId::VersionRequest),
        message_of(2) == Ok::<ControlMessageId, u16>(ControlMessageId::VersionResponse),
        message_of(3) == Ok::<ControlMessageId, u16>(ControlMessageId::SslHandshake),
        message_of(4) == Ok::<ControlMessageId, u16>(ControlMessageId::AuthComplete),
        message_of(5) == Ok::<ControlMessageId, u16>(ControlMessageId::ServiceDiscoveryRequest),
        message_of(6) == Ok::<ControlMessageId, u16>(ControlMessageId::ServiceDiscoveryResponse),
        message_of(7) == Ok::<ControlMessageId, u16>(ControlMessageId::ChannelOpenRequest),
        message_of(8) == Ok::<ControlMessageId, u16>(ControlMessageId::ChannelOpenResponse),
        message_of(11) == Ok::<ControlMessageId, u16>(ControlMessageId::PingRequest),
        message_of(12) == Ok::<ControlMessageId, u16>(ControlMessageId::PingResponse),
        message_of(13) == Ok::<ControlMessageId, u16>(ControlMessageId::NavigationFocusRequest),
        message_of(14) == Ok::<ControlMessageId, u16>(ControlMessageId::NavigationFocusResponse),
        message_of(15) == Ok::<ControlMessageId, u16>(ControlMessageId::ShutdownRequest),
        message_of(16) == Ok::<ControlMessageId, u16>(ControlMessageId::ShutdownResponse),
        message_of(17) == Ok::<ControlMessageId, u16>(ControlMessageId::VoiceSessionRequest),
        message_of(18) == Ok::<ControlMessageId, u16>(ControlMessageId::AudioFocusRequest),
        message_of(19) == Ok::<ControlMessageId, u16>(ControlMessageId::AudioFocusResponse),
        message_of(9) is Err,
        message_of(10) is Err,
        forall|v: u16| v > 19 ==> #[trigger] message_of(v) is Err,
{
}

} // verus!
