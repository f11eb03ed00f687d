//! Which channels are offered, and how each is configured: input, sensors,
//! pictures, media sound, two microphones and turn-by-turn directions.
use crate::channel_id::ChannelId;
use crate::channels::audio;
use crate::control_channel;
use crate::proto::data::{
    AudioConfig, AvChannel, AvChannelView, AvInputChannel, AvInputChannelView, ChannelDescriptor,
    ChannelDescriptorView, InputChannel, InputChannelView, NavigationChannel,
    NavigationChannelView, NavigationImageOptions, Sensor, SensorChannel, SensorChannelView,
    TouchConfig, VideoConfig,
};
use crate::proto::enums;
use crate::proto::message;
use crate::proto::message::Message;
use crate::proto::messages::{ServiceDiscoveryResponse, ServiceDiscoveryResponseView};
use vstd::prelude::*;

verus! {

/// The width of the screen.
pub const SCREEN_W: u32 = 1920;

/// The height of the screen.
pub const SCREEN_H: u32 = 1080;

/// The density of the screen.
pub const SCREEN_DPI: u32 = 160;

/// A channel without a configuration.
pub open spec fn bare(channel_id: u32) -> ChannelDescriptorView {
    ChannelDescriptorView {
        channel_id,
        sensor_channel: None,
        av_channel: None,
        input_channel: None,
        av_input_channel: None,
        bluetooth_channel: None,
        navigation_channel: None,
        vendor_extension_channel: None,
    }
}

/// The sensors whose events the car is asked for.
pub open spec fn sensor_offer() -> ChannelDescriptorView {
    ChannelDescriptorView {
        sensor_channel: Some(
            SensorChannelView {
                sensors: seq![
                    Sensor { sensor_type: enums::SENSOR_LOCATION },
                    Sensor { sensor_type: enums::SENSOR_DRIVING_STATUS },
                    Sensor { sensor_type: enums::SENSOR_GEAR },
                    Sensor { sensor_type: enums::SENSOR_PARKING_BRAKE },
                    Sensor { sensor_type: enums::SENSOR_NIGHT_DATA },
                    Sensor { sensor_type: enums::SENSOR_CAR_SPEED },
                    Sensor { sensor_type: enums::SENSOR_COMPASS },
                ],
            },
        ),
        ..bare(2)
    }
}

/// A picture format at thirty frames a second without margins.
pub open spec fn video_config_of(video_resolution: i32) -> VideoConfig {
    VideoConfig {
        video_resolution,
        video_fps: enums::VIDEO_FPS_30,
        margin_width: 0,
        margin_height: 0,
        dpi: SCREEN_DPI,
        additional_depth: 0,
    }
}

/// Pictures: 1080p first, and 720p for a car that cannot show it.
pub open spec fn video_offer() -> ChannelDescriptorView {
    ChannelDescriptorView {
        av_channel: Some(
            AvChannelView {
                stream_type: enums::AV_STREAM_TYPE_VIDEO,
                audio_type: enums::AUDIO_TYPE_NONE,
                audio_configs: Seq::empty(),
                video_configs: seq![
                    video_config_of(enums::VIDEO_RESOLUTION_1080P),
                    video_config_of(enums::VIDEO_RESOLUTION_720P),
                ],
                available_while_in_call: true,
            },
        ),
        ..bare(3)
    }
}

/// The keys that are bound.
pub open spec fn keys() -> Seq<u32> {
    seq![
        enums::BUTTON_HOME,
        enums::BUTTON_BACK,
        enums::BUTTON_MENU,
        enums::BUTTON_PHONE,
        enums::BUTTON_CALL_END,
        enums::BUTTON_MICROPHONE_1,
        enums::BUTTON_UP,
        enums::BUTTON_DOWN,
        enums::BUTTON_LEFT,
        enums::BUTTON_RIGHT,
        enums::BUTTON_ENTER,
        enums::BUTTON_TOGGLE_PLAY,
        enums::BUTTON_NEXT,
        enums::BUTTON_PREV,
        enums::BUTTON_PLAY,
        enums::BUTTON_PAUSE,
    ]
}

/// Touch on the whole screen, and keys.
pub open spec fn input_offer() -> ChannelDescriptorView {
    ChannelDescriptorView {
        input_channel: Some(
            InputChannelView {
                supported_keycodes: keys(),
                touch_screen_config: Some(TouchConfig { width: SCREEN_W, height: SCREEN_H }),
                touch_pad_config: None,
            },
        ),
        ..bare(1)
    }
}

/// Sixteen-bit stereo sound.
pub open spec fn stereo_of(sample_rate: u32) -> AudioConfig {
    AudioConfig { sample_rate, bit_depth: 16, channel_count: 2 }
}

/// Media sound to the car.
pub open spec fn media_audio_offer() -> ChannelDescriptorView {
    ChannelDescriptorView {
        av_channel: Some(
            AvChannelView {
                stream_type: enums::AV_STREAM_TYPE_AUDIO,
                audio_type: enums::AUDIO_TYPE_MEDIA,
                audio_configs: seq![stereo_of(48_000)],
                video_configs: Seq::empty(),
                available_while_in_call: false,
            },
        ),
        ..bare(4)
    }
}

/// Sound from the car.
pub open spec fn audio_in_offer(channel_id: u32, sample_rate: u32) -> ChannelDescriptorView {
    ChannelDescriptorView {
        av_input_channel: Some(
            AvInputChannelView {
                stream_type: enums::AV_STREAM_TYPE_AUDIO,
                audio_config: Some(stereo_of(sample_rate)),
                available_while_in_call: true,
            },
        ),
        ..bare(channel_id)
    }
}

/// Turn-by-turn directions, at most once a second.
pub open spec fn navigation_offer() -> ChannelDescriptorView {
    ChannelDescriptorView {
        navigation_channel: Some(
            NavigationChannelView {
                minimum_interval_ms: 1000,
                channel_type: 1,
                image_options: Some(
                    NavigationImageOptions { width: 256, height: 256, colour_depth_bits: 16 },
                ),
            },
        ),
        ..bare(9)
    }
}

/// The response that offers these channels.
pub open spec fn response_with(
    channels: Seq<ChannelDescriptorView>,
) -> ServiceDiscoveryResponseView {
    ServiceDiscoveryResponseView {
        channels,
        head_unit_name: "AABox"@,
        car_model: "Generic"@,
        car_year: "2026"@,
        car_serial: "AABOX0001"@,
        left_hand_drive_vehicle: true,
        headunit_manufacturer: "AABox"@,
        headunit_model: "CM5"@,
        sw_build: "0.1.0"@,
        sw_version: "1.0"@,
        can_play_native_media_during_vr: false,
        hide_clock: false,
    }
}

/// All channels.
pub open spec fn full_offer() -> Seq<ChannelDescriptorView> {
    seq![
        input_offer(),
        sensor_offer(),
        video_offer(),
        media_audio_offer(),
        audio_in_offer(5, 16_000),
        audio_in_offer(6, 48_000),
        navigation_offer(),
    ]
}

/// Sensors and pictures only.
pub open spec fn minimal_offer() -> Seq<ChannelDescriptorView> {
    seq![sensor_offer(), video_offer()]
}

fn response(channels: Vec<ChannelDescriptor>) -> (r: ServiceDiscoveryResponse)
    ensures
        r@ == response_with(message::said::<ChannelDescriptor>(channels@)),
{
    ServiceDiscoveryResponse {
        channels,
        head_unit_name: "AABox".to_string(),
        car_model: "Generic".to_string(),
        car_year: "2026".to_string(),
        car_serial: "AABOX0001".to_string(),
        left_hand_drive_vehicle: true,
        headunit_manufacturer: "AABox".to_string(),
        headunit_model: "CM5".to_string(),
        sw_build: "0.1.0".to_string(),
        sw_version: "1.0".to_string(),
        can_play_native_media_during_vr: false,
        hide_clock: false,
    }
}

/// The response with every channel that a car needs to see before it starts
/// projection.
pub fn full_response() -> (r: ServiceDiscoveryResponse)
    ensures
        r@ == response_with(full_offer()),
{
    let channels: Vec<ChannelDescriptor> = vec![
        input_descriptor(),
        sensor_descriptor(),
        video_descriptor(),
        media_audio_descriptor(),
        audio_in_descriptor(ChannelId::SpeechAudio.code() as u32, 16_000),
        audio_in_descriptor(ChannelId::SystemAudio.code() as u32, 48_000),
        navigation_descriptor(),
    ];
    assert(message::said::<ChannelDescriptor>(channels@) =~= full_offer());
    response(channels)
}

/// The response with sensors and pictures only.
pub fn minimal_response() -> (r: ServiceDiscoveryResponse)
    ensures
        r@ == response_with(minimal_offer()),
{
    let channels: Vec<ChannelDescriptor> = vec![sensor_descriptor(), video_descriptor()];
    assert(message::said::<ChannelDescriptor>(channels@) =~= minimal_offer());
    response(channels)
}

/// The bytes of a response, without the frame's header and the message's number.
pub fn encode_response(resp: &ServiceDiscoveryResponse) -> (r: Vec<u8>)
    ensures
        r@ == message::bytes_of::<ServiceDiscoveryResponse>(resp@),
{
    resp.encode_to_vec()
}

fn sensor_descriptor() -> (r: ChannelDescriptor)
    ensures
        r@ == sensor_offer(),
{
    let sensors: Vec<Sensor> = vec![
        Sensor { sensor_type: enums::SENSOR_LOCATION },
        Sensor { sensor_type: enums::SENSOR_DRIVING_STATUS },
        Sensor { sensor_type: enums::SENSOR_GEAR },
        Sensor { sensor_type: enums::SENSOR_PARKING_BRAKE },
        Sensor { sensor_type: enums::SENSOR_NIGHT_DATA },
        Sensor { sensor_type: enums::SENSOR_CAR_SPEED },
        Sensor { sensor_type: enums::SENSOR_COMPASS },
    ];
    assert(message::said::<Sensor>(sensors@) =~= sensor_offer().sensor_channel->Some_0.sensors);
    ChannelDescriptor {
        channel_id: ChannelId::Sensor.code() as u32,
        sensor_channel: Some(SensorChannel { sensors }),
        av_channel: None,
        input_channel: None,
        av_input_channel: None,
        bluetooth_channel: None,
        navigation_channel: None,
        vendor_extension_channel: None,
    }
}

fn video_config(video_resolution: i32) -> (r: VideoConfig)
    ensures
        r == video_config_of(video_resolution),
{
    VideoConfig {
        video_resolution,
        video_fps: enums::VIDEO_FPS_30,
        margin_width: 0,
        margin_height: 0,
        dpi: SCREEN_DPI,
        additional_depth: 0,
    }
}

fn video_descriptor() -> (r: ChannelDescriptor)
    ensures
        r@ == video_offer(),
{
    let video_configs: Vec<VideoConfig> = vec![
        video_config(enums::VIDEO_RESOLUTION_1080P),
        video_config(enums::VIDEO_RESOLUTION_720P),
    ];
    let audio_configs: Vec<AudioConfig> = Vec::new();
    assert(message::said::<VideoConfig>(video_configs@)
        =~= video_offer().av_channel->Some_0.video_configs);
    assert(message::said::<AudioConfig>(audio_configs@) =~= Seq::<AudioConfig>::empty());
    ChannelDescriptor {
        channel_id: ChannelId::Video.code() as u32,
        sensor_channel: None,
        av_channel: Some(
            AvChannel {
                stream_type: enums::AV_STREAM_TYPE_VIDEO,
                audio_type: enums::AUDIO_TYPE_NONE,
                audio_configs,
                video_configs,
                available_while_in_call: true,
            },
        ),
        input_channel: None,
        av_input_channel: None,
        bluetooth_channel: None,
        navigation_channel: None,
        vendor_extension_channel: None,
    }
}

fn input_descriptor() -> (r: ChannelDescriptor)
    ensures
        r@ == input_offer(),
{
    let supported_keycodes: Vec<u32> = vec![
        enums::BUTTON_HOME,
        enums::BUTTON_BACK,
        enums::BUTTON_MENU,
        enums::BUTTON_PHONE,
        enums::BUTTON_CALL_END,
        enums::BUTTON_MICROPHONE_1,
        enums::BUTTON_UP,
        enums::BUTTON_DOWN,
        enums::BUTTON_LEFT,
        enums::BUTTON_RIGHT,
        enums::BUTTON_ENTER,
        enums::BUTTON_TOGGLE_PLAY,
        enums::BUTTON_NEXT,
        enums::BUTTON_PREV,
        enums::BUTTON_PLAY,
        enums::BUTTON_PAUSE,
    ];
    assert(supported_keycodes@ =~= keys());
    ChannelDescriptor {
        channel_id: ChannelId::Input.code() as u32,
        sensor_channel: None,
        av_channel: None,
        input_channel: Some(
            InputChannel {
                supported_keycodes,
                touch_screen_config: Some(TouchConfig { width: SCREEN_W, height: SCREEN_H }),
                touch_pad_config: None,
            },
        ),
        av_input_channel: None,
        bluetooth_channel: None,
        navigation_channel: None,
        vendor_extension_channel: None,
    }
}

fn stereo(sample_rate: u32) -> (r: AudioConfig)
    ensures
        r == stereo_of(sample_rate),
{
    AudioConfig { sample_rate, bit_depth: 16, channel_count: 2 }
}

fn media_audio_descriptor() -> (r: ChannelDescriptor)
    ensures
        r@ == media_audio_offer(),
{
    let audio_configs: Vec<AudioConfig> = vec![stereo(48_000)];
    let video_configs: Vec<VideoConfig> = Vec::new();
    assert(message::said::<AudioConfig>(audio_configs@)
        =~= media_audio_offer().av_channel->Some_0.audio_configs);
    assert(message::said::<VideoConfig>(video_configs@) =~= Seq::<VideoConfig>::empty());
    ChannelDescriptor {
        channel_id: ChannelId::MediaAudio.code() as u32,
        sensor_channel: None,
        av_channel: Some(
            AvChannel {
                stream_type: enums::AV_STREAM_TYPE_AUDIO,
                audio_type: enums::AUDIO_TYPE_MEDIA,
                audio_configs,
                video_configs,
                available_while_in_call: false,
            },
        ),
        input_channel: None,
        av_input_channel: None,
        bluetooth_channel: None,
        navigation_channel: None,
        vendor_extension_channel: None,
    }
}

fn audio_in_descriptor(channel_id: u32, sample_rate: u32) -> (r: ChannelDescriptor)
    ensures
        r@ == audio_in_offer(channel_id, sample_rate),
{
    ChannelDescriptor {
        channel_id,
        sensor_channel: None,
        av_channel: None,
        input_channel: None,
        av_input_channel: Some(
            AvInputChannel {
                stream_type: enums::AV_STREAM_TYPE_AUDIO,
                audio_config: Some(stereo(sample_rate)),
                available_while_in_call: true,
            },
        ),
        bluetooth_channel: None,
        navigation_channel: None,
        vendor_extension_channel: None,
    }
}

fn navigation_descriptor() -> (r: ChannelDescriptor)
    ensures
        r@ == navigation_offer(),
{
    ChannelDescriptor {
        channel_id: ChannelId::Navigation.code() as u32,
        sensor_channel: None,
        av_channel: None,
        input_channel: None,
        av_input_channel: None,
        bluetooth_channel: None,
        navigation_channel: Some(
            NavigationChannel {
                minimum_interval_ms: 1000,
                channel_type: 1,
                image_options: Some(
                    NavigationImageOptions { width: 256, height: 256, colour_depth_bits: 16 },
                ),
            },
        ),
        vendor_extension_channel: None,
    }
}

/// The channels that are offered, by their numbers: input, sensors, pictures, media
/// sound, two microphones and directions. Each is for one thing only, and the number is
/// the one under which its messages are handled.
pub proof fn lemma_offered_channels()
    ensures
        full_offer().len() == 7,
        full_offer()[0].channel_id == 1 && full_offer()[0].input_channel is Some,
        full_offer()[1].channel_id == 2 && full_offer()[1].sensor_channel is Some,
        full_offer()[2].channel_id == 3 && full_offer()[2].av_channel is Some,
        full_offer()[3].channel_id == 4 && full_offer()[3].av_channel is Some,
        full_offer()[4].channel_id == 5 && full_offer()[4].av_input_channel is Some,
        full_offer()[5].channel_id == 6 && full_offer()[5].av_input_channel is Some,
        full_offer()[6].channel_id == 9 && full_offer()[6].navigation_channel is Some,
        minimal_offer().len() == 2,
        minimal_offer()[0] == full_offer()[1],
        minimal_offer()[1] == full_offer()[2],
        forall|i: int|
            0 <= i < 7 ==> (#[trigger] full_offer()[i]).bluetooth_channel is None
                && full_offer()[i].vendor_extension_channel is None,
        forall|i: int, j: int|
            0 <= i < j < 7 ==> (#[trigger] full_offer()[i]).channel_id != (
            #[trigger] full_offer()[j]).channel_id,
{
}

/// Each channel is of the kind that its number stands for, so that a peer that opens
/// what it is offered opens all of them.
pub proof fn lemma_offered_kinds()
    ensures
        control_channel::kind_of(full_offer()[0]) is Input,
        control_channel::kind_of(full_offer()[1]) is Sensor,
        control_channel::kind_of(full_offer()[2]) is Video,
        control_channel::kind_of(full_offer()[3]) is AudioMedia,
        control_channel::kind_of(full_offer()[4]) is AvInput,
        control_channel::kind_of(full_offer()[5]) is AvInput,
        control_channel::kind_of(full_offer()[6]) is Navigation,
{
}

/// The sound that is offered on a channel is the sound that is handled on it.
pub proof fn lemma_offered_sound()
    ensures
        ({
            let media = full_offer()[3].av_channel->Some_0.audio_configs;
            let speech = full_offer()[4].av_input_channel->Some_0.audio_config->Some_0;
            let system = full_offer()[5].av_input_channel->Some_0.audio_config->Some_0;
            &&& media.len() == 1
            &&& same_sound(media[0], ChannelId::MediaAudio)
            &&& same_sound(speech, ChannelId::SpeechAudio)
            &&& same_sound(system, ChannelId::SystemAudio)
            &&& full_offer()[3].av_channel->Some_0.stream_type == 1
            &&& full_offer()[3].av_channel->Some_0.audio_type == 3
            &&& full_offer()[3].av_channel->Some_0.video_configs.len() == 0
            &&& full_offer()[4].av_input_channel->Some_0.stream_type == 1
            &&& full_offer()[5].av_input_channel->Some_0.stream_type == 1
        }),
{
}

/// Whether a format that is offered is the one of a channel.
pub open spec fn same_sound(offer: AudioConfig, channel: ChannelId) -> bool {
    audio::format_of(channel) matches Some(f) && f.sample_rate == offer.sample_rate && f.channels
        == offer.channel_count && f.bit_depth == offer.bit_depth
}

/// Pictures are offered at 1080 lines first and at 720 lines then, at thirty frames a
/// second and without margins; touch covers 1920 by 1080 points; and directions come at
/// most once a second, with an icon.
pub proof fn lemma_offered_screen()
    ensures
        ({
            let av = full_offer()[2].av_channel->Some_0;
            &&& av.stream_type == 3
            &&& av.audio_configs.len() == 0
            &&& av.video_configs.len() == 2
            &&& av.video_configs[0].video_resolution == 3
            &&& av.video_configs[1].video_resolution == 2
            &&& forall|i: int|
                0 <= i < 2 ==> (#[trigger] av.video_configs[i]).video_fps == 1
                    && av.video_configs[i].margin_width == 0 && av.video_configs[i].margin_height
                    == 0 && av.video_configs[i].dpi == 160 && av.video_configs[i].additional_depth
                    == 0
        }),
        ({
            let input = full_offer()[0].input_channel->Some_0;
            &&& input.touch_screen_config == Some(TouchConfig { width: 1920, height: 1080 })
            &&& input.touch_pad_config is None
            &&& input.supported_keycodes == seq![
                0x03u32,
                0x04,
                0x02,
                0x05,
                0x06,
                0x54,
                0x13,
                0x14,
                0x15,
                0x16,
                0x17,
                0x55,
                0x57,
                0x58,
                0x7e,
                0x7f,
            ]
        }),
        ({
            let nav = full_offer()[6].navigation_channel->Some_0;
            &&& nav.minimum_interval_ms == 1000
            &&& nav.channel_type == 1
            &&& nav.image_options == Some(
                NavigationImageOptions { width: 256, height: 256, colour_depth_bits: 16 },
            )
        }),
        ({
            let sensors = full_offer()[1].sensor_channel->Some_0.sensors;
            sensors == seq![
                Sensor { sensor_type: 1 },
                Sensor { sensor_type: 13 },
                Sensor { sensor_type: 8 },
                Sensor { sensor_type: 7 },
                Sensor { sensor_type: 10 },
                Sensor { sensor_type: 3 },
                Sensor { sensor_type: 2 },
            ]
        }),
{
    assert(full_offer()[0].input_channel->Some_0.supported_keycodes =~= seq![
        0x03u32,
        0x04,
        0x02,
        0x05,
        0x06,
        0x54,
        0x13,
        0x14,
        0x15,
        0x16,
        0x17,
        0x55,
        0x57,
        0x58,
        0x7e,
        0x7f,
    ]);
}

/// An answer offers the channels that it is made of, and says whose it is.
pub proof fn lemma_response(channels: Seq<ChannelDescriptorView>)
    ensures
        response_with(channels).channels == channels,
        response_with(channels).head_unit_name == "AABox"@,
        response_with(channels).car_model == "Generic"@,
        response_with(channels).car_year == "2026"@,
        response_with(channels).car_serial == "AABOX0001"@,
        response_with(channels).headunit_manufacturer == "AABox"@,
        response_with(channels).headunit_model == "CM5"@,
        response_with(channels).sw_build == "0.1.0"@,
        response_with(channels).sw_version == "1.0"@,
        response_with(channels).left_hand_drive_vehicle,
        !response_with(channels).can_play_native_media_during_vr,
        !response_with(channels).hide_clock,
{
}

} // verus!
