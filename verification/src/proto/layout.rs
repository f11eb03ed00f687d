//! The bytes of messages.
//!
//! A field is a key and a value. A number's key is eight times the field's number, and a
//! number that is zero is left out; the key of a text, of bytes or of a message within a
//! message is two more, and its length follows. Fields stand in the order of their
//! numbers.
use crate::proto::data::{
    AudioConfig, AvChannel, AvChannelView, AvInputChannel, AvInputChannelView, BluetoothChannel,
    BluetoothChannelView, ChannelDescriptor, ChannelDescriptorView, DrivingStatus, Gear,
    GpsLocation, InputChannel, InputChannelView, NavigationChannel, NavigationChannelView,
    NavigationImageOptions, Sensor, SensorChannel, SensorChannelView, Speed, TouchConfig,
    VendorExtensionChannel, VendorExtensionChannelView, VideoConfig,
};
use crate::proto::message;
use crate::proto::message::Schema;
use crate::proto::messages::{
    AudioFocusRequest, AudioFocusResponse, AuthCompleteIndication, AvChannelSetupRequest,
    AvChannelSetupResponse, AvChannelSetupResponseView, AvChannelStartIndication,
    AvInputOpenRequest, AvInputOpenResponse, AvMediaAckIndication, BindingRequest,
    BindingRequestView, BindingResponse, ChannelOpenRequest, ChannelOpenResponse,
    NavigationFocusRequest, NavigationFocusResponse, PhoneInfo, PhoneInfoView, PingRequest,
    PingResponse, SensorEventIndication, SensorEventIndicationView, SensorStartRequestMessage,
    SensorStartResponseMessage, ServiceDiscoveryRequest, ServiceDiscoveryRequestView,
    ServiceDiscoveryResponse, ServiceDiscoveryResponseView, ShutdownResponse,
};
use crate::proto::record;
use crate::proto::wire;
use crate::proto::wire::{WireField, WireValue};
use vstd::prelude::*;
use vstd::utf8;

verus! {

/// A number behind its key; nothing where it is zero.
pub open spec fn number(key: u8, x: u64) -> Seq<u8> {
    if x == 0 {
        Seq::empty()
    } else {
        seq![key] + wire::varint(x)
    }
}

/// Bytes behind their key and their length.
pub open spec fn body(key: u8, b: Seq<u8>) -> Seq<u8> {
    seq![key] + (wire::varint(b.len() as u64) + b)
}

/// Bytes behind their key and their length; nothing where there are none.
pub open spec fn blob(key: u8, b: Seq<u8>) -> Seq<u8> {
    if b.len() == 0 {
        Seq::empty()
    } else {
        body(key, b)
    }
}

/// A text behind its key and its length; nothing where it is empty.
pub open spec fn text(key: u8, s: Seq<char>) -> Seq<u8> {
    blob(key, utf8::encode_utf8(s))
}

/// A message behind its key and its length, if there is one.
pub open spec fn maybe(key: u8, b: Option<Seq<u8>>) -> Seq<u8> {
    match b {
        Some(b) => body(key, b),
        None => Seq::empty(),
    }
}

/// Messages or texts, each behind its key and its length.
pub open spec fn bodies(key: u8, bs: Seq<Seq<u8>>) -> Seq<u8>
    decreases bs.len(),
{
    if bs.len() == 0 {
        Seq::empty()
    } else {
        bodies(key, bs.drop_last()) + body(key, bs.last())
    }
}

proof fn lemma_one_field(f: WireField)
    ensures
        wire::encoded(seq![f]) == wire::encoded_field(f),
{
    reveal_with_fuel(wire::encoded, 2);
    assert(seq![f].drop_first() =~= Seq::<WireField>::empty());
    assert(wire::encoded(seq![f]) =~= wire::encoded_field(f));
}

proof fn lemma_number(tag: u32, x: u64)
    requires
        1 <= tag < 16,
    ensures
        wire::encoded(record::scalar_field(tag, x)) == number((8 * tag) as u8, x),
{
    lemma_one_field(WireField { tag, value: WireValue::Varint(x) });
}

proof fn lemma_body(tag: u32, b: Seq<u8>)
    requires
        1 <= tag < 16,
    ensures
        wire::encoded(record::message_field(tag, b)) == body((8 * tag + 2) as u8, b),
{
    lemma_one_field(WireField { tag, value: WireValue::Delimited(b) });
}

proof fn lemma_blob(tag: u32, b: Seq<u8>)
    requires
        1 <= tag < 16,
    ensures
        wire::encoded(record::blob_field(tag, b)) == blob((8 * tag + 2) as u8, b),
{
    lemma_body(tag, b);
}

proof fn lemma_maybe(tag: u32, b: Option<Seq<u8>>)
    requires
        1 <= tag < 16,
    ensures
        wire::encoded(record::optional_field(tag, b)) == maybe((8 * tag + 2) as u8, b),
{
    if let Some(b) = b {
        lemma_body(tag, b);
    }
}

proof fn lemma_bodies(tag: u32, bs: Seq<Seq<u8>>)
    requires
        1 <= tag < 16,
    ensures
        wire::encoded(record::repeated_field(tag, bs)) == bodies((8 * tag + 2) as u8, bs),
    decreases bs.len(),
{
    if bs.len() > 0 {
        let front = record::repeated_field(tag, bs.drop_last());
        let last = record::message_field(tag, bs.last());
        lemma_bodies(tag, bs.drop_last());
        lemma_body(tag, bs.last());
        wire::lemma_encoded_concat(front, last);
        assert(record::repeated_field(tag, bs) =~= front + last);
    } else {
        assert(record::repeated_field(tag, bs) =~= Seq::<WireField>::empty());
    }
}

proof fn lemma_one_part(p: Seq<WireField>)
    ensures
        wire::encoded(message::concat(seq![p])) == wire::encoded(p),
{
    assert(seq![p].drop_last() =~= Seq::<Seq<WireField>>::empty());
    assert(message::concat(seq![p].drop_last()) =~= Seq::<WireField>::empty());
    assert(message::concat(seq![p]) =~= p);
}

proof fn lemma_next_part(parts: Seq<Seq<WireField>>, p: Seq<WireField>)
    ensures
        wire::encoded(message::concat(parts.push(p))) == wire::encoded(message::concat(parts))
            + wire::encoded(p),
{
    assert(parts.push(p).drop_last() =~= parts);
    wire::lemma_encoded_concat(message::concat(parts), p);
}

/// The bytes of a [`Sensor`].
pub proof fn lemma_sensor(v: Sensor)
    ensures
        message::bytes_of::<Sensor>(v) == number(0x08, v.sensor_type as u64),
{
    let p1 = record::scalar_field(1, v.sensor_type as u64);
    lemma_number(1, v.sensor_type as u64);
    lemma_one_part(p1);
    assert(<Sensor as Schema>::parts(v) =~= seq![p1]);
}

/// The bytes of a [`SensorChannel`].
pub proof fn lemma_sensor_channel(v: SensorChannelView)
    ensures
        message::bytes_of::<SensorChannel>(v) == bodies(0x0a,
            message::of_repeated::<Sensor>(v.sensors)),
{
    let p1 = record::repeated_field(1, message::of_repeated::<Sensor>(v.sensors));
    lemma_bodies(1, message::of_repeated::<Sensor>(v.sensors));
    lemma_one_part(p1);
    assert(<SensorChannel as Schema>::parts(v) =~= seq![p1]);
}

/// The bytes of a [`AudioConfig`].
pub proof fn lemma_audio_config(v: AudioConfig)
    ensures
        message::bytes_of::<AudioConfig>(v) == number(0x08, v.sample_rate as u64)
            + number(0x10, v.bit_depth as u64) + number(0x18, v.channel_count as u64),
{
    let p1 = record::scalar_field(1, v.sample_rate as u64);
    let p2 = record::scalar_field(2, v.bit_depth as u64);
    let p3 = record::scalar_field(3, v.channel_count as u64);
    lemma_number(1, v.sample_rate as u64);
    lemma_number(2, v.bit_depth as u64);
    lemma_number(3, v.channel_count as u64);
    lemma_one_part(p1);
    lemma_next_part(seq![p1], p2);
    assert(seq![p1].push(p2) =~= seq![p1, p2]);
    lemma_next_part(seq![p1, p2], p3);
    assert(seq![p1, p2].push(p3) =~= seq![p1, p2, p3]);
    assert(<AudioConfig as Schema>::parts(v) =~= seq![p1, p2, p3]);
}

/// The bytes of a [`VideoConfig`].
pub proof fn lemma_video_config(v: VideoConfig)
    ensures
        message::bytes_of::<VideoConfig>(v) == number(0x08, v.video_resolution as u64)
            + number(0x10, v.video_fps as u64) + number(0x18, v.margin_width as u64)
            + number(0x20, v.margin_height as u64) + number(0x28, v.dpi as u64)
            + number(0x30, v.additional_depth as u64),
{
    let p1 = record::scalar_field(1, v.video_resolution as u64);
    let p2 = record::scalar_field(2, v.video_fps as u64);
    let p3 = record::scalar_field(3, v.margin_width as u64);
    let p4 = record::scalar_field(4, v.margin_height as u64);
    let p5 = record::scalar_field(5, v.dpi as u64);
    let p6 = record::scalar_field(6, v.additional_depth as u64);
    lemma_number(1, v.video_resolution as u64);
    lemma_number(2, v.video_fps as u64);
    lemma_number(3, v.margin_width as u64);
    lemma_number(4, v.margin_height as u64);
    lemma_number(5, v.dpi as u64);
    lemma_number(6, v.additional_depth as u64);
    lemma_one_part(p1);
    lemma_next_part(seq![p1], p2);
    assert(seq![p1].push(p2) =~= seq![p1, p2]);
    lemma_next_part(seq![p1, p2], p3);
    assert(seq![p1, p2].push(p3) =~= seq![p1, p2, p3]);
    lemma_next_part(seq![p1, p2, p3], p4);
    assert(seq![p1, p2, p3].push(p4) =~= seq![p1, p2, p3, p4]);
    lemma_next_part(seq![p1, p2, p3, p4], p5);
    assert(seq![p1, p2, p3, p4].push(p5) =~= seq![p1, p2, p3, p4, p5]);
    lemma_next_part(seq![p1, p2, p3, p4, p5], p6);
    assert(seq![p1, p2, p3, p4, p5].push(p6) =~= seq![p1, p2, p3, p4, p5, p6]);
    assert(<VideoConfig as Schema>::parts(v) =~= seq![p1, p2, p3, p4, p5, p6]);
}

/// The bytes of a [`AvChannel`].
pub proof fn lemma_av_channel(v: AvChannelView)
    ensures
        message::bytes_of::<AvChannel>(v) == number(0x08, v.stream_type as u64)
            + number(0x10, v.audio_type as u64)
            + bodies(0x1a, message::of_repeated::<AudioConfig>(v.audio_configs))
            + bodies(0x22, message::of_repeated::<VideoConfig>(v.video_configs))
            + number(0x28, (if v.available_while_in_call { 1u64 } else { 0u64 })),
{
    let p1 = record::scalar_field(1, v.stream_type as u64);
    let p2 = record::scalar_field(2, v.audio_type as u64);
    let p3 = record::repeated_field(3, message::of_repeated::<AudioConfig>(v.audio_configs));
    let p4 = record::repeated_field(4, message::of_repeated::<VideoConfig>(v.video_configs));
    let p5 = record::scalar_field(5, message::bit(v.available_while_in_call));
    lemma_number(1, v.stream_type as u64);
    lemma_number(2, v.audio_type as u64);
    lemma_bodies(3, message::of_repeated::<AudioConfig>(v.audio_configs));
    lemma_bodies(4, message::of_repeated::<VideoConfig>(v.video_configs));
    lemma_number(5, message::bit(v.available_while_in_call));
    lemma_one_part(p1);
    lemma_next_part(seq![p1], p2);
    assert(seq![p1].push(p2) =~= seq![p1, p2]);
    lemma_next_part(seq![p1, p2], p3);
    assert(seq![p1, p2].push(p3) =~= seq![p1, p2, p3]);
    lemma_next_part(seq![p1, p2, p3], p4);
    assert(seq![p1, p2, p3].push(p4) =~= seq![p1, p2, p3, p4]);
    lemma_next_part(seq![p1, p2, p3, p4], p5);
    assert(seq![p1, p2, p3, p4].push(p5) =~= seq![p1, p2, p3, p4, p5]);
    assert(<AvChannel as Schema>::parts(v) =~= seq![p1, p2, p3, p4, p5]);
}

/// The bytes of a [`TouchConfig`].
pub proof fn lemma_touch_config(v: TouchConfig)
    ensures
        message::bytes_of::<TouchConfig>(v) == number(0x08, v.width as u64)
            + number(0x10, v.height as u64),
{
    let p1 = record::scalar_field(1, v.width as u64);
    let p2 = record::scalar_field(2, v.height as u64);
    lemma_number(1, v.width as u64);
    lemma_number(2, v.height as u64);
    lemma_one_part(p1);
    lemma_next_part(seq![p1], p2);
    assert(seq![p1].push(p2) =~= seq![p1, p2]);
    assert(<TouchConfig as Schema>::parts(v) =~= seq![p1, p2]);
}

/// The bytes of a [`InputChannel`].
pub proof fn lemma_input_channel(v: InputChannelView)
    ensures
        message::bytes_of::<InputChannel>(v) == blob(0x0a, record::packed(message::of_uint32s(v.supported_keycodes)))
            + maybe(0x12, message::of_optional::<TouchConfig>(v.touch_screen_config))
            + maybe(0x1a, message::of_optional::<TouchConfig>(v.touch_pad_config)),
{
    let p1 = record::packed_field(1, message::of_uint32s(v.supported_keycodes));
    let p2 = record::optional_field(2, message::of_optional::<TouchConfig>(v.touch_screen_config));
    let p3 = record::optional_field(3, message::of_optional::<TouchConfig>(v.touch_pad_config));
    lemma_blob(1, record::packed(message::of_uint32s(v.supported_keycodes)));
    lemma_maybe(2, message::of_optional::<TouchConfig>(v.touch_screen_config));
    lemma_maybe(3, message::of_optional::<TouchConfig>(v.touch_pad_config));
    lemma_one_part(p1);
    lemma_next_part(seq![p1], p2);
    assert(seq![p1].push(p2) =~= seq![p1, p2]);
    lemma_next_part(seq![p1, p2], p3);
    assert(seq![p1, p2].push(p3) =~= seq![p1, p2, p3]);
    assert(<InputChannel as Schema>::parts(v) =~= seq![p1, p2, p3]);
}

/// The bytes of a [`AvInputChannel`].
pub proof fn lemma_av_input_channel(v: AvInputChannelView)
    ensures
        message::bytes_of::<AvInputChannel>(v) == number(0x08, v.stream_type as u64)
            + maybe(0x12, message::of_optional::<AudioConfig>(v.audio_config))
            + number(0x18, (if v.available_while_in_call { 1u64 } else { 0u64 })),
{
    let p1 = record::scalar_field(1, v.stream_type as u64);
    let p2 = record::optional_field(2, message::of_optional::<AudioConfig>(v.audio_config));
    let p3 = record::scalar_field(3, message::bit(v.available_while_in_call));
    lemma_number(1, v.stream_type as u64);
    lemma_maybe(2, message::of_optional::<AudioConfig>(v.audio_config));
    lemma_number(3, message::bit(v.available_while_in_call));
    lemma_one_part(p1);
    lemma_next_part(seq![p1], p2);
    assert(seq![p1].push(p2) =~= seq![p1, p2]);
    lemma_next_part(seq![p1, p2], p3);
    assert(seq![p1, p2].push(p3) =~= seq![p1, p2, p3]);
    assert(<AvInputChannel as Schema>::parts(v) =~= seq![p1, p2, p3]);
}

/// The bytes of a [`BluetoothChannel`].
pub proof fn lemma_bluetooth_channel(v: BluetoothChannelView)
    ensures
        message::bytes_of::<BluetoothChannel>(v) == text(0x0a, v.adapter_address)
            + blob(0x12, record::packed(message::of_int32s(v.supported_pairing_methods))),
{
    let p1 = record::string_field(1, v.adapter_address);
    let p2 = record::packed_field(2, message::of_int32s(v.supported_pairing_methods));
    lemma_blob(1, utf8::encode_utf8(v.adapter_address));
    lemma_blob(2, record::packed(message::of_int32s(v.supported_pairing_methods)));
    lemma_one_part(p1);
    lemma_next_part(seq![p1], p2);
    assert(seq![p1].push(p2) =~= seq![p1, p2]);
    assert(<BluetoothChannel as Schema>::parts(v) =~= seq![p1, p2]);
}

/// The bytes of a [`NavigationImageOptions`].
pub proof fn lemma_navigation_image_options(v: NavigationImageOptions)
    ensures
        message::bytes_of::<NavigationImageOptions>(v) == number(0x08, v.width as u64)
            + number(0x10, v.height as u64) + number(0x18, v.colour_depth_bits as u64),
{
    let p1 = record::scalar_field(1, v.width as u64);
    let p2 = record::scalar_field(2, v.height as u64);
    let p3 = record::scalar_field(3, v.colour_depth_bits as u64);
    lemma_number(1, v.width as u64);
    lemma_number(2, v.height as u64);
    lemma_number(3, v.colour_depth_bits as u64);
    lemma_one_part(p1);
    lemma_next_part(seq![p1], p2);
    assert(seq![p1].push(p2) =~= seq![p1, p2]);
    lemma_next_part(seq![p1, p2], p3);
    assert(seq![p1, p2].push(p3) =~= seq![p1, p2, p3]);
    assert(<NavigationImageOptions as Schema>::parts(v) =~= seq![p1, p2, p3]);
}

/// The bytes of a [`NavigationChannel`].
pub proof fn lemma_navigation_channel(v: NavigationChannelView)
    ensures
        message::bytes_of::<NavigationChannel>(v) == number(0x08, v.minimum_interval_ms as u64)
            + number(0x10, v.channel_type as u64)
            + maybe(0x1a, message::of_optional::<NavigationImageOptions>(v.image_options)),
{
    let p1 = record::scalar_field(1, v.minimum_interval_ms as u64);
    let p2 = record::scalar_field(2, v.channel_type as u64);
    let p3 = record::optional_field(3,
        message::of_optional::<NavigationImageOptions>(v.image_options));
    lemma_number(1, v.minimum_interval_ms as u64);
    lemma_number(2, v.channel_type as u64);
    lemma_maybe(3, message::of_optional::<NavigationImageOptions>(v.image_options));
    lemma_one_part(p1);
    lemma_next_part(seq![p1], p2);
    assert(seq![p1].push(p2) =~= seq![p1, p2]);
    lemma_next_part(seq![p1, p2], p3);
    assert(seq![p1, p2].push(p3) =~= seq![p1, p2, p3]);
    assert(<NavigationChannel as Schema>::parts(v) =~= seq![p1, p2, p3]);
}

/// The bytes of a [`VendorExtensionChannel`].
pub proof fn lemma_vendor_extension_channel(v: VendorExtensionChannelView)
    ensures
        message::bytes_of::<VendorExtensionChannel>(v) == text(0x0a, v.name)
            + bodies(0x12, message::of_strings(v.package_white_list)) + blob(0x1a, v.data),
{
    let p1 = record::string_field(1, v.name);
    let p2 = record::repeated_field(2, message::of_strings(v.package_white_list));
    let p3 = record::blob_field(3, v.data);
    lemma_blob(1, utf8::encode_utf8(v.name));
    lemma_bodies(2, message::of_strings(v.package_white_list));
    lemma_blob(3, v.data);
    lemma_one_part(p1);
    lemma_next_part(seq![p1], p2);
    assert(seq![p1].push(p2) =~= seq![p1, p2]);
    lemma_next_part(seq![p1, p2], p3);
    assert(seq![p1, p2].push(p3) =~= seq![p1, p2, p3]);
    assert(<VendorExtensionChannel as Schema>::parts(v) =~= seq![p1, p2, p3]);
}

/// The bytes of a [`ChannelDescriptor`].
pub proof fn lemma_channel_descriptor(v: ChannelDescriptorView)
    ensures
        message::bytes_of::<ChannelDescriptor>(v) == number(0x08, v.channel_id as u64)
            + maybe(0x12, message::of_optional::<SensorChannel>(v.sensor_channel))
            + maybe(0x1a, message::of_optional::<AvChannel>(v.av_channel))
            + maybe(0x22, message::of_optional::<InputChannel>(v.input_channel))
            + maybe(0x2a, message::of_optional::<AvInputChannel>(v.av_input_channel))
            + maybe(0x32, message::of_optional::<BluetoothChannel>(v.bluetooth_channel))
            + maybe(0x42, message::of_optional::<NavigationChannel>(v.navigation_channel))
            + maybe(0x62, message::of_optional::<VendorExtensionChannel>(v.vendor_extension_channel)),
{
    let p1 = record::scalar_field(1, v.channel_id as u64);
    let p2 = record::optional_field(2, message::of_optional::<SensorChannel>(v.sensor_channel));
    let p3 = record::optional_field(3, message::of_optional::<AvChannel>(v.av_channel));
    let p4 = record::optional_field(4, message::of_optional::<InputChannel>(v.input_channel));
    let p5 = record::optional_field(5, message::of_optional::<AvInputChannel>(v.av_input_channel));
    let p6 = record::optional_field(6,
        message::of_optional::<BluetoothChannel>(v.bluetooth_channel));
    let p7 = record::optional_field(8,
        message::of_optional::<NavigationChannel>(v.navigation_channel));
    let p8 = record::optional_field(12,
        message::of_optional::<VendorExtensionChannel>(v.vendor_extension_channel));
    lemma_number(1, v.channel_id as u64);
    lemma_maybe(2, message::of_optional::<SensorChannel>(v.sensor_channel));
    lemma_maybe(3, message::of_optional::<AvChannel>(v.av_channel));
    lemma_maybe(4, message::of_optional::<InputChannel>(v.input_channel));
    lemma_maybe(5, message::of_optional::<AvInputChannel>(v.av_input_channel));
    lemma_maybe(6, message::of_optional::<BluetoothChannel>(v.bluetooth_channel));
    lemma_maybe(8, message::of_optional::<NavigationChannel>(v.navigation_channel));
    lemma_maybe(12, message::of_optional::<VendorExtensionChannel>(v.vendor_extension_channel));
    lemma_one_part(p1);
    lemma_next_part(seq![p1], p2);
    assert(seq![p1].push(p2) =~= seq![p1, p2]);
    lemma_next_part(seq![p1, p2], p3);
    assert(seq![p1, p2].push(p3) =~= seq![p1, p2, p3]);
    lemma_next_part(seq![p1, p2, p3], p4);
    assert(seq![p1, p2, p3].push(p4) =~= seq![p1, p2, p3, p4]);
    lemma_next_part(seq![p1, p2, p3, p4], p5);
    assert(seq![p1, p2, p3, p4].push(p5) =~= seq![p1, p2, p3, p4, p5]);
    lemma_next_part(seq![p1, p2, p3, p4, p5], p6);
    assert(seq![p1, p2, p3, p4, p5].push(p6) =~= seq![p1, p2, p3, p4, p5, p6]);
    lemma_next_part(seq![p1, p2, p3, p4, p5, p6], p7);
    assert(seq![p1, p2, p3, p4, p5, p6].push(p7) =~= seq![p1, p2, p3, p4, p5, p6, p7]);
    lemma_next_part(seq![p1, p2, p3, p4, p5, p6, p7], p8);
    assert(seq![p1, p2, p3, p4, p5, p6, p7].push(p8) =~= seq![p1, p2, p3, p4, p5, p6, p7, p8]);
    assert(<ChannelDescriptor as Schema>::parts(v) =~= seq![p1, p2, p3, p4, p5, p6, p7, p8]);
}

/// The bytes of a [`GpsLocation`].
pub proof fn lemma_gps_location(v: GpsLocation)
    ensures
        message::bytes_of::<GpsLocation>(v) == number(0x08, v.timestamp)
            + number(0x10, v.latitude as u64) + number(0x18, v.longitude as u64)
            + number(0x20, v.accuracy as u64) + number(0x28, v.altitude as u64)
            + number(0x30, v.speed as u64) + number(0x38, v.bearing as u64),
{
    let p1 = record::scalar_field(1, v.timestamp);
    let p2 = record::scalar_field(2, v.latitude as u64);
    let p3 = record::scalar_field(3, v.longitude as u64);
    let p4 = record::scalar_field(4, v.accuracy as u64);
    let p5 = record::scalar_field(5, v.altitude as u64);
    let p6 = record::scalar_field(6, v.speed as u64);
    let p7 = record::scalar_field(7, v.bearing as u64);
    lemma_number(1, v.timestamp);
    lemma_number(2, v.latitude as u64);
    lemma_number(3, v.longitude as u64);
    lemma_number(4, v.accuracy as u64);
    lemma_number(5, v.altitude as u64);
    lemma_number(6, v.speed as u64);
    lemma_number(7, v.bearing as u64);
    lemma_one_part(p1);
    lemma_next_part(seq![p1], p2);
    assert(seq![p1].push(p2) =~= seq![p1, p2]);
    lemma_next_part(seq![p1, p2], p3);
    assert(seq![p1, p2].push(p3) =~= seq![p1, p2, p3]);
    lemma_next_part(seq![p1, p2, p3], p4);
    assert(seq![p1, p2, p3].push(p4) =~= seq![p1, p2, p3, p4]);
    lemma_next_part(seq![p1, p2, p3, p4], p5);
    assert(seq![p1, p2, p3, p4].push(p5) =~= seq![p1, p2, p3, p4, p5]);
    lemma_next_part(seq![p1, p2, p3, p4, p5], p6);
    assert(seq![p1, p2, p3, p4, p5].push(p6) =~= seq![p1, p2, p3, p4, p5, p6]);
    lemma_next_part(seq![p1, p2, p3, p4, p5, p6], p7);
    assert(seq![p1, p2, p3, p4, p5, p6].push(p7) =~= seq![p1, p2, p3, p4, p5, p6, p7]);
    assert(<GpsLocation as Schema>::parts(v) =~= seq![p1, p2, p3, p4, p5, p6, p7]);
}

/// The bytes of a [`Speed`].
pub proof fn lemma_speed(v: Speed)
    ensures
        message::bytes_of::<Speed>(v) == number(0x08, v.speed as u64)
            + number(0x10, (if v.cruise_engaged { 1u64 } else { 0u64 }))
            + number(0x20, (if v.cruise_set_speed { 1u64 } else { 0u64 })),
{
    let p1 = record::scalar_field(1, v.speed as u64);
    let p2 = record::scalar_field(2, message::bit(v.cruise_engaged));
    let p3 = record::scalar_field(4, message::bit(v.cruise_set_speed));
    lemma_number(1, v.speed as u64);
    lemma_number(2, message::bit(v.cruise_engaged));
    lemma_number(4, message::bit(v.cruise_set_speed));
    lemma_one_part(p1);
    lemma_next_part(seq![p1], p2);
    assert(seq![p1].push(p2) =~= seq![p1, p2]);
    lemma_next_part(seq![p1, p2], p3);
    assert(seq![p1, p2].push(p3) =~= seq![p1, p2, p3]);
    assert(<Speed as Schema>::parts(v) =~= seq![p1, p2, p3]);
}

/// The bytes of a [`Gear`].
pub proof fn lemma_gear(v: Gear)
    ensures
        message::bytes_of::<Gear>(v) == number(0x08, v.gear as u64),
{
    let p1 = record::scalar_field(1, v.gear as u64);
    lemma_number(1, v.gear as u64);
    lemma_one_part(p1);
    assert(<Gear as Schema>::parts(v) =~= seq![p1]);
}

/// The bytes of a [`DrivingStatus`].
pub proof fn lemma_driving_status(v: DrivingStatus)
    ensures
        message::bytes_of::<DrivingStatus>(v) == number(0x08, v.status as u64),
{
    let p1 = record::scalar_field(1, v.status as u64);
    lemma_number(1, v.status as u64);
    lemma_one_part(p1);
    assert(<DrivingStatus as Schema>::parts(v) =~= seq![p1]);
}

/// The bytes of a [`ServiceDiscoveryResponse`].
#[verifier::spinoff_prover]
#[verifier::rlimit(100)]
pub proof fn lemma_service_discovery_response(v: ServiceDiscoveryResponseView)
    ensures
        message::bytes_of::<ServiceDiscoveryResponse>(v) == bodies(0x0a, message::of_repeated::<ChannelDescriptor>(v.channels))
            + text(0x12, v.head_unit_name) + text(0x1a, v.car_model) + text(0x22, v.car_year)
            + text(0x2a, v.car_serial)
            + number(0x30, (if v.left_hand_drive_vehicle { 1u64 } else { 0u64 }))
            + text(0x3a, v.headunit_manufacturer) + text(0x42, v.headunit_model)
            + text(0x4a, v.sw_build) + text(0x52, v.sw_version)
            + number(0x58, (if v.can_play_native_media_during_vr { 1u64 } else { 0u64 }))
            + number(0x60, (if v.hide_clock { 1u64 } else { 0u64 })),
{
    let p1 = record::repeated_field(1, message::of_repeated::<ChannelDescriptor>(v.channels));
    let p2 = record::string_field(2, v.head_unit_name);
    let p3 = record::string_field(3, v.car_model);
    let p4 = record::string_field(4, v.car_year);
    let p5 = record::string_field(5, v.car_serial);
    let p6 = record::scalar_field(6, message::bit(v.left_hand_drive_vehicle));
    let p7 = record::string_field(7, v.headunit_manufacturer);
    let p8 = record::string_field(8, v.headunit_model);
    let p9 = record::string_field(9, v.sw_build);
    let p10 = record::string_field(10, v.sw_version);
    let p11 = record::scalar_field(11, message::bit(v.can_play_native_media_during_vr));
    let p12 = record::scalar_field(12, message::bit(v.hide_clock));
    lemma_bodies(1, message::of_repeated::<ChannelDescriptor>(v.channels));
    lemma_blob(2, utf8::encode_utf8(v.head_unit_name));
    lemma_blob(3, utf8::encode_utf8(v.car_model));
    lemma_blob(4, utf8::encode_utf8(v.car_year));
    lemma_blob(5, utf8::encode_utf8(v.car_serial));
    lemma_number(6, message::bit(v.left_hand_drive_vehicle));
    lemma_blob(7, utf8::encode_utf8(v.headunit_manufacturer));
    lemma_blob(8, utf8::encode_utf8(v.headunit_model));
    lemma_blob(9, utf8::encode_utf8(v.sw_build));
    lemma_blob(10, utf8::encode_utf8(v.sw_version));
    lemma_number(11, message::bit(v.can_play_native_media_during_vr));
    lemma_number(12, message::bit(v.hide_clock));
    lemma_one_part(p1);
    lemma_next_part(seq![p1], p2);
    assert(seq![p1].push(p2) =~= seq![p1, p2]);
    lemma_next_part(seq![p1, p2], p3);
    assert(seq![p1, p2].push(p3) =~= seq![p1, p2, p3]);
    lemma_next_part(seq![p1, p2, p3], p4);
    assert(seq![p1, p2, p3].push(p4) =~= seq![p1, p2, p3, p4]);
    lemma_next_part(seq![p1, p2, p3, p4], p5);
    assert(seq![p1, p2, p3, p4].push(p5) =~= seq![p1, p2, p3, p4, p5]);
    lemma_next_part(seq![p1, p2, p3, p4, p5], p6);
    assert(seq![p1, p2, p3, p4, p5].push(p6) =~= seq![p1, p2, p3, p4, p5, p6]);
    lemma_next_part(seq![p1, p2, p3, p4, p5, p6], p7);
    assert(seq![p1, p2, p3, p4, p5, p6].push(p7) =~= seq![p1, p2, p3, p4, p5, p6, p7]);
    lemma_next_part(seq![p1, p2, p3, p4, p5, p6, p7], p8);
    assert(seq![p1, p2, p3, p4, p5, p6, p7].push(p8) =~= seq![p1, p2, p3, p4, p5, p6, p7, p8]);
    lemma_next_part(seq![p1, p2, p3, p4, p5, p6, p7, p8], p9);
    assert(seq![p1, p2, p3, p4, p5, p6, p7, p8].push(p9) =~= seq![p1, p2, p3, p4, p5, p6, p7, p8,
        p9]);
    lemma_next_part(seq![p1, p2, p3, p4, p5, p6, p7, p8, p9], p10);
    assert(seq![p1, p2, p3, p4, p5, p6, p7, p8, p9].push(p10) =~= seq![p1, p2, p3, p4, p5, p6, p7,
        p8, p9, p10]);
    lemma_next_part(seq![p1, p2, p3, p4, p5, p6, p7, p8, p9, p10], p11);
    assert(seq![p1, p2, p3, p4, p5, p6, p7, p8, p9, p10].push(p11) =~= seq![p1, p2, p3, p4, p5,
        p6, p7, p8, p9, p10, p11]);
    lemma_next_part(seq![p1, p2, p3, p4, p5, p6, p7, p8, p9, p10, p11], p12);
    assert(seq![p1, p2, p3, p4, p5, p6, p7, p8, p9, p10, p11].push(p12) =~= seq![p1, p2, p3, p4,
        p5, p6, p7, p8, p9, p10, p11, p12]);
    assert(<ServiceDiscoveryResponse as Schema>::parts(v) =~= seq![p1, p2, p3, p4, p5, p6, p7, p8,
        p9, p10, p11, p12]);
}

/// The bytes of a [`PhoneInfo`].
pub proof fn lemma_phone_info(v: PhoneInfoView)
    ensures
        message::bytes_of::<PhoneInfo>(v) == text(0x0a, v.instance_id)
            + text(0x12, v.connectivity_lifetime_id),
{
    let p1 = record::string_field(1, v.instance_id);
    let p2 = record::string_field(2, v.connectivity_lifetime_id);
    lemma_blob(1, utf8::encode_utf8(v.instance_id));
    lemma_blob(2, utf8::encode_utf8(v.connectivity_lifetime_id));
    lemma_one_part(p1);
    lemma_next_part(seq![p1], p2);
    assert(seq![p1].push(p2) =~= seq![p1, p2]);
    assert(<PhoneInfo as Schema>::parts(v) =~= seq![p1, p2]);
}

/// The bytes of a [`ServiceDiscoveryRequest`].
pub proof fn lemma_service_discovery_request(v: ServiceDiscoveryRequestView)
    ensures
        message::bytes_of::<ServiceDiscoveryRequest>(v) == blob(0x0a, v.small_icon)
            + blob(0x12, v.medium_icon) + blob(0x1a, v.large_icon) + text(0x22, v.label_text)
            + text(0x2a, v.device_name)
            + maybe(0x32, message::of_optional::<PhoneInfo>(v.phone_info)),
{
    let p1 = record::blob_field(1, v.small_icon);
    let p2 = record::blob_field(2, v.medium_icon);
    let p3 = record::blob_field(3, v.large_icon);
    let p4 = record::string_field(4, v.label_text);
    let p5 = record::string_field(5, v.device_name);
    let p6 = record::optional_field(6, message::of_optional::<PhoneInfo>(v.phone_info));
    lemma_blob(1, v.small_icon);
    lemma_blob(2, v.medium_icon);
    lemma_blob(3, v.large_icon);
    lemma_blob(4, utf8::encode_utf8(v.label_text));
    lemma_blob(5, utf8::encode_utf8(v.device_name));
    lemma_maybe(6, message::of_optional::<PhoneInfo>(v.phone_info));
    lemma_one_part(p1);
    lemma_next_part(seq![p1], p2);
    assert(seq![p1].push(p2) =~= seq![p1, p2]);
    lemma_next_part(seq![p1, p2], p3);
    assert(seq![p1, p2].push(p3) =~= seq![p1, p2, p3]);
    lemma_next_part(seq![p1, p2, p3], p4);
    assert(seq![p1, p2, p3].push(p4) =~= seq![p1, p2, p3, p4]);
    lemma_next_part(seq![p1, p2, p3, p4], p5);
    assert(seq![p1, p2, p3, p4].push(p5) =~= seq![p1, p2, p3, p4, p5]);
    lemma_next_part(seq![p1, p2, p3, p4, p5], p6);
    assert(seq![p1, p2, p3, p4, p5].push(p6) =~= seq![p1, p2, p3, p4, p5, p6]);
    assert(<ServiceDiscoveryRequest as Schema>::parts(v) =~= seq![p1, p2, p3, p4, p5, p6]);
}

/// The bytes of a [`PingRequest`].
pub proof fn lemma_ping_request(v: PingRequest)
    ensures
        message::bytes_of::<PingRequest>(v) == number(0x08, v.timestamp as u64),
{
    let p1 = record::scalar_field(1, v.timestamp as u64);
    lemma_number(1, v.timestamp as u64);
    lemma_one_part(p1);
    assert(<PingRequest as Schema>::parts(v) =~= seq![p1]);
}

/// The bytes of a [`PingResponse`].
pub proof fn lemma_ping_response(v: PingResponse)
    ensures
        message::bytes_of::<PingResponse>(v) == number(0x08, v.timestamp as u64),
{
    let p1 = record::scalar_field(1, v.timestamp as u64);
    lemma_number(1, v.timestamp as u64);
    lemma_one_part(p1);
    assert(<PingResponse as Schema>::parts(v) =~= seq![p1]);
}

/// The bytes of a [`AudioFocusRequest`].
pub proof fn lemma_audio_focus_request(v: AudioFocusRequest)
    ensures
        message::bytes_of::<AudioFocusRequest>(v) == number(0x08, v.audio_focus_type as u64),
{
    let p1 = record::scalar_field(1, v.audio_focus_type as u64);
    lemma_number(1, v.audio_focus_type as u64);
    lemma_one_part(p1);
    assert(<AudioFocusRequest as Schema>::parts(v) =~= seq![p1]);
}

/// The bytes of a [`AudioFocusResponse`].
pub proof fn lemma_audio_focus_response(v: AudioFocusResponse)
    ensures
        message::bytes_of::<AudioFocusResponse>(v) == number(0x08, v.audio_focus_state as u64),
{
    let p1 = record::scalar_field(1, v.audio_focus_state as u64);
    lemma_number(1, v.audio_focus_state as u64);
    lemma_one_part(p1);
    assert(<AudioFocusResponse as Schema>::parts(v) =~= seq![p1]);
}

/// The bytes of a [`NavigationFocusRequest`].
pub proof fn lemma_navigation_focus_request(v: NavigationFocusRequest)
    ensures
        message::bytes_of::<NavigationFocusRequest>(v) == number(0x08, v.focus_type as u64),
{
    let p1 = record::scalar_field(1, v.focus_type as u64);
    lemma_number(1, v.focus_type as u64);
    lemma_one_part(p1);
    assert(<NavigationFocusRequest as Schema>::parts(v) =~= seq![p1]);
}

/// The bytes of a [`NavigationFocusResponse`].
pub proof fn lemma_navigation_focus_response(v: NavigationFocusResponse)
    ensures
        message::bytes_of::<NavigationFocusResponse>(v) == number(0x08, v.focus_type as u64),
{
    let p1 = record::scalar_field(1, v.focus_type as u64);
    lemma_number(1, v.focus_type as u64);
    lemma_one_part(p1);
    assert(<NavigationFocusResponse as Schema>::parts(v) =~= seq![p1]);
}

/// The bytes of a [`ChannelOpenRequest`].
pub proof fn lemma_channel_open_request(v: ChannelOpenRequest)
    ensures
        message::bytes_of::<ChannelOpenRequest>(v) == number(0x08, v.priority as u64)
            + number(0x10, v.channel_id as u64),
{
    let p1 = record::scalar_field(1, v.priority as u64);
    let p2 = record::scalar_field(2, v.channel_id as u64);
    lemma_number(1, v.priority as u64);
    lemma_number(2, v.channel_id as u64);
    lemma_one_part(p1);
    lemma_next_part(seq![p1], p2);
    assert(seq![p1].push(p2) =~= seq![p1, p2]);
    assert(<ChannelOpenRequest as Schema>::parts(v) =~= seq![p1, p2]);
}

/// The bytes of a [`ChannelOpenResponse`].
pub proof fn lemma_channel_open_response(v: ChannelOpenResponse)
    ensures
        message::bytes_of::<ChannelOpenResponse>(v) == number(0x08, v.status as u64),
{
    let p1 = record::scalar_field(1, v.status as u64);
    lemma_number(1, v.status as u64);
    lemma_one_part(p1);
    assert(<ChannelOpenResponse as Schema>::parts(v) =~= seq![p1]);
}

/// The bytes of a [`AuthCompleteIndication`].
pub proof fn lemma_auth_complete_indication(v: AuthCompleteIndication)
    ensures
        message::bytes_of::<AuthCompleteIndication>(v) == number(0x08, v.status as u64),
{
    let p1 = record::scalar_field(1, v.status as u64);
    lemma_number(1, v.status as u64);
    lemma_one_part(p1);
    assert(<AuthCompleteIndication as Schema>::parts(v) =~= seq![p1]);
}

/// The bytes of a [`ShutdownResponse`].
pub proof fn lemma_shutdown_response(v: ShutdownResponse)
    ensures
        message::bytes_of::<ShutdownResponse>(v) == Seq::<u8>::empty(),
{
    assert(message::concat(Seq::<Seq<WireField>>::empty()) =~= Seq::<WireField>::empty());
    assert(<ShutdownResponse as Schema>::parts(v) =~= Seq::<Seq<WireField>>::empty());
}

/// The bytes of a [`AvChannelSetupRequest`].
pub proof fn lemma_av_channel_setup_request(v: AvChannelSetupRequest)
    ensures
        message::bytes_of::<AvChannelSetupRequest>(v) == number(0x08, v.config_index as u64),
{
    let p1 = record::scalar_field(1, v.config_index as u64);
    lemma_number(1, v.config_index as u64);
    lemma_one_part(p1);
    assert(<AvChannelSetupRequest as Schema>::parts(v) =~= seq![p1]);
}

/// The bytes of a [`AvChannelSetupResponse`].
pub proof fn lemma_av_channel_setup_response(v: AvChannelSetupResponseView)
    ensures
        message::bytes_of::<AvChannelSetupResponse>(v) == number(0x08, v.media_status as u64)
            + number(0x10, v.max_unacked as u64)
            + blob(0x1a, record::packed(message::of_uint32s(v.configs))),
{
    let p1 = record::scalar_field(1, v.media_status as u64);
    let p2 = record::scalar_field(2, v.max_unacked as u64);
    let p3 = record::packed_field(3, message::of_uint32s(v.configs));
    lemma_number(1, v.media_status as u64);
    lemma_number(2, v.max_unacked as u64);
    lemma_blob(3, record::packed(message::of_uint32s(v.configs)));
    lemma_one_part(p1);
    lemma_next_part(seq![p1], p2);
    assert(seq![p1].push(p2) =~= seq![p1, p2]);
    lemma_next_part(seq![p1, p2], p3);
    assert(seq![p1, p2].push(p3) =~= seq![p1, p2, p3]);
    assert(<AvChannelSetupResponse as Schema>::parts(v) =~= seq![p1, p2, p3]);
}

/// The bytes of a [`AvChannelStartIndication`].
pub proof fn lemma_av_channel_start_indication(v: AvChannelStartIndication)
    ensures
        message::bytes_of::<AvChannelStartIndication>(v) == number(0x08, v.session as u64)
            + number(0x10, v.config as u64),
{
    let p1 = record::scalar_field(1, v.session as u64);
    let p2 = record::scalar_field(2, v.config as u64);
    lemma_number(1, v.session as u64);
    lemma_number(2, v.config as u64);
    lemma_one_part(p1);
    lemma_next_part(seq![p1], p2);
    assert(seq![p1].push(p2) =~= seq![p1, p2]);
    assert(<AvChannelStartIndication as Schema>::parts(v) =~= seq![p1, p2]);
}

/// The bytes of a [`AvMediaAckIndication`].
pub proof fn lemma_av_media_ack_indication(v: AvMediaAckIndication)
    ensures
        message::bytes_of::<AvMediaAckIndication>(v) == number(0x08, v.session as u64)
            + number(0x10, v.value as u64),
{
    let p1 = record::scalar_field(1, v.session as u64);
    let p2 = record::scalar_field(2, v.value as u64);
    lemma_number(1, v.session as u64);
    lemma_number(2, v.value as u64);
    lemma_one_part(p1);
    lemma_next_part(seq![p1], p2);
    assert(seq![p1].push(p2) =~= seq![p1, p2]);
    assert(<AvMediaAckIndication as Schema>::parts(v) =~= seq![p1, p2]);
}

/// The bytes of a [`AvInputOpenRequest`].
pub proof fn lemma_av_input_open_request(v: AvInputOpenRequest)
    ensures
        message::bytes_of::<AvInputOpenRequest>(v) == number(0x08, (if v.open { 1u64 } else { 0u64 }))
            + number(0x10, (if v.anc { 1u64 } else { 0u64 }))
            + number(0x18, (if v.ec { 1u64 } else { 0u64 })) + number(0x20, v.max_unacked as u64),
{
    let p1 = record::scalar_field(1, message::bit(v.open));
    let p2 = record::scalar_field(2, message::bit(v.anc));
    let p3 = record::scalar_field(3, message::bit(v.ec));
    let p4 = record::scalar_field(4, v.max_unacked as u64);
    lemma_number(1, message::bit(v.open));
    lemma_number(2, message::bit(v.anc));
    lemma_number(3, message::bit(v.ec));
    lemma_number(4, v.max_unacked as u64);
    lemma_one_part(p1);
    lemma_next_part(seq![p1], p2);
    assert(seq![p1].push(p2) =~= seq![p1, p2]);
    lemma_next_part(seq![p1, p2], p3);
    assert(seq![p1, p2].push(p3) =~= seq![p1, p2, p3]);
    lemma_next_part(seq![p1, p2, p3], p4);
    assert(seq![p1, p2, p3].push(p4) =~= seq![p1, p2, p3, p4]);
    assert(<AvInputOpenRequest as Schema>::parts(v) =~= seq![p1, p2, p3, p4]);
}

/// The bytes of a [`AvInputOpenResponse`].
pub proof fn lemma_av_input_open_response(v: AvInputOpenResponse)
    ensures
        message::bytes_of::<AvInputOpenResponse>(v) == number(0x08, v.session as u64)
            + number(0x10, v.value as u64),
{
    let p1 = record::scalar_field(1, v.session as u64);
    let p2 = record::scalar_field(2, v.value as u64);
    lemma_number(1, v.session as u64);
    lemma_number(2, v.value as u64);
    lemma_one_part(p1);
    lemma_next_part(seq![p1], p2);
    assert(seq![p1].push(p2) =~= seq![p1, p2]);
    assert(<AvInputOpenResponse as Schema>::parts(v) =~= seq![p1, p2]);
}

/// The bytes of a [`SensorStartRequestMessage`].
pub proof fn lemma_sensor_start_request_message(v: SensorStartRequestMessage)
    ensures
        message::bytes_of::<SensorStartRequestMessage>(v) == number(0x08, v.sensor_type as u64)
            + number(0x10, v.refresh_interval as u64),
{
    let p1 = record::scalar_field(1, v.sensor_type as u64);
    let p2 = record::scalar_field(2, v.refresh_interval as u64);
    lemma_number(1, v.sensor_type as u64);
    lemma_number(2, v.refresh_interval as u64);
    lemma_one_part(p1);
    lemma_next_part(seq![p1], p2);
    assert(seq![p1].push(p2) =~= seq![p1, p2]);
    assert(<SensorStartRequestMessage as Schema>::parts(v) =~= seq![p1, p2]);
}

/// The bytes of a [`SensorStartResponseMessage`].
pub proof fn lemma_sensor_start_response_message(v: SensorStartResponseMessage)
    ensures
        message::bytes_of::<SensorStartResponseMessage>(v) == number(0x08, v.status as u64),
{
    let p1 = record::scalar_field(1, v.status as u64);
    lemma_number(1, v.status as u64);
    lemma_one_part(p1);
    assert(<SensorStartResponseMessage as Schema>::parts(v) =~= seq![p1]);
}

/// The bytes of a [`SensorEventIndication`].
pub proof fn lemma_sensor_event_indication(v: SensorEventIndicationView)
    ensures
        message::bytes_of::<SensorEventIndication>(v) == bodies(0x0a, message::of_repeated::<GpsLocation>(v.gps_location))
            + bodies(0x1a, message::of_repeated::<Speed>(v.speed))
            + bodies(0x42, message::of_repeated::<Gear>(v.gear))
            + bodies(0x6a, message::of_repeated::<DrivingStatus>(v.driving_status)),
{
    let p1 = record::repeated_field(1, message::of_repeated::<GpsLocation>(v.gps_location));
    let p2 = record::repeated_field(3, message::of_repeated::<Speed>(v.speed));
    let p3 = record::repeated_field(8, message::of_repeated::<Gear>(v.gear));
    let p4 = record::repeated_field(13, message::of_repeated::<DrivingStatus>(v.driving_status));
    lemma_bodies(1, message::of_repeated::<GpsLocation>(v.gps_location));
    lemma_bodies(3, message::of_repeated::<Speed>(v.speed));
    lemma_bodies(8, message::of_repeated::<Gear>(v.gear));
    lemma_bodies(13, message::of_repeated::<DrivingStatus>(v.driving_status));
    lemma_one_part(p1);
    lemma_next_part(seq![p1], p2);
    assert(seq![p1].push(p2) =~= seq![p1, p2]);
    lemma_next_part(seq![p1, p2], p3);
    assert(seq![p1, p2].push(p3) =~= seq![p1, p2, p3]);
    lemma_next_part(seq![p1, p2, p3], p4);
    assert(seq![p1, p2, p3].push(p4) =~= seq![p1, p2, p3, p4]);
    assert(<SensorEventIndication as Schema>::parts(v) =~= seq![p1, p2, p3, p4]);
}

/// The bytes of a [`BindingRequest`].
pub proof fn lemma_binding_request(v: BindingRequestView)
    ensures
        message::bytes_of::<BindingRequest>(v) == blob(0x0a,
            record::packed(message::of_int32s(v.scan_codes))),
{
    let p1 = record::packed_field(1, message::of_int32s(v.scan_codes));
    lemma_blob(1, record::packed(message::of_int32s(v.scan_codes)));
    lemma_one_part(p1);
    assert(<BindingRequest as Schema>::parts(v) =~= seq![p1]);
}

/// The bytes of a [`BindingResponse`].
pub proof fn lemma_binding_response(v: BindingResponse)
    ensures
        message::bytes_of::<BindingResponse>(v) == number(0x08, v.status as u64),
{
    let p1 = record::scalar_field(1, v.status as u64);
    lemma_number(1, v.status as u64);
    lemma_one_part(p1);
    assert(<BindingResponse as Schema>::parts(v) =~= seq![p1]);
}

} // verus!
