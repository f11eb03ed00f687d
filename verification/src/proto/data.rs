//! The parts that messages are made of.
use crate::proto::message;
use crate::proto::message::{Message, Schema};
use crate::proto::record;
use crate::proto::wire;
use crate::proto::wire::{Field, WireField};
use vstd::prelude::*;

verus! {

/// A sensor that a car has.
#[derive(Debug, Clone, Copy, PartialEq, Eq, Structural)]
pub struct Sensor {
    pub sensor_type: i32,
}

impl View for Sensor {
    type V = Self;

    open spec fn view(&self) -> Self {
        *self
    }
}

impl Schema for Sensor {
    open spec fn parts(v: Self::V) -> Seq<Seq<WireField>> {
        seq![
            record::scalar_field(1, v.sensor_type as u64),
        ]
    }

    open spec fn tags() -> Seq<u32> {
        seq![1u32]
    }

    open spec fn of_wire(fs: Seq<WireField>, room: nat) -> Option<Self::V> {
        let sensor_type = message::int32(record::values(fs, 1));
        if sensor_type is Some {
            Some(Sensor { sensor_type: sensor_type->Some_0 })
        } else {
            None
        }
    }

    proof fn lemma_parts(v: Self::V, room: nat) {
        let parts = Self::parts(v);
        let tags = Self::tags();
        message::lemma_compact(parts);
        assert(message::well_parted(parts, tags)) by {
            assert(message::part_of(parts[0], 1));
        }
        assert forall|fs: Seq<WireField>| #[trigger]
            message::holds_parts(fs, parts, tags) implies Self::of_wire(fs, room) == Some(v) by {
            assert(message::int32(record::values(fs, 1)) == Some(v.sensor_type)) by {
                message::lemma_int32_read_back(1, v.sensor_type);
                assert(record::values(fs, tags[0]) == record::values(parts[0], 1));
            }
        }
    }
}

impl Message for Sensor {
    fn put(&self, out: &mut Vec<u8>) {
        let ghost before = out@;
        let ghost parts = Self::parts(self@);
        proof {
            message::lemma_written_first(parts, before);
        }
        let ghost now = out@;
        record::put_scalar(
            out,
            1,
            #[verifier::truncate]
            (self.sensor_type as u64),
        );
        proof {
            message::lemma_written_next(parts, 0, before, now, out@);
        }
        proof {
            message::lemma_written_last(parts);
        }
    }

    fn of_fields(fs: &Vec<Field>, room: u32) -> (r: Option<Self>) {
        let sensor_type: i32 = match message::read_int32(fs, 1) {
            Some(found) => found,
            None => {
                return None;
            },
        };
        Some(Sensor { sensor_type })
    }
}

/// A channel for sensor events.
#[derive(Debug)]
pub struct SensorChannel {
    pub sensors: Vec<Sensor>,
}

/// What a [`SensorChannel`] says.
pub struct SensorChannelView {
    pub sensors: Seq<Sensor>,
}

impl View for SensorChannel {
    type V = SensorChannelView;

    open spec fn view(&self) -> SensorChannelView {
        SensorChannelView {
            sensors: message::said::<Sensor>(self.sensors@),
        }
    }
}

impl Schema for SensorChannel {
    open spec fn parts(v: Self::V) -> Seq<Seq<WireField>> {
        seq![
            record::repeated_field(1, message::of_repeated::<Sensor>(v.sensors)),
        ]
    }

    open spec fn tags() -> Seq<u32> {
        seq![1u32]
    }

    open spec fn of_wire(fs: Seq<WireField>, room: nat) -> Option<Self::V> {
        let sensors = message::repeated::<Sensor>(record::values(fs, 1), room);
        if sensors is Some {
            Some(SensorChannelView { sensors: sensors->Some_0 })
        } else {
            None
        }
    }

    proof fn lemma_parts(v: Self::V, room: nat) {
        let parts = Self::parts(v);
        let tags = Self::tags();
        message::lemma_compact(parts);
        assert(message::well_parted(parts, tags)) by {
            assert(message::part_of(parts[0], 1));
        }
        assert forall|fs: Seq<WireField>| #[trigger]
            message::holds_parts(fs, parts, tags) implies Self::of_wire(fs, room) == Some(v) by {
            assert(message::repeated::<Sensor>(record::values(fs, 1), room) == Some(v.sensors)) by {
                assert forall|i: int|
                    0 <= i < v.sensors.len() implies
                    message::bytes_of::<Sensor>(#[trigger] v.sensors[i]).len()
                    <= u64::MAX by {
                    assert(message::small(parts[0][i]));
                }
                message::lemma_repeated_back::<Sensor>(1, v.sensors, room);
                assert(record::values(fs, tags[0]) == record::values(parts[0], 1));
            }
        }
    }
}

impl Message for SensorChannel {
    fn put(&self, out: &mut Vec<u8>) {
        let ghost before = out@;
        let ghost parts = Self::parts(self@);
        proof {
            message::lemma_written_first(parts, before);
        }
        let ghost now = out@;
        message::put_repeated::<Sensor>(out, 1, &self.sensors);
        proof {
            message::lemma_written_next(parts, 0, before, now, out@);
        }
        proof {
            message::lemma_written_last(parts);
        }
    }

    fn of_fields(fs: &Vec<Field>, room: u32) -> (r: Option<Self>) {
        let sensors: Vec<Sensor> = match message::read_repeated::<Sensor>(fs, 1, room) {
            Some(found) => found,
            None => {
                return None;
            },
        };
        Some(SensorChannel { sensors })
    }
}

/// A format of sound.
#[derive(Debug, Clone, Copy, PartialEq, Eq, Structural)]
pub struct AudioConfig {
    pub sample_rate: u32,
    pub bit_depth: u32,
    pub channel_count: u32,
}

impl View for AudioConfig {
    type V = Self;

    open spec fn view(&self) -> Self {
        *self
    }
}

impl Schema for AudioConfig {
    open spec fn parts(v: Self::V) -> Seq<Seq<WireField>> {
        seq![
            record::scalar_field(1, v.sample_rate as u64),
            record::scalar_field(2, v.bit_depth as u64),
            record::scalar_field(3, v.channel_count as u64),
        ]
    }

    open spec fn tags() -> Seq<u32> {
        seq![1u32, 2u32, 3u32]
    }

    open spec fn of_wire(fs: Seq<WireField>, room: nat) -> Option<Self::V> {
        let sample_rate = message::uint32(record::values(fs, 1));
        let bit_depth = message::uint32(record::values(fs, 2));
        let channel_count = message::uint32(record::values(fs, 3));
        if sample_rate is Some && bit_depth is Some && channel_count is Some {
            Some(
                AudioConfig {
                    sample_rate: sample_rate->Some_0,
                    bit_depth: bit_depth->Some_0,
                    channel_count: channel_count->Some_0,
                },
            )
        } else {
            None
        }
    }

    proof fn lemma_parts(v: Self::V, room: nat) {
        let parts = Self::parts(v);
        let tags = Self::tags();
        message::lemma_compact(parts);
        assert(message::well_parted(parts, tags)) by {
            assert(message::part_of(parts[0], 1));
            assert(message::part_of(parts[1], 2));
            assert(message::part_of(parts[2], 3));
        }
        assert forall|fs: Seq<WireField>| #[trigger]
            message::holds_parts(fs, parts, tags) implies Self::of_wire(fs, room) == Some(v) by {
            assert(message::uint32(record::values(fs, 1)) == Some(v.sample_rate)) by {
                message::lemma_uint32_read_back(1, v.sample_rate);
                assert(record::values(fs, tags[0]) == record::values(parts[0], 1));
            }
            assert(message::uint32(record::values(fs, 2)) == Some(v.bit_depth)) by {
                message::lemma_uint32_read_back(2, v.bit_depth);
                assert(record::values(fs, tags[1]) == record::values(parts[1], 2));
            }
            assert(message::uint32(record::values(fs, 3)) == Some(v.channel_count)) by {
                message::lemma_uint32_read_back(3, v.channel_count);
                assert(record::values(fs, tags[2]) == record::values(parts[2], 3));
            }
        }
    }
}

impl Message for AudioConfig {
    fn put(&self, out: &mut Vec<u8>) {
        let ghost before = out@;
        let ghost parts = Self::parts(self@);
        proof {
            message::lemma_written_first(parts, before);
        }
        let ghost now = out@;
        record::put_scalar(out, 1, self.sample_rate as u64);
        proof {
            message::lemma_written_next(parts, 0, before, now, out@);
        }
        let ghost now = out@;
        record::put_scalar(out, 2, self.bit_depth as u64);
        proof {
            message::lemma_written_next(parts, 1, before, now, out@);
        }
        let ghost now = out@;
        record::put_scalar(out, 3, self.channel_count as u64);
        proof {
            message::lemma_written_next(parts, 2, before, now, out@);
        }
        proof {
            message::lemma_written_last(parts);
        }
    }

    fn of_fields(fs: &Vec<Field>, room: u32) -> (r: Option<Self>) {
        let sample_rate: u32 = match message::read_uint32(fs, 1) {
            Some(found) => found,
            None => {
                return None;
            },
        };
        let bit_depth: u32 = match message::read_uint32(fs, 2) {
            Some(found) => found,
            None => {
                return None;
            },
        };
        let channel_count: u32 = match message::read_uint32(fs, 3) {
            Some(found) => found,
            None => {
                return None;
            },
        };
        Some(AudioConfig { sample_rate, bit_depth, channel_count })
    }
}

/// A format of pictures.
#[derive(Debug, Clone, Copy, PartialEq, Eq, Structural)]
pub struct VideoConfig {
    pub video_resolution: i32,
    pub video_fps: i32,
    pub margin_width: u32,
    pub margin_height: u32,
    pub dpi: u32,
    pub additional_depth: u32,
}

impl View for VideoConfig {
    type V = Self;

    open spec fn view(&self) -> Self {
        *self
    }
}

impl Schema for VideoConfig {
    open spec fn parts(v: Self::V) -> Seq<Seq<WireField>> {
        seq![
            record::scalar_field(1, v.video_resolution as u64),
            record::scalar_field(2, v.video_fps as u64),
            record::scalar_field(3, v.margin_width as u64),
            record::scalar_field(4, v.margin_height as u64),
            record::scalar_field(5, v.dpi as u64),
            record::scalar_field(6, v.additional_depth as u64),
        ]
    }

    open spec fn tags() -> Seq<u32> {
        seq![1u32, 2u32, 3u32, 4u32, 5u32, 6u32]
    }

    open spec fn of_wire(fs: Seq<WireField>, room: nat) -> Option<Self::V> {
        let video_resolution = message::int32(record::values(fs, 1));
        let video_fps = message::int32(record::values(fs, 2));
        let margin_width = message::uint32(record::values(fs, 3));
        let margin_height = message::uint32(record::values(fs, 4));
        let dpi = message::uint32(record::values(fs, 5));
        let additional_depth = message::uint32(record::values(fs, 6));
        if video_resolution is Some && video_fps is Some && margin_width is Some
            && margin_height is Some && dpi is Some && additional_depth is Some
        {
            Some(
                VideoConfig {
                    video_resolution: video_resolution->Some_0,
                    video_fps: video_fps->Some_0,
                    margin_width: margin_width->Some_0,
                    margin_height: margin_height->Some_0,
                    dpi: dpi->Some_0,
                    additional_depth: additional_depth->Some_0,
                },
            )
        } else {
            None
        }
    }

    proof fn lemma_parts(v: Self::V, room: nat) {
        let parts = Self::parts(v);
        let tags = Self::tags();
        message::lemma_compact(parts);
        assert(message::well_parted(parts, tags)) by {
            assert(message::part_of(parts[0], 1));
            assert(message::part_of(parts[1], 2));
            assert(message::part_of(parts[2], 3));
            assert(message::part_of(parts[3], 4));
            assert(message::part_of(parts[4], 5));
            assert(message::part_of(parts[5], 6));
        }
        assert forall|fs: Seq<WireField>| #[trigger]
            message::holds_parts(fs, parts, tags) implies Self::of_wire(fs, room) == Some(v) by {
            assert(message::int32(record::values(fs, 1)) == Some(v.video_resolution)) by {
                message::lemma_int32_read_back(1, v.video_resolution);
                assert(record::values(fs, tags[0]) == record::values(parts[0], 1));
            }
            assert(message::int32(record::values(fs, 2)) == Some(v.video_fps)) by {
                message::lemma_int32_read_back(2, v.video_fps);
                assert(record::values(fs, tags[1]) == record::values(parts[1], 2));
            }
            assert(message::uint32(record::values(fs, 3)) == Some(v.margin_width)) by {
                message::lemma_uint32_read_back(3, v.margin_width);
                assert(record::values(fs, tags[2]) == record::values(parts[2], 3));
            }
            assert(message::uint32(record::values(fs, 4)) == Some(v.margin_height)) by {
                message::lemma_uint32_read_back(4, v.margin_height);
                assert(record::values(fs, tags[3]) == record::values(parts[3], 4));
            }
            assert(message::uint32(record::values(fs, 5)) == Some(v.dpi)) by {
                message::lemma_uint32_read_back(5, v.dpi);
                assert(record::values(fs, tags[4]) == record::values(parts[4], 5));
            }
            assert(message::uint32(record::values(fs, 6)) == Some(v.additional_depth)) by {
                message::lemma_uint32_read_back(6, v.additional_depth);
                assert(record::values(fs, tags[5]) == record::values(parts[5], 6));
            }
        }
    }
}

impl Message for VideoConfig {
    fn put(&self, out: &mut Vec<u8>) {
        let ghost before = out@;
        let ghost parts = Self::parts(self@);
        proof {
            message::lemma_written_first(parts, before);
        }
        let ghost now = out@;
        record::put_scalar(
            out,
            1,
            #[verifier::truncate]
            (self.video_resolution as u64),
        );
        proof {
            message::lemma_written_next(parts, 0, before, now, out@);
        }
        let ghost now = out@;
        record::put_scalar(
            out,
            2,
            #[verifier::truncate]
            (self.video_fps as u64),
        );
        proof {
            message::lemma_written_next(parts, 1, before, now, out@);
        }
        let ghost now = out@;
        record::put_scalar(out, 3, self.margin_width as u64);
        proof {
            message::lemma_written_next(parts, 2, before, now, out@);
        }
        let ghost now = out@;
        record::put_scalar(out, 4, self.margin_height as u64);
        proof {
            message::lemma_written_next(parts, 3, before, now, out@);
        }
        let ghost now = out@;
        record::put_scalar(out, 5, self.dpi as u64);
        proof {
            message::lemma_written_next(parts, 4, before, now, out@);
        }
        let ghost now = out@;
        record::put_scalar(out, 6, self.additional_depth as u64);
        proof {
            message::lemma_written_next(parts, 5, before, now, out@);
        }
        proof {
            message::lemma_written_last(parts);
        }
    }

    fn of_fields(fs: &Vec<Field>, room: u32) -> (r: Option<Self>) {
        let video_resolution: i32 = match message::read_int32(fs, 1) {
            Some(found) => found,
            None => {
                return None;
            },
        };
        let video_fps: i32 = match message::read_int32(fs, 2) {
            Some(found) => found,
            None => {
                return None;
            },
        };
        let margin_width: u32 = match message::read_uint32(fs, 3) {
            Some(found) => found,
            None => {
                return None;
            },
        };
        let margin_height: u32 = match message::read_uint32(fs, 4) {
            Some(found) => found,
            None => {
                return None;
            },
        };
        let dpi: u32 = match message::read_uint32(fs, 5) {
            Some(found) => found,
            None => {
                return None;
            },
        };
        let additional_depth: u32 = match message::read_uint32(fs, 6) {
            Some(found) => found,
            None => {
                return None;
            },
        };
        Some(
            VideoConfig {
                video_resolution,
                video_fps,
                margin_width,
                margin_height,
                dpi,
                additional_depth,
            },
        )
    }
}

/// A channel for sound or pictures to the car.
#[derive(Debug)]
pub struct AvChannel {
    pub stream_type: i32,
    pub audio_type: i32,
    pub audio_configs: Vec<AudioConfig>,
    pub video_configs: Vec<VideoConfig>,
    pub available_while_in_call: bool,
}

/// What a [`AvChannel`] says.
pub struct AvChannelView {
    pub stream_type: i32,
    pub audio_type: i32,
    pub audio_configs: Seq<AudioConfig>,
    pub video_configs: Seq<VideoConfig>,
    pub available_while_in_call: bool,
}

impl View for AvChannel {
    type V = AvChannelView;

    open spec fn view(&self) -> AvChannelView {
        AvChannelView {
            stream_type: self.stream_type,
            audio_type: self.audio_type,
            audio_configs: message::said::<AudioConfig>(self.audio_configs@),
            video_configs: message::said::<VideoConfig>(self.video_configs@),
            available_while_in_call: self.available_while_in_call,
        }
    }
}

impl Schema for AvChannel {
    open spec fn parts(v: Self::V) -> Seq<Seq<WireField>> {
        seq![
            record::scalar_field(1, v.stream_type as u64),
            record::scalar_field(2, v.audio_type as u64),
            record::repeated_field(3, message::of_repeated::<AudioConfig>(v.audio_configs)),
            record::repeated_field(4, message::of_repeated::<VideoConfig>(v.video_configs)),
            record::scalar_field(5, message::bit(v.available_while_in_call)),
        ]
    }

    open spec fn tags() -> Seq<u32> {
        seq![1u32, 2u32, 3u32, 4u32, 5u32]
    }

    open spec fn of_wire(fs: Seq<WireField>, room: nat) -> Option<Self::V> {
        let stream_type = message::int32(record::values(fs, 1));
        let audio_type = message::int32(record::values(fs, 2));
        let audio_configs = message::repeated::<AudioConfig>(record::values(fs, 3), room);
        let video_configs = message::repeated::<VideoConfig>(record::values(fs, 4), room);
        let available_while_in_call = message::boolean(record::values(fs, 5));
        if stream_type is Some && audio_type is Some && audio_configs is Some
            && video_configs is Some && available_while_in_call is Some
        {
            Some(
                AvChannelView {
                    stream_type: stream_type->Some_0,
                    audio_type: audio_type->Some_0,
                    audio_configs: audio_configs->Some_0,
                    video_configs: video_configs->Some_0,
                    available_while_in_call: available_while_in_call->Some_0,
                },
            )
        } else {
            None
        }
    }

    proof fn lemma_parts(v: Self::V, room: nat) {
        let parts = Self::parts(v);
        let tags = Self::tags();
        message::lemma_compact(parts);
        assert(message::well_parted(parts, tags)) by {
            assert(message::part_of(parts[0], 1));
            assert(message::part_of(parts[1], 2));
            assert(message::part_of(parts[2], 3));
            assert(message::part_of(parts[3], 4));
            assert(message::part_of(parts[4], 5));
        }
        assert forall|fs: Seq<WireField>| #[trigger]
            message::holds_parts(fs, parts, tags) implies Self::of_wire(fs, room) == Some(v) by {
            assert(message::int32(record::values(fs, 1)) == Some(v.stream_type)) by {
                message::lemma_int32_read_back(1, v.stream_type);
                assert(record::values(fs, tags[0]) == record::values(parts[0], 1));
            }
            assert(message::int32(record::values(fs, 2)) == Some(v.audio_type)) by {
                message::lemma_int32_read_back(2, v.audio_type);
                assert(record::values(fs, tags[1]) == record::values(parts[1], 2));
            }
            assert(message::repeated::<AudioConfig>(record::values(fs, 3), room)
                == Some(v.audio_configs)) by {
                assert forall|i: int|
                    0 <= i < v.audio_configs.len() implies
                    message::bytes_of::<AudioConfig>(#[trigger] v.audio_configs[i]).len()
                    <= u64::MAX by {
                    assert(message::small(parts[2][i]));
                }
                message::lemma_repeated_back::<AudioConfig>(3, v.audio_configs, room);
                assert(record::values(fs, tags[2]) == record::values(parts[2], 3));
            }
            assert(message::repeated::<VideoConfig>(record::values(fs, 4), room)
                == Some(v.video_configs)) by {
                assert forall|i: int|
                    0 <= i < v.video_configs.len() implies
                    message::bytes_of::<VideoConfig>(#[trigger] v.video_configs[i]).len()
                    <= u64::MAX by {
                    assert(message::small(parts[3][i]));
                }
                message::lemma_repeated_back::<VideoConfig>(4, v.video_configs, room);
                assert(record::values(fs, tags[3]) == record::values(parts[3], 4));
            }
            assert(message::boolean(record::values(fs, 5)) == Some(v.available_while_in_call)) by {
                message::lemma_boolean_read_back(5, v.available_while_in_call);
                assert(record::values(fs, tags[4]) == record::values(parts[4], 5));
            }
        }
    }
}

impl Message for AvChannel {
    fn put(&self, out: &mut Vec<u8>) {
        let ghost before = out@;
        let ghost parts = Self::parts(self@);
        proof {
            message::lemma_written_first(parts, before);
        }
        let ghost now = out@;
        record::put_scalar(
            out,
            1,
            #[verifier::truncate]
            (self.stream_type as u64),
        );
        proof {
            message::lemma_written_next(parts, 0, before, now, out@);
        }
        let ghost now = out@;
        record::put_scalar(
            out,
            2,
            #[verifier::truncate]
            (self.audio_type as u64),
        );
        proof {
            message::lemma_written_next(parts, 1, before, now, out@);
        }
        let ghost now = out@;
        message::put_repeated::<AudioConfig>(out, 3, &self.audio_configs);
        proof {
            message::lemma_written_next(parts, 2, before, now, out@);
        }
        let ghost now = out@;
        message::put_repeated::<VideoConfig>(out, 4, &self.video_configs);
        proof {
            message::lemma_written_next(parts, 3, before, now, out@);
        }
        let ghost now = out@;
        record::put_scalar(
            out,
            5,
            if self.available_while_in_call {
                1
            } else {
                0
            },
        );
        proof {
            message::lemma_written_next(parts, 4, before, now, out@);
        }
        proof {
            message::lemma_written_last(parts);
        }
    }

    fn of_fields(fs: &Vec<Field>, room: u32) -> (r: Option<Self>) {
        let stream_type: i32 = match message::read_int32(fs, 1) {
            Some(found) => found,
            None => {
                return None;
            },
        };
        let audio_type: i32 = match message::read_int32(fs, 2) {
            Some(found) => found,
            None => {
                return None;
            },
        };
        let audio_configs: Vec<AudioConfig> = match message::read_repeated::<AudioConfig>(fs, 3, room) {
            Some(found) => found,
            None => {
                return None;
            },
        };
        let video_configs: Vec<VideoConfig> = match message::read_repeated::<VideoConfig>(fs, 4, room) {
            Some(found) => found,
            None => {
                return None;
            },
        };
        let available_while_in_call: bool = match message::read_boolean(fs, 5) {
            Some(found) => found,
            None => {
                return None;
            },
        };
        Some(
            AvChannel {
                stream_type,
                audio_type,
                audio_configs,
                video_configs,
                available_while_in_call,
            },
        )
    }
}

/// The size of a surface for touch.
#[derive(Debug, Clone, Copy, PartialEq, Eq, Structural)]
pub struct TouchConfig {
    pub width: u32,
    pub height: u32,
}

impl View for TouchConfig {
    type V = Self;

    open spec fn view(&self) -> Self {
        *self
    }
}

impl Schema for TouchConfig {
    open spec fn parts(v: Self::V) -> Seq<Seq<WireField>> {
        seq![
            record::scalar_field(1, v.width as u64),
            record::scalar_field(2, v.height as u64),
        ]
    }

    open spec fn tags() -> Seq<u32> {
        seq![1u32, 2u32]
    }

    open spec fn of_wire(fs: Seq<WireField>, room: nat) -> Option<Self::V> {
        let width = message::uint32(record::values(fs, 1));
        let height = message::uint32(record::values(fs, 2));
        if width is Some && height is Some {
            Some(TouchConfig { width: width->Some_0, height: height->Some_0 })
        } else {
            None
        }
    }

    proof fn lemma_parts(v: Self::V, room: nat) {
        let parts = Self::parts(v);
        let tags = Self::tags();
        message::lemma_compact(parts);
        assert(message::well_parted(parts, tags)) by {
            assert(message::part_of(parts[0], 1));
            assert(message::part_of(parts[1], 2));
        }
        assert forall|fs: Seq<WireField>| #[trigger]
            message::holds_parts(fs, parts, tags) implies Self::of_wire(fs, room) == Some(v) by {
            assert(message::uint32(record::values(fs, 1)) == Some(v.width)) by {
                message::lemma_uint32_read_back(1, v.width);
                assert(record::values(fs, tags[0]) == record::values(parts[0], 1));
            }
            assert(message::uint32(record::values(fs, 2)) == Some(v.height)) by {
                message::lemma_uint32_read_back(2, v.height);
                assert(record::values(fs, tags[1]) == record::values(parts[1], 2));
            }
        }
    }
}

impl Message for TouchConfig {
    fn put(&self, out: &mut Vec<u8>) {
        let ghost before = out@;
        let ghost parts = Self::parts(self@);
        proof {
            message::lemma_written_first(parts, before);
        }
        let ghost now = out@;
        record::put_scalar(out, 1, self.width as u64);
        proof {
            message::lemma_written_next(parts, 0, before, now, out@);
        }
        let ghost now = out@;
        record::put_scalar(out, 2, self.height as u64);
        proof {
            message::lemma_written_next(parts, 1, before, now, out@);
        }
        proof {
            message::lemma_written_last(parts);
        }
    }

    fn of_fields(fs: &Vec<Field>, room: u32) -> (r: Option<Self>) {
        let width: u32 = match message::read_uint32(fs, 1) {
            Some(found) => found,
            None => {
                return None;
            },
        };
        let height: u32 = match message::read_uint32(fs, 2) {
            Some(found) => found,
            None => {
                return None;
            },
        };
        Some(TouchConfig { width, height })
    }
}

/// A channel for touch and keys.
#[derive(Debug)]
pub struct InputChannel {
    pub supported_keycodes: Vec<u32>,
    pub touch_screen_config: Option<TouchConfig>,
    pub touch_pad_config: Option<TouchConfig>,
}

/// What a [`InputChannel`] says.
pub struct InputChannelView {
    pub supported_keycodes: Seq<u32>,
    pub touch_screen_config: Option<TouchConfig>,
    pub touch_pad_config: Option<TouchConfig>,
}

impl View for InputChannel {
    type V = InputChannelView;

    open spec fn view(&self) -> InputChannelView {
        InputChannelView {
            supported_keycodes: self.supported_keycodes@,
            touch_screen_config: message::inside::<TouchConfig>(self.touch_screen_config),
            touch_pad_config: message::inside::<TouchConfig>(self.touch_pad_config),
        }
    }
}

impl Schema for InputChannel {
    open spec fn parts(v: Self::V) -> Seq<Seq<WireField>> {
        seq![
            record::packed_field(1, message::of_uint32s(v.supported_keycodes)),
            record::optional_field(2, message::of_optional::<TouchConfig>(v.touch_screen_config)),
            record::optional_field(3, message::of_optional::<TouchConfig>(v.touch_pad_config)),
        ]
    }

    open spec fn tags() -> Seq<u32> {
        seq![1u32, 2u32, 3u32]
    }

    open spec fn of_wire(fs: Seq<WireField>, room: nat) -> Option<Self::V> {
        let supported_keycodes = message::uint32s(record::values(fs, 1));
        let touch_screen_config = message::optional::<TouchConfig>(record::values(fs, 2), room);
        let touch_pad_config = message::optional::<TouchConfig>(record::values(fs, 3), room);
        if supported_keycodes is Some && touch_screen_config is Some && touch_pad_config is Some {
            Some(
                InputChannelView {
                    supported_keycodes: supported_keycodes->Some_0,
                    touch_screen_config: touch_screen_config->Some_0,
                    touch_pad_config: touch_pad_config->Some_0,
                },
            )
        } else {
            None
        }
    }

    proof fn lemma_parts(v: Self::V, room: nat) {
        let parts = Self::parts(v);
        let tags = Self::tags();
        message::lemma_compact(parts);
        assert(message::well_parted(parts, tags)) by {
            assert(message::part_of(parts[0], 1));
            assert(message::part_of(parts[1], 2));
            assert(message::part_of(parts[2], 3));
        }
        assert forall|fs: Seq<WireField>| #[trigger]
            message::holds_parts(fs, parts, tags) implies Self::of_wire(fs, room) == Some(v) by {
            assert(message::uint32s(record::values(fs, 1)) == Some(v.supported_keycodes)) by {
                message::lemma_uint32s_back(1, v.supported_keycodes);
                assert(record::values(fs, tags[0]) == record::values(parts[0], 1));
            }
            assert(message::optional::<TouchConfig>(record::values(fs, 2), room)
                == Some(v.touch_screen_config)) by {
                if v.touch_screen_config is Some {
                    assert(message::small(parts[1][0]));
                }
                message::lemma_optional_back::<TouchConfig>(2, v.touch_screen_config, room);
                assert(record::values(fs, tags[1]) == record::values(parts[1], 2));
            }
            assert(message::optional::<TouchConfig>(record::values(fs, 3), room)
                == Some(v.touch_pad_config)) by {
                if v.touch_pad_config is Some {
                    assert(message::small(parts[2][0]));
                }
                message::lemma_optional_back::<TouchConfig>(3, v.touch_pad_config, room);
                assert(record::values(fs, tags[2]) == record::values(parts[2], 3));
            }
        }
    }
}

impl Message for InputChannel {
    fn put(&self, out: &mut Vec<u8>) {
        let ghost before = out@;
        let ghost parts = Self::parts(self@);
        proof {
            message::lemma_written_first(parts, before);
        }
        let ghost now = out@;
        message::put_uint32s(out, 1, &self.supported_keycodes);
        proof {
            message::lemma_written_next(parts, 0, before, now, out@);
        }
        let ghost now = out@;
        message::put_optional::<TouchConfig>(out, 2, &self.touch_screen_config);
        proof {
            message::lemma_written_next(parts, 1, before, now, out@);
        }
        let ghost now = out@;
        message::put_optional::<TouchConfig>(out, 3, &self.touch_pad_config);
        proof {
            message::lemma_written_next(parts, 2, before, now, out@);
        }
        proof {
            message::lemma_written_last(parts);
        }
    }

    fn of_fields(fs: &Vec<Field>, room: u32) -> (r: Option<Self>) {
        let supported_keycodes: Vec<u32> = match message::read_uint32s(fs, 1) {
            Some(found) => found,
            None => {
                return None;
            },
        };
        let touch_screen_config: Option<TouchConfig> =
            match message::read_optional::<TouchConfig>(fs, 2, room) {
            Some(found) => found,
            None => {
                return None;
            },
        };
        let touch_pad_config: Option<TouchConfig> =
            match message::read_optional::<TouchConfig>(fs, 3, room) {
            Some(found) => found,
            None => {
                return None;
            },
        };
        Some(InputChannel { supported_keycodes, touch_screen_config, touch_pad_config })
    }
}

/// A channel for sound from the car.
#[derive(Debug)]
pub struct AvInputChannel {
    pub stream_type: i32,
    pub audio_config: Option<AudioConfig>,
    pub available_while_in_call: bool,
}

/// What a [`AvInputChannel`] says.
pub struct AvInputChannelView {
    pub stream_type: i32,
    pub audio_config: Option<AudioConfig>,
    pub available_while_in_call: bool,
}

impl View for AvInputChannel {
    type V = AvInputChannelView;

    open spec fn view(&self) -> AvInputChannelView {
        AvInputChannelView {
            stream_type: self.stream_type,
            audio_config: message::inside::<AudioConfig>(self.audio_config),
            available_while_in_call: self.available_while_in_call,
        }
    }
}

impl Schema for AvInputChannel {
    open spec fn parts(v: Self::V) -> Seq<Seq<WireField>> {
        seq![
            record::scalar_field(1, v.stream_type as u64),
            record::optional_field(2, message::of_optional::<AudioConfig>(v.audio_config)),
            record::scalar_field(3, message::bit(v.available_while_in_call)),
        ]
    }

    open spec fn tags() -> Seq<u32> {
        seq![1u32, 2u32, 3u32]
    }

    open spec fn of_wire(fs: Seq<WireField>, room: nat) -> Option<Self::V> {
        let stream_type = message::int32(record::values(fs, 1));
        let audio_config = message::optional::<AudioConfig>(record::values(fs, 2), room);
        let available_while_in_call = message::boolean(record::values(fs, 3));
        if stream_type is Some && audio_config is Some && available_while_in_call is Some {
            Some(
                AvInputChannelView {
                    stream_type: stream_type->Some_0,
                    audio_config: audio_config->Some_0,
                    available_while_in_call: available_while_in_call->Some_0,
                },
            )
        } else {
            None
        }
    }

    proof fn lemma_parts(v: Self::V, room: nat) {
        let parts = Self::parts(v);
        let tags = Self::tags();
        message::lemma_compact(parts);
        assert(message::well_parted(parts, tags)) by {
            assert(message::part_of(parts[0], 1));
            assert(message::part_of(parts[1], 2));
            assert(message::part_of(parts[2], 3));
        }
        assert forall|fs: Seq<WireField>| #[trigger]
            message::holds_parts(fs, parts, tags) implies Self::of_wire(fs, room) == Some(v) by {
            assert(message::int32(record::values(fs, 1)) == Some(v.stream_type)) by {
                message::lemma_int32_read_back(1, v.stream_type);
                assert(record::values(fs, tags[0]) == record::values(parts[0], 1));
            }
            assert(message::optional::<AudioConfig>(record::values(fs, 2), room)
                == Some(v.audio_config)) by {
                if v.audio_config is Some {
                    assert(message::small(parts[1][0]));
                }
                message::lemma_optional_back::<AudioConfig>(2, v.audio_config, room);
                assert(record::values(fs, tags[1]) == record::values(parts[1], 2));
            }
            assert(message::boolean(record::values(fs, 3)) == Some(v.available_while_in_call)) by {
                message::lemma_boolean_read_back(3, v.available_while_in_call);
                assert(record::values(fs, tags[2]) == record::values(parts[2], 3));
            }
        }
    }
}

impl Message for AvInputChannel {
    fn put(&self, out: &mut Vec<u8>) {
        let ghost before = out@;
        let ghost parts = Self::parts(self@);
        proof {
            message::lemma_written_first(parts, before);
        }
        let ghost now = out@;
        record::put_scalar(
            out,
            1,
            #[verifier::truncate]
            (self.stream_type as u64),
        );
        proof {
            message::lemma_written_next(parts, 0, before, now, out@);
        }
        let ghost now = out@;
        message::put_optional::<AudioConfig>(out, 2, &self.audio_config);
        proof {
            message::lemma_written_next(parts, 1, before, now, out@);
        }
        let ghost now = out@;
        record::put_scalar(
            out,
            3,
            if self.available_while_in_call {
                1
            } else {
                0
            },
        );
        proof {
            message::lemma_written_next(parts, 2, before, now, out@);
        }
        proof {
            message::lemma_written_last(parts);
        }
    }

    fn of_fields(fs: &Vec<Field>, room: u32) -> (r: Option<Self>) {
        let stream_type: i32 = match message::read_int32(fs, 1) {
            Some(found) => found,
            None => {
                return None;
            },
        };
        let audio_config: Option<AudioConfig> = match message::read_optional::<AudioConfig>(fs, 2, room) {
            Some(found) => found,
            None => {
                return None;
            },
        };
        let available_while_in_call: bool = match message::read_boolean(fs, 3) {
            Some(found) => found,
            None => {
                return None;
            },
        };
        Some(AvInputChannel { stream_type, audio_config, available_while_in_call })
    }
}

/// A channel for pairing over Bluetooth.
#[derive(Debug)]
pub struct BluetoothChannel {
    pub adapter_address: String,
    pub supported_pairing_methods: Vec<i32>,
}

/// What a [`BluetoothChannel`] says.
pub struct BluetoothChannelView {
    pub adapter_address: Seq<char>,
    pub supported_pairing_methods: Seq<i32>,
}

impl View for BluetoothChannel {
    type V = BluetoothChannelView;

    open spec fn view(&self) -> BluetoothChannelView {
        BluetoothChannelView {
            adapter_address: self.adapter_address@,
            supported_pairing_methods: self.supported_pairing_methods@,
        }
    }
}

impl Schema for BluetoothChannel {
    open spec fn parts(v: Self::V) -> Seq<Seq<WireField>> {
        seq![
            record::string_field(1, v.adapter_address),
            record::packed_field(2, message::of_int32s(v.supported_pairing_methods)),
        ]
    }

    open spec fn tags() -> Seq<u32> {
        seq![1u32, 2u32]
    }

    open spec fn of_wire(fs: Seq<WireField>, room: nat) -> Option<Self::V> {
        let adapter_address = record::string(record::values(fs, 1));
        let supported_pairing_methods = message::int32s(record::values(fs, 2));
        if adapter_address is Some && supported_pairing_methods is Some {
            Some(
                BluetoothChannelView {
                    adapter_address: adapter_address->Some_0,
                    supported_pairing_methods: supported_pairing_methods->Some_0,
                },
            )
        } else {
            None
        }
    }

    proof fn lemma_parts(v: Self::V, room: nat) {
        let parts = Self::parts(v);
        let tags = Self::tags();
        message::lemma_compact(parts);
        assert(message::well_parted(parts, tags)) by {
            assert(message::part_of(parts[0], 1));
            assert(message::part_of(parts[1], 2));
        }
        assert forall|fs: Seq<WireField>| #[trigger]
            message::holds_parts(fs, parts, tags) implies Self::of_wire(fs, room) == Some(v) by {
            assert(record::string(record::values(fs, 1)) == Some(v.adapter_address)) by {
                record::lemma_string_read_back(1, v.adapter_address);
                assert(record::values(fs, tags[0]) == record::values(parts[0], 1));
            }
            assert(message::int32s(record::values(fs, 2)) == Some(v.supported_pairing_methods)) by {
                message::lemma_int32s_back(2, v.supported_pairing_methods);
                assert(record::values(fs, tags[1]) == record::values(parts[1], 2));
            }
        }
    }
}

impl Message for BluetoothChannel {
    fn put(&self, out: &mut Vec<u8>) {
        let ghost before = out@;
        let ghost parts = Self::parts(self@);
        proof {
            message::lemma_written_first(parts, before);
        }
        let ghost now = out@;
        record::put_string(out, 1, self.adapter_address.as_str());
        proof {
            message::lemma_written_next(parts, 0, before, now, out@);
        }
        let ghost now = out@;
        message::put_int32s(out, 2, &self.supported_pairing_methods);
        proof {
            message::lemma_written_next(parts, 1, before, now, out@);
        }
        proof {
            message::lemma_written_last(parts);
        }
    }

    fn of_fields(fs: &Vec<Field>, room: u32) -> (r: Option<Self>) {
        let adapter_address: String = match record::read_string(fs, 1) {
            Some(found) => found,
            None => {
                return None;
            },
        };
        let supported_pairing_methods: Vec<i32> = match message::read_int32s(fs, 2) {
            Some(found) => found,
            None => {
                return None;
            },
        };
        Some(BluetoothChannel { adapter_address, supported_pairing_methods })
    }
}

/// The size of turn icons.
#[derive(Debug, Clone, Copy, PartialEq, Eq, Structural)]
pub struct NavigationImageOptions {
    pub width: u32,
    pub height: u32,
    pub colour_depth_bits: u32,
}

impl View for NavigationImageOptions {
    type V = Self;

    open spec fn view(&self) -> Self {
        *self
    }
}

impl Schema for NavigationImageOptions {
    open spec fn parts(v: Self::V) -> Seq<Seq<WireField>> {
        seq![
            record::scalar_field(1, v.width as u64),
            record::scalar_field(2, v.height as u64),
            record::scalar_field(3, v.colour_depth_bits as u64),
        ]
    }

    open spec fn tags() -> Seq<u32> {
        seq![1u32, 2u32, 3u32]
    }

    open spec fn of_wire(fs: Seq<WireField>, room: nat) -> Option<Self::V> {
        let width = message::uint32(record::values(fs, 1));
        let height = message::uint32(record::values(fs, 2));
        let colour_depth_bits = message::uint32(record::values(fs, 3));
        if width is Some && height is Some && colour_depth_bits is Some {
            Some(
                NavigationImageOptions {
                    width: width->Some_0,
                    height: height->Some_0,
                    colour_depth_bits: colour_depth_bits->Some_0,
                },
            )
        } else {
            None
        }
    }

    proof fn lemma_parts(v: Self::V, room: nat) {
        let parts = Self::parts(v);
        let tags = Self::tags();
        message::lemma_compact(parts);
        assert(message::well_parted(parts, tags)) by {
            assert(message::part_of(parts[0], 1));
            assert(message::part_of(parts[1], 2));
            assert(message::part_of(parts[2], 3));
        }
        assert forall|fs: Seq<WireField>| #[trigger]
            message::holds_parts(fs, parts, tags) implies Self::of_wire(fs, room) == Some(v) by {
            assert(message::uint32(record::values(fs, 1)) == Some(v.width)) by {
                message::lemma_uint32_read_back(1, v.width);
                assert(record::values(fs, tags[0]) == record::values(parts[0], 1));
            }
            assert(message::uint32(record::values(fs, 2)) == Some(v.height)) by {
                message::lemma_uint32_read_back(2, v.height);
                assert(record::values(fs, tags[1]) == record::values(parts[1], 2));
            }
            assert(message::uint32(record::values(fs, 3)) == Some(v.colour_depth_bits)) by {
                message::lemma_uint32_read_back(3, v.colour_depth_bits);
                assert(record::values(fs, tags[2]) == record::values(parts[2], 3));
            }
        }
    }
}

impl Message for NavigationImageOptions {
    fn put(&self, out: &mut Vec<u8>) {
        let ghost before = out@;
        let ghost parts = Self::parts(self@);
        proof {
            message::lemma_written_first(parts, before);
        }
        let ghost now = out@;
        record::put_scalar(out, 1, self.width as u64);
        proof {
            message::lemma_written_next(parts, 0, before, now, out@);
        }
        let ghost now = out@;
        record::put_scalar(out, 2, self.height as u64);
        proof {
            message::lemma_written_next(parts, 1, before, now, out@);
        }
        let ghost now = out@;
        record::put_scalar(out, 3, self.colour_depth_bits as u64);
        proof {
            message::lemma_written_next(parts, 2, before, now, out@);
        }
        proof {
            message::lemma_written_last(parts);
        }
    }

    fn of_fields(fs: &Vec<Field>, room: u32) -> (r: Option<Self>) {
        let width: u32 = match message::read_uint32(fs, 1) {
            Some(found) => found,
            None => {
                return None;
            },
        };
        let height: u32 = match message::read_uint32(fs, 2) {
            Some(found) => found,
            None => {
                return None;
            },
        };
        let colour_depth_bits: u32 = match message::read_uint32(fs, 3) {
            Some(found) => found,
            None => {
                return None;
            },
        };
        Some(NavigationImageOptions { width, height, colour_depth_bits })
    }
}

/// A channel for turn-by-turn directions.
#[derive(Debug)]
pub struct NavigationChannel {
    pub minimum_interval_ms: u32,
    pub channel_type: u32,
    pub image_options: Option<NavigationImageOptions>,
}

/// What a [`NavigationChannel`] says.
pub struct NavigationChannelView {
    pub minimum_interval_ms: u32,
    pub channel_type: u32,
    pub image_options: Option<NavigationImageOptions>,
}

impl View for NavigationChannel {
    type V = NavigationChannelView;

    open spec fn view(&self) -> NavigationChannelView {
        NavigationChannelView {
            minimum_interval_ms: self.minimum_interval_ms,
            channel_type: self.channel_type,
            image_options: message::inside::<NavigationImageOptions>(self.image_options),
        }
    }
}

impl Schema for NavigationChannel {
    open spec fn parts(v: Self::V) -> Seq<Seq<WireField>> {
        seq![
            record::scalar_field(1, v.minimum_interval_ms as u64),
            record::scalar_field(2, v.channel_type as u64),
            record::optional_field(
                3,
                message::of_optional::<NavigationImageOptions>(v.image_options),
            ),
        ]
    }

    open spec fn tags() -> Seq<u32> {
        seq![1u32, 2u32, 3u32]
    }

    open spec fn of_wire(fs: Seq<WireField>, room: nat) -> Option<Self::V> {
        let minimum_interval_ms = message::uint32(record::values(fs, 1));
        let channel_type = message::uint32(record::values(fs, 2));
        let image_options = message::optional::<NavigationImageOptions>(record::values(fs, 3), room);
        if minimum_interval_ms is Some && channel_type is Some && image_options is Some {
            Some(
                NavigationChannelView {
                    minimum_interval_ms: minimum_interval_ms->Some_0,
                    channel_type: channel_type->Some_0,
                    image_options: image_options->Some_0,
                },
            )
        } else {
            None
        }
    }

    proof fn lemma_parts(v: Self::V, room: nat) {
        let parts = Self::parts(v);
        let tags = Self::tags();
        message::lemma_compact(parts);
        assert(message::well_parted(parts, tags)) by {
            assert(message::part_of(parts[0], 1));
            assert(message::part_of(parts[1], 2));
            assert(message::part_of(parts[2], 3));
        }
        assert forall|fs: Seq<WireField>| #[trigger]
            message::holds_parts(fs, parts, tags) implies Self::of_wire(fs, room) == Some(v) by {
            assert(message::uint32(record::values(fs, 1)) == Some(v.minimum_interval_ms)) by {
                message::lemma_uint32_read_back(1, v.minimum_interval_ms);
                assert(record::values(fs, tags[0]) == record::values(parts[0], 1));
            }
            assert(message::uint32(record::values(fs, 2)) == Some(v.channel_type)) by {
                message::lemma_uint32_read_back(2, v.channel_type);
                assert(record::values(fs, tags[1]) == record::values(parts[1], 2));
            }
            assert(message::optional::<NavigationImageOptions>(record::values(fs, 3), room)
                == Some(v.image_options)) by {
                if v.image_options is Some {
                    assert(message::small(parts[2][0]));
                }
                message::lemma_optional_back::<NavigationImageOptions>(3, v.image_options, room);
                assert(record::values(fs, tags[2]) == record::values(parts[2], 3));
            }
        }
    }
}

impl Message for NavigationChannel {
    fn put(&self, out: &mut Vec<u8>) {
        let ghost before = out@;
        let ghost parts = Self::parts(self@);
        proof {
            message::lemma_written_first(parts, before);
        }
        let ghost now = out@;
        record::put_scalar(out, 1, self.minimum_interval_ms as u64);
        proof {
            message::lemma_written_next(parts, 0, before, now, out@);
        }
        let ghost now = out@;
        record::put_scalar(out, 2, self.channel_type as u64);
        proof {
            message::lemma_written_next(parts, 1, before, now, out@);
        }
        let ghost now = out@;
        message::put_optional::<NavigationImageOptions>(out, 3, &self.image_options);
        proof {
            message::lemma_written_next(parts, 2, before, now, out@);
        }
        proof {
            message::lemma_written_last(parts);
        }
    }

    fn of_fields(fs: &Vec<Field>, room: u32) -> (r: Option<Self>) {
        let minimum_interval_ms: u32 = match message::read_uint32(fs, 1) {
            Some(found) => found,
            None => {
                return None;
            },
        };
        let channel_type: u32 = match message::read_uint32(fs, 2) {
            Some(found) => found,
            None => {
                return None;
            },
        };
        let image_options: Option<NavigationImageOptions> =
            match message::read_optional::<NavigationImageOptions>(fs, 3, room) {
            Some(found) => found,
            None => {
                return None;
            },
        };
        Some(NavigationChannel { minimum_interval_ms, channel_type, image_options })
    }
}

/// A channel with a meaning that a vendor gives it.
#[derive(Debug)]
pub struct VendorExtensionChannel {
    pub name: String,
    pub package_white_list: Vec<String>,
    pub data: Vec<u8>,
}

/// What a [`VendorExtensionChannel`] says.
pub struct VendorExtensionChannelView {
    pub name: Seq<char>,
    pub package_white_list: Seq<Seq<char>>,
    pub data: Seq<u8>,
}

impl View for VendorExtensionChannel {
    type V = VendorExtensionChannelView;

    open spec fn view(&self) -> VendorExtensionChannelView {
        VendorExtensionChannelView {
            name: self.name@,
            package_white_list: message::texts(self.package_white_list@),
            data: self.data@,
        }
    }
}

impl Schema for VendorExtensionChannel {
    open spec fn parts(v: Self::V) -> Seq<Seq<WireField>> {
        seq![
            record::string_field(1, v.name),
            record::repeated_field(2, message::of_strings(v.package_white_list)),
            record::blob_field(3, v.data),
        ]
    }

    open spec fn tags() -> Seq<u32> {
        seq![1u32, 2u32, 3u32]
    }

    open spec fn of_wire(fs: Seq<WireField>, room: nat) -> Option<Self::V> {
        let name = record::string(record::values(fs, 1));
        let package_white_list = message::strings(record::values(fs, 2));
        let data = record::blob(record::values(fs, 3));
        if name is Some && package_white_list is Some && data is Some {
            Some(
                VendorExtensionChannelView {
                    name: name->Some_0,
                    package_white_list: package_white_list->Some_0,
                    data: data->Some_0,
                },
            )
        } else {
            None
        }
    }

    proof fn lemma_parts(v: Self::V, room: nat) {
        let parts = Self::parts(v);
        let tags = Self::tags();
        message::lemma_compact(parts);
        assert(message::well_parted(parts, tags)) by {
            assert(message::part_of(parts[0], 1));
            assert(message::part_of(parts[1], 2));
            assert(message::part_of(parts[2], 3));
        }
        assert forall|fs: Seq<WireField>| #[trigger]
            message::holds_parts(fs, parts, tags) implies Self::of_wire(fs, room) == Some(v) by {
            assert(record::string(record::values(fs, 1)) == Some(v.name)) by {
                record::lemma_string_read_back(1, v.name);
                assert(record::values(fs, tags[0]) == record::values(parts[0], 1));
            }
            assert(message::strings(record::values(fs, 2)) == Some(v.package_white_list)) by {
                message::lemma_strings_back(2, v.package_white_list);
                assert(record::values(fs, tags[1]) == record::values(parts[1], 2));
            }
            assert(record::blob(record::values(fs, 3)) == Some(v.data)) by {
                record::lemma_blob_read_back(3, v.data);
                assert(record::values(fs, tags[2]) == record::values(parts[2], 3));
            }
        }
    }
}

impl Message for VendorExtensionChannel {
    fn put(&self, out: &mut Vec<u8>) {
        let ghost before = out@;
        let ghost parts = Self::parts(self@);
        proof {
            message::lemma_written_first(parts, before);
        }
        let ghost now = out@;
        record::put_string(out, 1, self.name.as_str());
        proof {
            message::lemma_written_next(parts, 0, before, now, out@);
        }
        let ghost now = out@;
        message::put_strings(out, 2, &self.package_white_list);
        proof {
            message::lemma_written_next(parts, 1, before, now, out@);
        }
        let ghost now = out@;
        record::put_blob(out, 3, self.data.as_slice());
        proof {
            message::lemma_written_next(parts, 2, before, now, out@);
        }
        proof {
            message::lemma_written_last(parts);
        }
    }

    fn of_fields(fs: &Vec<Field>, room: u32) -> (r: Option<Self>) {
        let name: String = match record::read_string(fs, 1) {
            Some(found) => found,
            None => {
                return None;
            },
        };
        let package_white_list: Vec<String> = match message::read_strings(fs, 2) {
            Some(found) => found,
            None => {
                return None;
            },
        };
        let data: Vec<u8> = match record::read_blob(fs, 3) {
            Some(found) => found,
            None => {
                return None;
            },
        };
        Some(VendorExtensionChannel { name, package_white_list, data })
    }
}

/// A channel that a head unit offers.
#[derive(Debug)]
pub struct ChannelDescriptor {
    pub channel_id: u32,
    pub sensor_channel: Option<SensorChannel>,
    pub av_channel: Option<AvChannel>,
    pub input_channel: Option<InputChannel>,
    pub av_input_channel: Option<AvInputChannel>,
    pub bluetooth_channel: Option<BluetoothChannel>,
    pub navigation_channel: Option<NavigationChannel>,
    pub vendor_extension_channel: Option<VendorExtensionChannel>,
}

/// What a [`ChannelDescriptor`] says.
pub struct ChannelDescriptorView {
    pub channel_id: u32,
    pub sensor_channel: Option<SensorChannelView>,
    pub av_channel: Option<AvChannelView>,
    pub input_channel: Option<InputChannelView>,
    pub av_input_channel: Option<AvInputChannelView>,
    pub bluetooth_channel: Option<BluetoothChannelView>,
    pub navigation_channel: Option<NavigationChannelView>,
    pub vendor_extension_channel: Option<VendorExtensionChannelView>,
}

impl View for ChannelDescriptor {
    type V = ChannelDescriptorView;

    open spec fn view(&self) -> ChannelDescriptorView {
        ChannelDescriptorView {
            channel_id: self.channel_id,
            sensor_channel: message::inside::<SensorChannel>(self.sensor_channel),
            av_channel: message::inside::<AvChannel>(self.av_channel),
            input_channel: message::inside::<InputChannel>(self.input_channel),
            av_input_channel: message::inside::<AvInputChannel>(self.av_input_channel),
            bluetooth_channel: message::inside::<BluetoothChannel>(self.bluetooth_channel),
            navigation_channel: message::inside::<NavigationChannel>(self.navigation_channel),
            vendor_extension_channel: message::inside::<VendorExtensionChannel>(self.vendor_extension_channel),
        }
    }
}

impl Schema for ChannelDescriptor {
    open spec fn parts(v: Self::V) -> Seq<Seq<WireField>> {
        seq![
            record::scalar_field(1, v.channel_id as u64),
            record::optional_field(2, message::of_optional::<SensorChannel>(v.sensor_channel)),
            record::optional_field(3, message::of_optional::<AvChannel>(v.av_channel)),
            record::optional_field(4, message::of_optional::<InputChannel>(v.input_channel)),
            record::optional_field(5, message::of_optional::<AvInputChannel>(v.av_input_channel)),
            record::optional_field(
                6,
                message::of_optional::<BluetoothChannel>(v.bluetooth_channel),
            ),
            record::optional_field(
                8,
                message::of_optional::<NavigationChannel>(v.navigation_channel),
            ),
            record::optional_field(
                12,
                message::of_optional::<VendorExtensionChannel>(v.vendor_extension_channel),
            ),
        ]
    }

    open spec fn tags() -> Seq<u32> {
        seq![1u32, 2u32, 3u32, 4u32, 5u32, 6u32, 8u32, 12u32]
    }

    open spec fn of_wire(fs: Seq<WireField>, room: nat) -> Option<Self::V> {
        let channel_id = message::uint32(record::values(fs, 1));
        let sensor_channel = message::optional::<SensorChannel>(record::values(fs, 2), room);
        let av_channel = message::optional::<AvChannel>(record::values(fs, 3), room);
        let input_channel = message::optional::<InputChannel>(record::values(fs, 4), room);
        let av_input_channel = message::optional::<AvInputChannel>(record::values(fs, 5), room);
        let bluetooth_channel = message::optional::<BluetoothChannel>(record::values(fs, 6), room);
        let navigation_channel = message::optional::<NavigationChannel>(record::values(fs, 8), room);
        let vendor_extension_channel =
            message::optional::<VendorExtensionChannel>(record::values(fs, 12), room);
        if channel_id is Some && sensor_channel is Some && av_channel is Some
            && input_channel is Some && av_input_channel is Some && bluetooth_channel is Some
            && navigation_channel is Some && vendor_extension_channel is Some
        {
            Some(
                ChannelDescriptorView {
                    channel_id: channel_id->Some_0,
                    sensor_channel: sensor_channel->Some_0,
                    av_channel: av_channel->Some_0,
                    input_channel: input_channel->Some_0,
                    av_input_channel: av_input_channel->Some_0,
                    bluetooth_channel: bluetooth_channel->Some_0,
                    navigation_channel: navigation_channel->Some_0,
                    vendor_extension_channel: vendor_extension_channel->Some_0,
                },
            )
        } else {
            None
        }
    }

    proof fn lemma_parts(v: Self::V, room: nat) {
        let parts = Self::parts(v);
        let tags = Self::tags();
        message::lemma_compact(parts);
        assert(message::well_parted(parts, tags)) by {
            assert(message::part_of(parts[0], 1));
            assert(message::part_of(parts[1], 2));
            assert(message::part_of(parts[2], 3));
            assert(message::part_of(parts[3], 4));
            assert(message::part_of(parts[4], 5));
            assert(message::part_of(parts[5], 6));
            assert(message::part_of(parts[6], 8));
            assert(message::part_of(parts[7], 12));
        }
        assert forall|fs: Seq<WireField>| #[trigger]
            message::holds_parts(fs, parts, tags) implies Self::of_wire(fs, room) == Some(v) by {
            assert(message::uint32(record::values(fs, 1)) == Some(v.channel_id)) by {
                message::lemma_uint32_read_back(1, v.channel_id);
                assert(record::values(fs, tags[0]) == record::values(parts[0], 1));
            }
            assert(message::optional::<SensorChannel>(record::values(fs, 2), room)
                == Some(v.sensor_channel)) by {
                if v.sensor_channel is Some {
                    assert(message::small(parts[1][0]));
                }
                message::lemma_optional_back::<SensorChannel>(2, v.sensor_channel, room);
                assert(record::values(fs, tags[1]) == record::values(parts[1], 2));
            }
            assert(message::optional::<AvChannel>(record::values(fs, 3), room) == Some(v.av_channel)) by {
                if v.av_channel is Some {
                    assert(message::small(parts[2][0]));
                }
                message::lemma_optional_back::<AvChannel>(3, v.av_channel, room);
                assert(record::values(fs, tags[2]) == record::values(parts[2], 3));
            }
            assert(message::optional::<InputChannel>(record::values(fs, 4), room)
                == Some(v.input_channel)) by {
                if v.input_channel is Some {
                    assert(message::small(parts[3][0]));
                }
                message::lemma_optional_back::<InputChannel>(4, v.input_channel, room);
                assert(record::values(fs, tags[3]) == record::values(parts[3], 4));
            }
            assert(message::optional::<AvInputChannel>(record::values(fs, 5), room)
                == Some(v.av_input_channel)) by {
                if v.av_input_channel is Some {
                    assert(message::small(parts[4][0]));
                }
                message::lemma_optional_back::<AvInputChannel>(5, v.av_input_channel, room);
                assert(record::values(fs, tags[4]) == record::values(parts[4], 5));
            }
            assert(message::optional::<BluetoothChannel>(record::values(fs, 6), room)
                == Some(v.bluetooth_channel)) by {
                if v.bluetooth_channel is Some {
                    assert(message::small(parts[5][0]));
                }
                message::lemma_optional_back::<BluetoothChannel>(6, v.bluetooth_channel, room);
                assert(record::values(fs, tags[5]) == record::values(parts[5], 6));
            }
            assert(message::optional::<NavigationChannel>(record::values(fs, 8), room)
                == Some(v.navigation_channel)) by {
                if v.navigation_channel is Some {
                    assert(message::small(parts[6][0]));
                }
                message::lemma_optional_back::<NavigationChannel>(8, v.navigation_channel, room);
                assert(record::values(fs, tags[6]) == record::values(parts[6], 8));
            }
            assert(message::optional::<VendorExtensionChannel>(record::values(fs, 12), room)
                == Some(v.vendor_extension_channel)) by {
                if v.vendor_extension_channel is Some {
                    assert(message::small(parts[7][0]));
                }
                message::lemma_optional_back::<VendorExtensionChannel>(12, v.vendor_extension_channel, room);
                assert(record::values(fs, tags[7]) == record::values(parts[7], 12));
            }
        }
    }
}

impl Message for ChannelDescriptor {
    fn put(&self, out: &mut Vec<u8>) {
        let ghost before = out@;
        let ghost parts = Self::parts(self@);
        proof {
            message::lemma_written_first(parts, before);
        }
        let ghost now = out@;
        record::put_scalar(out, 1, self.channel_id as u64);
        proof {
            message::lemma_written_next(parts, 0, before, now, out@);
        }
        let ghost now = out@;
        message::put_optional::<SensorChannel>(out, 2, &self.sensor_channel);
        proof {
            message::lemma_written_next(parts, 1, before, now, out@);
        }
        let ghost now = out@;
        message::put_optional::<AvChannel>(out, 3, &self.av_channel);
        proof {
            message::lemma_written_next(parts, 2, before, now, out@);
        }
        let ghost now = out@;
        message::put_optional::<InputChannel>(out, 4, &self.input_channel);
        proof {
            message::lemma_written_next(parts, 3, before, now, out@);
        }
        let ghost now = out@;
        message::put_optional::<AvInputChannel>(out, 5, &self.av_input_channel);
        proof {
            message::lemma_written_next(parts, 4, before, now, out@);
        }
        let ghost now = out@;
        message::put_optional::<BluetoothChannel>(out, 6, &self.bluetooth_channel);
        proof {
            message::lemma_written_next(parts, 5, before, now, out@);
        }
        let ghost now = out@;
        message::put_optional::<NavigationChannel>(out, 8, &self.navigation_channel);
        proof {
            message::lemma_written_next(parts, 6, before, now, out@);
        }
        let ghost now = out@;
        message::put_optional::<VendorExtensionChannel>(out, 12, &self.vendor_extension_channel);
        proof {
            message::lemma_written_next(parts, 7, before, now, out@);
        }
        proof {
            message::lemma_written_last(parts);
        }
    }

    fn of_fields(fs: &Vec<Field>, room: u32) -> (r: Option<Self>) {
        let channel_id: u32 = match message::read_uint32(fs, 1) {
            Some(found) => found,
            None => {
                return None;
            },
        };
        let sensor_channel: Option<SensorChannel> =
            match message::read_optional::<SensorChannel>(fs, 2, room) {
            Some(found) => found,
            None => {
                return None;
            },
        };
        let av_channel: Option<AvChannel> = match message::read_optional::<AvChannel>(fs, 3, room) {
            Some(found) => found,
            None => {
                return None;
            },
        };
        let input_channel: Option<InputChannel> =
            match message::read_optional::<InputChannel>(fs, 4, room) {
            Some(found) => found,
            None => {
                return None;
            },
        };
        let av_input_channel: Option<AvInputChannel> =
            match message::read_optional::<AvInputChannel>(fs, 5, room) {
            Some(found) => found,
            None => {
                return None;
            },
        };
        let bluetooth_channel: Option<BluetoothChannel> =
            match message::read_optional::<BluetoothChannel>(fs, 6, room) {
            Some(found) => found,
            None => {
                return None;
            },
        };
        let navigation_channel: Option<NavigationChannel> =
            match message::read_optional::<NavigationChannel>(fs, 8, room) {
            Some(found) => found,
            None => {
                return None;
            },
        };
        let vendor_extension_channel: Option<VendorExtensionChannel> =
            match message::read_optional::<VendorExtensionChannel>(fs, 12, room) {
            Some(found) => found,
            None => {
                return None;
            },
        };
        Some(
            ChannelDescriptor {
                channel_id,
                sensor_channel,
                av_channel,
                input_channel,
                av_input_channel,
                bluetooth_channel,
                navigation_channel,
                vendor_extension_channel,
            },
        )
    }
}

/// A position: degrees in units of 1e-7, bearing in units of 1e-6 degrees, and lengths in
/// millimetres.
#[derive(Debug, Clone, Copy, PartialEq, Eq, Structural)]
pub struct GpsLocation {
    pub timestamp: u64,
    pub latitude: i32,
    pub longitude: i32,
    pub accuracy: u32,
    pub altitude: i32,
    pub speed: i32,
    pub bearing: i32,
}

impl View for GpsLocation {
    type V = Self;

    open spec fn view(&self) -> Self {
        *self
    }
}

impl Schema for GpsLocation {
    open spec fn parts(v: Self::V) -> Seq<Seq<WireField>> {
        seq![
            record::scalar_field(1, v.timestamp),
            record::scalar_field(2, v.latitude as u64),
            record::scalar_field(3, v.longitude as u64),
            record::scalar_field(4, v.accuracy as u64),
            record::scalar_field(5, v.altitude as u64),
            record::scalar_field(6, v.speed as u64),
            record::scalar_field(7, v.bearing as u64),
        ]
    }

    open spec fn tags() -> Seq<u32> {
        seq![1u32, 2u32, 3u32, 4u32, 5u32, 6u32, 7u32]
    }

    open spec fn of_wire(fs: Seq<WireField>, room: nat) -> Option<Self::V> {
        let timestamp = record::scalar(record::values(fs, 1));
        let latitude = message::int32(record::values(fs, 2));
        let longitude = message::int32(record::values(fs, 3));
        let accuracy = message::uint32(record::values(fs, 4));
        let altitude = message::int32(record::values(fs, 5));
        let speed = message::int32(record::values(fs, 6));
        let bearing = message::int32(record::values(fs, 7));
        if timestamp is Some && latitude is Some && longitude is Some && accuracy is Some
            && altitude is Some && speed is Some && bearing is Some
        {
            Some(
                GpsLocation {
                    timestamp: timestamp->Some_0,
                    latitude: latitude->Some_0,
                    longitude: longitude->Some_0,
                    accuracy: accuracy->Some_0,
                    altitude: altitude->Some_0,
                    speed: speed->Some_0,
                    bearing: bearing->Some_0,
                },
            )
        } else {
            None
        }
    }

    proof fn lemma_parts(v: Self::V, room: nat) {
        let parts = Self::parts(v);
        let tags = Self::tags();
        message::lemma_compact(parts);
        assert(message::well_parted(parts, tags)) by {
            assert(message::part_of(parts[0], 1));
            assert(message::part_of(parts[1], 2));
            assert(message::part_of(parts[2], 3));
            assert(message::part_of(parts[3], 4));
            assert(message::part_of(parts[4], 5));
            assert(message::part_of(parts[5], 6));
            assert(message::part_of(parts[6], 7));
        }
        assert forall|fs: Seq<WireField>| #[trigger]
            message::holds_parts(fs, parts, tags) implies Self::of_wire(fs, room) == Some(v) by {
            assert(record::scalar(record::values(fs, 1)) == Some(v.timestamp)) by {
                record::lemma_scalar_read_back(1, v.timestamp);
                assert(record::values(fs, tags[0]) == record::values(parts[0], 1));
            }
            assert(message::int32(record::values(fs, 2)) == Some(v.latitude)) by {
                message::lemma_int32_read_back(2, v.latitude);
                assert(record::values(fs, tags[1]) == record::values(parts[1], 2));
            }
            assert(message::int32(record::values(fs, 3)) == Some(v.longitude)) by {
                message::lemma_int32_read_back(3, v.longitude);
                assert(record::values(fs, tags[2]) == record::values(parts[2], 3));
            }
            assert(message::uint32(record::values(fs, 4)) == Some(v.accuracy)) by {
                message::lemma_uint32_read_back(4, v.accuracy);
                assert(record::values(fs, tags[3]) == record::values(parts[3], 4));
            }
            assert(message::int32(record::values(fs, 5)) == Some(v.altitude)) by {
                message::lemma_int32_read_back(5, v.altitude);
                assert(record::values(fs, tags[4]) == record::values(parts[4], 5));
            }
            assert(message::int32(record::values(fs, 6)) == Some(v.speed)) by {
                message::lemma_int32_read_back(6, v.speed);
                assert(record::values(fs, tags[5]) == record::values(parts[5], 6));
            }
            assert(message::int32(record::values(fs, 7)) == Some(v.bearing)) by {
                message::lemma_int32_read_back(7, v.bearing);
                assert(record::values(fs, tags[6]) == record::values(parts[6], 7));
            }
        }
    }
}

impl Message for GpsLocation {
    fn put(&self, out: &mut Vec<u8>) {
        let ghost before = out@;
        let ghost parts = Self::parts(self@);
        proof {
            message::lemma_written_first(parts, before);
        }
        let ghost now = out@;
        record::put_scalar(out, 1, self.timestamp);
        proof {
            message::lemma_written_next(parts, 0, before, now, out@);
        }
        let ghost now = out@;
        record::put_scalar(
            out,
            2,
            #[verifier::truncate]
            (self.latitude as u64),
        );
        proof {
            message::lemma_written_next(parts, 1, before, now, out@);
        }
        let ghost now = out@;
        record::put_scalar(
            out,
            3,
            #[verifier::truncate]
            (self.longitude as u64),
        );
        proof {
            message::lemma_written_next(parts, 2, before, now, out@);
        }
        let ghost now = out@;
        record::put_scalar(out, 4, self.accuracy as u64);
        proof {
            message::lemma_written_next(parts, 3, before, now, out@);
        }
        let ghost now = out@;
        record::put_scalar(
            out,
            5,
            #[verifier::truncate]
            (self.altitude as u64),
        );
        proof {
            message::lemma_written_next(parts, 4, before, now, out@);
        }
        let ghost now = out@;
        record::put_scalar(
            out,
            6,
            #[verifier::truncate]
            (self.speed as u64),
        );
        proof {
            message::lemma_written_next(parts, 5, before, now, out@);
        }
        let ghost now = out@;
        record::put_scalar(
            out,
            7,
            #[verifier::truncate]
            (self.bearing as u64),
        );
        proof {
            message::lemma_written_next(parts, 6, before, now, out@);
        }
        proof {
            message::lemma_written_last(parts);
        }
    }

    fn of_fields(fs: &Vec<Field>, room: u32) -> (r: Option<Self>) {
        let timestamp: u64 = match record::read_scalar(fs, 1) {
            Some(found) => found,
            None => {
                return None;
            },
        };
        let latitude: i32 = match message::read_int32(fs, 2) {
            Some(found) => found,
            None => {
                return None;
            },
        };
        let longitude: i32 = match message::read_int32(fs, 3) {
            Some(found) => found,
            None => {
                return None;
            },
        };
        let accuracy: u32 = match message::read_uint32(fs, 4) {
            Some(found) => found,
            None => {
                return None;
            },
        };
        let altitude: i32 = match message::read_int32(fs, 5) {
            Some(found) => found,
            None => {
                return None;
            },
        };
        let speed: i32 = match message::read_int32(fs, 6) {
            Some(found) => found,
            None => {
                return None;
            },
        };
        let bearing: i32 = match message::read_int32(fs, 7) {
            Some(found) => found,
            None => {
                return None;
            },
        };
        Some(GpsLocation { timestamp, latitude, longitude, accuracy, altitude, speed, bearing })
    }
}

/// How fast the car is, in millimetres per second, and whether it holds its speed.
#[derive(Debug, Clone, Copy, PartialEq, Eq, Structural)]
pub struct Speed {
    pub speed: i32,
    pub cruise_engaged: bool,
    pub cruise_set_speed: bool,
}

impl View for Speed {
    type V = Self;

    open spec fn view(&self) -> Self {
        *self
    }
}

impl Schema for Speed {
    open spec fn parts(v: Self::V) -> Seq<Seq<WireField>> {
        seq![
            record::scalar_field(1, v.speed as u64),
            record::scalar_field(2, message::bit(v.cruise_engaged)),
            record::scalar_field(4, message::bit(v.cruise_set_speed)),
        ]
    }

    open spec fn tags() -> Seq<u32> {
        seq![1u32, 2u32, 4u32]
    }

    open spec fn of_wire(fs: Seq<WireField>, room: nat) -> Option<Self::V> {
        let speed = message::int32(record::values(fs, 1));
        let cruise_engaged = message::boolean(record::values(fs, 2));
        let cruise_set_speed = message::boolean(record::values(fs, 4));
        if speed is Some && cruise_engaged is Some && cruise_set_speed is Some {
            Some(
                Speed {
                    speed: speed->Some_0,
                    cruise_engaged: cruise_engaged->Some_0,
                    cruise_set_speed: cruise_set_speed->Some_0,
                },
            )
        } else {
            None
        }
    }

    proof fn lemma_parts(v: Self::V, room: nat) {
        let parts = Self::parts(v);
        let tags = Self::tags();
        message::lemma_compact(parts);
        assert(message::well_parted(parts, tags)) by {
            assert(message::part_of(parts[0], 1));
            assert(message::part_of(parts[1], 2));
            assert(message::part_of(parts[2], 4));
        }
        assert forall|fs: Seq<WireField>| #[trigger]
            message::holds_parts(fs, parts, tags) implies Self::of_wire(fs, room) == Some(v) by {
            assert(message::int32(record::values(fs, 1)) == Some(v.speed)) by {
                message::lemma_int32_read_back(1, v.speed);
                assert(record::values(fs, tags[0]) == record::values(parts[0], 1));
            }
            assert(message::boolean(record::values(fs, 2)) == Some(v.cruise_engaged)) by {
                message::lemma_boolean_read_back(2, v.cruise_engaged);
                assert(record::values(fs, tags[1]) == record::values(parts[1], 2));
            }
            assert(message::boolean(record::values(fs, 4)) == Some(v.cruise_set_speed)) by {
                message::lemma_boolean_read_back(4, v.cruise_set_speed);
                assert(record::values(fs, tags[2]) == record::values(parts[2], 4));
            }
        }
    }
}

impl Message for Speed {
    fn put(&self, out: &mut Vec<u8>) {
        let ghost before = out@;
        let ghost parts = Self::parts(self@);
        proof {
            message::lemma_written_first(parts, before);
        }
        let ghost now = out@;
        record::put_scalar(
            out,
            1,
            #[verifier::truncate]
            (self.speed as u64),
        );
        proof {
            message::lemma_written_next(parts, 0, before, now, out@);
        }
        let ghost now = out@;
        record::put_scalar(
            out,
            2,
            if self.cruise_engaged {
                1
            } else {
                0
            },
        );
        proof {
            message::lemma_written_next(parts, 1, before, now, out@);
        }
        let ghost now = out@;
        record::put_scalar(
            out,
            4,
            if self.cruise_set_speed {
                1
            } else {
                0
            },
        );
        proof {
            message::lemma_written_next(parts, 2, before, now, out@);
        }
        proof {
            message::lemma_written_last(parts);
        }
    }

    fn of_fields(fs: &Vec<Field>, room: u32) -> (r: Option<Self>) {
        let speed: i32 = match message::read_int32(fs, 1) {
            Some(found) => found,
            None => {
                return None;
            },
        };
        let cruise_engaged: bool = match message::read_boolean(fs, 2) {
            Some(found) => found,
            None => {
                return None;
            },
        };
        let cruise_set_speed: bool = match message::read_boolean(fs, 4) {
            Some(found) => found,
            None => {
                return None;
            },
        };
        Some(Speed { speed, cruise_engaged, cruise_set_speed })
    }
}

/// The gear that is in.
#[derive(Debug, Clone, Copy, PartialEq, Eq, Structural)]
pub struct Gear {
    pub gear: i32,
}

impl View for Gear {
    type V = Self;

    open spec fn view(&self) -> Self {
        *self
    }
}

impl Schema for Gear {
    open spec fn parts(v: Self::V) -> Seq<Seq<WireField>> {
        seq![
            record::scalar_field(1, v.gear as u64),
        ]
    }

    open spec fn tags() -> Seq<u32> {
        seq![1u32]
    }

    open spec fn of_wire(fs: Seq<WireField>, room: nat) -> Option<Self::V> {
        let gear = message::int32(record::values(fs, 1));
        if gear is Some {
            Some(Gear { gear: gear->Some_0 })
        } else {
            None
        }
    }

    proof fn lemma_parts(v: Self::V, room: nat) {
        let parts = Self::parts(v);
        let tags = Self::tags();
        message::lemma_compact(parts);
        assert(message::well_parted(parts, tags)) by {
            assert(message::part_of(parts[0], 1));
        }
        assert forall|fs: Seq<WireField>| #[trigger]
            message::holds_parts(fs, parts, tags) implies Self::of_wire(fs, room) == Some(v) by {
            assert(message::int32(record::values(fs, 1)) == Some(v.gear)) by {
                message::lemma_int32_read_back(1, v.gear);
                assert(record::values(fs, tags[0]) == record::values(parts[0], 1));
            }
        }
    }
}

impl Message for Gear {
    fn put(&self, out: &mut Vec<u8>) {
        let ghost before = out@;
        let ghost parts = Self::parts(self@);
        proof {
            message::lemma_written_first(parts, before);
        }
        let ghost now = out@;
        record::put_scalar(
            out,
            1,
            #[verifier::truncate]
            (self.gear as u64),
        );
        proof {
            message::lemma_written_next(parts, 0, before, now, out@);
        }
        proof {
            message::lemma_written_last(parts);
        }
    }

    fn of_fields(fs: &Vec<Field>, room: u32) -> (r: Option<Self>) {
        let gear: i32 = match message::read_int32(fs, 1) {
            Some(found) => found,
            None => {
                return None;
            },
        };
        Some(Gear { gear })
    }
}

/// What the driver may do while driving.
#[derive(Debug, Clone, Copy, PartialEq, Eq, Structural)]
pub struct DrivingStatus {
    pub status: i32,
}

impl View for DrivingStatus {
    type V = Self;

    open spec fn view(&self) -> Self {
        *self
    }
}

impl Schema for DrivingStatus {
    open spec fn parts(v: Self::V) -> Seq<Seq<WireField>> {
        seq![
            record::scalar_field(1, v.status as u64),
        ]
    }

    open spec fn tags() -> Seq<u32> {
        seq![1u32]
    }

    open spec fn of_wire(fs: Seq<WireField>, room: nat) -> Option<Self::V> {
        let status = message::int32(record::values(fs, 1));
        if status is Some {
            Some(DrivingStatus { status: status->Some_0 })
        } else {
            None
        }
    }

    proof fn lemma_parts(v: Self::V, room: nat) {
        let parts = Self::parts(v);
        let tags = Self::tags();
        message::lemma_compact(parts);
        assert(message::well_parted(parts, tags)) by {
            assert(message::part_of(parts[0], 1));
        }
        assert forall|fs: Seq<WireField>| #[trigger]
            message::holds_parts(fs, parts, tags) implies Self::of_wire(fs, room) == Some(v) by {
            assert(message::int32(record::values(fs, 1)) == Some(v.status)) by {
                message::lemma_int32_read_back(1, v.status);
                assert(record::values(fs, tags[0]) == record::values(parts[0], 1));
            }
        }
    }
}

impl Message for DrivingStatus {
    fn put(&self, out: &mut Vec<u8>) {
        let ghost before = out@;
        let ghost parts = Self::parts(self@);
        proof {
            message::lemma_written_first(parts, before);
        }
        let ghost now = out@;
        record::put_scalar(
            out,
            1,
            #[verifier::truncate]
            (self.status as u64),
        );
        proof {
            message::lemma_written_next(parts, 0, before, now, out@);
        }
        proof {
            message::lemma_written_last(parts);
        }
    }

    fn of_fields(fs: &Vec<Field>, room: u32) -> (r: Option<Self>) {
        let status: i32 = match message::read_int32(fs, 1) {
            Some(found) => found,
            None => {
                return None;
            },
        };
        Some(DrivingStatus { status })
    }
}

} // verus!
