//! The messages of the control, media, sensor and input channels.
use crate::proto::data::{
    ChannelDescriptor, ChannelDescriptorView, DrivingStatus, Gear, GpsLocation, Speed,
};
use crate::proto::message;
use crate::proto::message::{Message, Schema};
use crate::proto::record;
use crate::proto::wire;
use crate::proto::wire::{Field, WireField};
use vstd::prelude::*;

verus! {

/// What a head unit is and which channels it offers.
#[derive(Debug)]
pub struct ServiceDiscoveryResponse {
    pub channels: Vec<ChannelDescriptor>,
    pub head_unit_name: String,
    pub car_model: String,
    pub car_year: String,
    pub car_serial: String,
    pub left_hand_drive_vehicle: bool,
    pub headunit_manufacturer: String,
    pub headunit_model: String,
    pub sw_build: String,
    pub sw_version: String,
    pub can_play_native_media_during_vr: bool,
    pub hide_clock: bool,
}

/// What a [`ServiceDiscoveryResponse`] says.
pub struct ServiceDiscoveryResponseView {
    pub channels: Seq<ChannelDescriptorView>,
    pub head_unit_name: Seq<char>,
    pub car_model: Seq<char>,
    pub car_year: Seq<char>,
    pub car_serial: Seq<char>,
    pub left_hand_drive_vehicle: bool,
    pub headunit_manufacturer: Seq<char>,
    pub headunit_model: Seq<char>,
    pub sw_build: Seq<char>,
    pub sw_version: Seq<char>,
    pub can_play_native_media_during_vr: bool,
    pub hide_clock: bool,
}

impl View for ServiceDiscoveryResponse {
    type V = ServiceDiscoveryResponseView;

    open spec fn view(&self) -> ServiceDiscoveryResponseView {
        ServiceDiscoveryResponseView {
            channels: message::said::<ChannelDescriptor>(self.channels@),
            head_unit_name: self.head_unit_name@,
            car_model: self.car_model@,
            car_year: self.car_year@,
            car_serial: self.car_serial@,
            left_hand_drive_vehicle: self.left_hand_drive_vehicle,
            headunit_manufacturer: self.headunit_manufacturer@,
            headunit_model: self.headunit_model@,
            sw_build: self.sw_build@,
            sw_version: self.sw_version@,
            can_play_native_media_during_vr: self.can_play_native_media_during_vr,
            hide_clock: self.hide_clock,
        }
    }
}

impl Schema for ServiceDiscoveryResponse {
    open spec fn parts(v: Self::V) -> Seq<Seq<WireField>> {
        seq![
            record::repeated_field(1, message::of_repeated::<ChannelDescriptor>(v.channels)),
            record::string_field(2, v.head_unit_name),
            record::string_field(3, v.car_model),
            record::string_field(4, v.car_year),
            record::string_field(5, v.car_serial),
            record::scalar_field(6, message::bit(v.left_hand_drive_vehicle)),
            record::string_field(7, v.headunit_manufacturer),
            record::string_field(8, v.headunit_model),
            record::string_field(9, v.sw_build),
            record::string_field(10, v.sw_version),
            record::scalar_field(11, message::bit(v.can_play_native_media_during_vr)),
            record::scalar_field(12, message::bit(v.hide_clock)),
        ]
    }

    open spec fn tags() -> Seq<u32> {
        seq![1u32, 2u32, 3u32, 4u32, 5u32, 6u32, 7u32, 8u32, 9u32, 10u32, 11u32, 12u32]
    }

    open spec fn of_wire(fs: Seq<WireField>, room: nat) -> Option<Self::V> {
        let channels = message::repeated::<ChannelDescriptor>(record::values(fs, 1), room);
        let head_unit_name = record::string(record::values(fs, 2));
        let car_model = record::string(record::values(fs, 3));
        let car_year = record::string(record::values(fs, 4));
        let car_serial = record::string(record::values(fs, 5));
        let left_hand_drive_vehicle = message::boolean(record::values(fs, 6));
        let headunit_manufacturer = record::string(record::values(fs, 7));
        let headunit_model = record::string(record::values(fs, 8));
        let sw_build = record::string(record::values(fs, 9));
        let sw_version = record::string(record::values(fs, 10));
        let can_play_native_media_during_vr = message::boolean(record::values(fs, 11));
        let hide_clock = message::boolean(record::values(fs, 12));
        if channels is Some && head_unit_name is Some && car_model is Some && car_year is Some
            && car_serial is Some && left_hand_drive_vehicle is Some
            && headunit_manufacturer is Some && headunit_model is Some && sw_build is Some
            && sw_version is Some && can_play_native_media_during_vr is Some && hide_clock is Some
        {
            Some(
                ServiceDiscoveryResponseView {
                    channels: channels->Some_0,
                    head_unit_name: head_unit_name->Some_0,
                    car_model: car_model->Some_0,
                    car_year: car_year->Some_0,
                    car_serial: car_serial->Some_0,
                    left_hand_drive_vehicle: left_hand_drive_vehicle->Some_0,
                    headunit_manufacturer: headunit_manufacturer->Some_0,
                    headunit_model: headunit_model->Some_0,
                    sw_build: sw_build->Some_0,
                    sw_version: sw_version->Some_0,
                    can_play_native_media_during_vr: can_play_native_media_during_vr->Some_0,
                    hide_clock: hide_clock->Some_0,
                },
            )
        } else {
            None
        }
    }

    proof fn lemma_parts(v: Self::V, room: nat) {
        let parts = Self::parts(v);
        let tags = Self::tags();
        message::lemma_compact(parts);
        assert(message::well_parted(parts, tags)) by {
            assert(message::part_of(parts[0], 1));
            assert(message::part_of(parts[1], 2));
            assert(message::part_of(parts[2], 3));
            assert(message::part_of(parts[3], 4));
            assert(message::part_of(parts[4], 5));
            assert(message::part_of(parts[5], 6));
            assert(message::part_of(parts[6], 7));
            assert(message::part_of(parts[7], 8));
            assert(message::part_of(parts[8], 9));
            assert(message::part_of(parts[9], 10));
            assert(message::part_of(parts[10], 11));
            assert(message::part_of(parts[11], 12));
        }
        assert forall|fs: Seq<WireField>| #[trigger]
            message::holds_parts(fs, parts, tags) implies Self::of_wire(fs, room) == Some(v) by {
            assert(message::repeated::<ChannelDescriptor>(record::values(fs, 1), room)
                == Some(v.channels)) by {
                assert forall|i: int|
                    0 <= i < v.channels.len() implies
                    message::bytes_of::<ChannelDescriptor>(#[trigger] v.channels[i]).len()
                    <= u64::MAX by {
                    assert(message::small(parts[0][i]));
                }
                message::lemma_repeated_back::<ChannelDescriptor>(1, v.channels, room);
                assert(record::values(fs, tags[0]) == record::values(parts[0], 1));
            }
            assert(record::string(record::values(fs, 2)) == Some(v.head_unit_name)) by {
                record::lemma_string_read_back(2, v.head_unit_name);
                assert(record::values(fs, tags[1]) == record::values(parts[1], 2));
            }
            assert(record::string(record::values(fs, 3)) == Some(v.car_model)) by {
                record::lemma_string_read_back(3, v.car_model);
                assert(record::values(fs, tags[2]) == record::values(parts[2], 3));
            }
            assert(record::string(record::values(fs, 4)) == Some(v.car_year)) by {
                record::lemma_string_read_back(4, v.car_year);
                assert(record::values(fs, tags[3]) == record::values(parts[3], 4));
            }
            assert(record::string(record::values(fs, 5)) == Some(v.car_serial)) by {
                record::lemma_string_read_back(5, v.car_serial);
                assert(record::values(fs, tags[4]) == record::values(parts[4], 5));
            }
            assert(message::boolean(record::values(fs, 6)) == Some(v.left_hand_drive_vehicle)) by {
                message::lemma_boolean_read_back(6, v.left_hand_drive_vehicle);
                assert(record::values(fs, tags[5]) == record::values(parts[5], 6));
            }
            assert(record::string(record::values(fs, 7)) == Some(v.headunit_manufacturer)) by {
                record::lemma_string_read_back(7, v.headunit_manufacturer);
                assert(record::values(fs, tags[6]) == record::values(parts[6], 7));
            }
            assert(record::string(record::values(fs, 8)) == Some(v.headunit_model)) by {
                record::lemma_string_read_back(8, v.headunit_model);
                assert(record::values(fs, tags[7]) == record::values(parts[7], 8));
            }
            assert(record::string(record::values(fs, 9)) == Some(v.sw_build)) by {
                record::lemma_string_read_back(9, v.sw_build);
                assert(record::values(fs, tags[8]) == record::values(parts[8], 9));
            }
            assert(record::string(record::values(fs, 10)) == Some(v.sw_version)) by {
                record::lemma_string_read_back(10, v.sw_version);
                assert(record::values(fs, tags[9]) == record::values(parts[9], 10));
            }
            assert(message::boolean(record::values(fs, 11))
                == Some(v.can_play_native_media_during_vr)) by {
                message::lemma_boolean_read_back(11, v.can_play_native_media_during_vr);
                assert(record::values(fs, tags[10]) == record::values(parts[10], 11));
            }
            assert(message::boolean(record::values(fs, 12)) == Some(v.hide_clock)) by {
                message::lemma_boolean_read_back(12, v.hide_clock);
                assert(record::values(fs, tags[11]) == record::values(parts[11], 12));
            }
        }
    }
}

impl Message for ServiceDiscoveryResponse {
    fn put(&self, out: &mut Vec<u8>) {
        let ghost before = out@;
        let ghost parts = Self::parts(self@);
        proof {
            message::lemma_written_first(parts, before);
        }
        let ghost now = out@;
        message::put_repeated::<ChannelDescriptor>(out, 1, &self.channels);
        proof {
            message::lemma_written_next(parts, 0, before, now, out@);
        }
        let ghost now = out@;
        record::put_string(out, 2, self.head_unit_name.as_str());
        proof {
            message::lemma_written_next(parts, 1, before, now, out@);
        }
        let ghost now = out@;
        record::put_string(out, 3, self.car_model.as_str());
        proof {
            message::lemma_written_next(parts, 2, before, now, out@);
        }
        let ghost now = out@;
        record::put_string(out, 4, self.car_year.as_str());
        proof {
            message::lemma_written_next(parts, 3, before, now, out@);
        }
        let ghost now = out@;
        record::put_string(out, 5, self.car_serial.as_str());
        proof {
            message::lemma_written_next(parts, 4, before, now, out@);
        }
        let ghost now = out@;
        record::put_scalar(
            out,
            6,
            if self.left_hand_drive_vehicle {
                1
            } else {
                0
            },
        );
        proof {
            message::lemma_written_next(parts, 5, before, now, out@);
        }
        let ghost now = out@;
        record::put_string(out, 7, self.headunit_manufacturer.as_str());
        proof {
            message::lemma_written_next(parts, 6, before, now, out@);
        }
        let ghost now = out@;
        record::put_string(out, 8, self.headunit_model.as_str());
        proof {
            message::lemma_written_next(parts, 7, before, now, out@);
        }
        let ghost now = out@;
        record::put_string(out, 9, self.sw_build.as_str());
        proof {
            message::lemma_written_next(parts, 8, before, now, out@);
        }
        let ghost now = out@;
        record::put_string(out, 10, self.sw_version.as_str());
        proof {
            message::lemma_written_next(parts, 9, before, now, out@);
        }
        let ghost now = out@;
        record::put_scalar(
            out,
            11,
            if self.can_play_native_media_during_vr {
                1
            } else {
                0
            },
        );
        proof {
            message::lemma_written_next(parts, 10, before, now, out@);
        }
        let ghost now = out@;
        record::put_scalar(
            out,
            12,
            if self.hide_clock {
                1
            } else {
                0
            },
        );
        proof {
            message::lemma_written_next(parts, 11, before, now, out@);
        }
        proof {
            message::lemma_written_last(parts);
        }
    }

    fn of_fields(fs: &Vec<Field>, room: u32) -> (r: Option<Self>) {
        let channels: Vec<ChannelDescriptor> =
            match message::read_repeated::<ChannelDescriptor>(fs, 1, room) {
            Some(found) => found,
            None => {
                return None;
            },
        };
        let head_unit_name: String = match record::read_string(fs, 2) {
            Some(found) => found,
            None => {
                return None;
            },
        };
        let car_model: String = match record::read_string(fs, 3) {
            Some(found) => found,
            None => {
                return None;
            },
        };
        let car_year: String = match record::read_string(fs, 4) {
            Some(found) => found,
            None => {
                return None;
            },
        };
        let car_serial: String = match record::read_string(fs, 5) {
            Some(found) => found,
            None => {
                return None;
            },
        };
        let left_hand_drive_vehicle: bool = match message::read_boolean(fs, 6) {
            Some(found) => found,
            None => {
                return None;
            },
        };
        let headunit_manufacturer: String = match record::read_string(fs, 7) {
            Some(found) => found,
            None => {
                return None;
            },
        };
        let headunit_model: String = match record::read_string(fs, 8) {
            Some(found) => found,
            None => {
                return None;
            },
        };
        let sw_build: String = match record::read_string(fs, 9) {
            Some(found) => found,
            None => {
                return None;
            },
        };
        let sw_version: String = match record::read_string(fs, 10) {
            Some(found) => found,
            None => {
                return None;
            },
        };
        let can_play_native_media_during_vr: bool = match message::read_boolean(fs, 11) {
            Some(found) => found,
            None => {
                return None;
            },
        };
        let hide_clock: bool = match message::read_boolean(fs, 12) {
            Some(found) => found,
            None => {
                return None;
            },
        };
        Some(
            ServiceDiscoveryResponse {
                channels,
                head_unit_name,
                car_model,
                car_year,
                car_serial,
                left_hand_drive_vehicle,
                headunit_manufacturer,
                headunit_model,
                sw_build,
                sw_version,
                can_play_native_media_during_vr,
                hide_clock,
            },
        )
    }
}

/// Which phone this is.
#[derive(Debug)]
pub struct PhoneInfo {
    pub instance_id: String,
    pub connectivity_lifetime_id: String,
}

/// What a [`PhoneInfo`] says.
pub struct PhoneInfoView {
    pub instance_id: Seq<char>,
    pub connectivity_lifetime_id: Seq<char>,
}

impl View for PhoneInfo {
    type V = PhoneInfoView;

    open spec fn view(&self) -> PhoneInfoView {
        PhoneInfoView {
            instance_id: self.instance_id@,
            connectivity_lifetime_id: self.connectivity_lifetime_id@,
        }
    }
}

impl Schema for PhoneInfo {
    open spec fn parts(v: Self::V) -> Seq<Seq<WireField>> {
        seq![
            record::string_field(1, v.instance_id),
            record::string_field(2, v.connectivity_lifetime_id),
        ]
    }

    open spec fn tags() -> Seq<u32> {
        seq![1u32, 2u32]
    }

    open spec fn of_wire(fs: Seq<WireField>, room: nat) -> Option<Self::V> {
        let instance_id = record::string(record::values(fs, 1));
        let connectivity_lifetime_id = record::string(record::values(fs, 2));
        if instance_id is Some && connectivity_lifetime_id is Some {
            Some(
                PhoneInfoView {
                    instance_id: instance_id->Some_0,
                    connectivity_lifetime_id: connectivity_lifetime_id->Some_0,
                },
            )
        } else {
            None
        }
    }

    proof fn lemma_parts(v: Self::V, room: nat) {
        let parts = Self::parts(v);
        let tags = Self::tags();
        message::lemma_compact(parts);
        assert(message::well_parted(parts, tags)) by {
            assert(message::part_of(parts[0], 1));
            assert(message::part_of(parts[1], 2));
        }
        assert forall|fs: Seq<WireField>| #[trigger]
            message::holds_parts(fs, parts, tags) implies Self::of_wire(fs, room) == Some(v) by {
            assert(record::string(record::values(fs, 1)) == Some(v.instance_id)) by {
                record::lemma_string_read_back(1, v.instance_id);
                assert(record::values(fs, tags[0]) == record::values(parts[0], 1));
            }
            assert(record::string(record::values(fs, 2)) == Some(v.connectivity_lifetime_id)) by {
                record::lemma_string_read_back(2, v.connectivity_lifetime_id);
                assert(record::values(fs, tags[1]) == record::values(parts[1], 2));
            }
        }
    }
}

impl Message for PhoneInfo {
    fn put(&self, out: &mut Vec<u8>) {
        let ghost before = out@;
        let ghost parts = Self::parts(self@);
        proof {
            message::lemma_written_first(parts, before);
        }
        let ghost now = out@;
        record::put_string(out, 1, self.instance_id.as_str());
        proof {
            message::lemma_written_next(parts, 0, before, now, out@);
        }
        let ghost now = out@;
        record::put_string(out, 2, self.connectivity_lifetime_id.as_str());
        proof {
            message::lemma_written_next(parts, 1, before, now, out@);
        }
        proof {
            message::lemma_written_last(parts);
        }
    }

    fn of_fields(fs: &Vec<Field>, room: u32) -> (r: Option<Self>) {
        let instance_id: String = match record::read_string(fs, 1) {
            Some(found) => found,
            None => {
                return None;
            },
        };
        let connectivity_lifetime_id: String = match record::read_string(fs, 2) {
            Some(found) => found,
            None => {
                return None;
            },
        };
        Some(PhoneInfo { instance_id, connectivity_lifetime_id })
    }
}

/// Asks a head unit which channels it offers.
#[derive(Debug)]
pub struct ServiceDiscoveryRequest {
    pub small_icon: Vec<u8>,
    pub medium_icon: Vec<u8>,
    pub large_icon: Vec<u8>,
    pub label_text: String,
    pub device_name: String,
    pub phone_info: Option<PhoneInfo>,
}

/// What a [`ServiceDiscoveryRequest`] says.
pub struct ServiceDiscoveryRequestView {
    pub small_icon: Seq<u8>,
    pub medium_icon: Seq<u8>,
    pub large_icon: Seq<u8>,
    pub label_text: Seq<char>,
    pub device_name: Seq<char>,
    pub phone_info: Option<PhoneInfoView>,
}

impl View for ServiceDiscoveryRequest {
    type V = ServiceDiscoveryRequestView;

    open spec fn view(&self) -> ServiceDiscoveryRequestView {
        ServiceDiscoveryRequestView {
            small_icon: self.small_icon@,
            medium_icon: self.medium_icon@,
            large_icon: self.large_icon@,
            label_text: self.label_text@,
            device_name: self.device_name@,
            phone_info: message::inside::<PhoneInfo>(self.phone_info),
        }
    }
}

impl Schema for ServiceDiscoveryRequest {
    open spec fn parts(v: Self::V) -> Seq<Seq<WireField>> {
        seq![
            record::blob_field(1, v.small_icon),
            record::blob_field(2, v.medium_icon),
            record::blob_field(3, v.large_icon),
            record::string_field(4, v.label_text),
            record::string_field(5, v.device_name),
            record::optional_field(6, message::of_optional::<PhoneInfo>(v.phone_info)),
        ]
    }

    open spec fn tags() -> Seq<u32> {
        seq![1u32, 2u32, 3u32, 4u32, 5u32, 6u32]
    }

    open spec fn of_wire(fs: Seq<WireField>, room: nat) -> Option<Self::V> {
        let small_icon = record::blob(record::values(fs, 1));
        let medium_icon = record::blob(record::values(fs, 2));
        let large_icon = record::blob(record::values(fs, 3));
        let label_text = record::string(record::values(fs, 4));
        let device_name = record::string(record::values(fs, 5));
        let phone_info = message::optional::<PhoneInfo>(record::values(fs, 6), room);
        if small_icon is Some && medium_icon is Some && large_icon is Some && label_text is Some
            && device_name is Some && phone_info is Some
        {
            Some(
                ServiceDiscoveryRequestView {
                    small_icon: small_icon->Some_0,
                    medium_icon: medium_icon->Some_0,
                    large_icon: large_icon->Some_0,
                    label_text: label_text->Some_0,
                    device_name: device_name->Some_0,
                    phone_info: phone_info->Some_0,
                },
            )
        } else {
            None
        }
    }

    proof fn lemma_parts(v: Self::V, room: nat) {
        let parts = Self::parts(v);
        let tags = Self::tags();
        message::lemma_compact(parts);
        assert(message::well_parted(parts, tags)) by {
            assert(message::part_of(parts[0], 1));
            assert(message::part_of(parts[1], 2));
            assert(message::part_of(parts[2], 3));
            assert(message::part_of(parts[3], 4));
            assert(message::part_of(parts[4], 5));
            assert(message::part_of(parts[5], 6));
        }
        assert forall|fs: Seq<WireField>| #[trigger]
            message::holds_parts(fs, parts, tags) implies Self::of_wire(fs, room) == Some(v) by {
            assert(record::blob(record::values(fs, 1)) == Some(v.small_icon)) by {
                record::lemma_blob_read_back(1, v.small_icon);
                assert(record::values(fs, tags[0]) == record::values(parts[0], 1));
            }
            assert(record::blob(record::values(fs, 2)) == Some(v.medium_icon)) by {
                record::lemma_blob_read_back(2, v.medium_icon);
                assert(record::values(fs, tags[1]) == record::values(parts[1], 2));
            }
            assert(record::blob(record::values(fs, 3)) == Some(v.large_icon)) by {
                record::lemma_blob_read_back(3, v.large_icon);
                assert(record::values(fs, tags[2]) == record::values(parts[2], 3));
            }
            assert(record::string(record::values(fs, 4)) == Some(v.label_text)) by {
                record::lemma_string_read_back(4, v.label_text);
                assert(record::values(fs, tags[3]) == record::values(parts[3], 4));
            }
            assert(record::string(record::values(fs, 5)) == Some(v.device_name)) by {
                record::lemma_string_read_back(5, v.device_name);
                assert(record::values(fs, tags[4]) == record::values(parts[4], 5));
            }
            assert(message::optional::<PhoneInfo>(record::values(fs, 6), room) == Some(v.phone_info)) by {
                if v.phone_info is Some {
                    assert(message::small(parts[5][0]));
                }
                message::lemma_optional_back::<PhoneInfo>(6, v.phone_info, room);
                assert(record::values(fs, tags[5]) == record::values(parts[5], 6));
            }
        }
    }
}

impl Message for ServiceDiscoveryRequest {
    fn put(&self, out: &mut Vec<u8>) {
        let ghost before = out@;
        let ghost parts = Self::parts(self@);
        proof {
            message::lemma_written_first(parts, before);
        }
        let ghost now = out@;
        record::put_blob(out, 1, self.small_icon.as_slice());
        proof {
            message::lemma_written_next(parts, 0, before, now, out@);
        }
        let ghost now = out@;
        record::put_blob(out, 2, self.medium_icon.as_slice());
        proof {
            message::lemma_written_next(parts, 1, before, now, out@);
        }
        let ghost now = out@;
        record::put_blob(out, 3, self.large_icon.as_slice());
        proof {
            message::lemma_written_next(parts, 2, before, now, out@);
        }
        let ghost now = out@;
        record::put_string(out, 4, self.label_text.as_str());
        proof {
            message::lemma_written_next(parts, 3, before, now, out@);
        }
        let ghost now = out@;
        record::put_string(out, 5, self.device_name.as_str());
        proof {
            message::lemma_written_next(parts, 4, before, now, out@);
        }
        let ghost now = out@;
        message::put_optional::<PhoneInfo>(out, 6, &self.phone_info);
        proof {
            message::lemma_written_next(parts, 5, before, now, out@);
        }
        proof {
            message::lemma_written_last(parts);
        }
    }

    fn of_fields(fs: &Vec<Field>, room: u32) -> (r: Option<Self>) {
        let small_icon: Vec<u8> = match record::read_blob(fs, 1) {
            Some(found) => found,
            None => {
                return None;
            },
        };
        let medium_icon: Vec<u8> = match record::read_blob(fs, 2) {
            Some(found) => found,
            None => {
                return None;
            },
        };
        let large_icon: Vec<u8> = match record::read_blob(fs, 3) {
            Some(found) => found,
            None => {
                return None;
            },
        };
        let label_text: String = match record::read_string(fs, 4) {
            Some(found) => found,
            None => {
                return None;
            },
        };
        let device_name: String = match record::read_string(fs, 5) {
            Some(found) => found,
            None => {
                return None;
            },
        };
        let phone_info: Option<PhoneInfo> = match message::read_optional::<PhoneInfo>(fs, 6, room) {
            Some(found) => found,
            None => {
                return None;
            },
        };
        Some(
            ServiceDiscoveryRequest {
                small_icon,
                medium_icon,
                large_icon,
                label_text,
                device_name,
                phone_info,
            },
        )
    }
}

/// Asks for a sign of life.
#[derive(Debug, Clone, Copy, PartialEq, Eq, Structural)]
pub struct PingRequest {
    pub timestamp: i64,
}

impl View for PingRequest {
    type V = Self;

    open spec fn view(&self) -> Self {
        *self
    }
}

impl Schema for PingRequest {
    open spec fn parts(v: Self::V) -> Seq<Seq<WireField>> {
        seq![
            record::scalar_field(1, v.timestamp as u64),
        ]
    }

    open spec fn tags() -> Seq<u32> {
        seq![1u32]
    }

    open spec fn of_wire(fs: Seq<WireField>, room: nat) -> Option<Self::V> {
        let timestamp = message::int64(record::values(fs, 1));
        if timestamp is Some {
            Some(PingRequest { timestamp: timestamp->Some_0 })
        } else {
            None
        }
    }

    proof fn lemma_parts(v: Self::V, room: nat) {
        let parts = Self::parts(v);
        let tags = Self::tags();
        message::lemma_compact(parts);
        assert(message::well_parted(parts, tags)) by {
            assert(message::part_of(parts[0], 1));
        }
        assert forall|fs: Seq<WireField>| #[trigger]
            message::holds_parts(fs, parts, tags) implies Self::of_wire(fs, room) == Some(v) by {
            assert(message::int64(record::values(fs, 1)) == Some(v.timestamp)) by {
                message::lemma_int64_read_back(1, v.timestamp);
                assert(record::values(fs, tags[0]) == record::values(parts[0], 1));
            }
        }
    }
}

impl Message for PingRequest {
    fn put(&self, out: &mut Vec<u8>) {
        let ghost before = out@;
        let ghost parts = Self::parts(self@);
        proof {
            message::lemma_written_first(parts, before);
        }
        let ghost now = out@;
        record::put_scalar(
            out,
            1,
            #[verifier::truncate]
            (self.timestamp as u64),
        );
        proof {
            message::lemma_written_next(parts, 0, before, now, out@);
        }
        proof {
            message::lemma_written_last(parts);
        }
    }

    fn of_fields(fs: &Vec<Field>, room: u32) -> (r: Option<Self>) {
        let timestamp: i64 = match message::read_int64(fs, 1) {
            Some(found) => found,
            None => {
                return None;
            },
        };
        Some(PingRequest { timestamp })
    }
}

/// A sign of life.
#[derive(Debug, Clone, Copy, PartialEq, Eq, Structural)]
pub struct PingResponse {
    pub timestamp: i64,
}

impl View for PingResponse {
    type V = Self;

    open spec fn view(&self) -> Self {
        *self
    }
}

impl Schema for PingResponse {
    open spec fn parts(v: Self::V) -> Seq<Seq<WireField>> {
        seq![
            record::scalar_field(1, v.timestamp as u64),
        ]
    }

    open spec fn tags() -> Seq<u32> {
        seq![1u32]
    }

    open spec fn of_wire(fs: Seq<WireField>, room: nat) -> Option<Self::V> {
        let timestamp = message::int64(record::values(fs, 1));
        if timestamp is Some {
            Some(PingResponse { timestamp: timestamp->Some_0 })
        } else {
            None
        }
    }

    proof fn lemma_parts(v: Self::V, room: nat) {
        let parts = Self::parts(v);
        let tags = Self::tags();
        message::lemma_compact(parts);
        assert(message::well_parted(parts, tags)) by {
            assert(message::part_of(parts[0], 1));
        }
        assert forall|fs: Seq<WireField>| #[trigger]
            message::holds_parts(fs, parts, tags) implies Self::of_wire(fs, room) == Some(v) by {
            assert(message::int64(record::values(fs, 1)) == Some(v.timestamp)) by {
                message::lemma_int64_read_back(1, v.timestamp);
                assert(record::values(fs, tags[0]) == record::values(parts[0], 1));
            }
        }
    }
}

impl Message for PingResponse {
    fn put(&self, out: &mut Vec<u8>) {
        let ghost before = out@;
        let ghost parts = Self::parts(self@);
        proof {
            message::lemma_written_first(parts, before);
        }
        let ghost now = out@;
        record::put_scalar(
            out,
            1,
            #[verifier::truncate]
            (self.timestamp as u64),
        );
        proof {
            message::lemma_written_next(parts, 0, before, now, out@);
        }
        proof {
            message::lemma_written_last(parts);
        }
    }

    fn of_fields(fs: &Vec<Field>, room: u32) -> (r: Option<Self>) {
        let timestamp: i64 = match message::read_int64(fs, 1) {
            Some(found) => found,
            None => {
                return None;
            },
        };
        Some(PingResponse { timestamp })
    }
}

/// Asks for the loudspeakers.
#[derive(Debug, Clone, Copy, PartialEq, Eq, Structural)]
pub struct AudioFocusRequest {
    pub audio_focus_type: i32,
}

impl View for AudioFocusRequest {
    type V = Self;

    open spec fn view(&self) -> Self {
        *self
    }
}

impl Schema for AudioFocusRequest {
    open spec fn parts(v: Self::V) -> Seq<Seq<WireField>> {
        seq![
            record::scalar_field(1, v.audio_focus_type as u64),
        ]
    }

    open spec fn tags() -> Seq<u32> {
        seq![1u32]
    }

    open spec fn of_wire(fs: Seq<WireField>, room: nat) -> Option<Self::V> {
        let audio_focus_type = message::int32(record::values(fs, 1));
        if audio_focus_type is Some {
            Some(AudioFocusRequest { audio_focus_type: audio_focus_type->Some_0 })
        } else {
            None
        }
    }

    proof fn lemma_parts(v: Self::V, room: nat) {
        let parts = Self::parts(v);
        let tags = Self::tags();
        message::lemma_compact(parts);
        assert(message::well_parted(parts, tags)) by {
            assert(message::part_of(parts[0], 1));
        }
        assert forall|fs: Seq<WireField>| #[trigger]
            message::holds_parts(fs, parts, tags) implies Self::of_wire(fs, room) == Some(v) by {
            assert(message::int32(record::values(fs, 1)) == Some(v.audio_focus_type)) by {
                message::lemma_int32_read_back(1, v.audio_focus_type);
                assert(record::values(fs, tags[0]) == record::values(parts[0], 1));
            }
        }
    }
}

impl Message for AudioFocusRequest {
    fn put(&self, out: &mut Vec<u8>) {
        let ghost before = out@;
        let ghost parts = Self::parts(self@);
        proof {
            message::lemma_written_first(parts, before);
        }
        let ghost now = out@;
        record::put_scalar(
            out,
            1,
            #[verifier::truncate]
            (self.audio_focus_type as u64),
        );
        proof {
            message::lemma_written_next(parts, 0, before, now, out@);
        }
        proof {
            message::lemma_written_last(parts);
        }
    }

    fn of_fields(fs: &Vec<Field>, room: u32) -> (r: Option<Self>) {
        let audio_focus_type: i32 = match message::read_int32(fs, 1) {
            Some(found) => found,
            None => {
                return None;
            },
        };
        Some(AudioFocusRequest { audio_focus_type })
    }
}

/// Says who has the loudspeakers.
#[derive(Debug, Clone, Copy, PartialEq, Eq, Structural)]
pub struct AudioFocusResponse {
    pub audio_focus_state: i32,
}

impl View for AudioFocusResponse {
    type V = Self;

    open spec fn view(&self) -> Self {
        *self
    }
}

impl Schema for AudioFocusResponse {
    open spec fn parts(v: Self::V) -> Seq<Seq<WireField>> {
        seq![
            record::scalar_field(1, v.audio_focus_state as u64),
        ]
    }

    open spec fn tags() -> Seq<u32> {
        seq![1u32]
    }

    open spec fn of_wire(fs: Seq<WireField>, room: nat) -> Option<Self::V> {
        let audio_focus_state = message::int32(record::values(fs, 1));
        if audio_focus_state is Some {
            Some(AudioFocusResponse { audio_focus_state: audio_focus_state->Some_0 })
        } else {
            None
        }
    }

    proof fn lemma_parts(v: Self::V, room: nat) {
        let parts = Self::parts(v);
        let tags = Self::tags();
        message::lemma_compact(parts);
        assert(message::well_parted(parts, tags)) by {
            assert(message::part_of(parts[0], 1));
        }
        assert forall|fs: Seq<WireField>| #[trigger]
            message::holds_parts(fs, parts, tags) implies Self::of_wire(fs, room) == Some(v) by {
            assert(message::int32(record::values(fs, 1)) == Some(v.audio_focus_state)) by {
                message::lemma_int32_read_back(1, v.audio_focus_state);
                assert(record::values(fs, tags[0]) == record::values(parts[0], 1));
            }
        }
    }
}

impl Message for AudioFocusResponse {
    fn put(&self, out: &mut Vec<u8>) {
        let ghost before = out@;
        let ghost parts = Self::parts(self@);
        proof {
            message::lemma_written_first(parts, before);
        }
        let ghost now = out@;
        record::put_scalar(
            out,
            1,
            #[verifier::truncate]
            (self.audio_focus_state as u64),
        );
        proof {
            message::lemma_written_next(parts, 0, before, now, out@);
        }
        proof {
            message::lemma_written_last(parts);
        }
    }

    fn of_fields(fs: &Vec<Field>, room: u32) -> (r: Option<Self>) {
        let audio_focus_state: i32 = match message::read_int32(fs, 1) {
            Some(found) => found,
            None => {
                return None;
            },
        };
        Some(AudioFocusResponse { audio_focus_state })
    }
}

/// Asks who gives directions.
#[derive(Debug, Clone, Copy, PartialEq, Eq, Structural)]
pub struct NavigationFocusRequest {
    pub focus_type: u32,
}

impl View for NavigationFocusRequest {
    type V = Self;

    open spec fn view(&self) -> Self {
        *self
    }
}

impl Schema for NavigationFocusRequest {
    open spec fn parts(v: Self::V) -> Seq<Seq<WireField>> {
        seq![
            record::scalar_field(1, v.focus_type as u64),
        ]
    }

    open spec fn tags() -> Seq<u32> {
        seq![1u32]
    }

    open spec fn of_wire(fs: Seq<WireField>, room: nat) -> Option<Self::V> {
        let focus_type = message::uint32(record::values(fs, 1));
        if focus_type is Some {
            Some(NavigationFocusRequest { focus_type: focus_type->Some_0 })
        } else {
            None
        }
    }

    proof fn lemma_parts(v: Self::V, room: nat) {
        let parts = Self::parts(v);
        let tags = Self::tags();
        message::lemma_compact(parts);
        assert(message::well_parted(parts, tags)) by {
            assert(message::part_of(parts[0], 1));
        }
        assert forall|fs: Seq<WireField>| #[trigger]
            message::holds_parts(fs, parts, tags) implies Self::of_wire(fs, room) == Some(v) by {
            assert(message::uint32(record::values(fs, 1)) == Some(v.focus_type)) by {
                message::lemma_uint32_read_back(1, v.focus_type);
                assert(record::values(fs, tags[0]) == record::values(parts[0], 1));
            }
        }
    }
}

impl Message for NavigationFocusRequest {
    fn put(&self, out: &mut Vec<u8>) {
        let ghost before = out@;
        let ghost parts = Self::parts(self@);
        proof {
            message::lemma_written_first(parts, before);
        }
        let ghost now = out@;
        record::put_scalar(out, 1, self.focus_type as u64);
        proof {
            message::lemma_written_next(parts, 0, before, now, out@);
        }
        proof {
            message::lemma_written_last(parts);
        }
    }

    fn of_fields(fs: &Vec<Field>, room: u32) -> (r: Option<Self>) {
        let focus_type: u32 = match message::read_uint32(fs, 1) {
            Some(found) => found,
            None => {
                return None;
            },
        };
        Some(NavigationFocusRequest { focus_type })
    }
}

/// Says who gives directions.
#[derive(Debug, Clone, Copy, PartialEq, Eq, Structural)]
pub struct NavigationFocusResponse {
    pub focus_type: u32,
}

impl View for NavigationFocusResponse {
    type V = Self;

    open spec fn view(&self) -> Self {
        *self
    }
}

impl Schema for NavigationFocusResponse {
    open spec fn parts(v: Self::V) -> Seq<Seq<WireField>> {
        seq![
            record::scalar_field(1, v.focus_type as u64),
        ]
    }

    open spec fn tags() -> Seq<u32> {
        seq![1u32]
    }

    open spec fn of_wire(fs: Seq<WireField>, room: nat) -> Option<Self::V> {
        let focus_type = message::uint32(record::values(fs, 1));
        if focus_type is Some {
            Some(NavigationFocusResponse { focus_type: focus_type->Some_0 })
        } else {
            None
        }
    }

    proof fn lemma_parts(v: Self::V, room: nat) {
        let parts = Self::parts(v);
        let tags = Self::tags();
        message::lemma_compact(parts);
        assert(message::well_parted(parts, tags)) by {
            assert(message::part_of(parts[0], 1));
        }
        assert forall|fs: Seq<WireField>| #[trigger]
            message::holds_parts(fs, parts, tags) implies Self::of_wire(fs, room) == Some(v) by {
            assert(message::uint32(record::values(fs, 1)) == Some(v.focus_type)) by {
                message::lemma_uint32_read_back(1, v.focus_type);
                assert(record::values(fs, tags[0]) == record::values(parts[0], 1));
            }
        }
    }
}

impl Message for NavigationFocusResponse {
    fn put(&self, out: &mut Vec<u8>) {
        let ghost before = out@;
        let ghost parts = Self::parts(self@);
        proof {
            message::lemma_written_first(parts, before);
        }
        let ghost now = out@;
        record::put_scalar(out, 1, self.focus_type as u64);
        proof {
            message::lemma_written_next(parts, 0, before, now, out@);
        }
        proof {
            message::lemma_written_last(parts);
        }
    }

    fn of_fields(fs: &Vec<Field>, room: u32) -> (r: Option<Self>) {
        let focus_type: u32 = match message::read_uint32(fs, 1) {
            Some(found) => found,
            None => {
                return None;
            },
        };
        Some(NavigationFocusResponse { focus_type })
    }
}

/// Asks to open a channel.
#[derive(Debug, Clone, Copy, PartialEq, Eq, Structural)]
pub struct ChannelOpenRequest {
    pub priority: i32,
    pub channel_id: i32,
}

impl View for ChannelOpenRequest {
    type V = Self;

    open spec fn view(&self) -> Self {
        *self
    }
}

impl Schema for ChannelOpenRequest {
    open spec fn parts(v: Self::V) -> Seq<Seq<WireField>> {
        seq![
            record::scalar_field(1, v.priority as u64),
            record::scalar_field(2, v.channel_id as u64),
        ]
    }

    open spec fn tags() -> Seq<u32> {
        seq![1u32, 2u32]
    }

    open spec fn of_wire(fs: Seq<WireField>, room: nat) -> Option<Self::V> {
        let priority = message::int32(record::values(fs, 1));
        let channel_id = message::int32(record::values(fs, 2));
        if priority is Some && channel_id is Some {
            Some(ChannelOpenRequest { priority: priority->Some_0, channel_id: channel_id->Some_0 })
        } else {
            None
        }
    }

    proof fn lemma_parts(v: Self::V, room: nat) {
        let parts = Self::parts(v);
        let tags = Self::tags();
        message::lemma_compact(parts);
        assert(message::well_parted(parts, tags)) by {
            assert(message::part_of(parts[0], 1));
            assert(message::part_of(parts[1], 2));
        }
        assert forall|fs: Seq<WireField>| #[trigger]
            message::holds_parts(fs, parts, tags) implies Self::of_wire(fs, room) == Some(v) by {
            assert(message::int32(record::values(fs, 1)) == Some(v.priority)) by {
                message::lemma_int32_read_back(1, v.priority);
                assert(record::values(fs, tags[0]) == record::values(parts[0], 1));
            }
            assert(message::int32(record::values(fs, 2)) == Some(v.channel_id)) by {
                message::lemma_int32_read_back(2, v.channel_id);
                assert(record::values(fs, tags[1]) == record::values(parts[1], 2));
            }
        }
    }
}

impl Message for ChannelOpenRequest {
    fn put(&self, out: &mut Vec<u8>) {
        let ghost before = out@;
        let ghost parts = Self::parts(self@);
        proof {
            message::lemma_written_first(parts, before);
        }
        let ghost now = out@;
        record::put_scalar(
            out,
            1,
            #[verifier::truncate]
            (self.priority as u64),
        );
        proof {
            message::lemma_written_next(parts, 0, before, now, out@);
        }
        let ghost now = out@;
        record::put_scalar(
            out,
            2,
            #[verifier::truncate]
            (self.channel_id as u64),
        );
        proof {
            message::lemma_written_next(parts, 1, before, now, out@);
        }
        proof {
            message::lemma_written_last(parts);
        }
    }

    fn of_fields(fs: &Vec<Field>, room: u32) -> (r: Option<Self>) {
        let priority: i32 = match message::read_int32(fs, 1) {
            Some(found) => found,
            None => {
                return None;
            },
        };
        let channel_id: i32 = match message::read_int32(fs, 2) {
            Some(found) => found,
            None => {
                return None;
            },
        };
        Some(ChannelOpenRequest { priority, channel_id })
    }
}

/// Says whether a channel is open.
#[derive(Debug, Clone, Copy, PartialEq, Eq, Structural)]
pub struct ChannelOpenResponse {
    pub status: i32,
}

impl View for ChannelOpenResponse {
    type V = Self;

    open spec fn view(&self) -> Self {
        *self
    }
}

impl Schema for ChannelOpenResponse {
    open spec fn parts(v: Self::V) -> Seq<Seq<WireField>> {
        seq![
            record::scalar_field(1, v.status as u64),
        ]
    }

    open spec fn tags() -> Seq<u32> {
        seq![1u32]
    }

    open spec fn of_wire(fs: Seq<WireField>, room: nat) -> Option<Self::V> {
        let status = message::int32(record::values(fs, 1));
        if status is Some {
            Some(ChannelOpenResponse { status: status->Some_0 })
        } else {
            None
        }
    }

    proof fn lemma_parts(v: Self::V, room: nat) {
        let parts = Self::parts(v);
        let tags = Self::tags();
        message::lemma_compact(parts);
        assert(message::well_parted(parts, tags)) by {
            assert(message::part_of(parts[0], 1));
        }
        assert forall|fs: Seq<WireField>| #[trigger]
            message::holds_parts(fs, parts, tags) implies Self::of_wire(fs, room) == Some(v) by {
            assert(message::int32(record::values(fs, 1)) == Some(v.status)) by {
                message::lemma_int32_read_back(1, v.status);
                assert(record::values(fs, tags[0]) == record::values(parts[0], 1));
            }
        }
    }
}

impl Message for ChannelOpenResponse {
    fn put(&self, out: &mut Vec<u8>) {
        let ghost before = out@;
        let ghost parts = Self::parts(self@);
        proof {
            message::lemma_written_first(parts, before);
        }
        let ghost now = out@;
        record::put_scalar(
            out,
            1,
            #[verifier::truncate]
            (self.status as u64),
        );
        proof {
            message::lemma_written_next(parts, 0, before, now, out@);
        }
        proof {
            message::lemma_written_last(parts);
        }
    }

    fn of_fields(fs: &Vec<Field>, room: u32) -> (r: Option<Self>) {
        let status: i32 = match message::read_int32(fs, 1) {
            Some(found) => found,
            None => {
                return None;
            },
        };
        Some(ChannelOpenResponse { status })
    }
}

/// Says whether the certificate was accepted.
#[derive(Debug, Clone, Copy, PartialEq, Eq, Structural)]
pub struct AuthCompleteIndication {
    pub status: i32,
}

impl View for AuthCompleteIndication {
    type V = Self;

    open spec fn view(&self) -> Self {
        *self
    }
}

impl Schema for AuthCompleteIndication {
    open spec fn parts(v: Self::V) -> Seq<Seq<WireField>> {
        seq![
            record::scalar_field(1, v.status as u64),
        ]
    }

    open spec fn tags() -> Seq<u32> {
        seq![1u32]
    }

    open spec fn of_wire(fs: Seq<WireField>, room: nat) -> Option<Self::V> {
        let status = message::int32(record::values(fs, 1));
        if status is Some {
            Some(AuthCompleteIndication { status: status->Some_0 })
        } else {
            None
        }
    }

    proof fn lemma_parts(v: Self::V, room: nat) {
        let parts = Self::parts(v);
        let tags = Self::tags();
        message::lemma_compact(parts);
        assert(message::well_parted(parts, tags)) by {
            assert(message::part_of(parts[0], 1));
        }
        assert forall|fs: Seq<WireField>| #[trigger]
            message::holds_parts(fs, parts, tags) implies Self::of_wire(fs, room) == Some(v) by {
            assert(message::int32(record::values(fs, 1)) == Some(v.status)) by {
                message::lemma_int32_read_back(1, v.status);
                assert(record::values(fs, tags[0]) == record::values(parts[0], 1));
            }
        }
    }
}

impl Message for AuthCompleteIndication {
    fn put(&self, out: &mut Vec<u8>) {
        let ghost before = out@;
        let ghost parts = Self::parts(self@);
        proof {
            message::lemma_written_first(parts, before);
        }
        let ghost now = out@;
        record::put_scalar(
            out,
            1,
            #[verifier::truncate]
            (self.status as u64),
        );
        proof {
            message::lemma_written_next(parts, 0, before, now, out@);
        }
        proof {
            message::lemma_written_last(parts);
        }
    }

    fn of_fields(fs: &Vec<Field>, room: u32) -> (r: Option<Self>) {
        let status: i32 = match message::read_int32(fs, 1) {
            Some(found) => found,
            None => {
                return None;
            },
        };
        Some(AuthCompleteIndication { status })
    }
}

/// Confirms that the session ends.
#[derive(Debug, Clone, Copy, PartialEq, Eq, Structural)]
pub struct ShutdownResponse {}

impl View for ShutdownResponse {
    type V = Self;

    open spec fn view(&self) -> Self {
        *self
    }
}

impl Schema for ShutdownResponse {
    open spec fn parts(v: Self::V) -> Seq<Seq<WireField>> {
        Seq::empty()
    }

    open spec fn tags() -> Seq<u32> {
        Seq::empty()
    }

    open spec fn of_wire(fs: Seq<WireField>, room: nat) -> Option<Self::V> {
        Some(ShutdownResponse {})
    }

    proof fn lemma_parts(v: Self::V, room: nat) {
    }
}

impl Message for ShutdownResponse {
    fn put(&self, out: &mut Vec<u8>) {
        let ghost before = out@;
        let ghost parts = Self::parts(self@);
        proof {
            message::lemma_written_first(parts, before);
        }
        proof {
            message::lemma_written_last(parts);
        }
    }

    fn of_fields(fs: &Vec<Field>, room: u32) -> (r: Option<Self>) {
        Some(ShutdownResponse {})
    }
}

/// Asks to set a media channel up.
#[derive(Debug, Clone, Copy, PartialEq, Eq, Structural)]
pub struct AvChannelSetupRequest {
    pub config_index: u32,
}

impl View for AvChannelSetupRequest {
    type V = Self;

    open spec fn view(&self) -> Self {
        *self
    }
}

impl Schema for AvChannelSetupRequest {
    open spec fn parts(v: Self::V) -> Seq<Seq<WireField>> {
        seq![
            record::scalar_field(1, v.config_index as u64),
        ]
    }

    open spec fn tags() -> Seq<u32> {
        seq![1u32]
    }

    open spec fn of_wire(fs: Seq<WireField>, room: nat) -> Option<Self::V> {
        let config_index = message::uint32(record::values(fs, 1));
        if config_index is Some {
            Some(AvChannelSetupRequest { config_index: config_index->Some_0 })
        } else {
            None
        }
    }

    proof fn lemma_parts(v: Self::V, room: nat) {
        let parts = Self::parts(v);
        let tags = Self::tags();
        message::lemma_compact(parts);
        assert(message::well_parted(parts, tags)) by {
            assert(message::part_of(parts[0], 1));
        }
        assert forall|fs: Seq<WireField>| #[trigger]
            message::holds_parts(fs, parts, tags) implies Self::of_wire(fs, room) == Some(v) by {
            assert(message::uint32(record::values(fs, 1)) == Some(v.config_index)) by {
                message::lemma_uint32_read_back(1, v.config_index);
                assert(record::values(fs, tags[0]) == record::values(parts[0], 1));
            }
        }
    }
}

impl Message for AvChannelSetupRequest {
    fn put(&self, out: &mut Vec<u8>) {
        let ghost before = out@;
        let ghost parts = Self::parts(self@);
        proof {
            message::lemma_written_first(parts, before);
        }
        let ghost now = out@;
        record::put_scalar(out, 1, self.config_index as u64);
        proof {
            message::lemma_written_next(parts, 0, before, now, out@);
        }
        proof {
            message::lemma_written_last(parts);
        }
    }

    fn of_fields(fs: &Vec<Field>, room: u32) -> (r: Option<Self>) {
        let config_index: u32 = match message::read_uint32(fs, 1) {
            Some(found) => found,
            None => {
                return None;
            },
        };
        Some(AvChannelSetupRequest { config_index })
    }
}

/// Says how a media channel is set up.
#[derive(Debug)]
pub struct AvChannelSetupResponse {
    pub media_status: i32,
    pub max_unacked: u32,
    pub configs: Vec<u32>,
}

/// What a [`AvChannelSetupResponse`] says.
pub struct AvChannelSetupResponseView {
    pub media_status: i32,
    pub max_unacked: u32,
    pub configs: Seq<u32>,
}

impl View for AvChannelSetupResponse {
    type V = AvChannelSetupResponseView;

    open spec fn view(&self) -> AvChannelSetupResponseView {
        AvChannelSetupResponseView {
            media_status: self.media_status,
            max_unacked: self.max_unacked,
            configs: self.configs@,
        }
    }
}

impl Schema for AvChannelSetupResponse {
    open spec fn parts(v: Self::V) -> Seq<Seq<WireField>> {
        seq![
            record::scalar_field(1, v.media_status as u64),
            record::scalar_field(2, v.max_unacked as u64),
            record::packed_field(3, message::of_uint32s(v.configs)),
        ]
    }

    open spec fn tags() -> Seq<u32> {
        seq![1u32, 2u32, 3u32]
    }

    open spec fn of_wire(fs: Seq<WireField>, room: nat) -> Option<Self::V> {
        let media_status = message::int32(record::values(fs, 1));
        let max_unacked = message::uint32(record::values(fs, 2));
        let configs = message::uint32s(record::values(fs, 3));
        if media_status is Some && max_unacked is Some && configs is Some {
            Some(
                AvChannelSetupResponseView {
                    media_status: media_status->Some_0,
                    max_unacked: max_unacked->Some_0,
                    configs: configs->Some_0,
                },
            )
        } else {
            None
        }
    }

    proof fn lemma_parts(v: Self::V, room: nat) {
        let parts = Self::parts(v);
        let tags = Self::tags();
        message::lemma_compact(parts);
        assert(message::well_parted(parts, tags)) by {
            assert(message::part_of(parts[0], 1));
            assert(message::part_of(parts[1], 2));
            assert(message::part_of(parts[2], 3));
        }
        assert forall|fs: Seq<WireField>| #[trigger]
            message::holds_parts(fs, parts, tags) implies Self::of_wire(fs, room) == Some(v) by {
            assert(message::int32(record::values(fs, 1)) == Some(v.media_status)) by {
                message::lemma_int32_read_back(1, v.media_status);
                assert(record::values(fs, tags[0]) == record::values(parts[0], 1));
            }
            assert(message::uint32(record::values(fs, 2)) == Some(v.max_unacked)) by {
                message::lemma_uint32_read_back(2, v.max_unacked);
                assert(record::values(fs, tags[1]) == record::values(parts[1], 2));
            }
            assert(message::uint32s(record::values(fs, 3)) == Some(v.configs)) by {
                message::lemma_uint32s_back(3, v.configs);
                assert(record::values(fs, tags[2]) == record::values(parts[2], 3));
            }
        }
    }
}

impl Message for AvChannelSetupResponse {
    fn put(&self, out: &mut Vec<u8>) {
        let ghost before = out@;
        let ghost parts = Self::parts(self@);
        proof {
            message::lemma_written_first(parts, before);
        }
        let ghost now = out@;
        record::put_scalar(
            out,
            1,
            #[verifier::truncate]
            (self.media_status as u64),
        );
        proof {
            message::lemma_written_next(parts, 0, before, now, out@);
        }
        let ghost now = out@;
        record::put_scalar(out, 2, self.max_unacked as u64);
        proof {
            message::lemma_written_next(parts, 1, before, now, out@);
        }
        let ghost now = out@;
        message::put_uint32s(out, 3, &self.configs);
        proof {
            message::lemma_written_next(parts, 2, before, now, out@);
        }
        proof {
            message::lemma_written_last(parts);
        }
    }

    fn of_fields(fs: &Vec<Field>, room: u32) -> (r: Option<Self>) {
        let media_status: i32 = match message::read_int32(fs, 1) {
            Some(found) => found,
            None => {
                return None;
            },
        };
        let max_unacked: u32 = match message::read_uint32(fs, 2) {
            Some(found) => found,
            None => {
                return None;
            },
        };
        let configs: Vec<u32> = match message::read_uint32s(fs, 3) {
            Some(found) => found,
            None => {
                return None;
            },
        };
        Some(AvChannelSetupResponse { media_status, max_unacked, configs })
    }
}

/// Says that a stream starts.
#[derive(Debug, Clone, Copy, PartialEq, Eq, Structural)]
pub struct AvChannelStartIndication {
    pub session: i32,
    pub config: u32,
}

impl View for AvChannelStartIndication {
    type V = Self;

    open spec fn view(&self) -> Self {
        *self
    }
}

impl Schema for AvChannelStartIndication {
    open spec fn parts(v: Self::V) -> Seq<Seq<WireField>> {
        seq![
            record::scalar_field(1, v.session as u64),
            record::scalar_field(2, v.config as u64),
        ]
    }

    open spec fn tags() -> Seq<u32> {
        seq![1u32, 2u32]
    }

    open spec fn of_wire(fs: Seq<WireField>, room: nat) -> Option<Self::V> {
        let session = message::int32(record::values(fs, 1));
        let config = message::uint32(record::values(fs, 2));
        if session is Some && config is Some {
            Some(AvChannelStartIndication { session: session->Some_0, config: config->Some_0 })
        } else {
            None
        }
    }

    proof fn lemma_parts(v: Self::V, room: nat) {
        let parts = Self::parts(v);
        let tags = Self::tags();
        message::lemma_compact(parts);
        assert(message::well_parted(parts, tags)) by {
            assert(message::part_of(parts[0], 1));
            assert(message::part_of(parts[1], 2));
        }
        assert forall|fs: Seq<WireField>| #[trigger]
            message::holds_parts(fs, parts, tags) implies Self::of_wire(fs, room) == Some(v) by {
            assert(message::int32(record::values(fs, 1)) == Some(v.session)) by {
                message::lemma_int32_read_back(1, v.session);
                assert(record::values(fs, tags[0]) == record::values(parts[0], 1));
            }
            assert(message::uint32(record::values(fs, 2)) == Some(v.config)) by {
                message::lemma_uint32_read_back(2, v.config);
                assert(record::values(fs, tags[1]) == record::values(parts[1], 2));
            }
        }
    }
}

impl Message for AvChannelStartIndication {
    fn put(&self, out: &mut Vec<u8>) {
        let ghost before = out@;
        let ghost parts = Self::parts(self@);
        proof {
            message::lemma_written_first(parts, before);
        }
        let ghost now = out@;
        record::put_scalar(
            out,
            1,
            #[verifier::truncate]
            (self.session as u64),
        );
        proof {
            message::lemma_written_next(parts, 0, before, now, out@);
        }
        let ghost now = out@;
        record::put_scalar(out, 2, self.config as u64);
        proof {
            message::lemma_written_next(parts, 1, before, now, out@);
        }
        proof {
            message::lemma_written_last(parts);
        }
    }

    fn of_fields(fs: &Vec<Field>, room: u32) -> (r: Option<Self>) {
        let session: i32 = match message::read_int32(fs, 1) {
            Some(found) => found,
            None => {
                return None;
            },
        };
        let config: u32 = match message::read_uint32(fs, 2) {
            Some(found) => found,
            None => {
                return None;
            },
        };
        Some(AvChannelStartIndication { session, config })
    }
}

/// Confirms frames of a stream.
#[derive(Debug, Clone, Copy, PartialEq, Eq, Structural)]
pub struct AvMediaAckIndication {
    pub session: i32,
    pub value: u32,
}

impl View for AvMediaAckIndication {
    type V = Self;

    open spec fn view(&self) -> Self {
        *self
    }
}

impl Schema for AvMediaAckIndication {
    open spec fn parts(v: Self::V) -> Seq<Seq<WireField>> {
        seq![
            record::scalar_field(1, v.session as u64),
            record::scalar_field(2, v.value as u64),
        ]
    }

    open spec fn tags() -> Seq<u32> {
        seq![1u32, 2u32]
    }

    open spec fn of_wire(fs: Seq<WireField>, room: nat) -> Option<Self::V> {
        let session = message::int32(record::values(fs, 1));
        let value = message::uint32(record::values(fs, 2));
        if session is Some && value is Some {
            Some(AvMediaAckIndication { session: session->Some_0, value: value->Some_0 })
        } else {
            None
        }
    }

    proof fn lemma_parts(v: Self::V, room: nat) {
        let parts = Self::parts(v);
        let tags = Self::tags();
        message::lemma_compact(parts);
        assert(message::well_parted(parts, tags)) by {
            assert(message::part_of(parts[0], 1));
            assert(message::part_of(parts[1], 2));
        }
        assert forall|fs: Seq<WireField>| #[trigger]
            message::holds_parts(fs, parts, tags) implies Self::of_wire(fs, room) == Some(v) by {
            assert(message::int32(record::values(fs, 1)) == Some(v.session)) by {
                message::lemma_int32_read_back(1, v.session);
                assert(record::values(fs, tags[0]) == record::values(parts[0], 1));
            }
            assert(message::uint32(record::values(fs, 2)) == Some(v.value)) by {
                message::lemma_uint32_read_back(2, v.value);
                assert(record::values(fs, tags[1]) == record::values(parts[1], 2));
            }
        }
    }
}

impl Message for AvMediaAckIndication {
    fn put(&self, out: &mut Vec<u8>) {
        let ghost before = out@;
        let ghost parts = Self::parts(self@);
        proof {
            message::lemma_written_first(parts, before);
        }
        let ghost now = out@;
        record::put_scalar(
            out,
            1,
            #[verifier::truncate]
            (self.session as u64),
        );
        proof {
            message::lemma_written_next(parts, 0, before, now, out@);
        }
        let ghost now = out@;
        record::put_scalar(out, 2, self.value as u64);
        proof {
            message::lemma_written_next(parts, 1, before, now, out@);
        }
        proof {
            message::lemma_written_last(parts);
        }
    }

    fn of_fields(fs: &Vec<Field>, room: u32) -> (r: Option<Self>) {
        let session: i32 = match message::read_int32(fs, 1) {
            Some(found) => found,
            None => {
                return None;
            },
        };
        let value: u32 = match message::read_uint32(fs, 2) {
            Some(found) => found,
            None => {
                return None;
            },
        };
        Some(AvMediaAckIndication { session, value })
    }
}

/// Asks to open or close the microphone.
#[derive(Debug, Clone, Copy, PartialEq, Eq, Structural)]
pub struct AvInputOpenRequest {
    pub open: bool,
    pub anc: bool,
    pub ec: bool,
    pub max_unacked: i32,
}

impl View for AvInputOpenRequest {
    type V = Self;

    open spec fn view(&self) -> Self {
        *self
    }
}

impl Schema for AvInputOpenRequest {
    open spec fn parts(v: Self::V) -> Seq<Seq<WireField>> {
        seq![
            record::scalar_field(1, message::bit(v.open)),
            record::scalar_field(2, message::bit(v.anc)),
            record::scalar_field(3, message::bit(v.ec)),
            record::scalar_field(4, v.max_unacked as u64),
        ]
    }

    open spec fn tags() -> Seq<u32> {
        seq![1u32, 2u32, 3u32, 4u32]
    }

    open spec fn of_wire(fs: Seq<WireField>, room: nat) -> Option<Self::V> {
        let open = message::boolean(record::values(fs, 1));
        let anc = message::boolean(record::values(fs, 2));
        let ec = message::boolean(record::values(fs, 3));
        let max_unacked = message::int32(record::values(fs, 4));
        if open is Some && anc is Some && ec is Some && max_unacked is Some {
            Some(
                AvInputOpenRequest {
                    open: open->Some_0,
                    anc: anc->Some_0,
                    ec: ec->Some_0,
                    max_unacked: max_unacked->Some_0,
                },
            )
        } else {
            None
        }
    }

    proof fn lemma_parts(v: Self::V, room: nat) {
        let parts = Self::parts(v);
        let tags = Self::tags();
        message::lemma_compact(parts);
        assert(message::well_parted(parts, tags)) by {
            assert(message::part_of(parts[0], 1));
            assert(message::part_of(parts[1], 2));
            assert(message::part_of(parts[2], 3));
            assert(message::part_of(parts[3], 4));
        }
        assert forall|fs: Seq<WireField>| #[trigger]
            message::holds_parts(fs, parts, tags) implies Self::of_wire(fs, room) == Some(v) by {
            assert(message::boolean(record::values(fs, 1)) == Some(v.open)) by {
                message::lemma_boolean_read_back(1, v.open);
                assert(record::values(fs, tags[0]) == record::values(parts[0], 1));
            }
            assert(message::boolean(record::values(fs, 2)) == Some(v.anc)) by {
                message::lemma_boolean_read_back(2, v.anc);
                assert(record::values(fs, tags[1]) == record::values(parts[1], 2));
            }
            assert(message::boolean(record::values(fs, 3)) == Some(v.ec)) by {
                message::lemma_boolean_read_back(3, v.ec);
                assert(record::values(fs, tags[2]) == record::values(parts[2], 3));
            }
            assert(message::int32(record::values(fs, 4)) == Some(v.max_unacked)) by {
                message::lemma_int32_read_back(4, v.max_unacked);
                assert(record::values(fs, tags[3]) == record::values(parts[3], 4));
            }
        }
    }
}

impl Message for AvInputOpenRequest {
    fn put(&self, out: &mut Vec<u8>) {
        let ghost before = out@;
        let ghost parts = Self::parts(self@);
        proof {
            message::lemma_written_first(parts, before);
        }
        let ghost now = out@;
        record::put_scalar(
            out,
            1,
            if self.open {
                1
            } else {
                0
            },
        );
        proof {
            message::lemma_written_next(parts, 0, before, now, out@);
        }
        let ghost now = out@;
        record::put_scalar(
            out,
            2,
            if self.anc {
                1
            } else {
                0
            },
        );
        proof {
            message::lemma_written_next(parts, 1, before, now, out@);
        }
        let ghost now = out@;
        record::put_scalar(
            out,
            3,
            if self.ec {
                1
            } else {
                0
            },
        );
        proof {
            message::lemma_written_next(parts, 2, before, now, out@);
        }
        let ghost now = out@;
        record::put_scalar(
            out,
            4,
            #[verifier::truncate]
            (self.max_unacked as u64),
        );
        proof {
            message::lemma_written_next(parts, 3, before, now, out@);
        }
        proof {
            message::lemma_written_last(parts);
        }
    }

    fn of_fields(fs: &Vec<Field>, room: u32) -> (r: Option<Self>) {
        let open: bool = match message::read_boolean(fs, 1) {
            Some(found) => found,
            None => {
                return None;
            },
        };
        let anc: bool = match message::read_boolean(fs, 2) {
            Some(found) => found,
            None => {
                return None;
            },
        };
        let ec: bool = match message::read_boolean(fs, 3) {
            Some(found) => found,
            None => {
                return None;
            },
        };
        let max_unacked: i32 = match message::read_int32(fs, 4) {
            Some(found) => found,
            None => {
                return None;
            },
        };
        Some(AvInputOpenRequest { open, anc, ec, max_unacked })
    }
}

/// Says whether the microphone is open.
#[derive(Debug, Clone, Copy, PartialEq, Eq, Structural)]
pub struct AvInputOpenResponse {
    pub session: i32,
    pub value: u32,
}

impl View for AvInputOpenResponse {
    type V = Self;

    open spec fn view(&self) -> Self {
        *self
    }
}

impl Schema for AvInputOpenResponse {
    open spec fn parts(v: Self::V) -> Seq<Seq<WireField>> {
        seq![
            record::scalar_field(1, v.session as u64),
            record::scalar_field(2, v.value as u64),
        ]
    }

    open spec fn tags() -> Seq<u32> {
        seq![1u32, 2u32]
    }

    open spec fn of_wire(fs: Seq<WireField>, room: nat) -> Option<Self::V> {
        let session = message::int32(record::values(fs, 1));
        let value = message::uint32(record::values(fs, 2));
        if session is Some && value is Some {
            Some(AvInputOpenResponse { session: session->Some_0, value: value->Some_0 })
        } else {
            None
        }
    }

    proof fn lemma_parts(v: Self::V, room: nat) {
        let parts = Self::parts(v);
        let tags = Self::tags();
        message::lemma_compact(parts);
        assert(message::well_parted(parts, tags)) by {
            assert(message::part_of(parts[0], 1));
            assert(message::part_of(parts[1], 2));
        }
        assert forall|fs: Seq<WireField>| #[trigger]
            message::holds_parts(fs, parts, tags) implies Self::of_wire(fs, room) == Some(v) by {
            assert(message::int32(record::values(fs, 1)) == Some(v.session)) by {
                message::lemma_int32_read_back(1, v.session);
                assert(record::values(fs, tags[0]) == record::values(parts[0], 1));
            }
            assert(message::uint32(record::values(fs, 2)) == Some(v.value)) by {
                message::lemma_uint32_read_back(2, v.value);
                assert(record::values(fs, tags[1]) == record::values(parts[1], 2));
            }
        }
    }
}

impl Message for AvInputOpenResponse {
    fn put(&self, out: &mut Vec<u8>) {
        let ghost before = out@;
        let ghost parts = Self::parts(self@);
        proof {
            message::lemma_written_first(parts, before);
        }
        let ghost now = out@;
        record::put_scalar(
            out,
            1,
            #[verifier::truncate]
            (self.session as u64),
        );
        proof {
            message::lemma_written_next(parts, 0, before, now, out@);
        }
        let ghost now = out@;
        record::put_scalar(out, 2, self.value as u64);
        proof {
            message::lemma_written_next(parts, 1, before, now, out@);
        }
        proof {
            message::lemma_written_last(parts);
        }
    }

    fn of_fields(fs: &Vec<Field>, room: u32) -> (r: Option<Self>) {
        let session: i32 = match message::read_int32(fs, 1) {
            Some(found) => found,
            None => {
                return None;
            },
        };
        let value: u32 = match message::read_uint32(fs, 2) {
            Some(found) => found,
            None => {
                return None;
            },
        };
        Some(AvInputOpenResponse { session, value })
    }
}

/// Asks for the events of a sensor.
#[derive(Debug, Clone, Copy, PartialEq, Eq, Structural)]
pub struct SensorStartRequestMessage {
    pub sensor_type: i32,
    pub refresh_interval: i64,
}

impl View for SensorStartRequestMessage {
    type V = Self;

    open spec fn view(&self) -> Self {
        *self
    }
}

impl Schema for SensorStartRequestMessage {
    open spec fn parts(v: Self::V) -> Seq<Seq<WireField>> {
        seq![
            record::scalar_field(1, v.sensor_type as u64),
            record::scalar_field(2, v.refresh_interval as u64),
        ]
    }

    open spec fn tags() -> Seq<u32> {
        seq![1u32, 2u32]
    }

    open spec fn of_wire(fs: Seq<WireField>, room: nat) -> Option<Self::V> {
        let sensor_type = message::int32(record::values(fs, 1));
        let refresh_interval = message::int64(record::values(fs, 2));
        if sensor_type is Some && refresh_interval is Some {
            Some(
                SensorStartRequestMessage {
                    sensor_type: sensor_type->Some_0,
                    refresh_interval: refresh_interval->Some_0,
                },
            )
        } else {
            None
        }
    }

    proof fn lemma_parts(v: Self::V, room: nat) {
        let parts = Self::parts(v);
        let tags = Self::tags();
        message::lemma_compact(parts);
        assert(message::well_parted(parts, tags)) by {
            assert(message::part_of(parts[0], 1));
            assert(message::part_of(parts[1], 2));
        }
        assert forall|fs: Seq<WireField>| #[trigger]
            message::holds_parts(fs, parts, tags) implies Self::of_wire(fs, room) == Some(v) by {
            assert(message::int32(record::values(fs, 1)) == Some(v.sensor_type)) by {
                message::lemma_int32_read_back(1, v.sensor_type);
                assert(record::values(fs, tags[0]) == record::values(parts[0], 1));
            }
            assert(message::int64(record::values(fs, 2)) == Some(v.refresh_interval)) by {
                message::lemma_int64_read_back(2, v.refresh_interval);
                assert(record::values(fs, tags[1]) == record::values(parts[1], 2));
            }
        }
    }
}

impl Message for SensorStartRequestMessage {
    fn put(&self, out: &mut Vec<u8>) {
        let ghost before = out@;
        let ghost parts = Self::parts(self@);
        proof {
            message::lemma_written_first(parts, before);
        }
        let ghost now = out@;
        record::put_scalar(
            out,
            1,
            #[verifier::truncate]
            (self.sensor_type as u64),
        );
        proof {
            message::lemma_written_next(parts, 0, before, now, out@);
        }
        let ghost now = out@;
        record::put_scalar(
            out,
            2,
            #[verifier::truncate]
            (self.refresh_interval as u64),
        );
        proof {
            message::lemma_written_next(parts, 1, before, now, out@);
        }
        proof {
            message::lemma_written_last(parts);
        }
    }

    fn of_fields(fs: &Vec<Field>, room: u32) -> (r: Option<Self>) {
        let sensor_type: i32 = match message::read_int32(fs, 1) {
            Some(found) => found,
            None => {
                return None;
            },
        };
        let refresh_interval: i64 = match message::read_int64(fs, 2) {
            Some(found) => found,
            None => {
                return None;
            },
        };
        Some(SensorStartRequestMessage { sensor_type, refresh_interval })
    }
}

/// Says whether the events of a sensor will come.
#[derive(Debug, Clone, Copy, PartialEq, Eq, Structural)]
pub struct SensorStartResponseMessage {
    pub status: i32,
}

impl View for SensorStartResponseMessage {
    type V = Self;

    open spec fn view(&self) -> Self {
        *self
    }
}

impl Schema for SensorStartResponseMessage {
    open spec fn parts(v: Self::V) -> Seq<Seq<WireField>> {
        seq![
            record::scalar_field(1, v.status as u64),
        ]
    }

    open spec fn tags() -> Seq<u32> {
        seq![1u32]
    }

    open spec fn of_wire(fs: Seq<WireField>, room: nat) -> Option<Self::V> {
        let status = message::int32(record::values(fs, 1));
        if status is Some {
            Some(SensorStartResponseMessage { status: status->Some_0 })
        } else {
            None
        }
    }

    proof fn lemma_parts(v: Self::V, room: nat) {
        let parts = Self::parts(v);
        let tags = Self::tags();
        message::lemma_compact(parts);
        assert(message::well_parted(parts, tags)) by {
            assert(message::part_of(parts[0], 1));
        }
        assert forall|fs: Seq<WireField>| #[trigger]
            message::holds_parts(fs, parts, tags) implies Self::of_wire(fs, room) == Some(v) by {
            assert(message::int32(record::values(fs, 1)) == Some(v.status)) by {
                message::lemma_int32_read_back(1, v.status);
                assert(record::values(fs, tags[0]) == record::values(parts[0], 1));
            }
        }
    }
}

impl Message for SensorStartResponseMessage {
    fn put(&self, out: &mut Vec<u8>) {
        let ghost before = out@;
        let ghost parts = Self::parts(self@);
        proof {
            message::lemma_written_first(parts, before);
        }
        let ghost now = out@;
        record::put_scalar(
            out,
            1,
            #[verifier::truncate]
            (self.status as u64),
        );
        proof {
            message::lemma_written_next(parts, 0, before, now, out@);
        }
        proof {
            message::lemma_written_last(parts);
        }
    }

    fn of_fields(fs: &Vec<Field>, room: u32) -> (r: Option<Self>) {
        let status: i32 = match message::read_int32(fs, 1) {
            Some(found) => found,
            None => {
                return None;
            },
        };
        Some(SensorStartResponseMessage { status })
    }
}

/// Events of sensors: positions, speeds, gears and what the driver may do. Those of other
/// sensors are passed over.
#[derive(Debug)]
pub struct SensorEventIndication {
    pub gps_location: Vec<GpsLocation>,
    pub speed: Vec<Speed>,
    pub gear: Vec<Gear>,
    pub driving_status: Vec<DrivingStatus>,
}

/// What a [`SensorEventIndication`] says.
pub struct SensorEventIndicationView {
    pub gps_location: Seq<GpsLocation>,
    pub speed: Seq<Speed>,
    pub gear: Seq<Gear>,
    pub driving_status: Seq<DrivingStatus>,
}

impl View for SensorEventIndication {
    type V = SensorEventIndicationView;

    open spec fn view(&self) -> SensorEventIndicationView {
        SensorEventIndicationView {
            gps_location: message::said::<GpsLocation>(self.gps_location@),
            speed: message::said::<Speed>(self.speed@),
            gear: message::said::<Gear>(self.gear@),
            driving_status: message::said::<DrivingStatus>(self.driving_status@),
        }
    }
}

impl Schema for SensorEventIndication {
    open spec fn parts(v: Self::V) -> Seq<Seq<WireField>> {
        seq![
            record::repeated_field(1, message::of_repeated::<GpsLocation>(v.gps_location)),
            record::repeated_field(3, message::of_repeated::<Speed>(v.speed)),
            record::repeated_field(8, message::of_repeated::<Gear>(v.gear)),
            record::repeated_field(13, message::of_repeated::<DrivingStatus>(v.driving_status)),
        ]
    }

    open spec fn tags() -> Seq<u32> {
        seq![1u32, 3u32, 8u32, 13u32]
    }

    open spec fn of_wire(fs: Seq<WireField>, room: nat) -> Option<Self::V> {
        let gps_location = message::repeated::<GpsLocation>(record::values(fs, 1), room);
        let speed = message::repeated::<Speed>(record::values(fs, 3), room);
        let gear = message::repeated::<Gear>(record::values(fs, 8), room);
        let driving_status = message::repeated::<DrivingStatus>(record::values(fs, 13), room);
        if gps_location is Some && speed is Some && gear is Some && driving_status is Some {
            Some(
                SensorEventIndicationView {
                    gps_location: gps_location->Some_0,
                    speed: speed->Some_0,
                    gear: gear->Some_0,
                    driving_status: driving_status->Some_0,
                },
            )
        } else {
            None
        }
    }

    proof fn lemma_parts(v: Self::V, room: nat) {
        let parts = Self::parts(v);
        let tags = Self::tags();
        message::lemma_compact(parts);
        assert(message::well_parted(parts, tags)) by {
            assert(message::part_of(parts[0], 1));
            assert(message::part_of(parts[1], 3));
            assert(message::part_of(parts[2], 8));
            assert(message::part_of(parts[3], 13));
        }
        assert forall|fs: Seq<WireField>| #[trigger]
            message::holds_parts(fs, parts, tags) implies Self::of_wire(fs, room) == Some(v) by {
            assert(message::repeated::<GpsLocation>(record::values(fs, 1), room)
                == Some(v.gps_location)) by {
                assert forall|i: int|
                    0 <= i < v.gps_location.len() implies
                    message::bytes_of::<GpsLocation>(#[trigger] v.gps_location[i]).len()
                    <= u64::MAX by {
                    assert(message::small(parts[0][i]));
                }
                message::lemma_repeated_back::<GpsLocation>(1, v.gps_location, room);
                assert(record::values(fs, tags[0]) == record::values(parts[0], 1));
            }
            assert(message::repeated::<Speed>(record::values(fs, 3), room)
                == Some(v.speed)) by {
                assert forall|i: int|
                    0 <= i < v.speed.len() implies
                    message::bytes_of::<Speed>(#[trigger] v.speed[i]).len()
                    <= u64::MAX by {
                    assert(message::small(parts[1][i]));
                }
                message::lemma_repeated_back::<Speed>(3, v.speed, room);
                assert(record::values(fs, tags[1]) == record::values(parts[1], 3));
            }
            assert(message::repeated::<Gear>(record::values(fs, 8), room)
                == Some(v.gear)) by {
                assert forall|i: int|
                    0 <= i < v.gear.len() implies
                    message::bytes_of::<Gear>(#[trigger] v.gear[i]).len()
                    <= u64::MAX by {
                    assert(message::small(parts[2][i]));
                }
                message::lemma_repeated_back::<Gear>(8, v.gear, room);
                assert(record::values(fs, tags[2]) == record::values(parts[2], 8));
            }
            assert(message::repeated::<DrivingStatus>(record::values(fs, 13), room)
                == Some(v.driving_status)) by {
                assert forall|i: int|
                    0 <= i < v.driving_status.len() implies
                    message::bytes_of::<DrivingStatus>(#[trigger] v.driving_status[i]).len()
                    <= u64::MAX by {
                    assert(message::small(parts[3][i]));
                }
                message::lemma_repeated_back::<DrivingStatus>(13, v.driving_status, room);
                assert(record::values(fs, tags[3]) == record::values(parts[3], 13));
            }
        }
    }
}

impl Message for SensorEventIndication {
    fn put(&self, out: &mut Vec<u8>) {
        let ghost before = out@;
        let ghost parts = Self::parts(self@);
        proof {
            message::lemma_written_first(parts, before);
        }
        let ghost now = out@;
        message::put_repeated::<GpsLocation>(out, 1, &self.gps_location);
        proof {
            message::lemma_written_next(parts, 0, before, now, out@);
        }
        let ghost now = out@;
        message::put_repeated::<Speed>(out, 3, &self.speed);
        proof {
            message::lemma_written_next(parts, 1, before, now, out@);
        }
        let ghost now = out@;
        message::put_repeated::<Gear>(out, 8, &self.gear);
        proof {
            message::lemma_written_next(parts, 2, before, now, out@);
        }
        let ghost now = out@;
        message::put_repeated::<DrivingStatus>(out, 13, &self.driving_status);
        proof {
            message::lemma_written_next(parts, 3, before, now, out@);
        }
        proof {
            message::lemma_written_last(parts);
        }
    }

    fn of_fields(fs: &Vec<Field>, room: u32) -> (r: Option<Self>) {
        let gps_location: Vec<GpsLocation> =
            match message::read_repeated::<GpsLocation>(fs, 1, room) {
                Some(found) => found,
                None => {
                    return None;
                },
            };
        let speed: Vec<Speed> = match message::read_repeated::<Speed>(fs, 3, room) {
            Some(found) => found,
            None => {
                return None;
            },
        };
        let gear: Vec<Gear> = match message::read_repeated::<Gear>(fs, 8, room) {
            Some(found) => found,
            None => {
                return None;
            },
        };
        let driving_status: Vec<DrivingStatus> =
            match message::read_repeated::<DrivingStatus>(fs, 13, room) {
                Some(found) => found,
                None => {
                    return None;
                },
            };
        Some(SensorEventIndication { gps_location, speed, gear, driving_status })
    }
}

/// Asks to bind keys.
#[derive(Debug)]
pub struct BindingRequest {
    pub scan_codes: Vec<i32>,
}

/// What a [`BindingRequest`] says.
pub struct BindingRequestView {
    pub scan_codes: Seq<i32>,
}

impl View for BindingRequest {
    type V = BindingRequestView;

    open spec fn view(&self) -> BindingRequestView {
        BindingRequestView {
            scan_codes: self.scan_codes@,
        }
    }
}

impl Schema for BindingRequest {
    open spec fn parts(v: Self::V) -> Seq<Seq<WireField>> {
        seq![
            record::packed_field(1, message::of_int32s(v.scan_codes)),
        ]
    }

    open spec fn tags() -> Seq<u32> {
        seq![1u32]
    }

    open spec fn of_wire(fs: Seq<WireField>, room: nat) -> Option<Self::V> {
        let scan_codes = message::int32s(record::values(fs, 1));
        if scan_codes is Some {
            Some(BindingRequestView { scan_codes: scan_codes->Some_0 })
        } else {
            None
        }
    }

    proof fn lemma_parts(v: Self::V, room: nat) {
        let parts = Self::parts(v);
        let tags = Self::tags();
        message::lemma_compact(parts);
        assert(message::well_parted(parts, tags)) by {
            assert(message::part_of(parts[0], 1));
        }
        assert forall|fs: Seq<WireField>| #[trigger]
            message::holds_parts(fs, parts, tags) implies Self::of_wire(fs, room) == Some(v) by {
            assert(message::int32s(record::values(fs, 1)) == Some(v.scan_codes)) by {
                message::lemma_int32s_back(1, v.scan_codes);
                assert(record::values(fs, tags[0]) == record::values(parts[0], 1));
            }
        }
    }
}

impl Message for BindingRequest {
    fn put(&self, out: &mut Vec<u8>) {
        let ghost before = out@;
        let ghost parts = Self::parts(self@);
        proof {
            message::lemma_written_first(parts, before);
        }
        let ghost now = out@;
        message::put_int32s(out, 1, &self.scan_codes);
        proof {
            message::lemma_written_next(parts, 0, before, now, out@);
        }
        proof {
            message::lemma_written_last(parts);
        }
    }

    fn of_fields(fs: &Vec<Field>, room: u32) -> (r: Option<Self>) {
        let scan_codes: Vec<i32> = match message::read_int32s(fs, 1) {
            Some(found) => found,
            None => {
                return None;
            },
        };
        Some(BindingRequest { scan_codes })
    }
}

/// Says whether keys are bound.
#[derive(Debug, Clone, Copy, PartialEq, Eq, Structural)]
pub struct BindingResponse {
    pub status: i32,
}

impl View for BindingResponse {
    type V = Self;

    open spec fn view(&self) -> Self {
        *self
    }
}

impl Schema for BindingResponse {
    open spec fn parts(v: Self::V) -> Seq<Seq<WireField>> {
        seq![
            record::scalar_field(1, v.status as u64),
        ]
    }

    open spec fn tags() -> Seq<u32> {
        seq![1u32]
    }

    open spec fn of_wire(fs: Seq<WireField>, room: nat) -> Option<Self::V> {
        let status = message::int32(record::values(fs, 1));
        if status is Some {
            Some(BindingResponse { status: status->Some_0 })
        } else {
            None
        }
    }

    proof fn lemma_parts(v: Self::V, room: nat) {
        let parts = Self::parts(v);
        let tags = Self::tags();
        message::lemma_compact(parts);
        assert(message::well_parted(parts, tags)) by {
            assert(message::part_of(parts[0], 1));
        }
        assert forall|fs: Seq<WireField>| #[trigger]
            message::holds_parts(fs, parts, tags) implies Self::of_wire(fs, room) == Some(v) by {
            assert(message::int32(record::values(fs, 1)) == Some(v.status)) by {
                message::lemma_int32_read_back(1, v.status);
                assert(record::values(fs, tags[0]) == record::values(parts[0], 1));
            }
        }
    }
}

impl Message for BindingResponse {
    fn put(&self, out: &mut Vec<u8>) {
        let ghost before = out@;
        let ghost parts = Self::parts(self@);
        proof {
            message::lemma_written_first(parts, before);
        }
        let ghost now = out@;
        record::put_scalar(
            out,
            1,
            #[verifier::truncate]
            (self.status as u64),
        );
        proof {
            message::lemma_written_next(parts, 0, before, now, out@);
        }
        proof {
            message::lemma_written_last(parts);
        }
    }

    fn of_fields(fs: &Vec<Field>, room: u32) -> (r: Option<Self>) {
        let status: i32 = match message::read_int32(fs, 1) {
            Some(found) => found,
            None => {
                return None;
            },
        };
        Some(BindingResponse { status })
    }
}

} // verus!
