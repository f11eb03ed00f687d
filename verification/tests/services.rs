//! What is offered, and how messages are written.
use aabox::channel_id::ChannelId;
use aabox::proto::data::{BluetoothChannel, ChannelDescriptor};
use aabox::proto::enums::{
    AV_STREAM_TYPE_AUDIO, AV_STREAM_TYPE_VIDEO, SENSOR_LOCATION, VIDEO_FPS_30,
    VIDEO_RESOLUTION_1080P,
};
use aabox::proto::message::Message;
use aabox::proto::messages::{
    AvInputOpenRequest, BindingRequest, PingRequest, ServiceDiscoveryRequest,
    ServiceDiscoveryResponse,
};
use aabox::proto::wire::{read_fields, MAX_NESTING};
use aabox::services::{encode_response, full_response, minimal_response, SCREEN_H, SCREEN_W};

#[test]
fn minimal_response_roundtrips() {
    let r = minimal_response();
    let bytes = encode_response(&r);
    let parsed = ServiceDiscoveryResponse::decode(bytes.as_slice()).unwrap();
    assert_eq!(parsed.head_unit_name, "AABox");
    assert_eq!(parsed.channels.len(), 2);
    let sensor = parsed
        .channels
        .iter()
        .find(|c| c.channel_id == ChannelId::Sensor.code() as u32)
        .unwrap();
    assert!(sensor.sensor_channel.is_some());
    let video = parsed
        .channels
        .iter()
        .find(|c| c.channel_id == ChannelId::Video.code() as u32)
        .unwrap();
    let av = video.av_channel.as_ref().unwrap();
    assert_eq!(av.video_configs.len(), 2);
    assert_eq!(av.video_configs[0].video_resolution, VIDEO_RESOLUTION_1080P);
}

#[test]
fn full_response_roundtrips_all_channels() {
    let r = full_response();
    let bytes = encode_response(&r);
    let parsed = ServiceDiscoveryResponse::decode(bytes.as_slice()).unwrap();
    assert_eq!(parsed.channels.len(), 7, "expected 7 advertised channels");

    let by_id = |cid: ChannelId| -> &ChannelDescriptor {
        parsed
            .channels
            .iter()
            .find(|c| c.channel_id == cid.code() as u32)
            .unwrap_or_else(|| panic!("missing channel id {cid:?}"))
    };

    // Input: touchscreen at 1920x1080 + a non-empty key set.
    let input = by_id(ChannelId::Input);
    let ic = input.input_channel.as_ref().unwrap();
    assert!(!ic.supported_keycodes.is_empty());
    let tc = ic.touch_screen_config.as_ref().unwrap();
    assert_eq!(tc.width, SCREEN_W);
    assert_eq!(tc.height, SCREEN_H);

    // Sensor: must include LOCATION.
    let sensor = by_id(ChannelId::Sensor);
    let sc = sensor.sensor_channel.as_ref().unwrap();
    assert!(sc.sensors.iter().any(|s| s.sensor_type == SENSOR_LOCATION));

    // Video: 1080p first.
    let video = by_id(ChannelId::Video);
    let av = video.av_channel.as_ref().unwrap();
    assert_eq!(av.stream_type, AV_STREAM_TYPE_VIDEO);
    assert_eq!(av.video_configs[0].video_resolution, VIDEO_RESOLUTION_1080P);
    assert_eq!(av.video_configs[0].video_fps, VIDEO_FPS_30);

    // Media audio: 48k stereo 16-bit.
    let ma = by_id(ChannelId::MediaAudio);
    let av = ma.av_channel.as_ref().unwrap();
    assert_eq!(av.stream_type, AV_STREAM_TYPE_AUDIO);
    assert_eq!(av.audio_configs[0].sample_rate, 48_000);
    assert_eq!(av.audio_configs[0].channel_count, 2);

    // Speech audio in: 16 kHz.
    let speech = by_id(ChannelId::SpeechAudio);
    let avi = speech.av_input_channel.as_ref().unwrap();
    assert_eq!(avi.audio_config.as_ref().unwrap().sample_rate, 16_000);

    // System audio in: 48 kHz.
    let sysaudio = by_id(ChannelId::SystemAudio);
    let avi = sysaudio.av_input_channel.as_ref().unwrap();
    assert_eq!(avi.audio_config.as_ref().unwrap().sample_rate, 48_000);

    // Navigation: present + has image options + 1 sec floor.
    let nav = by_id(ChannelId::Navigation);
    let nc = nav.navigation_channel.as_ref().unwrap();
    assert_eq!(nc.minimum_interval_ms, 1000);
    assert!(nc.image_options.is_some());
}

#[test]
fn service_discovery_request_roundtrip() {
    let req = ServiceDiscoveryRequest {
        small_icon: Vec::new(),
        medium_icon: Vec::new(),
        large_icon: Vec::new(),
        label_text: "AABox".to_string(),
        device_name: "AABox".to_string(),
        phone_info: None,
    };
    let buf = req.encode_to_vec();
    let decoded = ServiceDiscoveryRequest::decode(buf.as_slice()).expect("decode");
    assert_eq!(decoded.device_name, "AABox");
    assert_eq!(decoded.label_text, "AABox");
}

// ---- The wire ---------------------------------------------------------------

#[test]
fn varints_as_prost_writes_them() {
    // Field 1, a varint; negative numbers take ten bytes.
    assert_eq!(PingRequest { timestamp: 150 }.encode_to_vec(), vec![0x08, 0x96, 0x01]);
    let minus = PingRequest { timestamp: -1 }.encode_to_vec();
    assert_eq!(
        minus,
        vec![0x08, 0xff, 0xff, 0xff, 0xff, 0xff, 0xff, 0xff, 0xff, 0xff, 0x01]
    );
    assert_eq!(PingRequest::decode(&minus).unwrap().timestamp, -1);
    // Nothing is written for a zero.
    assert!(PingRequest { timestamp: 0 }.encode_to_vec().is_empty());
    assert_eq!(PingRequest::decode(&[]).unwrap().timestamp, 0);
}

#[test]
fn the_last_value_counts() {
    let m = PingRequest::decode(&[0x08, 1, 0x08, 2]).unwrap();
    assert_eq!(m.timestamp, 2);
}

#[test]
fn unknown_fields_are_skipped() {
    // Field 9 as a varint, as 8 bytes, as a string, as 4 bytes and as a group with a
    // varint in it; then field 1.
    let bytes = [
        0x48, 5, // varint
        0x49, 1, 2, 3, 4, 5, 6, 7, 8, // 8 bytes
        0x4a, 2, b'h', b'i', // string
        0x4d, 1, 2, 3, 4, // 4 bytes
        0x4b, 0x08, 7, 0x4c, // group
        0x08, 42,
    ];
    assert_eq!(PingRequest::decode(&bytes).unwrap().timestamp, 42);
    assert_eq!(read_fields(&bytes, MAX_NESTING).unwrap().len(), 6);
}

/// `inner` in groups with tag 9, so many deep.
fn grouped(depth: usize, inner: &[u8]) -> Vec<u8> {
    let mut out = vec![0x4b; depth];
    out.extend_from_slice(inner);
    out.extend(vec![0x4c; depth]);
    out
}

#[test]
fn groups_are_skipped_up_to_a_depth() {
    for (depth, inner, fine) in [
        (100, &[][..], true),
        (101, &[], false),
        (99, &[0x08, 7], true),
        (100, &[0x08, 7], false),
    ] {
        let bytes = grouped(depth, inner);
        assert_eq!(PingRequest::decode(&bytes).is_ok(), fine, "{depth}");
        let skipped = prost::encoding::skip_field(
            prost::encoding::WireType::StartGroup,
            9,
            &mut &bytes[1..],
            prost::encoding::DecodeContext::default(),
        );
        assert_eq!(skipped.is_ok(), fine, "{depth}");
        // Inside a message that is inside another there is less room.
        for (less, fine) in [(1, fine), (0, false)] {
            let inside = grouped(depth - less, inner);
            let mut bytes = vec![0x0a];
            let mut len = inside.len();
            while len >= 0x80 {
                bytes.push((len % 0x80) as u8 | 0x80);
                len /= 0x80;
            }
            bytes.push(len as u8);
            bytes.extend(inside);
            assert_eq!(ServiceDiscoveryResponse::decode(&bytes).is_ok(), fine, "{depth}");
        }
    }
    // Groups may follow one another, and end with their own tag only.
    let two = [0x4b, 0x4b, 0x4c, 0x4b, 0x48, 1, 0x4c, 0x4c, 0x08, 3];
    assert_eq!(PingRequest::decode(&two).unwrap().timestamp, 3);
    assert!(PingRequest::decode(&[0x4b, 0x54]).is_err());
}

#[test]
fn malformed_messages_are_refused() {
    // A varint that ends too early, one that is too long, a string that is cut off, a
    // group that is not closed, an end without a group, and field 0.
    for bytes in [
        &[0x08][..],
        &[0x08, 0xff, 0xff, 0xff, 0xff, 0xff, 0xff, 0xff, 0xff, 0xff, 0x02],
        &[0x4a, 5, b'h'],
        &[0x4b, 0x08, 7],
        &[0x4c],
        &[0x00, 0],
    ] {
        assert!(PingRequest::decode(bytes).is_err(), "{bytes:?}");
    }
    // A field of another kind is refused as well.
    assert!(PingRequest::decode(&[0x0a, 1, 1]).is_err());
}

#[test]
fn packed_and_unpacked_numbers() {
    let packed = BindingRequest { scan_codes: vec![3, 300] };
    let bytes = packed.encode_to_vec();
    assert_eq!(bytes, vec![0x0a, 3, 3, 0xac, 0x02]);
    assert_eq!(BindingRequest::decode(&bytes).unwrap().scan_codes, vec![3, 300]);
    let unpacked = BindingRequest::decode(&[0x08, 3, 0x08, 0xac, 0x02]).unwrap();
    assert_eq!(unpacked.scan_codes, vec![3, 300]);
}

#[test]
fn flags_and_strings() {
    let m = AvInputOpenRequest { open: true, anc: false, ec: true, max_unacked: -2 };
    let back = AvInputOpenRequest::decode(&m.encode_to_vec()).unwrap();
    assert!(back.open && !back.anc && back.ec);
    assert_eq!(back.max_unacked, -2);
    let b = BluetoothChannel {
        adapter_address: "00:11 é".to_string(),
        supported_pairing_methods: vec![1, -1],
    };
    let back = BluetoothChannel::decode(&b.encode_to_vec()).unwrap();
    assert_eq!(back.adapter_address, "00:11 é");
    assert_eq!(back.supported_pairing_methods, vec![1, -1]);
    // A string that is not UTF-8 is refused.
    assert!(BluetoothChannel::decode(&[0x0a, 1, 0xff]).is_err());
}
