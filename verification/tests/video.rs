//! Pictures.
use aabox::channel_id::ChannelId;
use aabox::channels::video::nal::{
    group_access_units, is_slice, nal_unit_type, nut, split_nals, start_code_offsets,
};
use aabox::channels::video::pipeline::{
    StreamerStep, VideoPipeline, MSG_AV_MEDIA_WITH_TIMESTAMP_INDICATION, NO_WIRE_CHANNEL,
};
use aabox::channels::video::source::{
    find_last_start_code, recorder_args, NextFrame, ScreenRecordVideoSource, TestPatternProfile,
    TestPatternVideoSource, VideoFrame,
};
use aabox::channels::video::{
    handle, MSG_AV_MEDIA_ACK_INDICATION, MSG_SETUP_REQUEST, MSG_SETUP_RESPONSE,
    MSG_START_INDICATION, MSG_STOP_INDICATION, VIDEO_MAX_UNACKED,
};
use aabox::channels::HandleError;
use aabox::proto::enums::AV_CHANNEL_SETUP_STATUS_OK;
use aabox::proto::message::Message;
use aabox::proto::messages::{
    AvChannelSetupRequest, AvChannelSetupResponse, AvChannelStartIndication,
};

// ---- Access units -----------------------------------------------------------

#[test]
fn split_recognises_three_and_four_byte_start_codes() {
    // SPS (3-byte start), PPS (3-byte start), IDR (4-byte start)
    let buf = [
        0, 0, 1, 0x67, 0xAA, // SPS
        0, 0, 1, 0x68, 0xBB, // PPS
        0, 0, 0, 1, 0x65, 0xCC, 0xDD, // IDR
    ];
    let nals = split_nals(&buf);
    assert_eq!(nals.len(), 3);
    assert_eq!(nal_unit_type(nals[0]), nut::SPS);
    assert_eq!(nal_unit_type(nals[1]), nut::PPS);
    assert_eq!(nal_unit_type(nals[2]), nut::SLICE_IDR);
}

#[test]
fn access_unit_grouping_collapses_param_sets_with_following_idr() {
    let buf = [
        0, 0, 0, 1, 0x67, 0xAA, // SPS
        0, 0, 0, 1, 0x68, 0xBB, // PPS
        0, 0, 0, 1, 0x65, 0xCC, // IDR
        0, 0, 0, 1, 0x61, 0xDD, // non-IDR slice
    ];
    let aus = group_access_units(&buf);
    assert_eq!(aus.len(), 2);
    // First AU starts with SPS, contains PPS + IDR slice.
    assert_eq!(aus[0][..4], [0, 0, 0, 1]);
    assert_eq!(aus[0][4] & 0x1f, nut::SPS);
    // Second AU = the non-IDR slice on its own.
    assert_eq!(aus[1][4] & 0x1f, nut::SLICE_NON_IDR);
}

#[test]
fn empty_buffer_yields_no_nals() {
    assert!(split_nals(&[]).is_empty());
    assert!(group_access_units(&[]).is_empty());
}

#[test]
fn units_join_to_the_stream() {
    let buf = stream();
    let nals = split_nals(&buf);
    assert_eq!(nals.concat(), buf);
    let units = group_access_units(&buf);
    assert_eq!(units.concat(), buf);
    // What stands before the first start code belongs to no unit.
    let mut led = vec![9, 9];
    led.extend_from_slice(&buf);
    assert_eq!(split_nals(&led).concat(), buf);
}

#[test]
fn slices_carry_pictures() {
    assert!(is_slice(nut::SLICE_IDR));
    assert!(is_slice(nut::SLICE_NON_IDR));
    assert!(!is_slice(nut::SPS));
    assert!(!is_slice(nut::SEI));
    assert!(!is_slice(nut::AUD));
}

// ---- The pipeline -----------------------------------------------------------

#[test]
fn video_setup_acks_ok_with_max_unacked() {
    let mut pipeline = VideoPipeline::new(VIDEO_MAX_UNACKED);
    let buf = AvChannelSetupRequest { config_index: 0 }.encode_to_vec();
    let out = handle(ChannelId::Video.code(), MSG_SETUP_REQUEST, &buf, &mut pipeline)
        .unwrap()
        .replies;
    assert_eq!(out.len(), 1);
    assert_eq!(out[0].message_id, MSG_SETUP_RESPONSE);
    let resp = AvChannelSetupResponse::decode(&out[0].payload[..]).unwrap();
    assert_eq!(resp.media_status, AV_CHANNEL_SETUP_STATUS_OK);
    assert_eq!(resp.max_unacked, VIDEO_MAX_UNACKED);
}

#[test]
fn video_start_indication_kicks_pipeline() {
    let mut pipeline = VideoPipeline::new(VIDEO_MAX_UNACKED);
    let buf = AvChannelStartIndication { session: 5, config: 1 }.encode_to_vec();
    let step = handle(ChannelId::Video.code(), MSG_START_INDICATION, &buf, &mut pipeline).unwrap();
    // START does not produce an immediate reply; frames flow by themselves.
    assert!(step.replies.is_empty());
    assert!(step.start.is_some());
    assert_eq!(pipeline.session_id(), 5);
}

#[test]
fn start_emits_frames_with_pts_prefix() {
    let mut pipeline = VideoPipeline::new(4);
    assert_eq!(pipeline.wire_channel(), NO_WIRE_CHANNEL);
    pipeline.set_wire_channel(ChannelId::Video.code());
    let start = pipeline.start(/*session=*/ 7, /*config=*/ 1);
    let mut src = TestPatternVideoSource::new(start.profile, &stream());
    assert_eq!(pipeline.streamer_step(start.generation), StreamerStep::Send);
    let frame = src.next_frame().unwrap();
    let m0 = pipeline.media_message(&frame);
    pipeline.frame_sent();

    assert_eq!(m0.channel, ChannelId::Video.code());
    assert_eq!(m0.message_id, MSG_AV_MEDIA_WITH_TIMESTAMP_INDICATION);
    assert!(m0.payload.len() > 8, "payload should have PTS + bytes");
    // First 8 bytes are PTS = 0 (first frame).
    assert_eq!(&m0.payload[..8], &[0u8; 8]);
    // Annex-B begins immediately after.
    assert_eq!(&m0.payload[8..12], &[0, 0, 0, 1]);
}

#[test]
fn stop_cancels_streamer() {
    let mut pipeline = VideoPipeline::new(64);
    let start = pipeline.start(1, 1);
    for _ in 0..3 {
        assert_eq!(pipeline.streamer_step(start.generation), StreamerStep::Send);
        pipeline.frame_sent();
    }
    pipeline.stop();
    assert_eq!(pipeline.streamer_step(start.generation), StreamerStep::Exit);
}

#[test]
fn restart_records_new_session_id() {
    let mut pipeline = VideoPipeline::new(2);
    let first = pipeline.start(1, 1);
    pipeline.stop();
    let second = pipeline.start(2, 1);
    assert_eq!(pipeline.session_id(), 2);
    assert_eq!(pipeline.streamer_step(first.generation), StreamerStep::Exit);
    assert_eq!(pipeline.streamer_step(second.generation), StreamerStep::Send);
}

#[test]
fn media_ack_releases_in_flight_slot() {
    let mut pipeline = VideoPipeline::new(64);
    // Three frames in flight, then acks: clamps at 0 without underflow.
    pipeline.in_flight = 3;
    pipeline.on_media_ack();
    assert_eq!(pipeline.in_flight, 2);
    pipeline.on_media_ack();
    pipeline.on_media_ack();
    pipeline.on_media_ack(); // 4th: should stay at 0
    assert_eq!(pipeline.in_flight, 0);
}

#[test]
fn a_full_window_waits() {
    let mut pipeline = VideoPipeline::new(2);
    let start = pipeline.start(1, 1);
    pipeline.frame_sent();
    pipeline.frame_sent();
    assert_eq!(pipeline.streamer_step(start.generation), StreamerStep::Wait);
    pipeline.on_media_ack();
    assert_eq!(pipeline.streamer_step(start.generation), StreamerStep::Send);
}

#[test]
fn other_video_messages() {
    let mut pipeline = VideoPipeline::new(4);
    let channel = ChannelId::Video.code();
    pipeline.start(1, 1);
    pipeline.in_flight = 2;
    handle(channel, MSG_AV_MEDIA_ACK_INDICATION, &[], &mut pipeline).unwrap();
    assert_eq!(pipeline.in_flight, 1);
    let generation = pipeline.generation;
    handle(channel, MSG_STOP_INDICATION, &[], &mut pipeline).unwrap();
    assert_eq!(pipeline.streamer_step(generation), StreamerStep::Exit);
    assert_eq!(
        handle(channel, MSG_SETUP_REQUEST, &[0x08], &mut pipeline).err(),
        Some(HandleError::SetupRequest)
    );
    assert_eq!(
        handle(channel, MSG_START_INDICATION, &[0x08], &mut pipeline).err(),
        Some(HandleError::StartIndication)
    );
}

// ---- Sources ----------------------------------------------------------------

/// A stream of three access units: parameter sets with a key picture, and two more.
fn stream() -> Vec<u8> {
    let mut s = vec![0, 0, 0, 1, 0x67, 1, 0, 0, 0, 1, 0x68, 2, 0, 0, 0, 1, 0x65];
    s.extend_from_slice(&[0x77; 120]);
    s.extend_from_slice(&[0, 0, 0, 1, 0x61, 3, 0, 0, 0, 1, 0x61, 4]);
    s
}

#[test]
fn test_pattern_first_frame_contains_sps_pps_idr() {
    let src = TestPatternVideoSource::new(TestPatternProfile::P720p30, &stream());
    // Frame 0 should be the SPS+PPS+IDR triplet.
    let nals = split_nals(src.access_unit(0));
    let types: Vec<u8> = nals.iter().map(|n| nal_unit_type(n)).collect();
    assert!(types.contains(&nut::SPS), "expected SPS NAL, got {:?}", types);
    assert!(types.contains(&nut::PPS), "expected PPS NAL, got {:?}", types);
    assert!(
        types.contains(&nut::SLICE_IDR),
        "expected IDR slice, got {:?}",
        types
    );
    let _ = src.frame_count();
}

#[test]
fn test_pattern_emits_first_frame_marked_keyframe() {
    let mut src = TestPatternVideoSource::new(TestPatternProfile::P720p30, &stream());
    let f = src.next_frame().expect("first frame");
    assert!(f.keyframe, "first AU should be an IDR");
    assert_eq!(f.pts_us, 0);
    assert!(f.annex_b.len() > 100);
}

#[test]
fn test_pattern_pts_monotonic_and_paced() {
    let mut src = TestPatternVideoSource::new(TestPatternProfile::P720p30, &stream());
    let f0 = src.next_frame().unwrap();
    let f1 = src.next_frame().unwrap();
    assert_eq!(f0.pts_us, 0);
    // Frame interval is 1/30 s = 33_333 us; tolerate exact division.
    assert!(f1.pts_us > f0.pts_us);
    assert!(f1.pts_us <= 35_000);
    assert_eq!(TestPatternProfile::P1080p30.frame_interval(), 33_333);
    assert_eq!(src.due_us(), 66_666);
}

#[test]
fn test_pattern_access_units_contain_at_least_one_idr() {
    let src = TestPatternVideoSource::new(TestPatternProfile::P720p30, &stream());
    let total = src.frame_count();
    let idrs = (0..total)
        .filter(|i| {
            split_nals(src.access_unit(*i))
                .iter()
                .any(|n| nal_unit_type(n) == nut::SLICE_IDR)
        })
        .count();
    assert!(
        idrs >= 1,
        "expected at least one IDR in the parsed pattern, got {} of {}",
        idrs,
        total
    );
}

#[test]
fn test_pattern_begins_again() {
    let mut src = TestPatternVideoSource::new(TestPatternProfile::P720p30, &stream());
    let n = src.frame_count();
    assert_eq!(n, 3);
    let first = src.next_frame().unwrap();
    for _ in 1..n {
        assert!(!src.next_frame().unwrap().keyframe);
    }
    let again = src.next_frame().unwrap();
    assert_eq!(again.annex_b, first.annex_b);
    assert_eq!(again.pts_us, 99_999);
    let mut none = TestPatternVideoSource::new(TestPatternProfile::P720p30, &[]);
    assert!(none.next_frame().is_none());
}

#[test]
fn recordings_are_cut_into_units() {
    let all = stream();
    let mut src = ScreenRecordVideoSource::new(30);
    let mut frames: Vec<VideoFrame> = Vec::new();
    for chunk in all.chunks(7) {
        src.absorb(chunk);
        while let Some(f) = src.next_queued() {
            frames.push(f);
        }
    }
    // Cut in pieces, the stream gives its bytes in order; the last unit waits for the
    // start of another.
    let mut got: Vec<u8> = frames.iter().flat_map(|f| f.annex_b.clone()).collect();
    got.extend_from_slice(&src.leftover);
    assert_eq!(got, all);
    assert!(frames.iter().any(|f| f.keyframe));
    assert_eq!(frames[0].pts_us, 0);
    assert_eq!(frames[1].pts_us, 33_333);
}

#[test]
fn start_codes_are_found() {
    let buf = [0, 0, 1, 0x67, 0xAA, 0, 0, 0, 1, 0x65, 0xCC];
    assert_eq!(start_code_offsets(&buf), vec![0, 5]);
    assert_eq!(find_last_start_code(&buf), Some(5));
    assert_eq!(find_last_start_code(&buf[..8]), Some(0));
    assert_eq!(find_last_start_code(&buf[6..]), Some(0));
    assert_eq!(find_last_start_code(&buf[3..8]), None);
    assert_eq!(find_last_start_code(&[0, 0]), None);
    assert!(start_code_offsets(&[]).is_empty());
}

#[test]
fn frames_are_asked_for_while_the_recorder_writes() {
    // Two slices, and the start of a third.
    let first = [0, 0, 0, 1, 0x65, 0xAA];
    let second = [0, 0, 0, 1, 0x41, 0xBB];
    let mut src = ScreenRecordVideoSource::new(30);
    assert!(matches!(src.next_frame(None), NextFrame::ReadMore));
    assert!(matches!(src.next_frame(Some(&first)), NextFrame::ReadMore));
    let mut chunk = second.to_vec();
    chunk.extend_from_slice(&[0, 0, 0, 1, 0x41]);
    match src.next_frame(Some(&chunk)) {
        NextFrame::Frame(f) => {
            assert_eq!(f.annex_b, first);
            assert_eq!(f.pts_us, 0);
            assert!(f.keyframe);
        }
        other => panic!("{other:?}"),
    }
    // What is complete goes out before more is read.
    match src.next_frame(None) {
        NextFrame::Frame(f) => {
            assert_eq!(f.annex_b, second);
            assert_eq!(f.pts_us, 33_333);
            assert!(!f.keyframe);
        }
        other => panic!("{other:?}"),
    }
    assert!(matches!(src.next_frame(None), NextFrame::ReadMore));
    assert!(matches!(src.next_frame(Some(&[])), NextFrame::Ended));
    assert_eq!(src.leftover, vec![0, 0, 0, 1, 0x41]);
}

#[test]
fn recordings_do_not_depend_on_how_they_are_read() {
    let all = stream();
    for size in 1..=all.len() {
        let mut src = ScreenRecordVideoSource::new(25);
        let mut got: Vec<u8> = Vec::new();
        let mut k = 0;
        for chunk in all.chunks(size) {
            src.absorb(chunk);
            while let Some(f) = src.next_queued() {
                let nals = split_nals(&f.annex_b);
                let slices: Vec<bool> =
                    nals.iter().map(|n| is_slice(nal_unit_type(n))).collect();
                assert_eq!(slices.iter().filter(|s| **s).count(), 1);
                assert_eq!(slices.last(), Some(&true));
                assert_eq!(f.keyframe, nal_unit_type(nals[nals.len() - 1]) == nut::SLICE_IDR);
                assert_eq!(f.pts_us, k * 40_000);
                got.extend_from_slice(&f.annex_b);
                k += 1;
            }
        }
        assert!(all.starts_with(&got));
        got.extend_from_slice(&src.leftover);
        assert_eq!(got, all);
    }
}

#[test]
fn only_the_last_unit_may_lack_a_slice() {
    let mut buf = stream();
    buf.extend_from_slice(&[0, 0, 1, 0x67, 1, 0, 0, 1, 0x68, 2]);
    let units = group_access_units(&buf);
    for (k, unit) in units.iter().enumerate() {
        let kinds: Vec<bool> = split_nals(unit)
            .iter()
            .map(|n| is_slice(nal_unit_type(n)))
            .collect();
        let last = kinds.len() - 1;
        for (i, slice) in kinds.iter().enumerate() {
            assert_eq!(*slice, i == last && k + 1 < units.len());
        }
    }
    let nals: Vec<Vec<u8>> = units
        .iter()
        .flat_map(|u| split_nals(u).iter().map(|n| n.to_vec()).collect::<Vec<_>>())
        .collect();
    let whole: Vec<Vec<u8>> = split_nals(&buf).iter().map(|n| n.to_vec()).collect();
    assert_eq!(nals, whole);
}

#[test]
fn recorder_arguments() {
    let args = recorder_args(1280, 720, 4_000_000);
    assert!(args.iter().any(|a| a == "1280x720"));
    assert!(args.iter().any(|a| a == "4000000"));
    assert_eq!(args.last().unwrap(), "-");
}
