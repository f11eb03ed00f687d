//! Sound.
use aabox::channel_id::ChannelId;
use aabox::channels::audio::{
    default_format, direction_of, encode_outbound_frame, handle, interleave, log_path, log_record,
    AudioAction, AudioChannelManager, AudioDirection, AudioFormat, AudioFrame, LogTally,
    MediaInboundDecoder, TestToneSource, AUDIO_MAX_UNACKED, MSG_AV_INPUT_OPEN_REQUEST,
    MSG_AV_INPUT_OPEN_RESPONSE, MSG_AV_MEDIA_ACK_INDICATION, MSG_AV_MEDIA_INDICATION,
    MSG_AV_MEDIA_WITH_TIMESTAMP_INDICATION, MSG_SETUP_REQUEST, MSG_SETUP_RESPONSE,
    MSG_START_INDICATION, MSG_STOP_INDICATION,
};
use aabox::channels::HandleError;
use aabox::proto::enums::AV_CHANNEL_SETUP_STATUS_OK;
use aabox::proto::message::Message;
use aabox::proto::messages::{
    AvChannelSetupRequest, AvChannelSetupResponse, AvChannelStartIndication, AvInputOpenRequest,
    AvInputOpenResponse, AvMediaAckIndication,
};
use bytes::Bytes;

fn setup() -> Vec<u8> {
    AvChannelSetupRequest { config_index: 0 }.encode_to_vec()
}

fn open() -> Vec<u8> {
    AvInputOpenRequest {
        open: true,
        anc: false,
        ec: false,
        max_unacked: 4,
    }
    .encode_to_vec()
}

fn data(ts: u64, pcm: &[u8]) -> Vec<u8> {
    let mut payload = Vec::new();
    payload.extend_from_slice(&ts.to_be_bytes());
    payload.extend_from_slice(pcm);
    payload
}

#[test]
fn setup_request_acks() {
    let buf = setup();
    let out = handle(ChannelId::MediaAudio.code(), MSG_SETUP_REQUEST, &buf).unwrap();
    assert_eq!(out.len(), 1);
    assert_eq!(out[0].message_id, MSG_SETUP_RESPONSE);
    let resp = AvChannelSetupResponse::decode(&out[0].payload[..]).unwrap();
    assert_eq!(resp.media_status, AV_CHANNEL_SETUP_STATUS_OK);
}

#[test]
fn input_open_acks_via_fallback() {
    let buf = open();
    let out = handle(
        ChannelId::SpeechAudio.code(),
        MSG_AV_INPUT_OPEN_REQUEST,
        &buf,
    )
    .unwrap();
    assert_eq!(out.len(), 1);
    assert_eq!(out[0].message_id, MSG_AV_INPUT_OPEN_RESPONSE);
}

#[test]
fn inbound_decoder_strips_timestamp() {
    let fmt = AudioFormat::new(16_000, 2, 16);
    let dec = MediaInboundDecoder::new(fmt);
    let mut payload = Vec::new();
    payload.extend_from_slice(&0x1122_3344_5566_7788_u64.to_be_bytes());
    payload.extend_from_slice(&[0xDE, 0xAD, 0xBE, 0xEF]);
    let frame = dec.decode(&payload, true).unwrap();
    assert_eq!(frame.timestamp_us, 0x1122_3344_5566_7788);
    assert_eq!(&frame.pcm[..], &[0xDE, 0xAD, 0xBE, 0xEF]);
}

#[test]
fn frames_without_timestamps() {
    let dec = MediaInboundDecoder::new(AudioFormat::new(16_000, 2, 16));
    let frame = dec.decode(&[1, 2, 3], false).unwrap();
    assert_eq!(frame.timestamp_us, 0);
    assert_eq!(&frame.pcm[..], &[1, 2, 3]);
    assert_eq!(
        dec.decode(&[1, 2, 3], true).err(),
        Some(HandleError::TimestampMissing)
    );
}

#[test]
fn outbound_encoder_prefixes_timestamp() {
    let frame = AudioFrame {
        timestamp_us: 42,
        pcm: Bytes::from_static(&[1, 2, 3, 4]),
    };
    let msg = encode_outbound_frame(ChannelId::MediaAudio, &frame);
    assert_eq!(msg.channel, ChannelId::MediaAudio.code());
    assert_eq!(msg.message_id, MSG_AV_MEDIA_WITH_TIMESTAMP_INDICATION);
    assert_eq!(msg.payload.len(), 12);
    assert_eq!(u64::from_be_bytes(msg.payload[..8].try_into().unwrap()), 42);
    assert_eq!(&msg.payload[8..], &[1, 2, 3, 4]);
}

#[test]
fn what_is_encoded_is_decoded() {
    let frame = AudioFrame {
        timestamp_us: 77,
        pcm: Bytes::from_static(&[9, 8]),
    };
    let msg = encode_outbound_frame(ChannelId::MediaAudio, &frame);
    let dec = MediaInboundDecoder::new(AudioFormat::new(48_000, 2, 16));
    let back = dec.decode(&msg.payload, true).unwrap();
    assert_eq!(back.timestamp_us, 77);
    assert_eq!(&back.pcm[..], &[9, 8]);
}

#[test]
fn logging_sink_writes_frames() {
    let mut tally = LogTally::new();
    let mut bytes = Vec::new();
    for i in 0..3u64 {
        let frame = AudioFrame {
            timestamp_us: i * 1000,
            pcm: Bytes::from(vec![i as u8; 8]),
        };
        bytes.extend_from_slice(&log_record(&frame));
        tally.count(&frame);
    }
    assert_eq!(tally.frames_written, 3);
    assert_eq!(tally.bytes_written, 24);
    // 3 frames * (12 hdr + 8 payload) = 60.
    assert_eq!(bytes.len(), 60);
    // First frame: timestamp 0, len 8.
    assert_eq!(u64::from_be_bytes(bytes[0..8].try_into().unwrap()), 0);
    assert_eq!(u32::from_be_bytes(bytes[8..12].try_into().unwrap()), 8);
    assert_eq!(u64::from_be_bytes(bytes[20..28].try_into().unwrap()), 1000);
    assert_eq!(&bytes[52..], &[2; 8]);
}

#[test]
fn log_files_are_named_after_channels() {
    assert_eq!(log_path(ChannelId::SpeechAudio), "/data/local/tmp/aabox-audio-speech.bin");
    assert_eq!(
        log_path(ChannelId::SystemAudio),
        "/data/local/tmp/aabox-audio-system.bin"
    );
}

#[test]
fn test_tone_source_emits_pcm_at_format() {
    let fmt = AudioFormat::new(48_000, 2, 16);
    let mut src = TestToneSource::new(fmt)
        .with_frame_size(480) // 10 ms @ 48 kHz
        .with_limit(2);
    let f1 = src.next_frame().unwrap();
    // 480 samples * 2 channels * 2 bytes = 1920 bytes.
    let pcm = interleave(&vec![0x1234; f1.samples as usize], fmt.channels);
    assert_eq!(pcm.len(), 1920);
    assert_eq!(&pcm[..4], &[0x34, 0x12, 0x34, 0x12]);
    let f2 = src.next_frame().unwrap();
    assert!(f2.first_sample >= f1.first_sample);
    assert_eq!(f2.first_sample, 480);
    // Third call hits the limit and yields None.
    assert!(src.next_frame().is_none());
}

#[test]
fn formats_and_directions() {
    assert_eq!(default_format(ChannelId::MediaAudio).unwrap().sample_rate, 48_000);
    assert_eq!(default_format(ChannelId::SpeechAudio).unwrap().sample_rate, 16_000);
    assert_eq!(default_format(ChannelId::SystemAudio).unwrap().sample_rate, 48_000);
    assert!(default_format(ChannelId::Video).is_none());
    assert_eq!(direction_of(ChannelId::MediaAudio), Some(AudioDirection::Output));
    assert_eq!(direction_of(ChannelId::SpeechAudio), Some(AudioDirection::Input));
    assert_eq!(direction_of(ChannelId::Control), None);
    assert_eq!(AudioFormat::new(48_000, 2, 16).bytes_per_sample(), 4);
}

#[test]
fn manager_routes_inbound_data_to_sink() {
    let mut mgr = AudioChannelManager::new();
    let channel = ChannelId::SpeechAudio.code();

    // 1) SETUP_REQUEST.
    let out = mgr.handle(channel, MSG_SETUP_REQUEST, &setup()).unwrap();
    assert_eq!(out.replies.len(), 1);
    assert_eq!(out.replies[0].message_id, MSG_SETUP_RESPONSE);

    // 2) AV_INPUT_OPEN_REQUEST.
    let out = mgr.handle(channel, MSG_AV_INPUT_OPEN_REQUEST, &open()).unwrap();
    assert_eq!(out.replies[0].message_id, MSG_AV_INPUT_OPEN_RESPONSE);

    // 3) A few timestamped data frames.
    let mut frames = Vec::new();
    for ts in [1_000u64, 2_000, 3_000] {
        let payload = data(ts, &[0xAA, 0xBB, 0xCC, 0xDD]);
        let out = mgr
            .handle(channel, MSG_AV_MEDIA_WITH_TIMESTAMP_INDICATION, &payload)
            .unwrap();
        assert_eq!(out.replies.len(), 1, "data frame should produce a media ack");
        assert_eq!(out.replies[0].message_id, MSG_AV_MEDIA_ACK_INDICATION);
        match out.action {
            AudioAction::Push(frame) => frames.push(frame),
            _ => panic!("data frame should go to the sink"),
        }
    }

    assert_eq!(frames.len(), 3);
    assert_eq!(frames[0].timestamp_us, 1_000);
    assert_eq!(&frames[0].pcm[..], &[0xAA, 0xBB, 0xCC, 0xDD]);
    assert_eq!(frames[2].timestamp_us, 3_000);
}

#[test]
fn speech_in_round_trips_setup_open_and_data_frames() {
    let mut mgr = AudioChannelManager::new();
    let channel = ChannelId::SpeechAudio.code();

    // 1) SETUP_REQUEST -> SETUP_RESPONSE
    let out = mgr.handle(channel, MSG_SETUP_REQUEST, &setup()).unwrap();
    assert_eq!(out.replies.len(), 1);
    assert_eq!(out.replies[0].channel, ChannelId::SpeechAudio.code());
    assert_eq!(out.replies[0].message_id, MSG_SETUP_RESPONSE);
    let setup_resp = AvChannelSetupResponse::decode(&out.replies[0].payload[..]).unwrap();
    assert_eq!(setup_resp.max_unacked, 10);

    // 2) AV_INPUT_OPEN_REQUEST -> AV_INPUT_OPEN_RESPONSE (attaches sink)
    let out = mgr.handle(channel, MSG_AV_INPUT_OPEN_REQUEST, &open()).unwrap();
    assert_eq!(out.replies.len(), 1);
    assert_eq!(out.replies[0].message_id, MSG_AV_INPUT_OPEN_RESPONSE);
    let open_resp = AvInputOpenResponse::decode(&out.replies[0].payload[..]).unwrap();
    assert_eq!(open_resp.session, 0);
    assert_eq!(open_resp.value, 0);
    match out.action {
        AudioAction::AttachSink { channel, format } => {
            assert_eq!(channel, ChannelId::SpeechAudio);
            assert_eq!(format.sample_rate, 16_000);
        }
        _ => panic!("opening attaches a sink"),
    }

    // 3) Three AV_MEDIA_WITH_TIMESTAMP frames. Each frame carries an 8-byte
    //    big-endian microsecond timestamp followed by the raw PCM payload.
    let pcm_payloads: Vec<&[u8]> = vec![
        &[0x10, 0x20, 0x30, 0x40, 0x50, 0x60, 0x70, 0x80],
        &[0xAA, 0xBB, 0xCC, 0xDD],
        &[0x11, 0x22, 0x33, 0x44, 0x55, 0x66],
    ];
    for (i, pcm) in pcm_payloads.iter().enumerate() {
        let ts_us = (i as u64 + 1) * 10_000;
        let out = mgr
            .handle(
                channel,
                MSG_AV_MEDIA_WITH_TIMESTAMP_INDICATION,
                &data(ts_us, pcm),
            )
            .unwrap();
        // Each data frame should generate an AV_MEDIA_ACK back to the car.
        assert_eq!(out.replies.len(), 1, "data frame should produce media ack");
        assert_eq!(out.replies[0].message_id, MSG_AV_MEDIA_ACK_INDICATION);
        let ack = AvMediaAckIndication::decode(&out.replies[0].payload[..]).unwrap();
        assert_eq!(ack.value, 1);
        match out.action {
            AudioAction::Push(frame) => {
                assert_eq!(frame.timestamp_us, (i as u64 + 1) * 10_000);
                assert_eq!(&frame.pcm[..], *pcm);
            }
            _ => panic!("data frame should go to the sink"),
        }
    }
}

#[test]
fn system_audio_in_uses_48k_format_and_logs_to_sink() {
    let mut mgr = AudioChannelManager::new();
    let channel = ChannelId::SystemAudio.code();
    mgr.handle(channel, MSG_SETUP_REQUEST, &setup()).unwrap();
    mgr.handle(channel, MSG_AV_INPUT_OPEN_REQUEST, &open()).unwrap();

    // One data frame.
    let out = mgr
        .handle(
            channel,
            MSG_AV_MEDIA_WITH_TIMESTAMP_INDICATION,
            &data(123_456, &[0xCA, 0xFE, 0xBA, 0xBE]),
        )
        .unwrap();
    match out.action {
        AudioAction::Push(frame) => {
            assert_eq!(frame.timestamp_us, 123_456);
            assert_eq!(&frame.pcm[..], &[0xCA, 0xFE, 0xBA, 0xBE]);
        }
        _ => panic!("data frame should go to the sink"),
    }
}

#[test]
fn manager_runs_outbound_encoder_on_start() {
    let mut mgr = AudioChannelManager::new();
    let channel = ChannelId::MediaAudio.code();
    mgr.handle(channel, MSG_SETUP_REQUEST, &setup()).unwrap();

    // START_INDICATION kicks off the encoder.
    let start = AvChannelStartIndication {
        session: 7,
        config: 0,
    }
    .encode_to_vec();
    let out = mgr.handle(channel, MSG_START_INDICATION, &start).unwrap();
    let format = match out.action {
        AudioAction::StartEncoder { channel, format, replace } => {
            assert_eq!(channel, ChannelId::MediaAudio);
            assert!(!replace);
            format
        }
        _ => panic!("an encoder should be started"),
    };

    // 5 frames × 1920 byte PCM payload + 8 byte timestamp each.
    let mut src = TestToneSource::new(format).with_frame_size(480).with_limit(5);
    let mut got = Vec::new();
    while let Some(tone) = src.next_frame() {
        let frame = AudioFrame {
            timestamp_us: tone.first_sample,
            pcm: Bytes::from(interleave(&vec![0; tone.samples as usize], format.channels)),
        };
        let msg = encode_outbound_frame(ChannelId::MediaAudio, &frame);
        assert_eq!(msg.channel, ChannelId::MediaAudio.code());
        assert_eq!(msg.message_id, MSG_AV_MEDIA_WITH_TIMESTAMP_INDICATION);
        assert!(msg.payload.len() >= 8 + 1920);
        got.push(msg);
    }
    assert_eq!(got.len(), 5);

    // A second start replaces the encoder, and a stop ends it.
    let out = mgr.handle(channel, MSG_START_INDICATION, &start).unwrap();
    assert!(matches!(out.action, AudioAction::StartEncoder { replace: true, .. }));
    let out = mgr.handle(channel, MSG_STOP_INDICATION, &[]).unwrap();
    assert!(matches!(
        out.action,
        AudioAction::Stop { end_encoder: true, flush_sink: false }
    ));
}

#[test]
fn closed_channels_drop_what_comes() {
    let mut mgr = AudioChannelManager::new();
    let out = mgr
        .handle(
            ChannelId::SpeechAudio.code(),
            MSG_AV_MEDIA_INDICATION,
            &[1, 2],
        )
        .unwrap();
    assert!(!matches!(out.action, AudioAction::Push(_)));
    // Another channel is not touched.
    mgr.handle(ChannelId::SystemAudio.code(), MSG_AV_INPUT_OPEN_REQUEST, &open())
        .unwrap();
    let out = mgr
        .handle(
            ChannelId::SpeechAudio.code(),
            MSG_AV_MEDIA_INDICATION,
            &[1, 2],
        )
        .unwrap();
    assert!(!matches!(out.action, AudioAction::Push(_)));
}

#[test]
fn unreadable_audio_messages() {
    let mut mgr = AudioChannelManager::new();
    let channel = ChannelId::SpeechAudio.code();
    let bad = [0x08];
    assert_eq!(
        mgr.handle(channel, MSG_SETUP_REQUEST, &bad).err(),
        Some(HandleError::SetupRequest)
    );
    assert_eq!(
        mgr.handle(channel, MSG_START_INDICATION, &bad).err(),
        Some(HandleError::StartIndication)
    );
    assert_eq!(
        mgr.handle(channel, MSG_AV_INPUT_OPEN_REQUEST, &bad).err(),
        Some(HandleError::InputOpenRequest)
    );
    assert_eq!(
        handle(channel, MSG_SETUP_REQUEST, &bad).err(),
        Some(HandleError::SetupRequest)
    );
    assert_eq!(AUDIO_MAX_UNACKED, 10);
}
