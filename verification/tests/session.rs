//! The session behind the handshake.
use aabox::channel_id::{ChannelId, ControlMessageId};
use aabox::channels::audio::AudioAction;
use aabox::channels::nav::NavInstruction;
use aabox::channels::sensor::SensorHandler;
use aabox::channels::{HandleError, OutboundMessage};
use aabox::control_channel::{
    check_auth_complete, classify_channel, dispatch, dispatch_control, fragments, frame_for,
    nav_mode, open_channels, service_discovery_request, setup_message_for, should_open, AuthError,
    Event, NavMode, Outcome, ServiceKind, Session, MAX_FRAGMENT_PLAINTEXT,
};
use aabox::framing::FrameType;
use aabox::proto::data::GpsLocation;
use aabox::proto::enums::{
    AUDIO_FOCUS_STATE_GAIN, AUDIO_FOCUS_TYPE_GAIN, AV_CHANNEL_SETUP_STATUS_OK, STATUS_OK,
};
use aabox::proto::message::Message;
use aabox::proto::messages::{
    AudioFocusRequest, AudioFocusResponse, AuthCompleteIndication, AvChannelSetupRequest,
    AvChannelSetupResponse, AvChannelStartIndication, BindingRequest, ChannelOpenRequest,
    ChannelOpenResponse,
    NavigationFocusRequest, NavigationFocusResponse, PingRequest, PingResponse,
    SensorEventIndication, ServiceDiscoveryRequest, ServiceDiscoveryResponse,
};
use aabox::services;

fn empty_sensor() -> SensorHandler {
    SensorHandler::new("aabox-test-gps-unused.log")
}

fn control(id: ControlMessageId, body: &[u8]) -> Vec<OutboundMessage> {
    let sdr = services::full_response();
    dispatch(
        ChannelId::Control.code(),
        id.code(),
        body,
        &sdr,
        &empty_sensor(),
    )
    .unwrap()
    .replies
}

// ---- Control messages -------------------------------------------------------

#[test]
fn ping_request_echoes_timestamp() {
    let body = PingRequest { timestamp: 12345 }.encode_to_vec();
    let outs = control(ControlMessageId::PingRequest, &body);
    assert_eq!(outs.len(), 1);
    assert_eq!(outs[0].message_id, ControlMessageId::PingResponse.code());
    let resp = PingResponse::decode(&outs[0].payload[..]).unwrap();
    assert_eq!(resp.timestamp, 12345);
}

#[test]
fn service_discovery_response_triggers_channel_open_requests() {
    // When the head unit lists its channels, we issue a ChannelOpenRequest for every
    // classifiable projection channel. Our own full_response() carries the canonical
    // descriptor mix: sensor, video, input, audio, av_input, navigation.
    let body = services::full_response().encode_to_vec();
    let outs = control(ControlMessageId::ServiceDiscoveryResponse, &body);
    assert!(
        !outs.is_empty(),
        "expected at least one ChannelOpenRequest"
    );
    let opens: Vec<_> = outs
        .iter()
        .filter(|o| o.message_id == ControlMessageId::ChannelOpenRequest.code())
        .collect();
    for out in &opens {
        let parsed = ChannelOpenRequest::decode(&out.payload[..]).unwrap();
        // Every channel ID in full_response() is positive, and the open is
        // addressed to the service channel itself (not Control).
        assert!(parsed.channel_id > 0);
        assert_eq!(out.channel as i32, parsed.channel_id);
    }
    assert!(opens.len() >= 6, "got {} opens", opens.len());
    // Beyond opens, the handler also emits:
    //   - control-channel proactive status: BatteryStatusNotification (0x0017) and
    //     CallAvailabilityStatus (0x0018).
    //   - per-service Setup on service channels (msg ids 0x8000+)
    let setups: Vec<_> = outs
        .iter()
        .filter(|o| o.message_id != ControlMessageId::ChannelOpenRequest.code())
        .collect();
    assert!(!setups.is_empty(), "expected at least one Setup message");
    let mut svc_setups = 0;
    let mut ctrl_msgs = 0;
    for s in &setups {
        if s.channel == ChannelId::Control.code() {
            ctrl_msgs += 1;
        } else {
            svc_setups += 1;
            assert!(
                s.message_id >= 0x8000,
                "service-channel setup has unexpected msg {:#x}",
                s.message_id
            );
        }
    }
    assert!(svc_setups > 0, "expected per-service Setup msgs");
    assert!(ctrl_msgs >= 2, "expected ≥2 control msgs, got {}", ctrl_msgs);
}

#[test]
fn channel_open_request_acks_ok() {
    let body = ChannelOpenRequest {
        priority: 0,
        channel_id: ChannelId::Video.code() as i32,
    }
    .encode_to_vec();
    let outs = control(ControlMessageId::ChannelOpenRequest, &body);
    assert_eq!(outs.len(), 1);
    let resp = ChannelOpenResponse::decode(&outs[0].payload[..]).unwrap();
    assert_eq!(resp.status, STATUS_OK);
}

#[test]
fn audio_focus_request_replies_gain() {
    let body = AudioFocusRequest {
        audio_focus_type: AUDIO_FOCUS_TYPE_GAIN,
    }
    .encode_to_vec();
    let outs = control(ControlMessageId::AudioFocusRequest, &body);
    assert_eq!(outs.len(), 1);
    let resp = AudioFocusResponse::decode(&outs[0].payload[..]).unwrap();
    assert_eq!(resp.audio_focus_state, AUDIO_FOCUS_STATE_GAIN);
}

#[test]
fn navigation_focus_request_replies_native() {
    let body = NavigationFocusRequest { focus_type: 0 }.encode_to_vec();
    let outs = control(ControlMessageId::NavigationFocusRequest, &body);
    assert_eq!(outs.len(), 1);
    let resp = NavigationFocusResponse::decode(&outs[0].payload[..]).unwrap();
    assert_eq!(resp.focus_type, 1);
}

#[test]
fn voice_session_request_silent() {
    let outs = control(ControlMessageId::VoiceSessionRequest, &[]);
    assert!(outs.is_empty());
}

#[test]
fn head_units_that_ask_get_the_offer() {
    let body = service_discovery_request().payload;
    let outs = control(ControlMessageId::ServiceDiscoveryRequest, &body);
    assert_eq!(outs.len(), 1);
    assert_eq!(outs[0].channel, ChannelId::Control.code());
    assert_eq!(outs[0].message_id, ControlMessageId::ServiceDiscoveryResponse.code());
    let sdr = ServiceDiscoveryResponse::decode(&outs[0].payload[..]).unwrap();
    assert_eq!(sdr.head_unit_name, "AABox");
    assert!(sdr.channels.len() >= 6);
    assert!(control(ControlMessageId::ServiceDiscoveryRequest, &[0x08]).is_empty());
}

#[test]
fn answers_to_own_requests_are_not_answered() {
    let mut s = session();
    for (channel, id) in [(3, 0x0008), (9, 0x00ff), (1, 0x8003), (2, 0x8002), (0, 0x0013)] {
        let step = s.handle_frame(channel, &plain(id, &[])).unwrap();
        assert!(step.replies.is_empty() && step.start.is_none() && step.fixes.is_empty());
    }
}

#[test]
fn shutdown_is_answered() {
    let outs = control(ControlMessageId::ShutdownRequest, &[]);
    assert_eq!(outs.len(), 1);
    assert_eq!(outs[0].message_id, ControlMessageId::ShutdownResponse.code());
    assert!(outs[0].payload.is_empty());
}

#[test]
fn unknown_control_messages_are_not_answered() {
    let sdr = services::full_response();
    assert!(dispatch_control(0x7777, &[1, 2], &sdr).unwrap().is_empty());
}

#[test]
fn unreadable_control_messages() {
    let bad = [0x08];
    let sdr = services::full_response();
    for (id, error) in [
        (ControlMessageId::PingRequest, HandleError::PingRequest),
        (ControlMessageId::AudioFocusRequest, HandleError::AudioFocusRequest),
        (ControlMessageId::ChannelOpenRequest, HandleError::ChannelOpenRequest),
        (ControlMessageId::ChannelOpenResponse, HandleError::ChannelOpenResponse),
    ] {
        assert_eq!(dispatch_control(id.code(), &bad, &sdr).err(), Some(error));
    }
}

// ---- The opening ------------------------------------------------------------

#[test]
fn head_units_say_when_they_agree() {
    let ok = [&[0u8, 4][..], &AuthCompleteIndication { status: 0 }.encode_to_vec()].concat();
    assert_eq!(check_auth_complete(&ok), Ok(()));
    let no = [&[0u8, 4][..], &AuthCompleteIndication { status: -3 }.encode_to_vec()].concat();
    assert_eq!(check_auth_complete(&no), Err(AuthError::Refused(-3)));
    assert_eq!(check_auth_complete(&[0]), Err(AuthError::TooShort(1)));
    assert_eq!(check_auth_complete(&[0, 5]), Err(AuthError::WrongMessage(5)));
    assert_eq!(check_auth_complete(&[0, 4, 8]), Err(AuthError::Undecodable));
}

#[test]
fn service_discovery_request_names_the_phone() {
    let m = service_discovery_request();
    assert_eq!(m.channel, 0);
    assert_eq!(m.message_id, ControlMessageId::ServiceDiscoveryRequest.code());
    let sdr = ServiceDiscoveryRequest::decode(&m.payload).unwrap();
    assert!(!sdr.device_name.is_empty());
    assert!(sdr.phone_info.is_some());
}

#[test]
fn where_directions_come_from() {
    assert_eq!(nav_mode(true, true), NavMode::Source);
    assert_eq!(nav_mode(true, false), NavMode::Source);
    assert_eq!(nav_mode(false, true), NavMode::Demo);
    assert_eq!(nav_mode(false, false), NavMode::Silent);
}

// ---- Channels ---------------------------------------------------------------

#[test]
fn channels_are_told_apart() {
    let offer = services::full_response();
    let kinds: Vec<ServiceKind> = offer.channels.iter().map(classify_channel).collect();
    assert!(kinds.contains(&ServiceKind::Sensor));
    assert!(kinds.contains(&ServiceKind::Video));
    assert!(kinds.contains(&ServiceKind::Input));
    assert!(kinds.contains(&ServiceKind::AudioMedia));
    assert!(kinds.contains(&ServiceKind::AvInput));
    assert!(kinds.contains(&ServiceKind::Navigation));
    assert!(should_open(ServiceKind::Video));
    assert!(!should_open(ServiceKind::Unknown));
}

#[test]
fn open_requests_name_their_channel() {
    let outs = open_channels(&services::minimal_response());
    let opens: Vec<i32> = outs
        .iter()
        .filter(|o| o.message_id == ControlMessageId::ChannelOpenRequest.code())
        .map(|o| {
            let req = ChannelOpenRequest::decode(&o.payload).unwrap();
            assert_eq!(req.channel_id, o.channel as i32);
            req.channel_id
        })
        .collect();
    assert_eq!(opens, vec![2, 3]);
}

#[test]
fn video_is_set_up() {
    let m = setup_message_for(3, ServiceKind::Video).unwrap();
    assert_eq!(m.channel, 3);
    assert_eq!(m.message_id, 0x8000);
    assert!(setup_message_for(3, ServiceKind::Unknown).is_none());
}

// ---- Fragments --------------------------------------------------------------

#[test]
fn long_messages_are_cut() {
    let body: Vec<u8> = (0..20_000u32).map(|i| i as u8).collect();
    let m = OutboundMessage::of_vec(3, 0x0000, body.clone());
    let parts = fragments(&m);
    assert_eq!(parts.len(), 3);
    assert_eq!(parts[0].len(), MAX_FRAGMENT_PLAINTEXT);
    assert_eq!(parts.concat(), [&[0u8, 0][..], &body[..]].concat());
    let frames: Vec<_> = (0..3).map(|k| frame_for(&m, k, 3, parts[k].clone())).collect();
    assert_eq!(frames[0].frame_type, FrameType::First);
    assert_eq!(frames[0].total_length, Some(20_002));
    assert_eq!(frames[1].frame_type, FrameType::Middle);
    assert_eq!(frames[1].total_length, None);
    assert_eq!(frames[2].frame_type, FrameType::Last);
    assert!(frames.iter().all(|f| f.encrypted && !f.control && f.channel_id == 3));
}

#[test]
fn short_messages_are_one_frame() {
    let m = OutboundMessage::of_vec(3, 0x0007, vec![1]);
    let parts = fragments(&m);
    assert_eq!(parts, vec![vec![0, 7, 1]]);
    let f = frame_for(&m, 0, 1, vec![9]);
    assert_eq!(f.frame_type, FrameType::Bulk);
    // An open request to a service is marked as control.
    assert!(f.control);
    let m = OutboundMessage::of_vec(0, 0x0007, vec![1]);
    assert!(!frame_for(&m, 0, 1, vec![9]).control);
}

// ---- Sessions ---------------------------------------------------------------

fn session() -> Session {
    Session::new(empty_sensor(), services::full_response())
}

fn plain(id: u16, body: &[u8]) -> Vec<u8> {
    [&id.to_be_bytes()[..], body].concat()
}

#[test]
fn session_answers_what_comes() {
    let mut s = session();
    // A ping on the control channel.
    let ping = plain(0x000b, &PingRequest { timestamp: 0x1122_3344_5566_7788 }.encode_to_vec());
    let step = s.handle_frame(0, &ping).unwrap();
    assert_eq!(step.replies.len(), 1);
    let resp = PingResponse::decode(&step.replies[0].payload[..]).unwrap();
    assert_eq!(resp.timestamp, 0x1122_3344_5566_7788);
    // A setup on the video channel.
    let setup = plain(0x8000, &AvChannelSetupRequest { config_index: 0 }.encode_to_vec());
    let step = s.handle_frame(3, &setup).unwrap();
    let resp = AvChannelSetupResponse::decode(&step.replies[0].payload[..]).unwrap();
    assert_eq!(resp.media_status, AV_CHANNEL_SETUP_STATUS_OK);
    assert_eq!(resp.max_unacked, 10);
    // A start there starts a streamer.
    let start = plain(
        0x8001,
        &AvChannelStartIndication { session: 5, config: 1 }.encode_to_vec(),
    );
    let step = s.handle_frame(3, &start).unwrap();
    assert!(step.start.is_some());
    assert_eq!(s.video.session_id(), 5);
    // A position on the sensor channel.
    let gps = plain(
        0x8003,
        &SensorEventIndication {
            gps_location: vec![GpsLocation {
                timestamp: 1,
                latitude: 388_976_750,
                longitude: -770_365_000,
                accuracy: 5_000,
                altitude: 50_000,
                speed: 13_410,
                bearing: 90_000_000,
            }],
            speed: vec![],
            gear: vec![],
            driving_status: vec![],
        }
        .encode_to_vec(),
    );
    let step = s.handle_frame(2, &gps).unwrap();
    assert!(step.replies.is_empty());
    assert_eq!(step.fixes.len(), 1);
    assert_eq!(step.fixes[0].latitude, 388_976_750);
    assert!(matches!(step.audio, AudioAction::Nothing));
}

#[test]
fn session_takes_sound() {
    let mut s = session();
    let setup = plain(0x8000, &AvChannelSetupRequest { config_index: 0 }.encode_to_vec());
    let step = s.handle_frame(4, &setup).unwrap();
    assert_eq!(step.replies[0].message_id, 0x8003);
    let start = plain(
        0x8001,
        &AvChannelStartIndication { session: 1, config: 0 }.encode_to_vec(),
    );
    let step = s.handle_frame(4, &start).unwrap();
    assert!(matches!(step.audio, AudioAction::StartEncoder { .. }));
}

#[test]
fn focus_on_video_starts_a_stream() {
    let mut s = session();
    let generation = s.video.generation;
    let step = s.handle_frame(13, &plain(0x8008, &[])).unwrap();
    assert!(step.start.is_some());
    assert_eq!(s.video.wire_channel(), 13);
    assert_ne!(s.video.generation, generation);
}

#[test]
fn stops_elsewhere_do_not_stop_the_stream() {
    let mut s = session();
    s.handle_frame(13, &plain(0x8008, &[])).unwrap();
    let generation = s.video.generation;
    s.handle_frame(2, &plain(0x8002, &[])).unwrap();
    s.handle_frame(1, &plain(0x8002, &BindingRequest { scan_codes: vec![] }.encode_to_vec()))
        .unwrap();
    assert_eq!(s.video.generation, generation);
    // On its own channel a stop counts.
    s.handle_frame(13, &plain(0x8002, &[])).unwrap();
    assert_ne!(s.video.generation, generation);
}

#[test]
fn acknowledgements_make_room() {
    let mut s = session();
    s.handle_frame(13, &plain(0x8008, &[])).unwrap();
    s.video.frame_sent();
    s.video.frame_sent();
    s.handle_frame(13, &plain(0x8004, &[])).unwrap();
    assert_eq!(s.video.in_flight, 1);
    assert!(s.video.in_flight <= s.video.max_in_flight);
}

#[test]
fn session_events() {
    let mut s = session();
    assert!(matches!(s.on_event(Event::Closed), Outcome::End));
    assert!(matches!(s.on_event(Event::Garbled), Outcome::Skipped));
    match s.on_event(Event::Plain { channel: 0, bytes: vec![0] }) {
        Outcome::Ignored(e) => assert_eq!(e, HandleError::MessageIdMissing),
        _ => panic!("a frame without a message's number is ignored"),
    }
    match s.on_event(Event::Instruction(NavInstruction::straight_ahead())) {
        Outcome::Go(step) => assert_eq!(step.replies.len(), 3),
        _ => panic!("an instruction is sent"),
    }
    match s.on_event(Event::Media(OutboundMessage::of_vec(4, 0, vec![1]))) {
        Outcome::Go(step) => {
            assert_eq!(step.replies.len(), 1);
            assert_eq!(&step.replies[0].payload[..], &[1]);
        }
        _ => panic!("media is sent"),
    }
    let ping = plain(0x000b, &PingRequest { timestamp: 1 }.encode_to_vec());
    match s.on_event(Event::Plain { channel: 0, bytes: ping }) {
        Outcome::Go(step) => assert_eq!(step.replies[0].message_id, 0x000c),
        _ => panic!("a ping is answered"),
    }
}

#[test]
fn the_own_offer_reads_back() {
    let bytes = services::encode_response(&services::full_response());
    let back = ServiceDiscoveryResponse::decode(&bytes).unwrap();
    assert_eq!(services::encode_response(&back), bytes);
}
