//! Input, navigation and sensors.
use aabox::channel_id::{ChannelId, ControlMessageId};
use aabox::channels::input;
use aabox::channels::nav::{
    self, encode_instruction, NavInstruction, MSG_NAVIGATION_DISTANCE_EVENT,
    MSG_NAVIGATION_STATUS, MSG_NAVIGATION_TURN_EVENT,
};
use aabox::channels::sensor::{
    gps_line, SensorHandler, DEFAULT_GPS_LOG_PATH, MSG_SENSOR_EVENT_INDICATION,
    MSG_SENSOR_START_REQUEST, MSG_SENSOR_START_RESPONSE,
};
use aabox::channels::HandleError;
use aabox::proto::data::{DrivingStatus, Gear, GpsLocation, Speed};
use aabox::proto::enums::STATUS_OK;
use aabox::proto::message::Message;
use aabox::proto::messages::{
    BindingRequest, BindingResponse, SensorEventIndication, SensorStartRequestMessage,
    SensorStartResponseMessage,
};

#[test]
fn channel_numbers() {
    for n in 0..=255u8 {
        if let Ok(c) = ChannelId::try_from(n) {
            assert_eq!(c.code(), n);
        } else {
            assert!(n > 9 && n < 255);
        }
    }
    assert_eq!(ChannelId::try_from(3), Ok(ChannelId::Video));
    assert_eq!(ChannelId::try_from(200), Err(200));
}

#[test]
fn message_numbers() {
    for n in 0..=0x20u16 {
        match ControlMessageId::try_from(n) {
            Ok(m) => assert_eq!(m.code(), n),
            Err(e) => {
                assert_eq!(e, n);
                assert!(n == 9 || n == 10 || n > 0x13);
            }
        }
    }
    assert_eq!(ControlMessageId::AudioFocusResponse.code(), 0x0013);
}

#[test]
fn binding_request_acks() {
    let buf = BindingRequest {
        scan_codes: vec![3, 4, 5],
    }
    .encode_to_vec();
    let out = input::handle(input::MSG_BINDING_REQUEST, &buf).unwrap();
    assert_eq!(out.len(), 1);
    assert_eq!(out[0].channel, ChannelId::Input.code());
    assert_eq!(out[0].message_id, input::MSG_BINDING_RESPONSE);
    let resp = BindingResponse::decode(&out[0].payload[..]).unwrap();
    assert_eq!(resp.status, STATUS_OK);
}

#[test]
fn other_input_messages() {
    assert!(input::handle(input::MSG_INPUT_EVENT_INDICATION, &[1]).unwrap().is_empty());
    assert_eq!(
        input::handle(input::MSG_BINDING_REQUEST, &[0x08]).err(),
        Some(HandleError::BindingRequest)
    );
}

#[test]
fn encode_emits_three_messages() {
    let out = encode_instruction(&NavInstruction {
        status_text: "Turn left now".into(),
        turn_id: 3,
        distance_m: 50,
    });
    assert_eq!(out.len(), 3);
    assert_eq!(out[0].message_id, MSG_NAVIGATION_STATUS);
    assert_eq!(out[1].message_id, MSG_NAVIGATION_TURN_EVENT);
    assert_eq!(out[2].message_id, MSG_NAVIGATION_DISTANCE_EVENT);
    // All three go on the nav channel.
    for m in &out {
        assert_eq!(m.channel, ChannelId::Navigation.code());
    }
    // Distance body is the 4-byte BE u32.
    assert_eq!(&out[2].payload[..], &[0, 0, 0, 50]);
    // The status is behind a byte and its length.
    assert_eq!(&out[0].payload[..], b"\x01\x00\x0dTurn left now");
}

#[test]
fn navigation_messages_are_not_answered() {
    assert!(nav::handle(0x8001, &[1, 2]).unwrap().is_empty());
    let ahead = NavInstruction::straight_ahead();
    assert_eq!(ahead.turn_id, 1);
}

#[test]
fn start_request_replies_ok() {
    let h = SensorHandler::default();
    assert_eq!(h.gps_log_path, DEFAULT_GPS_LOG_PATH);
    let buf = SensorStartRequestMessage {
        sensor_type: 1,
        refresh_interval: 1000,
    }
    .encode_to_vec();
    let out = h.handle(MSG_SENSOR_START_REQUEST, &buf).unwrap().replies;
    assert_eq!(out.len(), 1);
    assert_eq!(out[0].channel, ChannelId::Sensor.code());
    assert_eq!(out[0].message_id, MSG_SENSOR_START_RESPONSE);
    let resp = SensorStartResponseMessage::decode(&out[0].payload[..]).unwrap();
    assert_eq!(resp.status, STATUS_OK);
}

#[test]
fn other_sensors_are_read_and_passed_over() {
    let h = SensorHandler::new("gps.log");
    let event = SensorEventIndication {
        gps_location: vec![],
        speed: vec![Speed { speed: 13_410, cruise_engaged: true, cruise_set_speed: false }],
        gear: vec![Gear { gear: 4 }, Gear { gear: 5 }],
        driving_status: vec![DrivingStatus { status: 0 }],
    };
    let buf = event.encode_to_vec();
    assert_eq!(buf[0], 0x1a);
    let read = SensorEventIndication::decode(&buf).unwrap();
    assert_eq!(read.speed, event.speed);
    assert_eq!(read.gear, event.gear);
    assert_eq!(read.driving_status, event.driving_status);
    let step = h.handle(MSG_SENSOR_EVENT_INDICATION, &buf).unwrap();
    assert!(step.replies.is_empty() && step.fixes.is_empty());
    // A speed, a gear and a status that are no messages.
    for bad in [[0x1a, 0x01, 0x08], [0x42, 0x01, 0x08], [0x6a, 0x01, 0x08]] {
        assert_eq!(
            h.handle(MSG_SENSOR_EVENT_INDICATION, &bad).unwrap_err(),
            HandleError::SensorEventIndication
        );
    }
}

#[test]
fn gps_event_writes_log_line() {
    let h = SensorHandler::new("gps.log");
    let buf = SensorEventIndication {
        gps_location: vec![GpsLocation {
            timestamp: 1747440000_000,
            latitude: 38_897_675,    // 3.8897675°
            longitude: -770_365_000, // -77.0365000°
            accuracy: 5000,          // 5 m
            altitude: 50_000,        // 50 m
            speed: 13_410,           // 13.410 m/s
            bearing: 90_000_000,     // 90° E
        }],
        speed: vec![],
        gear: vec![],
        driving_status: vec![],
    }
    .encode_to_vec();
    let step = h.handle(MSG_SENSOR_EVENT_INDICATION, &buf).unwrap();
    assert!(step.replies.is_empty(), "sensor events don't generate replies");
    assert_eq!(step.fixes.len(), 1);
    let bearing = format!("{:.3}", step.fixes[0].bearing as f64 / 1e6);
    let s = gps_line(&step.fixes[0], &bearing);
    assert!(s.contains("\"lat\":3.8897675"), "got: {s}");
    assert!(s.contains("\"lon\":-77.0365000"), "got: {s}");
    assert!(s.contains("\"speed_mps\":13.410"), "got: {s}");
    assert!(s.contains("\"bearing_deg\":90.000"), "got: {s}");
    assert!(s.ends_with('\n'));
}

#[test]
fn small_and_negative_coordinates() {
    let loc = GpsLocation {
        timestamp: 1,
        latitude: -5,
        longitude: 10_000_000,
        accuracy: 1,
        altitude: -1,
        speed: 0,
        bearing: 0,
    };
    let s = gps_line(&loc, "0.000");
    assert!(s.contains("\"lat\":-0.0000005"), "got: {s}");
    assert!(s.contains("\"lon\":1.0000000"), "got: {s}");
    assert!(s.contains("\"speed_mps\":0.000"), "got: {s}");
}

#[test]
fn other_sensor_messages() {
    let h = SensorHandler::default().with_gps_log_path("x");
    assert_eq!(h.gps_log_path, "x");
    assert_eq!(
        h.handle(MSG_SENSOR_START_REQUEST, &[0x08]).err(),
        Some(HandleError::SensorStartRequest)
    );
    assert_eq!(
        h.handle(MSG_SENSOR_EVENT_INDICATION, &[0x08]).err(),
        Some(HandleError::SensorEventIndication)
    );
    let step = h.handle(0x9999, &[]).unwrap();
    assert!(step.replies.is_empty() && step.fixes.is_empty());
}
