//! Frames, and the version handshake.
use aabox::channel_id::{ChannelId, ControlMessageId};
use aabox::control::{
    read_version_request, read_version_response, ssl_handshake_body, ssl_handshake_frame,
    version_request, version_response, ControlError, FrameHead, PROTOCOL_MAJOR, PROTOCOL_MINOR,
};
use aabox::framing::{Frame, FrameType, FLAG_BULK, FLAG_ENCRYPTED, FLAG_FIRST};
use bytes::{BufMut, Bytes, BytesMut};

// ---- Frames -----------------------------------------------------------------

#[test]
fn bulk_roundtrip() {
    let f = Frame::bulk_control(0, 1, &[0xDE, 0xAD, 0xBE, 0xEF]);
    let bytes = f.encode();
    // Header: chan=0, flags=BULK=0x03 (no CONTROL bit), len=6 (msgid 2 + body 4)
    assert_eq!(&bytes[..4], &[0x00, 0x03, 0x00, 0x06]);
    // Payload: msgid 0x0001 + body
    assert_eq!(&bytes[4..], &[0x00, 0x01, 0xDE, 0xAD, 0xBE, 0xEF]);

    let mut buf = BytesMut::from(&bytes[..]);
    let parsed = Frame::parse(&mut buf).unwrap().unwrap();
    assert_eq!(parsed.channel_id, 0);
    assert_eq!(parsed.frame_type, FrameType::Bulk);
    assert!(!parsed.control);
    assert!(!parsed.encrypted);
    assert_eq!(parsed.total_length, None);
    assert_eq!(parsed.payload.len(), 6);
}

#[test]
fn fragmented_first_carries_total_length() {
    let f = Frame {
        channel_id: 3,
        frame_type: FrameType::First,
        control: false,
        encrypted: true,
        total_length: Some(100_000),
        payload: Bytes::from(vec![0xAA; 1024]),
    };
    let bytes = f.encode();
    assert_eq!(bytes[0], 3);
    assert_eq!(bytes[1], FLAG_FIRST | FLAG_ENCRYPTED);
    assert_eq!(u16::from_be_bytes([bytes[2], bytes[3]]), 1024);
    assert_eq!(u32::from_be_bytes([bytes[4], bytes[5], bytes[6], bytes[7]]), 100_000);

    let mut buf = BytesMut::from(&bytes[..]);
    let parsed = Frame::parse(&mut buf).unwrap().unwrap();
    assert_eq!(parsed.total_length, Some(100_000));
    assert_eq!(parsed.payload.len(), 1024);
}

#[test]
fn parse_returns_none_on_partial_header() {
    let mut buf = BytesMut::from(&[0u8, 1u8, 0u8][..]);
    assert!(Frame::parse(&mut buf).unwrap().is_none());
}

#[test]
fn parse_returns_none_on_partial_payload() {
    let mut buf = BytesMut::from(&[0u8, 0x07, 0x00, 0x10, 0xAA, 0xBB][..]);
    assert!(Frame::parse(&mut buf).unwrap().is_none());
}

#[test]
fn frames_follow_one_another() {
    let mut buf = BytesMut::new();
    Frame::bulk_control(1, 7, b"a").encode_into(&mut buf);
    Frame::bulk_control(2, 8, b"bc").encode_into(&mut buf);
    let whole = buf.clone();
    // A part of a frame is left where it is.
    for n in 0..7 {
        let mut part = BytesMut::from(&whole[..n]);
        assert!(Frame::parse(&mut part).unwrap().is_none());
        assert_eq!(part.len(), n);
    }
    let first = Frame::parse(&mut buf).unwrap().unwrap();
    let second = Frame::parse(&mut buf).unwrap().unwrap();
    assert_eq!((first.channel_id, &first.payload[..]), (1, &b"\x00\x07a"[..]));
    assert_eq!((second.channel_id, &second.payload[..]), (2, &b"\x00\x08bc"[..]));
    assert!(buf.is_empty());
}

#[test]
fn frame_types_and_flags() {
    assert_eq!(FrameType::from_flags(0x0b), FrameType::Bulk);
    assert_eq!(FrameType::from_flags(0x08), FrameType::Middle);
    assert_eq!(FrameType::from_flags(0x01), FrameType::First);
    assert_eq!(FrameType::from_flags(0x02), FrameType::Last);
    assert_eq!(FrameType::Bulk.bits(), FLAG_BULK);
}

#[test]
fn frames_are_read_piece_by_piece() {
    let f = Frame {
        channel_id: 9,
        frame_type: FrameType::First,
        control: true,
        encrypted: true,
        total_length: Some(70_000),
        payload: Bytes::from_static(&[5, 6, 7]),
    };
    let bytes = f.encode();
    let head = FrameHead::decode(&bytes[..4]);
    assert!(head.has_total_length());
    assert_eq!(head.payload_len, 3);
    let back = head.complete(&bytes[4..8], bytes[8..].to_vec());
    assert_eq!(back.encode(), bytes);
    let bulk = Frame::bulk_control(0, 1, b"").encode();
    let head = FrameHead::decode(&bulk[..4]);
    assert!(!head.has_total_length());
    assert_eq!(head.complete(&[], bulk[4..].to_vec()).encode(), bulk);
}

// ---- Handshake frames -------------------------------------------------------

#[test]
fn ssl_handshake_frame_shape() {
    let body = b"\x16\x03\x03\x00\x00"; // fake TLS record header
    let f = ssl_handshake_frame(body);
    let bytes = f.encode();
    // First 4 bytes header, then msg id (2 bytes BE), then body
    assert_eq!(bytes[0], 0); // control channel
    assert_eq!(bytes[1] & 0x07, 0x07); // BULK + CONTROL
    assert_eq!(u16::from_be_bytes([bytes[2], bytes[3]]), 7);
    assert_eq!(u16::from_be_bytes([bytes[4], bytes[5]]), 0x0003);
    assert_eq!(&bytes[6..], body);
}

#[test]
fn ssl_handshake_body_extracts() {
    let body = b"\x16\x03\x03\x00\x00";
    let f = ssl_handshake_frame(body);
    let extracted = ssl_handshake_body(&f).unwrap();
    assert_eq!(extracted, body);
}

#[test]
fn ssl_handshake_body_rejects_wrong_msg_id() {
    let f = Frame::bulk_control(
        ChannelId::Control.code(),
        ControlMessageId::VersionRequest.code(),
        b"oops",
    );
    assert!(ssl_handshake_body(&f).is_err());
}

#[test]
fn ssl_handshake_body_rejects_other_frames() {
    let f = Frame::bulk_control(3, 3, b"");
    assert_eq!(ssl_handshake_body(&f), Err(ControlError::NotControl(3)));
    let mut f = ssl_handshake_frame(b"");
    f.payload = Bytes::from_static(&[0]);
    assert_eq!(ssl_handshake_body(&f), Err(ControlError::TooShort(1)));
    f.payload = Bytes::from_static(&[0, 4]);
    assert_eq!(ssl_handshake_body(&f), Err(ControlError::WrongMessage(4)));
    // Without the control flag it is not a control frame.
    f.control = false;
    assert_eq!(ssl_handshake_body(&f), Err(ControlError::NotControl(0)));
}

// ---- The version handshake --------------------------------------------------

/// A frame as it comes off the wire.
fn over_the_wire(f: &Frame) -> Frame {
    let mut buf = BytesMut::from(&f.encode()[..]);
    Frame::parse(&mut buf).unwrap().unwrap()
}

#[test]
fn version_handshake_against_fake_head_unit() {
    // The head unit sees a control-channel BULK frame with VersionRequest.
    let req = over_the_wire(&version_request());
    assert_eq!(req.channel_id, ChannelId::Control.code());
    assert_eq!(req.frame_type, FrameType::Bulk);
    assert!(!req.control);
    let msg_id = u16::from_be_bytes([req.payload[0], req.payload[1]]);
    assert_eq!(msg_id, ControlMessageId::VersionRequest.code());
    let req_major = u16::from_be_bytes([req.payload[2], req.payload[3]]);
    let req_minor = u16::from_be_bytes([req.payload[4], req.payload[5]]);
    assert_eq!(req_major, PROTOCOL_MAJOR);
    assert_eq!(req_minor, PROTOCOL_MINOR);

    // It answers with a VersionResponse with the same version and status 0.
    let mut body = BytesMut::with_capacity(6);
    body.put_u16(PROTOCOL_MAJOR);
    body.put_u16(PROTOCOL_MINOR);
    body.put_u16(0);
    let resp = Frame::bulk_control(
        ChannelId::Control.code(),
        ControlMessageId::VersionResponse.code(),
        &body,
    );
    let (major, minor, status) = read_version_response(&over_the_wire(&resp)).unwrap();
    assert_eq!(major, PROTOCOL_MAJOR);
    assert_eq!(minor, PROTOCOL_MINOR);
    assert_eq!(status, 0);
}

#[test]
fn version_handshake_responder_accepts_external_initiator() {
    let mut body = BytesMut::with_capacity(4);
    body.put_u16(PROTOCOL_MAJOR);
    body.put_u16(PROTOCOL_MINOR);
    let req = Frame::bulk_control(
        ChannelId::Control.code(),
        ControlMessageId::VersionRequest.code(),
        &body,
    );
    let (peer_major, peer_minor) = read_version_request(&over_the_wire(&req)).unwrap();
    assert_eq!(peer_major, PROTOCOL_MAJOR);
    assert_eq!(peer_minor, PROTOCOL_MINOR);

    let resp = over_the_wire(&version_response());
    assert_eq!(resp.channel_id, ChannelId::Control.code());
    let msg_id = u16::from_be_bytes([resp.payload[0], resp.payload[1]]);
    assert_eq!(msg_id, ControlMessageId::VersionResponse.code());
    let major = u16::from_be_bytes([resp.payload[2], resp.payload[3]]);
    let minor = u16::from_be_bytes([resp.payload[4], resp.payload[5]]);
    assert_eq!((major, minor), (PROTOCOL_MAJOR, PROTOCOL_MINOR));
}

#[test]
fn two_of_a_kind_agree() {
    let us = (PROTOCOL_MAJOR, PROTOCOL_MINOR);
    assert_eq!(read_version_request(&over_the_wire(&version_request())), Ok(us));
    assert_eq!(
        read_version_response(&over_the_wire(&version_response())),
        Ok((us.0, us.1, 0))
    );
}

#[test]
fn copies_of_frames_are_equal() {
    let f = Frame::bulk_control(4, 0x0102, &[7, 8]);
    let copy = f.clone();
    assert_eq!(copy.encode(), f.encode());
    assert_eq!(&copy.payload[..], &[1, 2, 7, 8]);
}

#[test]
fn version_messages_that_are_refused() {
    let other = Frame::bulk_control(0, 5, &[0, 1, 0, 7]);
    assert_eq!(
        read_version_request(&other),
        Err(ControlError::WrongMessage(5))
    );
    let short = Frame::bulk_control(0, 1, &[0, 1]);
    assert_eq!(read_version_request(&short), Err(ControlError::TooShort(4)));
}
