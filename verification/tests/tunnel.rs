//! TLS through frames.
use std::sync::Arc;

use aabox::channel_id::{ChannelId, ControlMessageId};
use aabox::channels::OutboundMessage;
use aabox::control::ControlError;
use aabox::control_channel::{open_frame, seal};
use aabox::encrypted::{
    after_give, after_read, decrypt_payload, drain_plaintext, drain_records, encrypt_payload, feed,
    PlainRead, TunnelError,
};
use aabox::framing::{Frame, FrameType, FLAG_BULK, FLAG_ENCRYPTED};
use aabox::proto::message::Message;
use aabox::proto::messages::ServiceDiscoveryResponse;
use aabox::services;
use aabox::tls_tunnel::{next_step, receive, take_flight, HandshakeError, HandshakeStep, Role};
use bytes::{Bytes, BytesMut};
use rustls::client::danger::{HandshakeSignatureValid, ServerCertVerified, ServerCertVerifier};
use rustls::pki_types::{CertificateDer, PrivateKeyDer, PrivatePkcs8KeyDer, ServerName, UnixTime};
use rustls::{
    ClientConfig, ClientConnection, Connection, DigitallySignedStruct, ServerConfig,
    ServerConnection, SignatureScheme,
};

#[derive(Debug)]
struct NoVerification;

impl ServerCertVerifier for NoVerification {
    fn verify_server_cert(
        &self,
        _end_entity: &CertificateDer<'_>,
        _intermediates: &[CertificateDer<'_>],
        _server_name: &ServerName<'_>,
        _ocsp_response: &[u8],
        _now: UnixTime,
    ) -> Result<ServerCertVerified, rustls::Error> {
        Ok(ServerCertVerified::assertion())
    }

    fn verify_tls12_signature(
        &self,
        _message: &[u8],
        _cert: &CertificateDer<'_>,
        _dss: &DigitallySignedStruct,
    ) -> Result<HandshakeSignatureValid, rustls::Error> {
        Ok(HandshakeSignatureValid::assertion())
    }

    fn verify_tls13_signature(
        &self,
        _message: &[u8],
        _cert: &CertificateDer<'_>,
        _dss: &DigitallySignedStruct,
    ) -> Result<HandshakeSignatureValid, rustls::Error> {
        Ok(HandshakeSignatureValid::assertion())
    }

    fn supported_verify_schemes(&self) -> Vec<SignatureScheme> {
        vec![SignatureScheme::ECDSA_NISTP256_SHA256]
    }
}

fn pair() -> (Connection, Connection) {
    let provider = Arc::new(rustls::crypto::ring::default_provider());
    let cert = CertificateDer::from(EC_CERT.to_vec());
    let key = PrivateKeyDer::Pkcs8(PrivatePkcs8KeyDer::from(EC_KEY.to_vec()));
    let server_cfg = ServerConfig::builder_with_provider(Arc::clone(&provider))
        .with_protocol_versions(&[&rustls::version::TLS12])
        .unwrap()
        .with_no_client_auth()
        .with_single_cert(vec![cert], key)
        .unwrap();
    let client_cfg = ClientConfig::builder_with_provider(provider)
        .with_protocol_versions(&[&rustls::version::TLS12])
        .unwrap()
        .dangerous()
        .with_custom_certificate_verifier(Arc::new(NoVerification))
        .with_no_client_auth();
    let name = ServerName::try_from("android.car").unwrap().to_owned();
    let client = ClientConnection::new(Arc::new(client_cfg), name).unwrap();
    let server = ServerConnection::new(Arc::new(server_cfg)).unwrap();
    (Connection::Client(client), Connection::Server(server))
}

/// A frame as it comes off the wire.
fn over_the_wire(f: &Frame) -> Frame {
    let mut buf = BytesMut::from(&f.encode()[..]);
    Frame::parse(&mut buf).unwrap().unwrap()
}

/// Lets one side go on until it waits for a frame that has not come.
fn advance(
    role: Role,
    conn: &mut Connection,
    sending: &mut bool,
    inbox: &mut Vec<Frame>,
    outbox: &mut Vec<Frame>,
) -> bool {
    loop {
        let (step, next) = next_step(role, *sending, conn.is_handshaking(), conn.wants_write());
        match step {
            HandshakeStep::Done => return true,
            HandshakeStep::Send => {
                if let Some(frame) = take_flight(conn).unwrap() {
                    outbox.push(over_the_wire(&frame));
                }
            }
            HandshakeStep::Receive => {
                if inbox.is_empty() {
                    return false;
                }
                receive(conn, &inbox.remove(0)).unwrap();
            }
        }
        *sending = next;
    }
}

fn handshaken() -> (Connection, Connection) {
    let (mut client, mut server) = pair();
    let (mut to_client, mut to_server) = (Vec::new(), Vec::new());
    let (mut c, mut s) = (false, false);
    for _ in 0..10 {
        let a = advance(Role::Client, &mut client, &mut c, &mut to_client, &mut to_server);
        let b = advance(Role::Server, &mut server, &mut s, &mut to_server, &mut to_client);
        if a && b {
            return (client, server);
        }
    }
    panic!("the handshake does not end");
}

#[test]
fn tls_over_aap_handshake_round_trip() {
    let (client, server) = handshaken();
    assert!(!server.is_handshaking(), "server still handshaking");
    assert!(!client.is_handshaking(), "client still handshaking");
}

#[test]
fn full_handshake_then_encrypted_sdr() {
    let (mut cln, mut srv) = handshaken();

    // Build SDR + msg-id prefix, encrypt, send as a single AAP frame
    let sdr = services::minimal_response();
    let body = services::encode_response(&sdr);
    let id = ControlMessageId::ServiceDiscoveryResponse.code();
    let plaintext = [&id.to_be_bytes()[..], &body[..]].concat();
    let ciphertext = encrypt_payload(&mut cln, &plaintext).unwrap();
    assert!(!ciphertext.is_empty());
    assert_ne!(ciphertext, plaintext);

    let frame = Frame {
        channel_id: ChannelId::Control.code(),
        frame_type: FrameType::Bulk,
        control: false,
        encrypted: true,
        total_length: None,
        payload: Bytes::from(ciphertext),
    };
    // Encoded flags byte should be BULK | ENCRYPTED (no CONTROL bit).
    let encoded = frame.encode();
    assert_eq!(encoded[1], FLAG_BULK | FLAG_ENCRYPTED);

    // Receive the encrypted SDR frame from client
    let frame = over_the_wire(&frame);
    assert_eq!(frame.channel_id, ChannelId::Control.code());
    assert!(frame.encrypted);
    let plaintext = decrypt_payload(&mut srv, &frame.payload).unwrap();

    // Plaintext layout: [u16 msg id BE][protobuf ServiceDiscoveryResponse]
    let msg_id = u16::from_be_bytes([plaintext[0], plaintext[1]]);
    assert_eq!(msg_id, ControlMessageId::ServiceDiscoveryResponse.code());
    let sdr = ServiceDiscoveryResponse::decode(&plaintext[2..]).unwrap();
    assert_eq!(sdr.head_unit_name, "AABox");
    assert_eq!(sdr.channels.len(), 2);
}

#[test]
fn sealed_messages_are_opened() {
    let (mut client, mut server) = handshaken();
    let body: Vec<u8> = (0..30_000u32).map(|i| (i / 7) as u8).collect();
    let frames = seal(&mut server, &OutboundMessage::of_vec(3, 0x0001, body.clone())).unwrap();
    assert_eq!(frames.len(), 4);
    let mut plain = Vec::new();
    for f in &frames {
        plain.extend(open_frame(&mut client, &over_the_wire(f)).unwrap());
    }
    assert_eq!(&plain[..2], &[0, 1]);
    assert_eq!(&plain[2..], &body[..]);
    // What is not encrypted is taken as it is.
    let bare = Frame::bulk_control(0, 4, &[8, 0]);
    assert_eq!(open_frame(&mut client, &bare).unwrap(), vec![0, 4, 8, 0]);
}

#[test]
fn nothing_waits_after_it_was_drained() {
    let (mut client, _) = pair();
    let hello = drain_records(&mut client).unwrap();
    assert_eq!(hello[0], 0x16);
    assert!(drain_records(&mut client).unwrap().is_empty());
    assert!(take_flight(&mut client).unwrap().is_none());
}

#[test]
fn what_does_not_fit_the_buffers_is_refused() {
    let (_, mut server) = handshaken();
    server.set_buffer_limit(Some(16));
    assert_eq!(encrypt_payload(&mut server, &[0u8; 17]), Err(TunnelError::Write));
    drain_records(&mut server).unwrap();
    assert!(!encrypt_payload(&mut server, &[0u8; 16]).unwrap().is_empty());
    server.set_buffer_limit(Some(0));
    assert_eq!(encrypt_payload(&mut server, &[7]), Err(TunnelError::Write));
    assert_eq!(encrypt_payload(&mut server, &[]), Ok(Vec::new()));
    let long = OutboundMessage::of_vec(3, 0x0001, vec![0; 30_000]);
    let short = OutboundMessage::of_vec(3, 0x0001, vec![]);
    assert!(matches!(seal(&mut server, &long), Err(TunnelError::Write)));
    assert!(matches!(seal(&mut server, &short), Err(TunnelError::Write)));
    server.set_buffer_limit(Some(2));
    assert_eq!(seal(&mut server, &short).unwrap().len(), 1);
}

#[test]
fn records_are_taken_piece_by_piece() {
    assert_eq!(after_give(3, 10, Ok(4)), Ok(7));
    assert_eq!(after_give(3, 10, Ok(0)), Err(TunnelError::GiveRecords));
    assert_eq!(after_give(0, 10, Err(TunnelError::Process)), Err(TunnelError::Process));
    // A frame whose records do not fit the buffers all at once.
    let (mut client, mut server) = handshaken();
    let sent = encrypt_payload(&mut server, &[9u8; 12_000]).unwrap();
    assert_eq!(decrypt_payload(&mut client, &sent).unwrap(), vec![9u8; 12_000]);
    // More than that is not taken before it is processed.
    let mut much = Vec::new();
    for _ in 0..3 {
        much.extend(encrypt_payload(&mut server, &[9u8; 12_000]).unwrap());
    }
    assert_eq!(decrypt_payload(&mut client, &much), Err(TunnelError::GiveRecords));
}

#[test]
fn reads_are_collected() {
    let mut out = vec![1u8];
    assert_eq!(after_read(&mut out, &[2, 3, 4], PlainRead::Taken(2)), Ok(true));
    assert_eq!(out, vec![1, 2, 3]);
    assert_eq!(after_read(&mut out, &[2, 3, 4], PlainRead::Taken(0)), Ok(false));
    assert_eq!(after_read(&mut out, &[2, 3, 4], PlainRead::Empty), Ok(false));
    assert_eq!(
        after_read(&mut out, &[2, 3, 4], PlainRead::Broken),
        Err(TunnelError::Read)
    );
    assert_eq!(out, vec![1, 2, 3]);
}

#[test]
fn a_connection_that_was_cut_off_is_not_read() {
    let (mut client, mut server) = handshaken();
    let sent = encrypt_payload(&mut server, b"last words").unwrap();
    assert_eq!(client.read_tls(&mut &b""[..]).unwrap(), 0);
    assert_eq!(decrypt_payload(&mut client, &sent), Err(TunnelError::Read));
    let mut f = Frame::bulk_control(0, 4, &[8, 0]);
    assert_eq!(open_frame(&mut client, &f).unwrap(), vec![0, 4, 8, 0]);
    f.encrypted = true;
    f.payload = Bytes::new();
    assert_eq!(open_frame(&mut client, &f), Err(TunnelError::Read));
}

#[test]
fn foreign_frames_and_records_are_refused() {
    let (mut client, mut server) = pair();
    let other = Frame::bulk_control(0, 1, b"\x00\x01\x00\x07");
    assert_eq!(
        receive(&mut server, &other),
        Err(HandshakeError::Frame(ControlError::NotControl(0)))
    );
    let junk = aabox::control::ssl_handshake_frame(b"\xff\xff\xff\xff\xff\xff\xff\xff");
    assert_eq!(
        receive(&mut client, &junk),
        Err(HandshakeError::Tunnel(TunnelError::Process))
    );
}

#[test]
fn a_fatal_error_stays() {
    let (mut client, mut server) = handshaken();
    let sent = encrypt_payload(&mut server, b"too late").unwrap();
    let junk = [0x17, 0x03, 0x03, 0x00, 0x02, 0xab, 0xcd];
    assert_eq!(decrypt_payload(&mut client, &junk), Err(TunnelError::Process));
    assert_eq!(decrypt_payload(&mut client, &sent), Err(TunnelError::Process));
    assert_eq!(encrypt_payload(&mut client, b"x"), Err(TunnelError::Write));
    assert_eq!(encrypt_payload(&mut client, b"").map(|v| v.is_empty()), Ok(false));
}

#[test]
fn plaintext_waits_until_it_is_drained() {
    let (mut client, mut server) = handshaken();
    let mut sent = encrypt_payload(&mut server, b"one ").unwrap();
    sent.extend(encrypt_payload(&mut server, b"two").unwrap());
    assert_eq!(feed(&mut client, &sent), Ok(()));
    assert_eq!(drain_plaintext(&mut client), Ok(b"one two".to_vec()));
    assert_eq!(drain_plaintext(&mut client), Ok(Vec::new()));
}

#[test]
fn who_speaks_first() {
    // A client begins; a server waits.
    assert_eq!(next_step(Role::Client, false, true, true).0, HandshakeStep::Send);
    assert_eq!(next_step(Role::Server, false, true, false).0, HandshakeStep::Receive);
    assert_eq!(next_step(Role::Server, false, false, false).0, HandshakeStep::Done);
    assert_eq!(next_step(Role::Server, true, false, true).0, HandshakeStep::Send);
}

// ---- A key and a certificate that nothing else uses -------------------------

const EC_KEY: [u8; 138] = [
    0x30, 0x81, 0x87, 0x02, 0x01, 0x00, 0x30, 0x13, 0x06, 0x07, 0x2a, 0x86, 0x48, 0xce, 0x3d, 0x02,
    0x01, 0x06, 0x08, 0x2a, 0x86, 0x48, 0xce, 0x3d, 0x03, 0x01, 0x07, 0x04, 0x6d, 0x30, 0x6b, 0x02,
    0x01, 0x01, 0x04, 0x20, 0x49, 0x7f, 0xdf, 0xae, 0x12, 0x2f, 0xe9, 0x8d, 0x11, 0x9d, 0x29, 0x18,
    0x3d, 0x57, 0xa0, 0x38, 0xe1, 0x84, 0xca, 0x1a, 0xcf, 0x37, 0x62, 0x3d, 0xfa, 0xa2, 0xcc, 0x49,
    0x2a, 0xf5, 0x74, 0xdf, 0xa1, 0x44, 0x03, 0x42, 0x00, 0x04, 0x6a, 0x97, 0x5a, 0x60, 0xd2, 0x9a,
    0xb2, 0x6f, 0x43, 0xda, 0x31, 0xc3, 0x82, 0x6a, 0x29, 0x23, 0x97, 0xaa, 0xb6, 0xc5, 0x3d, 0xb3,
    0x23, 0xe0, 0x02, 0x48, 0xb3, 0xde, 0xb0, 0x96, 0x95, 0xda, 0xb9, 0xe4, 0x76, 0xb5, 0xd8, 0xf1,
    0xee, 0xf3, 0xc6, 0xe3, 0xee, 0x8c, 0xe3, 0xf1, 0x5f, 0x9b, 0xb3, 0x5e, 0x35, 0xfd, 0x41, 0x0a,
    0x19, 0x92, 0x4b, 0x9b, 0xb9, 0x4b, 0x7e, 0x5c, 0x00, 0xbc,
];

const EC_CERT: [u8; 378] = [
    0x30, 0x82, 0x01, 0x76, 0x30, 0x82, 0x01, 0x1b, 0xa0, 0x03, 0x02, 0x01, 0x02, 0x02, 0x14, 0x6f,
    0x74, 0x80, 0x4d, 0x54, 0xdf, 0x72, 0x96, 0x5e, 0xfa, 0xdd, 0x0b, 0x1c, 0x4d, 0x5c, 0x4f, 0x83,
    0x15, 0x5c, 0x95, 0x30, 0x0a, 0x06, 0x08, 0x2a, 0x86, 0x48, 0xce, 0x3d, 0x04, 0x03, 0x02, 0x30,
    0x0f, 0x31, 0x0d, 0x30, 0x0b, 0x06, 0x03, 0x55, 0x04, 0x03, 0x0c, 0x04, 0x74, 0x65, 0x73, 0x74,
    0x30, 0x20, 0x17, 0x0d, 0x32, 0x36, 0x31, 0x31, 0x31, 0x35, 0x32, 0x30, 0x30, 0x36, 0x32, 0x37,
    0x5a, 0x18, 0x0f, 0x32, 0x31, 0x32, 0x36, 0x31, 0x30, 0x32, 0x32, 0x32, 0x30, 0x30, 0x36, 0x32,
    0x37, 0x5a, 0x30, 0x0f, 0x31, 0x0d, 0x30, 0x0b, 0x06, 0x03, 0x55, 0x04, 0x03, 0x0c, 0x04, 0x74,
    0x65, 0x73, 0x74, 0x30, 0x59, 0x30, 0x13, 0x06, 0x07, 0x2a, 0x86, 0x48, 0xce, 0x3d, 0x02, 0x01,
    0x06, 0x08, 0x2a, 0x86, 0x48, 0xce, 0x3d, 0x03, 0x01, 0x07, 0x03, 0x42, 0x00, 0x04, 0x6a, 0x97,
    0x5a, 0x60, 0xd2, 0x9a, 0xb2, 0x6f, 0x43, 0xda, 0x31, 0xc3, 0x82, 0x6a, 0x29, 0x23, 0x97, 0xaa,
    0xb6, 0xc5, 0x3d, 0xb3, 0x23, 0xe0, 0x02, 0x48, 0xb3, 0xde, 0xb0, 0x96, 0x95, 0xda, 0xb9, 0xe4,
    0x76, 0xb5, 0xd8, 0xf1, 0xee, 0xf3, 0xc6, 0xe3, 0xee, 0x8c, 0xe3, 0xf1, 0x5f, 0x9b, 0xb3, 0x5e,
    0x35, 0xfd, 0x41, 0x0a, 0x19, 0x92, 0x4b, 0x9b, 0xb9, 0x4b, 0x7e, 0x5c, 0x00, 0xbc, 0xa3, 0x53,
    0x30, 0x51, 0x30, 0x1d, 0x06, 0x03, 0x55, 0x1d, 0x0e, 0x04, 0x16, 0x04, 0x14, 0x1a, 0x8a, 0x15,
    0xf5, 0x69, 0x19, 0x0c, 0x0c, 0xea, 0x2b, 0x76, 0x67, 0x03, 0x61, 0x56, 0xff, 0x4d, 0x12, 0x09,
    0x65, 0x30, 0x1f, 0x06, 0x03, 0x55, 0x1d, 0x23, 0x04, 0x18, 0x30, 0x16, 0x80, 0x14, 0x1a, 0x8a,
    0x15, 0xf5, 0x69, 0x19, 0x0c, 0x0c, 0xea, 0x2b, 0x76, 0x67, 0x03, 0x61, 0x56, 0xff, 0x4d, 0x12,
    0x09, 0x65, 0x30, 0x0f, 0x06, 0x03, 0x55, 0x1d, 0x13, 0x01, 0x01, 0xff, 0x04, 0x05, 0x30, 0x03,
    0x01, 0x01, 0xff, 0x30, 0x0a, 0x06, 0x08, 0x2a, 0x86, 0x48, 0xce, 0x3d, 0x04, 0x03, 0x02, 0x03,
    0x49, 0x00, 0x30, 0x46, 0x02, 0x21, 0x00, 0xb4, 0x39, 0xb5, 0x3e, 0x14, 0x7e, 0xec, 0xc7, 0xbc,
    0x5a, 0x03, 0xd7, 0x2b, 0x66, 0x26, 0xb9, 0x1d, 0x39, 0xe8, 0x93, 0x0f, 0x2d, 0xfb, 0x7b, 0x8f,
    0xbf, 0xa4, 0xa1, 0x8b, 0x1a, 0x66, 0x18, 0x02, 0x21, 0x00, 0xed, 0x10, 0xd6, 0xb2, 0xc1, 0x94,
    0xc4, 0x4f, 0x2f, 0x19, 0xe8, 0x1a, 0x2d, 0x54, 0xdb, 0xc6, 0xd1, 0x99, 0x5e, 0xd1, 0xf3, 0x5e,
    0x58, 0xa7, 0x1d, 0x91, 0x2e, 0x5b, 0x85, 0x2d, 0x2e, 0x1d,
];
