//! USB, the beginning of a session, and what is logged.
use aabox::error::Error;
use aabox::kmsg::{priority, KmsgLine, LogLevel};
use aabox::startup::{
    clock_correction, first_frame, milestone, uses_router, Milestone, OpeningError, TARGET_EPOCH,
    WINDOW_END, WINDOW_START,
};
use aabox::text::{to_decimal, to_fixed};
use aabox::usb::ffs::{
    bind_step, build_descriptors, build_strings, decode_event, is_bound_to, is_unbound,
    release_step, trim_nuls, BindOutcome, BindStep, FfsAction,
};
use aabox::usb::gadget::{read_trimmed, UsbGadgetState};
use aabox::usb::stream::{read_step, write_step, IoState, PollStep};
use aabox::usb::uevent::is_accessory_start;

// ---- FunctionFS -------------------------------------------------------------

#[test]
fn descriptors_for_two_speeds() {
    let d = build_descriptors();
    assert_eq!(d.len(), 66);
    assert_eq!(&d[..4], &3u32.to_le_bytes());
    assert_eq!(&d[4..8], &66u32.to_le_bytes());
    assert_eq!(&d[8..12], &3u32.to_le_bytes());
    assert_eq!(&d[12..16], &3u32.to_le_bytes());
    assert_eq!(&d[16..20], &3u32.to_le_bytes());
    assert_eq!(&d[20..29], &[9, 4, 0, 0, 2, 0xff, 0xff, 0x00, 0]);
    assert_eq!(&d[29..36], &[7, 5, 0x01, 0x02, 0x40, 0x00, 0x00]);
    assert_eq!(&d[36..43], &[7, 5, 0x81, 0x02, 0x40, 0x00, 0x00]);
    assert_eq!(&d[52..59], &[7, 5, 0x01, 0x02, 0x00, 0x02, 0x00]);
    assert_eq!(&d[59..66], &[7, 5, 0x81, 0x02, 0x00, 0x02, 0x00]);
    assert_eq!(build_strings(), vec![2, 0, 0, 0, 16, 0, 0, 0, 0, 0, 0, 0, 0, 0, 0, 0]);
}

fn event(kind: u8, request_type: u8, request: u8, index: u16, length: u16) -> [u8; 12] {
    let mut e = [0u8; 12];
    e[0] = request_type;
    e[1] = request;
    e[4..6].copy_from_slice(&index.to_le_bytes());
    e[6..8].copy_from_slice(&length.to_le_bytes());
    e[8] = kind;
    e
}

#[test]
fn accessory_requests() {
    assert_eq!(decode_event(&event(2, 0, 51, 0, 0)), FfsAction::Ignore);
    assert_eq!(decode_event(&event(4, 0xc0, 51, 0, 2)), FfsAction::SendVersion);
    assert_eq!(
        decode_event(&event(4, 0x40, 52, 3, 0x0102)),
        FfsAction::ReadString { index: 3, length: 0x0102 }
    );
    assert_eq!(decode_event(&event(4, 0x40, 53, 0, 0)), FfsAction::Start);
    assert_eq!(decode_event(&event(4, 0x40, 9, 0, 7)), FfsAction::Drain(7));
    assert_eq!(decode_event(&event(4, 0xc0, 9, 0, 7)), FfsAction::Ignore);
    assert_eq!(decode_event(&event(4, 0x40, 9, 0, 0)), FfsAction::Ignore);
}

#[test]
fn strings_end_before_their_zeros() {
    assert_eq!(trim_nuls(b"Android\0\0"), b"Android");
    assert_eq!(trim_nuls(b"a\0b"), b"a\0b");
    assert_eq!(trim_nuls(b"\0\0"), b"");
}

#[test]
fn binding_is_tried_again_while_busy() {
    assert_eq!(bind_step(0, BindOutcome::Bound), BindStep::Done);
    assert_eq!(bind_step(0, BindOutcome::Busy), BindStep::Retry);
    assert_eq!(bind_step(8, BindOutcome::Busy), BindStep::Retry);
    assert_eq!(bind_step(9, BindOutcome::Busy), BindStep::Fail);
    assert_eq!(bind_step(0, BindOutcome::Failed), BindStep::Fail);
}

#[test]
fn the_other_gadget_is_released() {
    assert!(is_unbound(" \n"));
    assert!(!is_unbound("none\n"));
    assert!(is_bound_to("fc000000.usb\n", "fc000000.usb"));
    assert!(!is_bound_to("fc000000.usb2\n", "fc000000.usb"));
    assert_eq!(release_step(0, "none\n"), BindStep::Done);
    assert_eq!(release_step(0, "\n"), BindStep::Done);
    assert_eq!(release_step(38, "fc000000.usb"), BindStep::Retry);
    assert_eq!(release_step(39, "fc000000.usb"), BindStep::Fail);
}

// ---- Gadgets ----------------------------------------------------------------

#[test]
fn gadgets_are_switched() {
    let state = UsbGadgetState::with_udc("/config/usb_gadget", "fc000000.usb");
    assert_eq!(
        state.gadget_udc_path("default"),
        "/config/usb_gadget/default/UDC"
    );
    assert_eq!(state.enable("\n"), Some("fc000000.usb".to_string()));
    assert_eq!(state.enable("fc000000.usb\n"), None);
    assert_eq!(state.disable("fc000000.usb\n"), Some("\n".to_string()));
    // What was written to disable it says that it is disabled.
    assert_eq!(state.disable("\n"), None);
    assert_eq!(read_trimmed("a b \r\n"), Some("a b".to_string()));
    assert_eq!(read_trimmed("\t"), Some("\t".to_string()));
}

// ---- Kernel events ----------------------------------------------------------

#[test]
fn accessory_events() {
    assert!(is_accessory_start(
        b"change@/devices/virtual/misc/usb_accessory\0ACTION=change\0DEVNAME=usb_accessory\0ACCESSORY=START\0"
    ));
    assert!(is_accessory_start(b"ACCESSORY=START\0DEVNAME=usb_accessory"));
    assert!(!is_accessory_start(b"DEVNAME=usb_accessory\0ACCESSORY=STOP\0"));
    assert!(!is_accessory_start(b"DEVNAME=usb_accessory2\0ACCESSORY=START\0"));
    assert!(!is_accessory_start(b"XDEVNAME=usb_accessory\0ACCESSORY=START\0"));
    assert!(!is_accessory_start(b""));
}

// ---- The device -------------------------------------------------------------

#[test]
fn one_thing_at_a_time() {
    assert_eq!(read_step(IoState::Idle, 10), PollStep::Begin);
    assert_eq!(read_step(IoState::Idle, 0), PollStep::Nothing);
    assert_eq!(read_step(IoState::Reading, 10), PollStep::Check);
    assert_eq!(read_step(IoState::Writing, 10), PollStep::Wait);
    assert_eq!(write_step(IoState::Idle), PollStep::Begin);
    assert_eq!(write_step(IoState::Writing), PollStep::Check);
    assert_eq!(write_step(IoState::Reading), PollStep::Wait);
}

// ---- The beginning of a session ---------------------------------------------

#[test]
fn clocks_are_set_into_the_window() {
    assert_eq!(clock_correction(0), Some(TARGET_EPOCH));
    assert_eq!(clock_correction(WINDOW_START), None);
    assert_eq!(clock_correction(WINDOW_END), None);
    assert_eq!(clock_correction(WINDOW_END + 1), Some(TARGET_EPOCH));
}

#[test]
fn sessions_begin_with_a_version() {
    let o = first_frame(&[0, 1, 0, 1, 0, 7]).unwrap();
    assert_eq!(o.peer, (1, 7));
    assert_eq!(
        o.reply,
        vec![0x00, 0x03, 0x00, 0x08, 0x00, 0x02, 0x00, 0x01, 0x00, 0x06, 0x00, 0x00]
    );
    assert!(!o.kickoff);
    assert!(o.preseed.is_none());
    assert_eq!(
        milestone("usb-run", &Milestone::VersionSettled(1, 7)),
        ("usb-run: version OK (1.7)".to_string(), true)
    );
}

#[test]
fn failures_end_a_session() {
    for (m, line, goes_on) in [
        (Milestone::HandshakeBegins, "starting TLS handshake", true),
        (Milestone::HandshakeDone, "TLS OK", true),
        (Milestone::HandshakeFailed("bad".into()), "TLS failed: bad", false),
        (Milestone::HandshakeTimedOut, "TLS timed out", false),
        (Milestone::Running, "control loop running", true),
        (Milestone::Ended, "control loop ended cleanly", false),
        (Milestone::Failed("gone".into()), "control loop error: gone", false),
    ] {
        assert_eq!(
            milestone("dhu-listen", &m),
            (format!("dhu-listen: {line}"), goes_on)
        );
    }
}

#[test]
fn sessions_begin_with_the_handshake() {
    let o = first_frame(&[0, 3, 0, 6, 0, 1]).unwrap();
    assert_eq!(o.peer, (1, 7));
    assert!(o.reply.is_empty());
    assert!(o.kickoff);
    assert!(o.preseed.is_none());
    let o = first_frame(&[0, 3, 0x16, 3, 1]).unwrap();
    assert_eq!(o.preseed, Some(vec![0x16, 3, 1]));
}

#[test]
fn sessions_that_do_not_begin() {
    assert_eq!(first_frame(&[0]).err(), Some(OpeningError::TooShort(1)));
    assert_eq!(
        first_frame(&[0, 1, 0, 1]).err(),
        Some(OpeningError::VersionMissing)
    );
    assert_eq!(
        first_frame(&[0, 5, 0, 1]).err(),
        Some(OpeningError::Unexpected(5))
    );
}

#[test]
fn routers_are_used_where_they_can_be() {
    assert!(uses_router(true, ""));
    assert!(uses_router(false, "/data/x.json"));
    assert!(!uses_router(false, ""));
}

// ---- What is logged ---------------------------------------------------------

#[test]
fn kernel_log_lines() {
    assert_eq!(priority(LogLevel::Error), Some(3));
    assert_eq!(priority(LogLevel::Warn), Some(4));
    assert_eq!(priority(LogLevel::Info), Some(6));
    assert_eq!(priority(LogLevel::Debug), None);
    assert_eq!(priority(LogLevel::Trace), None);
    let mut line = KmsgLine::new(6, "aabox::usb");
    line.message("hello");
    line.field("n", "1");
    assert_eq!(line.finish(), "<6>aabox-aapd[aabox::usb]: hello n=1\n");
    let mut line = KmsgLine::new(3, "t");
    line.field("a", "\"x\"");
    assert_eq!(line.finish(), "<3>aabox-aapd[t]: a=\"x\"\n");
}

#[test]
fn errors_say_where() {
    assert_eq!(Error::Io("gone".into()).message(), "io: gone");
    assert_eq!(Error::Protocol("odd".into()).message(), "protocol: odd");
    assert_eq!(Error::Tls("bad".into()).message(), "tls: bad");
    assert_eq!(Error::Usb("off".into()).message(), "usb: off");
}

#[test]
fn numbers_as_text() {
    assert_eq!(to_decimal(0), "0");
    assert_eq!(to_decimal(18446744073709551615), "18446744073709551615");
    assert_eq!(to_fixed(-5, 7), "-0.0000005");
    assert_eq!(to_fixed(13_410, 3), "13.410");
    assert_eq!(aabox::version(), "0.1.0");
}
