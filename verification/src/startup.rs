//! The beginning of a session, before the tunnel.
//!
//! A head unit begins with its version, or goes straight to the TLS handshake
//! ([`first_frame`]).
use crate::control;
use crate::framing;
use crate::octets;
use crate::text;
use vstd::prelude::*;

verus! {

/// The first second at which the certificate is valid.
pub const WINDOW_START: u64 = 1404432000;

/// The last second at which the certificate is valid.
pub const WINDOW_END: u64 = 1785948469;

/// A second at which the certificate is valid.
pub const TARGET_EPOCH: u64 = 1780315200;

/// What to set the clock to, in seconds since the epoch: a time at which the
/// certificate is valid, if it is not valid now.
pub fn clock_correction(now: u64) -> (r: Option<u64>)
    ensures
        r == if WINDOW_START <= now <= WINDOW_END {
            None
        } else {
            Some(TARGET_EPOCH)
        },
        r matches Some(t) ==> WINDOW_START <= t <= WINDOW_END,
        r is None <==> 1404432000 <= now <= 1785948469,
        r matches Some(t) ==> t == 1780315200,
{
    if now < WINDOW_START || now > WINDOW_END {
        Some(TARGET_EPOCH)
    } else {
        None
    }
}

/// Whether directions come from a router: a destination is given, or a file to watch
/// for one.
pub fn uses_router(has_destination: bool, destination_file: &str) -> (r: bool)
    ensures
        r == (has_destination || destination_file@.len() > 0),
{
    has_destination || destination_file.unicode_len() > 0
}

/// How a session begins.
#[derive(Debug)]
pub struct Opening {
    /// The version of the head unit.
    pub peer: (u16, u16),
    /// What to answer.
    pub reply: Vec<u8>,
    /// Whether to send an empty handshake frame.
    pub kickoff: bool,
    /// The beginning of the TLS handshake, if it has come already.
    pub preseed: Option<Vec<u8>>,
}

/// What an opening is.
#[verifier::ext_equal]
pub struct Opened {
    pub peer: (u16, u16),
    pub reply: Seq<u8>,
    pub kickoff: bool,
    pub preseed: Option<Seq<u8>>,
}

impl View for Opening {
    type V = Opened;

    open spec fn view(&self) -> Opened {
        Opened {
            peer: self.peer,
            reply: self.reply@,
            kickoff: self.kickoff,
            preseed: match self.preseed {
                Some(v) => Some(v@),
                None => None,
            },
        }
    }
}

/// Why a session cannot begin.
#[derive(Debug, Clone, Copy, PartialEq, Eq, Structural)]
pub enum OpeningError {
    /// The first frame is too short; its length is given.
    TooShort(usize),
    /// The first frame holds a version message without a version.
    VersionMissing,
    /// The first frame holds another message.
    Unexpected(u16),
}

/// The answer to a version message: version 1.6, and that it matches.
pub open spec fn version_answer() -> Seq<u8> {
    seq![0, 0x03, 0, 8, 0, 0x02, 0, 1, 0, 6, 0, 0]
}

/// How a session begins when this is the payload of the first frame.
pub open spec fn opening_of(payload: Seq<u8>) -> Result<Opened, OpeningError> {
    if payload.len() < 2 {
        Err(OpeningError::TooShort(payload.len() as usize))
    } else if octets::be16_at(payload, 0) == 0x0001 {
        if payload.len() < 6 {
            Err(OpeningError::VersionMissing)
        } else {
            Ok(
                Opened {
                    peer: (octets::be16_at(payload, 2), octets::be16_at(payload, 4)),
                    reply: version_answer(),
                    kickoff: false,
                    preseed: None,
                },
            )
        }
    } else if octets::be16_at(payload, 0) == 0x0003 {
        Ok(
            Opened {
                peer: (1, 7),
                reply: Seq::empty(),
                kickoff: true,
                preseed: if payload.len() > 2 && payload[2] == 0x16 {
                    Some(payload.skip(2))
                } else {
                    None
                },
            },
        )
    } else {
        Err(OpeningError::Unexpected(octets::be16_at(payload, 0)))
    }
}

/// How a session begins when this is the payload of the first frame.
///
/// A head unit that begins with its version is answered and goes on by itself. One
/// that begins with the handshake waits for an empty handshake frame; where its frame
/// holds a TLS record, the handshake has begun.
pub fn first_frame(payload: &[u8]) -> (r: Result<Opening, OpeningError>)
    ensures
        match opening_of(payload@) {
            Ok(opened) => r matches Ok(o) && o@ == opened,
            Err(e) => r matches Err(x) && x == e,
        },
{
    let n: usize = payload.len();
    if n < 2 {
        return Err(OpeningError::TooShort(n));
    }
    let message_id: u16 = octets::read_be16(payload, 0);
    if message_id == 0x0001 {
        if n < 6 {
            return Err(OpeningError::VersionMissing);
        }
        let reply: Vec<u8> = vec![0, 0x03, 0, 8, 0, 0x02, 0, 1, 0, 6, 0, 0];
        assert(reply@ =~= version_answer());
        return Ok(
            Opening {
                peer: (octets::read_be16(payload, 2), octets::read_be16(payload, 4)),
                reply,
                kickoff: false,
                preseed: None,
            },
        );
    }
    if message_id == 0x0003 {
        let preseed: Option<Vec<u8>> = if n > 2 && payload[2] == 0x16 {
            let body: &[u8] = &payload[2..n];
            assert(body@ =~= payload@.skip(2));
            Some(octets::to_vec(body))
        } else {
            None
        };
        let reply: Vec<u8> = Vec::new();
        assert(reply@ =~= Seq::<u8>::empty());
        return Ok(Opening { peer: (1, 7), reply, kickoff: true, preseed });
    }
    Err(OpeningError::Unexpected(message_id))
}

/// How far a session is.
#[derive(Debug)]
pub enum Milestone {
    /// The versions are settled; the head unit's is given.
    VersionSettled(u16, u16),
    /// The TLS handshake begins.
    HandshakeBegins,
    /// The TLS handshake is complete.
    HandshakeDone,
    /// The TLS handshake has failed.
    HandshakeFailed(String),
    /// The TLS handshake took too long.
    HandshakeTimedOut,
    /// Messages are being handled.
    Running,
    /// The stream has ended.
    Ended,
    /// The session has failed.
    Failed(String),
}

/// How many seconds the TLS handshake may take.
pub const HANDSHAKE_TIMEOUT_SECS: u64 = 15;

/// The line that says how far a session is, after the name of the program and a colon.
pub open spec fn status_of(m: Milestone) -> Seq<char> {
    match m {
        Milestone::VersionSettled(major, minor) => "version OK ("@ + text::decimal(major as nat)
            + "."@ + text::decimal(minor as nat) + ")"@,
        Milestone::HandshakeBegins => "starting TLS handshake"@,
        Milestone::HandshakeDone => "TLS OK"@,
        Milestone::HandshakeFailed(e) => "TLS failed: "@ + e@,
        Milestone::HandshakeTimedOut => "TLS timed out"@,
        Milestone::Running => "control loop running"@,
        Milestone::Ended => "control loop ended cleanly"@,
        Milestone::Failed(e) => "control loop error: "@ + e@,
    }
}

/// Whether a session goes on.
pub open spec fn goes_on(m: Milestone) -> bool {
    match m {
        Milestone::HandshakeFailed(_)
        | Milestone::HandshakeTimedOut
        | Milestone::Ended
        | Milestone::Failed(_) => false,
        _ => true,
    }
}

/// The line that says how far a session of this program is, and whether it goes on.
pub fn milestone(program: &str, m: &Milestone) -> (r: (String, bool))
    ensures
        r.0@ == program@ + ": "@ + status_of(*m),
        r.1 == goes_on(*m),
{
    let mut line: String = program.to_string();
    line.append(": ");
    let ghost before = line@;
    match m {
        Milestone::VersionSettled(major, minor) => {
            line.append("version OK (");
            line.append(text::to_decimal(*major as u64).as_str());
            line.append(".");
            line.append(text::to_decimal(*minor as u64).as_str());
            line.append(")");
            assert(line@ =~= before + status_of(*m));
            (line, true)
        },
        Milestone::HandshakeBegins => {
            line.append("starting TLS handshake");
            (line, true)
        },
        Milestone::HandshakeDone => {
            line.append("TLS OK");
            (line, true)
        },
        Milestone::HandshakeFailed(e) => {
            line.append("TLS failed: ");
            line.append(e.as_str());
            assert(line@ =~= before + status_of(*m));
            (line, false)
        },
        Milestone::HandshakeTimedOut => {
            line.append("TLS timed out");
            (line, false)
        },
        Milestone::Running => {
            line.append("control loop running");
            (line, true)
        },
        Milestone::Ended => {
            line.append("control loop ended cleanly");
            (line, false)
        },
        Milestone::Failed(e) => {
            line.append("control loop error: ");
            line.append(e.as_str());
            assert(line@ =~= before + status_of(*m));
            (line, false)
        },
    }
}

/// The answer to a version message is one frame of the control channel, whole and in
/// plain: the second message, with version 1.6 and the status that it matches.
pub proof fn lemma_version_answer()
    ensures
        framing::frame_len(version_answer()) == Some(version_answer().len() as int),
        control::version_in(framing::frame_of(version_answer()), 2) == Ok::<
            (u16, u16),
            control::ControlError,
        >((1, 6)),
        control::version_status(framing::frame_of(version_answer()).payload) == 0,
        framing::frame_of(version_answer()).frame_type is Bulk,
        !framing::frame_of(version_answer()).encrypted,
        !framing::frame_of(version_answer()).control,
{
}

/// A session begins with a version message that holds a version, which is answered, or
/// with the handshake, which is answered with an empty frame and goes on with the
/// record that came, if one did. It begins with nothing else.
pub proof fn lemma_openings(payload: Seq<u8>)
    ensures
        opening_of(payload) is Ok <==> payload.len() >= 2 && payload[0] == 0 && (payload[1] == 3 || (
        payload[1] == 1 && payload.len() >= 6)),
        opening_of(payload) matches Ok(o) ==> {
            &&& payload[1] == 1 ==> o.peer == (
                (256 * payload[2] + payload[3]) as u16,
                (256 * payload[4] + payload[5]) as u16,
            ) && o.reply == version_answer() && !o.kickoff && o.preseed is None
            &&& payload[1] == 3 ==> o.peer == (1u16, 7u16) && o.reply.len() == 0 && o.kickoff && (
            o.preseed == if payload.len() > 2 && payload[2] == 0x16 {
                Some(payload.skip(2))
            } else {
                None
            })
        },
{
}

/// A session goes on until the handshake fails or takes too long, the stream ends or
/// something fails.
pub proof fn lemma_session_goes_on(m: Milestone)
    ensures
        goes_on(m) <==> m is VersionSettled || m is HandshakeBegins || m is HandshakeDone
            || m is Running,
        m is HandshakeBegins ==> status_of(m) == "starting TLS handshake"@,
        m is HandshakeDone ==> status_of(m) == "TLS OK"@,
        m is HandshakeTimedOut ==> status_of(m) == "TLS timed out"@,
        m is Running ==> status_of(m) == "control loop running"@,
        m is Ended ==> status_of(m) == "control loop ended cleanly"@,
        m matches Milestone::HandshakeFailed(e) ==> text::ends_with(status_of(m), e@),
        m matches Milestone::Failed(e) ==> text::ends_with(status_of(m), e@),
{
    match m {
        Milestone::HandshakeFailed(e) => {
            let s = status_of(m);
            assert(s.subrange(s.len() - e@.len(), s.len() as int) =~= e@);
        },
        Milestone::Failed(e) => {
            let s = status_of(m);
            assert(s.subrange(s.len() - e@.len(), s.len() as int) =~= e@);
        },
        _ => {},
    }
}

} // verus!
