//! The TLS handshake inside control frames.
//!
//! Records go back and forth in handshake frames until both sides are done. Which
//! step comes next depends on the side, on whether records are being sent, and on
//! what the connection says of itself ([`next_step`]).
use crate::control;
use crate::control::ControlError;
use crate::encrypted;
use crate::encrypted::TunnelError;
use crate::framing::Frame;
use rustls::Connection;
use vstd::prelude::*;

verus! {

/// Which side of the handshake.
#[derive(Debug, Clone, Copy, PartialEq, Eq, Structural)]
pub enum Role {
    Client,
    Server,
}

/// A step of the handshake.
#[derive(Debug, Clone, Copy, PartialEq, Eq, Structural)]
pub enum HandshakeStep {
    /// The handshake is complete.
    Done,
    /// Send records that wait.
    Send,
    /// Wait for a frame.
    Receive,
}

/// Why the handshake failed.
#[derive(Debug, Clone, Copy, PartialEq, Eq, Structural)]
pub enum HandshakeError {
    /// A frame is not a handshake frame.
    Frame(ControlError),
    /// The connection refused the records.
    Tunnel(TunnelError),
}

/// The next step, and whether records are being sent after it.
///
/// The client is done as soon as its handshake is complete after a frame; the
/// server sends what waits first, since the client needs it.
pub open spec fn step_of(
    role: Role,
    sending: bool,
    handshaking: bool,
    wants_write: bool,
) -> (HandshakeStep, bool) {
    if !sending && !handshaking {
        (HandshakeStep::Done, false)
    } else if wants_write {
        (HandshakeStep::Send, true)
    } else if handshaking {
        (HandshakeStep::Receive, role == Role::Server)
    } else {
        (HandshakeStep::Done, false)
    }
}

/// The next step. `sending` is what the last step gave, or `false` at first;
/// `handshaking` and `wants_write` are what the connection says of itself.
pub fn next_step(role: Role, sending: bool, handshaking: bool, wants_write: bool) -> (r: (
    HandshakeStep,
    bool,
))
    ensures
        r == step_of(role, sending, handshaking, wants_write),
{
    if !sending && !handshaking {
        (HandshakeStep::Done, false)
    } else if wants_write {
        (HandshakeStep::Send, true)
    } else if handshaking {
        (HandshakeStep::Receive, role == Role::Server)
    } else {
        (HandshakeStep::Done, false)
    }
}

/// A frame with records that wait, if any do. They are taken from the front. It always
/// succeeds.
pub fn take_flight(conn: &mut Connection) -> (r: Result<Option<Frame>, TunnelError>)
    ensures
        match r {
            Ok(Some(frame)) => exists|n: int|
                0 < n <= encrypted::outgoing(*old(conn)).len() && frame@
                    == #[trigger] control::handshake_frame(
                    encrypted::outgoing(*old(conn)).take(n),
                ) && encrypted::outgoing(*final(conn)) == encrypted::outgoing(*old(conn)).skip(n)
                    && encrypted::emitted(*final(conn)) == encrypted::emitted(*old(conn))
                    + encrypted::outgoing(*old(conn)).take(n),
            Ok(None) => encrypted::outgoing(*old(conn)).len() == 0,
            Err(_) => false,
        },
        encrypted::processed(*final(conn)) == encrypted::processed(*old(conn)),
        encrypted::failed(*final(conn)) == encrypted::failed(*old(conn)),
        encrypted::received(*final(conn)) == encrypted::received(*old(conn)),
        encrypted::written(*final(conn)) == encrypted::written(*old(conn)),
        encrypted::fed(*final(conn)) == encrypted::fed(*old(conn)),
        encrypted::delivered(*final(conn)) == encrypted::delivered(*old(conn)),
{
    let mut buf: Vec<u8> = Vec::new();
    match encrypted::take_records(conn, &mut buf) {
        Err(e) => Err(e),
        Ok(n) => {
            assert(buf@ =~= encrypted::outgoing(*old(conn)).take(n as int));
            if n == 0 {
                Ok(None)
            } else {
                let frame: Frame = control::ssl_handshake_frame(buf.as_slice());
                assert(frame@ == control::handshake_frame(
                    encrypted::outgoing(*old(conn)).take(n as int),
                ));
                Ok(Some(frame))
            }
        },
    }
}

/// Takes a frame of the peer: its records go to the connection, which processes them. A
/// frame that is not a handshake frame is refused and leaves the connection as it is.
pub fn receive(conn: &mut Connection, frame: &Frame) -> (r: Result<(), HandshakeError>)
    ensures
        match control::handshake_in(frame@) {
            Err(e) => r == Err::<(), HandshakeError>(HandshakeError::Frame(e)) && *final(conn)
                == *old(conn),
            Ok(body) => match r {
                Ok(_) => encrypted::handed(*old(conn), body, encrypted::fed(*final(conn)), true),
                Err(HandshakeError::Tunnel(TunnelError::Process)) => encrypted::handed(
                    *old(conn),
                    body,
                    encrypted::fed(*final(conn)),
                    true,
                ),
                Err(HandshakeError::Tunnel(TunnelError::GiveRecords)) => encrypted::handed(
                    *old(conn),
                    body,
                    encrypted::fed(*final(conn)),
                    false,
                ),
                Err(_) => false,
            },
        },
        control::handshake_in(frame@) matches Ok(body) ==> r is Ok ==> encrypted::fed(*final(conn))
            == encrypted::fed(*old(conn)) + body,
        control::handshake_in(frame@) is Ok ==> if r == Err::<(), HandshakeError>(
            HandshakeError::Tunnel(TunnelError::GiveRecords),
        ) {
            encrypted::processed(*final(conn)) == encrypted::processed(*old(conn))
                && encrypted::failed(*final(conn)) == encrypted::failed(*old(conn))
        } else {
            encrypted::processed(*final(conn)) == encrypted::fed(*final(conn)) && (r is Ok
                <==> !encrypted::failed(*final(conn)))
        },
        encrypted::failed(*old(conn)) ==> r is Err && encrypted::failed(*final(conn)),
        encrypted::written(*final(conn)) == encrypted::written(*old(conn)),
        encrypted::emitted(*final(conn)) == encrypted::emitted(*old(conn)),
        encrypted::delivered(*final(conn)) == encrypted::delivered(*old(conn)),
        encrypted::begins_with(
            encrypted::outgoing(*final(conn)),
            encrypted::outgoing(*old(conn)),
        ),
        encrypted::begins_with(
            encrypted::received(*final(conn)),
            encrypted::received(*old(conn)),
        ),
{
    match control::ssl_handshake_body(frame) {
        Err(e) => {
            assert(encrypted::outgoing(*conn).take(encrypted::outgoing(*conn).len() as int)
                =~= encrypted::outgoing(*conn));
            assert(encrypted::received(*conn).take(encrypted::received(*conn).len() as int)
                =~= encrypted::received(*conn));
            Err(HandshakeError::Frame(e))
        },
        Ok(body) => match encrypted::feed(conn, body) {
            Ok(_) => Ok(()),
            Err(e) => Err(HandshakeError::Tunnel(e)),
        },
    }
}

/// No side waits for a frame while it has records to send, and none is done while
/// it is sending and has more to send.
pub proof fn lemma_send_before_receive(
    role: Role,
    sending: bool,
    handshaking: bool,
)
    ensures
        step_of(role, sending, handshaking, true).0 !is Receive,
        sending ==> step_of(role, sending, handshaking, true).0 is Send,
        step_of(role, sending, handshaking, false).0 is Done <==> !handshaking,
{
}

/// The steps of the handshake: records that wait go out first; a frame is waited for
/// exactly while the handshake goes on and nothing waits; and it is done where it no
/// longer goes on, and nothing waits that the other side still needs. After a frame the
/// server sends what waits, and the client does so only while it shakes hands.
pub proof fn lemma_steps(role: Role, sending: bool, handshaking: bool, wants_write: bool)
    ensures
        ({
            let (step, goes_on) = step_of(role, sending, handshaking, wants_write);
            &&& step is Send <==> wants_write && (sending || handshaking)
            &&& step is Receive <==> handshaking && !wants_write
            &&& step is Done <==> !handshaking && !(sending && wants_write)
            &&& step is Send ==> goes_on
            &&& step is Receive ==> (goes_on <==> role is Server)
            &&& step is Done ==> !goes_on
        }),
{
}

} // verus!
