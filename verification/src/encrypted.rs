//! Payloads through the TLS tunnel.
//!
//! A connection keeps two runs of bytes: records that wait to be sent
//! ([`outgoing`]) and plaintext that waits to be read ([`received`]). To encrypt is
//! to write plaintext and take all records out; to decrypt is to put records in and
//! read all plaintext.
use crate::octets;
use rustls::{CommonState, Connection};
use std::io::{Read, Write};
use vstd::prelude::*;

verus! {

#[verifier::external_type_specification]
#[verifier::external_body]
pub struct ExConnection(Connection);

#[verifier::external_type_specification]
#[verifier::external_body]
pub struct ExCommonState(CommonState);

/// The records that wait in a `rustls::Connection` to be sent.
pub uninterp spec fn outgoing(conn: Connection) -> Seq<u8>;

/// The plaintext that waits in a `rustls::Connection` to be read.
pub uninterp spec fn received(conn: Connection) -> Seq<u8>;

/// The plaintext that a `rustls::Connection` has been given to send, since it was made.
pub uninterp spec fn written(conn: Connection) -> Seq<u8>;

/// The records that have been taken out of a `rustls::Connection`, since it was made.
pub uninterp spec fn emitted(conn: Connection) -> Seq<u8>;

/// The records that a `rustls::Connection` has been given, since it was made.
pub uninterp spec fn fed(conn: Connection) -> Seq<u8>;

/// The plaintext that has been read out of a `rustls::Connection`, since it was made.
pub uninterp spec fn delivered(conn: Connection) -> Seq<u8>;

/// Whether a `rustls::Connection` takes all of `plain` to send, as `rustls::Writer`
/// decides: it takes none after a fatal error, and no more than its buffers may hold.
pub uninterp spec fn takes(conn: Connection, plain: Seq<u8>) -> bool;

/// How many of `bytes`, from the front, `rustls::Connection::read_tls` takes; nothing
/// where it refuses them, as it does while its buffers are full.
pub uninterp spec fn given(conn: Connection, bytes: Seq<u8>) -> Option<nat>;

/// Whether the records of a `rustls::Connection` ended before its peer closed it.
pub uninterp spec fn cut_off(conn: Connection) -> bool;

/// The records that a `rustls::Connection` had been given when it was last asked to
/// process them.
pub uninterp spec fn processed(conn: Connection) -> Seq<u8>;

/// Whether a `rustls::Connection` has met a fatal error, as its state says.
pub uninterp spec fn failed(conn: Connection) -> bool;

/// Why a payload could not go through the tunnel.
#[derive(Debug, Clone, Copy, PartialEq, Eq, Structural)]
pub enum TunnelError {
    /// The connection takes no plaintext.
    Write,
    /// The records cannot be taken out.
    TakeRecords,
    /// The connection takes no records.
    GiveRecords,
    /// The records are not what the connection expects.
    Process,
    /// The plaintext cannot be read.
    Read,
}

/// How a read of plaintext ended.
#[derive(Debug, Clone, Copy, PartialEq, Eq, Structural)]
pub enum PlainRead {
    /// This many bytes were read.
    Taken(usize),
    /// There is nothing to read now.
    Empty,
    /// The connection is broken.
    Broken,
}

/// Whether `s` begins with `prefix`.
pub open spec fn begins_with(s: Seq<u8>, prefix: Seq<u8>) -> bool {
    prefix.len() <= s.len() && s.take(prefix.len() as int) == prefix
}

/// Calls `rustls::Writer::write_all`. Trusted: whether it succeeds depends on the
/// connection and on `plain` alone; it does where there is nothing to write, and else
/// not after a fatal error. Where it succeeds, the connection has been given all of
/// `plain`; records are added behind those that wait, and nothing else changes. Nothing
/// is said of what the records hold: that rests on the connection's keys.
#[verifier::external_body]
fn write_plaintext(conn: &mut Connection, plain: &[u8]) -> (r: Result<(), TunnelError>)
    ensures
        r is Ok <==> takes(*old(conn), plain@),
        r matches Err(e) ==> e == TunnelError::Write,
        plain@.len() == 0 ==> r is Ok,
        plain@.len() > 0 && failed(*old(conn)) ==> r is Err,
        processed(*final(conn)) == processed(*old(conn)),
        failed(*final(conn)) == failed(*old(conn)),
        r is Ok ==> written(*final(conn)) == written(*old(conn)) + plain@,
        begins_with(outgoing(*final(conn)), outgoing(*old(conn))),
        received(*final(conn)) == received(*old(conn)),
        emitted(*final(conn)) == emitted(*old(conn)),
        fed(*final(conn)) == fed(*old(conn)),
        delivered(*final(conn)) == delivered(*old(conn)),
{
    conn.writer().write_all(plain).map_err(|_| TunnelError::Write)
}

/// Calls `rustls::Connection::write_tls` with a vector to write to. Trusted: it
/// succeeds, since it fails only where the writer does, and a vector grows as needed.
/// It moves records from the front of those that wait to the end of `out`, and at
/// least one byte where any wait; nothing else changes.
#[verifier::external_body]
pub(crate) fn take_records(conn: &mut Connection, out: &mut Vec<u8>) -> (r: Result<
    usize,
    TunnelError,
>)
    ensures
        r matches Ok(n) && n <= outgoing(*old(conn)).len() && final(out)@ == old(out)@ + outgoing(
            *old(conn),
        ).take(n as int) && outgoing(*final(conn)) == outgoing(*old(conn)).skip(n as int)
            && emitted(*final(conn)) == emitted(*old(conn)) + outgoing(*old(conn)).take(n as int)
            && (n == 0 ==> outgoing(*old(conn)).len() == 0),
        processed(*final(conn)) == processed(*old(conn)),
        failed(*final(conn)) == failed(*old(conn)),
        received(*final(conn)) == received(*old(conn)),
        written(*final(conn)) == written(*old(conn)),
        fed(*final(conn)) == fed(*old(conn)),
        delivered(*final(conn)) == delivered(*old(conn)),
{
    conn.write_tls(out).map_err(|_| TunnelError::TakeRecords)
}

/// Calls `rustls::Connection::read_tls`. Trusted: whether and how many of the bytes it
/// takes depends on the connection and on the bytes alone. The connection has been
/// given as many of them, from the front, as it says; where it refuses, none. Nothing
/// else changes, but that an end is noted where there are no bytes.
#[verifier::external_body]
fn give_records(conn: &mut Connection, bytes: &[u8]) -> (r: Result<usize, TunnelError>)
    ensures
        match given(*old(conn), bytes@) {
            Some(n) => r == Ok::<usize, TunnelError>(n as usize) && n <= bytes@.len() && fed(
                *final(conn),
            ) == fed(*old(conn)) + bytes@.take(n as int),
            None => r == Err::<usize, TunnelError>(TunnelError::GiveRecords) && fed(*final(conn))
                == fed(*old(conn)),
        },
        bytes@.len() > 0 ==> cut_off(*final(conn)) == cut_off(*old(conn)),
        processed(*final(conn)) == processed(*old(conn)),
        failed(*final(conn)) == failed(*old(conn)),
        outgoing(*final(conn)) == outgoing(*old(conn)),
        received(*final(conn)) == received(*old(conn)),
        written(*final(conn)) == written(*old(conn)),
        emitted(*final(conn)) == emitted(*old(conn)),
        delivered(*final(conn)) == delivered(*old(conn)),
{
    let mut rest: &[u8] = bytes;
    conn.read_tls(&mut rest).map_err(|_| TunnelError::GiveRecords)
}

/// Calls `rustls::Connection::process_new_packets`. Trusted: the connection is asked to
/// process all that it has been given; it succeeds exactly where the connection has met
/// no fatal error afterwards, and never after one was met before. Records and plaintext
/// may be added behind what waits, the peer may turn out to have closed the
/// connection, and nothing else changes. Nothing is said of which records are a fatal
/// error, or of which plaintext they hold: that rests on the connection's keys, on the
/// peer and on the time.
#[verifier::external_body]
fn process_records(conn: &mut Connection) -> (r: Result<(), TunnelError>)
    ensures
        r matches Err(e) ==> e == TunnelError::Process,
        r is Ok <==> !failed(*final(conn)),
        failed(*old(conn)) ==> failed(*final(conn)),
        processed(*final(conn)) == fed(*old(conn)),
        cut_off(*final(conn)) ==> cut_off(*old(conn)),
        begins_with(outgoing(*final(conn)), outgoing(*old(conn))),
        begins_with(received(*final(conn)), received(*old(conn))),
        written(*final(conn)) == written(*old(conn)),
        emitted(*final(conn)) == emitted(*old(conn)),
        fed(*final(conn)) == fed(*old(conn)),
        delivered(*final(conn)) == delivered(*old(conn)),
{
    conn.process_new_packets().map(|_| ()).map_err(|_| TunnelError::Process)
}

/// Calls `rustls::Reader::read`. Trusted: it moves plaintext from the front of what
/// waits into the front of `buf`, and none only where none waits; it fails where none
/// waits and the connection was cut off; nothing else changes.
#[verifier::external_body]
fn read_plaintext(conn: &mut Connection, buf: &mut [u8]) -> (r: PlainRead)
    requires
        old(buf)@.len() > 0,
    ensures
        final(buf)@.len() == old(buf)@.len(),
        processed(*final(conn)) == processed(*old(conn)),
        failed(*final(conn)) == failed(*old(conn)),
        r is Broken <==> received(*old(conn)).len() == 0 && cut_off(*old(conn)),
        cut_off(*final(conn)) == cut_off(*old(conn)),
        outgoing(*final(conn)) == outgoing(*old(conn)),
        written(*final(conn)) == written(*old(conn)),
        emitted(*final(conn)) == emitted(*old(conn)),
        fed(*final(conn)) == fed(*old(conn)),
        match r {
            PlainRead::Taken(n) => {
                &&& n <= old(buf)@.len()
                &&& n <= received(*old(conn)).len()
                &&& final(buf)@.take(n as int) == received(*old(conn)).take(n as int)
                &&& received(*final(conn)) == received(*old(conn)).skip(n as int)
                &&& delivered(*final(conn)) == delivered(*old(conn)) + received(*old(conn)).take(
                    n as int,
                )
                &&& n == 0 ==> received(*old(conn)).len() == 0
            },
            _ => received(*old(conn)).len() == 0 && received(*final(conn)) == received(*old(conn))
                && delivered(*final(conn)) == delivered(*old(conn)),
        },
{
    match conn.reader().read(buf) {
        Ok(n) => PlainRead::Taken(n),
        Err(e) if e.kind() == std::io::ErrorKind::WouldBlock => PlainRead::Empty,
        Err(_) => PlainRead::Broken,
    }
}

/// Takes all records that wait to be sent. It always succeeds.
pub fn drain_records(conn: &mut Connection) -> (r: Result<Vec<u8>, TunnelError>)
    ensures
        r matches Ok(v) && v@ == outgoing(*old(conn)) && outgoing(*final(conn)) == Seq::<
            u8,
        >::empty() && emitted(*final(conn)) == emitted(*old(conn)) + v@,
        processed(*final(conn)) == processed(*old(conn)),
        failed(*final(conn)) == failed(*old(conn)),
        received(*final(conn)) == received(*old(conn)),
        written(*final(conn)) == written(*old(conn)),
        fed(*final(conn)) == fed(*old(conn)),
        delivered(*final(conn)) == delivered(*old(conn)),
{
    let ghost all = outgoing(*conn);
    let ghost plain = received(*conn);
    assert(emitted(*conn) + Seq::<u8>::empty() =~= emitted(*conn));
    let mut out: Vec<u8> = Vec::new();
    assert(all =~= out@ + outgoing(*conn));
    loop
        invariant_except_break
            all == out@ + outgoing(*conn),
            emitted(*conn) == emitted(*old(conn)) + out@,
            received(*conn) == plain,
            plain == received(*old(conn)),
            written(*conn) == written(*old(conn)),
            fed(*conn) == fed(*old(conn)),
            delivered(*conn) == delivered(*old(conn)),
            processed(*conn) == processed(*old(conn)),
            failed(*conn) == failed(*old(conn)),
        ensures
            all == out@,
            emitted(*conn) == emitted(*old(conn)) + out@,
            outgoing(*conn) == Seq::<u8>::empty(),
            received(*conn) == plain,
            written(*conn) == written(*old(conn)),
            fed(*conn) == fed(*old(conn)),
            delivered(*conn) == delivered(*old(conn)),
            processed(*conn) == processed(*old(conn)),
            failed(*conn) == failed(*old(conn)),
        decreases outgoing(*conn).len(),
    {
        let ghost before = out@;
        let ghost waiting = outgoing(*conn);
        let n: usize = match take_records(conn, &mut out) {
            Ok(n) => n,
            Err(e) => {
                return Err(e);
            },
        };
        assert(waiting.take(n as int) + waiting.skip(n as int) =~= waiting);
        assert(out@ + outgoing(*conn) =~= before + waiting);
        assert(emitted(*conn) =~= emitted(*old(conn)) + out@);
        if n == 0 {
            assert(outgoing(*conn) =~= Seq::<u8>::empty());
            assert(out@ + outgoing(*conn) =~= out@);
            break;
        }
    }
    Ok(out)
}

/// Encrypts a payload. What comes out are all records that wait then: those that
/// waited before, and behind them those of the payload; none are left. The connection
/// has been given the payload to send, and nothing else. It fails exactly where the
/// connection does not take all of the payload.
pub fn encrypt_payload(conn: &mut Connection, plaintext: &[u8]) -> (r: Result<Vec<u8>, TunnelError>)
    ensures
        r is Ok <==> takes(*old(conn), plaintext@),
        r matches Err(e) ==> e == TunnelError::Write,
        plaintext@.len() == 0 ==> r is Ok,
        plaintext@.len() > 0 && failed(*old(conn)) ==> r is Err,
        processed(*final(conn)) == processed(*old(conn)),
        failed(*final(conn)) == failed(*old(conn)),
        r matches Ok(v) ==> begins_with(v@, outgoing(*old(conn))) && outgoing(*final(conn)) == Seq::<
            u8,
        >::empty() && written(*final(conn)) == written(*old(conn)) + plaintext@ && emitted(*final(conn))
            == emitted(*old(conn)) + v@,
        received(*final(conn)) == received(*old(conn)),
        fed(*final(conn)) == fed(*old(conn)),
        delivered(*final(conn)) == delivered(*old(conn)),
{
    match write_plaintext(conn, plaintext) {
        Ok(_) => drain_records(conn),
        Err(e) => Err(e),
    }
}

// ---- Records in, plaintext out ---------------------------------------------

/// How far into its bytes a connection has come that was given those from `at` on, of
/// `n` in all, when `given` is what it took of them. One that takes none at all
/// refuses them.
pub fn after_give(at: usize, n: usize, given: Result<usize, TunnelError>) -> (r: Result<
    usize,
    TunnelError,
>)
    requires
        at <= n,
        given matches Ok(taken) ==> taken <= n - at,
    ensures
        r == match given {
            Err(e) => Err(e),
            Ok(taken) => if taken == 0 {
                Err(TunnelError::GiveRecords)
            } else {
                Ok((at + taken) as usize)
            },
        },
{
    match given {
        Err(e) => Err(e),
        Ok(taken) => {
            if taken == 0 {
                Err(TunnelError::GiveRecords)
            } else {
                Ok(at + taken)
            }
        },
    }
}

/// Whether a connection took `bytes` piece by piece: `cuts` is how far it had come
/// before each piece and at last, and `states` is what it was then.
pub open spec fn given_through(
    states: Seq<Connection>,
    cuts: Seq<int>,
    bytes: Seq<u8>,
) -> bool {
    &&& 0 < states.len()
    &&& states.len() == cuts.len()
    &&& cuts[0] == 0
    &&& 0 <= cuts.last() <= bytes.len()
    &&& forall|k: int|
        0 <= k < states.len() - 1 ==> 0 <= cuts[k] < cuts[k + 1] <= bytes.len() && #[trigger] given(
            states[k],
            bytes.skip(cuts[k]),
        ) == Some((cuts[k + 1] - cuts[k]) as nat) && fed(states[k + 1]) == fed(states[k])
            + bytes.subrange(cuts[k], cuts[k + 1])
}

/// Whether a connection that was `before` was handed `bytes` until it had taken all of
/// them, or, where `all` does not hold, until it took no more; `now` is all that it
/// has been given then.
pub open spec fn handed(before: Connection, bytes: Seq<u8>, now: Seq<u8>, all: bool) -> bool {
    exists|states: Seq<Connection>, cuts: Seq<int>| #[trigger]
        given_through(states, cuts, bytes) && states[0] == before && now == fed(before)
            + bytes.take(cuts.last()) && if all {
            cuts.last() == bytes.len()
        } else {
            cuts.last() < bytes.len() && match given(states.last(), bytes.skip(cuts.last())) {
                Some(taken) => taken == 0,
                None => true,
            }
        }
}

/// Hands all of `bytes` to the connection and has it process them. Where it takes no
/// more of them, they are not processed.
pub fn feed(conn: &mut Connection, bytes: &[u8]) -> (r: Result<(), TunnelError>)
    ensures
        match r {
            Ok(_) => handed(*old(conn), bytes@, fed(*final(conn)), true),
            Err(TunnelError::Process) => handed(*old(conn), bytes@, fed(*final(conn)), true),
            Err(TunnelError::GiveRecords) => handed(*old(conn), bytes@, fed(*final(conn)), false),
            Err(_) => false,
        },
        r is Ok || r == Err::<(), TunnelError>(TunnelError::Process) ==> fed(*final(conn)) == fed(
            *old(conn),
        ) + bytes@ && processed(*final(conn)) == fed(*final(conn)) && (r is Ok <==> !failed(
            *final(conn),
        )),
        r == Err::<(), TunnelError>(TunnelError::GiveRecords) ==> processed(*final(conn))
            == processed(*old(conn)) && failed(*final(conn)) == failed(*old(conn)),
        failed(*old(conn)) ==> r is Err && failed(*final(conn)),
        cut_off(*final(conn)) ==> cut_off(*old(conn)),
        written(*final(conn)) == written(*old(conn)),
        emitted(*final(conn)) == emitted(*old(conn)),
        delivered(*final(conn)) == delivered(*old(conn)),
        begins_with(outgoing(*final(conn)), outgoing(*old(conn))),
        begins_with(received(*final(conn)), received(*old(conn))),
{
    let ghost records = outgoing(*conn);
    let ghost plain = received(*conn);
    let ghost mut states: Seq<Connection> = seq![*conn];
    let ghost mut cuts: Seq<int> = seq![0int];
    let mut at: usize = 0;
    let n: usize = bytes.len();
    assert(records.take(records.len() as int) =~= records);
    assert(plain.take(plain.len() as int) =~= plain);
    assert(fed(*conn) + bytes@.take(0) =~= fed(*conn));
    while at < n
        invariant
            at <= n,
            n == bytes@.len(),
            fed(*conn) == fed(*old(conn)) + bytes@.take(at as int),
            given_through(states, cuts, bytes@),
            states[0] == *old(conn),
            states.last() == *conn,
            cuts.last() == at,
            cut_off(*conn) == cut_off(*old(conn)),
            processed(*conn) == processed(*old(conn)),
            failed(*conn) == failed(*old(conn)),
            written(*conn) == written(*old(conn)),
            emitted(*conn) == emitted(*old(conn)),
            delivered(*conn) == delivered(*old(conn)),
            outgoing(*conn) == records,
            received(*conn) == plain,
            begins_with(records, outgoing(*old(conn))),
            begins_with(plain, received(*old(conn))),
        decreases n - at,
    {
        let ghost before = *conn;
        let ghost came = at as int;
        let rest: &[u8] = &bytes[at..n];
        assert(rest@ =~= bytes@.skip(came));
        let taken: Result<usize, TunnelError> = give_records(conn, rest);
        match after_give(at, n, taken) {
            Ok(next) => {
                at = next;
            },
            Err(e) => {
                assert(fed(*conn) =~= fed(before));
                assert(handed(*old(conn), bytes@, fed(*conn), false));
                return Err(e);
            },
        }
        proof {
            let piece = bytes@.subrange(came, at as int);
            assert(rest@.take(at - came) =~= piece);
            assert(bytes@.take(came) + piece =~= bytes@.take(at as int));
            assert(fed(*conn) =~= fed(*old(conn)) + bytes@.take(at as int));
            let (was, had) = (states, cuts);
            states = states.push(*conn);
            cuts = cuts.push(at as int);
            assert forall|k: int| 0 <= k < states.len() - 1 implies 0 <= cuts[k] < cuts[k + 1]
                <= bytes@.len() && #[trigger] given(states[k], bytes@.skip(cuts[k])) == Some(
                (cuts[k + 1] - cuts[k]) as nat,
            ) && fed(states[k + 1]) == fed(states[k]) + bytes@.subrange(cuts[k], cuts[k + 1]) by {
                if k < was.len() - 1 {
                    assert(states[k] == was[k] && states[k + 1] == was[k + 1]);
                    assert(cuts[k] == had[k] && cuts[k + 1] == had[k + 1]);
                    assert(given(was[k], bytes@.skip(had[k])) == Some(
                        (had[k + 1] - had[k]) as nat,
                    ));
                }
            }
        }
    }
    assert(bytes@.take(n as int) =~= bytes@);
    assert(handed(*old(conn), bytes@, fed(*conn), true));
    process_records(conn)
}

/// How much plaintext is read at once.
pub const READ_SIZE: usize = 4096;

/// Takes the outcome of a read: what was read, from the front of `buf`, goes behind
/// `out`. Says whether there may be more.
pub fn after_read(out: &mut Vec<u8>, buf: &[u8], got: PlainRead) -> (r: Result<bool, TunnelError>)
    requires
        got matches PlainRead::Taken(n) ==> n <= buf@.len(),
    ensures
        match got {
            PlainRead::Taken(n) => final(out)@ == old(out)@ + buf@.take(n as int) && r == Ok::<
                bool,
                TunnelError,
            >(n > 0),
            PlainRead::Empty => final(out)@ == old(out)@ && r == Ok::<bool, TunnelError>(false),
            PlainRead::Broken => final(out)@ == old(out)@ && r == Err::<bool, TunnelError>(
                TunnelError::Read,
            ),
        },
{
    match got {
        PlainRead::Taken(n) => {
            let read: &[u8] = &buf[0..n];
            assert(read@ =~= buf@.take(n as int));
            octets::push_all(out, read);
            Ok(n > 0)
        },
        PlainRead::Empty => Ok(false),
        PlainRead::Broken => Err(TunnelError::Read),
    }
}

/// Takes all plaintext that waits to be read. It fails exactly where the connection was
/// cut off.
pub fn drain_plaintext(conn: &mut Connection) -> (r: Result<Vec<u8>, TunnelError>)
    ensures
        if cut_off(*old(conn)) {
            r == Err::<Vec<u8>, TunnelError>(TunnelError::Read)
        } else {
            r matches Ok(v) && v@ == received(*old(conn))
        },
        received(*final(conn)) == Seq::<u8>::empty(),
        delivered(*final(conn)) == delivered(*old(conn)) + received(*old(conn)),
        cut_off(*final(conn)) == cut_off(*old(conn)),
        outgoing(*final(conn)) == outgoing(*old(conn)),
        written(*final(conn)) == written(*old(conn)),
        emitted(*final(conn)) == emitted(*old(conn)),
        fed(*final(conn)) == fed(*old(conn)),
        processed(*final(conn)) == processed(*old(conn)),
        failed(*final(conn)) == failed(*old(conn)),
{
    let ghost all = received(*conn);
    let mut out: Vec<u8> = Vec::new();
    let mut tmp: [u8; 4096] = [0; 4096];
    assert(all =~= out@ + received(*conn));
    assert(delivered(*conn) =~= delivered(*old(conn)) + out@);
    loop
        invariant_except_break
            all == out@ + received(*conn),
            tmp@.len() == READ_SIZE,
        invariant
            all == received(*old(conn)),
            delivered(*conn) == delivered(*old(conn)) + out@,
            cut_off(*conn) == cut_off(*old(conn)),
            outgoing(*conn) == outgoing(*old(conn)),
            written(*conn) == written(*old(conn)),
            emitted(*conn) == emitted(*old(conn)),
            fed(*conn) == fed(*old(conn)),
            processed(*conn) == processed(*old(conn)),
            failed(*conn) == failed(*old(conn)),
        ensures
            all == out@,
            received(*conn) == Seq::<u8>::empty(),
            !cut_off(*old(conn)),
        decreases received(*conn).len(),
    {
        let ghost before = out@;
        let ghost waiting = received(*conn);
        let got: PlainRead = read_plaintext(conn, &mut tmp);
        match after_read(&mut out, &tmp, got) {
            Ok(more) => {
                proof {
                    if got is Taken {
                        let n = got->Taken_0;
                        assert(waiting.take(n as int) + waiting.skip(n as int) =~= waiting);
                        assert(out@ =~= before + waiting.take(n as int));
                        assert(delivered(*conn) =~= delivered(*old(conn)) + out@);
                    }
                    assert(out@ + received(*conn) =~= before + waiting);
                }
                if !more {
                    assert(received(*conn) =~= Seq::<u8>::empty());
                    assert(out@ + received(*conn) =~= out@);
                    break;
                }
            },
            Err(e) => {
                assert(received(*conn) =~= Seq::<u8>::empty());
                assert(out@ + received(*conn) =~= out@);
                return Err(e);
            },
        }
    }
    Ok(out)
}

/// Decrypts a payload. What comes out is all plaintext that waits once the payload
/// is processed, beginning with what waited before; none is left. The connection has
/// been given the payload, and nothing else, and has processed it. It fails where the
/// connection does not take all of the payload, meets a fatal error, or is cut off.
pub fn decrypt_payload(conn: &mut Connection, ciphertext: &[u8]) -> (r: Result<
    Vec<u8>,
    TunnelError,
>)
    ensures
        r matches Ok(v) ==> begins_with(v@, received(*old(conn))) && received(*final(conn))
            == Seq::<u8>::empty() && fed(*final(conn)) == fed(*old(conn)) + ciphertext@
            && delivered(*final(conn)) == delivered(*old(conn)) + v@ && !cut_off(*final(conn)),
        match r {
            Ok(_) => handed(*old(conn), ciphertext@, fed(*final(conn)), true),
            Err(TunnelError::Process) => handed(*old(conn), ciphertext@, fed(*final(conn)), true)
                && delivered(*final(conn)) == delivered(*old(conn)),
            Err(TunnelError::GiveRecords) => handed(
                *old(conn),
                ciphertext@,
                fed(*final(conn)),
                false,
            ) && delivered(*final(conn)) == delivered(*old(conn)),
            Err(TunnelError::Read) => handed(*old(conn), ciphertext@, fed(*final(conn)), true)
                && cut_off(*final(conn)) && received(*final(conn)).len() == 0,
            Err(_) => false,
        },
        if r == Err::<Vec<u8>, TunnelError>(TunnelError::GiveRecords) {
            processed(*final(conn)) == processed(*old(conn)) && failed(*final(conn)) == failed(
                *old(conn),
            )
        } else {
            processed(*final(conn)) == fed(*final(conn)) && (failed(*final(conn)) <==> r == Err::<
                Vec<u8>,
                TunnelError,
            >(TunnelError::Process))
        },
        failed(*old(conn)) ==> r is Err && failed(*final(conn)),
        cut_off(*final(conn)) ==> cut_off(*old(conn)),
        begins_with(outgoing(*final(conn)), outgoing(*old(conn))),
        written(*final(conn)) == written(*old(conn)),
        emitted(*final(conn)) == emitted(*old(conn)),
{
    match feed(conn, ciphertext) {
        Ok(_) => drain_plaintext(conn),
        Err(e) => Err(e),
    }
}

} // verus!
