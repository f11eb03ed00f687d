//! The accessory handshake over FunctionFS.
//!
//! A head unit asks for the protocol, sends strings that say who it is, and starts
//! accessory mode. Each is a control request that the kernel reports as an event
//! ([`decode_event`]).
use crate::octets;
use crate::text;
use vstd::prelude::*;

verus! {

/// The directory of the gadget.
pub const GADGET_PATH: &'static str = "/config/usb_gadget/aabox";

/// Where the function's files are.
pub const FFS_MOUNT: &'static str = "/dev/usb-ffs/aabox";

/// The control endpoint.
pub const EP0: &'static str = "/dev/usb-ffs/aabox/ep0";

/// The endpoint that is read.
pub const EP_OUT: &'static str = "/dev/usb-ffs/aabox/ep1";

/// The endpoint that is written.
pub const EP_IN: &'static str = "/dev/usb-ffs/aabox/ep2";

/// Which controller the other gadget is bound to.
pub const G1_UDC: &'static str = "/config/usb_gadget/g1/UDC";

pub const AOA_GET_PROTOCOL: u8 = 51;

pub const AOA_SEND_STRING: u8 = 52;

pub const AOA_START: u8 = 53;

pub const FFS_BIND: u8 = 0;

pub const FFS_UNBIND: u8 = 1;

pub const FFS_ENABLE: u8 = 2;

pub const FFS_DISABLE: u8 = 3;

pub const FFS_SETUP: u8 = 4;

/// The length of an event.
pub const FFS_EVENT_SIZE: usize = 12;

/// The length of the header of the descriptors.
pub const DESCRIPTORS_HEADER: u32 = 20;

/// An interface of a vendor's class with two endpoints.
pub open spec fn interface() -> Seq<u8> {
    seq![9, 4, 0, 0, 2, 0xff, 0xff, 0x00, 0]
}

/// A bulk endpoint with this address and packet size.
pub open spec fn bulk_endpoint(address: u8, packet: u16) -> Seq<u8> {
    seq![7u8, 5, address, 0x02] + octets::le16(packet) + seq![0u8]
}

/// The descriptors for one speed.
pub open spec fn speed_descriptors(packet: u16) -> Seq<u8> {
    interface() + bulk_endpoint(0x01, packet) + bulk_endpoint(0x81, packet)
}

/// The descriptors that the kernel is given: a header with their length and how many
/// there are for full and for high speed, and the descriptors.
pub open spec fn descriptors() -> Seq<u8> {
    let full = speed_descriptors(64);
    let high = speed_descriptors(512);
    octets::le32(3) + octets::le32((DESCRIPTORS_HEADER + full.len() + high.len()) as u32)
        + octets::le32(3) + octets::le32(3) + octets::le32(3) + full + high
}

fn push_endpoint(out: &mut Vec<u8>, address: u8, packet: u16)
    ensures
        final(out)@ == old(out)@ + bulk_endpoint(address, packet),
{
    let ghost before = out@;
    out.push(7);
    out.push(5);
    out.push(address);
    out.push(0x02);
    octets::push_le16(out, packet);
    out.push(0);
    assert(out@ =~= before + bulk_endpoint(address, packet));
}

fn push_speed(out: &mut Vec<u8>, packet: u16)
    ensures
        final(out)@ == old(out)@ + speed_descriptors(packet),
{
    let ghost before = out@;
    let intf: [u8; 9] = [9, 4, 0, 0, 2, 0xff, 0xff, 0x00, 0];
    octets::push_all(out, &intf);
    assert(intf@ =~= interface());
    push_endpoint(out, 0x01, packet);
    push_endpoint(out, 0x81, packet);
    assert(out@ =~= before + speed_descriptors(packet));
}

/// The descriptors that the kernel is given.
pub fn build_descriptors() -> (r: Vec<u8>)
    ensures
        r@ == descriptors(),
        r@.len() == 66,
        octets::le32_at(r@, 4) == r@.len(),
{
    let mut out: Vec<u8> = Vec::new();
    octets::push_le32(&mut out, 3);
    octets::push_le32(&mut out, 66);
    octets::push_le32(&mut out, 3);
    octets::push_le32(&mut out, 3);
    octets::push_le32(&mut out, 3);
    push_speed(&mut out, 64);
    push_speed(&mut out, 512);
    proof {
        octets::lemma_le32_read_back(66);
        assert(speed_descriptors(64).len() == 23);
        assert(speed_descriptors(512).len() == 23);
    }
    assert(out@ =~= descriptors());
    assert(out@[4] == octets::le32(66)[0] && out@[5] == octets::le32(66)[1] && out@[6]
        == octets::le32(66)[2] && out@[7] == octets::le32(66)[3]);
    out
}

/// The strings that the kernel is given: none.
pub open spec fn strings() -> Seq<u8> {
    octets::le32(2) + octets::le32(16) + octets::le32(0) + octets::le32(0)
}

/// The strings that the kernel is given.
pub fn build_strings() -> (r: Vec<u8>)
    ensures
        r@ == strings(),
{
    let mut out: Vec<u8> = Vec::new();
    octets::push_le32(&mut out, 2);
    octets::push_le32(&mut out, 16);
    octets::push_le32(&mut out, 0);
    octets::push_le32(&mut out, 0);
    assert(out@ =~= strings());
    out
}

/// What is to be done about an event.
#[derive(Debug, Clone, Copy, PartialEq, Eq, Structural)]
pub enum FfsAction {
    /// Nothing.
    Ignore,
    /// Answer with the version of the protocol.
    SendVersion,
    /// Read a string of this length; it is the one with this index.
    ReadString { index: u16, length: u16 },
    /// Open the endpoints: accessory mode has begun.
    Start,
    /// Read this many bytes and forget them.
    Drain(u16),
}

/// What is to be done about an event.
pub open spec fn action_of(event: Seq<u8>) -> FfsAction {
    if event[8] != FFS_SETUP {
        FfsAction::Ignore
    } else if event[1] == AOA_GET_PROTOCOL {
        FfsAction::SendVersion
    } else if event[1] == AOA_SEND_STRING {
        FfsAction::ReadString {
            index: octets::le16_at(event, 4),
            length: octets::le16_at(event, 6),
        }
    } else if event[1] == AOA_START {
        FfsAction::Start
    } else if event[0] < 0x80 && octets::le16_at(event, 6) > 0 {
        FfsAction::Drain(octets::le16_at(event, 6))
    } else {
        FfsAction::Ignore
    }
}

/// Reads an event.
pub fn decode_event(event: &[u8]) -> (r: FfsAction)
    requires
        event@.len() == FFS_EVENT_SIZE,
    ensures
        r == action_of(event@),
{
    if event[8] != FFS_SETUP {
        return FfsAction::Ignore;
    }
    let index: u16 = octets::read_le16(event, 4);
    let length: u16 = octets::read_le16(event, 6);
    match event[1] {
        AOA_GET_PROTOCOL => FfsAction::SendVersion,
        AOA_SEND_STRING => FfsAction::ReadString { index, length },
        AOA_START => FfsAction::Start,
        _ => {
            if event[0] < 0x80 && length > 0 {
                FfsAction::Drain(length)
            } else {
                FfsAction::Ignore
            }
        },
    }
}

/// The version of the protocol, as it is answered.
pub const AOA_VERSION: [u8; 2] = [0x00, 0x02];

/// `s` without the zeros at its end.
pub open spec fn without_nuls(s: Seq<u8>) -> Seq<u8>
    decreases s.len(),
{
    if s.len() > 0 && s.last() == 0 {
        without_nuls(s.drop_last())
    } else {
        s
    }
}

/// A string of the head unit without the zeros at its end.
pub fn trim_nuls(data: &[u8]) -> (r: &[u8])
    ensures
        r@ == without_nuls(data@),
{
    let mut n: usize = data.len();
    assert(data@.subrange(0, n as int) =~= data@);
    while n > 0 && data[n - 1] == 0
        invariant
            n <= data@.len(),
            without_nuls(data@) == without_nuls(data@.subrange(0, n as int)),
        decreases n,
    {
        assert(data@.subrange(0, n as int).drop_last() =~= data@.subrange(0, n - 1));
        n -= 1;
    }
    &data[0..n]
}

fn trimmed_is(content: &str, other: &str) -> (r: bool)
    ensures
        r == (text::trimmed(content@) == other@),
{
    let chars: Vec<char> = text::chars_of(content);
    let n: usize = chars.len();
    assert(chars@.subrange(0, n as int) =~= chars@);
    let (a, b) = text::trim_range(&chars, 0, n);
    let wanted: Vec<char> = text::chars_of(other);
    let ghost part = chars@.subrange(a as int, b as int);
    assert(part.len() == wanted@.len() ==> part.subrange(0, wanted@.len() as int) =~= part);
    b - a == wanted.len() && text::range_starts_with(&chars, a, b, other)
}

/// Whether a gadget's controller file says that it is bound to none.
pub fn is_unbound(content: &str) -> (r: bool)
    ensures
        r == (text::trimmed(content@) == ""@),
{
    trimmed_is(content, "")
}

/// Whether a gadget's controller file says that it has been released.
pub open spec fn released(content: Seq<char>) -> bool {
    text::trimmed(content) == ""@ || text::trimmed(content) == "none"@
}

/// How often it is asked whether the other gadget has been released.
pub const RELEASE_POLLS: u32 = 40;

/// What follows a look at the other gadget's controller file; `attempt` counts from
/// zero.
pub fn release_step(attempt: u32, content: &str) -> (r: BindStep)
    ensures
        r == if released(content@) {
            BindStep::Done
        } else if attempt + 1 < RELEASE_POLLS {
            BindStep::Retry
        } else {
            BindStep::Fail
        },
        r is Done <==> text::trimmed(content@) == ""@ || text::trimmed(content@) == "none"@,
        r is Retry ==> attempt < 39,
        r is Fail ==> attempt >= 39,
{
    if trimmed_is(content, "") || trimmed_is(content, "none") {
        BindStep::Done
    } else if attempt < RELEASE_POLLS - 1 {
        BindStep::Retry
    } else {
        BindStep::Fail
    }
}

/// Whether a gadget's controller file names this controller.
pub fn is_bound_to(content: &str, udc: &str) -> (r: bool)
    ensures
        r == (text::trimmed(content@) == udc@),
{
    trimmed_is(content, udc)
}

/// How an attempt to bind the gadget ended.
#[derive(Debug, Clone, Copy, PartialEq, Eq, Structural)]
pub enum BindOutcome {
    Bound,
    /// The controller is busy.
    Busy,
    Failed,
}

/// What follows an attempt.
#[derive(Debug, Clone, Copy, PartialEq, Eq, Structural)]
pub enum BindStep {
    Done,
    /// Wait and try again.
    Retry,
    /// Give up.
    Fail,
}

/// How often it is tried to bind the gadget.
pub const BIND_ATTEMPTS: u32 = 10;

/// What follows an attempt to bind the gadget; `attempt` counts from zero.
pub fn bind_step(attempt: u32, outcome: BindOutcome) -> (r: BindStep)
    ensures
        r == match outcome {
            BindOutcome::Bound => BindStep::Done,
            BindOutcome::Busy => if attempt + 1 < BIND_ATTEMPTS {
                BindStep::Retry
            } else {
                BindStep::Fail
            },
            BindOutcome::Failed => BindStep::Fail,
        },
        r is Done <==> outcome is Bound,
        r is Retry <==> outcome is Busy && attempt < 9,
{
    match outcome {
        BindOutcome::Bound => BindStep::Done,
        BindOutcome::Busy => {
            if attempt < BIND_ATTEMPTS - 1 {
                BindStep::Retry
            } else {
                BindStep::Fail
            }
        },
        BindOutcome::Failed => BindStep::Fail,
    }
}

/// What an event asks for. Only a setup counts, which is the fourth kind of event: 51
/// asks for the version, 52 announces a string with its index and length, and 53 starts
/// accessory mode; of another one that brings bytes the bytes are forgotten.
pub proof fn lemma_actions(event: Seq<u8>)
    ensures
        event[8] != 4 ==> action_of(event) is Ignore,
        action_of(event) is SendVersion <==> event[8] == 4 && event[1] == 51,
        action_of(event) is ReadString <==> event[8] == 4 && event[1] == 52,
        action_of(event) matches FfsAction::ReadString { index, length } ==> index == event[4] + 256
            * event[5] && length == event[6] + 256 * event[7],
        action_of(event) is Start <==> event[8] == 4 && event[1] == 53,
        action_of(event) is Drain <==> event[8] == 4 && !(51 <= event[1] <= 53) && event[0] < 128 && (
        event[6] > 0 || event[7] > 0),
        action_of(event) matches FfsAction::Drain(n) ==> n == event[6] + 256 * event[7],
{
}

/// What the kernel is told of the interface: it is of a vendor's own class and has two
/// bulk endpoints, one to read and one to write, with packets of 64 bytes at full speed
/// and of 512 at high speed. Each descriptor says how long it is.
pub proof fn lemma_descriptors(packet: u16)
    ensures
        ({
            let s = speed_descriptors(packet);
            &&& s.len() == 23
            &&& s[0] == 9 && s[1] == 4 && s[4] == 2 && s[5] == 0xff && s[6] == 0xff
            &&& s[9] == 7 && s[10] == 5 && s[11] == 0x01 && s[12] == 2
            &&& s[13] + 256 * s[14] == packet
            &&& s[16] == 7 && s[17] == 5 && s[18] == 0x81 && s[19] == 2
            &&& s[20] + 256 * s[21] == packet
        }),
        descriptors().len() == 66,
        descriptors().subrange(20, 43) == speed_descriptors(64),
        descriptors().subrange(43, 66) == speed_descriptors(512),
        octets::le32_at(descriptors(), 0) == 3,
        octets::le32_at(descriptors(), 4) == 66,
        octets::le32_at(descriptors(), 8) == 3,
        octets::le32_at(descriptors(), 12) == 3,
        octets::le32_at(descriptors(), 16) == 3,
        strings().len() == 16,
        octets::le32_at(strings(), 0) == 2,
        octets::le32_at(strings(), 4) == 16,
        octets::le32_at(strings(), 8) == 0,
        octets::le32_at(strings(), 12) == 0,
{
    assert(speed_descriptors(64).len() == 23);
    assert(speed_descriptors(512).len() == 23);
    assert(descriptors().subrange(20, 43) =~= speed_descriptors(64));
    assert(descriptors().subrange(43, 66) =~= speed_descriptors(512));
    let head = octets::le32(3) + octets::le32(66) + octets::le32(3) + octets::le32(3)
        + octets::le32(3);
    assert(descriptors().subrange(0, 20) =~= head);
    assert(forall|i: int| 0 <= i < 20 ==> #[trigger] descriptors()[i] == head[i]);
}

/// A string of the head unit loses the zeros at its end, all of them, and nothing else.
pub proof fn lemma_nuls(s: Seq<u8>)
    ensures
        without_nuls(s).len() <= s.len(),
        without_nuls(s) == s.take(without_nuls(s).len() as int),
        forall|i: int| without_nuls(s).len() <= i < s.len() ==> #[trigger] s[i] == 0,
        without_nuls(s).len() > 0 ==> without_nuls(s).last() != 0,
    decreases s.len(),
{
    if s.len() > 0 && s.last() == 0 {
        let t = s.drop_last();
        lemma_nuls(t);
        assert(t.take(without_nuls(t).len() as int) =~= s.take(without_nuls(t).len() as int));
        assert forall|i: int| without_nuls(s).len() <= i < s.len() implies #[trigger] s[i] == 0 by {
            if i < t.len() {
                assert(s[i] == t[i]);
            }
        }
    } else {
        assert(s.take(s.len() as int) =~= s);
    }
}

} // verus!
