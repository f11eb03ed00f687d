//! Events of the kernel.
//!
//! An event is a list of records, each ended by a zero. Accessory mode has begun when
//! one of them is `DEVNAME=usb_accessory` and one is `ACCESSORY=START`.
use crate::octets;
use vstd::prelude::*;

verus! {

/// `DEVNAME=usb_accessory`.
pub const DEVNAME_RECORD: [u8; 21] = [
    0x44, 0x45, 0x56, 0x4e, 0x41, 0x4d, 0x45, 0x3d, 0x75, 0x73, 0x62, 0x5f, 0x61, 0x63, 0x63, 0x65,
    0x73, 0x73, 0x6f, 0x72, 0x79,
];

/// `ACCESSORY=START`.
pub const START_RECORD: [u8; 15] = [
    0x41, 0x43, 0x43, 0x45, 0x53, 0x53, 0x4f, 0x52, 0x59, 0x3d, 0x53, 0x54, 0x41, 0x52, 0x54,
];

/// Whether `record` is the record of `s` that begins at `i`: nothing, or a zero, stands
/// before it and behind it.
pub open spec fn stands(s: Seq<u8>, i: int, record: Seq<u8>) -> bool {
    let end = i + record.len();
    &&& 0 <= i
    &&& end <= s.len()
    &&& s.subrange(i, end) == record
    &&& i == 0 || s[i - 1] == 0
    &&& end == s.len() || s[end] == 0
}

/// Whether `record` is one of the records of `s`.
pub open spec fn has_record(s: Seq<u8>, record: Seq<u8>) -> bool {
    exists|i: int| stands(s, i, record)
}

/// Whether an event says that accessory mode has begun.
pub open spec fn accessory_started(packet: Seq<u8>) -> bool {
    has_record(packet, DEVNAME_RECORD@) && has_record(packet, START_RECORD@)
}

fn holds(packet: &[u8], record: &[u8]) -> (r: bool)
    ensures
        r == has_record(packet@, record@),
{
    let n: usize = packet.len();
    let len: usize = record.len();
    if len > n {
        return false;
    }
    let last: usize = n - len;
    let mut i: usize = 0;
    loop
        invariant
            n == packet@.len(),
            len == record@.len(),
            last == n - len,
            i <= last,
            forall|j: int| 0 <= j < i ==> !stands(packet@, j, record@),
        decreases last - i,
    {
        let end: usize = i + len;
        if (i == 0 || packet[i - 1] == 0) && (end == n || packet[end] == 0) {
            if octets::bytes_equal(&packet[i..end], record) {
                assert(stands(packet@, i as int, record@));
                return true;
            }
        }
        assert(!stands(packet@, i as int, record@));
        if i == last {
            return false;
        }
        i += 1;
    }
}

/// Whether an event says that accessory mode has begun.
pub fn is_accessory_start(packet: &[u8]) -> (r: bool)
    ensures
        r == accessory_started(packet@),
{
    let devname: [u8; 21] = DEVNAME_RECORD;
    let start: [u8; 15] = START_RECORD;
    holds(packet, &devname) && holds(packet, &start)
}

/// The records are these texts.
pub proof fn lemma_records()
    ensures
        DEVNAME_RECORD@ == Seq::new(21, |i: int| "DEVNAME=usb_accessory"@[i] as u8),
        START_RECORD@ == Seq::new(15, |i: int| "ACCESSORY=START"@[i] as u8),
        "DEVNAME=usb_accessory"@.len() == 21,
        "ACCESSORY=START"@.len() == 15,
{
    reveal_strlit("DEVNAME=usb_accessory");
    reveal_strlit("ACCESSORY=START");
    let devname = Seq::new(21, |i: int| "DEVNAME=usb_accessory"@[i] as u8);
    let start = Seq::new(15, |i: int| "ACCESSORY=START"@[i] as u8);
    assert(devname[0] == DEVNAME_RECORD@[0]);
    assert(devname[1] == DEVNAME_RECORD@[1]);
    assert(devname[2] == DEVNAME_RECORD@[2]);
    assert(devname[3] == DEVNAME_RECORD@[3]);
    assert(devname[4] == DEVNAME_RECORD@[4]);
    assert(devname[5] == DEVNAME_RECORD@[5]);
    assert(devname[6] == DEVNAME_RECORD@[6]);
    assert(devname[7] == DEVNAME_RECORD@[7]);
    assert(devname[8] == DEVNAME_RECORD@[8]);
    assert(devname[9] == DEVNAME_RECORD@[9]);
    assert(devname[10] == DEVNAME_RECORD@[10]);
    assert(devname[11] == DEVNAME_RECORD@[11]);
    assert(devname[12] == DEVNAME_RECORD@[12]);
    assert(devname[13] == DEVNAME_RECORD@[13]);
    assert(devname[14] == DEVNAME_RECORD@[14]);
    assert(devname[15] == DEVNAME_RECORD@[15]);
    assert(devname[16] == DEVNAME_RECORD@[16]);
    assert(devname[17] == DEVNAME_RECORD@[17]);
    assert(devname[18] == DEVNAME_RECORD@[18]);
    assert(devname[19] == DEVNAME_RECORD@[19]);
    assert(devname[20] == DEVNAME_RECORD@[20]);
    assert(start[0] == START_RECORD@[0]);
    assert(start[1] == START_RECORD@[1]);
    assert(start[2] == START_RECORD@[2]);
    assert(start[3] == START_RECORD@[3]);
    assert(start[4] == START_RECORD@[4]);
    assert(start[5] == START_RECORD@[5]);
    assert(start[6] == START_RECORD@[6]);
    assert(start[7] == START_RECORD@[7]);
    assert(start[8] == START_RECORD@[8]);
    assert(start[9] == START_RECORD@[9]);
    assert(start[10] == START_RECORD@[10]);
    assert(start[11] == START_RECORD@[11]);
    assert(start[12] == START_RECORD@[12]);
    assert(start[13] == START_RECORD@[13]);
    assert(start[14] == START_RECORD@[14]);
    assert(DEVNAME_RECORD@ =~= devname);
    assert(START_RECORD@ =~= start);
}

/// Accessory mode has begun where both records are among those of an event, in either
/// order and whatever else is there.
pub proof fn lemma_both_records_start(a: Seq<u8>, b: Seq<u8>, c: Seq<u8>)
    ensures
        accessory_started(
            a + seq![0u8] + DEVNAME_RECORD@ + seq![0u8] + b + seq![0u8] + START_RECORD@ + seq![0u8]
                + c,
        ),
        accessory_started(
            a + seq![0u8] + START_RECORD@ + seq![0u8] + b + seq![0u8] + DEVNAME_RECORD@ + seq![0u8]
                + c,
        ),
{
    let d = DEVNAME_RECORD@;
    let s = START_RECORD@;
    let z = seq![0u8];
    let one = a + z + d + z + b + z + s + z + c;
    let two = a + z + s + z + b + z + d + z + c;
    let n = (a.len() + 1) as int;
    let m = (a.len() + 1 + d.len() + 1 + b.len() + 1) as int;
    let k = (a.len() + 1 + s.len() + 1 + b.len() + 1) as int;
    assert(one.subrange(n, n + d.len()) =~= d);
    assert(one.subrange(m, m + s.len()) =~= s);
    assert(stands(one, n, d));
    assert(stands(one, m, s));
    assert(two.subrange(n, n + s.len()) =~= s);
    assert(two.subrange(k, k + d.len()) =~= d);
    assert(stands(two, n, s));
    assert(stands(two, k, d));
}

/// An event that lacks either record does not start accessory mode; a record counts only
/// where it is whole.
pub proof fn lemma_no_start_without(packet: Seq<u8>)
    ensures
        accessory_started(packet) ==> exists|i: int, j: int|
            {
                &&& #[trigger] stands(packet, i, DEVNAME_RECORD@)
                &&& #[trigger] stands(packet, j, START_RECORD@)
            },
        packet.len() < 37 ==> !accessory_started(packet),
{
    if accessory_started(packet) {
        let i = choose|i: int| stands(packet, i, DEVNAME_RECORD@);
        let j = choose|j: int| stands(packet, j, START_RECORD@);
        assert(stands(packet, i, DEVNAME_RECORD@) && stands(packet, j, START_RECORD@));
        let d = packet.subrange(i, i + 21);
        let s = packet.subrange(j, j + 15);
        assert(d == DEVNAME_RECORD@ && s == START_RECORD@);
        assert(packet[i] == d[0] && packet[i + 1] == d[1] && packet[j] == s[0]);
        if packet.len() < 37 {
            if i <= j && j < i + 21 {
                lemma_apart(packet, i, j);
            }
            if j < i && i < j + 15 {
                lemma_apart(packet, i, j);
            }
        }
    }
}

proof fn lemma_apart(packet: Seq<u8>, i: int, j: int)
    requires
        stands(packet, i, DEVNAME_RECORD@),
        stands(packet, j, START_RECORD@),
    ensures
        i + 21 < j || j + 15 < i,
{
    let d = packet.subrange(i, i + 21);
    let s = packet.subrange(j, j + 15);
    assert(forall|x: int| 0 <= x < 21 ==> DEVNAME_RECORD@[x] != 0);
    assert(forall|x: int| 0 <= x < 15 ==> START_RECORD@[x] != 0);
    assert(forall|x: int| i <= x < i + 21 ==> packet[x] == #[trigger] d[x - i]);
    assert(forall|x: int| j <= x < j + 15 ==> packet[x] == #[trigger] s[x - j]);
    assert(packet[i] == d[0] && packet[j] == s[0]);
    if i < j <= i + 21 {
        if j - 1 < i + 21 {
            assert(packet[j - 1] == d[j - 1 - i]);
        }
    }
    if j < i <= j + 15 {
        if i - 1 < j + 15 {
            assert(packet[i - 1] == s[i - 1 - j]);
        }
    }
}

} // verus!
