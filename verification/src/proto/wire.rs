//! The wire format of protobuf: varints and fields.
//!
//! A message is a sequence of fields. A field is a key, which holds the field's
//! tag and how its value is written, and the value. [`fields`] says which fields
//! a sequence of bytes holds, and [`encoded`] which bytes stand for fields; the
//! one undoes the other ([`lemma_fields_of_encoded`]).
use vstd::prelude::*;

verus! {

/// The bytes of a varint: seven bits to a byte, the low ones first, and the high
/// bit set in every byte but the last.
pub open spec fn varint(v: u64) -> Seq<u8>
    decreases v,
{
    if v < 128 {
        seq![v as u8]
    } else {
        seq![(v % 128 + 128) as u8] + varint(v / 128)
    }
}

/// The varint in `s` of which the first `k` bytes are read: what the rest of it
/// stands for, and where it ends. A varint has at most ten bytes and at most
/// sixty-four bits.
pub open spec fn varint_from(s: Seq<u8>, k: nat) -> Option<(nat, nat)>
    decreases 10 - k,
{
    if k >= s.len() || k >= 10 {
        None
    } else {
        let b = s[k as int];
        if k == 9 && b >= 2 {
            None
        } else if b < 128 {
            Some((b as nat, k + 1))
        } else {
            match varint_from(s, k + 1) {
                None => None,
                Some((v, end)) => Some(((b - 128 + 128 * v) as nat, end)),
            }
        }
    }
}

/// The varint at the front of `s`, and the number of bytes it takes.
pub open spec fn read_varint(s: Seq<u8>) -> Option<(nat, nat)> {
    varint_from(s, 0)
}

/// One more than the largest number that a varint can hold after its first `k`
/// bytes.
spec fn bound(k: nat) -> nat
    decreases 9 - k,
{
    if k >= 9 {
        2
    } else {
        128 * bound(k + 1)
    }
}

proof fn lemma_varint_from(before: Seq<u8>, v: u64, rest: Seq<u8>)
    requires
        before.len() <= 9,
        v < bound(before.len()),
    ensures
        varint_from(before + varint(v) + rest, before.len()) == Some(
            (v as nat, before.len() + varint(v).len()),
        ),
    decreases v,
{
    let s = before + varint(v) + rest;
    let k = before.len();
    assert(s[k as int] == varint(v)[0]);
    if v >= 128 {
        let b = (v % 128 + 128) as u8;
        assert(k < 9);
        assert(s =~= before.push(b) + varint(v / 128) + rest);
        lemma_varint_from(before.push(b), v / 128, rest);
    }
}

/// A varint is read back, whatever follows it.
pub proof fn lemma_varint_read_back(v: u64, rest: Seq<u8>)
    ensures
        read_varint(varint(v) + rest) == Some((v as nat, varint(v).len())),
{
    assert(bound(0) == 0x1_0000_0000_0000_0000) by {
        reveal_with_fuel(bound, 10);
    }
    lemma_varint_from(Seq::empty(), v, rest);
    assert(Seq::<u8>::empty() + varint(v) + rest =~= varint(v) + rest);
}

proof fn lemma_varint_from_bounds(s: Seq<u8>, k: nat)
    ensures
        varint_from(s, k) matches Some((v, end)) ==> k < end <= s.len() && v < bound(k),
    decreases 10 - k,
{
    if k < s.len() && k < 10 {
        if k < 9 {
            lemma_varint_from_bounds(s, k + 1);
            assert(bound(k) == 128 * bound(k + 1));
            assert(bound(k + 1) >= 2) by {
                lemma_bound_positive(k + 1);
            }
        }
    }
}

proof fn lemma_bound_positive(k: nat)
    ensures
        bound(k) >= 2,
    decreases 9 - k,
{
    if k < 9 {
        lemma_bound_positive(k + 1);
    }
}

/// A varint takes at least one byte and no more than there are, and fits sixty-four
/// bits.
pub proof fn lemma_varint_bounds(s: Seq<u8>)
    ensures
        read_varint(s) matches Some((v, n)) ==> 0 < n <= s.len() && v <= u64::MAX,
{
    assert(bound(0) == 0x1_0000_0000_0000_0000) by {
        reveal_with_fuel(bound, 10);
    }
    lemma_varint_from_bounds(s, 0);
}

proof fn lemma_varint_len_from(v: u64, k: nat)
    requires
        k <= 9,
        v < bound(k),
    ensures
        varint(v).len() + k <= 10,
    decreases v,
{
    if v >= 128 {
        lemma_varint_len_from(v / 128, k + 1);
    }
}

/// A varint takes at most ten bytes.
pub proof fn lemma_varint_len(v: u64)
    ensures
        varint(v).len() <= 10,
{
    assert(bound(0) == 0x1_0000_0000_0000_0000) by {
        reveal_with_fuel(bound, 10);
    }
    lemma_varint_len_from(v, 0);
}

/// Calls `prost::encoding::encode_varint`. Trusted: it appends the varint.
#[verifier::external_body]
pub(crate) fn encode_varint(v: u64, out: &mut Vec<u8>)
    ensures
        final(out)@ == old(out)@ + varint(v),
{
    prost::encoding::encode_varint(v, out)
}

/// Calls `prost::encoding::decode_varint`. Trusted: it reads the varint at the
/// front and leaves what follows it, and fails where there is none.
#[verifier::external_body]
pub(crate) fn decode_varint(buf: &[u8]) -> (r: Option<(u64, &[u8])>)
    ensures
        match read_varint(buf@) {
            Some((v, n)) => r matches Some((x, rest)) && x as nat == v && rest@ == buf@.subrange(
                n as int,
                buf@.len() as int,
            ),
            None => r is None,
        },
{
    let mut rest: &[u8] = buf;
    match prost::encoding::decode_varint(&mut rest) {
        Ok(v) => Some((v, rest)),
        Err(_) => None,
    }
}

/// The value of a field, as it is written.
pub enum WireValue {
    Varint(u64),
    Fixed64(Seq<u8>),
    Delimited(Seq<u8>),
    Group,
    Fixed32(Seq<u8>),
}

/// A field.
pub struct WireField {
    pub tag: u32,
    pub value: WireValue,
}

/// The largest tag.
pub const MAX_TAG: u32 = 0x1fff_ffff;

/// The number that tells how a value is written.
pub open spec fn wire_type(value: WireValue) -> u64 {
    match value {
        WireValue::Varint(_) => 0,
        WireValue::Fixed64(_) => 1,
        WireValue::Delimited(_) => 2,
        WireValue::Group => 3,
        WireValue::Fixed32(_) => 5,
    }
}

/// The first `n` bytes of `s`, and what follows them.
pub open spec fn split(s: Seq<u8>, n: nat) -> Option<(Seq<u8>, Seq<u8>)> {
    if n <= s.len() {
        Some((s.subrange(0, n as int), s.subrange(n as int, s.len() as int)))
    } else {
        None
    }
}

/// The value at the front of `s` that is written as `wire` says, and what follows it;
/// nothing where that is a group.
pub open spec fn plain_at(wire: nat, s: Seq<u8>) -> Option<(WireValue, Seq<u8>)> {
    if wire == 0 {
        match read_varint(s) {
            Some((v, n)) => Some(
                (WireValue::Varint(v as u64), s.subrange(n as int, s.len() as int)),
            ),
            None => None,
        }
    } else if wire == 1 {
        match split(s, 8) {
            Some((body, rest)) => Some((WireValue::Fixed64(body), rest)),
            None => None,
        }
    } else if wire == 2 {
        match read_varint(s) {
            Some((len, n)) => match split(s.subrange(n as int, s.len() as int), len) {
                Some((body, rest)) => Some((WireValue::Delimited(body), rest)),
                None => None,
            },
            None => None,
        }
    } else if wire == 5 {
        match split(s, 4) {
            Some((body, rest)) => Some((WireValue::Fixed32(body), rest)),
            None => None,
        }
    } else {
        None
    }
}

/// The key at the front of `s`: a tag and how the value is written; and what follows
/// it.
pub open spec fn key_at(s: Seq<u8>) -> Option<(u32, nat, Seq<u8>)> {
    match read_varint(s) {
        None => None,
        Some((key, n)) => if key > u32::MAX || key < 8 {
            None
        } else {
            Some(((key / 8) as u32, key % 8, s.subrange(n as int, s.len() as int)))
        },
    }
}

/// How deep groups and messages may stand in one another.
pub const MAX_NESTING: u32 = 100;

/// What follows a group with this tag whose key was read before `s`. Groups and fields
/// may stand `room` deep in it, itself counted.
pub open spec fn after_group(tag: u32, s: Seq<u8>, room: nat) -> Option<Seq<u8>>
    decreases room, s.len(),
{
    if room == 0 {
        None
    } else {
        match key_at(s) {
            None => None,
            Some((t, wire, rest)) => if wire == 4 {
                if t == tag {
                    Some(rest)
                } else {
                    None
                }
            } else {
                let next = if wire == 3 {
                    after_group(t, rest, (room - 1) as nat)
                } else if room == 1 {
                    None
                } else {
                    match plain_at(wire, rest) {
                        Some((_, next)) => Some(next),
                        None => None,
                    }
                };
                match next {
                    Some(next) => if next.len() >= s.len() {
                        None
                    } else {
                        after_group(tag, next, room)
                    },
                    None => None,
                }
            },
        }
    }
}

/// The value at the front of `s` of a field with this tag that is written as
/// `wire` says, and what follows it.
pub open spec fn value_at(tag: u32, wire: nat, s: Seq<u8>, room: nat) -> Option<
    (WireValue, Seq<u8>),
> {
    if wire == 3 {
        match after_group(tag, s, room) {
            Some(rest) => Some((WireValue::Group, rest)),
            None => None,
        }
    } else {
        plain_at(wire, s)
    }
}

/// The field at the front of `s`, and what follows it. A group in it may be `room`
/// deep.
pub open spec fn field_at(s: Seq<u8>, room: nat) -> Option<(WireField, Seq<u8>)> {
    match key_at(s) {
        None => None,
        Some((tag, wire, rest)) => match value_at(tag, wire, rest, room) {
            Some((value, rest)) => Some((WireField { tag, value }, rest)),
            None => None,
        },
    }
}

/// The fields that `s` holds, if it holds nothing else. Groups may be `room` deep.
pub open spec fn fields(s: Seq<u8>, room: nat) -> Option<Seq<WireField>>
    decreases s.len(),
{
    if s.len() == 0 {
        Some(Seq::empty())
    } else {
        match field_at(s, room) {
            None => None,
            Some((f, rest)) => if rest.len() >= s.len() {
                None
            } else {
                match fields(rest, room) {
                    None => None,
                    Some(more) => Some(seq![f] + more),
                }
            },
        }
    }
}

/// The bytes of a field's value.
pub open spec fn encoded_value(value: WireValue) -> Seq<u8> {
    match value {
        WireValue::Varint(v) => varint(v),
        WireValue::Fixed64(body) => body,
        WireValue::Delimited(body) => varint(body.len() as u64) + body,
        WireValue::Group => Seq::empty(),
        WireValue::Fixed32(body) => body,
    }
}

/// The bytes of a field.
pub open spec fn encoded_field(f: WireField) -> Seq<u8> {
    varint((f.tag * 8 + wire_type(f.value)) as u64) + encoded_value(f.value)
}

/// The bytes of fields.
pub open spec fn encoded(fs: Seq<WireField>) -> Seq<u8>
    decreases fs.len(),
{
    if fs.len() == 0 {
        Seq::empty()
    } else {
        encoded_field(fs[0]) + encoded(fs.drop_first())
    }
}

/// Whether a field is one that [`encoded`] writes: a tag in range, no group, and
/// a value of the right length.
pub open spec fn writable(f: WireField) -> bool {
    &&& 1 <= f.tag <= MAX_TAG
    &&& match f.value {
        WireValue::Varint(_) => true,
        WireValue::Fixed64(body) => body.len() == 8,
        WireValue::Delimited(body) => body.len() <= u64::MAX,
        WireValue::Group => false,
        WireValue::Fixed32(body) => body.len() == 4,
    }
}

/// Whether all fields are ones that [`encoded`] writes.
pub open spec fn all_writable(fs: Seq<WireField>) -> bool {
    forall|i: int| 0 <= i < fs.len() ==> writable(#[trigger] fs[i])
}

proof fn lemma_value_read_back(tag: u32, value: WireValue, rest: Seq<u8>, room: nat)
    requires
        writable((WireField { tag, value })),
    ensures
        value_at(tag, wire_type(value) as nat, encoded_value(value) + rest, room) == Some(
            (value, rest),
        ),
{
    let s = encoded_value(value) + rest;
    match value {
        WireValue::Varint(v) => {
            lemma_varint_read_back(v, rest);
            assert(s.subrange(varint(v).len() as int, s.len() as int) =~= rest);
        },
        WireValue::Fixed64(body) => {
            assert(s.subrange(0, 8) =~= body);
            assert(s.subrange(8, s.len() as int) =~= rest);
        },
        WireValue::Delimited(body) => {
            let head = varint(body.len() as u64);
            lemma_varint_read_back(body.len() as u64, body + rest);
            assert(s =~= head + (body + rest));
            let tail = s.subrange(head.len() as int, s.len() as int);
            assert(tail =~= body + rest);
            assert(tail.subrange(0, body.len() as int) =~= body);
            assert(tail.subrange(body.len() as int, tail.len() as int) =~= rest);
        },
        WireValue::Group => {},
        WireValue::Fixed32(body) => {
            assert(s.subrange(0, 4) =~= body);
            assert(s.subrange(4, s.len() as int) =~= rest);
        },
    }
}

proof fn lemma_field_read_back(f: WireField, rest: Seq<u8>, room: nat)
    requires
        writable(f),
    ensures
        field_at(encoded_field(f) + rest, room) == Some((f, rest)),
        encoded_field(f).len() > 0,
{
    let key = (f.tag * 8 + wire_type(f.value)) as u64;
    let s = encoded_field(f) + rest;
    lemma_varint_read_back(key, encoded_value(f.value) + rest);
    assert(s =~= varint(key) + (encoded_value(f.value) + rest));
    assert(s.subrange(varint(key).len() as int, s.len() as int) =~= encoded_value(f.value) + rest);
    lemma_value_read_back(f.tag, f.value, rest, room);
    assert(key / 8 == f.tag && key % 8 == wire_type(f.value));
}

/// The fields that were written are the fields that are read.
pub proof fn lemma_fields_of_encoded(fs: Seq<WireField>, room: nat)
    requires
        all_writable(fs),
    ensures
        fields(encoded(fs), room) == Some(fs),
    decreases fs.len(),
{
    if fs.len() > 0 {
        let rest = fs.drop_first();
        assert(writable(fs[0]));
        assert forall|i: int| 0 <= i < rest.len() implies writable(#[trigger] rest[i]) by {
            assert(rest[i] == fs[i + 1]);
        }
        lemma_fields_of_encoded(rest, room);
        lemma_field_read_back(fs[0], encoded(rest), room);
        assert(seq![fs[0]] + rest =~= fs);
    }
}

/// The bytes of fields that stand one after the other.
pub proof fn lemma_encoded_concat(a: Seq<WireField>, b: Seq<WireField>)
    ensures
        encoded(a + b) == encoded(a) + encoded(b),
    decreases a.len(),
{
    if a.len() == 0 {
        assert(a + b =~= b);
        assert(encoded(a) + encoded(b) =~= encoded(b));
    } else {
        assert((a + b)[0] == a[0]);
        assert((a + b).drop_first() =~= a.drop_first() + b);
        lemma_encoded_concat(a.drop_first(), b);
        assert(encoded(a) + encoded(b) =~= encoded_field(a[0]) + (encoded(a.drop_first())
            + encoded(b)));
    }
}

/// The value of a field in a buffer.
#[derive(Clone, Copy)]
pub enum Value<'a> {
    Varint(u64),
    Fixed64(&'a [u8]),
    Delimited(&'a [u8]),
    Group,
    Fixed32(&'a [u8]),
}

/// A field in a buffer.
pub struct Field<'a> {
    pub tag: u32,
    pub value: Value<'a>,
}

impl<'a> View for Value<'a> {
    type V = WireValue;

    open spec fn view(&self) -> WireValue {
        match *self {
            Value::Varint(v) => WireValue::Varint(v),
            Value::Fixed64(body) => WireValue::Fixed64(body@),
            Value::Delimited(body) => WireValue::Delimited(body@),
            Value::Group => WireValue::Group,
            Value::Fixed32(body) => WireValue::Fixed32(body@),
        }
    }
}

impl<'a> View for Field<'a> {
    type V = WireField;

    open spec fn view(&self) -> WireField {
        WireField { tag: self.tag, value: self.value@ }
    }
}

/// The fields of a buffer.
pub open spec fn viewed(fs: Seq<Field>) -> Seq<WireField> {
    Seq::new(fs.len(), |i: int| fs[i]@)
}

fn split_front<'a>(s: &'a [u8], n: usize) -> (r: Option<(&'a [u8], &'a [u8])>)
    ensures
        match split(s@, n as nat) {
            Some((body, rest)) => r matches Some((x, y)) && x@ == body && y@ == rest,
            None => r is None,
        },
{
    if n <= s.len() {
        Some((&s[0..n], &s[n..s.len()]))
    } else {
        None
    }
}

fn read_plain<'a>(wire: u64, s: &'a [u8]) -> (r: Option<(Value<'a>, &'a [u8])>)
    ensures
        match plain_at(wire as nat, s@) {
            Some((value, rest)) => r matches Some((x, y)) && x@ == value && y@ == rest && y@.len()
                <= s@.len(),
            None => r is None,
        },
{
    proof {
        lemma_varint_bounds(s@);
    }
    if wire == 0 {
        match decode_varint(s) {
            Some((v, rest)) => Some((Value::Varint(v), rest)),
            None => None,
        }
    } else if wire == 1 {
        match split_front(s, 8) {
            Some((body, rest)) => Some((Value::Fixed64(body), rest)),
            None => None,
        }
    } else if wire == 2 {
        match decode_varint(s) {
            Some((len, tail)) => {
                if len > tail.len() as u64 {
                    return None;
                }
                match split_front(tail, len as usize) {
                    Some((body, rest)) => Some((Value::Delimited(body), rest)),
                    None => None,
                }
            },
            None => None,
        }
    } else if wire == 5 {
        match split_front(s, 4) {
            Some((body, rest)) => Some((Value::Fixed32(body), rest)),
            None => None,
        }
    } else {
        None
    }
}

fn read_key<'a>(s: &'a [u8]) -> (r: Option<(u32, u64, &'a [u8])>)
    ensures
        match key_at(s@) {
            Some((tag, wire, rest)) => r matches Some((t, w, y)) && t == tag && w == wire && y@
                == rest && y@.len() < s@.len(),
            None => r is None,
        },
{
    proof {
        lemma_varint_bounds(s@);
    }
    match decode_varint(s) {
        None => None,
        Some((key, rest)) => {
            if key > u32::MAX as u64 || key < 8 {
                None
            } else {
                Some(((key / 8) as u32, key % 8, rest))
            }
        },
    }
}

fn skip_group<'a>(tag: u32, s: &'a [u8], room: u32) -> (r: Option<&'a [u8]>)
    ensures
        match after_group(tag, s@, room as nat) {
            Some(rest) => r matches Some(y) && y@ == rest && y@.len() <= s@.len(),
            None => r is None,
        },
    decreases room,
{
    if room == 0 {
        return None;
    }
    let mut at: &'a [u8] = s;
    loop
        invariant
            room > 0,
            at@.len() <= s@.len(),
            after_group(tag, s@, room as nat) == after_group(tag, at@, room as nat),
        decreases at@.len(),
    {
        let (t, wire, rest) = match read_key(at) {
            Some(key) => key,
            None => {
                return None;
            },
        };
        if wire == 4 {
            return if t == tag {
                Some(rest)
            } else {
                None
            };
        }
        let next: Option<&'a [u8]> = if wire == 3 {
            skip_group(t, rest, room - 1)
        } else if room == 1 {
            None
        } else {
            match read_plain(wire, rest) {
                Some((_, next)) => Some(next),
                None => None,
            }
        };
        match next {
            Some(next) => {
                at = next;
            },
            None => {
                return None;
            },
        }
    }
}

fn read_field<'a>(s: &'a [u8], room: u32) -> (r: Option<(Field<'a>, &'a [u8])>)
    ensures
        match field_at(s@, room as nat) {
            Some((f, rest)) => r matches Some((x, y)) && x@ == f && y@ == rest && y@.len()
                < s@.len(),
            None => r is None,
        },
{
    let (tag, wire, rest) = match read_key(s) {
        Some(key) => key,
        None => {
            return None;
        },
    };
    if wire == 3 {
        match skip_group(tag, rest, room) {
            Some(rest) => Some((Field { tag, value: Value::Group }, rest)),
            None => None,
        }
    } else {
        match read_plain(wire, rest) {
            Some((value, rest)) => Some((Field { tag, value }, rest)),
            None => None,
        }
    }
}

/// The fields that a buffer holds, if it holds nothing else. Groups may be `room` deep.
pub fn read_fields<'a>(s: &'a [u8], room: u32) -> (r: Option<Vec<Field<'a>>>)
    ensures
        match fields(s@, room as nat) {
            Some(fs) => r matches Some(v) && viewed(v@) == fs,
            None => r is None,
        },
{
    let mut out: Vec<Field<'a>> = Vec::new();
    let mut rest: &'a [u8] = s;
    assert(viewed(out@) =~= Seq::<WireField>::empty());
    while rest.len() > 0
        invariant
            fields(s@, room as nat) == match fields(rest@, room as nat) {
                Some(more) => Some(viewed(out@) + more),
                None => None,
            },
        decreases rest.len(),
    {
        let ghost before = viewed(out@);
        match read_field(rest, room) {
            None => {
                return None;
            },
            Some((f, tail)) => {
                out.push(f);
                assert(viewed(out@) =~= before.push(f@));
                proof {
                    if fields(tail@, room as nat) is Some {
                        let more = fields(tail@, room as nat)->Some_0;
                        assert(before + (seq![f@] + more) =~= viewed(out@) + more);
                    }
                }
                rest = tail;
            },
        }
    }
    assert(viewed(out@) + Seq::<WireField>::empty() =~= viewed(out@));
    Some(out)
}

/// The kinds of fields, by the low three bits of their keys: zero is a number, one is
/// eight bytes, two is a length and as many bytes, and five is four bytes.
pub proof fn lemma_field_kinds(tag: u8, v: u64, body: Seq<u8>, rest: Seq<u8>, room: nat)
    requires
        1 <= tag < 16,
        body.len() <= u64::MAX,
    ensures
        field_at(seq![(8 * tag) as u8] + varint(v) + rest, room) == Some(
            (WireField { tag: tag as u32, value: WireValue::Varint(v) }, rest),
        ),
        field_at(
            seq![(8 * tag + 2) as u8] + varint(body.len() as u64) + body + rest,
            room,
        ) == Some((WireField { tag: tag as u32, value: WireValue::Delimited(body) }, rest)),
        body.len() == 8 ==> field_at(seq![(8 * tag + 1) as u8] + body + rest, room) == Some(
            (WireField { tag: tag as u32, value: WireValue::Fixed64(body) }, rest),
        ),
        body.len() == 4 ==> field_at(seq![(8 * tag + 5) as u8] + body + rest, room) == Some(
            (WireField { tag: tag as u32, value: WireValue::Fixed32(body) }, rest),
        ),
{
    lemma_number_field(tag, v, rest, room);
    lemma_delimited_field(tag, body, rest, room);
    lemma_fixed_field(tag, body, rest, room);
}

#[verifier::spinoff_prover]
proof fn lemma_number_field(tag: u8, v: u64, rest: Seq<u8>, room: nat)
    requires
        1 <= tag < 16,
    ensures
        field_at(seq![(8 * tag) as u8] + varint(v) + rest, room) == Some(
            (WireField { tag: tag as u32, value: WireValue::Varint(v) }, rest),
        ),
{
    let s = varint(v) + rest;
    lemma_short_key(8 * tag, s);
    assert(seq![(8 * tag) as u8] + varint(v) + rest =~= seq![(8 * tag) as u8] + s);
    lemma_varint_read_back(v, rest);
    assert(s.subrange(varint(v).len() as int, s.len() as int) =~= rest);
}

#[verifier::spinoff_prover]
proof fn lemma_delimited_field(tag: u8, body: Seq<u8>, rest: Seq<u8>, room: nat)
    requires
        1 <= tag < 16,
        body.len() <= u64::MAX,
    ensures
        field_at(
            seq![(8 * tag + 2) as u8] + varint(body.len() as u64) + body + rest,
            room,
        ) == Some((WireField { tag: tag as u32, value: WireValue::Delimited(body) }, rest)),
{
    let n = body.len() as u64;
    let s = varint(n) + (body + rest);
    lemma_short_key(8 * tag + 2, s);
    assert(seq![(8 * tag + 2) as u8] + varint(n) + body + rest =~= seq![(8 * tag + 2) as u8] + s);
    lemma_varint_read_back(n, body + rest);
    assert(s.subrange(varint(n).len() as int, s.len() as int) =~= body + rest);
    assert((body + rest).subrange(0, body.len() as int) =~= body);
    assert((body + rest).subrange(body.len() as int, (body + rest).len() as int) =~= rest);
}

#[verifier::spinoff_prover]
proof fn lemma_fixed_field(tag: u8, body: Seq<u8>, rest: Seq<u8>, room: nat)
    requires
        1 <= tag < 16,
    ensures
        body.len() == 8 ==> field_at(seq![(8 * tag + 1) as u8] + body + rest, room) == Some(
            (WireField { tag: tag as u32, value: WireValue::Fixed64(body) }, rest),
        ),
        body.len() == 4 ==> field_at(seq![(8 * tag + 5) as u8] + body + rest, room) == Some(
            (WireField { tag: tag as u32, value: WireValue::Fixed32(body) }, rest),
        ),
{
    assert((body + rest).subrange(0, body.len() as int) =~= body);
    assert((body + rest).subrange(body.len() as int, (body + rest).len() as int) =~= rest);
    lemma_short_key(8 * tag + 1, body + rest);
    assert(seq![(8 * tag + 1) as u8] + body + rest =~= seq![(8 * tag + 1) as u8] + (body + rest));
    lemma_short_key(8 * tag + 5, body + rest);
    assert(seq![(8 * tag + 5) as u8] + body + rest =~= seq![(8 * tag + 5) as u8] + (body + rest));
}

proof fn lemma_short_key(key: int, rest: Seq<u8>)
    requires
        8 <= key < 128,
    ensures
        key_at(seq![key as u8] + rest) == Some(((key / 8) as u32, (key % 8) as nat, rest)),
{
    let s = seq![key as u8] + rest;
    assert(varint(key as u64) =~= seq![key as u8]);
    lemma_varint_read_back(key as u64, rest);
    assert(s.subrange(1, s.len() as int) =~= rest);
}

/// A number's bytes: seven bits of it in each, low ones first; all but the last have
/// their high bit set.
pub proof fn lemma_varint_bytes(v: u64)
    ensures
        v < 128 ==> varint(v) == seq![v as u8],
        v >= 128 ==> varint(v).len() >= 2 && varint(v)[0] == 128 + v % 128 && varint(v).skip(1)
            == varint(v / 128),
{
    if v >= 128 {
        lemma_varint_len(v / 128);
        assert(varint(v).skip(1) =~= varint(v / 128));
    }
}

} // verus!
