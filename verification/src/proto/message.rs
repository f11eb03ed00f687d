//! Messages, and how they are written and read.
//!
//! A message is written as its parts, one for every field of its schema, in the
//! order of their tags. What is written is read back
//! ([`lemma_message_read_back`]).
use crate::proto::record;
use crate::proto::wire;
use crate::proto::wire::{Field, WireField, WireValue};
use crate::text;
use vstd::prelude::*;
use vstd::utf8;

verus! {

/// The bytes are not the message that was asked for.
#[derive(Debug, Clone, Copy, PartialEq, Eq, Structural)]
pub struct DecodeError;

/// What a message is, and how it is written.
pub trait Schema: View + Sized {
    /// What is written for every field of the schema.
    spec fn parts(v: Self::V) -> Seq<Seq<WireField>>;

    /// The tag of every field of the schema.
    spec fn tags() -> Seq<u32>;

    /// The message that fields stand for. Groups in it may be `room` deep.
    spec fn of_wire(fs: Seq<WireField>, room: nat) -> Option<Self::V>;

    /// The parts are what the schema asks for, and are read back.
    proof fn lemma_parts(v: Self::V, room: nat)
        requires
            compact(Self::parts(v)),
        ensures
            well_parted(Self::parts(v), Self::tags()),
            forall|fs: Seq<WireField>| #[trigger]
                holds_parts(fs, Self::parts(v), Self::tags()) ==> Self::of_wire(fs, room) == Some(
                    v,
                ),
    ;
}

/// A message that can be written and read.
pub trait Message: Schema {
    /// Appends the message's bytes.
    fn put(&self, out: &mut Vec<u8>)
        ensures
            final(out)@ == old(out)@ + bytes_of::<Self>(self@),
    ;

    /// Reads the message from fields. Groups in it may be `room` deep.
    fn of_fields(fs: &Vec<Field>, room: u32) -> (r: Option<Self>)
        ensures
            match Self::of_wire(wire::viewed(fs@), room as nat) {
                Some(v) => r matches Some(m) && m@ == v,
                None => r is None,
            },
    ;

    /// The message's bytes.
    fn encode_to_vec(&self) -> (r: Vec<u8>)
        ensures
            r@ == bytes_of::<Self>(self@),
    {
        let mut out: Vec<u8> = Vec::new();
        self.put(&mut out);
        assert(out@ =~= bytes_of::<Self>(self@));
        out
    }

    /// The message that bytes stand for.
    fn decode(s: &[u8]) -> (r: Result<Self, DecodeError>)
        ensures
            match message_of::<Self>(s@) {
                Some(v) => r matches Ok(m) && m@ == v,
                None => r matches Err(_),
            },
    {
        match Self::decode_within(s, wire::MAX_NESTING) {
            None => Err(DecodeError),
            Some(m) => Ok(m),
        }
    }

    /// The message that bytes stand for. Groups in it may be `room` deep.
    fn decode_within(s: &[u8], room: u32) -> (r: Option<Self>)
        ensures
            match message_within::<Self>(s@, room as nat) {
                Some(v) => r matches Some(m) && m@ == v,
                None => r is None,
            },
    {
        match wire::read_fields(s, room) {
            None => None,
            Some(fs) => Self::of_fields(&fs, room),
        }
    }
}

/// Parts one after the other.
pub open spec fn concat(parts: Seq<Seq<WireField>>) -> Seq<WireField>
    decreases parts.len(),
{
    if parts.len() == 0 {
        Seq::empty()
    } else {
        concat(parts.drop_last()) + parts.last()
    }
}

/// The bytes of a message.
pub open spec fn bytes_of<M: Schema>(v: M::V) -> Seq<u8> {
    wire::encoded(concat(M::parts(v)))
}

/// The message that bytes stand for. Groups in it may be `room` deep.
pub open spec fn message_within<M: Schema>(s: Seq<u8>, room: nat) -> Option<M::V> {
    match wire::fields(s, room) {
        None => None,
        Some(fs) => M::of_wire(fs, room),
    }
}

/// The message that bytes stand for.
pub open spec fn message_of<M: Schema>(s: Seq<u8>) -> Option<M::V> {
    message_within::<M>(s, wire::MAX_NESTING as nat)
}

/// How deep groups may be in a message that stands in another.
pub open spec fn below(room: nat) -> nat {
    if room == 0 {
        0
    } else {
        (room - 1) as nat
    }
}

/// How deep groups may be in a message that stands in another.
pub fn one_less(room: u32) -> (r: u32)
    ensures
        r == below(room as nat),
{
    if room == 0 {
        0
    } else {
        room - 1
    }
}

/// Whether the parts have a length that can be written.
pub open spec fn compact(parts: Seq<Seq<WireField>>) -> bool {
    wire::encoded(concat(parts)).len() <= u64::MAX
}

/// Whether a field's body has a length that can be written.
pub open spec fn small(f: WireField) -> bool {
    f.value matches WireValue::Delimited(body) ==> body.len() <= u64::MAX
}

proof fn lemma_field_len(fs: Seq<WireField>, j: int)
    requires
        0 <= j < fs.len(),
    ensures
        wire::encoded_field(fs[j]).len() <= wire::encoded(fs).len(),
    decreases fs.len(),
{
    if j > 0 {
        assert(fs.drop_first()[j - 1] == fs[j]);
        lemma_field_len(fs.drop_first(), j - 1);
    }
}

proof fn lemma_part_len(parts: Seq<Seq<WireField>>, i: int)
    requires
        0 <= i < parts.len(),
    ensures
        wire::encoded(parts[i]).len() <= wire::encoded(concat(parts)).len(),
    decreases parts.len(),
{
    wire::lemma_encoded_concat(concat(parts.drop_last()), parts.last());
    if i < parts.len() - 1 {
        lemma_part_len(parts.drop_last(), i);
    }
}

/// No body is longer than all parts together.
pub proof fn lemma_compact(parts: Seq<Seq<WireField>>)
    requires
        compact(parts),
    ensures
        forall|i: int, j: int|
            0 <= i < parts.len() && 0 <= j < parts[i].len() ==> small(#[trigger] parts[i][j]),
{
    assert forall|i: int, j: int|
        0 <= i < parts.len() && 0 <= j < parts[i].len() implies small(#[trigger] parts[i][j]) by {
        lemma_part_len(parts, i);
        lemma_field_len(parts[i], j);
    }
}

/// Whether every part holds fields with its own tag only, and all of them can be
/// written.
pub open spec fn well_parted(parts: Seq<Seq<WireField>>, tags: Seq<u32>) -> bool {
    &&& parts.len() == tags.len()
    &&& forall|i: int, j: int| 0 <= i < j < tags.len() ==> #[trigger] tags[i] != #[trigger] tags[j]
    &&& forall|i: int| 0 <= i < parts.len() ==> part_of(#[trigger] parts[i], tags[i])
}

/// Whether all fields have this tag and can be written.
pub open spec fn part_of(part: Seq<WireField>, tag: u32) -> bool {
    forall|j: int| 0 <= j < part.len() ==> (#[trigger] part[j]).tag == tag && wire::writable(part[j])
}

/// Whether `fs` holds under each tag what the part with that tag does.
pub open spec fn holds_parts(
    fs: Seq<WireField>,
    parts: Seq<Seq<WireField>>,
    tags: Seq<u32>,
) -> bool {
    forall|i: int|
        0 <= i < tags.len() ==> record::values(fs, #[trigger] tags[i]) == record::values(
            parts[i],
            tags[i],
        )
}

proof fn lemma_values_absent(parts: Seq<Seq<WireField>>, tags: Seq<u32>, tag: u32)
    requires
        parts.len() == tags.len(),
        forall|i: int| 0 <= i < parts.len() ==> part_of(#[trigger] parts[i], tags[i]),
        forall|i: int| 0 <= i < tags.len() ==> #[trigger] tags[i] != tag,
    ensures
        record::values(concat(parts), tag) == Seq::<WireValue>::empty(),
    decreases parts.len(),
{
    if parts.len() > 0 {
        let n = parts.len() - 1;
        assert(part_of(parts[n], tags[n]));
        assert forall|i: int| 0 <= i < parts.drop_last().len() implies part_of(
            #[trigger] parts.drop_last()[i],
            tags.drop_last()[i],
        ) by {
            assert(parts.drop_last()[i] == parts[i]);
        }
        lemma_values_absent(parts.drop_last(), tags.drop_last(), tag);
        record::lemma_values_concat(concat(parts.drop_last()), parts.last(), tag);
        record::lemma_values_of_other(parts.last(), tags.last(), tag);
        assert(record::values(concat(parts), tag) =~= Seq::<WireValue>::empty());
    }
}

proof fn lemma_values_of_part(parts: Seq<Seq<WireField>>, tags: Seq<u32>, k: int)
    requires
        well_parted(parts, tags),
        0 <= k < parts.len(),
    ensures
        record::values(concat(parts), tags[k]) == record::values(parts[k], tags[k]),
    decreases parts.len(),
{
    let n = parts.len() - 1;
    let before = parts.drop_last();
    assert(part_of(parts[n], tags[n]));
    assert forall|i: int| 0 <= i < before.len() implies part_of(
        #[trigger] before[i],
        tags.drop_last()[i],
    ) by {
        assert(before[i] == parts[i]);
    }
    record::lemma_values_concat(concat(before), parts.last(), tags[k]);
    if k == n {
        assert forall|i: int| 0 <= i < tags.drop_last().len() implies #[trigger] tags.drop_last()[i]
            != tags[k] by {
            assert(tags[i] != tags[n]);
        }
        lemma_values_absent(before, tags.drop_last(), tags[k]);
    } else {
        assert(well_parted(before, tags.drop_last())) by {
            assert forall|i: int, j: int| 0 <= i < j < n implies #[trigger] tags.drop_last()[i]
                != #[trigger] tags.drop_last()[j] by {
                assert(tags[i] != tags[j]);
            }
        }
        lemma_values_of_part(before, tags.drop_last(), k);
        assert(tags.drop_last()[k] == tags[k]);
        assert(tags[k] != tags[n]);
        record::lemma_values_of_other(parts.last(), tags.last(), tags[k]);
    }
    assert(record::values(concat(parts), tags[k]) =~= record::values(parts[k], tags[k]));
}

proof fn lemma_concat_writable(parts: Seq<Seq<WireField>>, tags: Seq<u32>)
    requires
        parts.len() == tags.len(),
        forall|i: int| 0 <= i < parts.len() ==> part_of(#[trigger] parts[i], tags[i]),
    ensures
        wire::all_writable(concat(parts)),
    decreases parts.len(),
{
    if parts.len() > 0 {
        let n = parts.len() - 1;
        assert(part_of(parts[n], tags[n]));
        assert forall|i: int| 0 <= i < n implies part_of(
            #[trigger] parts.drop_last()[i],
            tags.drop_last()[i],
        ) by {
            assert(parts.drop_last()[i] == parts[i]);
        }
        lemma_concat_writable(parts.drop_last(), tags.drop_last());
        let front = concat(parts.drop_last());
        assert forall|i: int| 0 <= i < concat(parts).len() implies wire::writable(
            #[trigger] concat(parts)[i],
        ) by {
            if i < front.len() {
                assert(concat(parts)[i] == front[i]);
            } else {
                assert(concat(parts)[i] == parts[n][i - front.len()]);
            }
        }
    }
}

/// The fields of a written message can be written, and are that message.
pub proof fn lemma_wire_read_back<M: Schema>(v: M::V, room: nat)
    requires
        bytes_of::<M>(v).len() <= u64::MAX,
    ensures
        wire::fields(bytes_of::<M>(v), room) == Some(concat(M::parts(v))),
        M::of_wire(concat(M::parts(v)), room) == Some(v),
{
    M::lemma_parts(v, room);
    let parts = M::parts(v);
    let tags = M::tags();
    assert forall|i: int| 0 <= i < tags.len() implies record::values(
        concat(parts),
        #[trigger] tags[i],
    ) == record::values(parts[i], tags[i]) by {
        lemma_values_of_part(parts, tags, i);
    }
    assert(holds_parts(concat(parts), parts, tags));
    lemma_concat_writable(parts, tags);
    wire::lemma_fields_of_encoded(concat(parts), room);
}

/// A message that was written is read back.
pub proof fn lemma_message_read_back<M: Schema>(v: M::V)
    requires
        bytes_of::<M>(v).len() <= u64::MAX,
    ensures
        message_of::<M>(bytes_of::<M>(v)) == Some(v),
{
    lemma_wire_read_back::<M>(v, wire::MAX_NESTING as nat);
}

/// The bytes of the first `k` parts.
#[verifier::opaque]
pub open spec fn written(parts: Seq<Seq<WireField>>, k: int) -> Seq<u8> {
    wire::encoded(concat(parts.take(k)))
}

/// No part is written at first.
pub proof fn lemma_written_first(parts: Seq<Seq<WireField>>, before: Seq<u8>)
    ensures
        before == before + written(parts, 0),
{
    reveal(written);
    assert(before =~= before + written(parts, 0));
}

/// One part more is written.
pub proof fn lemma_written_next(
    parts: Seq<Seq<WireField>>,
    k: int,
    before: Seq<u8>,
    now: Seq<u8>,
    after: Seq<u8>,
)
    requires
        0 <= k < parts.len(),
        now == before + written(parts, k),
        after == now + wire::encoded(parts[k]),
    ensures
        after == before + written(parts, k + 1),
{
    reveal(written);
    assert(parts.take(k + 1).drop_last() =~= parts.take(k));
    wire::lemma_encoded_concat(concat(parts.take(k)), parts[k]);
    assert(after =~= before + written(parts, k + 1));
}

/// All parts are written at last.
pub proof fn lemma_written_last(parts: Seq<Seq<WireField>>)
    ensures
        written(parts, parts.len() as int) == wire::encoded(concat(parts)),
{
    reveal(written);
    assert(parts.take(parts.len() as int) =~= parts);
}

/// A signed number of thirty-two bits.
pub open spec fn int32(vs: Seq<WireValue>) -> Option<i32> {
    match record::scalar(vs) {
        Some(v) => Some(v as i32),
        None => None,
    }
}

/// An unsigned number of thirty-two bits.
pub open spec fn uint32(vs: Seq<WireValue>) -> Option<u32> {
    match record::scalar(vs) {
        Some(v) => Some(v as u32),
        None => None,
    }
}

/// A signed number of sixty-four bits.
pub open spec fn int64(vs: Seq<WireValue>) -> Option<i64> {
    match record::scalar(vs) {
        Some(v) => Some(v as i64),
        None => None,
    }
}

/// A truth value.
pub open spec fn boolean(vs: Seq<WireValue>) -> Option<bool> {
    match record::scalar(vs) {
        Some(v) => Some(v != 0),
        None => None,
    }
}

/// The number that stands for a truth value.
pub open spec fn bit(b: bool) -> u64 {
    if b {
        1
    } else {
        0
    }
}

/// Repeated unsigned numbers of thirty-two bits.
pub open spec fn uint32s(vs: Seq<WireValue>) -> Option<Seq<u32>> {
    match record::numbers(vs) {
        Some(ns) => Some(Seq::new(ns.len(), |i: int| ns[i] as u32)),
        None => None,
    }
}

/// Unsigned numbers, to be packed.
pub open spec fn of_uint32s(ns: Seq<u32>) -> Seq<u64> {
    Seq::new(ns.len(), |i: int| ns[i] as u64)
}

/// Repeated signed numbers of thirty-two bits.
pub open spec fn int32s(vs: Seq<WireValue>) -> Option<Seq<i32>> {
    match record::numbers(vs) {
        Some(ns) => Some(Seq::new(ns.len(), |i: int| ns[i] as i32)),
        None => None,
    }
}

/// Signed numbers, to be packed.
pub open spec fn of_int32s(ns: Seq<i32>) -> Seq<u64> {
    Seq::new(ns.len(), |i: int| ns[i] as u64)
}

/// Repeated texts.
pub open spec fn strings(vs: Seq<WireValue>) -> Option<Seq<Seq<char>>> {
    match record::chunks(vs) {
        None => None,
        Some(cs) => if forall|i: int| 0 <= i < cs.len() ==> utf8::valid_utf8(#[trigger] cs[i]) {
            Some(Seq::new(cs.len(), |i: int| utf8::decode_utf8(cs[i])))
        } else {
            None
        },
    }
}

/// The bytes of texts.
pub open spec fn of_strings(ss: Seq<Seq<char>>) -> Seq<Seq<u8>> {
    Seq::new(ss.len(), |i: int| utf8::encode_utf8(ss[i]))
}

/// A message that may be missing; `room` is how deep groups may be in the one around
/// it.
pub open spec fn optional<M: Schema>(vs: Seq<WireValue>, room: nat) -> Option<Option<M::V>> {
    match record::inner(vs, below(room)) {
        None => None,
        Some(None) => Some(None),
        Some(Some(fs)) => match M::of_wire(fs, below(room)) {
            None => None,
            Some(v) => Some(Some(v)),
        },
    }
}

/// The bytes of a message that may be missing.
pub open spec fn of_optional<M: Schema>(v: Option<M::V>) -> Option<Seq<u8>> {
    match v {
        Some(v) => Some(bytes_of::<M>(v)),
        None => None,
    }
}

/// Repeated messages; `room` is how deep groups may be in the one around them.
pub open spec fn repeated<M: Schema>(vs: Seq<WireValue>, room: nat) -> Option<Seq<M::V>> {
    match record::chunks(vs) {
        None => None,
        Some(cs) => if forall|i: int|
            0 <= i < cs.len() ==> message_within::<M>(#[trigger] cs[i], below(room)) is Some {
            Some(Seq::new(cs.len(), |i: int| message_within::<M>(cs[i], below(room))->Some_0))
        } else {
            None
        },
    }
}

/// The bytes of messages.
pub open spec fn of_repeated<M: Schema>(vs: Seq<M::V>) -> Seq<Seq<u8>> {
    Seq::new(vs.len(), |i: int| bytes_of::<M>(vs[i]))
}

/// A signed number is read back from its field.
pub proof fn lemma_int32_read_back(tag: u32, v: i32)
    ensures
        int32(record::values(record::scalar_field(tag, v as u64), tag)) == Some(v),
{
    record::lemma_scalar_read_back(tag, v as u64);
    lemma_int32_back(v);
}

/// An unsigned number is read back from its field.
pub proof fn lemma_uint32_read_back(tag: u32, v: u32)
    ensures
        uint32(record::values(record::scalar_field(tag, v as u64), tag)) == Some(v),
{
    record::lemma_scalar_read_back(tag, v as u64);
}

/// A long signed number is read back from its field.
pub proof fn lemma_int64_read_back(tag: u32, v: i64)
    ensures
        int64(record::values(record::scalar_field(tag, v as u64), tag)) == Some(v),
{
    record::lemma_scalar_read_back(tag, v as u64);
    assert((v as u64) as i64 == v) by (bit_vector);
}

/// A truth value is read back from its field.
pub proof fn lemma_boolean_read_back(tag: u32, v: bool)
    ensures
        boolean(record::values(record::scalar_field(tag, bit(v)), tag)) == Some(v),
{
    record::lemma_scalar_read_back(tag, bit(v));
}

proof fn lemma_int32_back(a: i32)
    ensures
        (a as u64) as i32 == a,
{
    assert((a as u64) as i32 == a) by (bit_vector);
}

/// Repeated unsigned numbers are read back from their field.
pub proof fn lemma_uint32s_back(tag: u32, ns: Seq<u32>)
    ensures
        uint32s(record::values(record::packed_field(tag, of_uint32s(ns)), tag)) == Some(ns),
{
    record::lemma_numbers_read_back(tag, of_uint32s(ns));
    let back = of_uint32s(ns);
    assert(Seq::new(back.len(), |i: int| back[i] as u32) =~= ns);
}

/// Repeated signed numbers are read back from their field.
pub proof fn lemma_int32s_back(tag: u32, ns: Seq<i32>)
    ensures
        int32s(record::values(record::packed_field(tag, of_int32s(ns)), tag)) == Some(ns),
{
    record::lemma_numbers_read_back(tag, of_int32s(ns));
    let back = of_int32s(ns);
    assert forall|i: int| 0 <= i < ns.len() implies #[trigger] back[i] as i32 == ns[i] by {
        lemma_int32_back(ns[i]);
    }
    assert(Seq::new(back.len(), |i: int| back[i] as i32) =~= ns);
}

/// Repeated texts are read back from their fields.
pub proof fn lemma_strings_back(tag: u32, ss: Seq<Seq<char>>)
    ensures
        strings(record::values(record::repeated_field(tag, of_strings(ss)), tag)) == Some(ss),
{
    let cs = of_strings(ss);
    record::lemma_chunks_read_back(tag, cs);
    assert forall|i: int| 0 <= i < cs.len() implies utf8::valid_utf8(#[trigger] cs[i])
        && utf8::decode_utf8(cs[i]) == ss[i] by {
        utf8::encode_utf8_valid_utf8(ss[i]);
        utf8::encode_utf8_decode_utf8(ss[i]);
    }
    assert(Seq::new(cs.len(), |i: int| utf8::decode_utf8(cs[i])) =~= ss);
}

/// A message that may be missing is read back from its field.
pub proof fn lemma_optional_back<M: Schema>(tag: u32, v: Option<M::V>, room: nat)
    requires
        v matches Some(m) ==> bytes_of::<M>(m).len() <= u64::MAX,
    ensures
        optional::<M>(
            record::values(record::optional_field(tag, of_optional::<M>(v)), tag),
            room,
        ) == Some(v),
{
    match v {
        Some(m) => {
            lemma_wire_read_back::<M>(m, below(room));
            record::lemma_inner_read_back(
                tag,
                of_optional::<M>(v),
                concat(M::parts(m)),
                below(room),
            );
        },
        None => {
            record::lemma_inner_read_back(tag, of_optional::<M>(v), Seq::empty(), below(room));
        },
    }
}

/// Repeated messages are read back from their fields.
pub proof fn lemma_repeated_back<M: Schema>(tag: u32, vs: Seq<M::V>, room: nat)
    requires
        forall|i: int| 0 <= i < vs.len() ==> bytes_of::<M>(#[trigger] vs[i]).len() <= u64::MAX,
    ensures
        repeated::<M>(
            record::values(record::repeated_field(tag, of_repeated::<M>(vs)), tag),
            room,
        ) == Some(vs),
{
    let cs = of_repeated::<M>(vs);
    record::lemma_chunks_read_back(tag, cs);
    assert forall|i: int| 0 <= i < cs.len() implies message_within::<M>(
        #[trigger] cs[i],
        below(room),
    ) == Some(vs[i]) by {
        lemma_wire_read_back::<M>(vs[i], below(room));
    }
    assert(Seq::new(cs.len(), |i: int| message_within::<M>(cs[i], below(room))->Some_0) =~= vs);
}

/// What messages say.
pub open spec fn said<M: Schema>(ms: Seq<M>) -> Seq<M::V> {
    Seq::new(ms.len(), |i: int| ms[i]@)
}

/// What texts say.
pub open spec fn texts(ss: Seq<String>) -> Seq<Seq<char>> {
    Seq::new(ss.len(), |i: int| ss[i]@)
}

/// The signed number under a tag.
pub fn read_int32(fs: &Vec<Field>, tag: u32) -> (r: Option<i32>)
    ensures
        r == int32(record::values(wire::viewed(fs@), tag)),
{
    match record::read_scalar(fs, tag) {
        Some(v) => Some(
            #[verifier::truncate]
            (v as i32),
        ),
        None => None,
    }
}

/// The unsigned number under a tag.
pub fn read_uint32(fs: &Vec<Field>, tag: u32) -> (r: Option<u32>)
    ensures
        r == uint32(record::values(wire::viewed(fs@), tag)),
{
    match record::read_scalar(fs, tag) {
        Some(v) => Some(
            #[verifier::truncate]
            (v as u32),
        ),
        None => None,
    }
}

/// The long signed number under a tag.
pub fn read_int64(fs: &Vec<Field>, tag: u32) -> (r: Option<i64>)
    ensures
        r == int64(record::values(wire::viewed(fs@), tag)),
{
    match record::read_scalar(fs, tag) {
        Some(v) => Some(
            #[verifier::truncate]
            (v as i64),
        ),
        None => None,
    }
}

/// The truth value under a tag.
pub fn read_boolean(fs: &Vec<Field>, tag: u32) -> (r: Option<bool>)
    ensures
        r == boolean(record::values(wire::viewed(fs@), tag)),
{
    match record::read_scalar(fs, tag) {
        Some(v) => Some(v != 0),
        None => None,
    }
}

/// The repeated unsigned numbers under a tag.
pub fn read_uint32s(fs: &Vec<Field>, tag: u32) -> (r: Option<Vec<u32>>)
    ensures
        match uint32s(record::values(wire::viewed(fs@), tag)) {
            Some(ns) => r matches Some(v) && v@ == ns,
            None => r is None,
        },
{
    match record::read_numbers(fs, tag) {
        None => None,
        Some(ns) => {
            let mut out: Vec<u32> = Vec::new();
            let mut i: usize = 0;
            while i < ns.len()
                invariant
                    i <= ns.len(),
                    out@ == Seq::new(i as nat, |j: int| ns@[j] as u32),
                decreases ns.len() - i,
            {
                out.push(
                    #[verifier::truncate]
                    (ns[i] as u32),
                );
                i += 1;
            }
            Some(out)
        },
    }
}

/// The repeated signed numbers under a tag.
pub fn read_int32s(fs: &Vec<Field>, tag: u32) -> (r: Option<Vec<i32>>)
    ensures
        match int32s(record::values(wire::viewed(fs@), tag)) {
            Some(ns) => r matches Some(v) && v@ == ns,
            None => r is None,
        },
{
    match record::read_numbers(fs, tag) {
        None => None,
        Some(ns) => {
            let mut out: Vec<i32> = Vec::new();
            let mut i: usize = 0;
            while i < ns.len()
                invariant
                    i <= ns.len(),
                    out@ == Seq::new(i as nat, |j: int| ns@[j] as i32),
                decreases ns.len() - i,
            {
                out.push(
                    #[verifier::truncate]
                    (ns[i] as i32),
                );
                i += 1;
            }
            Some(out)
        },
    }
}

/// The repeated texts under a tag.
pub fn read_strings(fs: &Vec<Field>, tag: u32) -> (r: Option<Vec<String>>)
    ensures
        match strings(record::values(wire::viewed(fs@), tag)) {
            Some(ss) => r matches Some(v) && texts(v@) == ss,
            None => r is None,
        },
{
    match record::read_chunks(fs, tag) {
        None => None,
        Some(cs) => {
            let ghost all = record::slices(cs@);
            let mut out: Vec<String> = Vec::new();
            let mut i: usize = 0;
            while i < cs.len()
                invariant
                    i <= cs.len(),
                    all == record::slices(cs@),
                    record::chunks(record::values(wire::viewed(fs@), tag)) == Some(all),
                    out@.len() == i,
                    forall|j: int|
                        0 <= j < i ==> utf8::valid_utf8(#[trigger] all[j]) && out@[j]@
                            == utf8::decode_utf8(all[j]),
                decreases cs.len() - i,
            {
                assert(all[i as int] == cs@[i as int]@);
                match text::decode(cs[i]) {
                    None => {
                        assert(!utf8::valid_utf8(all[i as int]));
                        return None;
                    },
                    Some(s) => {
                        out.push(s.to_string());
                    },
                }
                i += 1;
            }
            assert(texts(out@) =~= Seq::new(all.len(), |i: int| utf8::decode_utf8(all[i])));
            Some(out)
        },
    }
}

/// The message under a tag, if it is there.
pub fn read_optional<M: Message>(fs: &Vec<Field>, tag: u32, room: u32) -> (r: Option<Option<M>>)
    ensures
        match optional::<M>(record::values(wire::viewed(fs@), tag), room as nat) {
            Some(Some(v)) => r matches Some(Some(m)) && m@ == v,
            Some(None) => r == Some(None::<M>),
            None => r is None,
        },
{
    let room: u32 = one_less(room);
    match record::read_inner(fs, tag, room) {
        None => None,
        Some(None) => Some(None),
        Some(Some(inner)) => match M::of_fields(&inner, room) {
            None => None,
            Some(m) => Some(Some(m)),
        },
    }
}

/// The repeated messages under a tag.
pub fn read_repeated<M: Message>(fs: &Vec<Field>, tag: u32, room: u32) -> (r: Option<Vec<M>>)
    ensures
        match repeated::<M>(record::values(wire::viewed(fs@), tag), room as nat) {
            Some(vs) => r matches Some(ms) && said::<M>(ms@) == vs,
            None => r is None,
        },
{
    match record::read_chunks(fs, tag) {
        None => None,
        Some(cs) => {
            let ghost all = record::slices(cs@);
            let inside: u32 = one_less(room);
            let mut out: Vec<M> = Vec::new();
            let mut i: usize = 0;
            while i < cs.len()
                invariant
                    i <= cs.len(),
                    all == record::slices(cs@),
                    record::chunks(record::values(wire::viewed(fs@), tag)) == Some(all),
                    out@.len() == i,
                    inside == below(room as nat),
                    forall|j: int|
                        0 <= j < i ==> message_within::<M>(#[trigger] all[j], inside as nat)
                            == Some(out@[j]@),
                decreases cs.len() - i,
            {
                assert(all[i as int] == cs@[i as int]@);
                match M::decode_within(cs[i], inside) {
                    None => {
                        assert(message_within::<M>(all[i as int], inside as nat) is None);
                        return None;
                    },
                    Some(m) => {
                        out.push(m);
                    },
                }
                i += 1;
            }
            assert(said::<M>(out@) =~= Seq::new(
                all.len(),
                |i: int| message_within::<M>(all[i], inside as nat)->Some_0,
            ));
            Some(out)
        },
    }
}

/// Appends repeated unsigned numbers.
pub fn put_uint32s(out: &mut Vec<u8>, tag: u32, ns: &Vec<u32>)
    requires
        tag <= wire::MAX_TAG,
    ensures
        final(out)@ == old(out)@ + wire::encoded(record::packed_field(tag, of_uint32s(ns@))),
{
    let mut wide: Vec<u64> = Vec::new();
    let mut i: usize = 0;
    while i < ns.len()
        invariant
            i <= ns.len(),
            wide@ == Seq::new(i as nat, |j: int| ns@[j] as u64),
        decreases ns.len() - i,
    {
        wide.push(ns[i] as u64);
        i += 1;
    }
    assert(wide@ =~= of_uint32s(ns@));
    record::put_packed(out, tag, &wide);
}

/// Appends repeated signed numbers.
pub fn put_int32s(out: &mut Vec<u8>, tag: u32, ns: &Vec<i32>)
    requires
        tag <= wire::MAX_TAG,
    ensures
        final(out)@ == old(out)@ + wire::encoded(record::packed_field(tag, of_int32s(ns@))),
{
    let mut wide: Vec<u64> = Vec::new();
    let mut i: usize = 0;
    while i < ns.len()
        invariant
            i <= ns.len(),
            wide@ == Seq::new(i as nat, |j: int| ns@[j] as u64),
        decreases ns.len() - i,
    {
        wide.push(
            #[verifier::truncate]
            (ns[i] as u64),
        );
        i += 1;
    }
    assert(wide@ =~= of_int32s(ns@));
    record::put_packed(out, tag, &wide);
}

proof fn lemma_encoded_repeated(tag: u32, bodies: Seq<Seq<u8>>, k: int)
    requires
        0 <= k < bodies.len(),
    ensures
        wire::encoded(record::repeated_field(tag, bodies.take(k + 1))) == wire::encoded(
            record::repeated_field(tag, bodies.take(k)),
        ) + wire::encoded(record::message_field(tag, bodies[k])),
{
    assert(record::repeated_field(tag, bodies.take(k + 1)) =~= record::repeated_field(
        tag,
        bodies.take(k),
    ) + record::message_field(tag, bodies[k]));
    wire::lemma_encoded_concat(
        record::repeated_field(tag, bodies.take(k)),
        record::message_field(tag, bodies[k]),
    );
}

/// Appends repeated texts.
pub fn put_strings(out: &mut Vec<u8>, tag: u32, ss: &Vec<String>)
    requires
        tag <= wire::MAX_TAG,
    ensures
        final(out)@ == old(out)@ + wire::encoded(
            record::repeated_field(tag, of_strings(texts(ss@))),
        ),
{
    let ghost before = out@;
    let ghost bodies = of_strings(texts(ss@));
    let mut i: usize = 0;
    assert(record::repeated_field(tag, bodies.take(0)) =~= Seq::<WireField>::empty());
    assert(out@ =~= before + Seq::<u8>::empty());
    while i < ss.len()
        invariant
            i <= ss.len(),
            tag <= wire::MAX_TAG,
            bodies == of_strings(texts(ss@)),
            out@ == before + wire::encoded(record::repeated_field(tag, bodies.take(i as int))),
        decreases ss.len() - i,
    {
        proof {
            lemma_encoded_repeated(tag, bodies, i as int);
        }
        record::put_message(out, tag, ss[i].as_str().as_bytes());
        assert(out@ =~= before + wire::encoded(record::repeated_field(tag, bodies.take(i + 1))));
        i += 1;
    }
    assert(bodies.take(bodies.len() as int) =~= bodies);
}

/// Appends a message, if it is there.
pub fn put_optional<M: Message>(out: &mut Vec<u8>, tag: u32, m: &Option<M>)
    requires
        tag <= wire::MAX_TAG,
    ensures
        final(out)@ == old(out)@ + wire::encoded(
            record::optional_field(tag, of_optional::<M>(inside::<M>(*m))),
        ),
{
    match m {
        Some(m) => {
            let body: Vec<u8> = m.encode_to_vec();
            record::put_message(out, tag, body.as_slice());
        },
        None => {
            assert(out@ + Seq::<u8>::empty() =~= out@);
        },
    }
}

/// What a message that may be missing says.
pub open spec fn inside<M: Schema>(m: Option<M>) -> Option<M::V> {
    match m {
        Some(m) => Some(m@),
        None => None,
    }
}

/// Appends repeated messages.
pub fn put_repeated<M: Message>(out: &mut Vec<u8>, tag: u32, ms: &Vec<M>)
    requires
        tag <= wire::MAX_TAG,
    ensures
        final(out)@ == old(out)@ + wire::encoded(
            record::repeated_field(tag, of_repeated::<M>(said::<M>(ms@))),
        ),
{
    let ghost before = out@;
    let ghost bodies = of_repeated::<M>(said::<M>(ms@));
    let mut i: usize = 0;
    assert(record::repeated_field(tag, bodies.take(0)) =~= Seq::<WireField>::empty());
    assert(out@ =~= before + Seq::<u8>::empty());
    while i < ms.len()
        invariant
            i <= ms.len(),
            tag <= wire::MAX_TAG,
            bodies == of_repeated::<M>(said::<M>(ms@)),
            out@ == before + wire::encoded(record::repeated_field(tag, bodies.take(i as int))),
        decreases ms.len() - i,
    {
        proof {
            lemma_encoded_repeated(tag, bodies, i as int);
        }
        let body: Vec<u8> = ms[i].encode_to_vec();
        record::put_message(out, tag, body.as_slice());
        assert(out@ =~= before + wire::encoded(record::repeated_field(tag, bodies.take(i + 1))));
        i += 1;
    }
    assert(bodies.take(bodies.len() as int) =~= bodies);
}

/// A truth value is false exactly where its number is zero, or is missing.
pub proof fn lemma_truth(v: u64)
    ensures
        boolean(seq![WireValue::Varint(v)]) == Some(v != 0),
        boolean(Seq::empty()) == Some(false),
{
}

} // verus!
