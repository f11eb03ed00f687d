//! The fields of a message by their tags.
//!
//! Of a field that is not repeated the last occurrence counts. One that is missing
//! has its type's default: zero, the empty string, no message. A field with the
//! default is not written. A value that is not written as the field's type asks
//! makes the message malformed.
use crate::octets;
use crate::proto::wire;
use crate::proto::wire::{Field, Value, WireField, WireValue};
use crate::text;
use vstd::prelude::*;
use vstd::utf8;

verus! {

/// The values of the fields with this tag.
pub open spec fn values(fs: Seq<WireField>, tag: u32) -> Seq<WireValue>
    decreases fs.len(),
{
    if fs.len() == 0 {
        Seq::empty()
    } else {
        (if fs[0].tag == tag {
            seq![fs[0].value]
        } else {
            Seq::empty()
        }) + values(fs.drop_first(), tag)
    }
}

/// The values in fields that stand one after the other.
pub proof fn lemma_values_concat(a: Seq<WireField>, b: Seq<WireField>, tag: u32)
    ensures
        values(a + b, tag) == values(a, tag) + values(b, tag),
    decreases a.len(),
{
    if a.len() == 0 {
        assert(a + b =~= b);
        assert(values(a, tag) + values(b, tag) =~= values(b, tag));
    } else {
        assert((a + b).drop_first() =~= a.drop_first() + b);
        lemma_values_concat(a.drop_first(), b, tag);
        assert(values(a + b, tag) =~= values(a, tag) + values(b, tag));
    }
}

/// The value of a number.
pub open spec fn scalar(vs: Seq<WireValue>) -> Option<u64> {
    if forall|i: int| 0 <= i < vs.len() ==> #[trigger] vs[i] is Varint {
        Some(
            if vs.len() == 0 {
                0
            } else {
                vs.last()->Varint_0
            },
        )
    } else {
        None
    }
}

/// The values of a field that is written as bytes.
pub open spec fn chunks(vs: Seq<WireValue>) -> Option<Seq<Seq<u8>>> {
    if forall|i: int| 0 <= i < vs.len() ==> #[trigger] vs[i] is Delimited {
        Some(Seq::new(vs.len(), |i: int| vs[i]->Delimited_0))
    } else {
        None
    }
}

/// The value of a string of bytes.
pub open spec fn blob(vs: Seq<WireValue>) -> Option<Seq<u8>> {
    match chunks(vs) {
        None => None,
        Some(cs) => Some(
            if cs.len() == 0 {
                Seq::empty()
            } else {
                cs.last()
            },
        ),
    }
}

/// The value of a text.
pub open spec fn string(vs: Seq<WireValue>) -> Option<Seq<char>> {
    match chunks(vs) {
        None => None,
        Some(cs) => if forall|i: int| 0 <= i < cs.len() ==> utf8::valid_utf8(#[trigger] cs[i]) {
            Some(
                if cs.len() == 0 {
                    Seq::empty()
                } else {
                    utf8::decode_utf8(cs.last())
                },
            )
        } else {
            None
        },
    }
}

/// The varints that `s` holds, if it holds nothing else.
pub open spec fn varints(s: Seq<u8>) -> Option<Seq<u64>>
    decreases s.len(),
{
    if s.len() == 0 {
        Some(Seq::empty())
    } else {
        match wire::read_varint(s) {
            None => None,
            Some((v, n)) => if n == 0 || n > s.len() {
                None
            } else {
                match varints(s.subrange(n as int, s.len() as int)) {
                    None => None,
                    Some(more) => Some(seq![v as u64] + more),
                }
            },
        }
    }
}

/// The values of a repeated number: each by itself, or many packed together.
pub open spec fn numbers(vs: Seq<WireValue>) -> Option<Seq<u64>>
    decreases vs.len(),
{
    if vs.len() == 0 {
        Some(Seq::empty())
    } else {
        match (numbers(vs.drop_last()), vs.last()) {
            (Some(ns), WireValue::Varint(v)) => Some(ns.push(v)),
            (Some(ns), WireValue::Delimited(body)) => match varints(body) {
                Some(more) => Some(ns + more),
                None => None,
            },
            _ => None,
        }
    }
}

/// The fields of a message that is written in pieces. Groups may be `room` deep.
pub open spec fn merged(cs: Seq<Seq<u8>>, room: nat) -> Option<Seq<WireField>>
    decreases cs.len(),
{
    if cs.len() == 0 {
        Some(Seq::empty())
    } else {
        match (merged(cs.drop_last(), room), wire::fields(cs.last(), room)) {
            (Some(fs), Some(more)) => Some(fs + more),
            _ => None,
        }
    }
}

/// The fields of a message that is a field of another, if it is there. Groups in it may
/// be `room` deep.
pub open spec fn inner(vs: Seq<WireValue>, room: nat) -> Option<Option<Seq<WireField>>> {
    match chunks(vs) {
        None => None,
        Some(cs) => if cs.len() == 0 {
            Some(None)
        } else {
            match merged(cs, room) {
                Some(fs) => Some(Some(fs)),
                None => None,
            }
        },
    }
}

/// The bytes of packed numbers.
pub open spec fn packed(ns: Seq<u64>) -> Seq<u8>
    decreases ns.len(),
{
    if ns.len() == 0 {
        Seq::empty()
    } else {
        wire::varint(ns[0]) + packed(ns.drop_first())
    }
}

/// Packed numbers are read back.
pub proof fn lemma_varints_of_packed(ns: Seq<u64>)
    ensures
        varints(packed(ns)) == Some(ns),
    decreases ns.len(),
{
    if ns.len() > 0 {
        let s = packed(ns);
        let rest = packed(ns.drop_first());
        wire::lemma_varint_read_back(ns[0], rest);
        wire::lemma_varint_bounds(s);
        lemma_varints_of_packed(ns.drop_first());
        assert(s.subrange(wire::varint(ns[0]).len() as int, s.len() as int) =~= rest);
        assert(seq![ns[0]] + ns.drop_first() =~= ns);
    }
}

proof fn lemma_packed_push(ns: Seq<u64>, n: u64)
    ensures
        packed(ns.push(n)) == packed(ns) + wire::varint(n),
    decreases ns.len(),
{
    if ns.len() == 0 {
        assert(ns.push(n).drop_first() =~= ns);
        assert(packed(ns) =~= Seq::<u8>::empty());
        assert(packed(ns.push(n)) =~= wire::varint(n));
        assert(packed(ns) + wire::varint(n) =~= wire::varint(n));
    } else {
        assert(ns.push(n).drop_first() =~= ns.drop_first().push(n));
        lemma_packed_push(ns.drop_first(), n);
        assert(packed(ns.push(n)) =~= packed(ns) + wire::varint(n));
    }
}

/// A number, as a field.
pub open spec fn scalar_field(tag: u32, v: u64) -> Seq<WireField> {
    if v == 0 {
        Seq::empty()
    } else {
        seq![WireField { tag, value: WireValue::Varint(v) }]
    }
}

/// A string of bytes, as a field.
pub open spec fn blob_field(tag: u32, body: Seq<u8>) -> Seq<WireField> {
    if body.len() == 0 {
        Seq::empty()
    } else {
        message_field(tag, body)
    }
}

/// A text, as a field.
pub open spec fn string_field(tag: u32, s: Seq<char>) -> Seq<WireField> {
    blob_field(tag, utf8::encode_utf8(s))
}

/// A message, as a field.
pub open spec fn message_field(tag: u32, body: Seq<u8>) -> Seq<WireField> {
    seq![WireField { tag, value: WireValue::Delimited(body) }]
}

/// A message that may be missing, as a field.
pub open spec fn optional_field(tag: u32, body: Option<Seq<u8>>) -> Seq<WireField> {
    match body {
        Some(body) => message_field(tag, body),
        None => Seq::empty(),
    }
}

/// Repeated messages, or repeated texts, as fields.
pub open spec fn repeated_field(tag: u32, bodies: Seq<Seq<u8>>) -> Seq<WireField> {
    Seq::new(bodies.len(), |i: int| WireField { tag, value: WireValue::Delimited(bodies[i]) })
}

/// Repeated numbers, as a field.
pub open spec fn packed_field(tag: u32, ns: Seq<u64>) -> Seq<WireField> {
    blob_field(tag, packed(ns))
}

/// What a field with one tag holds under another.
pub proof fn lemma_values_of_other(fs: Seq<WireField>, own: u32, tag: u32)
    requires
        forall|i: int| 0 <= i < fs.len() ==> (#[trigger] fs[i]).tag == own,
        own != tag,
    ensures
        values(fs, tag) == Seq::<WireValue>::empty(),
    decreases fs.len(),
{
    if fs.len() > 0 {
        assert(fs[0].tag == own);
        assert forall|i: int| 0 <= i < fs.drop_first().len() implies (
        #[trigger] fs.drop_first()[i]).tag == own by {
            assert(fs.drop_first()[i] == fs[i + 1]);
        }
        lemma_values_of_other(fs.drop_first(), own, tag);
    }
}

/// What a field with one tag holds under that tag.
pub proof fn lemma_values_of_own(fs: Seq<WireField>, tag: u32)
    requires
        forall|i: int| 0 <= i < fs.len() ==> (#[trigger] fs[i]).tag == tag,
    ensures
        values(fs, tag) == Seq::new(fs.len(), |i: int| fs[i].value),
    decreases fs.len(),
{
    let expected = Seq::new(fs.len(), |i: int| fs[i].value);
    if fs.len() > 0 {
        let rest = fs.drop_first();
        assert(fs[0].tag == tag);
        assert forall|i: int| 0 <= i < rest.len() implies (#[trigger] rest[i]).tag == tag by {
            assert(rest[i] == fs[i + 1]);
        }
        lemma_values_of_own(rest, tag);
        assert(expected =~= seq![fs[0].value] + Seq::new(rest.len(), |i: int| rest[i].value));
    } else {
        assert(expected =~= Seq::<WireValue>::empty());
    }
}

/// A number is read back from its field.
pub proof fn lemma_scalar_read_back(tag: u32, v: u64)
    ensures
        scalar(values(scalar_field(tag, v), tag)) == Some(v),
{
    lemma_values_of_own(scalar_field(tag, v), tag);
}

/// A string of bytes is read back from its field.
pub proof fn lemma_blob_read_back(tag: u32, body: Seq<u8>)
    ensures
        blob(values(blob_field(tag, body), tag)) == Some(body),
{
    lemma_values_of_own(blob_field(tag, body), tag);
    assert(body.len() == 0 ==> body =~= Seq::<u8>::empty());
}

/// A text is read back from its field.
pub proof fn lemma_string_read_back(tag: u32, s: Seq<char>)
    ensures
        string(values(string_field(tag, s), tag)) == Some(s),
{
    let body = utf8::encode_utf8(s);
    lemma_values_of_own(string_field(tag, s), tag);
    utf8::encode_utf8_valid_utf8(s);
    utf8::encode_utf8_decode_utf8(s);
    if body.len() == 0 {
        assert(body =~= Seq::<u8>::empty());
        assert(s.len() == 0);
        assert(s =~= Seq::<char>::empty());
    }
}

/// Repeated numbers are read back from their field.
pub proof fn lemma_numbers_read_back(tag: u32, ns: Seq<u64>)
    ensures
        numbers(values(packed_field(tag, ns), tag)) == Some(ns),
{
    let vs = values(packed_field(tag, ns), tag);
    lemma_values_of_own(packed_field(tag, ns), tag);
    lemma_varints_of_packed(ns);
    if packed(ns).len() == 0 {
        assert(packed(ns) =~= Seq::<u8>::empty());
        assert(ns =~= Seq::<u64>::empty());
    } else {
        assert(numbers(vs.drop_last()) == Some(Seq::<u64>::empty()));
        assert(Seq::<u64>::empty() + ns =~= ns);
    }
}

/// Bytes that may be missing are read back from their field.
pub proof fn lemma_inner_read_back(
    tag: u32,
    body: Option<Seq<u8>>,
    fs: Seq<WireField>,
    room: nat,
)
    requires
        body matches Some(b) ==> wire::fields(b, room) == Some(fs),
    ensures
        inner(values(optional_field(tag, body), tag), room) == Some(
            match body {
                Some(_) => Some(fs),
                None => None,
            },
        ),
{
    let vs = values(optional_field(tag, body), tag);
    lemma_values_of_own(optional_field(tag, body), tag);
    if body is Some {
        let cs = chunks(vs)->Some_0;
        assert(cs.last() == body->Some_0);
        assert(merged(cs.drop_last(), room) == Some(Seq::<WireField>::empty()));
        assert(Seq::<WireField>::empty() + fs =~= fs);
    }
}

/// Repeated bytes are read back from their fields.
pub proof fn lemma_chunks_read_back(tag: u32, bodies: Seq<Seq<u8>>)
    ensures
        chunks(values(repeated_field(tag, bodies), tag)) == Some(bodies),
{
    let vs = values(repeated_field(tag, bodies), tag);
    lemma_values_of_own(repeated_field(tag, bodies), tag);
    assert(Seq::new(vs.len(), |i: int| vs[i]->Delimited_0) =~= bodies);
}

/// The values in a buffer.
pub open spec fn viewed_values(vs: Seq<Value>) -> Seq<WireValue> {
    Seq::new(vs.len(), |i: int| vs[i]@)
}

fn select<'a>(fs: &Vec<Field<'a>>, tag: u32) -> (r: Vec<Value<'a>>)
    ensures
        viewed_values(r@) == values(wire::viewed(fs@), tag),
{
    let ghost all = wire::viewed(fs@);
    let mut out: Vec<Value<'a>> = Vec::new();
    let mut i: usize = 0;
    assert(all.subrange(0, all.len() as int) =~= all);
    assert(viewed_values(out@) + values(all, tag) =~= values(all, tag));
    while i < fs.len()
        invariant
            i <= fs.len(),
            all == wire::viewed(fs@),
            values(all, tag) == viewed_values(out@) + values(
                all.subrange(i as int, all.len() as int),
                tag,
            ),
        decreases fs.len() - i,
    {
        let ghost before = viewed_values(out@);
        let ghost rest = all.subrange(i as int, all.len() as int);
        assert(rest[0] == fs@[i as int]@);
        assert(rest.drop_first() =~= all.subrange(i + 1, all.len() as int));
        if fs[i].tag == tag {
            out.push(fs[i].value);
            assert(viewed_values(out@) =~= before.push(rest[0].value));
            assert(before + values(rest, tag) =~= viewed_values(out@) + values(
                rest.drop_first(),
                tag,
            ));
        } else {
            assert(values(rest, tag) =~= values(rest.drop_first(), tag));
        }
        i += 1;
    }
    assert(all.subrange(i as int, all.len() as int) =~= Seq::<WireField>::empty());
    assert(viewed_values(out@) + Seq::<WireValue>::empty() =~= viewed_values(out@));
    out
}

/// The number under a tag.
pub fn read_scalar(fs: &Vec<Field>, tag: u32) -> (r: Option<u64>)
    ensures
        r == scalar(values(wire::viewed(fs@), tag)),
{
    let vs: Vec<Value> = select(fs, tag);
    let ghost all = viewed_values(vs@);
    let mut found: u64 = 0;
    let mut i: usize = 0;
    while i < vs.len()
        invariant
            i <= vs.len(),
            all == viewed_values(vs@),
            all == values(wire::viewed(fs@), tag),
            forall|j: int| 0 <= j < i ==> #[trigger] all[j] is Varint,
            found == if i == 0 {
                0
            } else {
                all[i - 1]->Varint_0
            },
        decreases vs.len() - i,
    {
        assert(all[i as int] == vs@[i as int]@);
        match vs[i] {
            Value::Varint(v) => {
                found = v;
            },
            _ => {
                assert(!(all[i as int] is Varint));
                return None;
            },
        }
        i += 1;
    }
    Some(found)
}

/// The slices of a buffer.
pub open spec fn slices(cs: Seq<&[u8]>) -> Seq<Seq<u8>> {
    Seq::new(cs.len(), |i: int| cs[i]@)
}

/// The bytes under a tag, once for every field.
pub fn read_chunks<'a>(fs: &Vec<Field<'a>>, tag: u32) -> (r: Option<Vec<&'a [u8]>>)
    ensures
        match chunks(values(wire::viewed(fs@), tag)) {
            Some(cs) => r matches Some(v) && slices(v@) == cs,
            None => r is None,
        },
{
    let vs: Vec<Value<'a>> = select(fs, tag);
    let ghost all = viewed_values(vs@);
    let mut out: Vec<&'a [u8]> = Vec::new();
    let mut i: usize = 0;
    while i < vs.len()
        invariant
            i <= vs.len(),
            all == viewed_values(vs@),
            all == values(wire::viewed(fs@), tag),
            out@.len() == i,
            forall|j: int|
                0 <= j < i ==> #[trigger] all[j] is Delimited && all[j]->Delimited_0 == out@[j]@,
        decreases vs.len() - i,
    {
        assert(all[i as int] == vs@[i as int]@);
        match vs[i] {
            Value::Delimited(body) => {
                out.push(body);
            },
            _ => {
                assert(!(all[i as int] is Delimited));
                return None;
            },
        }
        i += 1;
    }
    assert(slices(out@) =~= Seq::new(all.len(), |i: int| all[i]->Delimited_0));
    Some(out)
}

/// The string of bytes under a tag.
pub fn read_blob(fs: &Vec<Field>, tag: u32) -> (r: Option<Vec<u8>>)
    ensures
        match blob(values(wire::viewed(fs@), tag)) {
            Some(body) => r matches Some(v) && v@ == body,
            None => r is None,
        },
{
    match read_chunks(fs, tag) {
        None => None,
        Some(cs) => {
            if cs.len() == 0 {
                Some(Vec::new())
            } else {
                assert(slices(cs@).last() == cs@.last()@);
                Some(octets::to_vec(cs[cs.len() - 1]))
            }
        },
    }
}

/// The text under a tag.
pub fn read_string(fs: &Vec<Field>, tag: u32) -> (r: Option<String>)
    ensures
        match string(values(wire::viewed(fs@), tag)) {
            Some(s) => r matches Some(t) && t@ == s,
            None => r is None,
        },
{
    match read_chunks(fs, tag) {
        None => None,
        Some(cs) => {
            let ghost all = slices(cs@);
            let mut found: &str = "";
            let mut i: usize = 0;
            proof {
                reveal_strlit("");
                assert(""@ =~= Seq::<char>::empty());
            }
            while i < cs.len()
                invariant
                    i <= cs.len(),
                    all == slices(cs@),
                    chunks(values(wire::viewed(fs@), tag)) == Some(all),
                    forall|j: int| 0 <= j < i ==> utf8::valid_utf8(#[trigger] all[j]),
                    found@ == if i == 0 {
                        Seq::<char>::empty()
                    } else {
                        utf8::decode_utf8(all[i - 1])
                    },
                decreases cs.len() - i,
            {
                assert(all[i as int] == cs@[i as int]@);
                match text::decode(cs[i]) {
                    None => {
                        assert(!utf8::valid_utf8(all[i as int]));
                        return None;
                    },
                    Some(s) => {
                        found = s;
                    },
                }
                i += 1;
            }
            Some(found.to_string())
        },
    }
}

fn read_varints(s: &[u8], out: &mut Vec<u64>) -> (r: bool)
    ensures
        match varints(s@) {
            Some(ns) => r && final(out)@ == old(out)@ + ns,
            None => !r,
        },
{
    let ghost before = out@;
    let mut rest: &[u8] = s;
    proof {
        if varints(s@) is Some {
            let ns = varints(s@)->Some_0;
            assert(before + ns =~= out@ + ns);
        }
    }
    while rest.len() > 0
        invariant
            match (varints(s@), varints(rest@)) {
                (Some(ns), Some(more)) => before + ns == out@ + more,
                (None, None) => true,
                _ => false,
            },
        decreases rest.len(),
    {
        proof {
            wire::lemma_varint_bounds(rest@);
        }
        match wire::decode_varint(rest) {
            None => {
                return false;
            },
            Some((v, tail)) => {
                proof {
                    if varints(tail@) is Some {
                        let more = varints(tail@)->Some_0;
                        assert(out@ + (seq![v] + more) =~= out@.push(v) + more);
                    }
                }
                out.push(v);
                rest = tail;
            },
        }
    }
    assert(out@ + Seq::<u64>::empty() =~= out@);
    true
}

/// The repeated numbers under a tag.
pub fn read_numbers(fs: &Vec<Field>, tag: u32) -> (r: Option<Vec<u64>>)
    ensures
        match numbers(values(wire::viewed(fs@), tag)) {
            Some(ns) => r matches Some(v) && v@ == ns,
            None => r is None,
        },
{
    let vs: Vec<Value> = select(fs, tag);
    let ghost all = viewed_values(vs@);
    let mut out: Vec<u64> = Vec::new();
    let mut i: usize = 0;
    assert(all.take(0) =~= Seq::<WireValue>::empty());
    while i < vs.len()
        invariant
            i <= vs.len(),
            all == viewed_values(vs@),
            all == values(wire::viewed(fs@), tag),
            numbers(all.take(i as int)) == Some(out@),
        decreases vs.len() - i,
    {
        assert(all[i as int] == vs@[i as int]@);
        assert(all.take(i + 1).drop_last() =~= all.take(i as int));
        assert(all.take(i + 1).last() == all[i as int]);
        match vs[i] {
            Value::Varint(v) => {
                out.push(v);
            },
            Value::Delimited(body) => {
                if !read_varints(body, &mut out) {
                    proof {
                        lemma_numbers_prefix(all, i + 1);
                    }
                    return None;
                }
            },
            _ => {
                proof {
                    lemma_numbers_prefix(all, i + 1);
                }
                return None;
            },
        }
        i += 1;
    }
    assert(all.take(all.len() as int) =~= all);
    Some(out)
}

proof fn lemma_numbers_prefix(vs: Seq<WireValue>, n: int)
    requires
        0 <= n <= vs.len(),
        numbers(vs.take(n)) is None,
    ensures
        numbers(vs) is None,
    decreases vs.len() - n,
{
    if n < vs.len() {
        assert(vs.take(n + 1).drop_last() =~= vs.take(n));
        lemma_numbers_prefix(vs, n + 1);
    } else {
        assert(vs.take(n) =~= vs);
    }
}

/// The fields of the message under a tag, if it is there.
pub fn read_inner<'a>(fs: &Vec<Field<'a>>, tag: u32, room: u32) -> (r: Option<
    Option<Vec<Field<'a>>>,
>)
    ensures
        match inner(values(wire::viewed(fs@), tag), room as nat) {
            Some(Some(found)) => r matches Some(Some(v)) && wire::viewed(v@) == found,
            Some(None) => r == Some(None::<Vec<Field<'a>>>),
            None => r is None,
        },
{
    match read_chunks(fs, tag) {
        None => None,
        Some(cs) => {
            if cs.len() == 0 {
                return Some(None);
            }
            let ghost all = slices(cs@);
            let mut out: Vec<Field<'a>> = Vec::new();
            let mut i: usize = 0;
            assert(all.take(0) =~= Seq::<Seq<u8>>::empty());
            assert(wire::viewed(out@) =~= Seq::<WireField>::empty());
            while i < cs.len()
                invariant
                    i <= cs.len(),
                    all == slices(cs@),
                    chunks(values(wire::viewed(fs@), tag)) == Some(all),
                    all.len() > 0,
                    merged(all.take(i as int), room as nat) == Some(wire::viewed(out@)),
                decreases cs.len() - i,
            {
                assert(all[i as int] == cs@[i as int]@);
                assert(all.take(i + 1).drop_last() =~= all.take(i as int));
                assert(all.take(i + 1).last() == all[i as int]);
                match wire::read_fields(cs[i], room) {
                    None => {
                        proof {
                            lemma_merged_prefix(all, i + 1, room as nat);
                        }
                        return None;
                    },
                    Some(more) => {
                        let ghost before = out@;
                        let ghost added = more@;
                        let mut more: Vec<Field<'a>> = more;
                        out.append(&mut more);
                        assert(wire::viewed(out@) =~= wire::viewed(before) + wire::viewed(added));
                    },
                }
                i += 1;
            }
            assert(all.take(all.len() as int) =~= all);
            Some(Some(out))
        },
    }
}

proof fn lemma_merged_prefix(cs: Seq<Seq<u8>>, n: int, room: nat)
    requires
        0 <= n <= cs.len(),
        merged(cs.take(n), room) is None,
    ensures
        merged(cs, room) is None,
    decreases cs.len() - n,
{
    if n < cs.len() {
        assert(cs.take(n + 1).drop_last() =~= cs.take(n));
        lemma_merged_prefix(cs, n + 1, room);
    } else {
        assert(cs.take(n) =~= cs);
    }
}

/// Appends a field that is written as a varint.
pub fn put_varint(out: &mut Vec<u8>, tag: u32, v: u64)
    requires
        tag <= wire::MAX_TAG,
    ensures
        final(out)@ == old(out)@ + wire::encoded(
            seq![WireField { tag, value: WireValue::Varint(v) }],
        ),
{
    let ghost before = out@;
    let ghost f = WireField { tag, value: WireValue::Varint(v) };
    wire::encode_varint(tag as u64 * 8, out);
    wire::encode_varint(v, out);
    proof {
        lemma_encoded_one(f);
    }
    assert(out@ =~= before + wire::encoded(seq![f]));
}

proof fn lemma_encoded_one(f: WireField)
    ensures
        wire::encoded(seq![f]) == wire::encoded_field(f),
{
    assert(seq![f].drop_first() =~= Seq::<WireField>::empty());
    assert(wire::encoded(seq![f].drop_first()) =~= Seq::<u8>::empty());
    assert(wire::encoded(seq![f]) =~= wire::encoded_field(f));
}

/// Appends a number, unless it is zero.
pub fn put_scalar(out: &mut Vec<u8>, tag: u32, v: u64)
    requires
        tag <= wire::MAX_TAG,
    ensures
        final(out)@ == old(out)@ + wire::encoded(scalar_field(tag, v)),
{
    if v != 0 {
        put_varint(out, tag, v);
    } else {
        assert(out@ + Seq::<u8>::empty() =~= out@);
    }
}

/// Appends a field that is written as bytes.
pub fn put_message(out: &mut Vec<u8>, tag: u32, body: &[u8])
    requires
        tag <= wire::MAX_TAG,
    ensures
        final(out)@ == old(out)@ + wire::encoded(message_field(tag, body@)),
{
    let ghost before = out@;
    let ghost f = WireField { tag, value: WireValue::Delimited(body@) };
    wire::encode_varint(tag as u64 * 8 + 2, out);
    wire::encode_varint(body.len() as u64, out);
    octets::push_all(out, body);
    proof {
        lemma_encoded_one(f);
    }
    assert(out@ =~= before + wire::encoded(seq![f]));
}

/// Appends a string of bytes, unless it is empty.
pub fn put_blob(out: &mut Vec<u8>, tag: u32, body: &[u8])
    requires
        tag <= wire::MAX_TAG,
    ensures
        final(out)@ == old(out)@ + wire::encoded(blob_field(tag, body@)),
{
    if body.len() > 0 {
        put_message(out, tag, body);
    } else {
        assert(out@ + Seq::<u8>::empty() =~= out@);
    }
}

/// Appends a text, unless it is empty.
pub fn put_string(out: &mut Vec<u8>, tag: u32, s: &str)
    requires
        tag <= wire::MAX_TAG,
    ensures
        final(out)@ == old(out)@ + wire::encoded(string_field(tag, s@)),
{
    put_blob(out, tag, s.as_bytes());
}

/// Appends repeated numbers, packed, unless there are none.
pub fn put_packed(out: &mut Vec<u8>, tag: u32, ns: &Vec<u64>)
    requires
        tag <= wire::MAX_TAG,
    ensures
        final(out)@ == old(out)@ + wire::encoded(packed_field(tag, ns@)),
{
    let mut body: Vec<u8> = Vec::new();
    let mut i: usize = 0;
    while i < ns.len()
        invariant
            i <= ns.len(),
            body@ == packed(ns@.take(i as int)),
        decreases ns.len() - i,
    {
        proof {
            lemma_packed_push(ns@.take(i as int), ns@[i as int]);
        }
        assert(ns@.take(i + 1) =~= ns@.take(i as int).push(ns@[i as int]));
        wire::encode_varint(ns[i], &mut body);
        i += 1;
    }
    assert(ns@.take(ns@.len() as int) =~= ns@);
    put_blob(out, tag, body.as_slice());
}

// ---- How fields are read ----------------------------------------------------

/// Of numbers the last one counts, and none is zero; a value that is no number spoils the
/// field.
pub proof fn lemma_last_number_counts(vs: Seq<WireValue>, v: u64, other: WireValue)
    requires
        !(other is Varint),
    ensures
        scalar(Seq::empty()) == Some(0u64),
        scalar(vs) is Some ==> scalar(vs.push(WireValue::Varint(v))) == Some(v),
        scalar(vs) is None ==> scalar(vs.push(WireValue::Varint(v))) is None,
        scalar(vs.push(other)) is None,
{
    let with = vs.push(WireValue::Varint(v));
    let spoiled = vs.push(other);
    assert(spoiled[vs.len() as int] == other);
    if scalar(vs) is None {
        let i = choose|i: int| 0 <= i < vs.len() && !(#[trigger] vs[i] is Varint);
        assert(with[i] == vs[i]);
    } else {
        assert forall|i: int| 0 <= i < with.len() implies #[trigger] with[i] is Varint by {
            if i < vs.len() {
                assert(with[i] == vs[i]);
            }
        }
    }
}

/// Of texts and byte strings the last one counts, and none is empty; one that is no
/// string spoils the field, and so does a text that is not UTF-8.
pub proof fn lemma_last_string_counts(vs: Seq<WireValue>, body: Seq<u8>, other: WireValue)
    requires
        !(other is Delimited),
    ensures
        blob(Seq::empty()) == Some(Seq::<u8>::empty()),
        string(Seq::empty()) == Some(Seq::<char>::empty()),
        blob(vs) is Some ==> blob(vs.push(WireValue::Delimited(body))) == Some(body),
        string(vs) is Some && utf8::valid_utf8(body) ==> string(
            vs.push(WireValue::Delimited(body)),
        ) == Some(utf8::decode_utf8(body)),
        !utf8::valid_utf8(body) ==> string(vs.push(WireValue::Delimited(body))) is None,
        blob(vs.push(other)) is None,
        string(vs.push(other)) is None,
{
    let with = vs.push(WireValue::Delimited(body));
    let spoiled = vs.push(other);
    assert(spoiled[vs.len() as int] == other);
    assert(with[vs.len() as int] == WireValue::Delimited(body));
    if chunks(with) is Some {
        assert(chunks(with)->Some_0[vs.len() as int] == body);
    }
    if chunks(vs) is Some {
        assert forall|i: int| 0 <= i < with.len() implies #[trigger] with[i] is Delimited by {
            if i < vs.len() {
                assert(with[i] == vs[i]);
            }
        }
        let (a, b) = (chunks(vs)->Some_0, chunks(with)->Some_0);
        assert forall|i: int| 0 <= i < a.len() implies #[trigger] b[i] == a[i] by {
            assert(with[i] == vs[i]);
        }
    }
}

/// Repeated numbers stand in the order in which they come, whether each comes by itself
/// or many come together.
pub proof fn lemma_numbers_in_order(vs: Seq<WireValue>, v: u64, ns: Seq<u64>)
    ensures
        numbers(Seq::empty()) == Some(Seq::<u64>::empty()),
        numbers(vs) matches Some(had) ==> numbers(vs.push(WireValue::Varint(v))) == Some(
            had.push(v),
        ) && numbers(vs.push(WireValue::Delimited(packed(ns)))) == Some(had + ns),
{
    lemma_varints_of_packed(ns);
    assert(vs.push(WireValue::Varint(v)).drop_last() =~= vs);
    assert(vs.push(WireValue::Delimited(packed(ns))).drop_last() =~= vs);
}

/// A field with a number that a message does not have is passed over.
pub proof fn lemma_unknown_field(fs: Seq<WireField>, f: WireField, more: Seq<WireField>, tag: u32)
    requires
        f.tag != tag,
    ensures
        values(fs + seq![f] + more, tag) == values(fs + more, tag),
{
    lemma_values_concat(fs + seq![f], more, tag);
    lemma_values_concat(fs, seq![f], tag);
    lemma_values_concat(fs, more, tag);
    lemma_values_of_other(seq![f], f.tag, tag);
    assert(values(fs, tag) + Seq::<WireValue>::empty() =~= values(fs, tag));
}

} // verus!
