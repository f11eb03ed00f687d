//! H.264 in Annex-B form: NAL units, each behind a start code.
//!
//! A start code is `00 00 01` or `00 00 00 01`. It ends in a one and holds no
//! other, so no two start codes overlap. A stream is cut before every start code;
//! the pieces are grouped into access units, each of which ends with a slice.
//! Both steps lose nothing ([`lemma_pieces_join`], [`lemma_units_join`]).
use crate::octets;
use vstd::prelude::*;

pub mod nut;

verus! {

/// Whether `00 00 01` stands at `i`.
pub open spec fn short_code_at(s: Seq<u8>, i: int) -> bool {
    0 <= i && i + 3 <= s.len() && s[i] == 0 && s[i + 1] == 0 && s[i + 2] == 1
}

/// Whether `00 00 00 01` stands at `i`.
pub open spec fn long_code_at(s: Seq<u8>, i: int) -> bool {
    0 <= i && i + 4 <= s.len() && s[i] == 0 && short_code_at(s, i + 1)
}

/// Whether a start code begins at `i`. Where a zero stands before `00 00 01`, it
/// belongs to the start code.
pub open spec fn code_at(s: Seq<u8>, i: int) -> bool {
    long_code_at(s, i) || (short_code_at(s, i) && !(i > 0 && s[i - 1] == 0))
}

/// Where start codes begin from `i` on.
pub open spec fn codes_from(s: Seq<u8>, i: int) -> Seq<int>
    decreases s.len() - i,
{
    if i >= s.len() {
        Seq::empty()
    } else if code_at(s, i) {
        seq![i] + codes_from(s, i + 1)
    } else {
        codes_from(s, i + 1)
    }
}

proof fn lemma_skip(s: Seq<u8>, i: int, j: int)
    requires
        0 <= i <= j <= s.len(),
        forall|k: int| i <= k < j ==> !code_at(s, k),
    ensures
        codes_from(s, i) == codes_from(s, j),
    decreases j - i,
{
    if i < j {
        assert(!code_at(s, i));
        lemma_skip(s, i + 1, j);
    }
}

/// Whether positions are in order, at start codes, and none before `i`.
spec fn orderly(s: Seq<u8>, i: int, cuts: Seq<int>) -> bool {
    &&& forall|k: int|
        0 <= k < cuts.len() ==> i <= #[trigger] cuts[k] && cuts[k] + 3 <= s.len() && code_at(
            s,
            cuts[k],
        )
    &&& forall|k: int, l: int|
        0 <= k < l < cuts.len() ==> #[trigger] cuts[k] + 3 <= #[trigger] cuts[l]
}

proof fn lemma_orderly(s: Seq<u8>, i: int)
    requires
        0 <= i <= s.len(),
    ensures
        orderly(s, i, codes_from(s, i)),
    decreases s.len() - i,
{
    if i < s.len() {
        let rest = codes_from(s, i + 1);
        let all = codes_from(s, i);
        lemma_orderly(s, i + 1);
        if code_at(s, i) {
            assert forall|l: int| 0 <= l < rest.len() implies i + 3 <= #[trigger] rest[l] by {
                assert(code_at(s, rest[l]));
            }
            assert(all =~= seq![i] + rest);
            assert forall|k: int| 0 <= k < all.len() implies i <= #[trigger] all[k] && all[k] + 3
                <= s.len() && code_at(s, all[k]) by {
                if k > 0 {
                    assert(all[k] == rest[k - 1]);
                }
            }
            assert forall|k: int, l: int| 0 <= k < l < all.len() implies #[trigger] all[k] + 3
                <= #[trigger] all[l] by {
                assert(all[l] == rest[l - 1]);
                if k > 0 {
                    assert(all[k] == rest[k - 1]);
                }
            }
        }
    }
}

/// Where start codes begin.
pub fn start_code_offsets(buf: &[u8]) -> (r: Vec<usize>)
    ensures
        r@.map_values(|x: usize| x as int) == codes_from(buf@, 0),
{
    let ghost s = buf@;
    let mut out: Vec<usize> = Vec::new();
    let mut i: usize = 0;
    let n: usize = buf.len();
    assert(out@.map_values(|x: usize| x as int) =~= Seq::<int>::empty());
    assert(Seq::<int>::empty() + codes_from(s, 0) =~= codes_from(s, 0));
    while i < n && n - i >= 3
        invariant
            s == buf@,
            n == s.len(),
            i <= n,
            i > 0 && s[i - 1] == 0 ==> !short_code_at(s, i as int),
            codes_from(s, 0) == out@.map_values(|x: usize| x as int) + codes_from(s, i as int),
        decreases n - i,
    {
        let ghost found = out@.map_values(|x: usize| x as int);
        let ghost at = i as int;
        if buf[i] == 0 && buf[i + 1] == 0 {
            if n - i >= 4 && buf[i + 2] == 0 && buf[i + 3] == 1 {
                assert(long_code_at(s, at));
                out.push(i);
                i += 4;
                proof {
                    assert(out@.map_values(|x: usize| x as int) =~= found.push(at));
                    lemma_skip(s, at + 1, at + 4);
                    assert(found + (seq![at] + codes_from(s, at + 4)) =~= found.push(at)
                        + codes_from(s, at + 4));
                }
                continue ;
            }
            if buf[i + 2] == 1 {
                assert(short_code_at(s, at));
                out.push(i);
                i += 3;
                proof {
                    assert(out@.map_values(|x: usize| x as int) =~= found.push(at));
                    lemma_skip(s, at + 1, at + 3);
                    assert(found + (seq![at] + codes_from(s, at + 3)) =~= found.push(at)
                        + codes_from(s, at + 3));
                }
                continue ;
            }
        }
        assert(!code_at(s, at));
        i += 1;
    }
    proof {
        assert forall|k: int| i <= k < n implies !code_at(s, k) by {}
        lemma_skip(s, i as int, n as int);
        assert(out@.map_values(|x: usize| x as int) + Seq::<int>::empty() =~= out@.map_values(
            |x: usize| x as int,
        ));
    }
    out
}

/// The pieces of `s` from each of these positions to the next, and to the end.
pub open spec fn pieces(s: Seq<u8>, cuts: Seq<int>) -> Seq<Seq<u8>> {
    Seq::new(
        cuts.len(),
        |k: int|
            s.subrange(
                cuts[k],
                if k + 1 < cuts.len() {
                    cuts[k + 1]
                } else {
                    s.len() as int
                },
            ),
    )
}

/// The NAL units of a stream, each with its start code.
pub open spec fn nals_of(s: Seq<u8>) -> Seq<Seq<u8>> {
    pieces(s, codes_from(s, 0))
}

/// What slices hold.
pub open spec fn held(v: Seq<&[u8]>) -> Seq<Seq<u8>> {
    Seq::new(v.len(), |i: int| v[i]@)
}

/// The NAL units of a stream, each with its start code. What stands before the
/// first start code is not part of any.
pub fn split_nals(buf: &[u8]) -> (r: Vec<&[u8]>)
    ensures
        held(r@) == nals_of(buf@),
{
    let codes: Vec<usize> = start_code_offsets(buf);
    let ghost cuts = codes_from(buf@, 0);
    proof {
        lemma_orderly(buf@, 0);
    }
    let mut out: Vec<&[u8]> = Vec::new();
    let mut i: usize = 0;
    while i < codes.len()
        invariant
            i <= codes.len(),
            codes@.map_values(|x: usize| x as int) == cuts,
            orderly(buf@, 0, cuts),
            held(out@) == pieces(buf@, cuts).take(i as int),
        decreases codes.len() - i,
    {
        let start: usize = codes[i];
        let end: usize = if i + 1 < codes.len() {
            codes[i + 1]
        } else {
            buf.len()
        };
        assert(cuts[i as int] == start);
        assert(i + 1 < cuts.len() ==> cuts[i + 1] == end);
        let ghost before = held(out@);
        out.push(&buf[start..end]);
        assert(held(out@) =~= before.push(buf@.subrange(start as int, end as int)));
        assert(held(out@) =~= pieces(buf@, cuts).take(i + 1));
        i += 1;
    }
    assert(pieces(buf@, cuts).take(i as int) =~= pieces(buf@, cuts));
    out
}

/// Sequences one after the other.
pub open spec fn joined(parts: Seq<Seq<u8>>) -> Seq<u8>
    decreases parts.len(),
{
    if parts.len() == 0 {
        Seq::empty()
    } else {
        joined(parts.drop_last()) + parts.last()
    }
}

proof fn lemma_joined_push(parts: Seq<Seq<u8>>, p: Seq<u8>)
    ensures
        joined(parts.push(p)) == joined(parts) + p,
{
    assert(parts.push(p).drop_last() =~= parts);
}

/// What two runs of sequences are together.
pub proof fn lemma_joined_concat(a: Seq<Seq<u8>>, b: Seq<Seq<u8>>)
    ensures
        joined(a + b) == joined(a) + joined(b),
    decreases b.len(),
{
    if b.len() == 0 {
        assert(a + b =~= a);
        assert(joined(a) + joined(b) =~= joined(a));
    } else {
        assert((a + b).drop_last() =~= a + b.drop_last());
        lemma_joined_concat(a, b.drop_last());
        assert(joined(a + b) =~= joined(a) + joined(b));
    }
}

proof fn lemma_pieces_prefix(s: Seq<u8>, cuts: Seq<int>, k: int)
    requires
        0 < k < cuts.len(),
        forall|i: int| 0 <= i < cuts.len() ==> 0 <= #[trigger] cuts[i] <= s.len(),
        forall|i: int, j: int| 0 <= i < j < cuts.len() ==> #[trigger] cuts[i] <= #[trigger] cuts[j],
    ensures
        joined(pieces(s, cuts).take(k)) == s.subrange(cuts[0], cuts[k]),
    decreases k,
{
    let all = pieces(s, cuts);
    assert(all.take(k).drop_last() =~= all.take(k - 1));
    assert(all.take(k).last() == s.subrange(cuts[k - 1], cuts[k]));
    if k > 1 {
        lemma_pieces_prefix(s, cuts, k - 1);
        assert(cuts[0] <= cuts[k - 1] && cuts[k - 1] <= cuts[k]);
        assert(s.subrange(cuts[0], cuts[k - 1]) + s.subrange(cuts[k - 1], cuts[k]) =~= s.subrange(
            cuts[0],
            cuts[k],
        ));
    } else {
        assert(all.take(0) =~= Seq::<Seq<u8>>::empty());
        assert(joined(Seq::<Seq<u8>>::empty()) =~= Seq::<u8>::empty());
        assert(Seq::<u8>::empty() + s.subrange(cuts[0], cuts[1]) =~= s.subrange(cuts[0], cuts[1]));
    }
}

/// The NAL units of a stream, one after the other, are the stream from its first
/// start code on. A stream without a start code has none.
pub proof fn lemma_pieces_join(s: Seq<u8>)
    ensures
        joined(nals_of(s)) == if codes_from(s, 0).len() == 0 {
            Seq::empty()
        } else {
            s.subrange(codes_from(s, 0)[0], s.len() as int)
        },
        codes_from(s, 0).len() > 0 ==> 0 <= codes_from(s, 0)[0] <= s.len(),
{
    let cuts = codes_from(s, 0);
    let all = nals_of(s);
    lemma_orderly(s, 0);
    if cuts.len() == 1 {
        assert(all.drop_last() =~= Seq::<Seq<u8>>::empty());
        assert(all.last() == s.subrange(cuts[0], s.len() as int));
        assert(joined(Seq::<Seq<u8>>::empty()) =~= Seq::<u8>::empty());
        assert(joined(all) =~= s.subrange(cuts[0], s.len() as int));
    } else if cuts.len() > 1 {
        let k = cuts.len() - 1;
        assert forall|i: int, j: int| 0 <= i < j < cuts.len() implies #[trigger] cuts[i]
            <= #[trigger] cuts[j] by {}
        lemma_pieces_prefix(s, cuts, k);
        assert(all.drop_last() =~= all.take(k));
        assert(cuts[0] <= cuts[k]);
        assert(joined(all) =~= s.subrange(cuts[0], s.len() as int));
    }
}

/// A stream that begins with a start code is its NAL units, one after the other.
pub proof fn lemma_pieces_join_whole(s: Seq<u8>)
    requires
        code_at(s, 0),
    ensures
        joined(nals_of(s)) == s,
{
    lemma_pieces_join(s);
    assert(codes_from(s, 0)[0] == 0);
    assert(s.subrange(0, s.len() as int) =~= s);
}

/// The type in the header behind the first start code from `i` on, or 0.
pub open spec fn type_from(s: Seq<u8>, i: int) -> u8
    decreases s.len() - i,
{
    if i + 3 >= s.len() {
        0
    } else if s[i] == 0 && s[i + 1] == 0 && s[i + 2] == 1 {
        s[i + 3] % 32
    } else if s[i] == 0 && s[i + 1] == 0 && s[i + 2] == 0 && s[i + 3] == 1 && i + 4 < s.len() {
        s[i + 4] % 32
    } else {
        type_from(s, i + 1)
    }
}

/// The type of a NAL unit that begins with its start code, or 0 where there is
/// none.
pub fn nal_unit_type(nal: &[u8]) -> (r: u8)
    ensures
        r == type_from(nal@, 0),
{
    let n: usize = nal.len();
    let mut i: usize = 0;
    while i < n && n - i > 3
        invariant
            n == nal@.len(),
            i <= n,
            type_from(nal@, 0) == type_from(nal@, i as int),
        decreases n - i,
    {
        if nal[i] == 0 && nal[i + 1] == 0 {
            if nal[i + 2] == 1 {
                return nal[i + 3] % 32;
            }
            if nal[i + 2] == 0 && nal[i + 3] == 1 && n - i > 4 {
                return nal[i + 4] % 32;
            }
        }
        i += 1;
    }
    0
}

/// Whether a type is that of a coded slice.
pub open spec fn slice_type(nut: u8) -> bool {
    nut == nut::SLICE_NON_IDR || nut == nut::SLICE_IDR
}

/// Whether a type is that of a coded slice.
pub fn is_slice(nut_val: u8) -> (r: bool)
    ensures
        r == slice_type(nut_val),
{
    nut_val == nut::SLICE_NON_IDR || nut_val == nut::SLICE_IDR
}

/// NAL units grouped so that each group but the last ends with its only slice;
/// `current` is the group that is open.
pub open spec fn grouped(nals: Seq<Seq<u8>>, current: Seq<u8>) -> Seq<Seq<u8>>
    decreases nals.len(),
{
    if nals.len() == 0 {
        if current.len() == 0 {
            Seq::empty()
        } else {
            seq![current]
        }
    } else if slice_type(type_from(nals[0], 0)) {
        seq![current + nals[0]] + grouped(nals.drop_first(), Seq::empty())
    } else {
        grouped(nals.drop_first(), current + nals[0])
    }
}

/// The access units of a stream.
pub open spec fn units_of(s: Seq<u8>) -> Seq<Seq<u8>> {
    grouped(nals_of(s), Seq::empty())
}

/// What vectors hold.
pub open spec fn contents(v: Seq<Vec<u8>>) -> Seq<Seq<u8>> {
    Seq::new(v.len(), |i: int| v[i]@)
}

/// The access units of a stream: every slice ends one, and what precedes a slice
/// (parameter sets and the like) goes with it. What follows the last slice is a
/// unit of its own.
pub fn group_access_units(buf: &[u8]) -> (r: Vec<Vec<u8>>)
    ensures
        contents(r@) == units_of(buf@),
{
    let nals: Vec<&[u8]> = split_nals(buf);
    let ghost all = nals_of(buf@);
    let mut units: Vec<Vec<u8>> = Vec::new();
    let mut current: Vec<u8> = Vec::new();
    let mut i: usize = 0;
    assert(all.skip(0) =~= all);
    assert(contents(units@) + grouped(all, Seq::empty()) =~= grouped(all, Seq::empty()));
    while i < nals.len()
        invariant
            i <= nals.len(),
            held(nals@) == all,
            all == nals_of(buf@),
            units_of(buf@) == contents(units@) + grouped(all.skip(i as int), current@),
        decreases nals.len() - i,
    {
        let ghost before = contents(units@);
        let ghost open = current@;
        let n: &[u8] = nals[i];
        assert(held(nals@)[i as int] == n@);
        assert(all.skip(i as int)[0] == n@);
        assert(all.skip(i as int).drop_first() =~= all.skip(i + 1));
        octets::push_all(&mut current, n);
        if is_slice(nal_unit_type(n)) {
            units.push(current);
            current = Vec::new();
            assert(current@ =~= Seq::<u8>::empty());
            assert(contents(units@) =~= before.push(open + n@));
            assert(before + (seq![open + n@] + grouped(all.skip(i + 1), Seq::empty()))
                =~= contents(units@) + grouped(all.skip(i + 1), Seq::empty()));
        }
        i += 1;
    }
    assert(all.skip(i as int) =~= Seq::<Seq<u8>>::empty());
    let ghost before = contents(units@);
    if current.len() > 0 {
        let ghost last = current@;
        units.push(current);
        assert(contents(units@) =~= before + seq![last]);
    } else {
        assert(before + Seq::<Seq<u8>>::empty() =~= before);
    }
    units
}

proof fn lemma_grouped_join(nals: Seq<Seq<u8>>, current: Seq<u8>)
    ensures
        joined(grouped(nals, current)) == current + joined(nals),
    decreases nals.len(),
{
    if nals.len() == 0 {
        if current.len() == 0 {
            assert(current + joined(nals) =~= Seq::<u8>::empty());
        } else {
            lemma_joined_push(Seq::empty(), current);
            assert(Seq::<Seq<u8>>::empty().push(current) =~= seq![current]);
            assert(joined(seq![current]) =~= current + joined(nals));
        }
    } else {
        let rest = nals.drop_first();
        let first = nals[0];
        assert(nals =~= seq![first] + rest);
        lemma_joined_concat(seq![first], rest);
        lemma_joined_push(Seq::empty(), first);
        assert(Seq::<Seq<u8>>::empty().push(first) =~= seq![first]);
        assert(joined(seq![first]) =~= first);
        if slice_type(type_from(first, 0)) {
            let more = grouped(rest, Seq::empty());
            lemma_grouped_join(rest, Seq::empty());
            lemma_joined_concat(seq![current + first], more);
            lemma_joined_push(Seq::empty(), current + first);
            assert(Seq::<Seq<u8>>::empty().push(current + first) =~= seq![current + first]);
            assert(joined(grouped(nals, current)) =~= current + joined(nals));
        } else {
            lemma_grouped_join(rest, current + first);
            assert(joined(grouped(nals, current)) =~= current + joined(nals));
        }
    }
}

/// The access units of a stream, one after the other, are its NAL units, one after
/// the other: grouping drops nothing and changes no order.
pub proof fn lemma_units_join(s: Seq<u8>)
    ensures
        joined(units_of(s)) == joined(nals_of(s)),
{
    lemma_grouped_join(nals_of(s), Seq::empty());
    assert(Seq::<u8>::empty() + joined(nals_of(s)) =~= joined(nals_of(s)));
}

/// Whether every sequence begins with a start code.
pub open spec fn coded(parts: Seq<Seq<u8>>) -> bool {
    forall|i: int| 0 <= i < parts.len() ==> code_at(#[trigger] parts[i], 0)
}

/// A sequence that begins with a start code does so whatever follows it.
pub proof fn lemma_code_extends(a: Seq<u8>, b: Seq<u8>)
    requires
        code_at(a, 0),
    ensures
        code_at(a + b, 0),
{
    if long_code_at(a, 0) {
        assert(long_code_at(a + b, 0));
    } else {
        assert(short_code_at(a + b, 0));
    }
}

proof fn lemma_grouped_coded(nals: Seq<Seq<u8>>, current: Seq<u8>)
    requires
        coded(nals),
        current.len() == 0 || code_at(current, 0),
    ensures
        coded(grouped(nals, current)),
    decreases nals.len(),
{
    if nals.len() > 0 {
        let rest = nals.drop_first();
        assert(code_at(nals[0], 0));
        assert(coded(rest)) by {
            assert forall|i: int| 0 <= i < rest.len() implies code_at(#[trigger] rest[i], 0) by {
                assert(rest[i] == nals[i + 1]);
            }
        }
        if current.len() == 0 {
            assert(current + nals[0] =~= nals[0]);
        } else {
            lemma_code_extends(current, nals[0]);
        }
        if slice_type(type_from(nals[0], 0)) {
            lemma_grouped_coded(rest, Seq::empty());
        } else {
            lemma_grouped_coded(rest, current + nals[0]);
        }
    }
}

/// Every access unit begins with a start code.
pub proof fn lemma_units_coded(s: Seq<u8>)
    ensures
        coded(units_of(s)),
{
    lemma_orderly(s, 0);
    let cuts = codes_from(s, 0);
    let nals = nals_of(s);
    assert forall|i: int| 0 <= i < nals.len() implies code_at(#[trigger] nals[i], 0) by {
        let from = cuts[i];
        assert(code_at(s, from));
        if i + 1 < cuts.len() {
            assert(from + 3 <= cuts[i + 1]);
            assert(code_at(s, cuts[i + 1]));
        }
        if long_code_at(s, from) {
            assert(s[from + 3] == 1);
            assert(long_code_at(nals[i], 0));
        } else {
            assert(short_code_at(nals[i], 0));
        }
    }
    lemma_grouped_coded(nals, Seq::empty());
}

// ---- Which start codes there are -------------------------------------------

proof fn lemma_codes_complete(s: Seq<u8>, i: int, p: int)
    requires
        0 <= i <= p < s.len(),
        code_at(s, p),
    ensures
        codes_from(s, i).contains(p),
    decreases p - i,
{
    let all = codes_from(s, i);
    if i == p {
        assert(all[0] == p);
    } else {
        let rest = codes_from(s, i + 1);
        lemma_codes_complete(s, i + 1, p);
        let k = choose|k: int| 0 <= k < rest.len() && rest[k] == p;
        if code_at(s, i) {
            assert(all[k + 1] == p);
        } else {
            assert(all[k] == p);
        }
    }
}

proof fn lemma_codes_unique(s: Seq<u8>, i: int, c: Seq<int>)
    requires
        0 <= i <= s.len(),
        forall|k: int|
            0 <= k < c.len() ==> i <= #[trigger] c[k] && c[k] < s.len() && code_at(s, c[k]),
        forall|k: int, l: int| 0 <= k < l < c.len() ==> #[trigger] c[k] < #[trigger] c[l],
        forall|p: int| i <= p < s.len() && #[trigger] code_at(s, p) ==> c.contains(p),
    ensures
        codes_from(s, i) == c,
    decreases s.len() - i,
{
    if i == s.len() {
        if c.len() > 0 {
            assert(i <= c[0]);
        }
        assert(c =~= Seq::<int>::empty());
    } else if code_at(s, i) {
        let k = choose|k: int| 0 <= k < c.len() && c[k] == i;
        if k > 0 {
            assert(c[0] < c[k]);
        }
        let d = c.drop_first();
        assert forall|l: int| 0 <= l < d.len() implies i + 1 <= #[trigger] d[l] && d[l] < s.len()
            && code_at(s, d[l]) by {
            assert(d[l] == c[l + 1]);
            assert(c[0] < c[l + 1]);
        }
        assert forall|l: int, m: int| 0 <= l < m < d.len() implies #[trigger] d[l]
            < #[trigger] d[m] by {
            assert(c[l + 1] < c[m + 1]);
        }
        assert forall|p: int| i + 1 <= p < s.len() && #[trigger] code_at(s, p) implies d.contains(
            p,
        ) by {
            let m = choose|m: int| 0 <= m < c.len() && c[m] == p;
            assert(d[m - 1] == p);
        }
        lemma_codes_unique(s, i + 1, d);
        assert(seq![i] + d =~= c);
    } else {
        assert forall|l: int| 0 <= l < c.len() implies i + 1 <= #[trigger] c[l] && c[l] < s.len()
            && code_at(s, c[l]) by {
            if c[l] == i {
                assert(code_at(s, i));
            }
        }
        lemma_codes_unique(s, i + 1, c);
    }
}

/// A start code is the last of a stream where none begins behind it.
pub proof fn lemma_last_of_codes(s: Seq<u8>, k: int)
    requires
        0 <= k < s.len(),
        code_at(s, k),
        forall|p: int| k < p < s.len() ==> !#[trigger] code_at(s, p),
    ensures
        codes_from(s, 0).len() > 0,
        codes_from(s, 0).last() == k,
{
    let all = codes_from(s, 0);
    lemma_codes_complete(s, 0, k);
    lemma_orderly(s, 0);
    let m = choose|m: int| 0 <= m < all.len() && all[m] == k;
    let n = all.len() - 1;
    assert(code_at(s, all[n]));
    if m < n {
        assert(all[m] + 3 <= all[n]);
    }
}

/// A stream without start codes has none from any place on.
pub proof fn lemma_no_codes(s: Seq<u8>)
    requires
        forall|p: int| 0 <= p < s.len() ==> !#[trigger] code_at(s, p),
    ensures
        codes_from(s, 0).len() == 0,
{
    lemma_skip(s, 0, s.len() as int);
}

/// Where a run of NAL units begins.
spec fn cut(s: Seq<u8>, i: int) -> int {
    let cuts = codes_from(s, 0);
    if i < cuts.len() {
        cuts[i]
    } else {
        s.len() as int
    }
}

/// A run of NAL units, cut again, is those NAL units.
proof fn lemma_run_cut_again(s: Seq<u8>, j: int, i: int)
    requires
        0 <= j < i <= nals_of(s).len(),
    ensures
        0 <= cut(s, j) < cut(s, i) <= s.len(),
        nals_of(s.subrange(cut(s, j), cut(s, i))) == nals_of(s).subrange(j, i),
{
    let cuts = codes_from(s, 0);
    let (a, b) = (cut(s, j), cut(s, i));
    lemma_orderly(s, 0);
    assert(cuts[j] == a && code_at(s, a));
    if i < cuts.len() {
        assert(cuts[j] + 3 <= cuts[i]);
        assert(code_at(s, b) && s[b] == 0);
    }
    let t = s.subrange(a, b);
    let c = Seq::new((i - j) as nat, |k: int| cuts[j + k] - a);
    assert forall|k: int| 0 <= k < c.len() implies 0 <= #[trigger] c[k] && c[k] < t.len()
        && code_at(t, c[k]) by {
        let p = cuts[j + k];
        assert(code_at(s, p));
        if k > 0 {
            assert(cuts[j] + 3 <= cuts[j + k]);
        }
        if i < cuts.len() {
            assert(cuts[j + k] + 3 <= cuts[i]);
        }
        if long_code_at(s, p) {
            assert(s[p + 3] == 1);
            assert(p + 4 <= b);
            assert(long_code_at(t, p - a));
        } else {
            assert(short_code_at(t, p - a));
        }
    }
    assert forall|k: int, l: int| 0 <= k < l < c.len() implies #[trigger] c[k]
        < #[trigger] c[l] by {
        assert(cuts[j + k] + 3 <= cuts[j + l]);
    }
    assert forall|q: int| 0 <= q < t.len() && #[trigger] code_at(t, q) implies c.contains(q) by {
        let p = a + q;
        if q > 0 {
            if long_code_at(t, q) {
                assert(long_code_at(s, p));
            } else {
                assert(short_code_at(s, p) && s[p - 1] == t[q - 1]);
            }
        }
        assert(code_at(s, p));
        lemma_codes_complete(s, 0, p);
        let m = choose|m: int| 0 <= m < cuts.len() && cuts[m] == p;
        if m < j {
            assert(cuts[m] + 3 <= cuts[j]);
        }
        if m >= i {
            if m > i {
                assert(cuts[i] + 3 <= cuts[m]);
            }
            assert(b <= p);
        }
        assert(c[m - j] == q);
    }
    lemma_codes_unique(t, 0, c);
    let again = nals_of(t);
    let run = nals_of(s).subrange(j, i);
    assert(again.len() == run.len());
    assert forall|k: int| 0 <= k < run.len() implies #[trigger] again[k] == run[k] by {
        let end = if k + 1 < c.len() {
            c[k + 1]
        } else {
            t.len() as int
        };
        let stop = if j + k + 1 < cuts.len() {
            cuts[j + k + 1]
        } else {
            s.len() as int
        };
        assert(end + a == stop);
        assert(code_at(t, c[k]));
        if j + k + 1 < cuts.len() {
            assert(cuts[j + k] + 3 <= cuts[j + k + 1]);
        }
        assert(t.subrange(c[k], end) =~= s.subrange(cuts[j + k], stop));
    }
    assert(again =~= run);
}

// ---- What access units are -------------------------------------------------

/// Whether a NAL unit is a coded slice.
pub open spec fn slice(nal: Seq<u8>) -> bool {
    slice_type(type_from(nal, 0))
}

/// Whether an access unit has NAL units, of which the last is a slice and no other.
pub open spec fn ends_in_slice(au: Seq<u8>) -> bool {
    let nals = nals_of(au);
    &&& nals.len() > 0
    &&& forall|i: int| 0 <= i < nals.len() ==> (slice(#[trigger] nals[i]) <==> i == nals.len() - 1)
}

/// Whether an access unit has NAL units, and no slice among them.
pub open spec fn without_slice(au: Seq<u8>) -> bool {
    let nals = nals_of(au);
    &&& nals.len() > 0
    &&& forall|i: int| 0 <= i < nals.len() ==> !slice(#[trigger] nals[i])
}

/// The NAL units of access units, one after the other.
pub open spec fn nals_of_all(units: Seq<Seq<u8>>) -> Seq<Seq<u8>>
    decreases units.len(),
{
    if units.len() == 0 {
        Seq::empty()
    } else {
        nals_of(units[0]) + nals_of_all(units.drop_first())
    }
}

/// Whether units are access units: each ends in its only slice, but the last may have
/// none.
pub open spec fn well_grouped(units: Seq<Seq<u8>>) -> bool {
    forall|k: int|
        0 <= k < units.len() ==> ends_in_slice(#[trigger] units[k]) || (k == units.len() - 1
            && without_slice(units[k]))
}

proof fn lemma_grouped_runs(s: Seq<u8>, j: int, i: int)
    requires
        0 <= j <= i <= nals_of(s).len(),
        forall|k: int| j <= k < i ==> !slice(#[trigger] nals_of(s)[k]),
    ensures
        ({
            let all = nals_of(s);
            let current = s.subrange(cut(s, j), cut(s, i));
            let units = grouped(all.skip(i), current);
            well_grouped(units) && nals_of_all(units) == all.skip(j)
        }),
    decreases nals_of(s).len() - i,
{
    let all = nals_of(s);
    let n = all.len() as int;
    let current = s.subrange(cut(s, j), cut(s, i));
    let units = grouped(all.skip(i), current);
    lemma_orderly(s, 0);
    if j < i {
        lemma_run_cut_again(s, j, i);
    } else {
        if j < n {
            assert(code_at(s, cut(s, j)));
        }
        assert(current =~= Seq::<u8>::empty());
    }
    if i == n {
        if j < i {
            assert(units =~= seq![current]);
            assert(units.drop_first() =~= Seq::<Seq<u8>>::empty());
            assert(nals_of_all(Seq::<Seq<u8>>::empty()) =~= Seq::<Seq<u8>>::empty());
            assert(all.subrange(j, i) =~= all.skip(j));
            assert(nals_of_all(units) =~= all.skip(j));
            let run = nals_of(current);
            assert forall|k: int| 0 <= k < run.len() implies !slice(#[trigger] run[k]) by {
                assert(run[k] == all[j + k]);
            }
            assert(without_slice(units[0]));
        } else {
            assert(nals_of_all(units) =~= all.skip(j));
        }
    } else {
        let first = all[i];
        lemma_run_cut_again(s, j, i + 1);
        lemma_run_cut_again(s, i, i + 1);
        assert(first == s.subrange(cut(s, i), cut(s, i + 1)));
        let grown = s.subrange(cut(s, j), cut(s, i + 1));
        assert(current + first =~= grown);
        assert(all.skip(i)[0] == first);
        assert(all.skip(i).drop_first() =~= all.skip(i + 1));
        if slice(first) {
            lemma_grouped_runs(s, i + 1, i + 1);
            let more = grouped(all.skip(i + 1), Seq::empty());
            assert(s.subrange(cut(s, i + 1), cut(s, i + 1)) =~= Seq::<u8>::empty());
            assert(units == seq![grown] + more);
            assert(units.drop_first() =~= more);
            let run = nals_of(grown);
            assert(run.len() == i + 1 - j);
            assert forall|k: int| 0 <= k < run.len() implies (slice(#[trigger] run[k]) <==> k
                == run.len() - 1) by {
                assert(run[k] == all[j + k]);
            }
            assert(ends_in_slice(grown));
            assert forall|k: int| 0 <= k < units.len() implies ends_in_slice(#[trigger] units[k])
                || (k == units.len() - 1 && without_slice(units[k])) by {
                if k > 0 {
                    assert(units[k] == more[k - 1]);
                }
            }
            assert(nals_of_all(units) =~= all.skip(j));
        } else {
            assert forall|k: int| j <= k < i + 1 implies !slice(#[trigger] all[k]) by {}
            lemma_grouped_runs(s, j, i + 1);
        }
    }
}

/// The access units of a stream are its NAL units, in order, cut into runs: each run but
/// the last ends in its only slice, and the last either does so too or has none.
pub proof fn lemma_units_end_in_slices(s: Seq<u8>)
    ensures
        well_grouped(units_of(s)),
        nals_of_all(units_of(s)) == nals_of(s),
{
    lemma_orderly(s, 0);
    let all = nals_of(s);
    if all.len() > 0 {
        assert(code_at(s, cut(s, 0)));
    }
    assert(s.subrange(cut(s, 0), cut(s, 0)) =~= Seq::<u8>::empty());
    assert(all.skip(0) =~= all);
    lemma_grouped_runs(s, 0, 0);
}

/// The type of a unit is the low five bits of the byte behind its start code, whether
/// that is short or long; one and five are slices.
pub proof fn lemma_types(header: u8, rest: Seq<u8>)
    ensures
        type_from(seq![0u8, 0, 1, header] + rest, 0) == header % 32,
        type_from(seq![0u8, 0, 0, 1, header] + rest, 0) == header % 32,
        slice_type((header % 32) as u8) <==> header % 32 == 1 || header % 32 == 5,
{
    let a = seq![0u8, 0, 1, header] + rest;
    let b = seq![0u8, 0, 0, 1, header] + rest;
    assert(a[0] == 0 && a[1] == 0 && a[2] == 1 && a[3] == header);
    assert(b[0] == 0 && b[1] == 0 && b[2] == 0 && b[3] == 1 && b[4] == header);
}

/// The start codes of a stream are where three bytes 0, 0, 1 stand, with the zero in
/// front of them where there is one.
pub proof fn lemma_start_codes(s: Seq<u8>, i: int)
    ensures
        code_at(s, i) <==> {
            ||| 0 <= i && i + 4 <= s.len() && s.subrange(i, i + 4) == seq![0u8, 0, 0, 1]
            ||| 0 <= i && i + 3 <= s.len() && s.subrange(i, i + 3) == seq![0u8, 0, 1] && (i == 0
                || s[i - 1] != 0)
        },
{
    if 0 <= i && i + 4 <= s.len() {
        let four = s.subrange(i, i + 4);
        assert(four[0] == s[i] && four[1] == s[i + 1] && four[2] == s[i + 2] && four[3] == s[i
            + 3]);
        if long_code_at(s, i) {
            assert(four =~= seq![0u8, 0, 0, 1]);
        }
    }
    if 0 <= i && i + 3 <= s.len() {
        let three = s.subrange(i, i + 3);
        assert(three[0] == s[i] && three[1] == s[i + 1] && three[2] == s[i + 2]);
        if short_code_at(s, i) {
            assert(three =~= seq![0u8, 0, 1]);
        }
    }
}

} // verus!
