//! What patching does to a well-formed DEX file.
//!
//! In a well-formed file the tables, the class data and the code lie apart from each
//! other, so that clamping one method does not disturb another. Then no method, direct
//! or virtual, of any class reads the field any more.
use crate::octets;
use crate::resigner::dex;
use crate::resigner::dex::DexHeader;
use vstd::prelude::*;

verus! {

// ---- Methods and their code -------------------------------------------------

/// The value of the `k`-th of the `uleb128` numbers that stand from `off` on.
pub open spec fn number_at(s: Seq<u8>, off: int, k: int) -> int {
    match dex::skip_ulebs(s, off, k) {
        Some(p) => match dex::uleb128_field(s, p) {
            Ok((_, v)) => v as int,
            Err(_) => 0,
        },
        None => 0,
    }
}

/// How many numbers class data has in front of its methods: four counts, and two
/// numbers for each static field and each instance field.
pub open spec fn numbers_before_methods(s: Seq<u8>, off: int) -> int {
    4 + 2 * (number_at(s, off, 0) + number_at(s, off, 1))
}

/// How many methods class data lists: the direct ones, and then the virtual ones.
pub open spec fn method_count(s: Seq<u8>, off: int) -> int {
    number_at(s, off, 2) + number_at(s, off, 3)
}

/// How many numbers class data has: three for each method behind the others.
pub open spec fn number_count(s: Seq<u8>, off: int) -> int {
    numbers_before_methods(s, off) + 3 * method_count(s, off)
}

/// Where the class data at `off` ends.
pub open spec fn data_end(s: Seq<u8>, off: int) -> int {
    dex::skip_ulebs(s, off, number_count(s, off))->Some_0
}

/// Where the data of class number `i` stands; 0 where it has none.
pub open spec fn data_off(s: Seq<u8>, h: DexHeader, i: int) -> int {
    octets::le32_at(s, h.class_defs_off + 32 * i + 24) as int
}

/// The offset of the code item of method number `k` of class number `i`, which is the
/// last of the method's three numbers; 0 where it has no code.
pub open spec fn code_off(s: Seq<u8>, h: DexHeader, i: int, k: int) -> int {
    let off = data_off(s, h, i);
    number_at(s, off, numbers_before_methods(s, off) + 3 * k + 2)
}

/// Whether class number `i` has a method number `k`, with code.
pub open spec fn has_code(s: Seq<u8>, h: DexHeader, i: int, k: int) -> bool {
    &&& 0 <= i < h.class_defs_size
    &&& data_off(s, h, i) != 0
    &&& 0 <= k < method_count(s, data_off(s, h, i))
    &&& code_off(s, h, i, k) != 0
}

/// Where the instructions of a method begin.
pub open spec fn code_start(s: Seq<u8>, h: DexHeader, i: int, k: int) -> int {
    code_off(s, h, i, k) + 16
}

/// Where the instructions of a method end: their number of 16-bit units stands in
/// front of them.
pub open spec fn code_end(s: Seq<u8>, h: DexHeader, i: int, k: int) -> int {
    code_start(s, h, i, k) + 2 * octets::le32_at(s, code_off(s, h, i, k) + 12)
}

/// The instructions of a method.
pub open spec fn code(s: Seq<u8>, h: DexHeader, i: int, k: int) -> Seq<u8> {
    s.subrange(code_start(s, h, i, k), code_end(s, h, i, k))
}

/// Whether the code of a method lies apart from the bytes from `lo` to `hi`.
pub open spec fn clear_of(s: Seq<u8>, h: DexHeader, i: int, k: int, lo: int, hi: int) -> bool {
    code_end(s, h, i, k) <= lo || hi <= code_start(s, h, i, k)
}

/// Whether class number `i` has data that can be read to its end.
pub open spec fn class_readable(s: Seq<u8>, h: DexHeader, i: int) -> bool {
    let off = data_off(s, h, i);
    &&& dex::HEADER_LEN <= off
    &&& forall|j: int| 0 <= j < 4 ==> #[trigger] dex::skip_ulebs(s, off, j) is Some
    &&& dex::skip_ulebs(s, off, number_count(s, off)) is Some
}

/// Whether the tables, the class data and the code of a file lie behind the header and
/// apart from each other. Two methods may share their code.
pub open spec fn well_formed(s: Seq<u8>, h: DexHeader) -> bool {
    &&& dex::HEADER_LEN <= h.class_defs_off
    &&& h.class_defs_off + 32 * h.class_defs_size <= s.len()
    &&& forall|i: int|
        0 <= i < h.class_defs_size && #[trigger] data_off(s, h, i) != 0 ==> class_readable(s, h, i)
    &&& forall|i: int, k: int| #[trigger]
        has_code(s, h, i, k) ==> {
            &&& dex::HEADER_LEN <= code_off(s, h, i, k)
            &&& code_end(s, h, i, k) <= s.len()
            &&& clear_of(
                s,
                h,
                i,
                k,
                h.class_defs_off as int,
                h.class_defs_off + 32 * h.class_defs_size,
            )
        }
    &&& forall|i: int, k: int, c: int|
        #![trigger has_code(s, h, i, k), data_off(s, h, c)]
        has_code(s, h, i, k) && 0 <= c < h.class_defs_size && data_off(s, h, c) != 0 ==> clear_of(
            s,
            h,
            i,
            k,
            data_off(s, h, c),
            data_end(s, data_off(s, h, c)),
        )
    &&& forall|i: int, k: int, c: int, m: int|
        #![trigger has_code(s, h, i, k), has_code(s, h, c, m)]
        has_code(s, h, i, k) && has_code(s, h, c, m) ==> {
            &&& clear_of(s, h, i, k, code_start(s, h, c, m) - 4, code_start(s, h, c, m))
            &&& {
                ||| code_start(s, h, i, k) == code_start(s, h, c, m) && code_end(s, h, i, k)
                    == code_end(s, h, c, m)
                ||| clear_of(s, h, i, k, code_start(s, h, c, m), code_end(s, h, c, m))
            }
        }
}

/// Whether an instruction that begins at `i` is followed, after some more, by one that
/// begins at `j`.
pub open spec fn leads_to(insns: Seq<u8>, i: int, j: int) -> bool
    decreases
            if i < insns.len() {
                insns.len() - i
            } else {
                0
            },
{
    ||| i == j
    ||| dex::instruction_len(insns, i) matches Some(n) && leads_to(insns, i + n, j)
}

/// Whether the instruction at `j` is one of the seven that read a static field, and
/// reads this one.
pub open spec fn reads(insns: Seq<u8>, j: int, field: u32) -> bool {
    &&& 0 <= j
    &&& j + 4 <= insns.len()
    &&& 0x60 <= insns[j] <= 0x66
    &&& insns[j + 2] + 256 * insns[j + 3] == field
}

// ---- What the walk keeps ----------------------------------------------------

/// Instructions with every read of the field clamped.
spec fn clamped(insns: Seq<u8>, field: u32) -> Seq<u8> {
    dex::clamp_all(insns, dex::read_sites(insns, field, 0))
}

spec fn in_code(s: Seq<u8>, h: DexHeader, j: int) -> bool {
    exists|i: int, k: int| #[trigger]
        has_code(s, h, i, k) && code_start(s, h, i, k) <= j < code_end(s, h, i, k)
}

/// Whether `cur` is `s` on the way: only code differs, and code is untouched or clamped.
spec fn underway(s: Seq<u8>, cur: Seq<u8>, h: DexHeader, field: u32) -> bool {
    &&& cur.len() == s.len()
    &&& forall|j: int| 0 <= j < s.len() && !in_code(s, h, j) ==> #[trigger] cur[j] == s[j]
    &&& forall|i: int, k: int| #[trigger]
        has_code(s, h, i, k) ==> {
            let now = cur.subrange(code_start(s, h, i, k), code_end(s, h, i, k));
            now == code(s, h, i, k) || now == clamped(code(s, h, i, k), field)
        }
}

spec fn done(s: Seq<u8>, cur: Seq<u8>, h: DexHeader, i: int, k: int, field: u32) -> bool {
    cur.subrange(code_start(s, h, i, k), code_end(s, h, i, k)) == clamped(code(s, h, i, k), field)
}

/// Whether what was done stays done from `cur` to `next`.
spec fn kept(s: Seq<u8>, cur: Seq<u8>, next: Seq<u8>, h: DexHeader, field: u32) -> bool {
    forall|i: int, k: int| #[trigger]
        has_code(s, h, i, k) && done(s, cur, h, i, k, field) ==> done(s, next, h, i, k, field)
}

/// Whether no method reads the field.
spec fn nothing_to_do(s: Seq<u8>, h: DexHeader, field: u32) -> bool {
    forall|i: int, k: int| #[trigger]
        has_code(s, h, i, k) ==> dex::read_sites(code(s, h, i, k), field, 0).len() == 0
}

proof fn lemma_digits_same(a: Seq<u8>, b: Seq<u8>, start: int, p: int, k: int)
    requires
        0 <= p,
        a.len() == b.len(),
        dex::uleb128_digits(a, start, p, k) is Ok,
        forall|j: int|
            p <= j < dex::uleb128_digits(a, start, p, k)->Ok_0.0 ==> a[j] == #[trigger] b[j],
    ensures
        dex::uleb128_digits(b, start, p, k) == dex::uleb128_digits(a, start, p, k),
        p < dex::uleb128_digits(a, start, p, k)->Ok_0.0 <= a.len(),
    decreases 5 - k,
{
    if a[p] >= 128 {
        lemma_digits_bounds(a, start, p + 1, k + 1);
        lemma_digits_same(a, b, start, p + 1, k + 1);
    }
    assert(a[p] == b[p]);
}

proof fn lemma_digits_bounds(a: Seq<u8>, start: int, p: int, k: int)
    requires
        0 <= p,
        dex::uleb128_digits(a, start, p, k) is Ok,
    ensures
        p < dex::uleb128_digits(a, start, p, k)->Ok_0.0 <= a.len(),
    decreases 5 - k,
{
    if a[p] >= 128 {
        lemma_digits_bounds(a, start, p + 1, k + 1);
    }
}

proof fn lemma_skip_same(a: Seq<u8>, b: Seq<u8>, p: int, n: int)
    requires
        0 <= p,
        a.len() == b.len(),
        dex::skip_ulebs(a, p, n) is Some,
        forall|j: int| p <= j < dex::skip_ulebs(a, p, n)->Some_0 ==> a[j] == #[trigger] b[j],
    ensures
        dex::skip_ulebs(b, p, n) == dex::skip_ulebs(a, p, n),
    decreases n,
{
    if n > 0 {
        let next = dex::uleb128_field(a, p)->Ok_0.0;
        lemma_digits_bounds(a, p, p, 0);
        lemma_skip_bounds(a, next, n - 1);
        lemma_digits_same(a, b, p, p, 0);
        lemma_skip_same(a, b, next, n - 1);
    }
}

proof fn lemma_skip_bounds(a: Seq<u8>, p: int, n: int)
    requires
        0 <= p,
        dex::skip_ulebs(a, p, n) is Some,
    ensures
        p <= dex::skip_ulebs(a, p, n)->Some_0,
        n > 0 ==> dex::skip_ulebs(a, p, n)->Some_0 <= a.len(),
    decreases n,
{
    if n > 0 {
        let next = dex::uleb128_field(a, p)->Ok_0.0;
        lemma_digits_bounds(a, p, p, 0);
        lemma_skip_bounds(a, next, n - 1);
    }
}

proof fn lemma_skip_split(s: Seq<u8>, p: int, m: int, n: int)
    requires
        0 <= m,
        0 <= n,
    ensures
        dex::skip_ulebs(s, p, m + n) == match dex::skip_ulebs(s, p, m) {
            Some(q) => dex::skip_ulebs(s, q, n),
            None => None,
        },
    decreases m,
{
    if m > 0 {
        if let Ok((next, _)) = dex::uleb128_field(s, p) {
            lemma_skip_split(s, next, m - 1, n);
        }
    }
}

/// The numbers from place `from` to place `to` read the same where their bytes are.
proof fn lemma_numbers_same(
    s: Seq<u8>,
    cur: Seq<u8>,
    h: DexHeader,
    field: u32,
    c: int,
    from: int,
    to: int,
)
    requires
        well_formed(s, h),
        underway(s, cur, h, field),
        0 <= c < h.class_defs_size,
        data_off(s, h, c) != 0,
        0 <= from <= to <= number_count(s, data_off(s, h, c)),
    ensures
        ({
            let off = data_off(s, h, c);
            &&& dex::skip_ulebs(s, off, from) matches Some(p) && dex::skip_ulebs(s, off, to)
                == Some(dex::skip_ulebs(s, p, to - from)->Some_0) && dex::skip_ulebs(
                s,
                p,
                to - from,
            ) is Some && dex::skip_ulebs(cur, p, to - from) == dex::skip_ulebs(s, p, to - from)
            &&& from < to ==> dex::uleb128_field(
                cur,
                dex::skip_ulebs(s, off, from)->Some_0,
            ) == dex::uleb128_field(s, dex::skip_ulebs(s, off, from)->Some_0)
            &&& from < to ==> dex::uleb128_field(
                s,
                dex::skip_ulebs(s, off, from)->Some_0,
            ) is Ok
        }),
{
    let off = data_off(s, h, c);
    let all = number_count(s, off);
    assert(class_readable(s, h, c));
    lemma_skip_split(s, off, from, all - from);
    lemma_skip_split(s, off, from, to - from);
    lemma_skip_split(s, off, to, all - to);
    let p = dex::skip_ulebs(s, off, from)->Some_0;
    let q = dex::skip_ulebs(s, off, to)->Some_0;
    let end = dex::skip_ulebs(s, off, all)->Some_0;
    lemma_skip_bounds(s, off, from);
    lemma_skip_bounds(s, p, to - from);
    lemma_skip_bounds(s, q, all - to);
    lemma_skip_bounds(s, off, all);
    assert forall|j: int| p <= j < q implies s[j] == #[trigger] cur[j] by {
        assert(!in_code(s, h, j)) by {
            if in_code(s, h, j) {
                let (i, k) = choose|i: int, k: int| #[trigger]
                    has_code(s, h, i, k) && code_start(s, h, i, k) <= j < code_end(s, h, i, k);
                assert(clear_of(s, h, i, k, off, data_end(s, off)));
            }
        }
    }
    lemma_skip_same(s, cur, p, to - from);
    if from < to {
        let next = dex::uleb128_field(s, p)->Ok_0.0;
        lemma_digits_bounds(s, p, p, 0);
        lemma_skip_bounds(s, next, to - from - 1);
        lemma_digits_same(s, cur, p, p, 0);
    }
}

/// Clamping a method carries the file on.
proof fn lemma_clamp_method(
    s: Seq<u8>,
    cur: Seq<u8>,
    h: DexHeader,
    field: u32,
    i: int,
    k: int,
)
    requires
        well_formed(s, h),
        underway(s, cur, h, field),
        has_code(s, h, i, k),
    ensures
        ({
            let (start, end) = (code_start(s, h, i, k), code_end(s, h, i, k));
            let next = dex::clamp_code(cur, start, end, field);
            &&& underway(s, next, h, field)
            &&& done(s, next, h, i, k, field)
            &&& kept(s, cur, next, h, field)
            &&& nothing_to_do(s, h, field) ==> dex::read_sites(
                cur.subrange(start, end),
                field,
                0,
            ).len() == 0
        }),
{
    let (start, end) = (code_start(s, h, i, k), code_end(s, h, i, k));
    let next = dex::clamp_code(cur, start, end, field);
    let now = cur.subrange(start, end);
    dex::lemma_rewrite_once(now, field);
    dex::lemma_rewrite_once(code(s, h, i, k), field);
    assert(next.len() == cur.len());
    assert(forall|j: int| 0 <= j < start || end <= j < cur.len() ==> next[j] == cur[j]);
    assert(next.subrange(start, end) =~= clamped(now, field));
    assert(done(s, next, h, i, k, field));
    assert forall|j: int| 0 <= j < s.len() && !in_code(s, h, j) implies #[trigger] next[j]
        == s[j] by {
        assert(!(start <= j < end));
        assert(cur[j] == s[j]);
    }
    assert forall|c: int, m: int| #[trigger] has_code(s, h, c, m) implies {
        let then = next.subrange(code_start(s, h, c, m), code_end(s, h, c, m));
        &&& then == code(s, h, c, m) || then == clamped(code(s, h, c, m), field)
        &&& done(s, cur, h, c, m, field) ==> done(s, next, h, c, m, field)
    } by {
        let (from, to) = (code_start(s, h, c, m), code_end(s, h, c, m));
        if from == start && to == end {
            assert(code(s, h, c, m) == code(s, h, i, k));
        } else {
            assert(clear_of(s, h, i, k, from, to));
            assert(next.subrange(from, to) =~= cur.subrange(from, to));
        }
    }
}

/// The place behind a number is where the next one stands.
proof fn lemma_next_number(s: Seq<u8>, off: int, k: int)
    requires
        0 <= k,
        dex::skip_ulebs(s, off, k) is Some,
        dex::uleb128_field(s, dex::skip_ulebs(s, off, k)->Some_0) is Ok,
    ensures
        dex::skip_ulebs(s, off, k + 1) == Some(
            dex::uleb128_field(s, dex::skip_ulebs(s, off, k)->Some_0)->Ok_0.0,
        ),
        number_at(s, off, k) == dex::uleb128_field(
            s,
            dex::skip_ulebs(s, off, k)->Some_0,
        )->Ok_0.1,
{
    lemma_skip_split(s, off, k, 1);
    reveal_with_fuel(dex::skip_ulebs, 2);
}

/// The entry of a method reads the same on the way, and so does the length of its code.
#[verifier::spinoff_prover]
proof fn lemma_entry(s: Seq<u8>, cur: Seq<u8>, h: DexHeader, field: u32, i: int, k: int)
    requires
        well_formed(s, h),
        underway(s, cur, h, field),
        0 <= i < h.class_defs_size,
        data_off(s, h, i) != 0,
        0 <= k < method_count(s, data_off(s, h, i)),
    ensures
        ({
            let off = data_off(s, h, i);
            let first = numbers_before_methods(s, off) + 3 * k;
            let p = dex::skip_ulebs(s, off, first)->Some_0;
            let next = dex::skip_ulebs(s, off, first + 3)->Some_0;
            let c = code_off(s, h, i, k);
            &&& dex::skip_ulebs(cur, p, 2) matches Some(q) && dex::uleb128_field(cur, q) == Ok::<
                (int, u32),
                dex::DexError,
            >((next, c as u32))
            &&& 0 <= c <= u32::MAX
            &&& c != 0 ==> has_code(s, h, i, k) && dex::u32_field(cur, c + 12) == Ok::<
                u32,
                dex::DexError,
            >(octets::le32_at(s, c + 12))
        }),
{
    let off = data_off(s, h, i);
    let first = numbers_before_methods(s, off) + 3 * k;
    assert(class_readable(s, h, i));
    lemma_numbers_same(s, cur, h, field, i, first, first + 2);
    lemma_numbers_same(s, cur, h, field, i, first + 2, first + 3);
    lemma_next_number(s, off, first + 2);
    let c = code_off(s, h, i, k);
    if c != 0 {
        assert(has_code(s, h, i, k));
        let start = code_start(s, h, i, k);
        assert forall|j: int| c + 12 <= j < c + 16 implies s[j] == #[trigger] cur[j] by {
            assert(!in_code(s, h, j)) by {
                if in_code(s, h, j) {
                    let (a, b) = choose|a: int, b: int| #[trigger]
                        has_code(s, h, a, b) && code_start(s, h, a, b) <= j < code_end(s, h, a, b);
                    assert(clear_of(s, h, a, b, start - 4, start));
                }
            }
        }
    }
}

#[verifier::spinoff_prover]
#[verifier::rlimit(40)]
proof fn lemma_methods(
    s: Seq<u8>,
    cur: Seq<u8>,
    h: DexHeader,
    field: u32,
    i: int,
    k: int,
)
    requires
        well_formed(s, h),
        underway(s, cur, h, field),
        0 <= i < h.class_defs_size,
        data_off(s, h, i) != 0,
        0 <= k <= method_count(s, data_off(s, h, i)),
    ensures
        ({
            let off = data_off(s, h, i);
            let count = method_count(s, off);
            let p = dex::skip_ulebs(s, off, numbers_before_methods(s, off) + 3 * k)->Some_0;
            let out = dex::walk_methods(cur, p, count - k, field);
            &&& underway(s, out.0, h, field)
            &&& kept(s, cur, out.0, h, field)
            &&& nothing_to_do(s, h, field) ==> out.1 == 0
            &&& out.2 is Some
            &&& forall|m: int|
                k <= m && #[trigger] has_code(s, h, i, m) ==> done(s, out.0, h, i, m, field)
        }),
    decreases method_count(s, data_off(s, h, i)) - k,
{
    let off = data_off(s, h, i);
    let count = method_count(s, off);
    if k < count {
        lemma_entry(s, cur, h, field, i, k);
        if code_off(s, h, i, k) == 0 {
            lemma_methods(s, cur, h, field, i, k + 1);
        } else {
            let (start, end) = (code_start(s, h, i, k), code_end(s, h, i, k));
            lemma_clamp_method(s, cur, h, field, i, k);
            lemma_methods(s, dex::clamp_code(cur, start, end, field), h, field, i, k + 1);
        }
    }
}

/// The walk over class data goes over all of its methods.
#[verifier::spinoff_prover]
#[verifier::rlimit(40)]
proof fn lemma_class(s: Seq<u8>, cur: Seq<u8>, h: DexHeader, field: u32, i: int)
    requires
        well_formed(s, h),
        underway(s, cur, h, field),
        0 <= i < h.class_defs_size,
        data_off(s, h, i) != 0,
    ensures
        ({
            let off = data_off(s, h, i);
            dex::walk_class(cur, off, field) == dex::walk_methods(
                cur,
                dex::skip_ulebs(s, off, numbers_before_methods(s, off))->Some_0,
                method_count(s, off),
                field,
            )
        }),
{
    let off = data_off(s, h, i);
    assert(class_readable(s, h, i));
    lemma_numbers_same(s, cur, h, field, i, 0, 1);
    lemma_next_number(s, off, 0);
    lemma_numbers_same(s, cur, h, field, i, 1, 2);
    lemma_next_number(s, off, 1);
    lemma_numbers_same(s, cur, h, field, i, 2, 3);
    lemma_next_number(s, off, 2);
    lemma_numbers_same(s, cur, h, field, i, 3, 4);
    lemma_next_number(s, off, 3);
    lemma_numbers_same(s, cur, h, field, i, 4, numbers_before_methods(s, off));
    assert(dex::skip_ulebs(s, off, 0) == Some(off));
}

proof fn lemma_definition(s: Seq<u8>, cur: Seq<u8>, h: DexHeader, field: u32, i: int)
    requires
        well_formed(s, h),
        underway(s, cur, h, field),
        0 <= i < h.class_defs_size,
    ensures
        ({
            let out = dex::walk_definition(cur, h, i, field);
            &&& underway(s, out.0, h, field)
            &&& kept(s, cur, out.0, h, field)
            &&& nothing_to_do(s, h, field) ==> out.1 == 0
            &&& out.2 != Some(false)
            &&& forall|m: int| #[trigger]
                has_code(s, h, i, m) ==> done(s, out.0, h, i, m, field)
        }),
{
    let at = h.class_defs_off + 32 * i + 24;
    let off = data_off(s, h, i);
    assert forall|j: int| at <= j < at + 4 implies s[j] == #[trigger] cur[j] by {
        assert(!in_code(s, h, j)) by {
            if in_code(s, h, j) {
                let (a, b) = choose|a: int, b: int| #[trigger]
                    has_code(s, h, a, b) && code_start(s, h, a, b) <= j < code_end(s, h, a, b);
            }
        }
    }
    assert(dex::u32_field(cur, at) == Ok::<u32, dex::DexError>(off as u32));
    if off != 0 {
        lemma_class(s, cur, h, field, i);
        lemma_methods(s, cur, h, field, i, 0);
    }
}

proof fn lemma_classes(s: Seq<u8>, cur: Seq<u8>, h: DexHeader, field: u32, i: int)
    requires
        well_formed(s, h),
        underway(s, cur, h, field),
        0 <= i <= h.class_defs_size,
    ensures
        ({
            let out = dex::walk_classes(cur, h, i, field);
            &&& underway(s, out.0, h, field)
            &&& kept(s, cur, out.0, h, field)
            &&& nothing_to_do(s, h, field) ==> out.1 == 0
            &&& out.3 == 0
            &&& forall|c: int, m: int|
                i <= c && #[trigger] has_code(s, h, c, m) ==> done(s, out.0, h, c, m, field)
        }),
    decreases h.class_defs_size - i,
{
    if i < h.class_defs_size {
        let step = dex::walk_definition(cur, h, i, field);
        lemma_definition(s, cur, h, field, i);
        lemma_classes(s, step.0, h, field, i + 1);
    }
}

// ---- Instructions that read -------------------------------------------------

proof fn lemma_reached_reads(insns: Seq<u8>, field: u32, i: int, j: int)
    requires
        0 <= i,
        leads_to(insns, i, j),
        reads(insns, j, field),
    ensures
        dex::read_sites(insns, field, i).contains(j),
    decreases
            if i < insns.len() {
                insns.len() - i
            } else {
                0
            },
{
    let sites = dex::read_sites(insns, field, i);
    if i == j {
        assert(dex::reads_field(insns, i, field));
        assert(sites[0] == j);
    } else {
        let n = dex::instruction_len(insns, i)->Some_0;
        let rest = dex::read_sites(insns, field, i + n);
        lemma_reached_reads(insns, field, i + n, j);
        let x = choose|x: int| 0 <= x < rest.len() && rest[x] == j;
        if dex::reads_field(insns, i, field) {
            assert(sites[x + 1] == j);
        } else {
            assert(sites[x] == j);
        }
    }
}

proof fn lemma_sites_are_reached(insns: Seq<u8>, field: u32, i: int)
    requires
        0 <= i,
    ensures
        forall|x: int|
            0 <= x < dex::read_sites(insns, field, i).len() ==> leads_to(
                insns,
                i,
                #[trigger] dex::read_sites(insns, field, i)[x],
            ) && reads(insns, dex::read_sites(insns, field, i)[x], field),
    decreases
            if i < insns.len() {
                insns.len() - i
            } else {
                0
            },
{
    if let Some(n) = dex::instruction_len(insns, i) {
        let sites = dex::read_sites(insns, field, i);
        let rest = dex::read_sites(insns, field, i + n);
        lemma_sites_are_reached(insns, field, i + n);
        assert forall|x: int| 0 <= x < sites.len() implies leads_to(insns, i, #[trigger] sites[x])
            && reads(insns, sites[x], field) by {
            if dex::reads_field(insns, i, field) {
                if x > 0 {
                    assert(sites[x] == rest[x - 1]);
                }
            } else {
                assert(sites[x] == rest[x]);
            }
        }
    }
}

/// A pass over instructions makes each one that reads the field, of any of the seven
/// kinds, `const/16` with the same register and the value 35; no instruction reads the
/// field then; and a byte that is not of an instruction that read it stays.
pub proof fn lemma_no_instruction_reads(insns: Seq<u8>, field: u32)
    ensures
        ({
            let out = dex::clamp_all(insns, dex::read_sites(insns, field, 0));
            &&& out.len() == insns.len()
            &&& forall|j: int| #[trigger] leads_to(out, 0, j) ==> !reads(out, j, field)
            &&& forall|j: int| #[trigger]
                leads_to(insns, 0, j) && reads(insns, j, field) ==> out.subrange(j, j + 4) == seq![
                    0x13u8,
                    insns[j + 1],
                    35,
                    0,
                ]
            &&& forall|b: int|
                0 <= b < insns.len() && #[trigger] out[b] != insns[b] ==> exists|j: int| #[trigger]
                    leads_to(insns, 0, j) && reads(insns, j, field) && j <= b < j + 4
        }),
{
    let sites = dex::read_sites(insns, field, 0);
    let out = dex::clamp_all(insns, sites);
    dex::lemma_rewrite_once(insns, field);
    dex::lemma_rewritten_bytes(insns, field);
    lemma_sites_are_reached(insns, field, 0);
    assert forall|j: int| #[trigger] leads_to(out, 0, j) implies !reads(out, j, field) by {
        if reads(out, j, field) {
            lemma_reached_reads(out, field, 0, j);
        }
    }
    assert forall|j: int| #[trigger] leads_to(insns, 0, j) && reads(insns, j, field) implies
        out.subrange(j, j + 4) == seq![0x13u8, insns[j + 1], 35, 0] by {
        lemma_reached_reads(insns, field, 0, j);
        let x = choose|x: int| 0 <= x < sites.len() && sites[x] == j;
        assert(out.subrange(sites[x], sites[x] + 4) == seq![0x13u8, insns[sites[x] + 1], 0x23, 0]);
    }
    assert forall|b: int| 0 <= b < insns.len() && #[trigger] out[b] != insns[b] implies exists|
        j: int,
    | #[trigger]
        leads_to(insns, 0, j) && reads(insns, j, field) && j <= b < j + 4 by {
        assert(insns[b] != out[b]);
        let x = choose|x: int|
            0 <= x < sites.len() && (b == #[trigger] sites[x] || b == sites[x] + 2 || b == sites[x]
                + 3);
        assert(leads_to(insns, 0, sites[x]));
    }
}

/// Whether method number `k` of class number `i` of `s` reads the field in `out`.
pub open spec fn method_reads(
    s: Seq<u8>,
    out: Seq<u8>,
    h: DexHeader,
    i: int,
    k: int,
    field: u32,
) -> bool {
    let insns = out.subrange(code_start(s, h, i, k), code_end(s, h, i, k));
    exists|j: int| #[trigger] leads_to(insns, 0, j) && reads(insns, j, field)
}

/// Whether `out` is `s` with every method clamped: no method of any class, direct or
/// virtual, reads the field; code is what it was with every read clamped; and outside
/// code nothing differs but, perhaps, the header's digest and checksum.
pub open spec fn all_clamped(s: Seq<u8>, out: Seq<u8>, h: DexHeader, field: u32) -> bool {
    &&& out.len() == s.len()
    &&& forall|i: int, k: int| #[trigger]
        has_code(s, h, i, k) ==> !method_reads(s, out, h, i, k, field)
    &&& forall|i: int, k: int, j: int|
        #![trigger has_code(s, h, i, k), leads_to(code(s, h, i, k), 0, j)]
        has_code(s, h, i, k) && leads_to(code(s, h, i, k), 0, j) && reads(
            code(s, h, i, k),
            j,
            field,
        ) ==> {
            let at = code_start(s, h, i, k) + j;
            out[at] == 0x13 && out[at + 1] == s[at + 1] && out[at + 2] == 35 && out[at + 3] == 0
        }
    &&& forall|b: int|
        0 <= b < s.len() && !(8 <= b < 32) && #[trigger] out[b] != s[b] ==> exists|
            i: int,
            k: int,
            j: int,
        |
            #![trigger has_code(s, h, i, k), leads_to(code(s, h, i, k), 0, j)]
            has_code(s, h, i, k) && leads_to(code(s, h, i, k), 0, j) && reads(
                code(s, h, i, k),
                j,
                field,
            ) && code_start(s, h, i, k) + j <= b < code_start(s, h, i, k) + j + 4
}

/// Whether some method of some class reads the field.
pub open spec fn some_method_reads(s: Seq<u8>, h: DexHeader, field: u32) -> bool {
    exists|i: int, k: int| #[trigger]
        has_code(s, h, i, k) && method_reads(s, s, h, i, k, field)
}

#[verifier::spinoff_prover]
#[verifier::rlimit(40)]
proof fn lemma_clamped_bytes(s: Seq<u8>, out: Seq<u8>, h: DexHeader, field: u32)
    requires
        well_formed(s, h),
        underway(s, out, h, field),
        forall|i: int, k: int| #[trigger]
            has_code(s, h, i, k) ==> done(s, out, h, i, k, field),
    ensures
        all_clamped(s, out, h, field),
{
    assert forall|i: int, k: int| #[trigger] has_code(s, h, i, k) implies !method_reads(
        s,
        out,
        h,
        i,
        k,
        field,
    ) by {
        lemma_no_instruction_reads(code(s, h, i, k), field);
    }
    assert forall|i: int, k: int, j: int|
        #![trigger has_code(s, h, i, k), leads_to(code(s, h, i, k), 0, j)]
        has_code(s, h, i, k) && leads_to(code(s, h, i, k), 0, j) && reads(
            code(s, h, i, k),
            j,
            field,
        ) implies {
        let at = code_start(s, h, i, k) + j;
        out[at] == 0x13 && out[at + 1] == s[at + 1] && out[at + 2] == 35 && out[at + 3] == 0
    } by {
        let (start, end) = (code_start(s, h, i, k), code_end(s, h, i, k));
        let insns = code(s, h, i, k);
        let now = out.subrange(start, end);
        lemma_no_instruction_reads(insns, field);
        assert(now == clamped(insns, field));
        let four = now.subrange(j, j + 4);
        assert(four == seq![0x13u8, insns[j + 1], 35, 0]);
        assert(out[start + j] == four[0] && out[start + j + 1] == four[1] && out[start + j + 2]
            == four[2] && out[start + j + 3] == four[3]);
    }
    assert forall|b: int| 0 <= b < s.len() && #[trigger] out[b] != s[b] implies exists|
        i: int,
        k: int,
        j: int,
    |
        #![trigger has_code(s, h, i, k), leads_to(code(s, h, i, k), 0, j)]
        has_code(s, h, i, k) && leads_to(code(s, h, i, k), 0, j) && reads(
            code(s, h, i, k),
            j,
            field,
        ) && code_start(s, h, i, k) + j <= b < code_start(s, h, i, k) + j + 4 by {
        assert(in_code(s, h, b));
        let (i, k) = choose|i: int, k: int| #[trigger]
            has_code(s, h, i, k) && code_start(s, h, i, k) <= b < code_end(s, h, i, k);
        let (start, end) = (code_start(s, h, i, k), code_end(s, h, i, k));
        let insns = code(s, h, i, k);
        let now = out.subrange(start, end);
        lemma_no_instruction_reads(insns, field);
        assert(now == clamped(insns, field));
        assert(now[b - start] != insns[b - start]);
        let j = choose|j: int| #[trigger]
            leads_to(insns, 0, j) && reads(insns, j, field) && j <= b - start < j + 4;
        assert(leads_to(code(s, h, i, k), 0, j));
    }
}

/// The walk over a well-formed file clamps every method of every class, direct or
/// virtual: none reads the field then. Every class is visited, and something is counted
/// exactly where some method read the field.
pub proof fn lemma_every_method_is_clamped(s: Seq<u8>, h: DexHeader, field: u32)
    requires
        well_formed(s, h),
    ensures
        all_clamped(s, dex::walk_classes(s, h, 0, field).0, h, field),
        dex::walk_classes(s, h, 0, field).1 > 0 <==> some_method_reads(s, h, field),
        dex::walk_classes(s, h, 0, field).3 == 0,
{
    let (out, n, _, _) = dex::walk_classes(s, h, 0, field);
    assert(underway(s, s, h, field));
    lemma_classes(s, s, h, field, 0);
    lemma_clamped_bytes(s, out, h, field);
    if some_method_reads(s, h, field) {
        let (i, k) = choose|i: int, k: int| #[trigger]
            has_code(s, h, i, k) && method_reads(s, s, h, i, k, field);
        dex::lemma_walk_without_patches(s, h, field);
        assert(!method_reads(s, out, h, i, k, field));
    } else {
        assert forall|i: int, k: int| #[trigger] has_code(s, h, i, k) implies dex::read_sites(
            code(s, h, i, k),
            field,
            0,
        ).len() == 0 by {
            let insns = code(s, h, i, k);
            lemma_sites_are_reached(insns, field, 0);
            if dex::read_sites(insns, field, 0).len() > 0 {
                assert(leads_to(insns, 0, dex::read_sites(insns, field, 0)[0]));
                assert(method_reads(s, s, h, i, k, field));
            }
        }
    }
}

/// What is written to the header changes nothing about that.
#[verifier::spinoff_prover]
pub proof fn lemma_header_aside(s: Seq<u8>, a: Seq<u8>, b: Seq<u8>, h: DexHeader, field: u32)
    requires
        well_formed(s, h),
        all_clamped(s, a, h, field),
        a.len() == b.len(),
        forall|j: int| 0 <= j < a.len() && !(8 <= j < 32) ==> #[trigger] b[j] == a[j],
    ensures
        all_clamped(s, b, h, field),
{
    assert forall|i: int, k: int| #[trigger] has_code(s, h, i, k) implies !method_reads(
        s,
        b,
        h,
        i,
        k,
        field,
    ) by {
        let (start, end) = (code_start(s, h, i, k), code_end(s, h, i, k));
        assert(b.subrange(start, end) =~= a.subrange(start, end));
        assert(!method_reads(s, a, h, i, k, field));
    }
    assert forall|j: int| 0 <= j < s.len() && !(8 <= j < 32) && #[trigger] b[j] != s[j] implies a[j]
        != s[j] by {}
}

/// Whether `out` is what patching is to make of a well-formed `s`, and `n` is zero
/// where there was nothing to patch.
pub open spec fn well_patched(s: Seq<u8>, out: Seq<u8>, n: int) -> bool {
    dex::header_of(s) matches Ok(h) ==> dex::sdk_int_field(s, h) matches Ok(Some(field)) ==> (
    well_formed(s, h) ==> all_clamped(s, out, h, field) && (n > 0 <==> some_method_reads(
        s,
        h,
        field,
    )))
}

// ---- The field --------------------------------------------------------------

/// Whether string number `i` of a file is this text: its bytes and a zero byte stand
/// behind its length.
pub open spec fn names(s: Seq<u8>, h: DexHeader, i: int, text: Seq<char>) -> bool {
    let data = octets::le32_at(s, h.string_ids_off + 4 * i) as int;
    let bytes = vstd::utf8::encode_utf8(text);
    &&& 0 <= i < h.string_ids_size
    &&& dex::uleb128_field(s, data) matches Ok((at, _)) && at + bytes.len() < s.len()
        && s.subrange(at, at + bytes.len()) == bytes && s[at + bytes.len()] == 0
}

/// Whether type number `i` of a file is described by this text.
pub open spec fn describes(s: Seq<u8>, h: DexHeader, i: int, text: Seq<char>) -> bool {
    &&& 0 <= i < h.type_ids_size
    &&& names(s, h, octets::le32_at(s, h.type_ids_off + 4 * i) as int, text)
}

/// Whether field number `f` of a file is the field `SDK_INT` of `Build.VERSION`, which
/// is an `int`.
pub open spec fn is_sdk_level(s: Seq<u8>, h: DexHeader, f: int) -> bool {
    let at = h.field_ids_off + 8 * f;
    &&& 0 <= f < h.field_ids_size
    &&& describes(s, h, octets::le16_at(s, at) as int, "Landroid/os/Build$VERSION;"@)
    &&& describes(s, h, octets::le16_at(s, at + 2) as int, "I"@)
    &&& names(s, h, octets::le32_at(s, at + 4) as int, "SDK_INT"@)
}

proof fn lemma_first_entry(
    probe: spec_fn(int) -> Result<bool, dex::DexError>,
    i: int,
    n: int,
)
    requires
        0 <= i,
        n <= u32::MAX,
    ensures
        dex::first_entry(probe, i, n) matches Ok(Some(f)) ==> i <= f < n && probe(f as int) == Ok::<
            bool,
            dex::DexError,
        >(true),
    decreases n - i,
{
    if i < n && probe(i) == Ok::<bool, dex::DexError>(false) {
        lemma_first_entry(probe, i + 1, n);
    }
}

proof fn lemma_string_found(s: Seq<u8>, h: DexHeader, text: Seq<char>)
    ensures
        dex::string_idx(s, h, text) matches Ok(Some(f)) ==> names(s, h, f as int, text),
{
    let probe = |i: int| dex::string_entry(s, h, text, i);
    lemma_first_entry(probe, 0, h.string_ids_size as int);
    if let Ok(Some(f)) = dex::string_idx(s, h, text) {
        assert(probe(f as int) == Ok::<bool, dex::DexError>(true));
        let data = octets::le32_at(s, h.string_ids_off + 4 * f) as int;
        let at = dex::uleb128_field(s, data)->Ok_0.0;
        let bytes = vstd::utf8::encode_utf8(text);
        assert(s.subrange(at, at + bytes.len()) =~= bytes.push(0).drop_last()) by {
            assert(s.subrange(at, at + bytes.len() + 1) == bytes.push(0));
            assert(s.subrange(at, at + bytes.len()) =~= s.subrange(
                at,
                at + bytes.len() + 1,
            ).drop_last());
        }
        assert(bytes.push(0).drop_last() =~= bytes);
        assert(s.subrange(at, at + bytes.len() + 1)[bytes.len() as int] == bytes.push(
            0,
        )[bytes.len() as int]);
    }
}

proof fn lemma_type_found(s: Seq<u8>, h: DexHeader, descriptor: u32)
    ensures
        dex::type_idx(s, h, descriptor) matches Ok(Some(f)) ==> 0 <= f < h.type_ids_size
            && octets::le32_at(s, h.type_ids_off + 4 * f) == descriptor,
{
    let probe = |i: int| dex::type_entry(s, h, descriptor, i);
    lemma_first_entry(probe, 0, h.type_ids_size as int);
    if let Ok(Some(f)) = dex::type_idx(s, h, descriptor) {
        assert(probe(f as int) == Ok::<bool, dex::DexError>(true));
    }
}

/// The field whose reads are clamped is `SDK_INT` of `Build.VERSION`, by the names in
/// the file's tables.
pub proof fn lemma_field_is_the_sdk_level(s: Seq<u8>, h: DexHeader)
    ensures
        dex::sdk_int_field(s, h) matches Ok(Some(f)) ==> is_sdk_level(s, h, f as int),
{
    if let Ok(Some(f)) = dex::sdk_int_field(s, h) {
        lemma_string_found(s, h, "SDK_INT"@);
        lemma_string_found(s, h, "I"@);
        lemma_string_found(s, h, "Landroid/os/Build$VERSION;"@);
        let name = dex::string_idx(s, h, "SDK_INT"@)->Ok_0->Some_0;
        let int_name = dex::string_idx(s, h, "I"@)->Ok_0->Some_0;
        let class_name = dex::string_idx(s, h, "Landroid/os/Build$VERSION;"@)->Ok_0->Some_0;
        lemma_type_found(s, h, int_name);
        lemma_type_found(s, h, class_name);
        let int_type = dex::type_idx(s, h, int_name)->Ok_0->Some_0;
        let class = dex::type_idx(s, h, class_name)->Ok_0->Some_0;
        let probe = |i: int| dex::field_entry(s, h, class, name, int_type, i);
        lemma_first_entry(probe, 0, h.field_ids_size as int);
        assert(probe(f as int) == Ok::<bool, dex::DexError>(true));
    }
}

proof fn lemma_no_entry(probe: spec_fn(int) -> Result<bool, dex::DexError>, i: int, n: int, j: int)
    requires
        i <= j < n,
        dex::first_entry(probe, i, n) == Ok::<Option<u32>, dex::DexError>(None),
    ensures
        probe(j) == Ok::<bool, dex::DexError>(false),
    decreases n - i,
{
    if i < j {
        lemma_no_entry(probe, i + 1, n, j);
    }
}

/// Where a text is not found among the strings of a file, none of them is it.
pub proof fn lemma_text_is_missing(s: Seq<u8>, h: DexHeader, text: Seq<char>, j: int)
    requires
        dex::string_idx(s, h, text) == Ok::<Option<u32>, dex::DexError>(None),
    ensures
        !names(s, h, j, text),
{
    if names(s, h, j, text) {
        let probe = |i: int| dex::string_entry(s, h, text, i);
        lemma_no_entry(probe, 0, h.string_ids_size as int, j);
        assert(probe(j) == dex::string_entry(s, h, text, j));
        let data = octets::le32_at(s, h.string_ids_off + 4 * j) as int;
        let at = dex::uleb128_field(s, data)->Ok_0.0;
        let bytes = vstd::utf8::encode_utf8(text);
        let found = s.subrange(at, at + bytes.len());
        lemma_digits_bounds(s, data, data, 0);
        assert(s.subrange(at, at + bytes.len() + 1) =~= bytes.push(0)) by {
            assert(forall|k: int| 0 <= k < bytes.len() ==> s[at + k] == #[trigger] found[k]);
        }
    }
}

} // verus!
