//! Text: characters, whitespace and UTF-8.
use vstd::prelude::*;
use vstd::utf8;

verus! {

// ---- Characters ------------------------------------------------------------

/// Whether Unicode gives `c` the `White_Space` property.
pub open spec fn whitespace(c: char) -> bool {
    ||| '\t' <= c <= '\r'
    ||| c == ' '
    ||| c == '\u{85}'
    ||| c == '\u{a0}'
    ||| c == '\u{1680}'
    ||| '\u{2000}' <= c <= '\u{200a}'
    ||| c == '\u{2028}'
    ||| c == '\u{2029}'
    ||| c == '\u{202f}'
    ||| c == '\u{205f}'
    ||| c == '\u{3000}'
}

pub fn is_whitespace(c: char) -> (r: bool)
    ensures
        r == whitespace(c),
{
    ('\t' <= c && c <= '\r') || c == ' ' || c == '\u{85}' || c == '\u{a0}' || c == '\u{1680}' || (
    '\u{2000}' <= c && c <= '\u{200a}') || c == '\u{2028}' || c == '\u{2029}' || c == '\u{202f}' || c
        == '\u{205f}' || c == '\u{3000}'
}

/// `s` without the whitespace at either end.
pub open spec fn trimmed(s: Seq<char>) -> Seq<char>
    decreases s.len(),
{
    if s.len() == 0 {
        s
    } else if whitespace(s.first()) {
        trimmed(s.drop_first())
    } else if whitespace(s.last()) {
        trimmed(s.drop_last())
    } else {
        s
    }
}

/// Whether `s` starts with `prefix`.
pub open spec fn starts_with(s: Seq<char>, prefix: Seq<char>) -> bool {
    prefix.len() <= s.len() && s.subrange(0, prefix.len() as int) == prefix
}

/// Whether `s` ends with `suffix`.
pub open spec fn ends_with(s: Seq<char>, suffix: Seq<char>) -> bool {
    suffix.len() <= s.len() && s.subrange(s.len() - suffix.len(), s.len() as int) == suffix
}

/// The characters of `s`.
pub fn chars_of(s: &str) -> (r: Vec<char>)
    ensures
        r@ == s@,
{
    let mut out: Vec<char> = Vec::new();
    for c in iter: s.chars()
        invariant
            iter.seq() == s@,
            out@ == iter.seq().subrange(0, iter.index()),
    {
        out.push(c);
        assert(out@ =~= iter.seq().subrange(0, iter.index() + 1));
    }
    assert(out@ =~= s@);
    out
}

/// The bounds of `s[from..to]` without the whitespace at either end.
pub fn trim_range(s: &Vec<char>, from: usize, to: usize) -> (r: (usize, usize))
    requires
        from <= to <= s@.len(),
    ensures
        from <= r.0 <= r.1 <= to,
        s@.subrange(r.0 as int, r.1 as int) == trimmed(s@.subrange(from as int, to as int)),
{
    let mut a: usize = from;
    let mut b: usize = to;
    let ghost whole = s@.subrange(from as int, to as int);
    while a < b && is_whitespace(s[a])
        invariant
            from <= a <= b == to <= s@.len(),
            trimmed(whole) == trimmed(s@.subrange(a as int, b as int)),
        decreases b - a,
    {
        assert(s@.subrange(a as int, b as int).drop_first() =~= s@.subrange(a + 1, b as int));
        a += 1;
    }
    while a < b && is_whitespace(s[b - 1])
        invariant
            from <= a <= b <= to <= s@.len(),
            a < b ==> !whitespace(s@[a as int]),
            trimmed(whole) == trimmed(s@.subrange(a as int, b as int)),
        decreases b - a,
    {
        assert(s@.subrange(a as int, b as int).drop_last() =~= s@.subrange(a as int, b - 1));
        b -= 1;
    }
    (a, b)
}

/// Whether `prefix` stands in `s` from `from` on, before `to`.
pub fn range_starts_with(s: &Vec<char>, from: usize, to: usize, prefix: &str) -> (r: bool)
    requires
        from <= to <= s@.len(),
    ensures
        r == starts_with(s@.subrange(from as int, to as int), prefix@),
{
    let p: Vec<char> = chars_of(prefix);
    let ghost part = s@.subrange(from as int, to as int);
    if p.len() > to - from {
        return false;
    }
    let mut i: usize = 0;
    while i < p.len()
        invariant
            i <= p@.len() <= to - from,
            to <= s@.len(),
            p@ == prefix@,
            part == s@.subrange(from as int, to as int),
            forall|j: int| 0 <= j < i ==> part[j] == p@[j],
        decreases p@.len() - i,
    {
        if s[from + i] != p[i] {
            assert(part[i as int] != p@[i as int]);
            assert(part.subrange(0, p@.len() as int)[i as int] == part[i as int]);
            return false;
        }
        i += 1;
    }
    assert(part.subrange(0, p@.len() as int) =~= p@);
    true
}

pub fn text_starts_with(s: &Vec<char>, prefix: &str) -> (r: bool)
    ensures
        r == starts_with(s@, prefix@),
{
    assert(s@.subrange(0, s@.len() as int) =~= s@);
    range_starts_with(s, 0, s.len(), prefix)
}

pub fn text_ends_with(s: &Vec<char>, suffix: &str) -> (r: bool)
    ensures
        r == ends_with(s@, suffix@),
{
    let p: Vec<char> = chars_of(suffix);
    if p.len() > s.len() {
        return false;
    }
    let at: usize = s.len() - p.len();
    let ghost tail = s@.subrange(at as int, s@.len() as int);
    assert(tail.subrange(0, p@.len() as int) =~= tail);
    range_starts_with(s, at, s.len(), suffix)
}

pub fn text_equals(s: &Vec<char>, other: &str) -> (r: bool)
    ensures
        r == (s@ == other@),
{
    let p: Vec<char> = chars_of(other);
    assert(s@.len() == p@.len() ==> s@.subrange(0, p@.len() as int) =~= s@);
    s.len() == p.len() && text_starts_with(s, other)
}

/// How often `c` occurs in `s`.
pub open spec fn occurrences(s: Seq<char>, c: char) -> nat
    decreases s.len(),
{
    if s.len() == 0 {
        0
    } else {
        occurrences(s.drop_last(), c) + if s.last() == c {
            1nat
        } else {
            0nat
        }
    }
}

pub fn count(s: &Vec<char>, c: char) -> (r: usize)
    ensures
        r == occurrences(s@, c),
{
    let mut n: usize = 0;
    let mut i: usize = 0;
    while i < s.len()
        invariant
            n <= i <= s@.len(),
            n == occurrences(s@.subrange(0, i as int), c),
        decreases s@.len() - i,
    {
        assert(s@.subrange(0, i + 1).drop_last() =~= s@.subrange(0, i as int));
        if s[i] == c {
            n += 1;
        }
        i += 1;
    }
    assert(s@.subrange(0, i as int) =~= s@);
    n
}

/// `c`, or its capital where `c` is an ASCII letter.
pub open spec fn ascii_upper(c: char) -> char {
    if 'a' <= c <= 'z' {
        (c as u32 - 32) as char
    } else {
        c
    }
}

/// `c`, or the small letter where `c` is an ASCII capital.
pub open spec fn ascii_lower(c: char) -> char {
    if 'A' <= c <= 'Z' {
        (c as u32 + 32) as char
    } else {
        c
    }
}

/// `s` with its ASCII letters made capitals.
pub open spec fn upper(s: Seq<char>) -> Seq<char> {
    Seq::new(s.len(), |i: int| ascii_upper(s[i]))
}

/// `s` with its ASCII letters made small.
pub open spec fn lower(s: Seq<char>) -> Seq<char> {
    Seq::new(s.len(), |i: int| ascii_lower(s[i]))
}

pub fn to_upper(s: &str) -> (r: Vec<char>)
    ensures
        r@ == upper(s@),
{
    let text: Vec<char> = chars_of(s);
    let mut out: Vec<char> = Vec::new();
    let mut i: usize = 0;
    while i < text.len()
        invariant
            i <= text@.len(),
            text@ == s@,
            out@ == upper(s@).subrange(0, i as int),
        decreases text@.len() - i,
    {
        let c: char = text[i];
        if 'a' <= c && c <= 'z' {
            out.push((c as u8 - 32) as char);
        } else {
            out.push(c);
        }
        i += 1;
        assert(out@ =~= upper(s@).subrange(0, i as int));
    }
    assert(out@ =~= upper(s@));
    out
}

pub fn to_lower(s: &str) -> (r: Vec<char>)
    ensures
        r@ == lower(s@),
{
    let text: Vec<char> = chars_of(s);
    let mut out: Vec<char> = Vec::new();
    let mut i: usize = 0;
    while i < text.len()
        invariant
            i <= text@.len(),
            text@ == s@,
            out@ == lower(s@).subrange(0, i as int),
        decreases text@.len() - i,
    {
        let c: char = text[i];
        if 'A' <= c && c <= 'Z' {
            out.push((c as u8 + 32) as char);
        } else {
            out.push(c);
        }
        i += 1;
        assert(out@ =~= lower(s@).subrange(0, i as int));
    }
    assert(out@ =~= lower(s@));
    out
}

/// Two texts, one after the other.
pub fn join(a: &str, b: &str) -> (r: String)
    ensures
        r@ == a@ + b@,
{
    let mut out: String = a.to_string();
    out.append(b);
    out
}

// ---- Numbers ---------------------------------------------------------------

/// The digit for a number under ten.
pub open spec fn digit(n: nat) -> char {
    ('0' as u32 + n) as char
}

/// A number in decimal.
pub open spec fn decimal(n: nat) -> Seq<char>
    decreases n,
{
    if n < 10 {
        seq![digit(n)]
    } else {
        decimal(n / 10).push(digit(n % 10))
    }
}

/// The last `places` decimal digits of a number.
pub open spec fn last_digits(n: nat, places: nat) -> Seq<char>
    decreases places,
{
    if places == 0 {
        Seq::empty()
    } else {
        last_digits(n / 10, (places - 1) as nat).push(digit(n % 10))
    }
}

/// Ten to a power.
pub open spec fn power_of_ten(places: nat) -> nat
    decreases places,
{
    if places == 0 {
        1
    } else {
        10 * power_of_ten((places - 1) as nat)
    }
}

/// A number of units, each ten to the power of minus `places`, in decimal with
/// that many places.
pub open spec fn fixed(units: int, places: nat) -> Seq<char> {
    let size: nat = if units < 0 {
        (-units) as nat
    } else {
        units as nat
    };
    (if units < 0 {
        "-"@
    } else {
        ""@
    }) + decimal(size / power_of_ten(places)) + "."@ + last_digits(size, places)
}

fn digit_text(n: u64) -> (r: &'static str)
    requires
        n < 10,
    ensures
        r@ == seq![digit(n as nat)],
{
    proof {
        reveal_strlit("0");
        reveal_strlit("1");
        reveal_strlit("2");
        reveal_strlit("3");
        reveal_strlit("4");
        reveal_strlit("5");
        reveal_strlit("6");
        reveal_strlit("7");
        reveal_strlit("8");
        reveal_strlit("9");
    }
    let r: &'static str = match n {
        0 => "0",
        1 => "1",
        2 => "2",
        3 => "3",
        4 => "4",
        5 => "5",
        6 => "6",
        7 => "7",
        8 => "8",
        _ => "9",
    };
    assert(r@ =~= seq![digit(n as nat)]);
    r
}

/// A number in decimal.
pub fn to_decimal(n: u64) -> (r: String)
    ensures
        r@ == decimal(n as nat),
    decreases n,
{
    if n < 10 {
        digit_text(n).to_string()
    } else {
        let mut out: String = to_decimal(n / 10);
        out.append(digit_text(n % 10));
        assert(out@ =~= decimal(n as nat));
        out
    }
}

fn to_last_digits(n: u64, places: u32) -> (r: String)
    ensures
        r@ == last_digits(n as nat, places as nat),
    decreases places,
{
    if places == 0 {
        let out: String = String::new();
        assert(out@ =~= Seq::<char>::empty());
        out
    } else {
        let mut out: String = to_last_digits(n / 10, places - 1);
        out.append(digit_text(n % 10));
        assert(out@ =~= last_digits(n as nat, places as nat));
        out
    }
}

fn to_power_of_ten(places: u32) -> (r: u64)
    requires
        places <= 18,
    ensures
        r == power_of_ten(places as nat),
        1 <= r <= 1_000_000_000_000_000_000,
    decreases places,
{
    if places == 0 {
        1
    } else {
        proof {
            reveal_with_fuel(power_of_ten, 20);
        }
        10 * to_power_of_ten(places - 1)
    }
}

/// A number of units in decimal with this many places.
pub fn to_fixed(units: i64, places: u32) -> (r: String)
    requires
        units > i64::MIN,
        places <= 18,
    ensures
        r@ == fixed(units as int, places as nat),
{
    let size: u64 = if units < 0 {
        (-units) as u64
    } else {
        units as u64
    };
    let mut out: String = (if units < 0 {
        "-"
    } else {
        ""
    }).to_string();
    let unit: u64 = to_power_of_ten(places);
    out.append(to_decimal(size / unit).as_str());
    out.append(".");
    out.append(to_last_digits(size, places).as_str());
    out
}

// ---- UTF-8 -----------------------------------------------------------------

/// Calls `std::str::from_utf8`. Trusted: it accepts exactly the valid UTF-8
/// byte strings, and gives the text that such a string encodes.
#[verifier::external_body]
pub(crate) fn decode(bytes: &[u8]) -> (r: Option<&str>)
    ensures
        match r {
            Some(s) => utf8::valid_utf8(bytes@) && s@ == utf8::decode_utf8(bytes@),
            None => !utf8::valid_utf8(bytes@),
        },
{
    std::str::from_utf8(bytes).ok()
}

// ---- What texts say ---------------------------------------------------------

/// The number that decimal digits stand for.
pub open spec fn value_of(digits: Seq<char>) -> int
    decreases digits.len(),
{
    if digits.len() == 0 {
        0
    } else {
        10 * value_of(digits.drop_last()) + (digits.last() as int - '0' as int)
    }
}

/// Whether `c` is a decimal digit.
pub open spec fn is_digit(c: char) -> bool {
    '0' <= c <= '9'
}

/// A number in decimal is digits, without a zero in front, that stand for the number.
pub proof fn lemma_decimal_value(n: nat)
    ensures
        value_of(decimal(n)) == n,
        decimal(n).len() > 0,
        forall|i: int| 0 <= i < decimal(n).len() ==> is_digit(#[trigger] decimal(n)[i]),
        decimal(n)[0] == '0' ==> n == 0,
    decreases n,
{
    reveal_with_fuel(value_of, 2);
    if n < 10 {
        assert(decimal(n).drop_last() =~= Seq::<char>::empty());
    } else {
        lemma_decimal_value(n / 10);
        assert(decimal(n).drop_last() =~= decimal(n / 10));
        assert(decimal(n)[0] == decimal(n / 10)[0]);
    }
}

/// Numbers that read the same in decimal are the same.
pub proof fn lemma_decimal_injective(m: nat, n: nat)
    requires
        decimal(m) == decimal(n),
    ensures
        m == n,
{
    lemma_decimal_value(m);
    lemma_decimal_value(n);
}

proof fn lemma_last_digits_value(n: nat, places: nat)
    ensures
        last_digits(n, places).len() == places,
        value_of(last_digits(n, places)) == n % power_of_ten(places),
        power_of_ten(places) > 0,
        forall|i: int| 0 <= i < places ==> is_digit(#[trigger] last_digits(n, places)[i]),
    decreases places,
{
    if places > 0 {
        let p = power_of_ten((places - 1) as nat);
        lemma_last_digits_value(n / 10, (places - 1) as nat);
        assert(last_digits(n, places).drop_last() =~= last_digits(n / 10, (places - 1) as nat));
        assert(n % (10 * p) == 10 * (n / 10 % p) + n % 10) by {
            vstd::arithmetic::div_mod::lemma_mod_breakdown(n as int, 10, p as int);
        }
    }
}

/// A number with decimal places is a minus where it is negative, whole digits, a point
/// and as many digits as there are places; read together they stand for its size.
pub proof fn lemma_fixed_value(units: int, places: nat)
    ensures
        ({
            let size = if units < 0 {
                -units
            } else {
                units
            };
            exists|whole: Seq<char>, part: Seq<char>|
                {
                    &&& #[trigger] (whole + "."@ + part) == fixed(
                        units,
                        places,
                    ).skip(if units < 0 {
                        1
                    } else {
                        0
                    })
                    &&& part.len() == places
                    &&& value_of(whole) * power_of_ten(places) + value_of(part) == size
                }
        }),
        units < 0 ==> fixed(units, places).len() > 0 && fixed(units, places)[0] == '-',
        units >= 0 ==> fixed(units, places).len() > 0 && is_digit(fixed(units, places)[0]),
{
    let size: nat = if units < 0 {
        (-units) as nat
    } else {
        units as nat
    };
    let p = power_of_ten(places);
    let whole = decimal(size / p);
    let part = last_digits(size, places);
    reveal_strlit("-");
    reveal_strlit("");
    lemma_last_digits_value(size, places);
    lemma_decimal_value(size / p);
    vstd::arithmetic::div_mod::lemma_fundamental_div_mod(size as int, p as int);
    assert((size as int / p as int) * p == p * (size as int / p as int)) by (nonlinear_arith);
    let text = whole + "."@ + part;
    if units < 0 {
        assert(fixed(units, places).skip(1) =~= text);
    } else {
        assert(fixed(units, places).skip(0) =~= text);
        assert(fixed(units, places)[0] == whole[0]);
    }
}

/// Whether `s` from `a` to `b` is `s` without whitespace at its ends.
pub open spec fn trims_to(s: Seq<char>, a: int, b: int) -> bool {
    &&& 0 <= a <= b <= s.len()
    &&& forall|i: int| 0 <= i < a ==> whitespace(#[trigger] s[i])
    &&& forall|i: int| b <= i < s.len() ==> whitespace(#[trigger] s[i])
    &&& a < b ==> !whitespace(s[a]) && !whitespace(s[b - 1])
}

proof fn lemma_trim_bounds(s: Seq<char>) -> (r: (int, int))
    ensures
        trims_to(s, r.0, r.1),
        trimmed(s) == s.subrange(r.0, r.1),
    decreases s.len(),
{
    if s.len() == 0 {
        assert(s.subrange(0, 0) =~= s);
        (0, 0)
    } else if whitespace(s.first()) {
        let t = s.drop_first();
        let (a, b) = lemma_trim_bounds(t);
        assert(s.subrange(a + 1, b + 1) =~= t.subrange(a, b));
        assert forall|i: int| 0 <= i < a + 1 implies whitespace(#[trigger] s[i]) by {
            if i > 0 {
                assert(s[i] == t[i - 1]);
            }
        }
        assert forall|i: int| b + 1 <= i < s.len() implies whitespace(#[trigger] s[i]) by {
            assert(s[i] == t[i - 1]);
        }
        (a + 1, b + 1)
    } else if whitespace(s.last()) {
        let t = s.drop_last();
        let (a, b) = lemma_trim_bounds(t);
        assert(s.subrange(a, b) =~= t.subrange(a, b));
        assert forall|i: int| 0 <= i < a implies whitespace(#[trigger] s[i]) by {
            assert(s[i] == t[i]);
        }
        assert forall|i: int| b <= i < s.len() implies whitespace(#[trigger] s[i]) by {
            if i < t.len() {
                assert(s[i] == t[i]);
            }
        }
        (a, b)
    } else {
        assert(s.subrange(0, s.len() as int) =~= s);
        (0, s.len() as int)
    }
}

/// Trimming takes whitespace off both ends, all of it, and nothing else.
pub proof fn lemma_trimmed(s: Seq<char>)
    ensures
        exists|a: int, b: int| #[trigger] trims_to(s, a, b) && trimmed(s) == s.subrange(a, b),
{
    let (a, b) = lemma_trim_bounds(s);
    assert(trims_to(s, a, b));
}

/// Among the ASCII characters, the blank and the five that move on in a text are
/// whitespace.
pub proof fn lemma_ascii_whitespace(c: char)
    requires
        c as int <= 0x7f,
    ensures
        whitespace(c) <==> c as int == 0x20 || 0x09 <= c as int <= 0x0d,
{
}

/// Small letters and capitals are thirty-two apart, and other characters stay: a text
/// made small has no capitals, and made capital again where it had been capital it is
/// what it was.
pub proof fn lemma_letters(c: char)
    ensures
        !('A' <= ascii_lower(c) <= 'Z'),
        !('a' <= ascii_upper(c) <= 'z'),
        'A' <= c <= 'Z' ==> ascii_upper(ascii_lower(c)) == c && ascii_lower(c) as int == c as int
            + 32,
        'a' <= c <= 'z' ==> ascii_lower(ascii_upper(c)) == c && ascii_upper(c) as int == c as int
            - 32,
        !('A' <= c <= 'Z') ==> ascii_lower(c) == c,
        !('a' <= c <= 'z') ==> ascii_upper(c) == c,
{
}

} // verus!
