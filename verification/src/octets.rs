//! Byte strings: fixed-width integers in either byte order, comparison and
//! copying.
use vstd::prelude::*;

verus! {

// ---- Fixed-width integers as byte sequences --------------------------------

/// The two bytes of `x`, least significant first.
pub open spec fn le16(x: u16) -> Seq<u8> {
    seq![(x % 256) as u8, (x / 256) as u8]
}

/// The four bytes of `x`, least significant first.
pub open spec fn le32(x: u32) -> Seq<u8> {
    seq![
        (x % 256) as u8,
        (x / 256 % 256) as u8,
        (x / 65536 % 256) as u8,
        (x / 16777216) as u8,
    ]
}

/// The eight bytes of `x`, least significant first.
pub open spec fn le64(x: u64) -> Seq<u8> {
    le32((x % 0x1_0000_0000) as u32) + le32((x / 0x1_0000_0000) as u32)
}

/// The two bytes of `x`, most significant first.
pub open spec fn be16(x: u16) -> Seq<u8> {
    seq![(x / 256) as u8, (x % 256) as u8]
}

/// The four bytes of `x`, most significant first.
pub open spec fn be32(x: u32) -> Seq<u8> {
    seq![
        (x / 16777216) as u8,
        (x / 65536 % 256) as u8,
        (x / 256 % 256) as u8,
        (x % 256) as u8,
    ]
}

/// The eight bytes of `x`, most significant first.
pub open spec fn be64(x: u64) -> Seq<u8> {
    be32((x / 0x1_0000_0000) as u32) + be32((x % 0x1_0000_0000) as u32)
}

/// The number whose two bytes, least significant first, start at `i`.
pub open spec fn le16_at(s: Seq<u8>, i: int) -> u16 {
    (s[i] + 256 * s[i + 1]) as u16
}

/// The number whose four bytes, least significant first, start at `i`.
pub open spec fn le32_at(s: Seq<u8>, i: int) -> u32 {
    (s[i] + 256 * s[i + 1] + 65536 * s[i + 2] + 16777216 * s[i + 3]) as u32
}

/// The number whose two bytes, most significant first, start at `i`.
pub open spec fn be16_at(s: Seq<u8>, i: int) -> u16 {
    (256 * s[i] + s[i + 1]) as u16
}

/// The number whose four bytes, most significant first, start at `i`.
pub open spec fn be32_at(s: Seq<u8>, i: int) -> u32 {
    (16777216 * s[i] + 65536 * s[i + 1] + 256 * s[i + 2] + s[i + 3]) as u32
}

/// The number whose eight bytes, most significant first, start at `i`.
pub open spec fn be64_at(s: Seq<u8>, i: int) -> u64 {
    (be32_at(s, i) * 0x1_0000_0000 + be32_at(s, i + 4)) as u64
}

/// Reading back a little-endian 32-bit number gives the number written.
pub proof fn lemma_le32_read_back(x: u32)
    ensures
        le32(x).len() == 4,
        le32_at(le32(x), 0) == x,
{
}

/// Reading back a big-endian 16-bit number gives the number written.
pub proof fn lemma_be16_read_back(x: u16)
    ensures
        be16(x).len() == 2,
        be16_at(be16(x), 0) == x,
{
}

/// Reading back a big-endian 32-bit number gives the number written.
pub proof fn lemma_be32_read_back(x: u32)
    ensures
        be32(x).len() == 4,
        be32_at(be32(x), 0) == x,
{
}

/// Reading back a big-endian 64-bit number gives the number written.
pub proof fn lemma_be64_read_back(x: u64)
    ensures
        be64(x).len() == 8,
        be64_at(be64(x), 0) == x,
{
    let hi = (x / 0x1_0000_0000) as u32;
    let lo = (x % 0x1_0000_0000) as u32;
    lemma_be32_read_back(hi);
    lemma_be32_read_back(lo);
    assert(be32_at(be64(x), 0) == be32_at(be32(hi), 0));
    assert(be32_at(be64(x), 4) == be32_at(be32(lo), 0));
}

/// The low 32 bits of `n`.
pub open spec fn low32(n: int) -> u32 {
    (n % 0x1_0000_0000) as u32
}

pub fn low32_of(n: usize) -> (r: u32)
    ensures
        r == low32(n as int),
{
    (n as u64 % 0x1_0000_0000) as u32
}

/// The low 32 bits of the sum of two lengths.
pub fn low32_of_sum(a: usize, b: usize) -> (r: u32)
    ensures
        r == low32(a + b),
{
    proof {
        vstd::arithmetic::div_mod::lemma_add_mod_noop(a as int, b as int, 0x1_0000_0000);
    }
    ((low32_of(a) as u64 + low32_of(b) as u64) % 0x1_0000_0000) as u32
}

// ---- Reading ---------------------------------------------------------------

pub fn read_le16(s: &[u8], i: usize) -> (x: u16)
    requires
        i + 2 <= s@.len(),
    ensures
        x == le16_at(s@, i as int),
{
    s[i] as u16 + 256 * (s[i + 1] as u16)
}

pub fn read_le32(s: &[u8], i: usize) -> (x: u32)
    requires
        i + 4 <= s@.len(),
    ensures
        x == le32_at(s@, i as int),
{
    s[i] as u32 + 256 * (s[i + 1] as u32) + 65536 * (s[i + 2] as u32) + 16777216 * (s[i + 3] as u32)
}

pub fn read_be16(s: &[u8], i: usize) -> (x: u16)
    requires
        i + 2 <= s@.len(),
    ensures
        x == be16_at(s@, i as int),
{
    256 * (s[i] as u16) + s[i + 1] as u16
}

pub fn read_be32(s: &[u8], i: usize) -> (x: u32)
    requires
        i + 4 <= s@.len(),
    ensures
        x == be32_at(s@, i as int),
{
    16777216 * (s[i] as u32) + 65536 * (s[i + 1] as u32) + 256 * (s[i + 2] as u32) + s[i + 3] as u32
}

pub fn read_be64(s: &[u8], i: usize) -> (x: u64)
    requires
        i + 8 <= s@.len(),
    ensures
        x == be64_at(s@, i as int),
{
    assert(s.len() == s@.len());
    read_be32(s, i) as u64 * 0x1_0000_0000 + read_be32(s, i + 4) as u64
}

// ---- Writing ---------------------------------------------------------------

pub fn push_le16(out: &mut Vec<u8>, x: u16)
    ensures
        final(out)@ == old(out)@ + le16(x),
{
    out.push((x % 256) as u8);
    out.push((x / 256) as u8);
}

pub fn push_le32(out: &mut Vec<u8>, x: u32)
    ensures
        final(out)@ == old(out)@ + le32(x),
{
    out.push((x % 256) as u8);
    out.push((x / 256 % 256) as u8);
    out.push((x / 65536 % 256) as u8);
    out.push((x / 16777216) as u8);
}

pub fn push_le64(out: &mut Vec<u8>, x: u64)
    ensures
        final(out)@ == old(out)@ + le64(x),
{
    push_le32(out, (x % 0x1_0000_0000) as u32);
    push_le32(out, (x / 0x1_0000_0000) as u32);
}

pub fn push_be16(out: &mut Vec<u8>, x: u16)
    ensures
        final(out)@ == old(out)@ + be16(x),
{
    out.push((x / 256) as u8);
    out.push((x % 256) as u8);
}

pub fn push_be32(out: &mut Vec<u8>, x: u32)
    ensures
        final(out)@ == old(out)@ + be32(x),
{
    out.push((x / 16777216) as u8);
    out.push((x / 65536 % 256) as u8);
    out.push((x / 256 % 256) as u8);
    out.push((x % 256) as u8);
}

pub fn push_be64(out: &mut Vec<u8>, x: u64)
    ensures
        final(out)@ == old(out)@ + be64(x),
{
    push_be32(out, (x / 0x1_0000_0000) as u32);
    push_be32(out, (x % 0x1_0000_0000) as u32);
}

// ---- Byte strings ----------------------------------------------------------

pub fn push_all(out: &mut Vec<u8>, s: &[u8])
    ensures
        final(out)@ == old(out)@ + s@,
{
    out.extend_from_slice(s);
    assert(out@ =~= old(out)@ + s@);
}

pub fn to_vec(s: &[u8]) -> (r: Vec<u8>)
    ensures
        r@ == s@,
{
    let mut out: Vec<u8> = Vec::new();
    push_all(&mut out, s);
    assert(out@ =~= s@);
    out
}

pub fn bytes_equal(a: &[u8], b: &[u8]) -> (r: bool)
    ensures
        r == (a@ == b@),
{
    if a.len() != b.len() {
        return false;
    }
    let mut i: usize = 0;
    while i < a.len()
        invariant
            a@.len() == b@.len(),
            i <= a@.len(),
            forall|j: int| 0 <= j < i ==> a@[j] == b@[j],
        decreases a@.len() - i,
    {
        if a[i] != b[i] {
            return false;
        }
        i += 1;
    }
    assert(a@ =~= b@);
    true
}

/// `s` with the bytes from `at` on overwritten by `src`.
pub open spec fn overwritten(s: Seq<u8>, at: int, src: Seq<u8>) -> Seq<u8> {
    s.subrange(0, at) + src + s.subrange(at + src.len(), s.len() as int)
}

pub fn overwrite(s: &mut [u8], at: usize, src: &[u8])
    requires
        at + src@.len() <= old(s)@.len(),
    ensures
        final(s)@ == overwritten(old(s)@, at as int, src@),
        final(s)@.len() == old(s)@.len(),
{
    let ghost whole = s@;
    let n: usize = src.len();
    let mut i: usize = 0;
    while i < n
        invariant
            n == src@.len(),
            i <= n,
            at + n <= whole.len(),
            s@.len() == whole.len(),
            forall|j: int|
                0 <= j < whole.len() ==> s@[j] == if at <= j < at + i {
                    src@[j - at]
                } else {
                    whole[j]
                },
        decreases n - i,
    {
        assert(s.len() == s@.len());
        s[at + i] = src[i];
        i += 1;
    }
    assert(s@ =~= overwritten(whole, at as int, src@));
}

/// Whether `needle` stands in `s` at offset `i`.
pub open spec fn stands_at(s: Seq<u8>, i: int, needle: Seq<u8>) -> bool {
    0 <= i && i + needle.len() <= s.len() && s.subrange(i, i + needle.len()) == needle
}

pub fn matches_at(s: &[u8], i: usize, needle: &[u8]) -> (r: bool)
    ensures
        r == stands_at(s@, i as int, needle@),
{
    if i > s.len() || needle.len() > s.len() - i {
        return false;
    }
    bytes_equal(&s[i..i + needle.len()], needle)
}

/// Two texts are equal exactly when their UTF-8 encodings are.
pub proof fn lemma_utf8_injective(a: Seq<char>, b: Seq<char>)
    ensures
        (vstd::utf8::encode_utf8(a) == vstd::utf8::encode_utf8(b)) <==> a == b,
{
    vstd::utf8::encode_utf8_decode_utf8(a);
    vstd::utf8::encode_utf8_decode_utf8(b);
}

pub fn same_text(a: &str, b: &str) -> (r: bool)
    ensures
        r == (a@ == b@),
{
    proof {
        lemma_utf8_injective(a@, b@);
    }
    bytes_equal(a.as_bytes(), b.as_bytes())
}

} // verus!
