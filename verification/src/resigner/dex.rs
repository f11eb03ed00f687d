//! Clamping `Build.VERSION.SDK_INT` in a DEX file.
//!
//! Only as much of the DEX format is read as is needed to find the field id of
//! `Landroid/os/Build$VERSION;->SDK_INT:I` and every instruction that reads it:
//!
//!   1. the header, for the table offsets and sizes;
//!   2. the string ids of `SDK_INT`, `I` and `Landroid/os/Build$VERSION;`;
//!   3. the type ids that name the latter two;
//!   4. the field id with that class, type and name;
//!   5. every code item that a class definition leads to.
//!
//! Each `sget` of the field becomes `const/16 vAA, #35` in place, and the
//! header's SHA-1 and Adler-32 are brought up to date.
//!
//! Offsets are 64-bit throughout, so that no offset a file names can wrap.
use crate::octets;
use crate::resigner::clamping;
use crate::resigner::digest;
use crate::resigner::digest::MAX_DIGEST_INPUT;
use vstd::prelude::*;
use vstd::utf8;

verus! {

/// The only byte order that Android writes.
pub const ENDIAN_CONSTANT: u32 = 0x12345678;

/// The SDK level written in place of the device's own.
pub const CLAMPED_SDK_INT: i16 = 35;

/// The length of a DEX header.
pub const HEADER_LEN: usize = 0x70;

/// The first four bytes of a DEX file, `dex\n`.
pub const DEX_MAGIC_PREFIX: [u8; 4] = [0x64, 0x65, 0x78, 0x0a];

/// Why a DEX file cannot be patched.
#[derive(Debug, Clone, Copy, PartialEq, Eq, Structural)]
pub enum DexError {
    /// The file is shorter than a header.
    TooShort,
    /// The file does not start with the DEX magic.
    BadMagic,
    /// The endian tag is not [`ENDIAN_CONSTANT`].
    UnsupportedEndian(u32),
    /// A number at this offset does not lie within the file.
    OutOfBounds(u64),
    /// The variable-length number at this offset runs past the end of the file.
    UlebTruncated(u64),
    /// The variable-length number at this offset has more than five bytes.
    UlebOverflow(u64),
    /// A type index does not fit the 16 bits that a field id has for it.
    TypeIndexOutOfRange,
}

/// What one pass over a DEX file did.
#[derive(Debug, Clone, Copy)]
pub struct DexPatchResult {
    /// Instructions rewritten.
    pub patches: usize,
    /// Bytes rewritten, four for each instruction.
    pub bytes_rewritten: usize,
}

impl Default for DexPatchResult {
    fn default() -> (r: Self)
        ensures
            r.patches == 0,
            r.bytes_rewritten == 0,
    {
        DexPatchResult { patches: 0, bytes_rewritten: 0 }
    }
}

// ---- Numbers ---------------------------------------------------------------

pub open spec fn u16_field(s: Seq<u8>, off: int) -> Result<u16, DexError> {
    if off + 2 > s.len() {
        Err(DexError::OutOfBounds(off as u64))
    } else {
        Ok(octets::le16_at(s, off))
    }
}

pub open spec fn u32_field(s: Seq<u8>, off: int) -> Result<u32, DexError> {
    if off + 4 > s.len() {
        Err(DexError::OutOfBounds(off as u64))
    } else {
        Ok(octets::le32_at(s, off))
    }
}

/// The offset behind the base-128 number at `p` and its value, low digits
/// first, of which `k` digits have been read before. The last digit has its
/// high bit clear. At most five digits are read; `start` is where the first
/// one stood.
pub open spec fn uleb128_digits(s: Seq<u8>, start: int, p: int, k: int) -> Result<
    (int, int),
    DexError,
>
    decreases 5 - k,
{
    if k >= 5 {
        Err(DexError::UlebOverflow(start as u64))
    } else if p >= s.len() {
        Err(DexError::UlebTruncated(start as u64))
    } else if s[p] < 128 {
        Ok((p + 1, s[p] as int))
    } else {
        match uleb128_digits(s, start, p + 1, k + 1) {
            Ok((next, rest)) => Ok((next, s[p] - 128 + 128 * rest)),
            Err(e) => Err(e),
        }
    }
}

/// The offset behind the `uleb128` at `off` and its low 32 bits.
pub open spec fn uleb128_field(s: Seq<u8>, off: int) -> Result<(int, u32), DexError> {
    match uleb128_digits(s, off, off, 0) {
        Ok((next, value)) => Ok((next, (value % 0x1_0000_0000) as u32)),
        Err(e) => Err(e),
    }
}

/// The offset behind `n` consecutive `uleb128` numbers, if all can be read.
pub open spec fn skip_ulebs(s: Seq<u8>, p: int, n: int) -> Option<int>
    decreases n,
{
    if n <= 0 {
        Some(p)
    } else {
        match uleb128_field(s, p) {
            Ok((next, _)) => skip_ulebs(s, next, n - 1),
            Err(_) => None,
        }
    }
}

pub fn read_u16(buf: &[u8], off: u64) -> (r: Result<u16, DexError>)
    ensures
        r == u16_field(buf@, off as int),
{
    if buf.len() < 2 || off > (buf.len() - 2) as u64 {
        return Err(DexError::OutOfBounds(off));
    }
    Ok(octets::read_le16(buf, off as usize))
}

pub fn read_u32(buf: &[u8], off: u64) -> (r: Result<u32, DexError>)
    ensures
        r == u32_field(buf@, off as int),
{
    if buf.len() < 4 || off > (buf.len() - 4) as u64 {
        return Err(DexError::OutOfBounds(off));
    }
    Ok(octets::read_le32(buf, off as usize))
}

/// One more than the largest number of `5 - k` base-128 digits.
spec fn digits_bound(k: int) -> int {
    if k <= 0 {
        0x8_0000_0000
    } else if k == 1 {
        0x1000_0000
    } else if k == 2 {
        0x20_0000
    } else if k == 3 {
        0x4000
    } else {
        0x80
    }
}

fn read_uleb128_digits(buf: &[u8], start: u64, p: u64, k: u8) -> (r: Result<(u64, u64), DexError>)
    requires
        k <= 5,
        p <= buf@.len() || k == 0,
    ensures
        match r {
            Ok((next, value)) => {
                &&& uleb128_digits(buf@, start as int, p as int, k as int) == Ok::<
                    (int, int),
                    DexError,
                >((next as int, value as int))
                &&& p < next <= buf@.len()
                &&& value < digits_bound(k as int)
            },
            Err(e) => uleb128_digits(buf@, start as int, p as int, k as int) == Err::<
                (int, int),
                DexError,
            >(e),
        },
    decreases 5 - k,
{
    if k == 5 {
        return Err(DexError::UlebOverflow(start));
    }
    if p >= buf.len() as u64 {
        return Err(DexError::UlebTruncated(start));
    }
    let byte: u8 = buf[p as usize];
    if byte < 128 {
        return Ok((p + 1, byte as u64));
    }
    match read_uleb128_digits(buf, start, p + 1, k + 1) {
        Ok((next, rest)) => Ok((next, (byte - 128) as u64 + 128 * rest)),
        Err(e) => Err(e),
    }
}

/// Reads the `uleb128` at `off`: the offset behind it and its value.
pub fn read_uleb128(buf: &[u8], off: u64) -> (r: Result<(u64, u32), DexError>)
    ensures
        match r {
            Ok((next, value)) => {
                &&& uleb128_field(buf@, off as int) == Ok::<(int, u32), DexError>(
                    (next as int, value),
                )
                &&& off < next <= buf@.len()
            },
            Err(e) => uleb128_field(buf@, off as int) == Err::<(int, u32), DexError>(e),
        },
{
    match read_uleb128_digits(buf, off, off, 0) {
        Ok((next, value)) => Ok((next, (value % 0x1_0000_0000) as u32)),
        Err(e) => Err(e),
    }
}

// ---- Header ----------------------------------------------------------------

/// Where the tables that are needed lie, and how many entries each has.
#[derive(Debug, Clone, Copy, PartialEq, Eq, Structural)]
pub struct DexHeader {
    pub string_ids_size: u32,
    pub string_ids_off: u32,
    pub type_ids_size: u32,
    pub type_ids_off: u32,
    pub field_ids_size: u32,
    pub field_ids_off: u32,
    pub class_defs_size: u32,
    pub class_defs_off: u32,
}

/// What the header of `dex` says, or why it is not one.
pub open spec fn header_of(dex: Seq<u8>) -> Result<DexHeader, DexError> {
    if dex.len() < HEADER_LEN {
        Err(DexError::TooShort)
    } else if !octets::stands_at(dex, 0, DEX_MAGIC_PREFIX@) {
        Err(DexError::BadMagic)
    } else if octets::le32_at(dex, 0x28) != ENDIAN_CONSTANT {
        Err(DexError::UnsupportedEndian(octets::le32_at(dex, 0x28)))
    } else {
        Ok(
            DexHeader {
                string_ids_size: octets::le32_at(dex, 0x38),
                string_ids_off: octets::le32_at(dex, 0x3c),
                type_ids_size: octets::le32_at(dex, 0x40),
                type_ids_off: octets::le32_at(dex, 0x44),
                field_ids_size: octets::le32_at(dex, 0x50),
                field_ids_off: octets::le32_at(dex, 0x54),
                class_defs_size: octets::le32_at(dex, 0x60),
                class_defs_off: octets::le32_at(dex, 0x64),
            },
        )
    }
}

impl DexHeader {
    pub fn parse(dex: &[u8]) -> (r: Result<Self, DexError>)
        ensures
            r == header_of(dex@),
    {
        if dex.len() < HEADER_LEN {
            return Err(DexError::TooShort);
        }
        if !octets::matches_at(dex, 0, &DEX_MAGIC_PREFIX) {
            return Err(DexError::BadMagic);
        }
        let endian: u32 = octets::read_le32(dex, 0x28);
        if endian != ENDIAN_CONSTANT {
            return Err(DexError::UnsupportedEndian(endian));
        }
        Ok(
            DexHeader {
                string_ids_size: octets::read_le32(dex, 0x38),
                string_ids_off: octets::read_le32(dex, 0x3c),
                type_ids_size: octets::read_le32(dex, 0x40),
                type_ids_off: octets::read_le32(dex, 0x44),
                field_ids_size: octets::read_le32(dex, 0x50),
                field_ids_off: octets::read_le32(dex, 0x54),
                class_defs_size: octets::read_le32(dex, 0x60),
                class_defs_off: octets::read_le32(dex, 0x64),
            },
        )
    }
}

// ---- String, type and field lookups ----------------------------------------

/// The first entry from `i` on, of `n`, that `probe` accepts. An entry that
/// cannot be read ends the search with its error.
pub open spec fn first_entry(
    probe: spec_fn(int) -> Result<bool, DexError>,
    i: int,
    n: int,
) -> Result<Option<u32>, DexError>
    decreases n - i,
{
    if i >= n {
        Ok(None)
    } else {
        match probe(i) {
            Err(e) => Err(e),
            Ok(true) => Ok(Some(i as u32)),
            Ok(false) => first_entry(probe, i + 1, n),
        }
    }
}

/// Whether string id `i` is `text`. The string data is a length, the text and
/// a zero byte.
pub open spec fn string_entry(dex: Seq<u8>, h: DexHeader, text: Seq<char>, i: int) -> Result<
    bool,
    DexError,
> {
    match u32_field(dex, h.string_ids_off + 4 * i) {
        Err(e) => Err(e),
        Ok(data_off) => match uleb128_field(dex, data_off as int) {
            Err(e) => Err(e),
            Ok((start, _)) => Ok(octets::stands_at(dex, start, utf8::encode_utf8(text).push(0))),
        },
    }
}

/// The string id of `text`.
pub open spec fn string_idx(dex: Seq<u8>, h: DexHeader, text: Seq<char>) -> Result<
    Option<u32>,
    DexError,
> {
    first_entry(|i: int| string_entry(dex, h, text, i), 0, h.string_ids_size as int)
}

/// Whether type id `i` is described by string id `descriptor`.
pub open spec fn type_entry(dex: Seq<u8>, h: DexHeader, descriptor: u32, i: int) -> Result<
    bool,
    DexError,
> {
    match u32_field(dex, h.type_ids_off + 4 * i) {
        Err(e) => Err(e),
        Ok(s) => Ok(s == descriptor),
    }
}

/// The type id that string id `descriptor` describes.
pub open spec fn type_idx(dex: Seq<u8>, h: DexHeader, descriptor: u32) -> Result<
    Option<u32>,
    DexError,
> {
    first_entry(|i: int| type_entry(dex, h, descriptor, i), 0, h.type_ids_size as int)
}

/// Whether field id `i` has this class, type and name.
pub open spec fn field_entry(
    dex: Seq<u8>,
    h: DexHeader,
    class: u32,
    name: u32,
    ty: u32,
    i: int,
) -> Result<bool, DexError> {
    let entry = h.field_ids_off + 8 * i;
    match (u16_field(dex, entry), u16_field(dex, entry + 2), u32_field(dex, entry + 4)) {
        (Err(e), _, _) => Err(e),
        (_, Err(e), _) => Err(e),
        (_, _, Err(e)) => Err(e),
        (Ok(c), Ok(t), Ok(n)) => Ok(c == class && t == ty && n == name),
    }
}

/// The field id with this class, type and name.
pub open spec fn field_idx(dex: Seq<u8>, h: DexHeader, class: u32, name: u32, ty: u32) -> Result<
    Option<u32>,
    DexError,
> {
    if class > u16::MAX || ty > u16::MAX {
        Err(DexError::TypeIndexOutOfRange)
    } else {
        first_entry(|i: int| field_entry(dex, h, class, name, ty, i), 0, h.field_ids_size as int)
    }
}

pub fn find_string_idx(dex: &[u8], h: &DexHeader, needle: &str) -> (r: Result<
    Option<u32>,
    DexError,
>)
    ensures
        r == string_idx(dex@, *h, needle@),
{
    let text: &[u8] = needle.as_bytes();
    let ghost probe = |i: int| string_entry(dex@, *h, needle@, i);
    let mut i: u32 = 0;
    while i < h.string_ids_size
        invariant
            i <= h.string_ids_size,
            text@ == utf8::encode_utf8(needle@),
            probe == |i: int| string_entry(dex@, *h, needle@, i),
            first_entry(probe, 0, h.string_ids_size as int) == first_entry(
                probe,
                i as int,
                h.string_ids_size as int,
            ),
        decreases h.string_ids_size - i,
    {
        let data_off: u32 = match read_u32(dex, h.string_ids_off as u64 + 4 * (i as u64)) {
            Ok(v) => v,
            Err(e) => return Err(e),
        };
        let start: u64 = match read_uleb128(dex, data_off as u64) {
            Ok((next, _)) => next,
            Err(e) => return Err(e),
        };
        assert(start <= dex.len());
        let start: usize = start as usize;
        let found: bool = octets::matches_at(dex, start, text) && start + text.len() < dex.len()
            && dex[start + text.len()] == 0;
        proof {
            let whole = text@.push(0);
            if octets::stands_at(dex@, start as int, whole) {
                let tail = dex@.subrange(start as int, start + whole.len());
                assert(dex@.subrange(start as int, start + text@.len()) =~= tail.drop_last());
                assert(whole.drop_last() =~= text@);
                assert(dex@[start + text@.len()] == tail.last());
            }
            if found {
                assert(dex@.subrange(start as int, start + whole.len()) =~= whole);
            }
        }
        if found {
            return Ok(Some(i));
        }
        i += 1;
    }
    Ok(None)
}

pub fn find_type_idx(dex: &[u8], h: &DexHeader, descriptor_string_idx: u32) -> (r: Result<
    Option<u32>,
    DexError,
>)
    ensures
        r == type_idx(dex@, *h, descriptor_string_idx),
{
    let ghost probe = |i: int| type_entry(dex@, *h, descriptor_string_idx, i);
    let mut i: u32 = 0;
    while i < h.type_ids_size
        invariant
            i <= h.type_ids_size,
            probe == |i: int| type_entry(dex@, *h, descriptor_string_idx, i),
            first_entry(probe, 0, h.type_ids_size as int) == first_entry(
                probe,
                i as int,
                h.type_ids_size as int,
            ),
        decreases h.type_ids_size - i,
    {
        match read_u32(dex, h.type_ids_off as u64 + 4 * (i as u64)) {
            Ok(s) => {
                if s == descriptor_string_idx {
                    return Ok(Some(i));
                }
            },
            Err(e) => return Err(e),
        }
        i += 1;
    }
    Ok(None)
}

pub fn find_field_idx(
    dex: &[u8],
    h: &DexHeader,
    class_type_idx: u32,
    name_string_idx: u32,
    type_idx: u32,
) -> (r: Result<Option<u32>, DexError>)
    ensures
        r == field_idx(dex@, *h, class_type_idx, name_string_idx, type_idx),
{
    if class_type_idx > u16::MAX as u32 || type_idx > u16::MAX as u32 {
        return Err(DexError::TypeIndexOutOfRange);
    }
    let ghost probe = |i: int|
        field_entry(dex@, *h, class_type_idx, name_string_idx, type_idx, i);
    let mut i: u32 = 0;
    while i < h.field_ids_size
        invariant
            i <= h.field_ids_size,
            class_type_idx <= u16::MAX && type_idx <= u16::MAX,
            probe == |i: int|
                field_entry(dex@, *h, class_type_idx, name_string_idx, type_idx, i),
            first_entry(probe, 0, h.field_ids_size as int) == first_entry(
                probe,
                i as int,
                h.field_ids_size as int,
            ),
        decreases h.field_ids_size - i,
    {
        let entry: u64 = h.field_ids_off as u64 + 8 * (i as u64);
        let class_idx: u16 = match read_u16(dex, entry) {
            Ok(v) => v,
            Err(e) => return Err(e),
        };
        let t_idx: u16 = match read_u16(dex, entry + 2) {
            Ok(v) => v,
            Err(e) => return Err(e),
        };
        let n_idx: u32 = match read_u32(dex, entry + 4) {
            Ok(v) => v,
            Err(e) => return Err(e),
        };
        if class_idx as u32 == class_type_idx && t_idx as u32 == type_idx && n_idx
            == name_string_idx {
            return Ok(Some(i));
        }
        i += 1;
    }
    Ok(None)
}

// ---- Instruction streams ---------------------------------------------------

/// The length of each instruction in 16-bit code units, by opcode; 0 where the
/// opcode is unused.
pub const OPCODE_LENGTH_CODE_UNITS: [u8; 256] = [
    1, 1, 2, 3, 1, 2, 3, 1, 2, 3, 1, 1, 1, 1, 1, 1,  // 0x00-0x0f
    1, 1, 1, 2, 3, 2, 2, 3, 5, 2, 2, 3, 2, 1, 1, 2,  // 0x10-0x1f
    2, 1, 2, 2, 3, 3, 3, 1, 1, 2, 3, 3, 3, 2, 2, 2,  // 0x20-0x2f
    2, 2, 2, 2, 2, 2, 2, 2, 2, 2, 2, 2, 2, 2, 0, 0,  // 0x30-0x3f
    0, 0, 0, 0, 2, 2, 2, 2, 2, 2, 2, 2, 2, 2, 2, 2,  // 0x40-0x4f
    2, 2, 2, 2, 2, 2, 2, 2, 2, 2, 2, 2, 2, 2, 2, 2,  // 0x50-0x5f
    2, 2, 2, 2, 2, 2, 2, 2, 2, 2, 2, 2, 2, 2, 3, 3,  // 0x60-0x6f
    3, 3, 3, 0, 3, 3, 3, 3, 3, 0, 0, 1, 1, 1, 1, 1,  // 0x70-0x7f
    1, 1, 1, 1, 1, 1, 1, 1, 1, 1, 1, 1, 1, 1, 1, 1,  // 0x80-0x8f
    2, 2, 2, 2, 2, 2, 2, 2, 2, 2, 2, 2, 2, 2, 2, 2,  // 0x90-0x9f
    2, 2, 2, 2, 2, 2, 2, 2, 2, 2, 2, 2, 2, 2, 2, 2,  // 0xa0-0xaf
    1, 1, 1, 1, 1, 1, 1, 1, 1, 1, 1, 1, 1, 1, 1, 1,  // 0xb0-0xbf
    1, 1, 1, 1, 1, 1, 1, 1, 1, 1, 1, 1, 1, 1, 1, 1,  // 0xc0-0xcf
    2, 2, 2, 2, 2, 2, 2, 2, 2, 2, 2, 2, 2, 2, 2, 2,  // 0xd0-0xdf
    2, 2, 2, 2, 2, 2, 2, 2, 2, 2, 2, 2, 1, 2, 3, 3,  // 0xe0-0xef
    3, 1, 2, 0, 0, 0, 0, 0, 0, 0, 4, 4, 3, 3, 2, 2,  // 0xf0-0xff
];

/// The number of bytes of the payload whose first code unit, `ident << 8`,
/// stands at `i`; nothing where the stream ends before its size.
pub open spec fn payload_len(insns: Seq<u8>, i: int) -> Option<int> {
    if insns[i + 1] == 1 {
        // packed-switch: size, first key, targets
        if i + 4 > insns.len() {
            None
        } else {
            Some(2 * (4 + 2 * octets::le16_at(insns, i + 2)))
        }
    } else if insns[i + 1] == 2 {
        // sparse-switch: size, keys, targets
        if i + 4 > insns.len() {
            None
        } else {
            Some(2 * (2 + 4 * octets::le16_at(insns, i + 2)))
        }
    } else if insns[i + 1] == 3 {
        // fill-array-data: element width, size, elements up to a whole code unit
        if i + 8 > insns.len() {
            None
        } else {
            let data = octets::le32_at(insns, i + 4) as nat * octets::le16_at(insns, i + 2) as nat;
            Some(2 * (4 + (data + 1) / 2) as int)
        }
    } else {
        // nop
        Some(2)
    }
}

/// The number of bytes of the instruction at `i`; nothing where the walk over
/// the stream ends there. An unused opcode counts as one code unit.
pub open spec fn instruction_len(insns: Seq<u8>, i: int) -> Option<int> {
    let units = OPCODE_LENGTH_CODE_UNITS@[insns[i] as int];
    if i + 2 > insns.len() {
        None
    } else if insns[i] == 0 {
        payload_len(insns, i)
    } else if units == 0 {
        Some(2)
    } else if i + 2 * units > insns.len() {
        None
    } else {
        Some(2 * units as int)
    }
}

/// Whether the instruction at `i` is a two-unit `sget` of any kind that reads
/// field id `field`.
pub open spec fn reads_field(insns: Seq<u8>, i: int, field: u32) -> bool {
    &&& 0x60 <= insns[i] <= 0x66
    &&& instruction_len(insns, i) == Some(4int)
    &&& octets::le16_at(insns, i + 2) == field
}

/// The offsets, from `i` on, of the instructions that read field id `field`.
pub open spec fn read_sites(insns: Seq<u8>, field: u32, i: int) -> Seq<int>
    decreases
            if i < insns.len() {
                insns.len() - i
            } else {
                0
            },
{
    match instruction_len(insns, i) {
        None => Seq::empty(),
        Some(n) => if reads_field(insns, i, field) {
            seq![i] + read_sites(insns, field, i + n)
        } else {
            read_sites(insns, field, i + n)
        },
    }
}

/// `insns` with the instruction at `i` made `const/16 vAA, #35`; the register
/// byte behind the opcode stays.
pub open spec fn clamp_one(insns: Seq<u8>, i: int) -> Seq<u8> {
    let literal = octets::le16(CLAMPED_SDK_INT as u16);
    insns.update(i, 0x13).update(i + 2, literal[0]).update(i + 3, literal[1])
}

/// `insns` with the instruction at each of `sites` clamped.
pub open spec fn clamp_all(insns: Seq<u8>, sites: Seq<int>) -> Seq<u8>
    decreases sites.len(),
{
    if sites.len() == 0 {
        insns
    } else {
        clamp_one(clamp_all(insns, sites.drop_last()), sites.last())
    }
}

/// How many bytes of `s` have the value of an `sget` opcode.
pub open spec fn sget_bytes(s: Seq<u8>) -> nat
    decreases s.len(),
{
    if s.len() == 0 {
        0
    } else {
        sget_bytes(s.drop_last()) + if 0x60 <= s.last() <= 0x66 {
            1nat
        } else {
            0nat
        }
    }
}

proof fn lemma_sget_bytes_update(s: Seq<u8>, i: int, b: u8)
    requires
        0 <= i < s.len(),
    ensures
        sget_bytes(s.update(i, b)) == sget_bytes(s) - (if 0x60 <= s[i] <= 0x66 {
            1int
        } else {
            0int
        }) + (if 0x60 <= b <= 0x66 {
            1int
        } else {
            0int
        }),
    decreases s.len(),
{
    if i == s.len() - 1 {
        assert(s.update(i, b).drop_last() =~= s.drop_last());
    } else {
        lemma_sget_bytes_update(s.drop_last(), i, b);
        assert(s.update(i, b).drop_last() =~= s.drop_last().update(i, b));
    }
}

proof fn lemma_sget_bytes_concat(a: Seq<u8>, b: Seq<u8>)
    ensures
        sget_bytes(a + b) == sget_bytes(a) + sget_bytes(b),
    decreases b.len(),
{
    if b.len() == 0 {
        assert(a + b =~= a);
    } else {
        lemma_sget_bytes_concat(a, b.drop_last());
        assert((a + b).drop_last() =~= a + b.drop_last());
    }
}

proof fn lemma_sget_bytes_bound(s: Seq<u8>)
    ensures
        sget_bytes(s) <= s.len(),
    decreases s.len(),
{
    if s.len() > 0 {
        lemma_sget_bytes_bound(s.drop_last());
    }
}

/// Clamping an `sget` leaves fewer bytes that look like one.
proof fn lemma_clamp_one(s: Seq<u8>, i: int)
    requires
        0 <= i,
        i + 4 <= s.len(),
        0x60 <= s[i] <= 0x66,
    ensures
        sget_bytes(clamp_one(s, i)) < sget_bytes(s),
{
    let literal = octets::le16(CLAMPED_SDK_INT as u16);
    lemma_sget_bytes_update(s, i, 0x13);
    lemma_sget_bytes_update(s.update(i, 0x13), i + 2, literal[0]);
    lemma_sget_bytes_update(s.update(i, 0x13).update(i + 2, literal[0]), i + 3, literal[1]);
}

/// Clamps every instruction of `insns` that reads field id `target_field_idx`.
pub fn rewrite_sget_in_insns(insns: &mut [u8], target_field_idx: u32, out: &mut DexPatchResult)
    requires
        old(out).patches + read_sites(old(insns)@, target_field_idx, 0).len() <= usize::MAX,
        old(out).bytes_rewritten + 4 * read_sites(old(insns)@, target_field_idx, 0).len()
            <= usize::MAX,
    ensures
        final(insns)@ == clamp_all(
            old(insns)@,
            read_sites(old(insns)@, target_field_idx, 0),
        ),
        final(insns)@.len() == old(insns)@.len(),
        final(out).patches == old(out).patches + read_sites(
            old(insns)@,
            target_field_idx,
            0,
        ).len(),
        final(out).bytes_rewritten == old(out).bytes_rewritten + 4 * read_sites(
            old(insns)@,
            target_field_idx,
            0,
        ).len(),
        read_sites(old(insns)@, target_field_idx, 0).len() + sget_bytes(final(insns)@)
            <= sget_bytes(old(insns)@),
{
    let ghost whole = insns@;
    let ghost sites = read_sites(whole, target_field_idx, 0);
    let ghost mut done: Seq<int> = Seq::empty();
    let len: usize = insns.len();
    let mut i: usize = 0;
    assert(done + sites =~= sites);
    while len >= 2 && i <= len - 2
        invariant
            len == insns@.len() == whole.len(),
            forall|j: int| i <= j < len ==> insns@[j] == whole[j],
            insns@ == clamp_all(whole, done),
            sites == read_sites(whole, target_field_idx, 0),
            sites == done + read_sites(whole, target_field_idx, i as int),
            done.len() + sget_bytes(insns@) <= sget_bytes(whole),
            old(out).patches + sites.len() <= usize::MAX,
            old(out).bytes_rewritten + 4 * sites.len() <= usize::MAX,
            out.patches == old(out).patches + done.len(),
            out.bytes_rewritten == old(out).bytes_rewritten + 4 * done.len(),
        ensures
            insns@.len() == whole.len(),
            insns@ == clamp_all(whole, done),
            done.len() + sget_bytes(insns@) <= sget_bytes(whole),
            out.patches == old(out).patches + done.len(),
            out.bytes_rewritten == old(out).bytes_rewritten + 4 * done.len(),
            sites == done,
        decreases len - i,
    {
        let opcode: u8 = insns[i];
        let n: u64 = if opcode == 0 {
            let ident: u8 = insns[i + 1];
            if ident == 1 || ident == 2 {
                if len - i < 4 {
                    assert(done + Seq::<int>::empty() =~= done);
                    break;
                }
                let size: u64 = octets::read_le16(insns, i + 2) as u64;
                if ident == 1 {
                    2 * (4 + 2 * size)
                } else {
                    2 * (2 + 4 * size)
                }
            } else if ident == 3 {
                if len - i < 8 {
                    assert(done + Seq::<int>::empty() =~= done);
                    break;
                }
                let element_width: u64 = octets::read_le16(insns, i + 2) as u64;
                let size: u64 = octets::read_le32(insns, i + 4) as u64;
                assert(0 <= size * element_width <= 0xffff_ffff * 0xffff) by (nonlinear_arith)
                    requires
                        0 <= size <= 0xffff_ffff,
                        0 <= element_width <= 0xffff,
                ;
                2 * (4 + (size * element_width + 1) / 2)
            } else {
                2
            }
        } else {
            let units: u8 = OPCODE_LENGTH_CODE_UNITS[opcode as usize];
            if units == 0 {
                2
            } else {
                let inst_bytes: usize = 2 * (units as usize);
                if len - i < inst_bytes {
                    assert(done + Seq::<int>::empty() =~= done);
                    break;
                }
                inst_bytes as u64
            }
        };
        assert(instruction_len(whole, i as int) == Some(n as int));
        let ghost before = done;
        assert(done.len() + read_sites(whole, target_field_idx, i as int).len() == sites.len());
        if 0x60 <= opcode && opcode <= 0x66 && n == 4 {
            let field_idx: u32 = octets::read_le16(insns, i + 2) as u32;
            if field_idx == target_field_idx {
                proof {
                    lemma_clamp_one(insns@, i as int);
                    done = done.push(i as int);
                    assert(done.drop_last() =~= before);
                }
                insns[i] = 0x13;
                insns[i + 2] = (CLAMPED_SDK_INT as u16 % 256) as u8;
                insns[i + 3] = (CLAMPED_SDK_INT as u16 / 256) as u8;
                out.patches += 1;
                out.bytes_rewritten += 4;
            }
        }
        proof {
            let rest = read_sites(whole, target_field_idx, i + n);
            assert(before + (seq![i as int] + rest) =~= before.push(i as int) + rest);
        }
        if n > (len - i) as u64 {
            assert(read_sites(whole, target_field_idx, i + n) =~= Seq::<int>::empty());
            assert(done + Seq::<int>::empty() =~= done);
            break;
        }
        i += n as usize;
    }
}

// ---- Code items ------------------------------------------------------------

/// `dex` with the instruction stream from `start` to `end` clamped.
pub open spec fn clamp_code(dex: Seq<u8>, start: int, end: int, field: u32) -> Seq<u8> {
    let insns = dex.subrange(start, end);
    dex.subrange(0, start) + clamp_all(insns, read_sites(insns, field, 0)) + dex.subrange(
        end,
        dex.len() as int,
    )
}

/// What walking the `n` methods listed from `p` on makes of `dex`, how many
/// instructions it clamps, and how many methods with code there are. A method is
/// two numbers and the offset of its code item, 0 if it has none. The walk ends at
/// the first method that cannot be read, and gives no number of methods then; what
/// was clamped before stays.
pub open spec fn walk_methods(dex: Seq<u8>, p: int, n: int, field: u32) -> (
    Seq<u8>,
    nat,
    Option<nat>,
)
    decreases n,
{
    if n <= 0 {
        (dex, 0, Some(0))
    } else {
        match skip_ulebs(dex, p, 2) {
            None => (dex, 0, None),
            Some(q) => match uleb128_field(dex, q) {
                Err(_) => (dex, 0, None),
                Ok((next, code_off)) => if code_off == 0 {
                    walk_methods(dex, next, n - 1, field)
                } else {
                    match u32_field(dex, code_off + 12) {
                        Err(_) => (dex, 0, None),
                        Ok(size) => {
                            let start = code_off + 16;
                            let end = start + 2 * size;
                            if end > dex.len() {
                                (dex, 0, None)
                            } else {
                                let k = read_sites(dex.subrange(start, end), field, 0).len();
                                let rest = walk_methods(
                                    clamp_code(dex, start, end, field),
                                    next,
                                    n - 1,
                                    field,
                                );
                                (
                                    rest.0,
                                    k + rest.1,
                                    match rest.2 {
                                        Some(m) => Some(m + 1),
                                        None => None,
                                    },
                                )
                            }
                        },
                    }
                },
            },
        }
    }
}

/// What walking the class data at `off` makes of `dex`, how many instructions it
/// clamps, and how many methods with code it has, where all of it can be read. Class
/// data is four counts, two numbers for each field and then the methods.
pub open spec fn walk_class(dex: Seq<u8>, off: int, field: u32) -> (Seq<u8>, nat, Option<nat>) {
    match uleb128_field(dex, off) {
        Err(_) => (dex, 0, None),
        Ok((p1, static_fields)) => match uleb128_field(dex, p1) {
            Err(_) => (dex, 0, None),
            Ok((p2, instance_fields)) => match uleb128_field(dex, p2) {
                Err(_) => (dex, 0, None),
                Ok((p3, direct_methods)) => match uleb128_field(dex, p3) {
                    Err(_) => (dex, 0, None),
                    Ok((p4, virtual_methods)) => match skip_ulebs(
                        dex,
                        p4,
                        2 * (static_fields + instance_fields),
                    ) {
                        None => (dex, 0, None),
                        Some(q) => walk_methods(dex, q, direct_methods + virtual_methods, field),
                    },
                },
            },
        },
    }
}

/// What walking class definition number `i` makes of `dex`, how many instructions it
/// clamps, and whether the class could be read; nothing where it has no class data.
pub open spec fn walk_definition(dex: Seq<u8>, h: DexHeader, i: int, field: u32) -> (
    Seq<u8>,
    nat,
    Option<bool>,
) {
    match u32_field(dex, h.class_defs_off + 32 * i + 24) {
        Err(_) => (dex, 0, Some(false)),
        Ok(off) => if off == 0 {
            (dex, 0, None)
        } else {
            let walked = walk_class(dex, off as int, field);
            (walked.0, walked.1, Some(walked.2 is Some))
        },
    }
}

/// What walking the class definitions from number `i` on makes of `dex`, how many
/// instructions it clamps, how many classes it visits and how many cannot be read. A
/// definition that cannot be read, or that has no class data, is passed over.
pub open spec fn walk_classes(dex: Seq<u8>, h: DexHeader, i: int, field: u32) -> (
    Seq<u8>,
    nat,
    nat,
    nat,
)
    decreases h.class_defs_size - i,
{
    if i >= h.class_defs_size {
        (dex, 0, 0, 0)
    } else {
        let step = walk_definition(dex, h, i, field);
        let rest = walk_classes(step.0, h, i + 1, field);
        (
            rest.0,
            step.1 + rest.1,
            rest.2 + if step.2 == Some(true) {
                1nat
            } else {
                0nat
            },
            rest.3 + if step.2 == Some(false) {
                1nat
            } else {
                0nat
            },
        )
    }
}

/// Skips `n` consecutive `uleb128` numbers.
fn skip_uleb_run(dex: &[u8], from: u64, n: u64) -> (r: Option<u64>)
    ensures
        match r {
            Some(p) => {
                &&& skip_ulebs(dex@, from as int, n as int) == Some(p as int)
                &&& n > 0 ==> p <= dex@.len()
                &&& n == 0 ==> p == from
            },
            None => skip_ulebs(dex@, from as int, n as int) is None,
        },
{
    let mut p: u64 = from;
    let mut left: u64 = n;
    while left > 0
        invariant
            left <= n,
            left < n ==> p <= dex@.len(),
            left == n ==> p == from,
            skip_ulebs(dex@, from as int, n as int) == skip_ulebs(dex@, p as int, left as int),
        decreases left,
    {
        match read_uleb128(dex, p) {
            Ok((next, _)) => {
                p = next;
            },
            Err(_) => return None,
        }
        left -= 1;
    }
    Some(p)
}

/// Instructions that read a field take four bytes each, so that they are at most a
/// fourth as many as the bytes of their stream.
proof fn lemma_sites_room(insns: Seq<u8>, field: u32, i: int)
    requires
        0 <= i,
    ensures
        4 * read_sites(insns, field, i).len() <= if i < insns.len() {
            insns.len() - i
        } else {
            0
        },
    decreases
            if i < insns.len() {
                insns.len() - i
            } else {
                0
            },
{
    if let Some(n) = instruction_len(insns, i) {
        lemma_sites_room(insns, field, i + n);
    }
}

/// Clamps the instruction stream from `start` to `end`, and counts the instructions.
fn rewrite_code(dex: &mut [u8], start: usize, end: usize, field_idx: u32, patches: &mut usize)
    requires
        start <= end <= old(dex)@.len(),
        *old(patches) + sget_bytes(old(dex)@) <= usize::MAX,
    ensures
        final(dex)@ == clamp_code(old(dex)@, start as int, end as int, field_idx),
        final(dex)@.len() == old(dex)@.len(),
        ({
            let k = read_sites(
                old(dex)@.subrange(start as int, end as int),
                field_idx,
                0,
            ).len();
            &&& *final(patches) == *old(patches) + k
            &&& k + sget_bytes(final(dex)@) <= sget_bytes(old(dex)@)
        }),
{
    let ghost whole = dex@;
    let ghost head = whole.subrange(0, start as int);
    let ghost mid = whole.subrange(start as int, end as int);
    let ghost tail = whole.subrange(end as int, whole.len() as int);
    proof {
        assert(whole =~= head + mid + tail);
        lemma_sget_bytes_concat(head + mid, tail);
        lemma_sget_bytes_concat(head, mid);
    }
    let (first, rest) = dex.split_at_mut(start);
    let (insns, last) = rest.split_at_mut(end - start);
    assert(insns@ =~= mid);
    assert(last@ =~= tail);
    proof {
        lemma_sites_room(mid, field_idx, 0);
    }
    let mut part: DexPatchResult = DexPatchResult::default();
    rewrite_sget_in_insns(insns, field_idx, &mut part);
    *patches += part.patches;
    let ghost clamped = clamp_all(mid, read_sites(mid, field_idx, 0));
    proof {
        assert(dex@ =~= head + clamped + tail);
        lemma_sget_bytes_concat(head + clamped, tail);
        lemma_sget_bytes_concat(head, clamped);
    }
}

/// Walks the class data at `class_data_off`. Gives the number of its methods with
/// code, or nothing where it cannot be read to its end.
fn walk_one_class_data(
    dex: &mut [u8],
    class_data_off: u32,
    field_idx: u32,
    patches: &mut usize,
) -> (r: Option<u64>)
    requires
        *old(patches) + sget_bytes(old(dex)@) <= usize::MAX,
    ensures
        match walk_class(old(dex)@, class_data_off as int, field_idx).2 {
            Some(m) => r == Some(m as u64) && m <= u64::MAX,
            None => r is None,
        },
        final(dex)@ == walk_class(old(dex)@, class_data_off as int, field_idx).0,
        final(dex)@.len() == old(dex)@.len(),
        ({
            let k = walk_class(old(dex)@, class_data_off as int, field_idx).1;
            &&& *final(patches) == *old(patches) + k
            &&& k + sget_bytes(final(dex)@) <= sget_bytes(old(dex)@)
        }),
{
    let ghost whole = dex@;
    let (p1, static_fields_size) = match read_uleb128(dex, class_data_off as u64) {
        Ok(v) => v,
        Err(_) => return None,
    };
    let (p2, instance_fields_size) = match read_uleb128(dex, p1) {
        Ok(v) => v,
        Err(_) => return None,
    };
    let (p3, direct_methods_size) = match read_uleb128(dex, p2) {
        Ok(v) => v,
        Err(_) => return None,
    };
    let (p4, virtual_methods_size) = match read_uleb128(dex, p3) {
        Ok(v) => v,
        Err(_) => return None,
    };
    let fields: u64 = static_fields_size as u64 + instance_fields_size as u64;
    let mut p: u64 = match skip_uleb_run(dex, p4, 2 * fields) {
        Some(p) => p,
        None => return None,
    };
    let total: u64 = direct_methods_size as u64 + virtual_methods_size as u64;
    let mut left: u64 = total;
    let mut methods: u64 = 0;
    let ghost all = walk_methods(whole, p as int, left as int, field_idx);
    assert(all == walk_class(whole, class_data_off as int, field_idx));
    let ghost mut k: nat = 0;
    while left > 0
        invariant
            dex@.len() == whole.len(),
            whole == old(dex)@,
            methods + left <= total,
            all == walk_class(whole, class_data_off as int, field_idx),
            all.0 == walk_methods(dex@, p as int, left as int, field_idx).0,
            all.1 == k + walk_methods(dex@, p as int, left as int, field_idx).1,
            all.2 == match walk_methods(dex@, p as int, left as int, field_idx).2 {
                Some(m) => Some((methods + m) as nat),
                None => None,
            },
            *patches == *old(patches) + k,
            k + sget_bytes(dex@) <= sget_bytes(whole),
            *old(patches) + sget_bytes(whole) <= usize::MAX,
        decreases left,
    {
        let q: u64 = match skip_uleb_run(dex, p, 2) {
            Some(q) => q,
            None => return None,
        };
        let (next, code_off) = match read_uleb128(dex, q) {
            Ok(v) => v,
            Err(_) => return None,
        };
        if code_off != 0 {
            let insns_size: u32 = match read_u32(dex, code_off as u64 + 12) {
                Ok(v) => v,
                Err(_) => return None,
            };
            let start: u64 = code_off as u64 + 16;
            let end: u64 = start + 2 * (insns_size as u64);
            if end > dex.len() as u64 {
                return None;
            }
            proof {
                k = k + read_sites(
                    dex@.subrange(start as int, end as int),
                    field_idx,
                    0,
                ).len();
            }
            rewrite_code(dex, start as usize, end as usize, field_idx, patches);
            methods += 1;
        }
        p = next;
        left -= 1;
    }
    Some(methods)
}

/// How a walk over the classes went.
#[derive(Debug, Clone, Copy, PartialEq, Eq, Structural)]
struct ClassCounts {
    /// Classes whose data was read to its end.
    visited: u32,
    /// Classes that could not be read.
    failed: u32,
}

/// Walks every class definition, and clamps every instruction met on the way
/// that reads field id `field_idx`.
fn walk_code_items(
    dex: &mut [u8],
    h: &DexHeader,
    field_idx: u32,
    patches: &mut usize,
) -> (r: ClassCounts)
    requires
        *old(patches) + sget_bytes(old(dex)@) <= usize::MAX,
    ensures
        final(dex)@ == walk_classes(old(dex)@, *h, 0, field_idx).0,
        final(dex)@.len() == old(dex)@.len(),
        *final(patches) == *old(patches) + walk_classes(old(dex)@, *h, 0, field_idx).1,
        *final(patches) + sget_bytes(final(dex)@) <= *old(patches) + sget_bytes(old(dex)@),
        r.visited == walk_classes(old(dex)@, *h, 0, field_idx).2,
        r.failed == walk_classes(old(dex)@, *h, 0, field_idx).3,
{
    let ghost whole = dex@;
    let ghost all = walk_classes(whole, *h, 0, field_idx);
    let ghost mut k: nat = 0;
    let mut counts: ClassCounts = ClassCounts { visited: 0, failed: 0 };
    let mut i: u32 = 0;
    while i < h.class_defs_size
        invariant
            i <= h.class_defs_size,
            counts.visited + counts.failed <= i,
            dex@.len() == whole.len(),
            whole == old(dex)@,
            all == walk_classes(whole, *h, 0, field_idx),
            all.0 == walk_classes(dex@, *h, i as int, field_idx).0,
            all.1 == k + walk_classes(dex@, *h, i as int, field_idx).1,
            all.2 == counts.visited + walk_classes(dex@, *h, i as int, field_idx).2,
            all.3 == counts.failed + walk_classes(dex@, *h, i as int, field_idx).3,
            *patches == *old(patches) + k,
            k + sget_bytes(dex@) <= sget_bytes(whole),
            *old(patches) + sget_bytes(whole) <= usize::MAX,
        decreases h.class_defs_size - i,
    {
        let entry: u64 = h.class_defs_off as u64 + 32 * (i as u64) + 24;
        match read_u32(dex, entry) {
            Ok(class_data_off) => {
                if class_data_off != 0 {
                    proof {
                        k = k + walk_class(dex@, class_data_off as int, field_idx).1;
                    }
                    match walk_one_class_data(dex, class_data_off, field_idx, patches) {
                        Some(_) => {
                            counts.visited += 1;
                        },
                        None => {
                            counts.failed += 1;
                        },
                    }
                }
            },
            Err(_) => {
                counts.failed += 1;
            },
        }
        i += 1;
    }
    counts
}

// ---- Header checksums ------------------------------------------------------

/// The low half of the Adler-32 checksum: one more than the sum of the bytes.
pub open spec fn adler_low(s: Seq<u8>) -> int
    decreases s.len(),
{
    if s.len() == 0 {
        1
    } else {
        (adler_low(s.drop_last()) + s.last()) % 65521
    }
}

/// The high half of the Adler-32 checksum: the sum of the low halves of all
/// prefixes but the empty one.
pub open spec fn adler_high(s: Seq<u8>) -> int
    decreases s.len(),
{
    if s.len() == 0 {
        0
    } else {
        (adler_high(s.drop_last()) + adler_low(s)) % 65521
    }
}

/// The Adler-32 checksum of `s`.
pub open spec fn adler32_of(s: Seq<u8>) -> u32 {
    (65536 * adler_high(s) + adler_low(s)) as u32
}

pub fn adler32(buf: &[u8]) -> (r: u32)
    ensures
        r == adler32_of(buf@),
{
    let mut a: u32 = 1;
    let mut b: u32 = 0;
    let mut i: usize = 0;
    while i < buf.len()
        invariant
            i <= buf@.len(),
            a == adler_low(buf@.subrange(0, i as int)),
            b == adler_high(buf@.subrange(0, i as int)),
            a < 65521,
            b < 65521,
        decreases buf@.len() - i,
    {
        assert(buf@.subrange(0, i + 1).drop_last() =~= buf@.subrange(0, i as int));
        a = (a + buf[i] as u32) % 65521;
        b = (b + a) % 65521;
        i += 1;
    }
    assert(buf@.subrange(0, i as int) =~= buf@);
    65536 * b + a
}

/// `dex` with `sha` as its header's digest, and the checksum of what follows the
/// checksum.
pub open spec fn with_checksums(dex: Seq<u8>, sha: Seq<u8>) -> Seq<u8> {
    let signed = octets::overwritten(dex, 12, sha);
    octets::overwritten(
        signed,
        8,
        octets::le32(adler32_of(signed.subrange(12, signed.len() as int))),
    )
}

/// `dex` with its header's digest and checksum brought up to date: the SHA-1
/// of what follows the digest, and the Adler-32 of what follows the checksum.
pub open spec fn sealed(dex: Seq<u8>) -> Seq<u8> {
    with_checksums(dex, digest::sha1_of(dex.subrange(32, dex.len() as int)))
}

/// Whether the header's digest and checksum are those of the file.
pub open spec fn seal_holds(dex: Seq<u8>) -> bool {
    &&& dex.subrange(12, 32) == digest::sha1_of(dex.subrange(32, dex.len() as int))
    &&& octets::le32_at(dex, 8) == adler32_of(dex.subrange(12, dex.len() as int))
}

/// Writes `sha` and the Adler-32 checksum of what follows it to the header.
pub fn write_header_checksums(dex: &mut [u8], sha: &[u8])
    requires
        HEADER_LEN <= old(dex)@.len(),
        sha@.len() == 20,
    ensures
        final(dex)@ == with_checksums(old(dex)@, sha@),
        final(dex)@.len() == old(dex)@.len(),
        final(dex)@.subrange(12, 32) == sha@,
        final(dex)@.subrange(32, final(dex)@.len() as int) == old(dex)@.subrange(
            32,
            old(dex)@.len() as int,
        ),
        octets::le32_at(final(dex)@, 8) == adler32_of(
            final(dex)@.subrange(12, final(dex)@.len() as int),
        ),
        forall|b: int|
            0 <= b < old(dex)@.len() && !(8 <= b < 32) ==> #[trigger] final(dex)@[b] == old(
                dex,
            )@[b],
{
    let ghost whole = dex@;
    let n: usize = dex.len();
    octets::overwrite(dex, 12, sha);
    let ghost signed = dex@;
    let adler: u32 = adler32(&dex[12..n]);
    let mut sum: Vec<u8> = Vec::new();
    octets::push_le32(&mut sum, adler);
    assert(sum@ =~= octets::le32(adler));
    octets::overwrite(dex, 8, &sum);
    proof {
        octets::lemma_le32_read_back(adler);
        assert(dex@.subrange(32, n as int) =~= whole.subrange(32, n as int));
        assert(dex@.subrange(12, 32) =~= sha@);
        assert(dex@.subrange(12, n as int) =~= signed.subrange(12, n as int));
        assert(octets::le32_at(dex@, 8) == octets::le32_at(sum@, 0));
    }
}

fn recompute_header_checksums(dex: &mut [u8])
    requires
        HEADER_LEN <= old(dex)@.len() <= MAX_DIGEST_INPUT,
    ensures
        final(dex)@ == sealed(old(dex)@),
        final(dex)@.len() == old(dex)@.len(),
        seal_holds(final(dex)@),
        forall|b: int|
            0 <= b < old(dex)@.len() && !(8 <= b < 32) ==> #[trigger] final(dex)@[b] == old(
                dex,
            )@[b],
{
    let n: usize = dex.len();
    let sha: Vec<u8> = digest::sha1(&dex[32..n]);
    write_header_checksums(dex, &sha);
}

// ---- Patching --------------------------------------------------------------

/// The field id of `Build.VERSION.SDK_INT`, if the file refers to it.
pub open spec fn sdk_int_field(dex: Seq<u8>, h: DexHeader) -> Result<Option<u32>, DexError> {
    match string_idx(dex, h, "SDK_INT"@) {
        Err(e) => Err(e),
        Ok(None) => Ok(None),
        Ok(Some(name)) => match string_idx(dex, h, "I"@) {
            Err(e) => Err(e),
            Ok(None) => Ok(None),
            Ok(Some(i_str)) => match string_idx(dex, h, "Landroid/os/Build$VERSION;"@) {
                Err(e) => Err(e),
                Ok(None) => Ok(None),
                Ok(Some(build_str)) => match type_idx(dex, h, i_str) {
                    Err(e) => Err(e),
                    Ok(None) => Ok(None),
                    Ok(Some(i_type)) => match type_idx(dex, h, build_str) {
                        Err(e) => Err(e),
                        Ok(None) => Ok(None),
                        Ok(Some(build_type)) => field_idx(dex, h, build_type, name, i_type),
                    },
                },
            },
        },
    }
}

/// What patching makes of `dex`, and how many instructions it clamps.
pub open spec fn patched(dex: Seq<u8>) -> Result<(Seq<u8>, nat), DexError> {
    match header_of(dex) {
        Err(e) => Err(e),
        Ok(h) => match sdk_int_field(dex, h) {
            Err(e) => Err(e),
            Ok(None) => Ok((dex, 0)),
            Ok(Some(field)) => {
                let walked = walk_classes(dex, h, 0, field);
                if walked.1 > 0 {
                    Ok((sealed(walked.0), walked.1))
                } else {
                    Ok((walked.0, walked.1))
                }
            },
        },
    }
}

fn find_sdk_int_field(dex: &[u8], h: &DexHeader) -> (r: Result<Option<u32>, DexError>)
    ensures
        r == sdk_int_field(dex@, *h),
{
    let sdk_int_str: u32 = match find_string_idx(dex, h, "SDK_INT") {
        Ok(Some(i)) => i,
        Ok(None) => return Ok(None),
        Err(e) => return Err(e),
    };
    let i_str: u32 = match find_string_idx(dex, h, "I") {
        Ok(Some(i)) => i,
        Ok(None) => return Ok(None),
        Err(e) => return Err(e),
    };
    let build_ver_str: u32 = match find_string_idx(dex, h, "Landroid/os/Build$VERSION;") {
        Ok(Some(i)) => i,
        Ok(None) => return Ok(None),
        Err(e) => return Err(e),
    };
    let i_type: u32 = match find_type_idx(dex, h, i_str) {
        Ok(Some(i)) => i,
        Ok(None) => return Ok(None),
        Err(e) => return Err(e),
    };
    let build_ver_type: u32 = match find_type_idx(dex, h, build_ver_str) {
        Ok(Some(i)) => i,
        Ok(None) => return Ok(None),
        Err(e) => return Err(e),
    };
    find_field_idx(dex, h, build_ver_type, sdk_int_str, i_type)
}

/// Clamps every read of the field, and seals the file if there was one.
fn clamp_reads(dex: &mut [u8], h: &DexHeader, field_idx: u32) -> (n: usize)
    requires
        HEADER_LEN <= old(dex)@.len() <= MAX_DIGEST_INPUT,
    ensures
        n == walk_classes(old(dex)@, *h, 0, field_idx).1,
        n <= old(dex)@.len(),
        final(dex)@ == (if n > 0 {
            sealed(walk_classes(old(dex)@, *h, 0, field_idx).0)
        } else {
            walk_classes(old(dex)@, *h, 0, field_idx).0
        }),
        n > 0 ==> seal_holds(final(dex)@),
        n == 0 ==> final(dex)@ == old(dex)@,
        final(dex)@.len() == old(dex)@.len(),
        clamping::well_formed(old(dex)@, *h) ==> clamping::all_clamped(
            old(dex)@,
            final(dex)@,
            *h,
            field_idx,
        ) && (n > 0 <==> clamping::some_method_reads(old(dex)@, *h, field_idx)),
{
    let ghost whole = dex@;
    let mut patches: usize = 0;
    proof {
        assert(dex.len() == dex@.len());
        lemma_sget_bytes_bound(dex@);
        lemma_walk_without_patches(dex@, *h, field_idx);
    }
    let _ = walk_code_items(dex, h, field_idx, &mut patches);
    let ghost walked = dex@;
    if patches > 0 {
        recompute_header_checksums(dex);
    }
    proof {
        if clamping::well_formed(whole, *h) {
            clamping::lemma_every_method_is_clamped(whole, *h, field_idx);
            clamping::lemma_header_aside(whole, walked, dex@, *h, field_idx);
        }
    }
    patches
}

/// Patches `dex` in place, and counts the instructions that it clamps. A file that
/// does not refer to `Build.VERSION.SDK_INT` stays as it is; so does one that is
/// refused.
#[verifier::spinoff_prover]
#[verifier::rlimit(40)]
pub fn clamp_dex(dex: &mut [u8]) -> (r: Result<usize, DexError>)
    requires
        old(dex)@.len() <= MAX_DIGEST_INPUT,
    ensures
        match patched(old(dex)@) {
            Ok((bytes, patches)) => {
                &&& final(dex)@ == bytes
                &&& r matches Ok(n) && n == patches && n <= old(dex)@.len() && (n > 0
                    ==> seal_holds(final(dex)@)) && (n == 0 ==> final(dex)@ == old(dex)@)
            },
            Err(e) => final(dex)@ == old(dex)@ && r == Err::<usize, DexError>(e),
        },
        final(dex)@.len() == old(dex)@.len(),
        r matches Ok(n) ==> clamping::well_patched(old(dex)@, final(dex)@, n as int),
{
    let header: DexHeader = match DexHeader::parse(dex) {
        Ok(h) => h,
        Err(e) => return Err(e),
    };
    let field_idx: u32 = match find_sdk_int_field(dex, &header) {
        Ok(Some(i)) => i,
        Ok(None) => return Ok(0),
        Err(e) => return Err(e),
    };
    Ok(clamp_reads(dex, &header, field_idx))
}

/// How many instructions patching clamps.
pub open spec fn patches_of(dex: Seq<u8>) -> nat {
    match header_of(dex) {
        Err(_) => 0,
        Ok(h) => match sdk_int_field(dex, h) {
            Ok(Some(field)) => walk_classes(dex, h, 0, field).1,
            _ => 0,
        },
    }
}

/// Patches `dex` in place. A file that does not refer to
/// `Build.VERSION.SDK_INT` stays as it is; so does one that is refused.
///
/// Where code overlaps itself a byte can be rewritten more than once, so that the
/// number of bytes has to be asked to fit. It does where four times the file's length
/// does ([`lemma_patches_bound`]).
pub fn patch_dex(dex: &mut [u8]) -> (r: Result<DexPatchResult, DexError>)
    requires
        old(dex)@.len() <= MAX_DIGEST_INPUT,
        4 * patches_of(old(dex)@) <= usize::MAX,
    ensures
        match patched(old(dex)@) {
            Ok((bytes, patches)) => {
                &&& final(dex)@ == bytes
                &&& r matches Ok(result) && result.patches == patches && result.bytes_rewritten
                    == 4 * patches && (patches > 0 ==> seal_holds(final(dex)@)) && (patches == 0
                    ==> final(dex)@ == old(dex)@)
            },
            Err(e) => final(dex)@ == old(dex)@ && r == Err::<DexPatchResult, DexError>(e),
        },
        final(dex)@.len() == old(dex)@.len(),
        r matches Ok(result) ==> clamping::well_patched(
            old(dex)@,
            final(dex)@,
            result.patches as int,
        ),
{
    match clamp_dex(dex) {
        Ok(patches) => Ok(DexPatchResult { patches, bytes_rewritten: 4 * patches }),
        Err(e) => Err(e),
    }
}

// ---- What holds of the whole -----------------------------------------------

/// Clamping nothing changes nothing.
proof fn lemma_clamp_code_none(dex: Seq<u8>, start: int, end: int, field: u32)
    requires
        0 <= start <= end <= dex.len(),
        read_sites(dex.subrange(start, end), field, 0).len() == 0,
    ensures
        clamp_code(dex, start, end, field) == dex,
{
    assert(clamp_code(dex, start, end, field) =~= dex);
}

proof fn lemma_methods_without_patches(dex: Seq<u8>, p: int, n: int, field: u32)
    ensures
        walk_methods(dex, p, n, field).1 == 0 ==> walk_methods(dex, p, n, field).0 == dex,
    decreases n,
{
    if n > 0 && walk_methods(dex, p, n, field).1 == 0 {
        if let Some(q) = skip_ulebs(dex, p, 2) {
            if let Ok((next, code_off)) = uleb128_field(dex, q) {
                lemma_methods_without_patches(dex, next, n - 1, field);
                if code_off != 0 {
                    if let Ok(size) = u32_field(dex, code_off + 12) {
                        if code_off + 16 + 2 * size <= dex.len() {
                            lemma_clamp_code_none(
                                dex,
                                code_off + 16,
                                code_off + 16 + 2 * size,
                                field,
                            );
                        }
                    }
                }
            }
        }
    }
}

proof fn lemma_classes_without_patches(dex: Seq<u8>, h: DexHeader, i: int, field: u32)
    ensures
        walk_classes(dex, h, i, field).1 == 0 ==> walk_classes(dex, h, i, field).0 == dex,
    decreases h.class_defs_size - i,
{
    if i < h.class_defs_size {
        lemma_classes_without_patches(dex, h, i + 1, field);
        if let Ok(off) = u32_field(dex, h.class_defs_off + 32 * i + 24) {
            if let Ok((p1, a)) = uleb128_field(dex, off as int) {
                if let Ok((p2, b)) = uleb128_field(dex, p1) {
                    if let Ok((p3, c)) = uleb128_field(dex, p2) {
                        if let Ok((p4, d)) = uleb128_field(dex, p3) {
                            if let Some(q) = skip_ulebs(dex, p4, 2 * (a + b)) {
                                lemma_methods_without_patches(dex, q, c + d, field);
                            }
                        }
                    }
                }
            }
        }
    }
}

/// A walk that clamps no instruction leaves the file as it was.
pub proof fn lemma_walk_without_patches(dex: Seq<u8>, h: DexHeader, field: u32)
    ensures
        walk_classes(dex, h, 0, field).1 == 0 ==> walk_classes(dex, h, 0, field).0 == dex,
{
    lemma_classes_without_patches(dex, h, 0, field);
}

proof fn lemma_clamp_first(insns: Seq<u8>, i: int, rest: Seq<int>)
    ensures
        clamp_all(insns, seq![i] + rest) == clamp_all(clamp_one(insns, i), rest),
    decreases rest.len(),
{
    let sites = seq![i] + rest;
    if rest.len() == 0 {
        assert(sites.drop_last() =~= Seq::<int>::empty());
        assert(clamp_all(insns, sites.drop_last()) == insns);
    } else {
        lemma_clamp_first(insns, i, rest.drop_last());
        assert(sites.drop_last() =~= seq![i] + rest.drop_last());
    }
}

proof fn lemma_clamped_stream(part: Seq<u8>, whole: Seq<u8>, field: u32, i: int)
    requires
        0 <= i,
        part.len() == whole.len(),
        forall|j: int| i <= j < whole.len() ==> part[j] == whole[j],
    ensures
        ({
            let out = clamp_all(part, read_sites(whole, field, i));
            &&& out.len() == part.len()
            &&& forall|j: int| 0 <= j < i && j < part.len() ==> out[j] == part[j]
            &&& read_sites(out, field, i).len() == 0
        }),
    decreases
            if i < whole.len() {
                whole.len() - i
            } else {
                0
            },
{
    if let Some(n) = instruction_len(whole, i) {
        if reads_field(whole, i, field) {
            lemma_clamp_first(part, i, read_sites(whole, field, i + n));
            lemma_clamped_stream(clamp_one(part, i), whole, field, i + n);
        } else {
            lemma_clamped_stream(part, whole, field, i + n);
        }
    }
}

/// After one rewriting pass over a stream no instruction reads the field any
/// more: a second pass changes nothing.
pub proof fn lemma_rewrite_once(insns: Seq<u8>, field: u32)
    ensures
        ({
            let once = clamp_all(insns, read_sites(insns, field, 0));
            &&& once.len() == insns.len()
            &&& read_sites(once, field, 0).len() == 0
            &&& clamp_all(once, read_sites(once, field, 0)) == once
        }),
{
    lemma_clamped_stream(insns, insns, field, 0);
}

/// Where instructions stand that read the field.
proof fn lemma_sites(insns: Seq<u8>, field: u32, i: int)
    requires
        0 <= i,
    ensures
        ({
            let sites = read_sites(insns, field, i);
            &&& forall|k: int|
                0 <= k < sites.len() ==> i <= #[trigger] sites[k] && sites[k] + 4 <= insns.len()
                    && reads_field(insns, sites[k], field)
            &&& forall|k: int, l: int|
                0 <= k < l < sites.len() ==> #[trigger] sites[k] + 4 <= #[trigger] sites[l]
        }),
    decreases
            if i < insns.len() {
                insns.len() - i
            } else {
                0
            },
{
    if let Some(n) = instruction_len(insns, i) {
        lemma_sites(insns, field, i + n);
        let rest = read_sites(insns, field, i + n);
        let sites = read_sites(insns, field, i);
        if reads_field(insns, i, field) {
            assert(sites == seq![i] + rest);
            assert forall|k: int| 0 <= k < sites.len() implies i <= #[trigger] sites[k] && sites[k]
                + 4 <= insns.len() && reads_field(insns, sites[k], field) by {
                if k > 0 {
                    assert(sites[k] == rest[k - 1]);
                }
            }
            assert forall|k: int, l: int| 0 <= k < l < sites.len() implies #[trigger] sites[k] + 4
                <= #[trigger] sites[l] by {
                assert(sites[l] == rest[l - 1]);
                if k > 0 {
                    assert(sites[k] == rest[k - 1]);
                }
            }
        }
    }
}

/// Whether `sites` are places for four bytes each in so many bytes, in order.
spec fn apart(sites: Seq<int>, len: int) -> bool {
    &&& forall|k: int| 0 <= k < sites.len() ==> 0 <= #[trigger] sites[k] && sites[k] + 4 <= len
    &&& forall|k: int, l: int|
        0 <= k < l < sites.len() ==> #[trigger] sites[k] + 4 <= #[trigger] sites[l]
}

proof fn lemma_clamp_all_bytes(insns: Seq<u8>, sites: Seq<int>)
    requires
        apart(sites, insns.len() as int),
    ensures
        ({
            let out = clamp_all(insns, sites);
            &&& out.len() == insns.len()
            &&& forall|k: int|
                0 <= k < sites.len() ==> out[#[trigger] sites[k]] == 0x13 && out[sites[k] + 1]
                    == insns[sites[k] + 1] && out[sites[k] + 2] == 0x23 && out[sites[k] + 3] == 0
            &&& forall|j: int|
                0 <= j < insns.len() && out[j] != #[trigger] insns[j] ==> exists|k: int|
                    0 <= k < sites.len() && (j == #[trigger] sites[k] || j == sites[k] + 2 || j
                        == sites[k] + 3)
        }),
    decreases sites.len(),
{
    if sites.len() > 0 {
        let front = sites.drop_last();
        let n = sites.len() - 1;
        let before = clamp_all(insns, front);
        let out = clamp_all(insns, sites);
        assert(apart(front, insns.len() as int)) by {
            assert forall|k: int| 0 <= k < front.len() implies 0 <= #[trigger] front[k] && front[k]
                + 4 <= insns.len() by {
                assert(front[k] == sites[k]);
            }
            assert forall|k: int, l: int| 0 <= k < l < front.len() implies #[trigger] front[k] + 4
                <= #[trigger] front[l] by {
                assert(sites[k] + 4 <= sites[l]);
            }
        }
        lemma_clamp_all_bytes(insns, front);
        assert(sites[n] == sites.last());
        assert(octets::le16(CLAMPED_SDK_INT as u16)[0] == 0x23);
        assert(octets::le16(CLAMPED_SDK_INT as u16)[1] == 0);
        assert forall|k: int| 0 <= k < sites.len() implies out[#[trigger] sites[k]] == 0x13
            && out[sites[k] + 1] == insns[sites[k] + 1] && out[sites[k] + 2] == 0x23
            && out[sites[k] + 3] == 0 by {
            if k < n {
                assert(front[k] == sites[k]);
                assert(sites[k] + 4 <= sites[n]);
            } else {
                let j = sites[n] + 1;
                if before[j] != insns[j] {
                    let m = choose|m: int|
                        0 <= m < front.len() && (j == #[trigger] front[m] || j == front[m] + 2 || j
                            == front[m] + 3);
                    assert(sites[m] + 4 <= sites[n]);
                }
            }
        }
        assert forall|j: int| 0 <= j < insns.len() && out[j] != #[trigger] insns[j] implies exists|
            k: int,
        |
            0 <= k < sites.len() && (j == #[trigger] sites[k] || j == sites[k] + 2 || j == sites[k]
                + 3) by {
            if before[j] != insns[j] {
                let m = choose|m: int|
                    0 <= m < front.len() && (j == #[trigger] front[m] || j == front[m] + 2 || j
                        == front[m] + 3);
                assert(sites[m] == front[m]);
            } else {
                assert(j == sites[n] || j == sites[n] + 2 || j == sites[n] + 3);
            }
        }
    }
}

/// A rewriting pass makes each instruction that reads the field
/// `const/16 vAA, #35`: its opcode and its two last bytes are written, its register
/// stays, and no other byte of the stream changes. A field id that does not fit in
/// sixteen bits is read by none.
pub proof fn lemma_rewritten_bytes(insns: Seq<u8>, field: u32)
    ensures
        ({
            let sites = read_sites(insns, field, 0);
            let out = clamp_all(insns, sites);
            &&& out.len() == insns.len()
            &&& forall|k: int|
                0 <= k < sites.len() ==> 0 <= #[trigger] sites[k] && sites[k] + 4 <= insns.len()
                    && reads_field(insns, sites[k], field) && out.subrange(sites[k], sites[k] + 4)
                    == seq![0x13u8, insns[sites[k] + 1], 0x23, 0x00]
            &&& forall|k: int, l: int|
                0 <= k < l < sites.len() ==> #[trigger] sites[k] + 4 <= #[trigger] sites[l]
            &&& forall|j: int|
                0 <= j < insns.len() && out[j] != #[trigger] insns[j] ==> exists|k: int|
                    0 <= k < sites.len() && (j == #[trigger] sites[k] || j == sites[k] + 2 || j
                        == sites[k] + 3)
            &&& field > 0xffff ==> sites.len() == 0
        }),
{
    let sites = read_sites(insns, field, 0);
    let out = clamp_all(insns, sites);
    lemma_sites(insns, field, 0);
    lemma_clamp_all_bytes(insns, sites);
    assert forall|k: int| 0 <= k < sites.len() implies out.subrange(
        #[trigger] sites[k],
        sites[k] + 4,
    ) == seq![0x13u8, insns[sites[k] + 1], 0x23, 0x00] by {
        assert(out.subrange(sites[k], sites[k] + 4) =~= seq![
            0x13u8,
            insns[sites[k] + 1],
            0x23,
            0x00,
        ]);
    }
    if sites.len() > 0 {
        assert(reads_field(insns, sites[0], field));
    }
}

// ---- How much can be rewritten ---------------------------------------------

proof fn lemma_clamp_all_sget(insns: Seq<u8>, sites: Seq<int>)
    requires
        apart(sites, insns.len() as int),
        forall|k: int| 0 <= k < sites.len() ==> 0x60 <= insns[#[trigger] sites[k]] <= 0x66,
    ensures
        sites.len() + sget_bytes(clamp_all(insns, sites)) <= sget_bytes(insns),
    decreases sites.len(),
{
    if sites.len() > 0 {
        let front = sites.drop_last();
        let n = sites.len() - 1;
        let before = clamp_all(insns, front);
        assert(apart(front, insns.len() as int)) by {
            assert forall|k: int| 0 <= k < front.len() implies 0 <= #[trigger] front[k] && front[k]
                + 4 <= insns.len() by {
                assert(front[k] == sites[k]);
            }
            assert forall|k: int, l: int| 0 <= k < l < front.len() implies #[trigger] front[k] + 4
                <= #[trigger] front[l] by {
                assert(sites[k] + 4 <= sites[l]);
            }
        }
        assert forall|k: int| 0 <= k < front.len() implies 0x60 <= insns[#[trigger] front[k]]
            <= 0x66 by {
            assert(front[k] == sites[k]);
        }
        lemma_clamp_all_sget(insns, front);
        lemma_clamp_all_bytes(insns, front);
        let j = sites[n];
        if before[j] != insns[j] {
            let m = choose|m: int|
                0 <= m < front.len() && (j == #[trigger] front[m] || j == front[m] + 2 || j
                    == front[m] + 3);
            assert(sites[m] + 4 <= sites[n]);
        }
        lemma_clamp_one(before, j);
    }
}

proof fn lemma_clamp_code_sget(dex: Seq<u8>, start: int, end: int, field: u32)
    requires
        0 <= start <= end <= dex.len(),
    ensures
        clamp_code(dex, start, end, field).len() == dex.len(),
        read_sites(dex.subrange(start, end), field, 0).len() + sget_bytes(
            clamp_code(dex, start, end, field),
        ) <= sget_bytes(dex),
{
    let head = dex.subrange(0, start);
    let mid = dex.subrange(start, end);
    let tail = dex.subrange(end, dex.len() as int);
    let sites = read_sites(mid, field, 0);
    let clamped = clamp_all(mid, sites);
    lemma_sites(mid, field, 0);
    assert forall|k: int| 0 <= k < sites.len() implies 0x60 <= mid[#[trigger] sites[k]]
        <= 0x66 by {
        assert(reads_field(mid, sites[k], field));
    }
    lemma_clamp_all_bytes(mid, sites);
    lemma_clamp_all_sget(mid, sites);
    assert(dex =~= head + mid + tail);
    lemma_sget_bytes_concat(head + mid, tail);
    lemma_sget_bytes_concat(head, mid);
    lemma_sget_bytes_concat(head + clamped, tail);
    lemma_sget_bytes_concat(head, clamped);
}

proof fn lemma_methods_sget(dex: Seq<u8>, p: int, n: int, field: u32)
    ensures
        walk_methods(dex, p, n, field).1 + sget_bytes(walk_methods(dex, p, n, field).0)
            <= sget_bytes(dex),
    decreases n,
{
    if n > 0 {
        if let Some(q) = skip_ulebs(dex, p, 2) {
            if let Ok((next, code_off)) = uleb128_field(dex, q) {
                lemma_methods_sget(dex, next, n - 1, field);
                if code_off != 0 {
                    if let Ok(size) = u32_field(dex, code_off + 12) {
                        let (start, end) = (code_off + 16, code_off + 16 + 2 * size);
                        if end <= dex.len() {
                            lemma_clamp_code_sget(dex, start, end, field);
                            lemma_methods_sget(
                                clamp_code(dex, start, end, field),
                                next,
                                n - 1,
                                field,
                            );
                        }
                    }
                }
            }
        }
    }
}

proof fn lemma_definition_sget(dex: Seq<u8>, h: DexHeader, i: int, field: u32)
    ensures
        walk_definition(dex, h, i, field).1 + sget_bytes(walk_definition(dex, h, i, field).0)
            <= sget_bytes(dex),
{
    if let Ok(off) = u32_field(dex, h.class_defs_off + 32 * i + 24) {
        if let Ok((p1, a)) = uleb128_field(dex, off as int) {
            if let Ok((p2, b)) = uleb128_field(dex, p1) {
                if let Ok((p3, c)) = uleb128_field(dex, p2) {
                    if let Ok((p4, d)) = uleb128_field(dex, p3) {
                        if let Some(q) = skip_ulebs(dex, p4, 2 * (a + b)) {
                            lemma_methods_sget(dex, q, c + d, field);
                        }
                    }
                }
            }
        }
    }
}

proof fn lemma_classes_sget(dex: Seq<u8>, h: DexHeader, i: int, field: u32)
    ensures
        walk_classes(dex, h, i, field).1 + sget_bytes(walk_classes(dex, h, i, field).0)
            <= sget_bytes(dex),
    decreases h.class_defs_size - i,
{
    if i < h.class_defs_size {
        lemma_definition_sget(dex, h, i, field);
        lemma_classes_sget(walk_definition(dex, h, i, field).0, h, i + 1, field);
    }
}

/// No more instructions are clamped than the file has bytes, since each clamped one
/// turns a byte that looks like an `sget` into one that does not, for good.
pub proof fn lemma_patches_bound(dex: Seq<u8>)
    ensures
        patches_of(dex) <= dex.len(),
        patched(dex) matches Ok((_, n)) ==> n == patches_of(dex),
{
    if let Ok(h) = header_of(dex) {
        if let Ok(Some(field)) = sdk_int_field(dex, h) {
            lemma_classes_sget(dex, h, 0, field);
            lemma_sget_bytes_bound(dex);
        }
    }
}

// ---- Lengths of instructions ------------------------------------------------

/// Whether an opcode is unused.
pub open spec fn unused_opcode(op: u8) -> bool {
    ||| 0x3e <= op <= 0x43
    ||| op == 0x73
    ||| 0x79 <= op <= 0x7a
    ||| 0xf3 <= op <= 0xf9
}

/// Whether an instruction takes one code unit.
pub open spec fn one_unit(op: u8) -> bool {
    ||| 0x00 <= op <= 0x01
    ||| op == 0x04
    ||| op == 0x07
    ||| 0x0a <= op <= 0x12
    ||| 0x1d <= op <= 0x1e
    ||| op == 0x21
    ||| 0x27 <= op <= 0x28
    ||| 0x7b <= op <= 0x8f
    ||| 0xb0 <= op <= 0xcf
    ||| op == 0xec
    ||| op == 0xf1
}

/// Whether an instruction takes three code units.
pub open spec fn three_units(op: u8) -> bool {
    ||| op == 0x03
    ||| op == 0x06
    ||| op == 0x09
    ||| op == 0x14
    ||| op == 0x17
    ||| op == 0x1b
    ||| 0x24 <= op <= 0x26
    ||| 0x2a <= op <= 0x2c
    ||| 0x6e <= op <= 0x72
    ||| 0x74 <= op <= 0x78
    ||| 0xee <= op <= 0xf0
    ||| 0xfc <= op <= 0xfd
}

/// How many code units an instruction takes, by its opcode: one for moves between low
/// registers, returns, conversions and operations on two registers; three for the far
/// ones, jumps, wide constants and calls; four for polymorphic calls; five for constants
/// of 64 bits; and two for all others.
#[verifier::spinoff_prover]
#[verifier::rlimit(100)]
pub proof fn lemma_opcode_units(op: u8)
    ensures
        OPCODE_LENGTH_CODE_UNITS@[op as int] == if unused_opcode(op) {
            0u8
        } else if one_unit(op) {
            1
        } else if three_units(op) {
            3
        } else if op == 0xfa || op == 0xfb {
            4
        } else if op == 0x18 {
            5
        } else {
            2
        },
{
}

/// How long the tables within code are, in bytes: a packed switch with `n` targets takes
/// eight and four for each; a sparse one four and eight for each; and an array eight and
/// its data, made even. A lone zero unit takes two.
pub proof fn lemma_payload_lengths(insns: Seq<u8>, i: int)
    requires
        0 <= i,
        i + 8 <= insns.len(),
        insns[i] == 0,
    ensures
        ({
            let n = insns[i + 2] + 256 * insns[i + 3];
            let m = insns[i + 4] + 256 * insns[i + 5] + 65536 * insns[i + 6] + 16777216 * insns[i
                + 7];
            &&& insns[i + 1] == 1 ==> instruction_len(insns, i) == Some(8 + 4 * n)
            &&& insns[i + 1] == 2 ==> instruction_len(insns, i) == Some(4 + 8 * n)
            &&& insns[i + 1] == 3 ==> (instruction_len(insns, i) matches Some(len) && len % 2 == 0
                && 8 + n * m <= len <= 8 + n * m + 1)
            &&& insns[i + 1] == 0 || insns[i + 1] > 3 ==> instruction_len(insns, i) == Some(2int)
        }),
{
    let n = octets::le16_at(insns, i + 2) as nat;
    let m = octets::le32_at(insns, i + 4) as nat;
    assert(m * n == n * m) by (nonlinear_arith);
}

/// Any other instruction that lies within the stream is as long as its opcode says; an
/// unused opcode counts as one unit, and nothing follows an instruction that is cut off.
pub proof fn lemma_instruction_lengths(insns: Seq<u8>, i: int)
    requires
        0 <= i,
        i + 10 <= insns.len(),
        insns[i] != 0,
    ensures
        instruction_len(insns, i) == Some(
            if unused_opcode(insns[i]) || one_unit(insns[i]) {
                2int
            } else if three_units(insns[i]) {
                6
            } else if insns[i] == 0xfa || insns[i] == 0xfb {
                8
            } else if insns[i] == 0x18 {
                10
            } else {
                4
            },
        ),
{
    lemma_opcode_units(insns[i]);
}

/// The number in the four bytes from `i` on, low byte first.
pub open spec fn number_in(s: Seq<u8>, i: int) -> int {
    s[i] + 256 * s[i + 1] + 65536 * s[i + 2] + 16777216 * s[i + 3]
}

/// A file has a header exactly where it is long enough for one, begins with "dex" and an
/// end of line, and has its numbers in the order low byte first; and the header says of
/// each table how many entries it has and, behind that, where it lies.
pub proof fn lemma_header(dex: Seq<u8>)
    ensures
        header_of(dex) is Ok <==> dex.len() >= 112 && dex[0] == 0x64 && dex[1] == 0x65 && dex[2]
            == 0x78 && dex[3] == 0x0a && dex[40] == 0x78 && dex[41] == 0x56 && dex[42] == 0x34
            && dex[43] == 0x12,
        dex.len() < 112 <==> header_of(dex) == Err::<DexHeader, DexError>(DexError::TooShort),
        header_of(dex) matches Ok(h) ==> {
            &&& h.string_ids_size == number_in(dex, 56)
            &&& h.string_ids_off == number_in(dex, 60)
            &&& h.type_ids_size == number_in(dex, 64)
            &&& h.type_ids_off == number_in(dex, 68)
            &&& h.field_ids_size == number_in(dex, 80)
            &&& h.field_ids_off == number_in(dex, 84)
            &&& h.class_defs_size == number_in(dex, 96)
            &&& h.class_defs_off == number_in(dex, 100)
        },
{
    if dex.len() >= 112 {
        let magic = dex.subrange(0, 4);
        assert(magic[0] == dex[0] && magic[1] == dex[1] && magic[2] == dex[2] && magic[3]
            == dex[3]);
        if dex[0] == 0x64 && dex[1] == 0x65 && dex[2] == 0x78 && dex[3] == 0x0a {
            assert(magic =~= DEX_MAGIC_PREFIX@);
        }
        assert(octets::le32_at(dex, 40) == number_in(dex, 40));
    }
}

} // verus!
