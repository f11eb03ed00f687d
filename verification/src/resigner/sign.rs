//! APK Signature Scheme v2.
//!
//! The signature algorithm is RSASSA-PKCS1-v1_5 with SHA-256 over a chunked
//! SHA-256 content digest. Signing an archive
//!
//!   1. finds its end-of-central-directory record (EOCD), and with it the ZIP
//!      entries, the central directory and the record itself;
//!   2. pads the entries with zeros up to a page boundary, where the signing
//!      block is going to start;
//!   3. digests the padded entries, the central directory and the EOCD with its
//!      central directory offset set to where the signing block starts;
//!   4. signs that digest and the certificate, and builds the signing block;
//!   5. emits padded entries, signing block, central directory and the EOCD with
//!      the central directory's new offset.
use crate::octets;
use crate::resigner::digest;
use crate::resigner::digest::MAX_DIGEST_INPUT;
use crate::text;
use vstd::prelude::*;
use vstd::utf8;

verus! {

/// What an APK Signing Block ends with, `APK Sig Block 42`.
pub const APK_SIG_BLOCK_MAGIC: [u8; 16] = [
    0x41, 0x50, 0x4b, 0x20, 0x53, 0x69, 0x67, 0x20, 0x42, 0x6c, 0x6f, 0x63, 0x6b, 0x20, 0x34, 0x32,
];

pub const APK_SIGNATURE_SCHEME_V2_BLOCK_ID: u32 = 0x7109_871a;

pub const VERITY_PADDING_BLOCK_ID: u32 = 0x4272_6577;

pub const SIG_ALG_RSA_PKCS1_V1_5_SHA256: u32 = 0x0103;

pub const ANDROID_COMMON_PAGE_ALIGNMENT_BYTES: usize = 4096;

pub const CONTENT_DIGESTED_CHUNK_MAX_SIZE_BYTES: usize = 1048576;

/// The signature of an end-of-central-directory record.
pub const EOCD_MAGIC: [u8; 4] = [0x50, 0x4b, 0x05, 0x06];

/// The length of an end-of-central-directory record without its comment.
pub const EOCD_LEN: usize = 22;

/// What a PEM block starts with, `-----BEGIN `.
pub const PEM_BEGIN: [u8; 11] = [
    0x2d, 0x2d, 0x2d, 0x2d, 0x2d, 0x42, 0x45, 0x47, 0x49, 0x4e, 0x20,
];

/// Why an archive cannot be signed, or a signer cannot be made.
#[derive(Debug, Clone, Copy, PartialEq, Eq, Structural)]
pub enum SignError {
    /// The private key is not an RSA key in PKCS#8 form that can sign.
    KeyRejected,
    /// The PEM text is not UTF-8.
    PemNotUtf8,
    /// The PEM text has no body.
    PemEmpty,
    /// The PEM body holds a character that base64 does not use.
    InvalidBase64(char),
    /// The certificate is not an X.509 certificate in DER form.
    CertificateRejected,
    /// The archive has no end-of-central-directory record.
    EocdNotFound,
    /// The central directory runs into the end-of-central-directory record.
    CentralDirectoryPastEocd,
    /// The private key did not sign.
    SigningFailed,
}

// ---- PEM and base64 --------------------------------------------------------

/// Whether a PEM block starts anywhere in `bytes`.
pub open spec fn pem_like(bytes: Seq<u8>) -> bool {
    exists|i: int| octets::stands_at(bytes, i, PEM_BEGIN@)
}

pub fn looks_like_pem(bytes: &[u8]) -> (r: bool)
    ensures
        r == pem_like(bytes@),
{
    let mut i: usize = 0;
    while i < bytes.len()
        invariant
            i <= bytes@.len(),
            forall|j: int| 0 <= j < i ==> !octets::stands_at(bytes@, j, PEM_BEGIN@),
        decreases bytes@.len() - i,
    {
        if octets::matches_at(bytes, i, &PEM_BEGIN) {
            return true;
        }
        i += 1;
    }
    false
}

/// The value of a base64 digit.
pub open spec fn sextet(c: char) -> Option<int> {
    if 'A' <= c <= 'Z' {
        Some(c as int - 'A' as int)
    } else if 'a' <= c <= 'z' {
        Some(c as int - 'a' as int + 26)
    } else if '0' <= c <= '9' {
        Some(c as int - '0' as int + 52)
    } else if c == '+' {
        Some(62)
    } else if c == '/' {
        Some(63)
    } else {
        None
    }
}

/// The values of the base64 digits of `text` up to the first `=`, or the first
/// character before it that is neither a digit nor whitespace.
pub open spec fn sextets(text: Seq<char>) -> Result<Seq<int>, char>
    decreases text.len(),
{
    if text.len() == 0 {
        Ok(Seq::empty())
    } else {
        let rest = sextets(text.drop_first());
        if text::whitespace(text.first()) {
            rest
        } else if text.first() == '=' {
            Ok(Seq::empty())
        } else {
            match (sextet(text.first()), rest) {
                (None, _) => Err(text.first()),
                (Some(_), Err(e)) => Err(e),
                (Some(v), Ok(s)) => Ok(seq![v] + s),
            }
        }
    }
}

/// The whole bytes of the bit string that six-bit numbers make, high bits
/// first.
pub open spec fn packed(v: Seq<int>) -> Seq<u8> {
    Seq::new(
        v.len() * 6 / 8,
        |k: int|
            {
                let q = 4 * (k / 3);
                if k % 3 == 0 {
                    (4 * v[q] + v[q + 1] / 16) as u8
                } else if k % 3 == 1 {
                    (16 * (v[q + 1] % 16) + v[q + 2] / 4) as u8
                } else {
                    (64 * (v[q + 2] % 4) + v[q + 3]) as u8
                }
            },
    )
}

/// What `text` decodes to.
pub open spec fn base64_bytes(text: Seq<char>) -> Result<Seq<u8>, SignError> {
    match sextets(text) {
        Ok(v) => Ok(packed(v)),
        Err(c) => Err(SignError::InvalidBase64(c)),
    }
}

fn base64_digit(c: char) -> (r: Option<u8>)
    ensures
        match r {
            Some(v) => sextet(c) == Some(v as int) && v < 64,
            None => sextet(c) is None,
        },
{
    if 'A' <= c && c <= 'Z' {
        Some((c as u32 - 'A' as u32) as u8)
    } else if 'a' <= c && c <= 'z' {
        Some((c as u32 - 'a' as u32 + 26) as u8)
    } else if '0' <= c && c <= '9' {
        Some((c as u32 - '0' as u32 + 52) as u8)
    } else if c == '+' {
        Some(62)
    } else if c == '/' {
        Some(63)
    } else {
        None
    }
}

fn base64_decode_chars(text: &Vec<char>) -> (r: Result<Vec<u8>, SignError>)
    ensures
        match r {
            Ok(bytes) => base64_bytes(text@) == Ok::<Seq<u8>, SignError>(bytes@),
            Err(e) => base64_bytes(text@) == Err::<Seq<u8>, SignError>(e),
        },
{
    let mut out: Vec<u8> = Vec::new();
    let ghost mut got: Seq<int> = Seq::empty();
    // The low `bits` bits of the digits that no byte has been made of.
    let mut left: u8 = 0;
    let mut bits: u8 = 0;
    let mut i: usize = 0;
    assert(text@.subrange(0, text@.len() as int) =~= text@);
    assert(out@ =~= packed(got));
    assert(forall|s: Seq<int>| #[trigger] (got + s) =~= s);
    while i < text.len()
        invariant_except_break
            match sextets(text@.subrange(i as int, text@.len() as int)) {
                Ok(s) => sextets(text@) == Ok::<Seq<int>, char>(got + s),
                Err(e) => sextets(text@) == Err::<Seq<int>, char>(e),
            },
        invariant
            i <= text@.len(),
            out@ == packed(got),
            forall|j: int| 0 <= j < got.len() ==> 0 <= #[trigger] got[j] < 64,
            got.len() % 4 == 0 ==> bits == 0 && left == 0,
            got.len() % 4 == 1 ==> bits == 6 && left == got.last(),
            got.len() % 4 == 2 ==> bits == 4 && left == got.last() % 16,
            got.len() % 4 == 3 ==> bits == 2 && left == got.last() % 4,
        ensures
            sextets(text@) == Ok::<Seq<int>, char>(got),
            out@ == packed(got),
        decreases text@.len() - i,
    {
        let ghost rest = text@.subrange(i as int, text@.len() as int);
        assert(rest.drop_first() =~= text@.subrange(i + 1, text@.len() as int));
        let c: char = text[i];
        i += 1;
        if text::is_whitespace(c) {
            continue ;
        }
        if c == '=' {
            assert(got + Seq::<int>::empty() =~= got);
            break ;
        }
        let v: u8 = match base64_digit(c) {
            Some(v) => v,
            None => return Err(SignError::InvalidBase64(c)),
        };
        let ghost before = got;
        proof {
            got = before.push(v as int);
            assert forall|s: Seq<int>| #[trigger] (got + s) == before + (seq![v as int] + s) by {
                assert(got + s =~= before + (seq![v as int] + s));
            }
        }
        let ghost made = out@;
        if bits == 0 {
            left = v;
            bits = 6;
        } else if bits == 6 {
            out.push(4 * left + v / 16);
            left = v % 16;
            bits = 4;
        } else if bits == 4 {
            out.push(16 * left + v / 4);
            left = v % 4;
            bits = 2;
        } else {
            out.push(64 * left + v);
            left = 0;
            bits = 0;
        }
        assert(out@ =~= packed(got)) by {
            assert(forall|j: int| 0 <= j < before.len() ==> got[j] == before[j]);
            assert(forall|k: int| 0 <= k < made.len() ==> made[k] == packed(got)[k]);
        }
    }
    proof {
        if i == text@.len() {
            assert(text@.subrange(i as int, text@.len() as int) =~= Seq::<char>::empty());
            assert(got + Seq::<int>::empty() =~= got);
        }
    }
    Ok(out)
}

/// Decodes base64. Whitespace is passed over; decoding ends at the first `=`.
pub fn base64_decode(input: &str) -> (r: Result<Vec<u8>, SignError>)
    ensures
        match r {
            Ok(bytes) => base64_bytes(input@) == Ok::<Seq<u8>, SignError>(bytes@),
            Err(e) => base64_bytes(input@) == Err::<Seq<u8>, SignError>(e),
        },
{
    base64_decode_chars(&text::chars_of(input))
}

/// Where the line that starts at `i` ends: at the next line feed, or at the end
/// of the text.
pub open spec fn line_end(text: Seq<char>, i: int) -> int
    decreases text.len() - i,
{
    if i >= text.len() || text[i] == '\n' {
        i
    } else {
        line_end(text, i + 1)
    }
}

/// The trimmed lines of `text` from `i` on that stand between a `-----BEGIN `
/// line and the next `-----END ` line, joined. `in_body` says whether a
/// `-----BEGIN ` line has been passed.
pub open spec fn pem_body(text: Seq<char>, i: int, in_body: bool) -> Seq<char>
    decreases
            if i < text.len() {
                text.len() - i
            } else {
                0
            },
    when 0 <= i
    via pem_body_decreases
{
    if i >= text.len() {
        Seq::empty()
    } else {
        let end = line_end(text, i);
        let line = text::trimmed(text.subrange(i, end));
        if text::starts_with(line, "-----BEGIN "@) {
            pem_body(text, end + 1, true)
        } else if text::starts_with(line, "-----END "@) {
            Seq::empty()
        } else if in_body {
            line + pem_body(text, end + 1, in_body)
        } else {
            pem_body(text, end + 1, in_body)
        }
    }
}

proof fn lemma_line_end(text: Seq<char>, i: int)
    requires
        0 <= i <= text.len(),
    ensures
        i <= line_end(text, i) <= text.len(),
    decreases text.len() - i,
{
    if i < text.len() && text[i] != '\n' {
        lemma_line_end(text, i + 1);
    }
}

#[via_fn]
proof fn pem_body_decreases(text: Seq<char>, i: int, in_body: bool) {
    if i < text.len() {
        lemma_line_end(text, i);
    }
}

/// What the first PEM block of `pem` decodes to.
pub open spec fn pem_bytes(pem: Seq<u8>) -> Result<Seq<u8>, SignError> {
    if !utf8::valid_utf8(pem) {
        Err(SignError::PemNotUtf8)
    } else {
        let body = pem_body(utf8::decode_utf8(pem), 0, false);
        if body.len() == 0 {
            Err(SignError::PemEmpty)
        } else {
            base64_bytes(body)
        }
    }
}

/// Strips the `BEGIN` and `END` lines and decodes what stands between them.
pub fn pem_to_der(pem_bytes: &[u8]) -> (r: Result<Vec<u8>, SignError>)
    ensures
        match r {
            Ok(bytes) => self::pem_bytes(pem_bytes@) == Ok::<Seq<u8>, SignError>(bytes@),
            Err(e) => self::pem_bytes(pem_bytes@) == Err::<Seq<u8>, SignError>(e),
        },
{
    let text: Vec<char> = match text::decode(pem_bytes) {
        Some(s) => text::chars_of(s),
        None => return Err(SignError::PemNotUtf8),
    };
    let mut body: Vec<char> = Vec::new();
    let mut in_body: bool = false;
    let mut i: usize = 0;
    let ghost all = pem_body(text@, 0, false);
    assert(body@ + all =~= all);
    while i < text.len()
        invariant_except_break
            all == body@ + pem_body(text@, i as int, in_body),
        invariant
            i <= text@.len(),
            all == pem_body(text@, 0, false),
        ensures
            all == body@,
        decreases text@.len() - i,
    {
        let mut end: usize = i;
        while end < text.len() && text[end] != '\n'
            invariant
                i <= end <= text@.len(),
                line_end(text@, i as int) == line_end(text@, end as int),
            decreases text@.len() - end,
        {
            end += 1;
        }
        let (a, b) = text::trim_range(&text, i, end);
        if text::range_starts_with(&text, a, b, "-----BEGIN ") {
            in_body = true;
        } else if text::range_starts_with(&text, a, b, "-----END ") {
            assert(body@ + Seq::<char>::empty() =~= body@);
            break ;
        } else if in_body {
            let ghost before = body@;
            let ghost line = text@.subrange(a as int, b as int);
            let mut j: usize = a;
            while j < b
                invariant
                    a <= j <= b <= text@.len(),
                    body@ == before + text@.subrange(a as int, j as int),
                decreases b - j,
            {
                body.push(text[j]);
                j += 1;
                assert(body@ =~= before + text@.subrange(a as int, j as int));
            }
            assert forall|s: Seq<char>| #[trigger] (before + (line + s)) == body@ + s by {
                assert(before + (line + s) =~= body@ + s);
            }
        }
        if end == text.len() {
            assert(pem_body(text@, end + 1, in_body) =~= Seq::<char>::empty());
            assert(body@ + Seq::<char>::empty() =~= body@);
            break ;
        }
        i = end + 1;
    }
    proof {
        if i == text@.len() {
            assert(body@ + Seq::<char>::empty() =~= body@);
        }
    }
    if body.len() == 0 {
        return Err(SignError::PemEmpty);
    }
    base64_decode_chars(&body)
}

// ---- ZIP structure ---------------------------------------------------------

/// Where the central directory and the record behind it lie.
#[derive(Debug, Clone, Copy, PartialEq, Eq, Structural)]
pub struct ZipLayout {
    /// Offset of the central directory.
    pub cd_offset: u32,
    /// Length of the central directory.
    pub cd_size: u32,
    /// Offset of the end-of-central-directory record.
    pub eocd_offset: usize,
}

/// Whether an end-of-central-directory record stands at `i` whose comment ends
/// where the archive ends.
pub open spec fn eocd_at(apk: Seq<u8>, i: int) -> bool {
    &&& octets::stands_at(apk, i, EOCD_MAGIC@)
    &&& i + EOCD_LEN <= apk.len()
    &&& i + EOCD_LEN + octets::le16_at(apk, i + 20) == apk.len()
}

/// The last offset before `i` at which an end-of-central-directory record
/// stands.
pub open spec fn last_eocd(apk: Seq<u8>, i: int) -> Option<int>
    decreases i,
{
    if i <= 0 {
        None
    } else if eocd_at(apk, i - 1) {
        Some(i - 1)
    } else {
        last_eocd(apk, i - 1)
    }
}

/// Where the parts of `apk` lie.
pub open spec fn layout_of(apk: Seq<u8>) -> Result<ZipLayout, SignError> {
    match last_eocd(apk, apk.len() as int) {
        None => Err(SignError::EocdNotFound),
        Some(e) => Ok(
            ZipLayout {
                cd_offset: octets::le32_at(apk, e + 16),
                cd_size: octets::le32_at(apk, e + 12),
                eocd_offset: e as usize,
            },
        ),
    }
}

/// A record has to stand where its comment, of 16-bit length, reaches the end.
proof fn lemma_no_eocd_before(apk: Seq<u8>, i: int)
    requires
        i <= 0 || i + EOCD_LEN + 65535 <= apk.len(),
    ensures
        last_eocd(apk, i) is None,
    decreases i,
{
    if i > 0 {
        lemma_no_eocd_before(apk, i - 1);
    }
}

/// Nothing later than `e` is a record where `e` was found as the last one.
proof fn lemma_last_eocd(apk: Seq<u8>, i: int)
    ensures
        match last_eocd(apk, i) {
            Some(e) => 0 <= e < i && eocd_at(apk, e) && forall|j: int|
                e < j < i ==> !eocd_at(apk, j),
            None => forall|j: int| 0 <= j < i ==> !eocd_at(apk, j),
        },
    decreases i,
{
    if i > 0 {
        lemma_last_eocd(apk, i - 1);
    }
}

pub fn locate_zip_layout(apk: &[u8]) -> (r: Result<ZipLayout, SignError>)
    ensures
        r == layout_of(apk@),
        match r {
            Ok(l) => eocd_at(apk@, l.eocd_offset as int) && forall|j: int|
                l.eocd_offset < j ==> !eocd_at(apk@, j),
            Err(_) => forall|j: int| !eocd_at(apk@, j),
        },
{
    let len: usize = apk.len();
    let scan_start: usize = if len > EOCD_LEN + 65535 {
        len - (EOCD_LEN + 65535)
    } else {
        0
    };
    let mut i: usize = len;
    proof {
        lemma_last_eocd(apk@, len as int);
        lemma_no_eocd_before(apk@, scan_start as int);
    }
    while i > scan_start
        invariant
            len == apk@.len(),
            scan_start <= i <= len,
            last_eocd(apk@, len as int) == last_eocd(apk@, i as int),
            match last_eocd(apk@, len as int) {
                Some(e) => 0 <= e < len && eocd_at(apk@, e) && forall|j: int|
                    e < j < len ==> !eocd_at(apk@, j),
                None => forall|j: int| 0 <= j < len ==> !eocd_at(apk@, j),
            },
        decreases i,
    {
        let at: usize = i - 1;
        if octets::matches_at(apk, at, &EOCD_MAGIC) && len - at >= EOCD_LEN {
            let comment_len: usize = octets::read_le16(apk, at + 20) as usize;
            if len - at - EOCD_LEN == comment_len {
                return Ok(
                    ZipLayout {
                        cd_offset: octets::read_le32(apk, at + 16),
                        cd_size: octets::read_le32(apk, at + 12),
                        eocd_offset: at,
                    },
                );
            }
        }
        i = at;
    }
    Err(SignError::EocdNotFound)
}

// ---- Content digest --------------------------------------------------------

/// How many chunks a region of `len` bytes is cut into.
pub open spec fn chunk_count(len: int) -> int {
    (len + CONTENT_DIGESTED_CHUNK_MAX_SIZE_BYTES - 1) / (
    CONTENT_DIGESTED_CHUNK_MAX_SIZE_BYTES as int)
}

/// What is digested of a chunk.
pub open spec fn chunk_message(chunk: Seq<u8>) -> Seq<u8> {
    seq![0xa5u8] + octets::le32(octets::low32(chunk.len() as int)) + chunk
}

/// The digests of the chunks of `region`, in order. All chunks but the last are
/// of the maximal size.
pub open spec fn chunk_digests(region: Seq<u8>) -> Seq<u8>
    decreases region.len(),
{
    if region.len() == 0 {
        Seq::empty()
    } else {
        let n = if region.len() < CONTENT_DIGESTED_CHUNK_MAX_SIZE_BYTES {
            region.len() as int
        } else {
            CONTENT_DIGESTED_CHUNK_MAX_SIZE_BYTES as int
        };
        digest::sha256_of(chunk_message(region.subrange(0, n))) + chunk_digests(
            region.subrange(n, region.len() as int),
        )
    }
}

/// What is digested of the digests of all chunks.
pub open spec fn digests_message(chunks: int, digests: Seq<u8>) -> Seq<u8> {
    seq![0x5au8] + octets::le32(octets::low32(chunks)) + digests
}

/// The content digest over the three regions of an archive.
pub open spec fn content_digest(
    before_cd: Seq<u8>,
    central_dir: Seq<u8>,
    eocd: Seq<u8>,
) -> Seq<u8> {
    digest::sha256_of(
        digests_message(
            chunk_count(before_cd.len() as int) + chunk_count(central_dir.len() as int)
                + chunk_count(eocd.len() as int),
            chunk_digests(before_cd) + chunk_digests(central_dir) + chunk_digests(eocd),
        ),
    )
}

pub fn encode_chunk_message(chunk: &[u8]) -> (r: Vec<u8>)
    ensures
        r@ == chunk_message(chunk@),
{
    let mut out: Vec<u8> = Vec::new();
    out.push(0xa5);
    octets::push_le32(&mut out, octets::low32_of(chunk.len()));
    octets::push_all(&mut out, chunk);
    assert(out@ =~= chunk_message(chunk@));
    out
}

pub fn encode_digests_message(chunks: usize, digests: &[u8]) -> (r: Vec<u8>)
    ensures
        r@ == digests_message(chunks as int, digests@),
{
    let mut out: Vec<u8> = Vec::new();
    out.push(0x5a);
    octets::push_le32(&mut out, octets::low32_of(chunks));
    octets::push_all(&mut out, digests);
    assert(out@ =~= digests_message(chunks as int, digests@));
    out
}

/// Appends the digests of the chunks of `region` to `out`; gives their number.
fn push_chunk_digests(out: &mut Vec<u8>, region: &[u8]) -> (chunks: usize)
    ensures
        final(out)@ == old(out)@ + chunk_digests(region@),
        chunks == chunk_count(region@.len() as int),
        chunk_digests(region@).len() == 32 * chunks,
        chunks <= region@.len() / 0x100000 + 1,
{
    let ghost before = out@;
    let ghost all = chunk_digests(region@);
    let len: usize = region.len();
    let mut off: usize = 0;
    let mut chunks: usize = 0;
    assert(region@.subrange(0, len as int) =~= region@);
    while off < len
        invariant
            len == region@.len(),
            off <= len,
            off <= chunks * 0x100000 < off + 0x100000,
            off < len ==> off == chunks * 0x100000,
            all == chunk_digests(region@),
            before + all == out@ + chunk_digests(region@.subrange(off as int, len as int)),
            out@.len() == before.len() + 32 * chunks,
        decreases len - off,
    {
        let n: usize = if len - off < CONTENT_DIGESTED_CHUNK_MAX_SIZE_BYTES {
            len - off
        } else {
            CONTENT_DIGESTED_CHUNK_MAX_SIZE_BYTES
        };
        let ghost rest = region@.subrange(off as int, len as int);
        let d: Vec<u8> = digest::sha256(&encode_chunk_message(&region[off..off + n]));
        let ghost made = out@;
        octets::push_all(out, &d);
        proof {
            assert(rest.subrange(0, n as int) =~= region@.subrange(off as int, off + n));
            assert(rest.subrange(n as int, rest.len() as int) =~= region@.subrange(
                off + n,
                len as int,
            ));
            let tail = chunk_digests(region@.subrange(off + n, len as int));
            assert(made + (d@ + tail) =~= out@ + tail);
        }
        off += n;
        chunks += 1;
    }
    proof {
        assert(region@.subrange(off as int, len as int) =~= Seq::<u8>::empty());
        assert(out@ + Seq::<u8>::empty() =~= out@);
    }
    chunks
}

/// The content digest over the padded entries, the central directory and the
/// end-of-central-directory record. Each region is cut into chunks on its own.
pub fn compute_chunked_sha256(before_cd: &[u8], central_dir: &[u8], eocd_modified: &[u8]) -> (r: Vec<
    u8,
>)
    ensures
        r@ == content_digest(before_cd@, central_dir@, eocd_modified@),
        r@.len() == 32,
{
    let mut digests: Vec<u8> = Vec::new();
    let a: usize = push_chunk_digests(&mut digests, before_cd);
    let b: usize = push_chunk_digests(&mut digests, central_dir);
    let c: usize = push_chunk_digests(&mut digests, eocd_modified);
    assert(before_cd.len() == before_cd@.len());
    assert(central_dir.len() == central_dir@.len());
    assert(eocd_modified.len() == eocd_modified@.len());
    assert(digests@ =~= chunk_digests(before_cd@) + chunk_digests(central_dir@) + chunk_digests(
        eocd_modified@,
    ));
    digest::sha256(&encode_digests_message(a + b + c, &digests))
}

// ---- Length-prefixed sequences ---------------------------------------------

/// `e` behind its length.
pub open spec fn lp(e: Seq<u8>) -> Seq<u8> {
    octets::le32(octets::low32(e.len() as int)) + e
}

/// Each element behind its length.
pub open spec fn lp_elements(elements: Seq<Seq<u8>>) -> Seq<u8>
    decreases elements.len(),
{
    if elements.len() == 0 {
        Seq::empty()
    } else {
        lp_elements(elements.drop_last()) + lp(elements.last())
    }
}

/// Each pair, behind its length, as a number and a byte string behind its
/// length.
pub open spec fn lp_pairs(pairs: Seq<(u32, Seq<u8>)>) -> Seq<u8>
    decreases pairs.len(),
{
    if pairs.len() == 0 {
        Seq::empty()
    } else {
        let (id, bytes) = pairs.last();
        lp_pairs(pairs.drop_last()) + octets::le32((octets::low32(bytes.len() as int) + 8) as u32)
            + octets::le32(id) + lp(bytes)
    }
}

/// The byte strings that `elements` refer to.
pub open spec fn views(elements: Seq<&[u8]>) -> Seq<Seq<u8>> {
    Seq::new(elements.len(), |i: int| elements[i]@)
}

/// The pairs that `pairs` refer to.
pub open spec fn pair_views(pairs: Seq<(u32, &[u8])>) -> Seq<(u32, Seq<u8>)> {
    Seq::new(pairs.len(), |i: int| (pairs[i].0, pairs[i].1@))
}

/// `[len][element]` for each element; the whole has no prefix of its own.
pub fn encode_lp_elements(elements: &[&[u8]]) -> (r: Vec<u8>)
    ensures
        r@ == lp_elements(views(elements@)),
{
    let mut out: Vec<u8> = Vec::new();
    let ghost all = views(elements@);
    let mut i: usize = 0;
    while i < elements.len()
        invariant
            i <= elements@.len(),
            all == views(elements@),
            out@ == lp_elements(all.subrange(0, i as int)),
        decreases elements@.len() - i,
    {
        let e: &[u8] = elements[i];
        octets::push_le32(&mut out, octets::low32_of(e.len()));
        octets::push_all(&mut out, e);
        proof {
            let head = all.subrange(0, i + 1);
            assert(head.drop_last() =~= all.subrange(0, i as int));
            assert(out@ =~= lp_elements(head.drop_last()) + lp(e@));
        }
        i += 1;
    }
    assert(all.subrange(0, i as int) =~= all);
    out
}

/// `[8 + len][id][len][bytes]` for each pair.
pub fn encode_lp_int_lp_bytes_pairs(pairs: &[(u32, &[u8])]) -> (r: Vec<u8>)
    requires
        forall|i: int|
            0 <= i < pairs@.len() ==> octets::low32((#[trigger] pairs@[i]).1@.len() as int) + 8
                <= u32::MAX,
    ensures
        r@ == lp_pairs(pair_views(pairs@)),
{
    let mut out: Vec<u8> = Vec::new();
    let ghost all = pair_views(pairs@);
    let mut i: usize = 0;
    while i < pairs.len()
        invariant
            i <= pairs@.len(),
            all == pair_views(pairs@),
            out@ == lp_pairs(all.subrange(0, i as int)),
            forall|i: int|
                0 <= i < pairs@.len() ==> octets::low32((#[trigger] pairs@[i]).1@.len() as int) + 8
                    <= u32::MAX,
        decreases pairs@.len() - i,
    {
        let id: u32 = pairs[i].0;
        let b: &[u8] = pairs[i].1;
        let ghost made = out@;
        octets::push_le32(&mut out, octets::low32_of(b.len()) + 8);
        octets::push_le32(&mut out, id);
        octets::push_le32(&mut out, octets::low32_of(b.len()));
        octets::push_all(&mut out, b);
        proof {
            let head = all.subrange(0, i + 1);
            assert(head.drop_last() =~= all.subrange(0, i as int));
            assert(head.last() == (id, b@));
            assert(out@ =~= made + octets::le32((octets::low32(b@.len() as int) + 8) as u32)
                + octets::le32(id) + lp(b@));
        }
        i += 1;
    }
    assert(all.subrange(0, i as int) =~= all);
    out
}

// ---- Signer ----------------------------------------------------------------

/// The longest DER encoding that `der` reads or writes.
pub const MAX_DER_LEN: usize = 0xfff_ffff;

/// The longest RSA signature: the private keys that `ring` accepts have a
/// modulus of at most 4096 bits.
pub const MAX_RSA_SIGNATURE_LEN: usize = 512;

/// Whether `ring::signature::RsaKeyPair::from_pkcs8` accepts `key`.
pub uninterp spec fn rsa_key_accepted(key: Seq<u8>) -> bool;

/// The RSASSA-PKCS1-v1_5 signature with SHA-256 that `ring` makes of `data`
/// with the key that `key` encodes, if it makes one.
pub uninterp spec fn rsa_signature(key: Seq<u8>, data: Seq<u8>) -> Option<Seq<u8>>;

/// The DER encoding of the subject's public key info in the certificate that
/// `cert` encodes, if it encodes one.
pub uninterp spec fn certificate_spki(cert: Seq<u8>) -> Option<Seq<u8>>;

/// Calls `ring::signature::RsaKeyPair::from_pkcs8`. Trusted: whether it accepts
/// a key depends on the key's bytes alone.
#[verifier::external_body]
fn accepts_rsa_key(key: &[u8]) -> (r: bool)
    ensures
        r == rsa_key_accepted(key@),
{
    ring::signature::RsaKeyPair::from_pkcs8(key).is_ok()
}

/// Calls `ring::signature::RsaKeyPair::sign` with `RSA_PKCS1_SHA256`. Trusted:
/// the signature depends on the key and the data alone, as PKCS#1 v1.5 padding
/// takes no random bytes, and is as long as the key's modulus. `ring` panics on
/// data of 2^61 bytes or more.
#[verifier::external_body]
fn rsa_sign(key: &[u8], data: &[u8]) -> (r: Option<Vec<u8>>)
    requires
        rsa_key_accepted(key@),
        data@.len() <= MAX_DIGEST_INPUT,
    ensures
        match r {
            Some(signature) => rsa_signature(key@, data@) == Some(signature@) && signature@.len()
                <= MAX_RSA_SIGNATURE_LEN,
            None => rsa_signature(key@, data@) is None,
        },
{
    let key_pair = ring::signature::RsaKeyPair::from_pkcs8(key).ok()?;
    let mut signature = vec![0u8; key_pair.public().modulus_len()];
    let rng = ring::rand::SystemRandom::new();
    key_pair.sign(&ring::signature::RSA_PKCS1_SHA256, &rng, data, &mut signature).ok()?;
    Some(signature)
}

/// Calls `x509_cert::Certificate::from_der`, and `der::Encode::to_der` on the
/// subject's public key info in it. Trusted: the result depends on the bytes
/// alone, and neither call takes or gives more than `der::Length::MAX` bytes.
#[verifier::external_body]
fn spki_of(cert: &[u8]) -> (r: Option<Vec<u8>>)
    ensures
        match r {
            Some(spki) => certificate_spki(cert@) == Some(spki@) && cert@.len() <= MAX_DER_LEN
                && spki@.len() <= MAX_DER_LEN,
            None => certificate_spki(cert@) is None,
        },
{
    let cert = <x509_cert::Certificate as der::Decode>::from_der(cert).ok()?;
    der::Encode::to_der(&cert.tbs_certificate.subject_public_key_info).ok()
}

/// A signing identity: an RSA private key, an X.509 certificate and the public
/// key info of that certificate.
pub struct Signer {
    key: Vec<u8>,
    cert_der: Vec<u8>,
    public_key_spki_der: Vec<u8>,
}

/// The certificate in `bytes`, which are PEM text or DER.
pub open spec fn certificate_der(bytes: Seq<u8>) -> Result<Seq<u8>, SignError> {
    if pem_like(bytes) {
        pem_bytes(bytes)
    } else {
        Ok(bytes)
    }
}

impl Signer {
    /// The private key, in PKCS#8 form.
    pub closed spec fn key(&self) -> Seq<u8> {
        self.key@
    }

    /// The certificate, in DER form.
    pub closed spec fn certificate(&self) -> Seq<u8> {
        self.cert_der@
    }

    /// The public key info of the certificate, in DER form.
    pub closed spec fn spki(&self) -> Seq<u8> {
        self.public_key_spki_der@
    }

    #[verifier::type_invariant]
    spec fn usable(&self) -> bool {
        &&& rsa_key_accepted(self.key@)
        &&& self.cert_der@.len() <= MAX_DER_LEN
        &&& self.public_key_spki_der@.len() <= MAX_DER_LEN
    }

    /// Makes a signer of a private key in PKCS#8 DER form and a certificate in
    /// PEM or DER form.
    pub fn from_bytes(key_bytes: &[u8], cert_bytes: &[u8]) -> (r: Result<Self, SignError>)
        ensures
            match r {
                Ok(signer) => {
                    &&& rsa_key_accepted(key_bytes@)
                    &&& signer.key() == key_bytes@
                    &&& certificate_der(cert_bytes@) == Ok::<Seq<u8>, SignError>(
                        signer.certificate(),
                    )
                    &&& certificate_spki(signer.certificate()) == Some(signer.spki())
                },
                Err(e) => if !rsa_key_accepted(key_bytes@) {
                    e == SignError::KeyRejected
                } else {
                    match certificate_der(cert_bytes@) {
                        Err(pem) => e == pem,
                        Ok(cert) => certificate_spki(cert) is None && e
                            == SignError::CertificateRejected,
                    }
                },
            },
    {
        if !accepts_rsa_key(key_bytes) {
            return Err(SignError::KeyRejected);
        }
        let cert_der: Vec<u8> = if looks_like_pem(cert_bytes) {
            match pem_to_der(cert_bytes) {
                Ok(der) => der,
                Err(e) => return Err(e),
            }
        } else {
            octets::to_vec(cert_bytes)
        };
        match spki_of(&cert_der) {
            Some(spki) => Ok(
                Signer { key: octets::to_vec(key_bytes), cert_der, public_key_spki_der: spki },
            ),
            None => Err(SignError::CertificateRejected),
        }
    }

    fn sign_pkcs1_sha256(&self, data: &[u8]) -> (r: Result<Vec<u8>, SignError>)
        requires
            data@.len() <= MAX_DIGEST_INPUT,
        ensures
            match r {
                Ok(signature) => rsa_signature(self.key(), data@) == Some(signature@)
                    && signature@.len() <= MAX_RSA_SIGNATURE_LEN,
                Err(e) => rsa_signature(self.key(), data@) is None && e
                    == SignError::SigningFailed,
            },
    {
        proof {
            use_type_invariant(self);
        }
        match rsa_sign(&self.key, data) {
            Some(signature) => Ok(signature),
            None => Err(SignError::SigningFailed),
        }
    }
}

// ---- v2 block --------------------------------------------------------------

/// What is signed: the digests, the certificates, no attributes and a reserved
/// empty sequence.
pub open spec fn signed_data(cert: Seq<u8>, digest: Seq<u8>) -> Seq<u8> {
    lp_elements(
        seq![
            lp_pairs(seq![(SIG_ALG_RSA_PKCS1_V1_5_SHA256, digest)]),
            lp_elements(seq![cert]),
            Seq::<u8>::empty(),
            Seq::<u8>::empty(),
        ],
    )
}

/// The value of the v2 block: one signer, which is the signed data, the
/// signatures over it and the public key.
pub open spec fn v2_block_body(data: Seq<u8>, signature: Seq<u8>, spki: Seq<u8>) -> Seq<u8> {
    let signer = lp_elements(
        seq![data, lp_pairs(seq![(SIG_ALG_RSA_PKCS1_V1_5_SHA256, signature)]), spki],
    );
    lp_elements(seq![lp_elements(seq![signer])])
}

/// The length of a few length-prefixed elements.
proof fn lemma_lp_lengths(a: Seq<u8>, b: Seq<u8>, c: Seq<u8>, d: Seq<u8>, id: u32)
    ensures
        lp_elements(seq![a]).len() == 4 + a.len(),
        lp_elements(seq![a, b, c]).len() == 12 + a.len() + b.len() + c.len(),
        lp_elements(seq![a, b, c, d]).len() == 16 + a.len() + b.len() + c.len() + d.len(),
        lp_pairs(seq![(id, a)]).len() == 12 + a.len(),
{
    let none = Seq::<Seq<u8>>::empty();
    assert(seq![a].drop_last() =~= none);
    assert(seq![a, b].drop_last() =~= seq![a]);
    assert(seq![a, b, c].drop_last() =~= seq![a, b]);
    assert(seq![a, b, c, d].drop_last() =~= seq![a, b, c]);
    assert(seq![(id, a)].drop_last() =~= Seq::<(u32, Seq<u8>)>::empty());
    assert(lp_elements(none) =~= Seq::<u8>::empty());
    assert(lp_elements(seq![a]).len() == 4 + a.len());
    assert(lp_elements(seq![a, b]).len() == 8 + a.len() + b.len());
    assert(lp_elements(seq![a, b, c]).len() == 12 + a.len() + b.len() + c.len());
    assert(lp_pairs(Seq::<(u32, Seq<u8>)>::empty()) =~= Seq::<u8>::empty());
}

proof fn lemma_signed_data_len(cert: Seq<u8>, digest: Seq<u8>)
    ensures
        signed_data(cert, digest).len() == 32 + cert.len() + digest.len(),
{
    let empty = Seq::<u8>::empty();
    let digests = lp_pairs(seq![(SIG_ALG_RSA_PKCS1_V1_5_SHA256, digest)]);
    let certs = lp_elements(seq![cert]);
    assert(digests.len() == 12 + digest.len()) by {
        lemma_lp_lengths(digest, empty, empty, empty, SIG_ALG_RSA_PKCS1_V1_5_SHA256);
    }
    assert(certs.len() == 4 + cert.len()) by {
        lemma_lp_lengths(cert, empty, empty, empty, 0);
    }
    lemma_lp_lengths(digests, certs, empty, empty, 0);
}

proof fn lemma_v2_block_body_len(data: Seq<u8>, signature: Seq<u8>, spki: Seq<u8>)
    ensures
        v2_block_body(data, signature, spki).len() == 32 + data.len() + signature.len()
            + spki.len(),
{
    let empty = Seq::<u8>::empty();
    let signatures = lp_pairs(seq![(SIG_ALG_RSA_PKCS1_V1_5_SHA256, signature)]);
    let signer = lp_elements(seq![data, signatures, spki]);
    assert(signatures.len() == 12 + signature.len()) by {
        lemma_lp_lengths(signature, empty, empty, empty, SIG_ALG_RSA_PKCS1_V1_5_SHA256);
    }
    assert(signer.len() == 24 + data.len() + signature.len() + spki.len()) by {
        lemma_lp_lengths(data, signatures, spki, empty, 0);
    }
    assert(lp_elements(seq![signer]).len() == 4 + signer.len()) by {
        lemma_lp_lengths(signer, empty, empty, empty, 0);
    }
    lemma_lp_lengths(lp_elements(seq![signer]), empty, empty, empty, 0);
}

fn encode_lp_element(e: &[u8]) -> (r: Vec<u8>)
    ensures
        r@ == lp_elements(seq![e@]),
{
    let one: [&[u8]; 1] = [e];
    assert(views(one@) =~= seq![e@]);
    encode_lp_elements(&one)
}

fn encode_lp_pair(id: u32, b: &[u8]) -> (r: Vec<u8>)
    requires
        octets::low32(b@.len() as int) + 8 <= u32::MAX,
    ensures
        r@ == lp_pairs(seq![(id, b@)]),
{
    let one: [(u32, &[u8]); 1] = [(id, b)];
    assert(pair_views(one@) =~= seq![(id, b@)]);
    encode_lp_int_lp_bytes_pairs(&one)
}

/// Builds what is signed for a content digest and a certificate.
pub fn build_signed_data(cert_der: &[u8], content_digest: &[u8]) -> (r: Vec<u8>)
    requires
        octets::low32(content_digest@.len() as int) + 8 <= u32::MAX,
    ensures
        r@ == signed_data(cert_der@, content_digest@),
{
    let digests_seq: Vec<u8> = encode_lp_pair(SIG_ALG_RSA_PKCS1_V1_5_SHA256, content_digest);
    let certs_seq: Vec<u8> = encode_lp_element(cert_der);
    let none: Vec<u8> = Vec::new();
    let parts: [&[u8]; 4] = [
        digests_seq.as_slice(),
        certs_seq.as_slice(),
        none.as_slice(),
        none.as_slice(),
    ];
    assert(views(parts@) =~= seq![
        digests_seq@,
        certs_seq@,
        Seq::<u8>::empty(),
        Seq::<u8>::empty(),
    ]);
    encode_lp_elements(&parts)
}

/// Builds the value of the v2 block of what was signed, the signature and the
/// public key.
pub fn build_signer_block(data: &[u8], signature: &[u8], spki: &[u8]) -> (r: Vec<u8>)
    requires
        octets::low32(signature@.len() as int) + 8 <= u32::MAX,
    ensures
        r@ == v2_block_body(data@, signature@, spki@),
{
    let signatures_seq: Vec<u8> = encode_lp_pair(SIG_ALG_RSA_PKCS1_V1_5_SHA256, signature);
    let parts: [&[u8]; 3] = [data, signatures_seq.as_slice(), spki];
    assert(views(parts@) =~= seq![data@, signatures_seq@, spki@]);
    let signer_block: Vec<u8> = encode_lp_elements(&parts);
    encode_lp_element(&encode_lp_element(&signer_block))
}

/// Signs `content_digest` and builds the value of the v2 block.
pub fn build_v2_block_body(signer: &Signer, content_digest: &[u8]) -> (r: Result<
    Vec<u8>,
    SignError,
>)
    requires
        content_digest@.len() + 8 <= u32::MAX,
    ensures
        ({
            let data = signed_data(signer.certificate(), content_digest@);
            match rsa_signature(signer.key(), data) {
                Some(signature) => r matches Ok(body) && body@ == v2_block_body(
                    data,
                    signature,
                    signer.spki(),
                ) && body@.len() <= 0x3fff_ffff + content_digest@.len(),
                None => r == Err::<Vec<u8>, SignError>(SignError::SigningFailed),
            }
        }),
{
    proof {
        use_type_invariant(signer);
    }
    let data: Vec<u8> = build_signed_data(&signer.cert_der, content_digest);
    proof {
        lemma_signed_data_len(signer.cert_der@, content_digest@);
    }
    let signature: Vec<u8> = match signer.sign_pkcs1_sha256(&data) {
        Ok(signature) => signature,
        Err(e) => return Err(e),
    };
    proof {
        lemma_v2_block_body_len(data@, signature@, signer.public_key_spki_der@);
    }
    Ok(build_signer_block(&data, &signature, &signer.public_key_spki_der))
}

// ---- Signing block ---------------------------------------------------------

/// The pairs of a signing block: length, id and value of each.
pub open spec fn block_pairs(pairs: Seq<(u32, Seq<u8>)>) -> Seq<u8>
    decreases pairs.len(),
{
    if pairs.len() == 0 {
        Seq::empty()
    } else {
        let (id, value) = pairs.last();
        block_pairs(pairs.drop_last()) + octets::le64((4 + value.len()) as u64) + octets::le32(id)
            + value
    }
}

/// How many bytes of padding bring a block of `len` bytes to a multiple of the
/// page size: none, or room for a pair of at least twelve bytes.
pub open spec fn padding_len(len: int) -> int {
    let page = ANDROID_COMMON_PAGE_ALIGNMENT_BYTES as int;
    if len % page == 0 {
        0
    } else if page - len % page < 12 {
        2 * page - len % page
    } else {
        page - len % page
    }
}

/// `n` zeros.
pub open spec fn zeros(n: int) -> Seq<u8> {
    Seq::new(n as nat, |i: int| 0u8)
}

/// The verity padding pair of `n` bytes, or nothing.
pub open spec fn padding_pair(n: int) -> Seq<u8> {
    if n == 0 {
        Seq::empty()
    } else {
        octets::le64((n - 8) as u64) + octets::le32(VERITY_PADDING_BLOCK_ID) + zeros(n - 12)
    }
}

/// The signing block that holds `pairs`: its size, the pairs, padding, its size
/// again and the magic. The size does not count its first occurrence.
pub open spec fn signing_block(pairs: Seq<(u32, Seq<u8>)>) -> Seq<u8> {
    let len = 32 + block_pairs(pairs).len();
    let padding = padding_len(len as int);
    let size = octets::le64((len + padding - 8) as u64);
    size + block_pairs(pairs) + padding_pair(padding) + size + APK_SIG_BLOCK_MAGIC@
}

/// The pairs that `pairs` hold.
pub open spec fn owned_pair_views(pairs: Seq<(u32, Vec<u8>)>) -> Seq<(u32, Seq<u8>)> {
    Seq::new(pairs.len(), |i: int| (pairs[i].0, pairs[i].1@))
}

/// A signing block fills whole pages, and ends with the magic.
pub proof fn lemma_signing_block_fills_pages(pairs: Seq<(u32, Seq<u8>)>)
    ensures
        signing_block(pairs).len() % (ANDROID_COMMON_PAGE_ALIGNMENT_BYTES as nat) == 0,
        signing_block(pairs).len() >= 32,
        signing_block(pairs).subrange(
            signing_block(pairs).len() - 16,
            signing_block(pairs).len() as int,
        ) == APK_SIG_BLOCK_MAGIC@,
{
    let len = 32 + block_pairs(pairs).len();
    let n = padding_len(len as int);
    let size = octets::le64((len + n - 8) as u64);
    lemma_padding_len(len as int);
    assert(size.len() == 8);
    assert(padding_pair(n).len() == n);
    let front = size + block_pairs(pairs) + padding_pair(n) + size;
    let block = front + APK_SIG_BLOCK_MAGIC@;
    assert(front.len() == 16 + block_pairs(pairs).len() + n);
    assert(signing_block(pairs) == block);
    assert(block.subrange(front.len() as int, block.len() as int) =~= APK_SIG_BLOCK_MAGIC@);
}

proof fn lemma_padding_len(len: int)
    requires
        len >= 0,
    ensures
        (len + padding_len(len)) % (ANDROID_COMMON_PAGE_ALIGNMENT_BYTES as int) == 0,
        padding_len(len) == 0 || padding_len(len) >= 12,
{
}

fn push_zeros(out: &mut Vec<u8>, n: usize)
    ensures
        final(out)@ == old(out)@ + zeros(n as int),
{
    let ghost before = out@;
    let mut i: usize = 0;
    while i < n
        invariant
            i <= n,
            out@ =~= before + zeros(i as int),
        decreases n - i,
    {
        out.push(0);
        i += 1;
    }
}

proof fn lemma_block_pairs_prefix(pairs: Seq<(u32, Seq<u8>)>, i: int)
    requires
        0 <= i < pairs.len(),
    ensures
        block_pairs(pairs.subrange(0, i + 1)).len() == block_pairs(pairs.subrange(0, i)).len() + 12
            + pairs[i].1.len(),
        block_pairs(pairs.subrange(0, i + 1)).len() <= block_pairs(pairs).len(),
    decreases pairs.len() - i,
{
    assert(pairs.subrange(0, i + 1).drop_last() =~= pairs.subrange(0, i));
    if i + 1 < pairs.len() {
        lemma_block_pairs_prefix(pairs, i + 1);
    } else {
        assert(pairs.subrange(0, i + 1) =~= pairs);
    }
}

fn encode_block_pairs(pairs: &[(u32, Vec<u8>)]) -> (r: Vec<u8>)
    requires
        block_pairs(owned_pair_views(pairs@)).len() <= usize::MAX,
    ensures
        r@ == block_pairs(owned_pair_views(pairs@)),
{
    let ghost all = owned_pair_views(pairs@);
    let mut blocks: Vec<u8> = Vec::new();
    let mut i: usize = 0;
    while i < pairs.len()
        invariant
            i <= pairs@.len(),
            all == owned_pair_views(pairs@),
            blocks@ == block_pairs(all.subrange(0, i as int)),
            block_pairs(all).len() <= usize::MAX,
        decreases pairs@.len() - i,
    {
        let value: &Vec<u8> = &pairs[i].1;
        proof {
            lemma_block_pairs_prefix(all, i as int);
            assert(all.subrange(0, i + 1).drop_last() =~= all.subrange(0, i as int));
        }
        octets::push_le64(&mut blocks, 4 + value.len() as u64);
        octets::push_le32(&mut blocks, pairs[i].0);
        octets::push_all(&mut blocks, value);
        i += 1;
    }
    assert(all.subrange(0, i as int) =~= all);
    blocks
}

fn encode_padding_pair(n: usize) -> (r: Vec<u8>)
    requires
        n == 0 || n >= 12,
    ensures
        r@ == padding_pair(n as int),
{
    let mut out: Vec<u8> = Vec::new();
    if n != 0 {
        octets::push_le64(&mut out, (n - 8) as u64);
        assert(out@ =~= octets::le64((n - 8) as u64));
        octets::push_le32(&mut out, VERITY_PADDING_BLOCK_ID);
        push_zeros(&mut out, n - 12);
    }
    out
}

/// Wraps `(id, value)` pairs into a signing block, padded so that the central
/// directory behind it stays page-aligned.
pub fn build_signing_block(pairs: &[(u32, Vec<u8>)]) -> (r: Vec<u8>)
    requires
        block_pairs(owned_pair_views(pairs@)).len() + 32 + 2 * ANDROID_COMMON_PAGE_ALIGNMENT_BYTES
            <= usize::MAX,
    ensures
        r@ == signing_block(owned_pair_views(pairs@)),
{
    let blocks: Vec<u8> = encode_block_pairs(pairs);
    let mut total: usize = 32 + blocks.len();
    let mut padding: usize = 0;
    if total % ANDROID_COMMON_PAGE_ALIGNMENT_BYTES != 0 {
        padding = ANDROID_COMMON_PAGE_ALIGNMENT_BYTES - total % ANDROID_COMMON_PAGE_ALIGNMENT_BYTES;
        if padding < 12 {
            padding += ANDROID_COMMON_PAGE_ALIGNMENT_BYTES;
        }
        total += padding;
    }
    let mut out: Vec<u8> = Vec::new();
    octets::push_le64(&mut out, (total - 8) as u64);
    assert(out@ =~= octets::le64((total - 8) as u64));
    octets::push_all(&mut out, &blocks);
    octets::push_all(&mut out, &encode_padding_pair(padding));
    octets::push_le64(&mut out, (total - 8) as u64);
    octets::push_all(&mut out, &APK_SIG_BLOCK_MAGIC);
    out
}

// ---- Signing an archive ----------------------------------------------------

/// `s` with zeros behind it up to a page boundary.
pub open spec fn page_padded(s: Seq<u8>) -> Seq<u8> {
    let page = ANDROID_COMMON_PAGE_ALIGNMENT_BYTES as int;
    if s.len() as int % page == 0 {
        s
    } else {
        s + zeros(page - s.len() as int % page)
    }
}

/// An end-of-central-directory record with its central directory offset set.
pub open spec fn with_cd_offset(eocd: Seq<u8>, offset: int) -> Seq<u8> {
    octets::overwritten(eocd, 16, octets::le32(octets::low32(offset)))
}

/// The three parts of an archive: entries, padded to a page boundary, central
/// directory and end-of-central-directory record.
pub open spec fn apk_parts(apk: Seq<u8>) -> Result<(Seq<u8>, Seq<u8>, Seq<u8>), SignError> {
    match layout_of(apk) {
        Err(e) => Err(e),
        Ok(l) => if l.cd_offset + l.cd_size > l.eocd_offset {
            Err(SignError::CentralDirectoryPastEocd)
        } else {
            Ok(
                (
                    page_padded(apk.subrange(0, l.cd_offset as int)),
                    apk.subrange(l.cd_offset as int, l.cd_offset + l.cd_size),
                    apk.subrange(l.eocd_offset as int, apk.len() as int),
                ),
            )
        },
    }
}

/// What is digested and signed of an archive.
pub open spec fn apk_digest(before: Seq<u8>, cd: Seq<u8>, eocd: Seq<u8>) -> Seq<u8> {
    content_digest(before, cd, with_cd_offset(eocd, before.len() as int))
}

/// The parts of an archive with a signing block in front of the central
/// directory.
#[verifier::opaque]
pub open spec fn assembled(
    before: Seq<u8>,
    block: Seq<u8>,
    cd: Seq<u8>,
    eocd: Seq<u8>,
) -> Seq<u8> {
    before + block + cd + with_cd_offset(eocd, (before.len() + block.len()) as int)
}

/// The archive that `apk` becomes when it is signed.
pub open spec fn signed_apk(
    apk: Seq<u8>,
    key: Seq<u8>,
    cert: Seq<u8>,
    spki: Seq<u8>,
) -> Result<Seq<u8>, SignError> {
    match apk_parts(apk) {
        Err(e) => Err(e),
        Ok((before, cd, eocd)) => {
            let data = signed_data(cert, apk_digest(before, cd, eocd));
            match rsa_signature(key, data) {
                None => Err(SignError::SigningFailed),
                Some(signature) => {
                    let body = v2_block_body(data, signature, spki);
                    let block = signing_block(seq![(APK_SIGNATURE_SCHEME_V2_BLOCK_ID, body)]);
                    Ok(assembled(before, block, cd, eocd))
                },
            }
        },
    }
}

/// Cuts an archive into its padded entries, its central directory and its
/// end-of-central-directory record.
pub fn split_apk(apk_bytes: &[u8]) -> (r: Result<(Vec<u8>, Vec<u8>, Vec<u8>), SignError>)
    ensures
        match r {
            Ok((before, cd, eocd)) => apk_parts(apk_bytes@) == Ok::<
                (Seq<u8>, Seq<u8>, Seq<u8>),
                SignError,
            >((before@, cd@, eocd@)) && eocd@.len() >= EOCD_LEN,
            Err(e) => apk_parts(apk_bytes@) == Err::<(Seq<u8>, Seq<u8>, Seq<u8>), SignError>(e),
        },
{
    let layout: ZipLayout = match locate_zip_layout(apk_bytes) {
        Ok(l) => l,
        Err(e) => return Err(e),
    };
    let cd_end: u64 = layout.cd_offset as u64 + layout.cd_size as u64;
    if cd_end > layout.eocd_offset as u64 {
        return Err(SignError::CentralDirectoryPastEocd);
    }
    let cd_start: usize = layout.cd_offset as usize;
    let cd_end: usize = cd_end as usize;
    let mut before: Vec<u8> = octets::to_vec(&apk_bytes[0..cd_start]);
    if cd_start % ANDROID_COMMON_PAGE_ALIGNMENT_BYTES != 0 {
        push_zeros(
            &mut before,
            ANDROID_COMMON_PAGE_ALIGNMENT_BYTES - cd_start % ANDROID_COMMON_PAGE_ALIGNMENT_BYTES,
        );
    }
    let cd: Vec<u8> = octets::to_vec(&apk_bytes[cd_start..cd_end]);
    let eocd: Vec<u8> = octets::to_vec(&apk_bytes[layout.eocd_offset..apk_bytes.len()]);
    Ok((before, cd, eocd))
}

fn set_cd_offset(eocd: &Vec<u8>, offset: u32) -> (r: Vec<u8>)
    requires
        eocd@.len() >= EOCD_LEN,
    ensures
        r@ == octets::overwritten(eocd@, 16, octets::le32(offset)),
{
    let mut out: Vec<u8> = octets::to_vec(eocd);
    let mut field: Vec<u8> = Vec::new();
    octets::push_le32(&mut field, offset);
    assert(field@ =~= octets::le32(offset));
    octets::overwrite(&mut out, 16, &field);
    out
}

/// Puts a signing block in front of the central directory.
pub fn assemble(before: &Vec<u8>, block: &Vec<u8>, cd: &Vec<u8>, eocd: &Vec<u8>) -> (r: Vec<u8>)
    requires
        eocd@.len() >= EOCD_LEN,
    ensures
        r@ == assembled(before@, block@, cd@, eocd@),
{
    proof {
        reveal(assembled);
    }
    let offset: u32 = octets::low32_of_sum(before.len(), block.len());
    let mut out: Vec<u8> = octets::to_vec(before);
    octets::push_all(&mut out, block);
    octets::push_all(&mut out, cd);
    octets::push_all(&mut out, &set_cd_offset(eocd, offset));
    out
}

/// Signs an archive.
pub fn sign_apk_v2(apk_bytes: &[u8], signer: &Signer) -> (r: Result<Vec<u8>, SignError>)
    ensures
        match r {
            Ok(out) => signed_apk(
                apk_bytes@,
                signer.key(),
                signer.certificate(),
                signer.spki(),
            ) == Ok::<Seq<u8>, SignError>(out@),
            Err(e) => signed_apk(
                apk_bytes@,
                signer.key(),
                signer.certificate(),
                signer.spki(),
            ) == Err::<Seq<u8>, SignError>(e),
        },
{
    let (before, cd, eocd) = match split_apk(apk_bytes) {
        Ok(parts) => parts,
        Err(e) => return Err(e),
    };
    let eocd_for_digest: Vec<u8> = set_cd_offset(&eocd, octets::low32_of(before.len()));
    let digest: Vec<u8> = compute_chunked_sha256(&before, &cd, &eocd_for_digest);
    let body: Vec<u8> = match build_v2_block_body(signer, &digest) {
        Ok(body) => body,
        Err(e) => return Err(e),
    };
    let pairs: [(u32, Vec<u8>); 1] = [(APK_SIGNATURE_SCHEME_V2_BLOCK_ID, body)];
    proof {
        let one = seq![(APK_SIGNATURE_SCHEME_V2_BLOCK_ID, body@)];
        assert(owned_pair_views(pairs@) =~= one);
        assert(one.drop_last() =~= Seq::<(u32, Seq<u8>)>::empty());
        assert(block_pairs(one.drop_last()) =~= Seq::<u8>::empty());
        assert(block_pairs(one).len() == 12 + body@.len());
    }
    let block: Vec<u8> = build_signing_block(&pairs);
    Ok(assemble(&before, &block, &cd, &eocd))
}

proof fn lemma_assembled(before: Seq<u8>, block: Seq<u8>, cd: Seq<u8>, eocd: Seq<u8>)
    requires
        eocd.len() >= EOCD_LEN,
        block.len() >= 16,
    ensures
        ({
            let out = assembled(before, block, cd, eocd);
            let cd_start = (before.len() + block.len()) as int;
            let eocd_start = cd_start + cd.len();
            &&& out.len() == eocd_start + eocd.len()
            &&& out.subrange(0, before.len() as int) == before
            &&& out.subrange(cd_start, eocd_start) == cd
            &&& out.subrange(cd_start - 16, cd_start) == block.subrange(
                block.len() - 16,
                block.len() as int,
            )
            &&& forall|j: int|
                0 <= j < eocd.len() && !(16 <= j < 20) ==> out[eocd_start + j] == #[trigger] eocd[j]
            &&& octets::le32_at(out, eocd_start + 16) == octets::low32(cd_start)
        }),
{
    reveal(assembled);
    let out = assembled(before, block, cd, eocd);
    let cd_start = (before.len() + block.len()) as int;
    let eocd_start = cd_start + cd.len();
    let field = octets::le32(octets::low32(cd_start));
    let tail = with_cd_offset(eocd, cd_start);
    octets::lemma_le32_read_back(octets::low32(cd_start));
    assert(out.subrange(0, before.len() as int) =~= before);
    assert(out.subrange(cd_start, eocd_start) =~= cd);
    assert(out.subrange(cd_start - 16, cd_start) =~= block.subrange(
        block.len() - 16,
        block.len() as int,
    ));
    assert(forall|j: int| 0 <= j < eocd.len() ==> out[eocd_start + j] == tail[j]);
    assert(tail[16] == field[0] && tail[17] == field[1] && tail[18] == field[2] && tail[19]
        == field[3]);
    assert(octets::le32_at(out, eocd_start + 16) == octets::le32_at(field, 0));
}

/// A record whose fields but the central directory offset stay is a record.
proof fn lemma_eocd_kept(apk: Seq<u8>, e: int, out: Seq<u8>, at: int)
    requires
        eocd_at(apk, e),
        at >= 0,
        out.len() - at == apk.len() - e,
        forall|j: int|
            0 <= j < apk.len() - e && !(16 <= j < 20) ==> out[at + j] == #[trigger] apk.subrange(
                e,
                apk.len() as int,
            )[j],
    ensures
        eocd_at(out, at),
        octets::le32_at(out, at + 12) == octets::le32_at(apk, e + 12),
{
    let eocd = apk.subrange(e, apk.len() as int);
    assert(forall|j: int| 0 <= j < eocd.len() ==> #[trigger] eocd[j] == apk[e + j]);
    assert(out[at] == eocd[0] && out[at + 1] == eocd[1] && out[at + 2] == eocd[2] && out[at + 3]
        == eocd[3]);
    assert(out[at + 12] == eocd[12] && out[at + 13] == eocd[13] && out[at + 14] == eocd[14]
        && out[at + 15] == eocd[15]);
    assert(out[at + 20] == eocd[20] && out[at + 21] == eocd[21]);
    assert(out.subrange(at, at + 4) =~= apk.subrange(e, e + 4));
}

/// Whether `out` is `apk` with a signing block in it: the block ends on a page
/// boundary, its magic stands right in front of the central directory, the
/// entries and the central directory are those of `apk`, and the
/// end-of-central-directory record says where the central directory is.
pub open spec fn signed_layout(apk: Seq<u8>, out: Seq<u8>) -> bool {
    let l = layout_of(apk)->Ok_0;
    let eocd_start = out.len() - (apk.len() - l.eocd_offset);
    let cd_start = eocd_start - l.cd_size;
    &&& cd_start % (ANDROID_COMMON_PAGE_ALIGNMENT_BYTES as int) == 0
    &&& l.cd_offset + 32 <= cd_start
    &&& out.subrange(0, l.cd_offset as int) == apk.subrange(0, l.cd_offset as int)
    &&& out.subrange(cd_start, eocd_start) == apk.subrange(
        l.cd_offset as int,
        l.cd_offset + l.cd_size,
    )
    &&& out.subrange(cd_start - 16, cd_start) == APK_SIG_BLOCK_MAGIC@
    &&& eocd_at(out, eocd_start)
    &&& octets::le32_at(out, eocd_start + 16) == octets::low32(cd_start)
    &&& octets::le32_at(out, eocd_start + 12) == l.cd_size
}

proof fn lemma_page_padded(s: Seq<u8>)
    ensures
        page_padded(s).len() % (ANDROID_COMMON_PAGE_ALIGNMENT_BYTES as nat) == 0,
        page_padded(s).len() >= s.len(),
        page_padded(s).subrange(0, s.len() as int) == s,
{
    assert(page_padded(s).subrange(0, s.len() as int) =~= s);
}

#[verifier::spinoff_prover]
#[verifier::rlimit(60)]
proof fn lemma_layout_of_parts(
    apk: Seq<u8>,
    before: Seq<u8>,
    block: Seq<u8>,
    cd: Seq<u8>,
    eocd: Seq<u8>,
)
    requires
        apk.len() <= usize::MAX,
        apk_parts(apk) == Ok::<(Seq<u8>, Seq<u8>, Seq<u8>), SignError>((before, cd, eocd)),
        before.len() % (ANDROID_COMMON_PAGE_ALIGNMENT_BYTES as nat) == 0,
        block.len() >= 32,
        block.len() % (ANDROID_COMMON_PAGE_ALIGNMENT_BYTES as nat) == 0,
        block.subrange(block.len() - 16, block.len() as int) == APK_SIG_BLOCK_MAGIC@,
    ensures
        signed_layout(apk, assembled(before, block, cd, eocd)),
{
    let out = assembled(before, block, cd, eocd);
    let l = layout_of(apk)->Ok_0;
    let n = l.cd_offset as int;
    lemma_last_eocd(apk, apk.len() as int);
    lemma_page_padded(apk.subrange(0, n));
    lemma_assembled(before, block, cd, eocd);
    assert(cd.len() == l.cd_size);
    assert(eocd == apk.subrange(l.eocd_offset as int, apk.len() as int));
    lemma_eocd_kept(
        apk,
        l.eocd_offset as int,
        out,
        (before.len() + block.len() + cd.len()) as int,
    );
    assert(out.subrange(0, n) =~= out.subrange(0, before.len() as int).subrange(0, n));
}

/// A signed archive is the unsigned one with a signing block in front of its
/// central directory.
pub proof fn lemma_signed_apk_layout(apk: Seq<u8>, key: Seq<u8>, cert: Seq<u8>, spki: Seq<u8>)
    requires
        apk.len() <= usize::MAX,
        signed_apk(apk, key, cert, spki) is Ok,
    ensures
        signed_layout(apk, signed_apk(apk, key, cert, spki)->Ok_0),
{
    let (before, cd, eocd) = apk_parts(apk)->Ok_0;
    let data = signed_data(cert, apk_digest(before, cd, eocd));
    let body = v2_block_body(data, rsa_signature(key, data)->Some_0, spki);
    let pairs = seq![(APK_SIGNATURE_SCHEME_V2_BLOCK_ID, body)];
    lemma_signing_block_fills_pages(pairs);
    lemma_page_padded(apk.subrange(0, layout_of(apk)->Ok_0.cd_offset as int));
    lemma_layout_of_parts(apk, before, signing_block(pairs), cd, eocd);
}

/// What a verifier digests of a signed archive whose signing block starts at `block`,
/// and whose central directory starts at `cd` and ends at `eocd`: everything but the
/// block, with a record that says that the central directory is where the block is.
pub open spec fn verified_digest(out: Seq<u8>, block: int, cd: int, eocd: int) -> Seq<u8> {
    content_digest(
        out.subrange(0, block),
        out.subrange(cd, eocd),
        with_cd_offset(out.subrange(eocd, out.len() as int), block),
    )
}

/// What a verifier digests of assembled parts is what was digested of them.
#[verifier::spinoff_prover]
#[verifier::rlimit(60)]
proof fn lemma_digest_of_parts(before: Seq<u8>, block: Seq<u8>, cd: Seq<u8>, eocd: Seq<u8>)
    requires
        block.len() >= 16,
        eocd.len() >= EOCD_LEN,
    ensures
        ({
            let out = assembled(before, block, cd, eocd);
            let eocd_start = out.len() - eocd.len();
            verified_digest(
                out,
                before.len() as int,
                eocd_start - cd.len(),
                eocd_start,
            ) == apk_digest(before, cd, eocd)
        }),
{
    let out = assembled(before, block, cd, eocd);
    lemma_assembled(before, block, cd, eocd);
    let eocd_start = out.len() - eocd.len();
    let tail = out.subrange(eocd_start, out.len() as int);
    assert(with_cd_offset(tail, before.len() as int) =~= with_cd_offset(
        eocd,
        before.len() as int,
    ));
}

/// The digest that is signed is the one that a verifier finds.
#[verifier::spinoff_prover]
#[verifier::rlimit(40)]
pub proof fn lemma_digest_is_verifiable(apk: Seq<u8>, key: Seq<u8>, cert: Seq<u8>, spki: Seq<u8>)
    requires
        apk.len() <= usize::MAX,
        signed_apk(apk, key, cert, spki) is Ok,
    ensures
        ({
            let out = signed_apk(apk, key, cert, spki)->Ok_0;
            let (before, cd, eocd) = apk_parts(apk)->Ok_0;
            let eocd_start = out.len() - eocd.len();
            verified_digest(
                out,
                before.len() as int,
                eocd_start - cd.len(),
                eocd_start,
            ) == apk_digest(before, cd, eocd)
        }),
{
    let (before, cd, eocd) = apk_parts(apk)->Ok_0;
    let data = signed_data(cert, apk_digest(before, cd, eocd));
    let body = v2_block_body(data, rsa_signature(key, data)->Some_0, spki);
    let pairs = seq![(APK_SIGNATURE_SCHEME_V2_BLOCK_ID, body)];
    lemma_signing_block_fills_pages(pairs);
    lemma_last_eocd(apk, apk.len() as int);
    lemma_digest_of_parts(before, signing_block(pairs), cd, eocd);
}

// ---- What a verifier reads --------------------------------------------------

/// The chunks of a region are digested from its front: one after the other where a part
/// of whole chunks, of a mebibyte each, precedes the rest.
pub proof fn lemma_chunks_in_order(whole: Seq<u8>, rest: Seq<u8>)
    requires
        whole.len() % 1048576 == 0,
    ensures
        chunk_digests(whole + rest) == chunk_digests(whole) + chunk_digests(rest),
        chunk_count((whole.len() + rest.len()) as int) == chunk_count(whole.len() as int)
            + chunk_count(rest.len() as int),
        0 < rest.len() <= 1048576 ==> chunk_count(rest.len() as int) == 1 && chunk_digests(rest)
            == digest::sha256_of(seq![0xa5u8] + octets::le32(rest.len() as u32) + rest),
        rest.len() == 0 ==> chunk_count(rest.len() as int) == 0 && chunk_digests(rest).len() == 0,
    decreases whole.len(),
{
    let n = CONTENT_DIGESTED_CHUNK_MAX_SIZE_BYTES as int;
    if whole.len() > 0 {
        let first = whole.subrange(0, n);
        let more = whole.subrange(n, whole.len() as int);
        let all = whole + rest;
        lemma_chunks_in_order(more, rest);
        assert(all.subrange(0, n) =~= first);
        assert(all.subrange(n, all.len() as int) =~= more + rest);
        assert(chunk_digests(all) =~= chunk_digests(whole) + chunk_digests(rest));
    } else {
        assert(whole + rest =~= rest);
        assert(chunk_digests(whole) + chunk_digests(rest) =~= chunk_digests(rest));
    }
    if 0 < rest.len() <= 1048576 {
        assert(rest.subrange(0, rest.len() as int) =~= rest);
        let none = rest.subrange(rest.len() as int, rest.len() as int);
        assert(none.len() == 0);
        assert(chunk_digests(none) =~= Seq::<u8>::empty());
        assert(chunk_digests(rest) =~= digest::sha256_of(
            seq![0xa5u8] + octets::le32(rest.len() as u32) + rest,
        ));
    }
}

/// The content digest is that of all chunks' digests, those of the entries first, then
/// those of the central directory and of the record, behind their number.
pub proof fn lemma_content_digest(before_cd: Seq<u8>, central_dir: Seq<u8>, eocd: Seq<u8>)
    requires
        0 < before_cd.len() <= 1048576,
        0 < central_dir.len() <= 1048576,
        0 < eocd.len() <= 1048576,
    ensures
        content_digest(before_cd, central_dir, eocd) == digest::sha256_of(
            seq![0x5au8] + octets::le32(3) + (digest::sha256_of(
                seq![0xa5u8] + octets::le32(before_cd.len() as u32) + before_cd,
            ) + digest::sha256_of(
                seq![0xa5u8] + octets::le32(central_dir.len() as u32) + central_dir,
            ) + digest::sha256_of(seq![0xa5u8] + octets::le32(eocd.len() as u32) + eocd)),
        ),
{
    lemma_chunks_in_order(Seq::empty(), before_cd);
    lemma_chunks_in_order(Seq::empty(), central_dir);
    lemma_chunks_in_order(Seq::empty(), eocd);
}

/// What is signed, byte for byte: a list of one digest, under the number of RSA with
/// SHA-256; a list of one certificate; and two empty lists.
pub proof fn lemma_signed_data(cert: Seq<u8>, digest: Seq<u8>)
    requires
        cert.len() <= 0x7fff_ffff,
        digest.len() <= 0x7fff_ffff,
    ensures
        ({
            let digests = octets::le32((digest.len() + 8) as u32) + octets::le32(0x0103)
                + octets::le32(digest.len() as u32) + digest;
            let certs = octets::le32(cert.len() as u32) + cert;
            signed_data(cert, digest) == octets::le32((digest.len() + 12) as u32) + digests + (
            octets::le32((cert.len() + 4) as u32) + certs) + octets::le32(0) + octets::le32(0)
        }),
{
    let pair = lp_pairs(seq![(SIG_ALG_RSA_PKCS1_V1_5_SHA256, digest)]);
    let certs = lp_elements(seq![cert]);
    let none = Seq::<u8>::empty();
    lemma_one_pair(0x0103, digest);
    lemma_one_element(cert);
    lemma_elements_push(seq![pair, certs, none], none);
    lemma_elements_push(seq![pair, certs], none);
    lemma_elements_push(seq![pair], certs);
    lemma_one_element(pair);
    assert(seq![pair, certs, none].push(none) =~= seq![pair, certs, none, none]);
    assert(seq![pair, certs].push(none) =~= seq![pair, certs, none]);
    assert(seq![pair].push(certs) =~= seq![pair, certs]);
    assert(octets::le32(0) + none =~= octets::le32(0));
    assert(pair.len() == digest.len() + 12);
    assert(certs.len() == cert.len() + 4);
}

proof fn lemma_one_pair(id: u32, bytes: Seq<u8>)
    requires
        bytes.len() <= 0x7fff_ffff,
    ensures
        lp_pairs(seq![(id, bytes)]) == octets::le32((bytes.len() + 8) as u32) + octets::le32(id)
            + octets::le32(bytes.len() as u32) + bytes,
{
    let one = seq![(id, bytes)];
    assert(one.drop_last() =~= Seq::<(u32, Seq<u8>)>::empty());
    assert(lp_pairs(one.drop_last()) =~= Seq::<u8>::empty());
    assert(lp_pairs(one) =~= octets::le32((bytes.len() + 8) as u32) + octets::le32(id)
        + octets::le32(bytes.len() as u32) + bytes);
}

proof fn lemma_one_element(e: Seq<u8>)
    requires
        e.len() <= u32::MAX,
    ensures
        lp_elements(seq![e]) == octets::le32(e.len() as u32) + e,
{
    assert(seq![e].drop_last() =~= Seq::<Seq<u8>>::empty());
    assert(lp_elements(seq![e].drop_last()) =~= Seq::<u8>::empty());
    assert(lp_elements(seq![e]) =~= octets::le32(e.len() as u32) + e);
}

proof fn lemma_elements_push(es: Seq<Seq<u8>>, e: Seq<u8>)
    requires
        e.len() <= u32::MAX,
    ensures
        lp_elements(es.push(e)) == lp_elements(es) + (octets::le32(e.len() as u32) + e),
{
    assert(es.push(e).drop_last() =~= es);
}

/// The value of the block, byte for byte: one signer in a list, which is the signed data,
/// a list of one signature, under the number of RSA with SHA-256, and the public key.
#[verifier::spinoff_prover]
#[verifier::rlimit(60)]
pub proof fn lemma_block_body(data: Seq<u8>, signature: Seq<u8>, spki: Seq<u8>)
    requires
        data.len() + signature.len() + spki.len() <= 0x7fff_ffff,
    ensures
        ({
            let n = data.len() + signature.len() + spki.len();
            v2_block_body(data, signature, spki) == octets::le32((n + 28) as u32) + octets::le32(
                (n + 24) as u32,
            ) + octets::le32(data.len() as u32) + data + octets::le32(
                (signature.len() + 12) as u32,
            ) + octets::le32((signature.len() + 8) as u32) + octets::le32(0x0103) + octets::le32(
                signature.len() as u32,
            ) + signature + octets::le32(spki.len() as u32) + spki
        }),
{
    let pair = lp_pairs(seq![(SIG_ALG_RSA_PKCS1_V1_5_SHA256, signature)]);
    let signer = lp_elements(seq![data, pair, spki]);
    let n = data.len() + signature.len() + spki.len();
    lemma_one_pair(0x0103, signature);
    lemma_one_element(data);
    lemma_elements_push(seq![data], pair);
    lemma_elements_push(seq![data, pair], spki);
    assert(seq![data].push(pair) =~= seq![data, pair]);
    assert(seq![data, pair].push(spki) =~= seq![data, pair, spki]);
    assert(signer.len() == n + 24);
    lemma_one_element(signer);
    lemma_one_element(lp_elements(seq![signer]));
    assert(v2_block_body(data, signature, spki) =~= octets::le32((n + 28) as u32) + octets::le32(
        (n + 24) as u32,
    ) + octets::le32(data.len() as u32) + data + octets::le32((signature.len() + 12) as u32)
        + octets::le32((signature.len() + 8) as u32) + octets::le32(0x0103) + octets::le32(
        signature.len() as u32,
    ) + signature + octets::le32(spki.len() as u32) + spki);
}

/// The signing block, as a verifier reads it: its size stands at its front and again in
/// front of the magic, and counts all but the first; the first pair is the value's length,
/// the scheme's number and the value.
#[verifier::spinoff_prover]
#[verifier::rlimit(60)]
pub proof fn lemma_signing_block(value: Seq<u8>)
    requires
        value.len() <= 0x7fff_ffff,
    ensures
        ({
            let block = signing_block(seq![(APK_SIGNATURE_SCHEME_V2_BLOCK_ID, value)]);
            let n = block.len() as int;
            let v = value.len() as int;
            &&& n % 4096 == 0
            &&& block.subrange(0, 8) == octets::le64((n - 8) as u64)
            &&& block.subrange(8, 16) == octets::le64((value.len() + 4) as u64)
            &&& block.subrange(16, 20) == octets::le32(0x7109871a)
            &&& block.subrange(20, 20 + v) == value
            &&& block.subrange(n - 24, n - 16) == octets::le64((n - 8) as u64)
            &&& block.subrange(n - 16, n) == seq![
                0x41u8,
                0x50,
                0x4b,
                0x20,
                0x53,
                0x69,
                0x67,
                0x20,
                0x42,
                0x6c,
                0x6f,
                0x63,
                0x6b,
                0x20,
                0x34,
                0x32,
            ]
            &&& n == v + 44 || (block.subrange(v + 28, v + 32)
                == octets::le32(0x42726577) && block.subrange(v + 20, v + 28)
                == octets::le64((n - 44 - v - 8) as u64) && forall|i: int|
                v + 32 <= i < n - 24 ==> #[trigger] block[i] == 0)
        }),
{
    let pairs = seq![(APK_SIGNATURE_SCHEME_V2_BLOCK_ID, value)];
    let pair = octets::le64((4 + value.len()) as u64) + octets::le32(
        APK_SIGNATURE_SCHEME_V2_BLOCK_ID,
    ) + value;
    assert(pairs.drop_last() =~= Seq::<(u32, Seq<u8>)>::empty());
    assert(block_pairs(pairs.drop_last()) =~= Seq::<u8>::empty());
    assert(block_pairs(pairs) =~= pair);
    let len = 32 + pair.len();
    let p = padding_len(len as int);
    lemma_padding_len(len as int);
    let size = octets::le64((len + p - 8) as u64);
    let block = signing_block(pairs);
    assert(block == size + pair + padding_pair(p) + size + APK_SIG_BLOCK_MAGIC@);
    assert(size.len() == 8);
    assert(padding_pair(p).len() == p);
    assert(block.len() == len + p);
    let n = block.len() as int;
    let v = value.len() as int;
    assert(block.subrange(0, 8) =~= size);
    assert(block.subrange(8, 16) =~= octets::le64((value.len() + 4) as u64));
    assert(block.subrange(16, 20) =~= octets::le32(0x7109871a));
    assert(block.subrange(20, 20 + v) =~= value);
    assert(block.subrange(n - 24, n - 16) =~= size);
    assert(APK_SIG_BLOCK_MAGIC@ =~= seq![
        0x41u8,
        0x50,
        0x4b,
        0x20,
        0x53,
        0x69,
        0x67,
        0x20,
        0x42,
        0x6c,
        0x6f,
        0x63,
        0x6b,
        0x20,
        0x34,
        0x32,
    ]);
    assert(block.subrange(n - 16, n) =~= APK_SIG_BLOCK_MAGIC@);
    if p != 0 {
        let pad = padding_pair(p);
        assert(block.subrange(v + 20, v + 28) =~= octets::le64((p - 8) as u64));
        assert(block.subrange(v + 28, v + 32) =~= octets::le32(0x42726577));
        assert forall|i: int| v + 32 <= i < n - 24 implies #[trigger] block[i] == 0 by {
            assert(block[i] == pad[i - 20 - v]);
        }
    }
}

/// The last end-of-central-directory record whose comment reaches the end of the archive
/// is the one that counts: the size and the place of the central directory stand in it.
pub proof fn lemma_layout(apk: Seq<u8>)
    requires
        apk.len() <= usize::MAX,
    ensures
        layout_of(apk) matches Ok(l) ==> {
            let e = l.eocd_offset as int;
            &&& e + 22 <= apk.len()
            &&& apk.subrange(e, e + 4) == seq![0x50u8, 0x4b, 5, 6]
            &&& e + 22 + apk[e + 20] + 256 * apk[e + 21] == apk.len()
            &&& l.cd_size == octets::le32_at(apk, e + 12)
            &&& l.cd_offset == octets::le32_at(apk, e + 16)
            &&& forall|j: int| e < j < apk.len() ==> !#[trigger] eocd_at(apk, j)
        },
        layout_of(apk) is Err ==> forall|j: int| 0 <= j < apk.len() ==> !#[trigger] eocd_at(apk, j),
{
    lemma_last_eocd(apk, apk.len() as int);
    assert(EOCD_MAGIC@ =~= seq![0x50u8, 0x4b, 5, 6]);
}

// ---- Base64 -----------------------------------------------------------------

/// The digits of base64, in the order of their values.
pub open spec fn alphabet() -> Seq<char> {
    "ABCDEFGHIJKLMNOPQRSTUVWXYZabcdefghijklmnopqrstuvwxyz0123456789+/"@
}

/// Each digit of base64 stands for its place in the alphabet.
pub proof fn lemma_alphabet(k: int)
    requires
        0 <= k < 64,
    ensures
        alphabet().len() == 64,
        sextet(alphabet()[k]) == Some(k),
{
    reveal_strlit(
        "ABCDEFGHIJKLMNOPQRSTUVWXYZabcdefghijklmnopqrstuvwxyz0123456789+/",
    );
    assert(alphabet()[0] == 'A');
    assert(alphabet()[1] == 'B');
    assert(alphabet()[2] == 'C');
    assert(alphabet()[3] == 'D');
    assert(alphabet()[4] == 'E');
    assert(alphabet()[5] == 'F');
    assert(alphabet()[6] == 'G');
    assert(alphabet()[7] == 'H');
    assert(alphabet()[8] == 'I');
    assert(alphabet()[9] == 'J');
    assert(alphabet()[10] == 'K');
    assert(alphabet()[11] == 'L');
    assert(alphabet()[12] == 'M');
    assert(alphabet()[13] == 'N');
    assert(alphabet()[14] == 'O');
    assert(alphabet()[15] == 'P');
    assert(alphabet()[16] == 'Q');
    assert(alphabet()[17] == 'R');
    assert(alphabet()[18] == 'S');
    assert(alphabet()[19] == 'T');
    assert(alphabet()[20] == 'U');
    assert(alphabet()[21] == 'V');
    assert(alphabet()[22] == 'W');
    assert(alphabet()[23] == 'X');
    assert(alphabet()[24] == 'Y');
    assert(alphabet()[25] == 'Z');
    assert(alphabet()[26] == 'a');
    assert(alphabet()[27] == 'b');
    assert(alphabet()[28] == 'c');
    assert(alphabet()[29] == 'd');
    assert(alphabet()[30] == 'e');
    assert(alphabet()[31] == 'f');
    assert(alphabet()[32] == 'g');
    assert(alphabet()[33] == 'h');
    assert(alphabet()[34] == 'i');
    assert(alphabet()[35] == 'j');
    assert(alphabet()[36] == 'k');
    assert(alphabet()[37] == 'l');
    assert(alphabet()[38] == 'm');
    assert(alphabet()[39] == 'n');
    assert(alphabet()[40] == 'o');
    assert(alphabet()[41] == 'p');
    assert(alphabet()[42] == 'q');
    assert(alphabet()[43] == 'r');
    assert(alphabet()[44] == 's');
    assert(alphabet()[45] == 't');
    assert(alphabet()[46] == 'u');
    assert(alphabet()[47] == 'v');
    assert(alphabet()[48] == 'w');
    assert(alphabet()[49] == 'x');
    assert(alphabet()[50] == 'y');
    assert(alphabet()[51] == 'z');
    assert(alphabet()[52] == '0');
    assert(alphabet()[53] == '1');
    assert(alphabet()[54] == '2');
    assert(alphabet()[55] == '3');
    assert(alphabet()[56] == '4');
    assert(alphabet()[57] == '5');
    assert(alphabet()[58] == '6');
    assert(alphabet()[59] == '7');
    assert(alphabet()[60] == '8');
    assert(alphabet()[61] == '9');
    assert(alphabet()[62] == '+');
    assert(alphabet()[63] == '/');
}

/// The six-bit numbers of a byte string, with zeros behind it.
pub open spec fn sixes(b: Seq<u8>) -> Seq<int> {
    Seq::new(
        (b.len() * 8 + 5) / 6,
        |k: int|
            {
                let q = 3 * (k / 4);
                let x = |i: int|
                    if i < b.len() {
                        b[i] as int
                    } else {
                        0
                    };
                if k % 4 == 0 {
                    x(q) / 4
                } else if k % 4 == 1 {
                    16 * (x(q) % 4) + x(q + 1) / 16
                } else if k % 4 == 2 {
                    4 * (x(q + 1) % 16) + x(q + 2) / 64
                } else {
                    x(q + 2) % 64
                }
            },
    )
}

/// The digits of a byte string.
pub open spec fn base64_text(b: Seq<u8>) -> Seq<char> {
    Seq::new(sixes(b).len(), |k: int| alphabet()[sixes(b)[k]])
}

proof fn lemma_sixes_packed(b: Seq<u8>)
    ensures
        packed(sixes(b)) == b,
        forall|k: int| 0 <= k < sixes(b).len() ==> 0 <= #[trigger] sixes(b)[k] < 64,
{
    let v = sixes(b);
    assert(v.len() * 6 / 8 == b.len());
    assert forall|k: int| 0 <= k < b.len() implies packed(v)[k] == #[trigger] b[k] by {
        let q = 4 * (k / 3);
        assert(q / 4 == k / 3 && (q + 1) / 4 == k / 3 && (q + 2) / 4 == k / 3 && (q + 3) / 4 == k
            / 3);
        assert(q % 4 == 0 && (q + 1) % 4 == 1 && (q + 2) % 4 == 2 && (q + 3) % 4 == 3);
        if k % 3 == 0 {
            assert(k == 3 * (k / 3));
            assert(q + 1 < v.len());
        } else if k % 3 == 1 {
            assert(k == 3 * (k / 3) + 1);
            assert(q + 2 < v.len());
        } else {
            assert(k == 3 * (k / 3) + 2);
            assert(q + 3 < v.len());
        }
    }
    assert(packed(v) =~= b);
}

proof fn lemma_sextets_of_digits(v: Seq<int>)
    requires
        forall|k: int| 0 <= k < v.len() ==> 0 <= #[trigger] v[k] < 64,
    ensures
        sextets(Seq::new(v.len(), |k: int| alphabet()[v[k]])) == Ok::<Seq<int>, char>(v),
    decreases v.len(),
{
    let t = Seq::new(v.len(), |k: int| alphabet()[v[k]]);
    if v.len() == 0 {
        assert(v =~= Seq::<int>::empty());
    } else {
        let rest = v.drop_first();
        lemma_sextets_of_digits(rest);
        assert(t.drop_first() =~= Seq::new(rest.len(), |k: int| alphabet()[rest[k]]));
        lemma_alphabet(v[0]);
        assert(t.first() == alphabet()[v[0]]);
        assert(sextet(t.first()) == Some(v[0]));
        assert(!text::whitespace(t.first()) && t.first() != '=');
        assert(seq![v[0]] + rest =~= v);
    }
}

/// What is decoded of the digits of a byte string is the byte string.
pub proof fn lemma_base64_round_trip(b: Seq<u8>)
    ensures
        base64_bytes(base64_text(b)) == Ok::<Seq<u8>, SignError>(b),
{
    lemma_sixes_packed(b);
    lemma_sextets_of_digits(sixes(b));
}

/// White space between digits does not count, the first sign of equality ends them, and
/// any other character in front of it is refused.
pub proof fn lemma_base64_other_characters(c: char, rest: Seq<char>)
    ensures
        text::whitespace(c) ==> base64_bytes(seq![c] + rest) == base64_bytes(rest),
        base64_bytes(seq!['='] + rest) == Ok::<Seq<u8>, SignError>(Seq::empty()),
        !text::whitespace(c) && c != '=' && sextet(c) is None ==> base64_bytes(seq![c] + rest)
            == Err::<Seq<u8>, SignError>(SignError::InvalidBase64(c)),
        (forall|k: int| 0 <= k < 64 ==> #[trigger] alphabet()[k] != c) ==> sextet(c) is None,
{
    assert((seq![c] + rest).drop_first() =~= rest);
    assert((seq!['='] + rest).drop_first() =~= rest);
    assert(packed(Seq::<int>::empty()) =~= Seq::<u8>::empty());
    if sextet(c) is Some {
        lemma_alphabet(sextet(c)->Some_0);
        lemma_digit(c);
    }
}

/// A character that has a value is the digit at that place of the alphabet.
proof fn lemma_digit(c: char)
    requires
        sextet(c) is Some,
    ensures
        0 <= sextet(c)->Some_0 < 64,
        alphabet()[sextet(c)->Some_0] == c,
{
    let k = sextet(c)->Some_0;
    lemma_alphabet(k);
    let d = alphabet()[k];
    assert(sextet(d) == sextet(c));
}

proof fn lemma_line(text: Seq<char>, i: int, end: int)
    requires
        0 <= i <= end <= text.len(),
        forall|j: int| i <= j < end ==> #[trigger] text[j] != '\n',
        end < text.len() ==> text[end] == '\n',
    ensures
        line_end(text, i) == end,
    decreases end - i,
{
    if i < end {
        lemma_line(text, i + 1, end);
    }
}

/// Whether a text is one line, without white space at its ends.
pub open spec fn is_line(s: Seq<char>) -> bool {
    &&& forall|i: int| 0 <= i < s.len() ==> #[trigger] s[i] != '\n'
    &&& text::trimmed(s) == s
}

/// What stands between the first and the last line of a block is its body; without a
/// first line there is none.
pub proof fn lemma_pem_block(begin: Seq<char>, body: Seq<char>, end: Seq<char>, rest: Seq<char>)
    requires
        is_line(begin),
        is_line(body),
        is_line(end),
        text::starts_with(begin, "-----BEGIN "@),
        text::starts_with(end, "-----END "@),
        !text::starts_with(end, "-----BEGIN "@),
        !text::starts_with(body, "-----BEGIN "@),
        !text::starts_with(body, "-----END "@),
    ensures
        pem_body(begin + seq!['\n'] + body + seq!['\n'] + end + seq!['\n'] + rest, 0, false)
            == body,
        pem_body(body + seq!['\n'] + end + seq!['\n'] + rest, 0, false).len() == 0,
{
    let nl = seq!['\n'];
    let t = begin + nl + body + nl + end + nl + rest;
    let a = begin.len() as int;
    let b = a + 1 + body.len();
    let c = b + 1 + end.len();
    lemma_line(t, 0, a);
    lemma_line(t, a + 1, b);
    lemma_line(t, b + 1, c);
    assert(t.subrange(0, a) =~= begin);
    assert(t.subrange(a + 1, b) =~= body);
    assert(t.subrange(b + 1, c) =~= end);
    reveal_strlit("-----BEGIN ");
    assert(a > 0);
    assert(pem_body(t, b + 1, true) =~= Seq::<char>::empty());
    assert(pem_body(t, a + 1, true) =~= body);
    let u = body + nl + end + nl + rest;
    let d = body.len() as int;
    let e = d + 1 + end.len();
    lemma_line(u, 0, d);
    lemma_line(u, d + 1, e);
    assert(u.subrange(0, d) =~= body);
    assert(u.subrange(d + 1, e) =~= end);
    assert(pem_body(u, d + 1, false) =~= Seq::<char>::empty());
}

proof fn lemma_digits_are_a_line(der: Seq<u8>)
    ensures
        is_line(base64_text(der)),
        !text::starts_with(base64_text(der), "-----BEGIN "@),
        !text::starts_with(base64_text(der), "-----END "@),
{
    let t = base64_text(der);
    lemma_sixes_packed(der);
    assert forall|i: int| 0 <= i < t.len() implies !text::whitespace(#[trigger] t[i]) && t[i]
        != '\n' && t[i] != '-' by {
        lemma_alphabet(sixes(der)[i]);
        assert(sextet(t[i]) is Some);
    }
    text::lemma_trimmed(t);
    let (a, b) = choose|a: int, b: int| #[trigger]
        text::trims_to(t, a, b) && text::trimmed(t) == t.subrange(a, b);
    if a > 0 {
        assert(text::whitespace(t[0]));
    }
    if b < t.len() {
        assert(text::whitespace(t[b]));
    }
    assert(t.subrange(0, t.len() as int) =~= t);
    reveal_strlit("-----BEGIN ");
    reveal_strlit("-----END ");
    if text::starts_with(t, "-----BEGIN "@) {
        assert(t.subrange(0, 11)[0] == t[0]);
    }
    if text::starts_with(t, "-----END "@) {
        assert(t.subrange(0, 9)[0] == t[0]);
    }
}

/// What stands in a block in the digits of base64 is read back, whatever follows the
/// block; bytes that are no text are refused, and so is a text without a block.
pub proof fn lemma_pem_read_back(
    pem: Seq<u8>,
    begin: Seq<char>,
    der: Seq<u8>,
    end: Seq<char>,
    rest: Seq<char>,
)
    requires
        is_line(begin),
        is_line(end),
        text::starts_with(begin, "-----BEGIN "@),
        text::starts_with(end, "-----END "@),
        !text::starts_with(end, "-----BEGIN "@),
        der.len() > 0,
    ensures
        !utf8::valid_utf8(pem) ==> pem_bytes(pem) == Err::<Seq<u8>, SignError>(
            SignError::PemNotUtf8,
        ),
        utf8::valid_utf8(pem) && utf8::decode_utf8(pem) == begin + seq!['\n'] + base64_text(der)
            + seq!['\n'] + end + seq!['\n'] + rest ==> pem_bytes(pem) == Ok::<
            Seq<u8>,
            SignError,
        >(der),
        utf8::valid_utf8(pem) && utf8::decode_utf8(pem) == base64_text(der) + seq!['\n'] + end
            + seq!['\n'] + rest ==> pem_bytes(pem) == Err::<Seq<u8>, SignError>(
            SignError::PemEmpty,
        ),
{
    lemma_digits_are_a_line(der);
    lemma_pem_block(begin, base64_text(der), end, rest);
    lemma_base64_round_trip(der);
    assert(base64_text(der).len() > 0);
}

} // verus!
