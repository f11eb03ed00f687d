//! Message digests, as `ring` computes them.
use vstd::prelude::*;

verus! {

/// The longest input `ring` digests: its bit length has to fit in 64 bits.
pub const MAX_DIGEST_INPUT: u64 = 0x1fff_ffff_ffff_ffff;

/// The SHA-1 digest of `data`, as `ring::digest::digest` computes it with
/// `SHA1_FOR_LEGACY_USE_ONLY`.
pub uninterp spec fn sha1_of(data: Seq<u8>) -> Seq<u8>;

/// The SHA-256 digest of `data`, as `ring::digest::digest` computes it with
/// `SHA256`.
pub uninterp spec fn sha256_of(data: Seq<u8>) -> Seq<u8>;

/// Calls `ring::digest::digest` with `SHA1_FOR_LEGACY_USE_ONLY`. Trusted: the
/// digest is a function of the data alone and is 20 bytes long. `ring` panics
/// on an input of 2^61 bytes or more.
#[verifier::external_body]
pub(crate) fn sha1(data: &[u8]) -> (r: Vec<u8>)
    requires
        data@.len() <= MAX_DIGEST_INPUT,
    ensures
        r@ == sha1_of(data@),
        r@.len() == 20,
{
    ring::digest::digest(&ring::digest::SHA1_FOR_LEGACY_USE_ONLY, data).as_ref().to_vec()
}

/// Calls `ring::digest::digest` with `SHA256`. Trusted: the digest is a
/// function of the data alone and is 32 bytes long. `ring` panics on an input
/// of 2^61 bytes or more.
#[verifier::external_body]
pub(crate) fn sha256(data: &[u8]) -> (r: Vec<u8>)
    requires
        data@.len() <= MAX_DIGEST_INPUT,
    ensures
        r@ == sha256_of(data@),
        r@.len() == 32,
{
    ring::digest::digest(&ring::digest::SHA256, data).as_ref().to_vec()
}

} // verus!
