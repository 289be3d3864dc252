//! Digests computed by outside crates. Each function here makes one outside
//! call; its contract names the digest as a function of the input bytes and
//! states the digest's length, as the crate's documentation gives it.
use vstd::prelude::*;
use sha2::Digest;

verus! {

/// The BLAKE3 digest (32 bytes) of the input, as `blake3::hash` computes it.
pub uninterp spec fn blake3_digest(input: Seq<u8>) -> Seq<u8>;

/// The SHA-256 digest (32 bytes) of the input.
pub uninterp spec fn sha256_digest(input: Seq<u8>) -> Seq<u8>;

/// The SHA-512 digest (64 bytes) of the input.
pub uninterp spec fn sha512_digest(input: Seq<u8>) -> Seq<u8>;

/// The SHA3-256 digest (32 bytes) of the input.
pub uninterp spec fn sha3_256_digest(input: Seq<u8>) -> Seq<u8>;

/// The SHA3-512 digest (64 bytes) of the input.
pub uninterp spec fn sha3_512_digest(input: Seq<u8>) -> Seq<u8>;

/// The 32-byte hash that `fides::hash::blake_3` gives of the input.
pub uninterp spec fn fides_blake_3(input: Seq<u8>) -> Seq<u8>;

/// Calls `blake3::hash`. Claimed: the result is the 32-byte BLAKE3 digest of
/// the input, a function of the input alone.
#[verifier::external_body]
pub(crate) fn blake3_hash(input: &[u8]) -> (r: [u8; 32])
    ensures
        r@ == blake3_digest(input@),
        r@.len() == 32,
{
    *blake3::hash(input).as_bytes()
}

/// Calls `<sha2::Sha256 as Digest>::digest`. Claimed: the result is the
/// 32-byte SHA-256 digest of the input, a function of the input alone.
#[verifier::external_body]
pub(crate) fn sha256(input: &[u8]) -> (r: Vec<u8>)
    ensures
        r@ == sha256_digest(input@),
        r@.len() == 32,
{
    sha2::Sha256::digest(input).to_vec()
}

/// Calls `<sha2::Sha512 as Digest>::digest`. Claimed: the result is the
/// 64-byte SHA-512 digest of the input, a function of the input alone.
#[verifier::external_body]
pub(crate) fn sha512(input: &[u8]) -> (r: Vec<u8>)
    ensures
        r@ == sha512_digest(input@),
        r@.len() == 64,
{
    sha2::Sha512::digest(input).to_vec()
}

/// Calls `<sha3::Sha3_256 as Digest>::digest`. Claimed: the result is the
/// 32-byte SHA3-256 digest of the input, a function of the input alone.
#[verifier::external_body]
pub(crate) fn sha3_256(input: &[u8]) -> (r: Vec<u8>)
    ensures
        r@ == sha3_256_digest(input@),
        r@.len() == 32,
{
    sha3::Sha3_256::digest(input).to_vec()
}

/// Calls `<sha3::Sha3_512 as Digest>::digest`. Claimed: the result is the
/// 64-byte SHA3-512 digest of the input, a function of the input alone.
#[verifier::external_body]
pub(crate) fn sha3_512(input: &[u8]) -> (r: Vec<u8>)
    ensures
        r@ == sha3_512_digest(input@),
        r@.len() == 64,
{
    sha3::Sha3_512::digest(input).to_vec()
}

/// Calls `fides::hash::blake_3`. Claimed: the result is a 32-byte array that
/// depends on the input alone.
#[verifier::external_body]
pub(crate) fn fides_hash(input: &[u8]) -> (r: [u8; 32])
    ensures
        r@ == fides_blake_3(input@),
        r@.len() == 32,
{
    fides::hash::blake_3(input)
}

} // verus!
