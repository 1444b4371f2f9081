//! Hashes that other crates compute: SHA-256 for the identity of a file, and
//! the Fx hash that spreads pieces over peers.
use vstd::prelude::*;
use sha2::Digest;

verus! {

/// The SHA-256 digest of a run of bytes: thirty-two bytes.
pub uninterp spec fn sha256_digest(bytes: Seq<u8>) -> Seq<u8>;

/// `Sha256::digest` of the `sha2` crate, its output copied into an array.
#[verifier::external_body]
pub(crate) fn sha256(bytes: &[u8]) -> (r: [u8; 32])
    ensures
        r@ == sha256_digest(bytes@),
{
    sha2::Sha256::digest(bytes).into()
}

/// The multiplier of the 64-bit Fx hash.
pub open spec fn fx_seed() -> int {
    0x517c_c1b7_2722_0a95
}

/// The 64-bit Fx hash of one machine word: the word times the multiplier,
/// cut to 64 bits.
pub open spec fn fx_hash64(word: int) -> int {
    (word * fx_seed()) % 0x1_0000_0000_0000_0000
}

/// `fxhash::hash64` of a `usize`. The hasher starts at zero, so its one step
/// (rotate, exclusive-or with the word, wrapping multiply) leaves the word
/// times the multiplier.
#[verifier::external_body]
pub(crate) fn fx_hash64_usize(word: usize) -> (r: u64)
    ensures
        r == fx_hash64(word as int),
{
    fxhash::hash64(&word)
}

} // verus!
