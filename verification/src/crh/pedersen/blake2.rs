//! Calls into the `blake2` crate.

use blake2::Digest;
use vstd::prelude::*;

verus! {

/// The Blake2s digest (32 bytes) of the bytes `seed` followed by the bytes `input`.
pub uninterp spec fn blake2s_seeded(seed: Seq<u8>, input: Seq<u8>) -> [u8; 32];

/// Hashes `seed` and then `input` into one `blake2::Blake2s` state (`new`, two calls of
/// `update`, `finalize`). Claimed: the result is a function of the two byte strings,
/// named `blake2s_seeded`.
#[verifier::external_body]
pub(crate) fn blake2s_seeded_hash(seed: &[u8; 32], input: &[u8]) -> (r: [u8; 32])
    ensures
        r == blake2s_seeded(seed@, input@),
{
    let mut h = blake2::Blake2s::new();
    h.update(&seed[..]);
    h.update(input);
    let mut result = [0u8; 32];
    result.copy_from_slice(&h.finalize());
    result
}

/// Draws 32 random bytes from `rng` (`Rng::gen`). Nothing is claimed of their values.
#[verifier::external_body]
pub(crate) fn random_seed(rng: &mut ark_std::rand::rngs::StdRng) -> (r: [u8; 32]) {
    ark_std::rand::Rng::gen(rng)
}

} // verus!
