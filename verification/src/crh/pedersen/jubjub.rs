//! Calls into `ark-ec` on the JubJub curve of `ark-ed-on-bls12-381`.
//!
//! A point is handled as its byte encoding: 128 bytes for the extended projective
//! coordinates `(x, y, t, z)` and 64 bytes for the affine coordinates `(x, y)`, each
//! coordinate a base field element written as 32 little-endian bytes.

use ark_ec::ProjectiveCurve;
use ark_ed_on_bls12_381::{EdwardsAffine, EdwardsProjective};
use ark_ff::{FromBytes, ToBytes, Zero};
use ark_std::UniformRand;
use vstd::prelude::*;

verus! {

/// The number that the bytes `b` write in little-endian order.
pub open spec fn le_value(b: Seq<u8>) -> nat
    decreases b.len(),
{
    if b.len() == 0 {
        0
    } else {
        (b[0] + 256 * le_value(b.drop_first())) as nat
    }
}

/// The modulus of the base field of JubJub (the scalar field of BLS12-381).
pub open spec fn base_field_modulus() -> nat {
    52435875175126190479447740508185965837690552500527637822603658699938581184513nat
}

/// Whether the first `n` coordinates of `p`, 32 little-endian bytes each, are canonical
/// base field elements: each below the modulus.
pub open spec fn coordinates_decode(p: Seq<u8>, n: nat) -> bool {
    &&& p.len() == 32 * n
    &&& forall|i: int| 0 <= i < n ==> #[trigger] le_value(p.subrange(32 * i, 32 * i + 32)) < base_field_modulus()
}

/// Whether `EdwardsProjective::read` accepts the bytes `p`: four coordinates
/// `(x, y, t, z)`, each read with `from_repr`, which refuses a value at or above the
/// modulus. No curve equation is checked.
pub closed spec fn jubjub_decodes(p: Seq<u8>) -> bool {
    coordinates_decode(p, 4)
}

/// The encoding of the double of the point encoded by `p`.
pub uninterp spec fn jubjub_double(p: Seq<u8>) -> [u8; 128];

/// The encoding of the sum of the points encoded by `a` and `b`.
pub uninterp spec fn jubjub_add(a: Seq<u8>, b: Seq<u8>) -> [u8; 128];

/// The affine encoding of the point whose projective encoding is `p`.
pub uninterp spec fn jubjub_normalize(p: Seq<u8>) -> [u8; 64];

/// Whether `EdwardsAffine::read` accepts the bytes `p`: two coordinates `(x, y)`,
/// each read with `from_repr`. No curve equation is checked.
pub closed spec fn jubjub_affine_decodes(p: Seq<u8>) -> bool {
    coordinates_decode(p, 2)
}

/// The projective encoding of the identity `(0, 1, 0, 1)`.
pub open spec fn projective_zero_encoding() -> Seq<u8> {
    Seq::new(128, |i: int| if i == 32 || i == 96 { 1u8 } else { 0u8 })
}

/// The affine encoding of the identity `(0, 1)`.
pub open spec fn affine_zero_encoding() -> Seq<u8> {
    Seq::new(64, |i: int| if i == 32 { 1u8 } else { 0u8 })
}

/// `EdwardsProjective::zero()`, written out with `ToBytes`. Claimed: its encoding is
/// that of `(0, 1, 0, 1)`, and `read` accepts it; adding it to itself (`+`, whose
/// formulas give `(0, 1, 0, 1)` again) gives it back; and
/// `batch_normalization_into_affine` turns it into the affine identity `(0, 1)`.
#[verifier::external_body]
pub(crate) fn zero() -> (r: [u8; 128])
    ensures
        r@ == projective_zero_encoding(),
        jubjub_decodes(r@),
        jubjub_add(r@, r@)@ == r@,
        jubjub_normalize(r@)@ == affine_zero_encoding(),
{
    let mut out = [0u8; 128];
    let _ = EdwardsProjective::zero().write(&mut out[..]);
    out
}

/// `EdwardsAffine::zero()`, the default affine point, written out with `ToBytes`.
/// Claimed: its encoding is that of `(0, 1)`.
#[verifier::external_body]
pub(crate) fn affine_zero() -> (r: [u8; 64])
    ensures
        r@ == affine_zero_encoding(),
{
    let mut out = [0u8; 64];
    let _ = EdwardsAffine::zero().write(&mut out[..]);
    out
}

/// `EdwardsProjective::rand(rng)` (`UniformRand`), written out with `ToBytes`.
/// Claimed: `read` accepts the encoding; nothing about which point it is.
#[verifier::external_body]
pub(crate) fn random_point(rng: &mut ark_std::rand::rngs::StdRng) -> (r: [u8; 128])
    ensures
        jubjub_decodes(r@),
{
    let mut out = [0u8; 128];
    let _ = EdwardsProjective::rand(rng).write(&mut out[..]);
    out
}

/// Reads the point `p` with `FromBytes`, doubles it with `double_in_place` and writes
/// it out. Claimed: the result is named `jubjub_double`, and `read` accepts it.
#[verifier::external_body]
pub(crate) fn double(p: &[u8; 128]) -> (r: [u8; 128])
    requires
        jubjub_decodes(p@),
    ensures
        r == jubjub_double(p@),
        jubjub_decodes(r@),
{
    let mut q = EdwardsProjective::read(&p[..]).unwrap();
    q.double_in_place();
    let mut out = [0u8; 128];
    let _ = q.write(&mut out[..]);
    out
}

/// Reads the points `a` and `b` with `FromBytes`, adds them (`+`) and writes the sum out.
/// Claimed: it fails exactly where one of them does not decode, the sum is named
/// `jubjub_add`, and `read` accepts it.
#[verifier::external_body]
pub(crate) fn add(a: &[u8; 128], b: &[u8; 128]) -> (r: Option<[u8; 128]>)
    ensures
        r is Some <==> (jubjub_decodes(a@) && jubjub_decodes(b@)),
        r matches Some(c) ==> c == jubjub_add(a@, b@) && jubjub_decodes(c@),
{
    match (EdwardsProjective::read(&a[..]), EdwardsProjective::read(&b[..])) {
        (Ok(x), Ok(y)) => {
            let mut out = [0u8; 128];
            let _ = (x + &y).write(&mut out[..]);
            Some(out)
        },
        _ => None,
    }
}

/// Reads the point `p` with `FromBytes`, turns it into affine coordinates with
/// `ProjectiveCurve::batch_normalization_into_affine` and writes them out. Claimed: the
/// result is named `jubjub_normalize`, and `EdwardsAffine::read` accepts it. For a point
/// with a nonzero `z` this is the conversion `into()`; unlike `into()`, it does not panic
/// on an encoding with `z = 0` that is not the identity.
#[verifier::external_body]
pub(crate) fn normalize(p: &[u8; 128]) -> (r: [u8; 64])
    requires
        jubjub_decodes(p@),
    ensures
        r == jubjub_normalize(p@),
        jubjub_affine_decodes(r@),
{
    let q = EdwardsProjective::read(&p[..]).unwrap();
    let mut out = [0u8; 64];
    let _ = EdwardsProjective::batch_normalization_into_affine(&[q])[0].write(&mut out[..]);
    out
}

/// Reads an affine point from the start of `bytes` with `EdwardsAffine::read`, and writes
/// it out again. Claimed: it succeeds exactly where there are 64 bytes that decode, and
/// what is written out again is those 64 bytes (`read` takes canonical field elements
/// only, and `write` writes them canonically).
#[verifier::external_body]
pub(crate) fn affine_read(bytes: &[u8]) -> (r: Option<[u8; 64]>)
    ensures
        r is Some <==> (bytes@.len() >= 64 && jubjub_affine_decodes(bytes@.take(64))),
        r matches Some(v) ==> v@ == bytes@.take(64),
{
    match EdwardsAffine::read(bytes) {
        Ok(q) => {
            let mut out = [0u8; 64];
            let _ = q.write(&mut out[..]);
            Some(out)
        },
        Err(_) => None,
    }
}

} // verus!
