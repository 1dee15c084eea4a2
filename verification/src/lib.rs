//! Collision-resistant hash functions and Merkle trees built on them.

pub mod crh;
pub mod merkle_tree;

use vstd::prelude::*;

verus! {

/// The errors of this library.
#[derive(Debug, PartialEq, Eq, Structural, Clone, Copy)]
pub enum Error {
    /// A hash evaluation failed: a group element of the parameters does not decode.
    Crh,
    /// Bytes do not hold a well-formed digest or path.
    Decode,
    /// A Merkle tree operation failed.
    MerkleTree(merkle_tree::Error),
}

} // verus!
