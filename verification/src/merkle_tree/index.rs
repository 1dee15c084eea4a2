//! Positions of the nodes of a complete binary tree stored level by level in an array,
//! and the sizes and heights of such trees.

use vstd::prelude::*;
use vstd::arithmetic::power2::*;

verus! {

// ---------------------------------------------------------------------------
// Positions in the array that stores a complete binary tree level by level.
// ---------------------------------------------------------------------------

/// Position of the left child of the node at `index`.
pub open spec fn spec_left_child(index: nat) -> nat {
    2 * index + 1
}

/// Position of the right child of the node at `index`.
pub open spec fn spec_right_child(index: nat) -> nat {
    2 * index + 2
}

/// Whether the node at `index` is the left child of its parent.
pub open spec fn spec_is_left_child(index: nat) -> bool {
    index % 2 == 1
}

/// Position of the parent of the node at `index`, none for the root.
pub open spec fn spec_parent(index: nat) -> Option<nat> {
    if index > 0 {
        Some(((index - 1) as nat) / 2)
    } else {
        None
    }
}

/// Position of the sibling of the node at `index`, none for the root.
pub open spec fn spec_sibling(index: nat) -> Option<nat> {
    if index == 0 {
        None
    } else if spec_is_left_child(index) {
        Some(index + 1)
    } else {
        Some((index - 1) as nat)
    }
}

/// Returns true iff the index represents the root.
pub(crate) fn is_root(index: usize) -> (r: bool)
    ensures
        r == (index == 0),
{
    index == 0
}

/// Returns the index of the left child, given an index.
pub(crate) fn left_child(index: usize) -> (r: usize)
    requires
        2 * index + 1 <= usize::MAX,
    ensures
        r == spec_left_child(index as nat),
{
    2 * index + 1
}

/// Returns the index of the right child, given an index.
pub(crate) fn right_child(index: usize) -> (r: usize)
    requires
        2 * index + 2 <= usize::MAX,
    ensures
        r == spec_right_child(index as nat),
{
    2 * index + 2
}

/// Returns true iff the given index represents a left child.
pub(crate) fn is_left_child(index: usize) -> (r: bool)
    ensures
        r == spec_is_left_child(index as nat),
{
    index % 2 == 1
}

/// Returns the index of the sibling, given an index.
pub(crate) fn sibling(index: usize) -> (r: Option<usize>)
    requires
        index < usize::MAX,
    ensures
        r == (match spec_sibling(index as nat) {
            Some(s) => Some(s as usize),
            None => None,
        }),
{
    if index == 0 {
        None
    } else if is_left_child(index) {
        Some(index + 1)
    } else {
        Some(index - 1)
    }
}

/// Returns the index of the parent, given an index.
pub(crate) fn parent(index: usize) -> (r: Option<usize>)
    ensures
        r == (match spec_parent(index as nat) {
            Some(p) => Some(p as usize),
            None => None,
        }),
{
    if index > 0 {
        let i: usize = index - 1;
        assert(i >> 1 == i / 2) by (bit_vector);
        Some((index - 1) >> 1)
    } else {
        None
    }
}


// ---------------------------------------------------------------------------
// Sizes and heights of complete binary trees.
// ---------------------------------------------------------------------------

/// The least `k` with `2^k >= n`.
pub open spec fn log2_ceil(n: nat) -> nat
    decreases n,
{
    if n <= 1 {
        0
    } else {
        1 + log2_ceil(((n + 1) / 2) as nat)
    }
}

/// `2^log2_ceil(n)` is the least power of two that is at least `n`.
pub proof fn lemma_log2_ceil(n: nat)
    ensures
        pow2(log2_ceil(n)) >= n,
        log2_ceil(n) > 0 ==> pow2((log2_ceil(n) - 1) as nat) < n,
    decreases n,
{
    lemma2_to64();
    if n > 1 {
        let m = ((n + 1) / 2) as nat;
        let lm = log2_ceil(m);
        lemma_log2_ceil(m);
        assert(log2_ceil(n) == lm + 1);
        lemma_pow2_unfold(lm + 1);
        if lm > 0 {
            lemma_pow2_unfold(lm);
        }
    }
}

/// The number of levels of a complete binary tree with `tree_size` nodes: the ceiling of
/// `log2(tree_size)`, and one for a single node.
pub open spec fn spec_tree_height(tree_size: nat) -> nat {
    if tree_size == 1 {
        1
    } else {
        log2_ceil(tree_size)
    }
}

/// `ark_std::log2`: the ceiling of the base-2 logarithm of `x`, and 0 for 0.
/// Claimed: for `x > 0` the result `r` is the least `r` with `2^r >= x`.
#[verifier::external_body]
fn log2(x: usize) -> (r: u32)
    ensures
        x == 0 ==> r == 0,
        x > 0 ==> pow2(r as nat) >= x && (r == 0 || pow2((r - 1) as nat) < x),
{
    ark_std::log2(x)
}

/// Two exponents that both make `2^r` the least power of two at least `x` are equal.
pub proof fn lemma_least_pow2_unique(x: nat, r: nat, s: nat)
    requires
        x > 0,
        pow2(r) >= x,
        r == 0 || pow2((r - 1) as nat) < x,
        pow2(s) >= x,
        s == 0 || pow2((s - 1) as nat) < x,
    ensures
        r == s,
{
    if r < s {
        lemma_pow2_increases(r, (s - 1) as nat);
    } else if s < r {
        lemma_pow2_increases(s, (r - 1) as nat);
    }
}

/// `pow2` does not decrease.
pub proof fn lemma_pow2_increases(a: nat, b: nat)
    requires
        a <= b,
    ensures
        pow2(a) <= pow2(b),
{
    if a < b {
        lemma_pow2_strictly_increases(a, b);
    }
}

/// Returns the height of the tree, given the size of the tree.
pub(crate) fn tree_height(tree_size: usize) -> (r: usize)
    ensures
        r == spec_tree_height(tree_size as nat),
{
    if tree_size == 1 {
        return 1;
    }
    let h = log2(tree_size);
    proof {
        if tree_size > 1 {
            lemma_log2_ceil(tree_size as nat);
            lemma_least_pow2_unique(tree_size as nat, h as nat, log2_ceil(tree_size as nat));
        } else {
            reveal_with_fuel(log2_ceil, 1);
        }
    }
    h as usize
}

/// A tree with `2^k` leaves has `2^(k+1) - 1` nodes on `k + 1` levels.
pub proof fn lemma_tree_height_of_size(k: nat)
    ensures
        spec_tree_height((2 * pow2(k) - 1) as nat) == k + 1,
{
    lemma_pow2_pos(k);
    lemma2_to64();
    let size = (2 * pow2(k) - 1) as nat;
    lemma_pow2_unfold(k + 1);
    if k > 0 {
        lemma_log2_ceil(size);
        lemma_pow2_strictly_increases(0, k);
        lemma_least_pow2_unique(size, log2_ceil(size), k + 1);
    }
}

/// Below a power of two, a power of two is at most half of it.
pub proof fn lemma_pow2_below_pow2(j: nat, e: nat)
    requires
        pow2(j) < pow2(e),
    ensures
        2 * pow2(j) <= pow2(e),
{
    lemma_pow2_unfold(j + 1);
    if j >= e {
        lemma_pow2_increases(e, j);
    }
    lemma_pow2_increases(j + 1, e);
}

/// `usize::MAX / 4 + 1` is a power of two, and twice it still fits in a `usize`.
pub proof fn lemma_quarter_usize() -> (e: nat)
    ensures
        usize::MAX / 4 + 1 == pow2(e),
        2 * pow2(e) <= usize::MAX,
{
    lemma2_to64();
    lemma2_to64_rest();
    if usize::MAX == 0xffff_ffff {
        30
    } else {
        62
    }
}

/// A power of two that fits in a `usize` has an exponent below `usize::BITS`.
pub proof fn lemma_pow2_fits_usize(j: nat)
    requires
        pow2(j) <= usize::MAX,
    ensures
        j < usize::BITS,
{
    lemma2_to64();
    lemma2_to64_rest();
    assert(usize::BITS == 32 || usize::BITS == 64);
    if j >= usize::BITS {
        lemma_pow2_increases(usize::BITS as nat, j);
    }
}

/// Position in the whole tree of leaf `index` of a tree with `tree_height` levels.
pub(crate) fn convert_index_to_last_level(index: usize, tree_height: usize) -> (r: usize)
    requires
        tree_height >= 1,
        index + pow2((tree_height - 1) as nat) <= usize::MAX,
    ensures
        r == index + pow2((tree_height - 1) as nat) - 1,
{
    let ghost e = (tree_height - 1) as nat;
    proof {
        lemma_pow2_pos(e);
        lemma_pow2_fits_usize(e);
        vstd::bits::lemma_usize_shl_is_mul(1, (tree_height - 1) as usize);
    }
    index + (1 << (tree_height - 1)) - 1
}

/// The parent of either child of a node is that node.
pub proof fn lemma_parent_of_children(index: nat)
    ensures
        spec_parent(spec_left_child(index)) == Some(index),
        spec_parent(spec_right_child(index)) == Some(index),
        spec_is_left_child(spec_left_child(index)),
        !spec_is_left_child(spec_right_child(index)),
{
}

/// The sibling of a node other than the root is a different node with the same parent,
/// and the sibling relation is symmetric.
pub proof fn lemma_sibling(index: nat)
    requires
        index > 0,
    ensures
        spec_sibling(index) is Some,
        spec_sibling(index).unwrap() != index,
        spec_sibling(index).unwrap() > 0,
        spec_parent(spec_sibling(index).unwrap()) == spec_parent(index),
        spec_sibling(spec_sibling(index).unwrap()) == Some(index),
        spec_is_left_child(index) != spec_is_left_child(spec_sibling(index).unwrap()),
{
}

/// Every node other than the root is one of the two children of its parent, and the
/// parent comes before it.
pub proof fn lemma_child_of_parent(index: nat)
    requires
        index > 0,
    ensures
        spec_parent(index) is Some,
        spec_parent(index).unwrap() < index,
        spec_is_left_child(index) ==> index == spec_left_child(spec_parent(index).unwrap()),
        !spec_is_left_child(index) ==> index == spec_right_child(spec_parent(index).unwrap()),
{
}

} // verus!
