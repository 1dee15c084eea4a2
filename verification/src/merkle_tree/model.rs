//! The mathematical model of Merkle tree construction, authentication paths and their
//! verification, over the byte encodings of digests.

use crate::crh::FixedLengthCRH;
use crate::merkle_tree::index::{log2_ceil, spec_is_left_child, spec_tree_height};
use crate::merkle_tree::Error as MerkleError;
use crate::Error;
use crate::merkle_tree::Config;
use vstd::arithmetic::power2::*;
use vstd::prelude::*;

verus! {

/// The size of the scratch buffer that hash inputs are assembled in.
pub open spec fn buffer_size() -> nat {
    128
}

/// `n` zero bytes.
pub open spec fn zeros(n: nat) -> Seq<u8> {
    Seq::new(n, |i: int| 0u8)
}

/// `buf` with its start overwritten by `data`, as far as `buf` reaches.
pub open spec fn write_prefix(buf: Seq<u8>, data: Seq<u8>) -> Seq<u8> {
    Seq::new(buf.len(), |i: int| if i < data.len() { data[i] } else { buf[i] })
}

/// The number of input bytes that `H` hashes.
pub open spec fn input_len<H: FixedLengthCRH>() -> nat {
    (H::INPUT_SIZE_BITS / 8) as nat
}

/// The hash of the first `input_len` bytes of the buffer `buf`.
pub open spec fn hash_buffer<H: FixedLengthCRH>(parameters: H::Parameters, buf: Seq<u8>) -> Option<Seq<u8>> {
    H::spec_evaluate(parameters, buf.take(input_len::<H>() as int))
}

/// The hash of an all-zero input: the value of an empty leaf.
pub open spec fn spec_hash_empty<H: FixedLengthCRH>(parameters: H::Parameters) -> Option<Seq<u8>> {
    H::spec_evaluate(parameters, zeros(input_len::<H>()))
}

/// The hash of a leaf written into a fresh buffer.
pub open spec fn spec_fresh_leaf_hash<H: FixedLengthCRH>(parameters: H::Parameters, leaf: Seq<u8>) -> Option<Seq<u8>> {
    hash_buffer::<H>(parameters, write_prefix(zeros(buffer_size()), leaf))
}

/// The hash of two digests written one after the other into a fresh buffer.
pub open spec fn spec_inner_hash<H: FixedLengthCRH>(parameters: H::Parameters, left: Seq<u8>, right: Seq<u8>) -> Option<Seq<u8>> {
    hash_buffer::<H>(parameters, write_prefix(zeros(buffer_size()), left + right))
}

/// The content of the buffer that tree construction hashes leaves in, after the first `i`
/// leaves were written into it, one after the other.
pub open spec fn leaf_buffer(leaves: Seq<Seq<u8>>, i: nat) -> Seq<u8>
    decreases i,
{
    if i == 0 {
        zeros(buffer_size())
    } else {
        write_prefix(leaf_buffer(leaves, (i - 1) as nat), leaves[i - 1])
    }
}

/// The hash that tree construction computes for leaf `i`.
pub open spec fn spec_leaf_hash<H: FixedLengthCRH>(parameters: H::Parameters, leaves: Seq<Seq<u8>>, i: nat) -> Option<Seq<u8>> {
    hash_buffer::<H>(parameters, leaf_buffer(leaves, i + 1))
}

/// The value of node `c` of a tree with `num_leaves` leaf positions: the hash of leaf `i`
/// at leaf position `i` (`leaf_hashes[i]`, `empty` past the leaves), and the hash of its
/// two children at an inner node.
pub open spec fn node_hash<H: FixedLengthCRH>(
    parameters: H::Parameters,
    leaf_hashes: Seq<Seq<u8>>,
    empty: Seq<u8>,
    num_leaves: nat,
    c: nat,
) -> Option<Seq<u8>>
    decreases 2 * num_leaves - c,
{
    if c + 1 >= num_leaves {
        let i = (c + 1 - num_leaves) as nat;
        if i < leaf_hashes.len() {
            Some(leaf_hashes[i as int])
        } else {
            Some(empty)
        }
    } else {
        match (
            node_hash::<H>(parameters, leaf_hashes, empty, num_leaves, 2 * c + 1),
            node_hash::<H>(parameters, leaf_hashes, empty, num_leaves, 2 * c + 2),
        ) {
            (Some(l), Some(r)) => spec_inner_hash::<H>(parameters, l, r),
            _ => None,
        }
    }
}

/// The value after `j` steps of the chain that lifts a tree to the configured height:
/// each step hashes the value with the empty leaf.
pub open spec fn padding_value<H: FixedLengthCRH>(parameters: H::Parameters, empty: Seq<u8>, start: Seq<u8>, j: nat) -> Option<Seq<u8>>
    decreases j,
{
    if j == 0 {
        Some(start)
    } else {
        match padding_value::<H>(parameters, empty, start, (j - 1) as nat) {
            Some(v) => spec_inner_hash::<H>(parameters, v, empty),
            None => None,
        }
    }
}

/// The configured height, as the tree stores it in a byte.
pub open spec fn height8<P: Config>() -> nat {
    (P::HEIGHT as u8) as nat
}

/// The number of leaf positions of the tree built from `n` leaves.
pub open spec fn num_leaf_slots(n: nat) -> nat {
    pow2(log2_ceil(n))
}

/// The number of levels of the tree built from `n` leaves.
pub open spec fn levels(n: nat) -> nat {
    log2_ceil(n) + 1
}

/// The number of hashing steps from the root of the tree built from `n` leaves to the
/// root of the padded tree.
pub open spec fn padding_steps<P: Config>(n: nat) -> nat {
    if levels(n) < height8::<P>() {
        (height8::<P>() - levels(n)) as nat
    } else {
        0
    }
}

/// The leaf hashes of the tree built from `leaves`.
pub open spec fn model_leaf_hashes<H: FixedLengthCRH>(parameters: H::Parameters, leaves: Seq<Seq<u8>>) -> Seq<Seq<u8>> {
    Seq::new(leaves.len(), |i: int| spec_leaf_hash::<H>(parameters, leaves, i as nat).unwrap())
}

/// The value of node `c` of the tree built from `leaves`.
pub open spec fn model_node<H: FixedLengthCRH>(parameters: H::Parameters, leaves: Seq<Seq<u8>>, c: nat) -> Option<Seq<u8>> {
    node_hash::<H>(
        parameters,
        model_leaf_hashes::<H>(parameters, leaves),
        spec_hash_empty::<H>(parameters).unwrap(),
        num_leaf_slots(leaves.len()),
        c,
    )
}

/// Whether building a tree from `leaves` succeeds: every hash that it computes is defined.
pub open spec fn new_succeeds<P: Config>(parameters: <P::H as FixedLengthCRH>::Parameters, leaves: Seq<Seq<u8>>) -> bool {
    &&& spec_hash_empty::<P::H>(parameters) is Some
    &&& forall|i: nat| i < leaves.len() ==> (#[trigger] spec_leaf_hash::<P::H>(parameters, leaves, i)) is Some
    &&& model_node::<P::H>(parameters, leaves, 0) is Some
    &&& padding_value::<P::H>(
        parameters,
        spec_hash_empty::<P::H>(parameters).unwrap(),
        model_node::<P::H>(parameters, leaves, 0).unwrap(),
        padding_steps::<P>(leaves.len()),
    ) is Some
}

/// The nodes of the tree built from `leaves`, level by level from the root.
pub open spec fn model_tree<P: Config>(parameters: <P::H as FixedLengthCRH>::Parameters, leaves: Seq<Seq<u8>>) -> Seq<Seq<u8>> {
    Seq::new(
        (2 * num_leaf_slots(leaves.len()) - 1) as nat,
        |c: int| model_node::<P::H>(parameters, leaves, c as nat).unwrap(),
    )
}

/// The pairs that lift the tree built from `leaves` to the configured height.
pub open spec fn model_padding<P: Config>(parameters: <P::H as FixedLengthCRH>::Parameters, leaves: Seq<Seq<u8>>) -> Seq<(Seq<u8>, Seq<u8>)> {
    let empty = spec_hash_empty::<P::H>(parameters).unwrap();
    let top = model_node::<P::H>(parameters, leaves, 0).unwrap();
    let m = if padding_steps::<P>(leaves.len()) > 0 {
        (padding_steps::<P>(leaves.len()) - 1) as nat
    } else {
        0
    };
    Seq::new(m, |j: int| (padding_value::<P::H>(parameters, empty, top, (j + 1) as nat).unwrap(), empty))
}

/// The root of the tree built from `leaves`, lifted to the configured height.
pub open spec fn model_root<P: Config>(parameters: <P::H as FixedLengthCRH>::Parameters, leaves: Seq<Seq<u8>>) -> Seq<u8> {
    padding_value::<P::H>(
        parameters,
        spec_hash_empty::<P::H>(parameters).unwrap(),
        model_node::<P::H>(parameters, leaves, 0).unwrap(),
        padding_steps::<P>(leaves.len()),
    ).unwrap()
}

/// A failing node makes the root fail.
pub proof fn lemma_node_none_propagates<H: FixedLengthCRH>(
    parameters: H::Parameters,
    leaf_hashes: Seq<Seq<u8>>,
    empty: Seq<u8>,
    num_leaves: nat,
    c: nat,
)
    requires
        c + 1 < 2 * num_leaves,
        node_hash::<H>(parameters, leaf_hashes, empty, num_leaves, c) is None,
    ensures
        node_hash::<H>(parameters, leaf_hashes, empty, num_leaves, 0) is None,
    decreases c,
{
    if c > 0 {
        let q = ((c - 1) as nat) / 2;
        assert(c == 2 * q + 1 || c == 2 * q + 2);
        assert(node_hash::<H>(parameters, leaf_hashes, empty, num_leaves, q) is None);
        lemma_node_none_propagates::<H>(parameters, leaf_hashes, empty, num_leaves, q);
    }
}

/// A failing step of the lifting chain makes every later step fail.
pub proof fn lemma_padding_none<H: FixedLengthCRH>(parameters: H::Parameters, empty: Seq<u8>, start: Seq<u8>, m: nat, n: nat)
    requires
        m <= n,
        padding_value::<H>(parameters, empty, start, m) is None,
    ensures
        padding_value::<H>(parameters, empty, start, n) is None,
    decreases n,
{
    if m < n {
        lemma_padding_none::<H>(parameters, empty, start, m, (n - 1) as nat);
    }
}

/// Writing over a buffer whose bytes past the written ones are zero gives what writing
/// over a fresh buffer gives.
pub proof fn lemma_write_over_zero_tail(buf: Seq<u8>, data: Seq<u8>)
    requires
        buf.len() == buffer_size(),
        forall|t: int| data.len() <= t < buffer_size() ==> buf[t] == 0u8,
    ensures
        write_prefix(buf, data) == write_prefix(zeros(buffer_size()), data),
{
    assert(write_prefix(buf, data) =~= write_prefix(zeros(buffer_size()), data));
}

/// The pairs from node `c` up to the root: at each node, the node and its sibling, left
/// child first.
pub open spec fn auth_path(tree: Seq<Seq<u8>>, c: nat) -> Seq<(Seq<u8>, Seq<u8>)>
    decreases c,
{
    if c == 0 {
        seq![]
    } else {
        let pair = if spec_is_left_child(c) {
            (tree[c as int], tree[(c + 1) as int])
        } else {
            (tree[c - 1], tree[c as int])
        };
        seq![pair] + auth_path(tree, ((c - 1) as nat) / 2)
    }
}

/// The authentication path that a tree with nodes `tree` and lifting pairs `padding`
/// gives for the leaf bytes `leaf` at position `index`, or the error it reports.
pub open spec fn spec_generate_proof<P: Config>(
    tree: Seq<Seq<u8>>,
    padding: Seq<(Seq<u8>, Seq<u8>)>,
    parameters: <P::H as FixedLengthCRH>::Parameters,
    index: nat,
    leaf: Seq<u8>,
) -> Result<Seq<(Seq<u8>, Seq<u8>)>, Error> {
    let leaf_hash = spec_fresh_leaf_hash::<P::H>(parameters, leaf);
    let th = spec_tree_height(tree.len());
    let tree_index = (index + pow2((th - 1) as nat) - 1) as nat;
    let empty = spec_hash_empty::<P::H>(parameters);
    if leaf_hash is None || empty is None {
        Err(Error::Crh)
    } else if leaf_hash.unwrap() != tree[tree_index as int] {
        Err(Error::MerkleTree(MerkleError::IncorrectLeafIndex(tree_index as usize)))
    } else {
        let ap = auth_path(tree, tree_index);
        let path = if ap.len() != height8::<P>() - 1 {
            ap + seq![(tree[0], empty.unwrap())] + padding
        } else {
            ap
        };
        if path.len() != height8::<P>() - 1 {
            Err(Error::MerkleTree(MerkleError::IncorrectPathLength(path.len() as usize)))
        } else {
            Ok(path)
        }
    }
}

/// Checks the pairs one after the other, from the value `prev` up: each must hold the
/// value, and the next value is the hash of the pair, assembled over the buffer `buf`;
/// the last value must be `root`.
pub open spec fn verify_pairs<H: FixedLengthCRH>(
    parameters: H::Parameters,
    buf: Seq<u8>,
    root: Seq<u8>,
    prev: Seq<u8>,
    pairs: Seq<(Seq<u8>, Seq<u8>)>,
) -> Result<bool, Error>
    decreases pairs.len(),
{
    if pairs.len() == 0 {
        Ok(root == prev)
    } else {
        let (h, s) = pairs[0];
        if prev != h && prev != s {
            Ok(false)
        } else {
            let buf2 = write_prefix(buf, h + s);
            match hash_buffer::<H>(parameters, buf2) {
                None => Err(Error::Crh),
                Some(x) => verify_pairs::<H>(parameters, buf2, root, x, pairs.drop_first()),
            }
        }
    }
}

/// Whether the authentication path `path` shows that the leaf bytes `leaf` are in the
/// tree with root `root`.
pub open spec fn spec_verify<P: Config>(
    path: Seq<(Seq<u8>, Seq<u8>)>,
    parameters: <P::H as FixedLengthCRH>::Parameters,
    root: Seq<u8>,
    leaf: Seq<u8>,
) -> Result<bool, Error> {
    if path.len() != P::HEIGHT - 1 {
        Ok(false)
    } else if path.len() == 0 {
        Ok(false)
    } else {
        let buf = write_prefix(zeros(buffer_size()), leaf);
        match hash_buffer::<P::H>(parameters, buf) {
            None => Err(Error::Crh),
            Some(claimed) => if claimed != path[0].0 && claimed != path[0].1 {
                Ok(false)
            } else {
                verify_pairs::<P::H>(parameters, buf, root, claimed, path)
            },
        }
    }
}

/// The authentication path of a node on level `d` (a node from `2^d - 1` to
/// `2^(d+1) - 2`) has `d` pairs.
pub proof fn lemma_auth_path_len(tree: Seq<Seq<u8>>, c: nat, d: nat)
    requires
        pow2(d) - 1 <= c < pow2(d + 1) - 1,
    ensures
        auth_path(tree, c).len() == d,
    decreases d,
{
    lemma_pow2_unfold(d + 1);
    lemma_pow2_pos(d);
    if d > 0 {
        lemma_pow2_unfold(d);
        let q = ((c - 1) as nat) / 2;
        lemma_auth_path_len(tree, q, (d - 1) as nat);
    } else {
        lemma2_to64();
    }
}

/// The bytes of a path: the two digests of each pair, from the first pair on.
pub open spec fn path_bytes(pairs: Seq<(Seq<u8>, Seq<u8>)>) -> Seq<u8>
    decreases pairs.len(),
{
    if pairs.len() == 0 {
        seq![]
    } else {
        path_bytes(pairs.drop_last()) + pairs.last().0 + pairs.last().1
    }
}

/// The digests read one after the other from the start of `bytes`, as long as reading
/// succeeds.
pub open spec fn read_digests<H: FixedLengthCRH>(bytes: Seq<u8>) -> Seq<Seq<u8>>
    decreases bytes.len(),
{
    match H::spec_read_output(bytes) {
        Some(d) => {
            proof {
                H::lemma_read_output(bytes);
                H::lemma_output_size();
            }
            seq![d] + read_digests::<H>(bytes.skip(H::output_size() as int))
        },
        None => seq![],
    }
}

/// The digests taken two at a time; a last digest without a partner is dropped.
pub open spec fn pair_up(ds: Seq<Seq<u8>>) -> Seq<(Seq<u8>, Seq<u8>)> {
    Seq::new(ds.len() / 2, |k: int| (ds[2 * k], ds[2 * k + 1]))
}

/// The path read from `bytes`, or an error where not even one digest can be read.
pub open spec fn spec_read_path<H: FixedLengthCRH>(bytes: Seq<u8>) -> Result<Seq<(Seq<u8>, Seq<u8>)>, Error> {
    let ds = read_digests::<H>(bytes);
    if ds.len() == 0 {
        Err(Error::Decode)
    } else {
        Ok(pair_up(ds))
    }
}

} // verus!
