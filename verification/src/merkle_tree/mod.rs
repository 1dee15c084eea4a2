//! A Merkle tree over a fixed-length collision-resistant hash function, and its
//! authentication paths.

pub mod index;
pub mod model;
pub mod laws;
mod path;

pub use path::Path;

use index::{
    convert_index_to_last_level, is_left_child, is_root, left_child, lemma_child_of_parent,
    lemma_least_pow2_unique, lemma_log2_ceil, lemma_pow2_below_pow2, lemma_pow2_increases,
    lemma_quarter_usize, lemma_sibling, lemma_tree_height_of_size, log2_ceil, parent, right_child,
    sibling, spec_tree_height, tree_height,
};

use crate::crh::FixedLengthCRH;
use crate::Error as CrateError;
use model::{
    auth_path, buffer_size, hash_buffer, height8, input_len, leaf_buffer, lemma_auth_path_len,
    lemma_node_none_propagates, lemma_padding_none, lemma_write_over_zero_tail, levels,
    model_leaf_hashes, model_node, model_padding, model_root, model_tree, new_succeeds,
    node_hash, num_leaf_slots, padding_value, spec_generate_proof, spec_hash_empty,
    spec_leaf_hash, write_prefix, zeros,
};
use vstd::arithmetic::power2::*;
use vstd::prelude::*;

verus! {

/// The errors that Merkle tree operations report.
#[derive(Debug, PartialEq, Eq, Structural, Clone, Copy)]
pub enum Error {
    /// The leaf does not hash to the value stored at this position of the tree.
    IncorrectLeafIndex(usize),
    /// The authentication path does not have the length that the tree height asks for.
    IncorrectPathLength(usize),
}

/// The shape of a Merkle tree: its height and its hash function.
pub trait Config {
    /// The number of levels of the tree, root and leaves included.
    const HEIGHT: usize;
    /// The hash function of leaves and inner nodes.
    type H: FixedLengthCRH;
}

/// The parameters of the hash function of a Merkle tree of shape `P`.
pub type Parameters<P> = <<P as Config>::H as FixedLengthCRH>::Parameters;

/// The bytes of a digest, copied.
pub(crate) fn copy_digest(d: &Vec<u8>) -> (r: Vec<u8>)
    ensures
        r@ == d@,
{
    let mut out: Vec<u8> = Vec::with_capacity(d.len());
    let mut i: usize = 0;
    while i < d.len()
        invariant
            i <= d.len(),
            out@ == d@.take(i as int),
        decreases d.len() - i,
    {
        out.push(d[i]);
        assert(d@.take(i + 1) == d@.take(i as int).push(d@[i as int]));
        i += 1;
    }
    assert(d@.take(d@.len() as int) == d@);
    out
}

/// Whether two digests are equal.
pub(crate) fn digest_eq(a: &Vec<u8>, b: &Vec<u8>) -> (r: bool)
    ensures
        r == (a@ == b@),
{
    if a.len() != b.len() {
        return false;
    }
    let mut i: usize = 0;
    while i < a.len()
        invariant
            a.len() == b.len(),
            i <= a.len(),
            forall|k: int| 0 <= k < i ==> a@[k] == b@[k],
        decreases a.len() - i,
    {
        if a[i] != b[i] {
            return false;
        }
        i += 1;
    }
    assert(a@ =~= b@);
    true
}

/// Writes `bytes` over the start of `buffer`, as far as it reaches.
fn write_to_buffer(buffer: &mut [u8; 128], bytes: &[u8])
    ensures
        final(buffer)@ == write_prefix(old(buffer)@, bytes@),
{
    let mut i: usize = 0;
    while i < 128 && i < bytes.len()
        invariant
            i <= 128,
            i <= bytes@.len(),
            buffer@.len() == 128,
            old(buffer)@.len() == 128,
            forall|k: int| 0 <= k < i ==> buffer@[k] == bytes@[k],
            forall|k: int| i <= k < 128 ==> buffer@[k] == old(buffer)@[k],
        decreases 128 - i,
    {
        buffer[i] = bytes[i];
        i += 1;
    }
    assert forall|k: int| 0 <= k < 128 implies buffer@[k] == write_prefix(old(buffer)@, bytes@)[k] by {
        if k < bytes@.len() {
            assert(k < i);
        }
    }
    assert(buffer@ =~= write_prefix(old(buffer)@, bytes@));
}

/// Evaluates `H` on the first `input_len` bytes of `buffer`.
fn hash_buffer_prefix<H: FixedLengthCRH>(parameters: &H::Parameters, buffer: &[u8; 128]) -> (r: Result<Vec<u8>, CrateError>)
    requires
        input_len::<H>() <= buffer_size(),
        forall|s: Seq<u8>| s.len() == input_len::<H>() ==> #[trigger] H::evaluate_accepts(*parameters, s),
    ensures
        match r {
            Ok(d) => hash_buffer::<H>(*parameters, buffer@) == Some(d@),
            Err(e) => hash_buffer::<H>(*parameters, buffer@) is None && e == CrateError::Crh,
        },
{
    let n = H::INPUT_SIZE_BITS / 8;
    let input = vstd::slice::slice_subrange(buffer.as_slice(), 0, n);
    assert(input@ == buffer@.take(n as int));
    assert(H::evaluate_accepts(*parameters, input@));
    H::evaluate(parameters, input)
}

/// Returns the output hash, given a left and right hash value.
pub(crate) fn hash_inner_node<H: FixedLengthCRH>(
    parameters: &H::Parameters,
    left: &Vec<u8>,
    right: &Vec<u8>,
    buffer: &mut [u8; 128],
) -> (r: Result<Vec<u8>, CrateError>)
    requires
        input_len::<H>() <= buffer_size(),
        forall|s: Seq<u8>| s.len() == input_len::<H>() ==> #[trigger] H::evaluate_accepts(*parameters, s),
    ensures
        final(buffer)@ == write_prefix(old(buffer)@, left@ + right@),
        match r {
            Ok(d) => hash_buffer::<H>(*parameters, final(buffer)@) == Some(d@),
            Err(e) => hash_buffer::<H>(*parameters, final(buffer)@) is None && e == CrateError::Crh,
        },
{
    let mut bytes = copy_digest(left);
    let mut i: usize = 0;
    while i < right.len()
        invariant
            i <= right.len(),
            bytes@ == left@ + right@.take(i as int),
        decreases right.len() - i,
    {
        bytes.push(right[i]);
        assert(right@.take(i + 1) == right@.take(i as int).push(right@[i as int]));
        i += 1;
    }
    assert(right@.take(right@.len() as int) == right@);
    write_to_buffer(buffer, bytes.as_slice());
    hash_buffer_prefix::<H>(parameters, buffer)
}

/// Returns the hash of a leaf, given the bytes that encode it.
pub(crate) fn hash_leaf<H: FixedLengthCRH>(parameters: &H::Parameters, leaf: &[u8], buffer: &mut [u8; 128]) -> (r: Result<Vec<u8>, CrateError>)
    requires
        input_len::<H>() <= buffer_size(),
        forall|s: Seq<u8>| s.len() == input_len::<H>() ==> #[trigger] H::evaluate_accepts(*parameters, s),
    ensures
        final(buffer)@ == write_prefix(old(buffer)@, leaf@),
        match r {
            Ok(d) => hash_buffer::<H>(*parameters, final(buffer)@) == Some(d@),
            Err(e) => hash_buffer::<H>(*parameters, final(buffer)@) is None && e == CrateError::Crh,
        },
{
    write_to_buffer(buffer, leaf);
    hash_buffer_prefix::<H>(parameters, buffer)
}

/// Returns the hash of an all-zero input.
pub(crate) fn hash_empty<H: FixedLengthCRH>(parameters: &H::Parameters) -> (r: Result<Vec<u8>, CrateError>)
    requires
        forall|s: Seq<u8>| s.len() == input_len::<H>() ==> #[trigger] H::evaluate_accepts(*parameters, s),
    ensures
        match r {
            Ok(d) => spec_hash_empty::<H>(*parameters) == Some(d@),
            Err(e) => spec_hash_empty::<H>(*parameters) is None && e == CrateError::Crh,
        },
{
    let n = H::INPUT_SIZE_BITS / 8;
    let mut empty_buffer: Vec<u8> = Vec::with_capacity(n);
    while empty_buffer.len() < n
        invariant
            empty_buffer.len() <= n,
            empty_buffer@ == zeros(empty_buffer.len() as nat),
        decreases n - empty_buffer.len(),
    {
        empty_buffer.push(0u8);
        assert(empty_buffer@ =~= zeros(empty_buffer.len() as nat));
    }
    assert(H::evaluate_accepts(*parameters, empty_buffer@));
    H::evaluate(parameters, empty_buffer.as_slice())
}

/// The digests of a sequence of pairs, each by its bytes.
pub open spec fn pairs_view(v: Seq<(Vec<u8>, Vec<u8>)>) -> Seq<(Seq<u8>, Seq<u8>)> {
    v.map_values(|p: (Vec<u8>, Vec<u8>)| (p.0@, p.1@))
}

/// The byte encodings of leaves.
pub open spec fn leaves_view(leaves: Seq<Vec<u8>>) -> Seq<Seq<u8>> {
    leaves.map_values(|l: Vec<u8>| l@)
}

/// A Merkle tree: the nodes of a complete binary tree level by level from the root, the
/// pairs that lift its root to the configured height, and that lifted root.
pub struct MerkleTree<P: Config> {
    tree: Vec<Vec<u8>>,
    padding_tree: Vec<(Vec<u8>, Vec<u8>)>,
    parameters: Parameters<P>,
    root: Option<Vec<u8>>,
}

impl<P: Config> MerkleTree<P> {
    /// The nodes, level by level from the root.
    pub closed spec fn spec_tree(self) -> Seq<Seq<u8>> {
        self.tree@.map_values(|d: Vec<u8>| d@)
    }

    /// The pairs that lift the root of the tree to the configured height.
    pub closed spec fn spec_padding(self) -> Seq<(Seq<u8>, Seq<u8>)> {
        pairs_view(self.padding_tree@)
    }

    /// The hash parameters.
    pub closed spec fn spec_parameters(self) -> Parameters<P> {
        self.parameters
    }

    /// The root, lifted to the configured height; none for a blank tree.
    pub closed spec fn spec_root(self) -> Option<Seq<u8>> {
        match self.root {
            Some(r) => Some(r@),
            None => None,
        }
    }

    /// The number of levels of the stored tree.
    pub open spec fn spec_levels(self) -> nat {
        spec_tree_height(self.spec_tree().len())
    }

    /// A tree that holds nothing.
    pub open spec fn is_blank(self) -> bool {
        &&& self.spec_tree().len() == 0
        &&& self.spec_padding().len() == 0
        &&& self.spec_root() is None
    }

    /// A tree that was built: a complete binary tree of at most the configured height,
    /// lifted to that height, with a root.
    pub open spec fn is_built(self) -> bool {
        let th = self.spec_levels();
        &&& th >= 1
        &&& self.spec_tree().len() == 2 * pow2((th - 1) as nat) - 1
        &&& th <= height8::<P>()
        &&& self.spec_padding().len() == (if th < height8::<P>() {
            (height8::<P>() - th - 1) as nat
        } else {
            0
        })
        &&& self.spec_root() is Some
        &&& input_len::<P::H>() <= buffer_size()
        &&& forall|s: Seq<u8>|
            s.len() == input_len::<P::H>() ==> #[trigger] P::H::evaluate_accepts(
                self.spec_parameters(),
                s,
            )
    }

    /// The configured height, in a byte.
    pub fn height() -> (r: u8)
        ensures
            r == height8::<P>(),
    {
        P::HEIGHT as u8
    }

    /// A tree that holds nothing yet.
    pub fn blank(parameters: Parameters<P>) -> (r: Self)
        ensures
            r.is_blank(),
            r.spec_parameters() == parameters,
    {
        MerkleTree { tree: Vec::new(), padding_tree: Vec::new(), root: None, parameters }
    }

    /// Whether the hash input of the tree fits the buffer that it is assembled in, and the
    /// hash accepts every input of that length under `parameters`.
    pub fn hash_fits(parameters: &Parameters<P>) -> (r: bool)
        ensures
            r == (input_len::<P::H>() <= buffer_size() && forall|s: Seq<u8>|
                s.len() == input_len::<P::H>() ==> #[trigger] P::H::evaluate_accepts(*parameters, s)),
    {
        let n = P::H::INPUT_SIZE_BITS / 8;
        n <= 128 && P::H::accepts_input_len(parameters, n)
    }

    /// Whether a tree can be built from `num_leaves` leaves under `parameters`: the hash
    /// fits (see `hash_fits`) and the tree is no higher than the configured height.
    pub fn can_build(parameters: &Parameters<P>, num_leaves: usize) -> (r: bool)
        ensures
            r == (num_leaves <= usize::MAX / 4 + 1 && input_len::<P::H>() <= buffer_size()
                && (forall|s: Seq<u8>|
                s.len() == input_len::<P::H>() ==> #[trigger] P::H::evaluate_accepts(*parameters, s))
                && levels(num_leaves as nat) <= height8::<P>()),
    {
        if num_leaves > usize::MAX / 4 + 1 || !Self::hash_fits(parameters) {
            return false;
        }
        let last_level_size = next_power_of_two(num_leaves);
        let ghost k = log2_ceil(num_leaves as nat);
        proof {
            let e = lemma_quarter_usize();
            lemma_tree_height_of_size(k);
            lemma_pow2_pos(k);
        }
        let h = tree_height(2 * last_level_size - 1);
        h <= Self::height() as usize
    }

    /// The number of leaf positions: those of the stored tree where it was built, none
    /// where the tree is blank.
    pub fn leaf_positions(&self) -> (r: usize)
        ensures
            self.is_built() ==> r == pow2((self.spec_levels() - 1) as nat),
            self.is_blank() ==> r == 0,
    {
        assert(self.tree@.len() == self.spec_tree().len());
        if self.tree.len() == 0 {
            return 0;
        }
        proof {
            if self.is_built() {
                let k = (self.spec_levels() - 1) as nat;
                lemma_pow2_pos(k);
                lemma_pow2_unfold(k + 1);
            }
        }
        self.tree.len() / 2 + 1
    }

    /// The root of a tree that was built.
    pub fn root(&self) -> (r: Vec<u8>)
        requires
            self.spec_root() is Some,
        ensures
            r@ == self.spec_root().unwrap(),
    {
        match &self.root {
            Some(r) => copy_digest(r),
            None => {
                assert(false);
                Vec::new()
            },
        }
    }
    /// The authentication path of the leaf bytes `leaf` at position `index`, or an error
    /// where they do not hash to the leaf stored there.
    pub fn generate_proof(&self, index: usize, leaf: &[u8]) -> (r: Result<Path<P>, CrateError>)
        requires
            self.is_built(),
            index < pow2((self.spec_levels() - 1) as nat),
        ensures
            match r {
                Ok(path) => spec_generate_proof::<P>(
                    self.spec_tree(),
                    self.spec_padding(),
                    self.spec_parameters(),
                    index as nat,
                    leaf@,
                ) == Ok::<Seq<(Seq<u8>, Seq<u8>)>, CrateError>(path@),
                Err(e) => spec_generate_proof::<P>(
                    self.spec_tree(),
                    self.spec_padding(),
                    self.spec_parameters(),
                    index as nat,
                    leaf@,
                ) == Err::<Seq<(Seq<u8>, Seq<u8>)>, CrateError>(e),
            },
    {
        let ghost tree = self.spec_tree();
        let ghost spec_r = spec_generate_proof::<P>(
            self.spec_tree(),
            self.spec_padding(),
            self.spec_parameters(),
            index as nat,
            leaf@,
        );
        let mut path: Vec<(Vec<u8>, Vec<u8>)> = Vec::new();
        let mut buffer = [0u8; 128];
        let leaf_hash = match hash_leaf::<P::H>(&self.parameters, leaf, &mut buffer) {
            Ok(h) => h,
            Err(e) => {
                assert(buffer@ =~= write_prefix(zeros(buffer_size()), leaf@));
                return Err(e);
            },
        };
        assert(buffer@ =~= write_prefix(zeros(buffer_size()), leaf@));
        let tree_height = tree_height(self.tree.len());
        let ghost k = (tree_height - 1) as nat;
        proof {
            lemma_pow2_pos(k);
        }
        let tree_index = convert_index_to_last_level(index, tree_height);
        let empty_hash = match hash_empty::<P::H>(&self.parameters) {
            Ok(e) => e,
            Err(e) => {
                return Err(e);
            },
        };
        // Check that the given index corresponds to the correct leaf.
        if !digest_eq(&leaf_hash, &self.tree[tree_index]) {
            return Err(CrateError::MerkleTree(Error::IncorrectLeafIndex(tree_index)));
        }
        // Iterate from the leaf up to the root, storing all intermediate hash values.
        let mut current_node = tree_index;
        let tree_len = self.tree.len();
        while !is_root(current_node)
            invariant
                current_node < tree.len(),
                tree_len == tree.len(),
                tree == self.spec_tree(),
                tree.len() == self.tree@.len(),
                tree.len() == 2 * pow2(k) - 1,
                pairs_view(path@) + auth_path(tree, current_node as nat) == auth_path(
                    tree,
                    tree_index as nat,
                ),
            decreases current_node,
        {
            proof {
                lemma_sibling(current_node as nat);
                lemma_child_of_parent(current_node as nat);
            }
            let sibling_node = match sibling(current_node) {
                Some(s) => s,
                None => {
                    assert(false);
                    0
                },
            };
            let curr_hash = copy_digest(&self.tree[current_node]);
            let sibling_hash = copy_digest(&self.tree[sibling_node]);
            assert(tree[current_node as int] == self.tree@[current_node as int]@);
            assert(tree[sibling_node as int] == self.tree@[sibling_node as int]@);
            let ghost old_pairs = pairs_view(path@);
            if is_left_child(current_node) {
                path.push((curr_hash, sibling_hash));
            } else {
                path.push((sibling_hash, curr_hash));
            }
            let parent_node = match parent(current_node) {
                Some(p) => p,
                None => {
                    assert(false);
                    0
                },
            };
            proof {
                assert(pairs_view(path@) =~= old_pairs.push(auth_path(tree, current_node as nat)[0]));
                assert(auth_path(tree, current_node as nat) =~= seq![
                    auth_path(tree, current_node as nat)[0],
                ] + auth_path(tree, parent_node as nat));
                assert(pairs_view(path@) + auth_path(tree, parent_node as nat) =~= old_pairs
                    + auth_path(tree, current_node as nat));
            }
            current_node = parent_node;
        }
        assert(pairs_view(path@) =~= auth_path(tree, tree_index as nat));
        proof {
            lemma_pow2_unfold(k + 1);
            lemma_auth_path_len(tree, tree_index as nat, k);
        }
        let h8 = Self::height();
        // Store the root node. Set boolean as true for consistency with digest location.
        if path.len() != (h8 - 1) as usize {
            let ghost ap = pairs_view(path@);
            path.push((copy_digest(&self.tree[0]), empty_hash));
            let mut j: usize = 0;
            while j < self.padding_tree.len()
                invariant
                    j <= self.padding_tree@.len(),
                    pairs_view(path@) == ap + seq![(tree[0], spec_hash_empty::<P::H>(self.spec_parameters()).unwrap())]
                        + self.spec_padding().take(j as int),
                decreases self.padding_tree@.len() - j,
            {
                let ghost before = pairs_view(path@);
                path.push((copy_digest(&self.padding_tree[j].0), copy_digest(&self.padding_tree[j].1)));
                assert(pairs_view(path@) =~= before.push(self.spec_padding()[j as int]));
                assert(self.spec_padding().take(j + 1) =~= self.spec_padding().take(j as int).push(
                    self.spec_padding()[j as int],
                ));
                j += 1;
            }
            assert(self.spec_padding().take(self.padding_tree@.len() as int) =~= self.spec_padding());
        }
        if path.len() != (h8 - 1) as usize {
            Err(CrateError::MerkleTree(Error::IncorrectPathLength(path.len())))
        } else {
            Ok(Path::from_pairs(path))
        }
    }

    /// Builds the tree whose leaves are given by their byte encodings, lifted to the
    /// configured height.
    pub fn new(parameters: Parameters<P>, leaves: &[Vec<u8>]) -> (r: Result<Self, CrateError>)
        requires
            leaves@.len() <= usize::MAX / 4 + 1,
            input_len::<P::H>() <= buffer_size(),
            forall|s: Seq<u8>|
                s.len() == input_len::<P::H>() ==> #[trigger] P::H::evaluate_accepts(parameters, s),
            levels(leaves@.len() as nat) <= height8::<P>(),
        ensures
            r is Ok <==> new_succeeds::<P>(parameters, leaves_view(leaves@)),
            r matches Ok(t) ==> {
                &&& t.is_built()
                &&& t.spec_parameters() == parameters
                &&& t.spec_tree() == model_tree::<P>(parameters, leaves_view(leaves@))
                &&& t.spec_padding() == model_padding::<P>(parameters, leaves_view(leaves@))
                &&& t.spec_root() == Some(model_root::<P>(parameters, leaves_view(leaves@)))
            },
            r matches Err(e) ==> e == CrateError::Crh,
    {
        let ghost lv = leaves_view(leaves@);
        let ghost dlen = P::H::output_size();
        let n = leaves.len();
        let last_level_size = next_power_of_two(n);
        let ghost k = log2_ceil(n as nat);
        proof {
            let e = lemma_quarter_usize();
            lemma_tree_height_of_size(k);
            lemma_pow2_pos(k);
            lemma_log2_ceil(n as nat);
        }
        let tree_size = 2 * last_level_size - 1;
        let tree_height = tree_height(tree_size);
        let empty_hash = match hash_empty::<P::H>(&parameters) {
            Ok(e) => e,
            Err(e) => {
                return Err(e);
            },
        };
        let ghost empty = empty_hash@;
        proof {
            P::H::lemma_evaluate_output(parameters, zeros(input_len::<P::H>()));
        }
        // Initialize the merkle tree.
        let mut tree: Vec<Vec<u8>> = Vec::with_capacity(tree_size);
        while tree.len() < tree_size
            invariant
                tree.len() <= tree_size,
                empty_hash@ == empty,
                forall|c: int| 0 <= c < tree.len() ==> (#[trigger] tree@[c])@ == empty,
            decreases tree_size - tree.len(),
        {
            tree.push(copy_digest(&empty_hash));
        }
        // Compute the starting indices for each level of the tree.
        let mut level_indices = level_starts(tree_height, tree_size);
        assert(level_indices@[k as int] == pow2(k) - 1);
        let last_level_index = match level_indices.pop() {
            Some(x) => x,
            None => 0,
        };
        assert(last_level_index == last_level_size - 1);
        // Compute and store the hash values for each leaf.
        match hash_leaves::<P::H>(&parameters, leaves, &mut tree, last_level_index, Ghost(empty)) {
            Ok(()) => {},
            Err(e) => {
                return Err(e);
            },
        }
        let ghost lh = model_leaf_hashes::<P::H>(parameters, lv);
        let ghost nls = num_leaf_slots(n as nat);
        assert forall|c: int| last_level_index <= c < tree_size implies node_hash::<P::H>(
            parameters,
            lh,
            empty,
            nls,
            c as nat,
        ) == Some((#[trigger] tree@[c])@) by {
            if c < last_level_index + n {
                assert(lh[c - last_level_index] == spec_leaf_hash::<P::H>(
                    parameters,
                    lv,
                    (c - last_level_index) as nat,
                ).unwrap());
            }
        }
        // Compute the hash values for every node in the tree.
        let mut buffer = [0u8; 128];
        match hash_levels::<P::H>(
            &parameters,
            &mut tree,
            &level_indices,
            last_level_index,
            &mut buffer,
            Ghost(lh),
            Ghost(empty),
            Ghost(k),
        ) {
            Ok(()) => {},
            Err(e) => {
                return Err(e);
            },
        }
        let ghost top = tree@[0]@;
        assert(model_node::<P::H>(parameters, lv, 0) == Some(top));
        assert(tree@.map_values(|d: Vec<u8>| d@) =~= model_tree::<P>(parameters, lv));
        // Now, we compute the dummy nodes until we hit our HEIGHT goal.
        let (padding_tree, root_hash) = match lift_to_height::<P::H>(
            &parameters,
            &tree[0],
            &empty_hash,
            tree_height,
            Self::height(),
            &mut buffer,
        ) {
            Ok(x) => x,
            Err(e) => {
                return Err(e);
            },
        };
        let t = MerkleTree { tree, padding_tree, parameters, root: Some(root_hash) };
        assert(t.spec_padding() =~= model_padding::<P>(parameters, lv));
        Ok(t)
    }
}


/// The least power of two that is at least `n`.
fn next_power_of_two(n: usize) -> (r: usize)
    requires
        n <= usize::MAX / 4 + 1,
    ensures
        r == pow2(log2_ceil(n as nat)),
        r <= usize::MAX / 4 + 1,
{
    let ghost e = lemma_quarter_usize();
    proof {
        lemma2_to64();
    }
    let mut p: usize = 1;
    let ghost mut k: nat = 0;
    while p < n
        invariant
            n <= usize::MAX / 4 + 1,
            usize::MAX / 4 + 1 == pow2(e),
            p == pow2(k),
            k > 0 ==> pow2((k - 1) as nat) < n,
            p <= usize::MAX / 4 + 1,
            p >= 1,
        decreases usize::MAX - p,
    {
        proof {
            lemma_pow2_below_pow2(k, e);
            lemma_pow2_unfold(k + 1);
        }
        p = p * 2;
        proof {
            k = k + 1;
        }
    }
    proof {
        lemma_log2_ceil(n as nat);
        if n > 0 {
            lemma_least_pow2_unique(n as nat, k, log2_ceil(n as nat));
        } else {
            reveal_with_fuel(log2_ceil, 1);
        }
    }
    p
}

/// The index of the first node of each level, from the root down: `2^j - 1` for level `j`.
fn level_starts(tree_height: usize, tree_size: usize) -> (r: Vec<usize>)
    requires
        tree_height >= 1,
        tree_size == 2 * pow2((tree_height - 1) as nat) - 1,
    ensures
        r@.len() == tree_height,
        forall|j: int| 0 <= j < tree_height ==> #[trigger] r@[j] == pow2(j as nat) - 1,
{
    let ghost k = (tree_height - 1) as nat;
    let mut index: usize = 0;
    let mut level_indices: Vec<usize> = Vec::with_capacity(tree_height);
    let mut l: usize = 0;
    proof {
        lemma2_to64();
        lemma_pow2_unfold(k + 1);
    }
    while l < tree_height
        invariant
            l <= tree_height,
            tree_size == 2 * pow2(k) - 1,
            tree_height == k + 1,
            level_indices@.len() == l,
            forall|j: int| 0 <= j < l ==> #[trigger] level_indices@[j] == pow2(j as nat) - 1,
            index == pow2(l as nat) - 1,
        decreases tree_height - l,
    {
        level_indices.push(index);
        proof {
            lemma_pow2_increases(l as nat, k);
            lemma_pow2_unfold((l + 1) as nat);
        }
        index = left_child(index);
        l += 1;
    }
    level_indices
}

/// Hashes each leaf into the leaf level of `tree`, which starts at `first`; the leaves
/// are written one after the other into one buffer.
fn hash_leaves<H: FixedLengthCRH>(
    parameters: &H::Parameters,
    leaves: &[Vec<u8>],
    tree: &mut Vec<Vec<u8>>,
    first: usize,
    Ghost(empty): Ghost<Seq<u8>>,
) -> (r: Result<(), CrateError>)
    requires
        first + leaves@.len() <= old(tree)@.len(),
        forall|c: int| 0 <= c < old(tree)@.len() ==> (#[trigger] old(tree)@[c])@ == empty,
        empty.len() == H::output_size(),
        input_len::<H>() <= buffer_size(),
        forall|s: Seq<u8>| s.len() == input_len::<H>() ==> #[trigger] H::evaluate_accepts(*parameters, s),
    ensures
        final(tree)@.len() == old(tree)@.len(),
        forall|c: int| 0 <= c < final(tree)@.len() ==> (#[trigger] final(tree)@[c])@.len() == H::output_size(),
        match r {
            Ok(()) => {
                &&& forall|j: nat|
                    j < leaves@.len() ==> (#[trigger] spec_leaf_hash::<H>(
                        *parameters,
                        leaves_view(leaves@),
                        j,
                    )) is Some
                &&& forall|c: int|
                    0 <= c < final(tree)@.len() ==> if first <= c < first + leaves@.len() {
                        Some((#[trigger] final(tree)@[c])@) == spec_leaf_hash::<H>(
                            *parameters,
                            leaves_view(leaves@),
                            (c - first) as nat,
                        )
                    } else {
                        final(tree)@[c]@ == empty
                    }
            },
            Err(e) => e == CrateError::Crh && exists|j: nat|
                j < leaves@.len() && (#[trigger] spec_leaf_hash::<H>(
                    *parameters,
                    leaves_view(leaves@),
                    j,
                )) is None,
        },
{
    let ghost lv = leaves_view(leaves@);
    let mut buffer = [0u8; 128];
    assert(buffer@ =~= leaf_buffer(lv, 0));
    let mut i: usize = 0;
    while i < leaves.len()
        invariant
            i <= leaves@.len(),
            first + leaves@.len() <= tree@.len(),
            tree@.len() == old(tree)@.len(),
            empty.len() == H::output_size(),
            input_len::<H>() <= buffer_size(),
            forall|s: Seq<u8>| s.len() == input_len::<H>() ==> #[trigger] H::evaluate_accepts(*parameters, s),
            lv == leaves_view(leaves@),
            buffer@ == leaf_buffer(lv, i as nat),
            forall|j: nat| j < i ==> (#[trigger] spec_leaf_hash::<H>(*parameters, lv, j)) is Some,
            forall|c: int|
                0 <= c < tree@.len() ==> if first <= c < first + i {
                    Some((#[trigger] tree@[c])@) == spec_leaf_hash::<H>(
                        *parameters,
                        lv,
                        (c - first) as nat,
                    )
                } else {
                    tree@[c]@ == empty
                },
            forall|c: int| 0 <= c < tree@.len() ==> (#[trigger] tree@[c])@.len() == H::output_size(),
        decreases leaves@.len() - i,
    {
        assert(lv[i as int] == leaves@[i as int]@);
        let tree_len = tree.len();
        assert(first + i < tree_len);
        match hash_leaf::<H>(parameters, leaves[i].as_slice(), &mut buffer) {
            Ok(h) => {
                proof {
                    H::lemma_evaluate_output(*parameters, buffer@.take(input_len::<H>() as int));
                }
                tree.set(first + i, h);
            },
            Err(e) => {
                assert(spec_leaf_hash::<H>(*parameters, lv, i as nat) is None);
                return Err(e);
            },
        }
        i += 1;
    }
    Ok(())
}

/// Computes the inner nodes of `tree` level by level from the one above the leaves up,
/// each as the hash of its two children.
fn hash_levels<H: FixedLengthCRH>(
    parameters: &H::Parameters,
    tree: &mut Vec<Vec<u8>>,
    level_indices: &Vec<usize>,
    first_leaf: usize,
    buffer: &mut [u8; 128],
    Ghost(lh): Ghost<Seq<Seq<u8>>>,
    Ghost(empty): Ghost<Seq<u8>>,
    Ghost(k): Ghost<nat>,
) -> (r: Result<(), CrateError>)
    requires
        old(tree)@.len() == 2 * pow2(k) - 1,
        first_leaf == pow2(k) - 1,
        level_indices@.len() == k,
        forall|j: int| 0 <= j < k ==> #[trigger] level_indices@[j] == pow2(j as nat) - 1,
        old(buffer)@.len() == buffer_size(),
        forall|t: int| 2 * H::output_size() <= t < buffer_size() ==> old(buffer)@[t] == 0u8,
        forall|c: int| 0 <= c < old(tree)@.len() ==> (#[trigger] old(tree)@[c])@.len() == H::output_size(),
        forall|c: int|
            pow2(k) - 1 <= c < old(tree)@.len() ==> node_hash::<H>(*parameters, lh, empty, pow2(k), c as nat)
                == Some((#[trigger] old(tree)@[c])@),
        input_len::<H>() <= buffer_size(),
        forall|s: Seq<u8>| s.len() == input_len::<H>() ==> #[trigger] H::evaluate_accepts(*parameters, s),
    ensures
        final(tree)@.len() == old(tree)@.len(),
        final(buffer)@.len() == buffer_size(),
        forall|t: int| 2 * H::output_size() <= t < buffer_size() ==> final(buffer)@[t] == 0u8,
        forall|c: int| 0 <= c < final(tree)@.len() ==> (#[trigger] final(tree)@[c])@.len() == H::output_size(),
        match r {
            Ok(()) => forall|c: int|
                0 <= c < final(tree)@.len() ==> node_hash::<H>(*parameters, lh, empty, pow2(k), c as nat)
                    == Some((#[trigger] final(tree)@[c])@),
            Err(e) => e == CrateError::Crh && node_hash::<H>(*parameters, lh, empty, pow2(k), 0) is None,
        },
{
    let tree_size = tree.len();
    let ghost nls = pow2(k);
    proof {
        lemma2_to64();
        lemma_pow2_unfold(k + 1);
    }
    let mut upper_bound: usize = first_leaf;
    let mut li = level_indices.len();
    while li > 0
        invariant
            li <= k,
            tree_size == tree@.len(),
            tree_size == old(tree)@.len(),
            tree_size == 2 * pow2(k) - 1,
            level_indices@.len() == k,
            forall|j: int| 0 <= j < k ==> #[trigger] level_indices@[j] == pow2(j as nat) - 1,
            upper_bound == pow2(li as nat) - 1,
            nls == pow2(k),
            buffer@.len() == buffer_size(),
            forall|t: int| 2 * H::output_size() <= t < buffer_size() ==> buffer@[t] == 0u8,
            forall|c: int| 0 <= c < tree@.len() ==> (#[trigger] tree@[c])@.len() == H::output_size(),
            forall|c: int|
                upper_bound <= c < tree_size ==> node_hash::<H>(*parameters, lh, empty, nls, c as nat)
                    == Some((#[trigger] tree@[c])@),
            input_len::<H>() <= buffer_size(),
            forall|s: Seq<u8>| s.len() == input_len::<H>() ==> #[trigger] H::evaluate_accepts(*parameters, s),
        decreases li,
    {
        let start_index = level_indices[li - 1];
        proof {
            lemma_pow2_unfold(li as nat);
            lemma_pow2_increases(li as nat, k);
        }
        let mut current_index = start_index;
        while current_index < upper_bound
            invariant
                start_index <= current_index <= upper_bound,
                start_index == pow2((li - 1) as nat) - 1,
                upper_bound == pow2(li as nat) - 1,
                upper_bound == 2 * start_index + 1,
                li <= k,
                upper_bound <= pow2(k) - 1,
                tree_size == tree@.len(),
                tree_size == old(tree)@.len(),
                tree_size == 2 * pow2(k) - 1,
                nls == pow2(k),
                buffer@.len() == buffer_size(),
                forall|t: int| 2 * H::output_size() <= t < buffer_size() ==> buffer@[t] == 0u8,
                forall|c: int| 0 <= c < tree@.len() ==> (#[trigger] tree@[c])@.len() == H::output_size(),
                forall|c: int|
                    (start_index <= c < current_index || upper_bound <= c < tree_size)
                        ==> node_hash::<H>(*parameters, lh, empty, nls, c as nat) == Some(
                        (#[trigger] tree@[c])@,
                    ),
                input_len::<H>() <= buffer_size(),
                forall|s: Seq<u8>| s.len() == input_len::<H>() ==> #[trigger] H::evaluate_accepts(*parameters, s),
            decreases upper_bound - current_index,
        {
            let left_index = left_child(current_index);
            let right_index = right_child(current_index);
            let ghost lval = tree@[left_index as int]@;
            let ghost rval = tree@[right_index as int]@;
            assert(node_hash::<H>(*parameters, lh, empty, nls, left_index as nat) == Some(lval));
            assert(node_hash::<H>(*parameters, lh, empty, nls, right_index as nat) == Some(rval));
            proof {
                lemma_write_over_zero_tail(buffer@, lval + rval);
            }
            // Compute Hash(left || right).
            match hash_inner_node::<H>(parameters, &tree[left_index], &tree[right_index], buffer) {
                Ok(h) => {
                    proof {
                        H::lemma_evaluate_output(*parameters, buffer@.take(input_len::<H>() as int));
                    }
                    tree.set(current_index, h);
                },
                Err(e) => {
                    proof {
                        assert(node_hash::<H>(*parameters, lh, empty, nls, current_index as nat) is None);
                        lemma_node_none_propagates::<H>(*parameters, lh, empty, nls, current_index as nat);
                    }
                    return Err(e);
                },
            }
            current_index += 1;
        }
        upper_bound = start_index;
        li -= 1;
    }
    Ok(())
}

/// Hashes `top` with the empty leaf until the tree reaches the height `h8`: returns the
/// pairs of the intermediate steps and the final value.
fn lift_to_height<H: FixedLengthCRH>(
    parameters: &H::Parameters,
    top: &Vec<u8>,
    empty_hash: &Vec<u8>,
    tree_height: usize,
    h8: u8,
    buffer: &mut [u8; 128],
) -> (r: Result<(Vec<(Vec<u8>, Vec<u8>)>, Vec<u8>), CrateError>)
    requires
        1 <= tree_height <= h8,
        top@.len() == H::output_size(),
        empty_hash@.len() == H::output_size(),
        old(buffer)@.len() == buffer_size(),
        forall|t: int| 2 * H::output_size() <= t < buffer_size() ==> old(buffer)@[t] == 0u8,
        input_len::<H>() <= buffer_size(),
        forall|s: Seq<u8>| s.len() == input_len::<H>() ==> #[trigger] H::evaluate_accepts(*parameters, s),
    ensures
        ({
            let steps: nat = if tree_height < h8 { (h8 - tree_height) as nat } else { 0 };
            match r {
                Ok((pairs, root)) => {
                    &&& padding_value::<H>(*parameters, empty_hash@, top@, steps) == Some(root@)
                    &&& pairs_view(pairs@) == Seq::new(
                        if steps > 0 { (steps - 1) as nat } else { 0 },
                        |j: int|
                            (
                                padding_value::<H>(*parameters, empty_hash@, top@, (j + 1) as nat).unwrap(),
                                empty_hash@,
                            ),
                    )
                },
                Err(e) => e == CrateError::Crh && padding_value::<H>(
                    *parameters,
                    empty_hash@,
                    top@,
                    steps,
                ) is None,
            }
        }),
{
    let ghost empty = empty_hash@;
    let ghost start = top@;
    let mut cur_height = tree_height;
    let mut padding_tree: Vec<(Vec<u8>, Vec<u8>)> = Vec::new();
    let mut cur_hash = copy_digest(top);
    let ghost steps: nat = if tree_height < h8 { (h8 - tree_height) as nat } else { 0 };
    assert(pairs_view(padding_tree@) =~= Seq::new(
        (cur_height - tree_height) as nat,
        |j: int| (padding_value::<H>(*parameters, empty, start, (j + 1) as nat).unwrap(), empty),
    ));
    if cur_height < h8 as usize {
        while cur_height < (h8 - 1) as usize
            invariant
                tree_height <= cur_height <= h8 - 1,
                tree_height < h8,
                steps == (h8 - tree_height) as nat,
                start == top@,
                buffer@.len() == buffer_size(),
                forall|t: int| 2 * H::output_size() <= t < buffer_size() ==> buffer@[t] == 0u8,
                empty.len() == H::output_size(),
                empty_hash@ == empty,
                cur_hash@.len() == H::output_size(),
                padding_value::<H>(*parameters, empty, start, (cur_height - tree_height) as nat) == Some(
                    cur_hash@,
                ),
                pairs_view(padding_tree@) == Seq::new(
                    (cur_height - tree_height) as nat,
                    |j: int| (padding_value::<H>(*parameters, empty, start, (j + 1) as nat).unwrap(), empty),
                ),
                input_len::<H>() <= buffer_size(),
                forall|s: Seq<u8>| s.len() == input_len::<H>() ==> #[trigger] H::evaluate_accepts(*parameters, s),
            decreases h8 - cur_height,
        {
            proof {
                lemma_write_over_zero_tail(buffer@, cur_hash@ + empty);
            }
            let ghost old_buffer = buffer@;
            match hash_inner_node::<H>(parameters, &cur_hash, empty_hash, buffer) {
                Ok(h) => {
                    proof {
                        H::lemma_evaluate_output(*parameters, buffer@.take(input_len::<H>() as int));
                    }
                    cur_hash = h;
                },
                Err(e) => {
                    proof {
                        lemma_write_over_zero_tail(old_buffer, cur_hash@ + empty);
                        assert(padding_value::<H>(
                            *parameters,
                            empty,
                            start,
                            (cur_height - tree_height + 1) as nat,
                        ) is None);
                        lemma_padding_none::<H>(
                            *parameters,
                            empty,
                            start,
                            (cur_height - tree_height + 1) as nat,
                            steps,
                        );
                    }
                    return Err(e);
                },
            }
            let ghost old_pairs = pairs_view(padding_tree@);
            padding_tree.push((copy_digest(&cur_hash), copy_digest(empty_hash)));
            assert(pairs_view(padding_tree@) =~= old_pairs.push((cur_hash@, empty)));
            cur_height += 1;
            assert(pairs_view(padding_tree@) =~= Seq::new(
                (cur_height - tree_height) as nat,
                |j: int| (padding_value::<H>(*parameters, empty, start, (j + 1) as nat).unwrap(), empty),
            ));
        }
        proof {
            lemma_write_over_zero_tail(buffer@, cur_hash@ + empty);
        }
        match hash_inner_node::<H>(parameters, &cur_hash, empty_hash, buffer) {
            Ok(h) => Ok((padding_tree, h)),
            Err(e) => {
                assert(steps == (cur_height - tree_height) as nat + 1);
                assert(padding_value::<H>(*parameters, empty, start, steps) is None);
                Err(e)
            },
        }
    } else {
        Ok((padding_tree, cur_hash))
    }
}

} // verus!
