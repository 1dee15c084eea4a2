//! What holds of tree construction, authentication paths and their verification
//! together.

use crate::crh::FixedLengthCRH;
use crate::merkle_tree::index::{
    lemma_child_of_parent, lemma_least_pow2_unique, lemma_log2_ceil, lemma_tree_height_of_size, log2_ceil,
    spec_is_left_child, spec_tree_height,
};
use crate::merkle_tree::model::{
    auth_path, buffer_size, hash_buffer, height8, input_len, leaf_buffer, lemma_auth_path_len,
    lemma_node_none_propagates, lemma_padding_none, levels, model_leaf_hashes, model_node,
    node_hash,
    model_padding, model_root, model_tree, new_succeeds, num_leaf_slots, padding_steps,
    padding_value, pair_up, path_bytes, read_digests, spec_generate_proof, spec_hash_empty,
    spec_fresh_leaf_hash, spec_inner_hash, spec_leaf_hash, spec_read_path, spec_verify,
    verify_pairs, write_prefix, zeros,
};
use crate::merkle_tree::{Config, Error as MerkleError, MerkleTree};
use vstd::arithmetic::power2::*;
use vstd::prelude::*;

verus! {

/// Whether the bytes of the buffer `buf` from `2 * d` up to `n` are zero: writing two
/// digests of `d` bytes over it then gives the same first `n` bytes as writing them over
/// a fresh buffer.
pub open spec fn tail_clean(buf: Seq<u8>, d: nat, n: nat) -> bool {
    &&& buf.len() == buffer_size()
    &&& forall|t: int| 2 * d <= t < n && t < buffer_size() ==> buf[t] == 0u8
}

/// Whether both digests of each pair have `d` bytes.
pub open spec fn pairs_have_len(pairs: Seq<(Seq<u8>, Seq<u8>)>, d: nat) -> bool {
    forall|i: int| 0 <= i < pairs.len() ==> (#[trigger] pairs[i]).0.len() == d && pairs[i].1.len() == d
}

/// Writing two digests over a buffer with a clean tail gives the hash input that a fresh
/// buffer gives, and leaves the tail clean.
pub proof fn lemma_write_clean(buf: Seq<u8>, x: Seq<u8>, d: nat, n: nat)
    requires
        tail_clean(buf, d, n),
        x.len() == 2 * d,
        n <= buffer_size(),
    ensures
        write_prefix(buf, x).take(n as int) == write_prefix(zeros(buffer_size()), x).take(n as int),
        tail_clean(write_prefix(buf, x), d, n),
        tail_clean(write_prefix(zeros(buffer_size()), x), d, n),
{
    assert(write_prefix(buf, x).take(n as int) =~= write_prefix(zeros(buffer_size()), x).take(
        n as int,
    ));
}

/// Verification from a buffer with a clean tail goes as it goes from a fresh buffer.
pub proof fn lemma_verify_pairs_buffer<H: FixedLengthCRH>(
    parameters: H::Parameters,
    buf: Seq<u8>,
    root: Seq<u8>,
    prev: Seq<u8>,
    pairs: Seq<(Seq<u8>, Seq<u8>)>,
)
    requires
        tail_clean(buf, H::output_size(), input_len::<H>()),
        input_len::<H>() <= buffer_size(),
        pairs_have_len(pairs, H::output_size()),
    ensures
        verify_pairs::<H>(parameters, buf, root, prev, pairs) == verify_pairs::<H>(
            parameters,
            zeros(buffer_size()),
            root,
            prev,
            pairs,
        ),
    decreases pairs.len(),
{
    if pairs.len() > 0 {
        let (h, s) = pairs[0];
        let d = H::output_size();
        let n = input_len::<H>();
        assert(pairs[0].0.len() == d && pairs[0].1.len() == d);
        let z = zeros(buffer_size());
        assert(tail_clean(z, d, n));
        lemma_write_clean(buf, h + s, d, n);
        lemma_write_clean(z, h + s, d, n);
        let rest = pairs.drop_first();
        assert(pairs_have_len(rest, d)) by {
            assert forall|i: int| 0 <= i < rest.len() implies (#[trigger] rest[i]).0.len() == d
                && rest[i].1.len() == d by {
                assert(rest[i] == pairs[i + 1]);
            }
        }
        let b1 = write_prefix(buf, h + s);
        let b2 = write_prefix(z, h + s);
        match hash_buffer::<H>(parameters, b1) {
            Some(x) => {
                lemma_verify_pairs_buffer::<H>(parameters, b1, root, x, rest);
                lemma_verify_pairs_buffer::<H>(parameters, b2, root, x, rest);
            },
            None => {},
        }
    }
}

/// Whether `tree` holds a complete binary tree with `num_leaves` leaf positions, level by
/// level from the root, in which every inner node is the hash of its two children and every
/// node has the length of a digest.
pub open spec fn is_hash_tree<H: FixedLengthCRH>(parameters: H::Parameters, tree: Seq<Seq<u8>>, num_leaves: nat) -> bool {
    &&& num_leaves >= 1
    &&& tree.len() == 2 * num_leaves - 1
    &&& forall|c: int| 0 <= c < tree.len() ==> (#[trigger] tree[c]).len() == H::output_size()
    &&& forall|c: int|
        0 <= c && c + 1 < num_leaves ==> spec_inner_hash::<H>(parameters, tree[2 * c + 1], tree[2 * c + 2])
            == Some(#[trigger] tree[c])
}

/// Verifying the authentication path of node `c` of a hash tree, followed by any pairs,
/// comes to verifying those pairs from the root of the tree.
#[verifier::spinoff_prover]
#[verifier::rlimit(40)]
pub proof fn lemma_verify_auth_path<H: FixedLengthCRH>(
    parameters: H::Parameters,
    tree: Seq<Seq<u8>>,
    num_leaves: nat,
    c: nat,
    root: Seq<u8>,
    rest: Seq<(Seq<u8>, Seq<u8>)>,
)
    requires
        is_hash_tree::<H>(parameters, tree, num_leaves),
        c < tree.len(),
        pairs_have_len(rest, H::output_size()),
        input_len::<H>() <= buffer_size(),
    ensures
        pairs_have_len(auth_path(tree, c) + rest, H::output_size()),
        verify_pairs::<H>(parameters, zeros(buffer_size()), root, tree[c as int], auth_path(tree, c) + rest)
            == verify_pairs::<H>(parameters, zeros(buffer_size()), root, tree[0], rest),
    decreases c,
{
    let d = H::output_size();
    let z = zeros(buffer_size());
    if c == 0 {
        assert(auth_path(tree, 0) + rest =~= rest);
    } else {
        let q = ((c - 1) as nat) / 2;
        lemma_child_of_parent(c);
        lemma_verify_auth_path::<H>(parameters, tree, num_leaves, q, root, rest);
        let pair = if spec_is_left_child(c) {
            (tree[c as int], tree[(c + 1) as int])
        } else {
            (tree[c - 1], tree[c as int])
        };
        let tail = auth_path(tree, q) + rest;
        let all = auth_path(tree, c) + rest;
        assert(auth_path(tree, c) == seq![pair] + auth_path(tree, q));
        assert(all =~= seq![pair] + tail);
        assert(all[0] == pair);
        assert(all.drop_first() =~= tail);
        assert(pair.0 + pair.1 == tree[(2 * q + 1) as int] + tree[(2 * q + 2) as int]);
        assert(spec_inner_hash::<H>(parameters, tree[(2 * q + 1) as int], tree[(2 * q + 2) as int]) == Some(tree[q as int]));
        assert(tail_clean(z, d, input_len::<H>()));
        lemma_write_clean(z, pair.0 + pair.1, d, input_len::<H>());
        lemma_verify_pairs_buffer::<H>(
            parameters,
            write_prefix(z, pair.0 + pair.1),
            root,
            tree[q as int],
            tail,
        );
        assert(pairs_have_len(all, d)) by {
            assert forall|i: int| 0 <= i < all.len() implies (#[trigger] all[i]).0.len() == d
                && all[i].1.len() == d by {
                if i > 0 {
                    assert(all[i] == tail[i - 1]);
                }
            }
        }
    }
}

/// The pairs that lift a value from step `j` to step `m` of the lifting chain: the value
/// at each step with the empty leaf.
pub open spec fn padding_pairs<H: FixedLengthCRH>(parameters: H::Parameters, empty: Seq<u8>, top: Seq<u8>, j: nat, m: nat) -> Seq<(Seq<u8>, Seq<u8>)> {
    Seq::new(
        (m - j) as nat,
        |i: int| (padding_value::<H>(parameters, empty, top, (j + i) as nat).unwrap(), empty),
    )
}

/// The values of a lifting chain that does not fail have the length of a digest.
pub proof fn lemma_padding_value_len<H: FixedLengthCRH>(parameters: H::Parameters, empty: Seq<u8>, top: Seq<u8>, i: nat, m: nat)
    requires
        i <= m,
        padding_value::<H>(parameters, empty, top, m) is Some,
        top.len() == H::output_size(),
    ensures
        padding_value::<H>(parameters, empty, top, i) is Some,
        padding_value::<H>(parameters, empty, top, i).unwrap().len() == H::output_size(),
{
    if padding_value::<H>(parameters, empty, top, i) is None {
        lemma_padding_none::<H>(parameters, empty, top, i, m);
    }
    if i > 0 {
        let v = padding_value::<H>(parameters, empty, top, (i - 1) as nat).unwrap();
        if padding_value::<H>(parameters, empty, top, (i - 1) as nat) is None {
            lemma_padding_none::<H>(parameters, empty, top, (i - 1) as nat, m);
        }
        H::lemma_evaluate_output(
            parameters,
            write_prefix(zeros(buffer_size()), v + empty).take(input_len::<H>() as int),
        );
    }
}

/// Verifying the lifting pairs from step `j` on succeeds exactly where the root is the
/// value of the last step.
pub proof fn lemma_verify_padding<H: FixedLengthCRH>(
    parameters: H::Parameters,
    empty: Seq<u8>,
    top: Seq<u8>,
    root: Seq<u8>,
    j: nat,
    m: nat,
)
    requires
        j <= m,
        padding_value::<H>(parameters, empty, top, m) is Some,
        top.len() == H::output_size(),
        empty.len() == H::output_size(),
        input_len::<H>() <= buffer_size(),
    ensures
        pairs_have_len(padding_pairs::<H>(parameters, empty, top, j, m), H::output_size()),
        verify_pairs::<H>(
            parameters,
            zeros(buffer_size()),
            root,
            padding_value::<H>(parameters, empty, top, j).unwrap(),
            padding_pairs::<H>(parameters, empty, top, j, m),
        ) == Ok::<bool, crate::Error>(root == padding_value::<H>(parameters, empty, top, m).unwrap()),
    decreases m - j,
{
    let d = H::output_size();
    let z = zeros(buffer_size());
    let pairs = padding_pairs::<H>(parameters, empty, top, j, m);
    assert(pairs_have_len(pairs, d)) by {
        assert forall|i: int| 0 <= i < pairs.len() implies (#[trigger] pairs[i]).0.len() == d
            && pairs[i].1.len() == d by {
            lemma_padding_value_len::<H>(parameters, empty, top, (j + i) as nat, m);
        }
    }
    if j < m {
        lemma_padding_value_len::<H>(parameters, empty, top, j, m);
        lemma_padding_value_len::<H>(parameters, empty, top, j + 1, m);
        let v = padding_value::<H>(parameters, empty, top, j).unwrap();
        assert(pairs[0] == (v, empty));
        assert(pairs.drop_first() =~= padding_pairs::<H>(parameters, empty, top, j + 1, m));
        assert(tail_clean(z, d, input_len::<H>()));
        lemma_write_clean(z, v + empty, d, input_len::<H>());
        lemma_verify_padding::<H>(parameters, empty, top, root, j + 1, m);
        lemma_verify_pairs_buffer::<H>(
            parameters,
            write_prefix(z, v + empty),
            root,
            padding_value::<H>(parameters, empty, top, j + 1).unwrap(),
            padding_pairs::<H>(parameters, empty, top, j + 1, m),
        );
    }
}

/// The nodes of a tree that was built are a hash tree.
pub proof fn lemma_model_is_hash_tree<P: Config>(parameters: <P::H as FixedLengthCRH>::Parameters, leaves: Seq<Seq<u8>>)
    requires
        new_succeeds::<P>(parameters, leaves),
    ensures
        is_hash_tree::<P::H>(parameters, model_tree::<P>(parameters, leaves), num_leaf_slots(leaves.len())),
        forall|c: int|
            0 <= c < model_tree::<P>(parameters, leaves).len() ==> (#[trigger] model_node::<P::H>(
                parameters,
                leaves,
                c as nat,
            )) is Some,
{
    let nls = num_leaf_slots(leaves.len());
    let tree = model_tree::<P>(parameters, leaves);
    let lh = model_leaf_hashes::<P::H>(parameters, leaves);
    let empty = spec_hash_empty::<P::H>(parameters).unwrap();
    lemma_pow2_pos(log2_ceil(leaves.len()));
    P::H::lemma_evaluate_output(parameters, zeros(input_len::<P::H>()));
    assert forall|c: int| 0 <= c < tree.len() implies (#[trigger] model_node::<P::H>(
        parameters,
        leaves,
        c as nat,
    )) is Some by {
        if model_node::<P::H>(parameters, leaves, c as nat) is None {
            lemma_node_none_propagates::<P::H>(parameters, lh, empty, nls, c as nat);
        }
    }
    assert forall|c: int| 0 <= c < tree.len() implies (#[trigger] tree[c]).len()
        == P::H::output_size() by {
        assert(model_node::<P::H>(parameters, leaves, c as nat) is Some);
        if c + 1 >= nls {
            let i = c + 1 - nls;
            if i < leaves.len() {
                assert(spec_leaf_hash::<P::H>(parameters, leaves, i as nat) is Some);
                P::H::lemma_evaluate_output(
                    parameters,
                    leaf_buffer(leaves, (i + 1) as nat).take(input_len::<P::H>() as int),
                );
            }
        } else {
            let l = model_node::<P::H>(parameters, leaves, (2 * c + 1) as nat);
            let r = model_node::<P::H>(parameters, leaves, (2 * c + 2) as nat);
            assert(l is Some && r is Some);
            P::H::lemma_evaluate_output(
                parameters,
                write_prefix(zeros(buffer_size()), l.unwrap() + r.unwrap()).take(
                    input_len::<P::H>() as int,
                ),
            );
        }
    }
    assert forall|c: int| 0 <= c && c + 1 < nls implies spec_inner_hash::<P::H>(
        parameters,
        tree[2 * c + 1],
        tree[2 * c + 2],
    ) == Some(#[trigger] tree[c]) by {
        assert(model_node::<P::H>(parameters, leaves, c as nat) is Some);
        assert(model_node::<P::H>(parameters, leaves, (2 * c + 1) as nat) is Some);
        assert(model_node::<P::H>(parameters, leaves, (2 * c + 2) as nat) is Some);
    }
}

/// The authentication path that a built tree generates for one of its leaves verifies
/// against its root.
///
/// The leaf must be hashed in the tree as it is hashed alone: the buffer that construction
/// writes the leaves into, one after the other, holds the same first input bytes after
/// this leaf as a fresh buffer with this leaf; and the leaf bytes that verification leaves
/// in its buffer past two digests are zero up to the input length. The height must be
/// at least 2 (a path of no pairs does not verify) and fit in the byte that the tree
/// keeps it in.
pub proof fn lemma_generated_proof_verifies<P: Config>(
    parameters: <P::H as FixedLengthCRH>::Parameters,
    leaves: Seq<Seq<u8>>,
    index: nat,
)
    requires
        new_succeeds::<P>(parameters, leaves),
        2 <= P::HEIGHT <= 255,
        levels(leaves.len()) <= height8::<P>(),
        index < leaves.len(),
        input_len::<P::H>() <= buffer_size(),
        leaf_buffer(leaves, index + 1).take(input_len::<P::H>() as int) == write_prefix(
            zeros(buffer_size()),
            leaves[index as int],
        ).take(input_len::<P::H>() as int),
        tail_clean(
            write_prefix(zeros(buffer_size()), leaves[index as int]),
            P::H::output_size(),
            input_len::<P::H>(),
        ),
    ensures
        spec_generate_proof::<P>(
            model_tree::<P>(parameters, leaves),
            model_padding::<P>(parameters, leaves),
            parameters,
            index,
            leaves[index as int],
        ) matches Ok(path) && spec_verify::<P>(
            path,
            parameters,
            model_root::<P>(parameters, leaves),
            leaves[index as int],
        ) == Ok::<bool, crate::Error>(true),
{
    let n = leaves.len();
    let k = log2_ceil(n);
    let nls = num_leaf_slots(n);
    let tree = model_tree::<P>(parameters, leaves);
    let padding = model_padding::<P>(parameters, leaves);
    let leaf = leaves[index as int];
    let empty = spec_hash_empty::<P::H>(parameters).unwrap();
    let d = P::H::output_size();
    let z = zeros(buffer_size());
    let h8 = height8::<P>();
    lemma_model_is_hash_tree::<P>(parameters, leaves);
    lemma_tree_height_of_size(k);
    lemma_log2_ceil(n);
    lemma_pow2_pos(k);
    lemma_pow2_unfold(k + 1);
    P::H::lemma_evaluate_output(parameters, zeros(input_len::<P::H>()));
    assert(h8 == P::HEIGHT);
    let ti = (index + nls - 1) as nat;
    // The leaf hashes to the value stored at its position.
    assert(model_node::<P::H>(parameters, leaves, ti) == spec_leaf_hash::<P::H>(parameters, leaves, index));
    assert(tree[ti as int] == model_node::<P::H>(parameters, leaves, ti).unwrap());
    let ap = auth_path(tree, ti);
    lemma_auth_path_len(tree, ti, k);
    let steps = padding_steps::<P>(n);
    let top = tree[0];
    assert(top == model_node::<P::H>(parameters, leaves, 0).unwrap());
    let rest = padding_pairs::<P::H>(parameters, empty, top, 0, steps);
    let path = if ap.len() != h8 - 1 {
        ap + seq![(tree[0], empty)] + padding
    } else {
        ap
    };
    if ap.len() != h8 - 1 {
        assert(seq![(tree[0], empty)] + padding =~= rest);
        assert(path =~= ap + rest);
    } else {
        assert(steps == 0);
        assert(path =~= ap + rest);
    }
    assert(spec_generate_proof::<P>(tree, padding, parameters, index, leaf) == Ok::<
        Seq<(Seq<u8>, Seq<u8>)>,
        crate::Error,
    >(path));
    // The path verifies.
    lemma_verify_padding::<P::H>(parameters, empty, top, model_root::<P>(parameters, leaves), 0, steps);
    lemma_verify_auth_path::<P::H>(parameters, tree, nls, ti, model_root::<P>(parameters, leaves), rest);
    lemma_verify_pairs_buffer::<P::H>(
        parameters,
        write_prefix(z, leaf),
        model_root::<P>(parameters, leaves),
        tree[ti as int],
        path,
    );
    if k > 0 {
        assert(path[0] == ap[0]);
    } else {
        assert(ti == 0);
        assert(path[0] == rest[0]);
    }
}

/// The digests joined one after the other, from the first on.
pub open spec fn concat_digests(ds: Seq<Seq<u8>>) -> Seq<u8>
    decreases ds.len(),
{
    if ds.len() == 0 {
        seq![]
    } else {
        ds[0] + concat_digests(ds.drop_first())
    }
}

/// The digests of a path, pair by pair, the left one first.
pub open spec fn path_digests(pairs: Seq<(Seq<u8>, Seq<u8>)>) -> Seq<Seq<u8>> {
    Seq::new(
        2 * pairs.len(),
        |t: int| if t % 2 == 0 { pairs[t / 2].0 } else { pairs[t / 2].1 },
    )
}

proof fn lemma_concat_digests_push(ds: Seq<Seq<u8>>, a: Seq<u8>)
    ensures
        concat_digests(ds.push(a)) == concat_digests(ds) + a,
    decreases ds.len(),
{
    if ds.len() == 0 {
        assert(ds.push(a).drop_first() =~= Seq::<Seq<u8>>::empty());
        assert(concat_digests(ds.push(a).drop_first()) =~= Seq::<u8>::empty());
        assert(ds.push(a)[0] == a);
        assert(concat_digests(ds.push(a)) =~= a);
    } else {
        assert(ds.push(a).drop_first() =~= ds.drop_first().push(a));
        lemma_concat_digests_push(ds.drop_first(), a);
        assert(concat_digests(ds.push(a)) =~= concat_digests(ds) + a);
    }
}

proof fn lemma_path_bytes_concat(pairs: Seq<(Seq<u8>, Seq<u8>)>)
    ensures
        path_bytes(pairs) == concat_digests(path_digests(pairs)),
    decreases pairs.len(),
{
    if pairs.len() == 0 {
        assert(path_digests(pairs) =~= Seq::<Seq<u8>>::empty());
    } else {
        let init = pairs.drop_last();
        lemma_path_bytes_concat(init);
        assert(path_digests(pairs) =~= path_digests(init).push(pairs.last().0).push(pairs.last().1));
        lemma_concat_digests_push(path_digests(init), pairs.last().0);
        lemma_concat_digests_push(path_digests(init).push(pairs.last().0), pairs.last().1);
        assert(path_bytes(pairs) =~= concat_digests(path_digests(pairs)));
    }
}

proof fn lemma_read_concat<H: FixedLengthCRH>(ds: Seq<Seq<u8>>)
    requires
        forall|i: int|
            0 <= i < ds.len() ==> (#[trigger] ds[i]).len() == H::output_size() && H::output_decodes(ds[i]),
    ensures
        read_digests::<H>(concat_digests(ds)) == ds,
    decreases ds.len(),
{
    let bytes = concat_digests(ds);
    H::lemma_read_output(bytes);
    H::lemma_output_size();
    if ds.len() == 0 {
        assert(read_digests::<H>(bytes) =~= ds);
    } else {
        let rest = ds.drop_first();
        assert(ds[0].len() == H::output_size() && H::output_decodes(ds[0]));
        assert(bytes.take(H::output_size() as int) =~= ds[0]);
        assert(bytes.skip(H::output_size() as int) =~= concat_digests(rest));
        lemma_read_concat::<H>(rest);
        assert(read_digests::<H>(bytes) =~= seq![ds[0]] + rest);
    }
}

/// Reading back the bytes that a path writes gives the path, where it has a pair and each
/// of its digests is one that reading accepts.
pub proof fn lemma_read_write_path<H: FixedLengthCRH>(pairs: Seq<(Seq<u8>, Seq<u8>)>)
    requires
        pairs.len() > 0,
        forall|i: int|
            0 <= i < pairs.len() ==> (#[trigger] pairs[i]).0.len() == H::output_size() && H::output_decodes(
                pairs[i].0,
            ) && pairs[i].1.len() == H::output_size() && H::output_decodes(pairs[i].1),
    ensures
        spec_read_path::<H>(path_bytes(pairs)) == Ok::<Seq<(Seq<u8>, Seq<u8>)>, crate::Error>(pairs),
{
    let ds = path_digests(pairs);
    lemma_path_bytes_concat(pairs);
    assert forall|i: int| 0 <= i < ds.len() implies (#[trigger] ds[i]).len() == H::output_size()
        && H::output_decodes(ds[i]) by {
        assert(pairs[i / 2] == pairs[i / 2]);
    }
    lemma_read_concat::<H>(ds);
    assert(pair_up(ds) =~= pairs);
}

/// On a tree that was built, a path is generated for a leaf exactly where the leaf hashes
/// to the value stored at its position: the path then has one pair per level below the
/// configured height, and the path length error never comes.
pub proof fn lemma_generated_path_length<P: Config>(t: MerkleTree<P>, index: nat, leaf: Seq<u8>)
    requires
        t.is_built(),
        index < pow2((t.spec_levels() - 1) as nat),
    ensures
        spec_generate_proof::<P>(t.spec_tree(), t.spec_padding(), t.spec_parameters(), index, leaf) matches Ok(path)
            ==> path.len() == height8::<P>() - 1,
        !(spec_generate_proof::<P>(t.spec_tree(), t.spec_padding(), t.spec_parameters(), index, leaf) matches Err(
            crate::Error::MerkleTree(MerkleError::IncorrectPathLength(_)),
        )),
{
    let k = (t.spec_levels() - 1) as nat;
    lemma_pow2_unfold(k + 1);
    lemma_pow2_pos(k);
    lemma_tree_height_of_size(k);
    let tree = t.spec_tree();
    let ti = (index + pow2(k) - 1) as nat;
    lemma_auth_path_len(tree, ti, k);
}

/// A path check that succeeds for two roots was given the same root twice.
proof fn lemma_verify_pairs_root_unique<H: FixedLengthCRH>(
    parameters: H::Parameters,
    buf: Seq<u8>,
    root1: Seq<u8>,
    root2: Seq<u8>,
    prev: Seq<u8>,
    pairs: Seq<(Seq<u8>, Seq<u8>)>,
)
    requires
        verify_pairs::<H>(parameters, buf, root1, prev, pairs) == Ok::<bool, crate::Error>(true),
        verify_pairs::<H>(parameters, buf, root2, prev, pairs) == Ok::<bool, crate::Error>(true),
    ensures
        root1 == root2,
    decreases pairs.len(),
{
    if pairs.len() > 0 {
        let (h, s) = pairs[0];
        let buf2 = write_prefix(buf, h + s);
        let x = hash_buffer::<H>(parameters, buf2).unwrap();
        lemma_verify_pairs_root_unique::<H>(parameters, buf2, root1, root2, x, pairs.drop_first());
    }
}

/// A path shows a leaf under at most one root: verification succeeds only for the root
/// that hashing up the path from the leaf gives.
pub proof fn lemma_verify_root_unique<P: Config>(
    path: Seq<(Seq<u8>, Seq<u8>)>,
    parameters: <P::H as FixedLengthCRH>::Parameters,
    root1: Seq<u8>,
    root2: Seq<u8>,
    leaf: Seq<u8>,
)
    requires
        spec_verify::<P>(path, parameters, root1, leaf) == Ok::<bool, crate::Error>(true),
        spec_verify::<P>(path, parameters, root2, leaf) == Ok::<bool, crate::Error>(true),
    ensures
        root1 == root2,
{
    let buf = write_prefix(zeros(buffer_size()), leaf);
    let claimed = hash_buffer::<P::H>(parameters, buf).unwrap();
    lemma_verify_pairs_root_unique::<P::H>(parameters, buf, root1, root2, claimed, path);
}

proof fn lemma_node_hash_some<H: FixedLengthCRH>(
    parameters: H::Parameters,
    leaf_hashes: Seq<Seq<u8>>,
    empty: Seq<u8>,
    num_leaves: nat,
    c: nat,
)
    requires
        H::evaluate_total(parameters),
    ensures
        node_hash::<H>(parameters, leaf_hashes, empty, num_leaves, c) is Some,
    decreases 2 * num_leaves - c,
{
    if c + 1 < num_leaves {
        lemma_node_hash_some::<H>(parameters, leaf_hashes, empty, num_leaves, 2 * c + 1);
        lemma_node_hash_some::<H>(parameters, leaf_hashes, empty, num_leaves, 2 * c + 2);
        let l = node_hash::<H>(parameters, leaf_hashes, empty, num_leaves, 2 * c + 1).unwrap();
        let r = node_hash::<H>(parameters, leaf_hashes, empty, num_leaves, 2 * c + 2).unwrap();
        H::lemma_evaluate_total(
            parameters,
            write_prefix(zeros(buffer_size()), l + r).take(input_len::<H>() as int),
        );
    }
}

proof fn lemma_padding_value_some<H: FixedLengthCRH>(parameters: H::Parameters, empty: Seq<u8>, start: Seq<u8>, j: nat)
    requires
        H::evaluate_total(parameters),
    ensures
        padding_value::<H>(parameters, empty, start, j) is Some,
    decreases j,
{
    if j > 0 {
        lemma_padding_value_some::<H>(parameters, empty, start, (j - 1) as nat);
        let v = padding_value::<H>(parameters, empty, start, (j - 1) as nat).unwrap();
        H::lemma_evaluate_total(
            parameters,
            write_prefix(zeros(buffer_size()), v + empty).take(input_len::<H>() as int),
        );
    }
}

/// Under parameters on which the hash has an output for every input, building a tree
/// never fails.
pub proof fn lemma_new_succeeds<P: Config>(parameters: <P::H as FixedLengthCRH>::Parameters, leaves: Seq<Seq<u8>>)
    requires
        P::H::evaluate_total(parameters),
    ensures
        new_succeeds::<P>(parameters, leaves),
{
    P::H::lemma_evaluate_total(parameters, zeros(input_len::<P::H>()));
    assert forall|i: nat| i < leaves.len() implies (#[trigger] spec_leaf_hash::<P::H>(parameters, leaves, i)) is Some by {
        P::H::lemma_evaluate_total(
            parameters,
            leaf_buffer(leaves, i + 1).take(input_len::<P::H>() as int),
        );
    }
    let empty = spec_hash_empty::<P::H>(parameters).unwrap();
    lemma_node_hash_some::<P::H>(
        parameters,
        model_leaf_hashes::<P::H>(parameters, leaves),
        empty,
        num_leaf_slots(leaves.len()),
        0,
    );
    lemma_padding_value_some::<P::H>(
        parameters,
        empty,
        model_node::<P::H>(parameters, leaves, 0).unwrap(),
        padding_steps::<P>(leaves.len()),
    );
}

/// Under parameters on which the hash has an output for every input, generating a path
/// never fails for want of a hash.
pub proof fn lemma_generate_proof_hashes<P: Config>(
    tree: Seq<Seq<u8>>,
    padding: Seq<(Seq<u8>, Seq<u8>)>,
    parameters: <P::H as FixedLengthCRH>::Parameters,
    index: nat,
    leaf: Seq<u8>,
)
    requires
        P::H::evaluate_total(parameters),
    ensures
        spec_generate_proof::<P>(tree, padding, parameters, index, leaf) != Err::<
            Seq<(Seq<u8>, Seq<u8>)>,
            crate::Error,
        >(crate::Error::Crh),
{
    P::H::lemma_evaluate_total(parameters, zeros(input_len::<P::H>()));
    P::H::lemma_evaluate_total(
        parameters,
        write_prefix(zeros(buffer_size()), leaf).take(input_len::<P::H>() as int),
    );
}

proof fn lemma_verify_pairs_ok<H: FixedLengthCRH>(
    parameters: H::Parameters,
    buf: Seq<u8>,
    root: Seq<u8>,
    prev: Seq<u8>,
    pairs: Seq<(Seq<u8>, Seq<u8>)>,
)
    requires
        H::evaluate_total(parameters),
    ensures
        verify_pairs::<H>(parameters, buf, root, prev, pairs) is Ok,
    decreases pairs.len(),
{
    if pairs.len() > 0 {
        let (h, s) = pairs[0];
        let buf2 = write_prefix(buf, h + s);
        H::lemma_evaluate_total(parameters, buf2.take(input_len::<H>() as int));
        let x = hash_buffer::<H>(parameters, buf2).unwrap();
        lemma_verify_pairs_ok::<H>(parameters, buf2, root, x, pairs.drop_first());
    }
}

/// Under parameters on which the hash has an output for every input, verifying a path
/// never fails: it answers whether the path shows the leaf.
pub proof fn lemma_verify_answers<P: Config>(
    path: Seq<(Seq<u8>, Seq<u8>)>,
    parameters: <P::H as FixedLengthCRH>::Parameters,
    root: Seq<u8>,
    leaf: Seq<u8>,
)
    requires
        P::H::evaluate_total(parameters),
    ensures
        spec_verify::<P>(path, parameters, root, leaf) is Ok,
{
    let buf = write_prefix(zeros(buffer_size()), leaf);
    P::H::lemma_evaluate_total(parameters, buf.take(input_len::<P::H>() as int));
    let claimed = hash_buffer::<P::H>(parameters, buf).unwrap();
    lemma_verify_pairs_ok::<P::H>(parameters, buf, root, claimed, path);
}

/// Where all leaves have the same length, the buffer that construction hashes a leaf in
/// holds what a fresh buffer with that leaf holds.
pub proof fn lemma_uniform_leaf_buffer(leaves: Seq<Seq<u8>>, i: nat)
    requires
        i < leaves.len(),
        forall|j: int| 0 <= j < leaves.len() ==> (#[trigger] leaves[j]).len() == leaves[i as int].len(),
    ensures
        leaf_buffer(leaves, i + 1) == write_prefix(zeros(buffer_size()), leaves[i as int]),
    decreases i,
{
    if i > 0 {
        lemma_uniform_leaf_buffer(leaves, (i - 1) as nat);
        assert(leaves[i - 1].len() == leaves[i as int].len());
        assert(leaf_buffer(leaves, i + 1) =~= write_prefix(zeros(buffer_size()), leaves[i as int]));
    } else {
        assert(leaf_buffer(leaves, 0) == zeros(buffer_size()));
    }
}

/// On a tree that was built from `leaves`, a path is generated for the leaf at a position
/// whenever construction hashed that leaf as it is hashed alone: the buffer that
/// construction writes the leaves into, one after the other, holds the same first input
/// bytes after this leaf as a fresh buffer with this leaf (so where all leaves have the
/// same length, see `lemma_uniform_leaf_buffer`).
pub proof fn lemma_generated_proof_exists<P: Config>(
    parameters: <P::H as FixedLengthCRH>::Parameters,
    leaves: Seq<Seq<u8>>,
    index: nat,
)
    requires
        new_succeeds::<P>(parameters, leaves),
        levels(leaves.len()) <= height8::<P>(),
        index < leaves.len(),
        leaf_buffer(leaves, index + 1).take(input_len::<P::H>() as int) == write_prefix(
            zeros(buffer_size()),
            leaves[index as int],
        ).take(input_len::<P::H>() as int),
    ensures
        spec_generate_proof::<P>(
            model_tree::<P>(parameters, leaves),
            model_padding::<P>(parameters, leaves),
            parameters,
            index,
            leaves[index as int],
        ) is Ok,
{
    let n = leaves.len();
    let k = log2_ceil(n);
    let nls = num_leaf_slots(n);
    let tree = model_tree::<P>(parameters, leaves);
    let padding = model_padding::<P>(parameters, leaves);
    let h8 = height8::<P>();
    lemma_tree_height_of_size(k);
    lemma_log2_ceil(n);
    lemma_pow2_pos(k);
    lemma_pow2_unfold(k + 1);
    let ti = (index + nls - 1) as nat;
    assert(model_node::<P::H>(parameters, leaves, ti) == spec_leaf_hash::<P::H>(parameters, leaves, index));
    assert(tree[ti as int] == model_node::<P::H>(parameters, leaves, ti).unwrap());
    lemma_auth_path_len(tree, ti, k);
}

proof fn lemma_leaf_buffer_prefix(leaves: Seq<Seq<u8>>, z: Seq<u8>, i: nat)
    requires
        i <= leaves.len(),
    ensures
        leaf_buffer(leaves.push(z), i) == leaf_buffer(leaves, i),
    decreases i,
{
    if i > 0 {
        lemma_leaf_buffer_prefix(leaves, z, (i - 1) as nat);
        assert(leaves.push(z)[i - 1] == leaves[i - 1]);
    }
}

proof fn lemma_node_hash_push<H: FixedLengthCRH>(
    parameters: H::Parameters,
    leaf_hashes: Seq<Seq<u8>>,
    empty: Seq<u8>,
    num_leaves: nat,
    c: nat,
)
    requires
        leaf_hashes.len() < num_leaves,
    ensures
        node_hash::<H>(parameters, leaf_hashes.push(empty), empty, num_leaves, c) == node_hash::<H>(
            parameters,
            leaf_hashes,
            empty,
            num_leaves,
            c,
        ),
    decreases 2 * num_leaves - c,
{
    if c + 1 < num_leaves {
        lemma_node_hash_push::<H>(parameters, leaf_hashes, empty, num_leaves, 2 * c + 1);
        lemma_node_hash_push::<H>(parameters, leaf_hashes, empty, num_leaves, 2 * c + 2);
    }
}

/// Appending an all-zero leaf of the common leaf length, where the tree has a free leaf
/// position for it, changes neither the tree nor its root, and construction succeeds on
/// both or on neither: an all-zero leaf hashes to the value of an empty position.
pub proof fn lemma_zero_leaf_keeps_tree<P: Config>(
    parameters: <P::H as FixedLengthCRH>::Parameters,
    leaves: Seq<Seq<u8>>,
    z: Seq<u8>,
)
    requires
        forall|j: int| 0 <= j < leaves.len() ==> (#[trigger] leaves[j]).len() == z.len(),
        z == zeros(z.len()),
        leaves.len() + 1 <= num_leaf_slots(leaves.len()),
        input_len::<P::H>() <= buffer_size(),
    ensures
        new_succeeds::<P>(parameters, leaves.push(z)) <==> new_succeeds::<P>(parameters, leaves),
        model_tree::<P>(parameters, leaves.push(z)) == model_tree::<P>(parameters, leaves),
        model_padding::<P>(parameters, leaves.push(z)) == model_padding::<P>(parameters, leaves),
        model_root::<P>(parameters, leaves.push(z)) == model_root::<P>(parameters, leaves),
{
    let n = leaves.len();
    let lz = leaves.push(z);
    let nl = input_len::<P::H>();
    // The tree keeps its number of leaf positions.
    lemma_log2_ceil(n);
    lemma_log2_ceil(n + 1);
    lemma_least_pow2_unique(n + 1, log2_ceil(n + 1), log2_ceil(n));
    assert(num_leaf_slots(lz.len()) == num_leaf_slots(n));
    assert(levels(lz.len()) == levels(n));
    // The leaves before the new one are hashed as before.
    assert forall|i: nat| i < n implies #[trigger] spec_leaf_hash::<P::H>(parameters, lz, i)
        == spec_leaf_hash::<P::H>(parameters, leaves, i) by {
        lemma_leaf_buffer_prefix(leaves, z, i + 1);
    }
    // The new leaf is hashed over an all-zero buffer.
    lemma_leaf_buffer_prefix(leaves, z, n);
    if n > 0 {
        lemma_uniform_leaf_buffer(leaves, (n - 1) as nat);
        assert(leaves[n - 1].len() == z.len());
    }
    assert(lz[n as int] == z);
    assert(leaf_buffer(lz, n + 1) =~= zeros(buffer_size()));
    assert(zeros(buffer_size()).take(nl as int) =~= zeros(nl));
    assert(spec_leaf_hash::<P::H>(parameters, lz, n) == spec_hash_empty::<P::H>(parameters));
    // So the leaf hashes gain the value of an empty position, and no node changes.
    let e = spec_hash_empty::<P::H>(parameters).unwrap();
    let lh = model_leaf_hashes::<P::H>(parameters, leaves);
    assert(model_leaf_hashes::<P::H>(parameters, lz) =~= lh.push(e));
    assert forall|c: nat| #[trigger] model_node::<P::H>(parameters, lz, c) == model_node::<P::H>(
        parameters,
        leaves,
        c,
    ) by {
        lemma_node_hash_push::<P::H>(parameters, lh, e, num_leaf_slots(n), c);
    }
    assert(model_node::<P::H>(parameters, lz, 0) == model_node::<P::H>(parameters, leaves, 0));
    assert(model_tree::<P>(parameters, lz) =~= model_tree::<P>(parameters, leaves));
    assert(model_padding::<P>(parameters, lz) =~= model_padding::<P>(parameters, leaves));
    if new_succeeds::<P>(parameters, leaves) {
        assert forall|i: nat| i < lz.len() implies (#[trigger] spec_leaf_hash::<P::H>(parameters, lz, i)) is Some by {
            if i < n {
                assert(spec_leaf_hash::<P::H>(parameters, leaves, i) is Some);
            }
        }
    }
    if new_succeeds::<P>(parameters, lz) {
        assert forall|i: nat| i < n implies (#[trigger] spec_leaf_hash::<P::H>(parameters, leaves, i)) is Some by {
            assert(spec_leaf_hash::<P::H>(parameters, lz, i) is Some);
        }
    }
}

/// Whether the pairs link from `prev` up to `root`: `prev` is one of the two digests of
/// the first pair, the hash of each pair is one of the two digests of the next, and the
/// hash of the last pair is `root`.
pub open spec fn pairs_link<H: FixedLengthCRH>(
    parameters: H::Parameters,
    prev: Seq<u8>,
    pairs: Seq<(Seq<u8>, Seq<u8>)>,
    root: Seq<u8>,
) -> bool {
    &&& pairs.len() > 0
    &&& (prev == pairs[0].0 || prev == pairs[0].1)
    &&& forall|i: int|
        0 <= i < pairs.len() - 1 ==> ((#[trigger] spec_inner_hash::<H>(parameters, pairs[i].0, pairs[i].1))
            matches Some(x) && (x == pairs[i + 1].0 || x == pairs[i + 1].1))
    &&& spec_inner_hash::<H>(parameters, pairs.last().0, pairs.last().1) == Some(root)
}

proof fn lemma_verify_pairs_link<H: FixedLengthCRH>(
    parameters: H::Parameters,
    root: Seq<u8>,
    prev: Seq<u8>,
    pairs: Seq<(Seq<u8>, Seq<u8>)>,
)
    requires
        pairs.len() > 0,
        verify_pairs::<H>(parameters, zeros(buffer_size()), root, prev, pairs) == Ok::<bool, crate::Error>(true),
        pairs_have_len(pairs, H::output_size()),
        input_len::<H>() <= buffer_size(),
    ensures
        pairs_link::<H>(parameters, prev, pairs, root),
    decreases pairs.len(),
{
    let d = H::output_size();
    let n = input_len::<H>();
    let z = zeros(buffer_size());
    let (h, s) = pairs[0];
    let buf2 = write_prefix(z, h + s);
    let x = hash_buffer::<H>(parameters, buf2).unwrap();
    assert(spec_inner_hash::<H>(parameters, h, s) == Some(x));
    let rest = pairs.drop_first();
    assert(prev == h || prev == s);
    assert(verify_pairs::<H>(parameters, buf2, root, x, rest) == Ok::<bool, crate::Error>(true));
    if rest.len() == 0 {
        assert(pairs.last() == pairs[0]);
        assert(root == x);
    } else {
        assert(pairs[0].0.len() == d && pairs[0].1.len() == d);
        assert(tail_clean(z, d, n));
        lemma_write_clean(z, h + s, d, n);
        assert(pairs_have_len(rest, d)) by {
            assert forall|i: int| 0 <= i < rest.len() implies (#[trigger] rest[i]).0.len() == d
                && rest[i].1.len() == d by {
                assert(rest[i] == pairs[i + 1]);
            }
        }
        lemma_verify_pairs_buffer::<H>(parameters, buf2, root, x, rest);
        lemma_verify_pairs_link::<H>(parameters, root, x, rest);
        assert(pairs.last() == rest.last());
        assert forall|i: int| 0 <= i < pairs.len() - 1 implies ((#[trigger] spec_inner_hash::<H>(
            parameters,
            pairs[i].0,
            pairs[i].1,
        )) matches Some(y) && (y == pairs[i + 1].0 || y == pairs[i + 1].1)) by {
            if i > 0 {
                assert(pairs[i] == rest[i - 1]);
                assert(pairs[i + 1] == rest[i]);
                assert(spec_inner_hash::<H>(parameters, rest[i - 1].0, rest[i - 1].1) matches Some(y)
                    && (y == rest[i].0 || y == rest[i].1));
            } else {
                assert(pairs[1] == rest[0]);
            }
        }
    }
}

/// A path that verifies links the leaf to the root: it has one pair per level below the
/// root, the hash of the leaf is one of the two digests of its first pair, the hash of
/// each pair is one of the two digests of the next, and the hash of the last pair is the
/// root. The digests of the path have the digest length, and the leaf bytes that the
/// verification buffer keeps past two digests are zero up to the input length.
pub proof fn lemma_verify_sound<P: Config>(
    path: Seq<(Seq<u8>, Seq<u8>)>,
    parameters: <P::H as FixedLengthCRH>::Parameters,
    root: Seq<u8>,
    leaf: Seq<u8>,
)
    requires
        spec_verify::<P>(path, parameters, root, leaf) == Ok::<bool, crate::Error>(true),
        pairs_have_len(path, P::H::output_size()),
        input_len::<P::H>() <= buffer_size(),
        tail_clean(
            write_prefix(zeros(buffer_size()), leaf),
            P::H::output_size(),
            input_len::<P::H>(),
        ),
    ensures
        path.len() == P::HEIGHT - 1,
        spec_fresh_leaf_hash::<P::H>(parameters, leaf) matches Some(l) && pairs_link::<P::H>(
            parameters,
            l,
            path,
            root,
        ),
{
    let buf = write_prefix(zeros(buffer_size()), leaf);
    let claimed = hash_buffer::<P::H>(parameters, buf).unwrap();
    lemma_verify_pairs_buffer::<P::H>(parameters, buf, root, claimed, path);
    lemma_verify_pairs_link::<P::H>(parameters, root, claimed, path);
}

/// A path is generated only for leaf bytes that hash to the node stored at the leaf's
/// position `index + 2^(levels - 1) - 1`, and the path then starts with a pair that holds
/// that node; leaf bytes that hash to another value are refused with that position.
pub proof fn lemma_generate_proof_checks_leaf<P: Config>(
    tree: Seq<Seq<u8>>,
    padding: Seq<(Seq<u8>, Seq<u8>)>,
    parameters: <P::H as FixedLengthCRH>::Parameters,
    index: nat,
    leaf: Seq<u8>,
)
    ensures
        ({
            let ti = (index + pow2((spec_tree_height(tree.len()) - 1) as nat) - 1) as nat;
            let r = spec_generate_proof::<P>(tree, padding, parameters, index, leaf);
            &&& r is Ok ==> spec_fresh_leaf_hash::<P::H>(parameters, leaf) == Some(tree[ti as int])
            &&& (r matches Ok(path) ==> (path.len() > 0 ==> (path[0].0 == tree[ti as int]
                || path[0].1 == tree[ti as int])))
            &&& (spec_fresh_leaf_hash::<P::H>(parameters, leaf) matches Some(l) && l != tree[ti as int]
                && spec_hash_empty::<P::H>(parameters) is Some) ==> r == Err::<
                Seq<(Seq<u8>, Seq<u8>)>,
                crate::Error,
            >(crate::Error::MerkleTree(MerkleError::IncorrectLeafIndex(ti as usize)))
        }),
{
    let ti = (index + pow2((spec_tree_height(tree.len()) - 1) as nat) - 1) as nat;
    let ap = auth_path(tree, ti);
    if ti > 0 {
        assert(ap.len() > 0);
        assert(ap[0].0 == tree[ti as int] || ap[0].1 == tree[ti as int]);
    } else {
        assert(ap.len() == 0);
    }
}

} // verus!
