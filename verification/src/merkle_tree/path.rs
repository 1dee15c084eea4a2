//! Authentication paths.

use crate::crh::FixedLengthCRH;
use crate::merkle_tree::model::{
    buffer_size, input_len, pair_up, path_bytes, read_digests, spec_read_path, spec_verify,
    verify_pairs, write_prefix, zeros,
};
use crate::merkle_tree::{
    copy_digest, digest_eq, hash_inner_node, hash_leaf, pairs_view, Config, Parameters,
};
use crate::Error as CrateError;
use vstd::prelude::*;

verus! {

/// The hashes of a path from a leaf to the root: at each level, the pair of the node
/// and its sibling, the left child first.
pub struct Path<P: Config> {
    pub(crate) path: Vec<(Vec<u8>, Vec<u8>)>,
    pub(crate) config: core::marker::PhantomData<P>,
}

impl<P: Config> View for Path<P> {
    type V = Seq<(Seq<u8>, Seq<u8>)>;

    closed spec fn view(&self) -> Seq<(Seq<u8>, Seq<u8>)> {
        pairs_view(self.path@)
    }
}

impl<P: Config> Path<P> {
    /// The number of pairs.
    pub fn get_length(&self) -> (r: usize)
        ensures
            r == self@.len(),
    {
        self.path.len()
    }

    /// The pairs.
    pub fn get_path(&self) -> (r: Vec<(Vec<u8>, Vec<u8>)>)
        ensures
            pairs_view(r@) == self@,
    {
        let path = self.clone();
        path.path
    }

    /// The path of the given pairs.
    pub fn set_path(path: Vec<(Vec<u8>, Vec<u8>)>) -> (r: Self)
        ensures
            r@ == pairs_view(path@),
    {
        Path { path: path, config: core::marker::PhantomData }
    }

    /// Appends the bytes of the path to `writer`: the two digests of each pair, from the
    /// first pair on.
    pub fn write(&self, writer: &mut Vec<u8>)
        ensures
            final(writer)@ == old(writer)@ + path_bytes(self@),
    {
        let mut i: usize = 0;
        while i < self.path.len()
            invariant
                i <= self@.len(),
                writer@ == old(writer)@ + path_bytes(self@.take(i as int)),
            decreases self@.len() - i,
        {
            let ghost before = writer@;
            let p = &self.path[i];
            append_bytes(writer, &p.0);
            append_bytes(writer, &p.1);
            proof {
                let t = self@.take(i + 1);
                assert(t.drop_last() =~= self@.take(i as int));
                assert(t.last() == (p.0@, p.1@));
                assert(writer@ =~= old(writer)@ + path_bytes(t));
            }
            i += 1;
        }
        assert(self@.take(self@.len() as int) =~= self@);
    }

    /// Reads a path from `bytes`: digests one after the other as long as reading succeeds,
    /// taken two at a time. Fails where not even one digest can be read.
    pub fn read(bytes: &[u8]) -> (r: Result<Self, CrateError>)
        ensures
            match r {
                Ok(p) => spec_read_path::<P::H>(bytes@) == Ok::<Seq<(Seq<u8>, Seq<u8>)>, CrateError>(p@),
                Err(e) => spec_read_path::<P::H>(bytes@) == Err::<Seq<(Seq<u8>, Seq<u8>)>, CrateError>(e),
            },
    {
        let pre_output = match P::H::read_output(bytes) {
            Some(d) => d,
            None => {
                return Err(CrateError::Decode);
            },
        };
        let mut output_vec: Vec<Vec<u8>> = Vec::new();
        let mut offset: usize = 0;
        let mut cur = pre_output;
        let mut more = true;
        assert(bytes@.skip(0) =~= bytes@);
        while more
            invariant
                offset <= bytes@.len(),
                more ==> P::H::spec_read_output(bytes@.skip(offset as int)) == Some(cur@),
                !more ==> P::H::spec_read_output(bytes@.skip(offset as int)) is None,
                output_vec@.map_values(|d: Vec<u8>| d@) + read_digests::<P::H>(
                    bytes@.skip(offset as int),
                ) == read_digests::<P::H>(bytes@),
            decreases bytes@.len() - offset + (if more { 1int } else { 0int }),
        {
            let ghost rest = bytes@.skip(offset as int);
            proof {
                P::H::lemma_read_output(rest);
                P::H::lemma_output_size();
                assert(rest.skip(P::H::output_size() as int) =~= bytes@.skip(offset + cur@.len()));
            }
            let ghost before = output_vec@.map_values(|d: Vec<u8>| d@);
            output_vec.push(copy_digest(&cur));
            assert(output_vec@.map_values(|d: Vec<u8>| d@) =~= before.push(cur@));
            assert(cur@.len() == P::H::output_size());
            assert(offset + cur@.len() <= bytes@.len());
            assert(bytes@.len() == bytes.len());
            offset = offset + cur.len();
            let next = vstd::slice::slice_subrange(bytes, offset, bytes.len());
            assert(next@ =~= bytes@.skip(offset as int));
            match P::H::read_output(next) {
                Some(d) => {
                    cur = d;
                },
                None => {
                    more = false;
                },
            }
        }
        let ghost ds = read_digests::<P::H>(bytes@);
        assert(read_digests::<P::H>(bytes@.skip(offset as int)) =~= Seq::<Seq<u8>>::empty());
        assert(output_vec@.map_values(|d: Vec<u8>| d@) =~= ds);
        // now split into pairs
        let mut pairs: Vec<(Vec<u8>, Vec<u8>)> = Vec::new();
        let mut i: usize = 0;
        let length = if output_vec.len() == 0 {
            0
        } else {
            output_vec.len() - 1
        };
        while i < length
            invariant
                i % 2 == 0,
                i <= length + 1,
                length < usize::MAX,
                length + 1 == ds.len(),
                ds == output_vec@.map_values(|d: Vec<u8>| d@),
                pairs_view(pairs@) == pair_up(ds).take((i / 2) as int),
            decreases length + 1 - i,
        {
            let ghost before = pairs_view(pairs@);
            pairs.push((copy_digest(&output_vec[i]), copy_digest(&output_vec[i + 1])));
            assert(pair_up(ds).take((i / 2 + 1) as int) =~= pair_up(ds).take((i / 2) as int).push(
                pair_up(ds)[(i / 2) as int],
            ));
            assert(pairs_view(pairs@) =~= before.push(pair_up(ds)[(i / 2) as int]));
            i = i + 2;
        }
        assert(pair_up(ds).take((i / 2) as int) =~= pair_up(ds));
        Ok(Path { path: pairs, config: core::marker::PhantomData })
    }

    /// The path of the given pairs.
    pub(crate) fn from_pairs(path: Vec<(Vec<u8>, Vec<u8>)>) -> (r: Self)
        ensures
            r@ == pairs_view(path@),
    {
        Path { path, config: core::marker::PhantomData }
    }

    /// Whether the path shows that the leaf bytes `leaf` are in the tree with root
    /// `root_hash`. Only a path of one pair per level below the root is checked; any
    /// other is refused without hashing.
    pub fn verify(&self, parameters: &Parameters<P>, root_hash: &Vec<u8>, leaf: &[u8]) -> (r: Result<bool, CrateError>)
        requires
            P::HEIGHT >= 1,
            self@.len() == P::HEIGHT - 1 && self@.len() > 0 ==> {
                &&& input_len::<P::H>() <= buffer_size()
                &&& forall|s: Seq<u8>|
                    s.len() == input_len::<P::H>() ==> #[trigger] P::H::evaluate_accepts(
                        *parameters,
                        s,
                    )
            },
        ensures
            r == spec_verify::<P>(self@, *parameters, root_hash@, leaf@),
    {
        if self.path.len() != P::HEIGHT - 1 {
            return Ok(false);
        }
        // Check that the given leaf matches the leaf in the membership proof.
        let mut buffer = [0u8; 128];
        if self.path.len() > 0 {
            let claimed_leaf_hash = match hash_leaf::<P::H>(parameters, leaf, &mut buffer) {
                Ok(h) => h,
                Err(e) => {
                    assert(buffer@ =~= write_prefix(zeros(buffer_size()), leaf@));
                    return Err(e);
                },
            };
            assert(buffer@ =~= write_prefix(zeros(buffer_size()), leaf@));
            let ghost buf0 = buffer@;
            // Check if leaf is one of the bottom-most siblings.
            if !digest_eq(&claimed_leaf_hash, &self.path[0].0) && !digest_eq(&claimed_leaf_hash, &self.path[0].1) {
                return Ok(false);
            }
            let mut prev = claimed_leaf_hash;
            let mut i: usize = 0;
            assert(self@[0] == (self.path@[0].0@, self.path@[0].1@));
            assert(self@.skip(0) =~= self@);
            // Check levels between leaf level and root.
            while i < self.path.len()
                invariant
                    i <= self.path@.len(),
                    self.path@.len() == P::HEIGHT - 1,
                    self.path@.len() > 0,
                    buffer@.len() == buffer_size(),
                    input_len::<P::H>() <= buffer_size(),
                    forall|s: Seq<u8>|
                        s.len() == input_len::<P::H>() ==> #[trigger] P::H::evaluate_accepts(*parameters, s),
                    spec_verify::<P>(self@, *parameters, root_hash@, leaf@) == verify_pairs::<P::H>(
                        *parameters,
                        buffer@,
                        root_hash@,
                        prev@,
                        self@.skip(i as int),
                    ),
                decreases self.path@.len() - i,
            {
                let ghost rest = self@.skip(i as int);
                assert(rest[0] == (self.path@[i as int].0@, self.path@[i as int].1@));
                assert(rest.drop_first() =~= self@.skip(i + 1));
                let hash = &self.path[i].0;
                let sibling_hash = &self.path[i].1;
                // Check if the previous hash matches the correct current hash.
                if !digest_eq(&prev, hash) && !digest_eq(&prev, sibling_hash) {
                    return Ok(false);
                }
                prev = match hash_inner_node::<P::H>(parameters, hash, sibling_hash, &mut buffer) {
                    Ok(h) => h,
                    Err(e) => {
                        return Err(e);
                    },
                };
                i += 1;
            }
            assert(self@.skip(i as int).len() == 0);
            Ok(digest_eq(root_hash, &prev))
        } else {
            Ok(false)
        }
    }
}

/// Appends `bytes` to `writer`.
fn append_bytes(writer: &mut Vec<u8>, bytes: &Vec<u8>)
    ensures
        final(writer)@ == old(writer)@ + bytes@,
{
    let mut i: usize = 0;
    while i < bytes.len()
        invariant
            i <= bytes@.len(),
            writer@ == old(writer)@ + bytes@.take(i as int),
        decreases bytes@.len() - i,
    {
        writer.push(bytes[i]);
        assert(bytes@.take(i + 1) =~= bytes@.take(i as int).push(bytes@[i as int]));
        i += 1;
    }
    assert(bytes@.take(bytes@.len() as int) =~= bytes@);
}

impl<P: Config> Clone for Path<P> {
    /// Clones each digest.
    fn clone(&self) -> (r: Self)
        ensures
            r@ == self@,
    {
        let mut output: Vec<(Vec<u8>, Vec<u8>)> = Vec::new();
        let mut i: usize = 0;
        while i < self.path.len()
            invariant
                i <= self@.len(),
                pairs_view(output@) == self@.take(i as int),
            decreases self@.len() - i,
        {
            let ghost before = pairs_view(output@);
            output.push((copy_digest(&self.path[i].0), copy_digest(&self.path[i].1)));
            assert(self@.take(i + 1) =~= self@.take(i as int).push(self@[i as int]));
            assert(pairs_view(output@) =~= before.push(self@[i as int]));
            i += 1;
        }
        assert(self@.take(self@.len() as int) =~= self@);
        Path { path: output, config: core::marker::PhantomData }
    }
}

impl<P: Config> PartialEq for Path<P> {
    fn eq(&self, other: &Self) -> (r: bool) {
        if self.path.len() != other.path.len() {
            return false;
        }
        let mut i: usize = 0;
        while i < self.path.len()
            invariant
                self@.len() == other@.len(),
                i <= self@.len(),
                forall|k: int| 0 <= k < i ==> self@[k] == other@[k],
            decreases self@.len() - i,
        {
            if !digest_eq(&self.path[i].0, &other.path[i].0) || !digest_eq(&self.path[i].1, &other.path[i].1) {
                assert(self@[i as int] != other@[i as int]);
                return false;
            }
            assert(self@[i as int] == other@[i as int]);
            i += 1;
        }
        assert(self@ =~= other@);
        true
    }
}

impl<P: Config> vstd::std_specs::cmp::PartialEqSpecImpl for Path<P> {
    open spec fn obeys_eq_spec() -> bool {
        true
    }

    open spec fn eq_spec(&self, other: &Self) -> bool {
        self@ == other@
    }
}

impl<P: Config> Eq for Path<P> {
}

impl<P: Config> Default for Path<P> {
    /// `HEIGHT - 1` pairs of default digests.
    fn default() -> (r: Self)
        ensures
            r@ == Seq::new(
                if P::HEIGHT >= 1 { (P::HEIGHT - 1) as nat } else { 0 },
                |i: int| (P::H::spec_default_output(), P::H::spec_default_output()),
            ),
    {
        let mut path: Vec<(Vec<u8>, Vec<u8>)> = Vec::new();
        let mut i: usize = 1;
        while i < P::HEIGHT
            invariant
                1 <= i,
                i <= P::HEIGHT || P::HEIGHT == 0,
                P::HEIGHT == 0 ==> i == 1,
                pairs_view(path@) == Seq::new(
                    (i - 1) as nat,
                    |j: int| (P::H::spec_default_output(), P::H::spec_default_output()),
                ),
            decreases P::HEIGHT - i,
        {
            let ghost before = pairs_view(path@);
            path.push((P::H::default_output(), P::H::default_output()));
            assert(pairs_view(path@) =~= before.push(
                (P::H::spec_default_output(), P::H::spec_default_output()),
            ));
            assert(pairs_view(path@) =~= Seq::new(
                i as nat,
                |j: int| (P::H::spec_default_output(), P::H::spec_default_output()),
            ));
            i += 1;
        }
        assert(pairs_view(path@) =~= Seq::new(
            if P::HEIGHT >= 1 { (P::HEIGHT - 1) as nat } else { 0 },
            |i: int| (P::H::spec_default_output(), P::H::spec_default_output()),
        ));
        Path { path, config: core::marker::PhantomData }
    }
}

} // verus!
