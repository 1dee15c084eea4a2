use crypto_primitives::crh::pedersen::{Window, CRH};
use crypto_primitives::crh::FixedLengthCRH;
use crypto_primitives::merkle_tree::{Config, Error as MerkleError, MerkleTree, Path};
use crypto_primitives::Error;

#[derive(Clone)]
struct Window4x256;

impl Window for Window4x256 {
    const WINDOW_SIZE: usize = 4;
    const NUM_WINDOWS: usize = 256;
}

type H = CRH<Window4x256>;

struct JubJubMerkleTreeParams;

impl Config for JubJubMerkleTreeParams {
    const HEIGHT: usize = 8;
    type H = H;
}

type JubJubMerkleTree = MerkleTree<JubJubMerkleTreeParams>;

fn generate_merkle_tree(leaves: &[Vec<u8>]) {
    let mut rng = ark_std::test_rng();

    let crh_parameters = H::setup(&mut rng).unwrap();
    let tree = JubJubMerkleTree::new(crh_parameters.clone(), leaves).unwrap();
    let root = tree.root();
    for (i, leaf) in leaves.iter().enumerate() {
        let proof = tree.generate_proof(i, leaf).unwrap();
        assert!(proof.verify(&crh_parameters, &root, leaf).unwrap());
    }
}

#[test]
fn good_root_test() {
    let mut leaves = Vec::new();
    for i in 0..4u8 {
        leaves.push(vec![i, i, i, i, i, i, i, i]);
    }
    generate_merkle_tree(&leaves);
    let mut leaves = Vec::new();
    for i in 0..100u8 {
        leaves.push(vec![i, i, i, i, i, i, i, i]);
    }
    generate_merkle_tree(&leaves);
}

#[test]
fn no_dummy_nodes_test() {
    let mut leaves = Vec::new();
    for i in 0..(1u8 << (JubJubMerkleTree::height() - 1)) {
        leaves.push(vec![i, i, i, i, i, i, i, i]);
    }
    generate_merkle_tree(&leaves);
}

#[test]
fn single_leaf_test() {
    generate_merkle_tree(&[vec![1u8; 8]]);
}

fn bad_merkle_tree_verify(leaves: &[Vec<u8>]) {
    let mut rng = ark_std::test_rng();

    let crh_parameters = H::setup(&mut rng).unwrap();
    let tree = JubJubMerkleTree::new(crh_parameters.clone(), leaves).unwrap();
    // The affine identity, as `JubJub::zero().into()` gives it.
    let root = H::default_output();
    for (i, leaf) in leaves.iter().enumerate() {
        let proof = tree.generate_proof(i, leaf).unwrap();
        assert!(proof.verify(&crh_parameters, &root, leaf).unwrap());
    }
}

#[should_panic]
#[test]
fn bad_root_test() {
    let mut leaves = Vec::new();
    for i in 0..4u8 {
        leaves.push(vec![i, i, i, i, i, i, i, i]);
    }
    generate_merkle_tree(&leaves);
    let mut leaves = Vec::new();
    for i in 0..100u8 {
        leaves.push(vec![i, i, i, i, i, i, i, i]);
    }
    bad_merkle_tree_verify(&leaves);
}

fn small_tree(leaves: &[Vec<u8>]) -> (<H as FixedLengthCRH>::Parameters, JubJubMerkleTree) {
    let mut rng = ark_std::test_rng();
    let crh_parameters = H::setup(&mut rng).unwrap();
    let tree = JubJubMerkleTree::new(crh_parameters.clone(), leaves).unwrap();
    (crh_parameters, tree)
}

#[test]
fn wrong_leaf_is_refused_with_its_position() {
    let leaves = vec![vec![0u8; 8], vec![1u8; 8], vec![2u8; 8], vec![3u8; 8]];
    let (_, tree) = small_tree(&leaves);
    // Four leaf positions: leaf 1 is node 1 + 4 - 1 = 4.
    let r = tree.generate_proof(1, &[9u8; 8]);
    assert!(matches!(r, Err(Error::MerkleTree(MerkleError::IncorrectLeafIndex(4)))));
}

#[test]
fn leaf_hashed_over_a_longer_one_is_refused() {
    // Construction writes the leaves one after the other into one buffer, so the
    // second leaf is hashed with the tail of the first.
    let leaves = vec![vec![1u8, 2, 3], vec![1u8]];
    let (_, tree) = small_tree(&leaves);
    assert!(tree.generate_proof(0, &leaves[0]).is_ok());
    let r = tree.generate_proof(1, &leaves[1]);
    assert!(matches!(r, Err(Error::MerkleTree(MerkleError::IncorrectLeafIndex(2)))));
}

#[test]
fn path_has_one_pair_per_level() {
    let leaves = vec![vec![5u8; 8], vec![6u8; 8], vec![7u8; 8]];
    let (parameters, tree) = small_tree(&leaves);
    let root = tree.root();
    for (i, leaf) in leaves.iter().enumerate() {
        let proof = tree.generate_proof(i, leaf).unwrap();
        assert_eq!(proof.get_length(), 7);
        assert!(proof.verify(&parameters, &root, leaf).unwrap());
        // Another leaf does not verify with this path.
        assert!(!proof.verify(&parameters, &root, &[8u8; 8]).unwrap());
    }
}

#[test]
fn path_read_back_from_its_bytes() {
    let leaves = vec![vec![1u8; 8], vec![2u8; 8]];
    let (parameters, tree) = small_tree(&leaves);
    let proof = tree.generate_proof(1, &leaves[1]).unwrap();
    let mut bytes = Vec::new();
    proof.write(&mut bytes);
    assert_eq!(bytes.len(), 7 * 2 * 64);
    let read = Path::<JubJubMerkleTreeParams>::read(&bytes).unwrap();
    assert!(read == proof);
    assert!(read.verify(&parameters, &tree.root(), &leaves[1]).unwrap());
    // A digest without a partner is dropped.
    let mut longer = bytes.clone();
    longer.extend_from_slice(&bytes[0..64]);
    let read = Path::<JubJubMerkleTreeParams>::read(&longer).unwrap();
    assert!(read == proof);
}

#[test]
fn path_read_needs_a_digest() {
    assert!(matches!(Path::<JubJubMerkleTreeParams>::read(&[]), Err(Error::Decode)));
    assert!(matches!(Path::<JubJubMerkleTreeParams>::read(&[0u8; 63]), Err(Error::Decode)));
    // A coordinate at or above the field modulus does not decode.
    assert!(matches!(Path::<JubJubMerkleTreeParams>::read(&[0xffu8; 64]), Err(Error::Decode)));
    // One digest makes an empty path.
    let mut one = vec![0u8; 64];
    one[32] = 1;
    assert_eq!(Path::<JubJubMerkleTreeParams>::read(&one).unwrap().get_length(), 0);
}

#[test]
fn default_path_holds_default_digests() {
    let p = Path::<JubJubMerkleTreeParams>::default();
    assert_eq!(p.get_length(), 7);
    for (a, b) in p.get_path() {
        assert_eq!(a, H::default_output());
        assert_eq!(b, H::default_output());
    }
}

#[test]
fn path_of_wrong_length_does_not_verify() {
    let leaves = vec![vec![1u8; 8]];
    let (parameters, tree) = small_tree(&leaves);
    let proof = tree.generate_proof(0, &leaves[0]).unwrap();
    let mut pairs = proof.get_path();
    pairs.pop();
    let short = Path::<JubJubMerkleTreeParams>::set_path(pairs);
    assert_eq!(short.get_length(), 6);
    assert!(!short.verify(&parameters, &tree.root(), &leaves[0]).unwrap());
    let clone = proof.clone();
    assert!(clone == proof);
    assert!(!(short == proof));
}

#[test]
fn blank_tree_keeps_parameters() {
    let mut rng = ark_std::test_rng();
    let crh_parameters = H::setup(&mut rng).unwrap();
    let _tree = JubJubMerkleTree::blank(crh_parameters);
    assert_eq!(JubJubMerkleTree::height(), 8);
}

struct Blake2sTreeParams;

impl Config for Blake2sTreeParams {
    const HEIGHT: usize = 4;
    type H = crypto_primitives::crh::pedersen::Blake2s;
}

#[test]
fn blake2s_tree_proofs_verify() {
    let mut rng = ark_std::test_rng();
    let parameters = crypto_primitives::crh::pedersen::Blake2s::setup(&mut rng).unwrap();
    let leaves = vec![vec![1u8; 4], vec![2u8; 4], vec![3u8; 4]];
    let tree = MerkleTree::<Blake2sTreeParams>::new(parameters.clone(), &leaves).unwrap();
    let root = tree.root();
    assert_eq!(root.len(), 32);
    for (i, leaf) in leaves.iter().enumerate() {
        let proof = tree.generate_proof(i, leaf).unwrap();
        assert_eq!(proof.get_length(), 3);
        assert!(proof.verify(&parameters, &root, leaf).unwrap());
    }
}

#[test]
fn padding_slot_proof_for_zero_leaf() {
    let leaves = vec![vec![1u8; 8], vec![2u8; 8], vec![3u8; 8]];
    let (parameters, tree) = small_tree(&leaves);
    // Slot 3 is empty: an all-zero leaf hashes to the value stored there.
    let proof = tree.generate_proof(3, &[0u8; 8]).unwrap();
    assert!(proof.verify(&parameters, &tree.root(), &[0u8; 8]).unwrap());
    // Another leaf was never hashed into the tree: its position (3 + 4 - 1) is refused.
    let r = tree.generate_proof(3, &[5u8; 8]);
    assert!(matches!(r, Err(Error::MerkleTree(MerkleError::IncorrectLeafIndex(6)))));
}

#[test]
fn zero_leaf_in_free_slot_keeps_root() {
    let leaves = vec![vec![1u8; 8], vec![2u8; 8], vec![3u8; 8]];
    let (_, tree) = small_tree(&leaves);
    let mut more = leaves.clone();
    more.push(vec![0u8; 8]);
    let (_, tree2) = small_tree(&more);
    assert_eq!(tree.root(), tree2.root());
}

#[test]
fn build_checks_and_leaf_positions() {
    let mut rng = ark_std::test_rng();
    let parameters = H::setup(&mut rng).unwrap();
    assert!(JubJubMerkleTree::hash_fits(&parameters));
    assert!(JubJubMerkleTree::can_build(&parameters, 0));
    assert!(JubJubMerkleTree::can_build(&parameters, 128));
    // 129 leaves need a ninth level.
    assert!(!JubJubMerkleTree::can_build(&parameters, 129));
    let leaves = vec![vec![1u8; 8], vec![2u8; 8], vec![3u8; 8]];
    let tree = JubJubMerkleTree::new(parameters, &leaves).unwrap();
    assert_eq!(tree.leaf_positions(), 4);
}

#[test]
fn verify_answers_under_setup_parameters() {
    let leaves = vec![vec![1u8; 8], vec![2u8; 8]];
    let (parameters, tree) = small_tree(&leaves);
    // A path that has nothing to do with the tree is refused, not failed.
    let p = Path::<JubJubMerkleTreeParams>::default();
    assert!(!p.verify(&parameters, &tree.root(), &leaves[0]).unwrap());
}
