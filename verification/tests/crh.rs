use ark_ec::ProjectiveCurve;
use ark_ed_on_bls12_381::EdwardsProjective;
use ark_ff::{FromBytes, ToBytes};
use blake2::Digest;
use crypto_primitives::crh::pedersen::{bytes_to_bits, Blake2Params, Blake2s, Parameters, Window, CRH};
use crypto_primitives::crh::FixedLengthCRH;
use crypto_primitives::Error;

struct Window2x4;

impl Window for Window2x4 {
    const WINDOW_SIZE: usize = 2;
    const NUM_WINDOWS: usize = 4;
}

type Small = CRH<Window2x4>;

fn point(bytes: &[u8; 128]) -> EdwardsProjective {
    EdwardsProjective::read(&bytes[..]).unwrap()
}

fn affine_bytes(p: EdwardsProjective) -> Vec<u8> {
    let mut out = Vec::new();
    p.into_affine().write(&mut out).unwrap();
    out
}

#[test]
fn bits_least_significant_first() {
    let bits = bytes_to_bits(&[0b0000_0101u8, 0x80]);
    assert_eq!(
        bits,
        vec![
            true, false, true, false, false, false, false, false, false, false, false, false,
            false, false, false, true
        ]
    );
    assert_eq!(bytes_to_bits(&[]).len(), 0);
}

#[test]
fn pedersen_setup_has_doubling_rows() {
    let mut rng = ark_std::test_rng();
    let parameters = Small::setup(&mut rng).unwrap();
    assert_eq!(parameters.generators.len(), 4);
    for row in &parameters.generators {
        assert_eq!(row.len(), 2);
        assert_eq!(affine_bytes(point(&row[1])), affine_bytes(point(&row[0]).double()));
    }
    assert_eq!(Small::create_generators(&mut rng).len(), 4);
    assert_eq!(Small::generator_powers(3, &mut rng).len(), 3);
    assert_eq!(parameters.to_field_elements().unwrap().len(), 0);
}

#[test]
fn pedersen_sums_selected_generators() {
    let mut rng = ark_std::test_rng();
    let parameters = Small::setup(&mut rng).unwrap();
    let g = &parameters.generators;
    // No bit set: the identity.
    let zero = Small::evaluate(&parameters, &[0u8]).unwrap();
    assert_eq!(zero, Small::default_output());
    assert_eq!(zero.len(), 64);
    // Bit 0: the first generator of window 0.
    assert_eq!(Small::evaluate(&parameters, &[0b01u8]).unwrap(), affine_bytes(point(&g[0][0])));
    // Bit 1: its double.
    assert_eq!(Small::evaluate(&parameters, &[0b10u8]).unwrap(), affine_bytes(point(&g[0][1])));
    // Bits 0 and 2: the first generators of windows 0 and 1.
    assert_eq!(
        Small::evaluate(&parameters, &[0b101u8]).unwrap(),
        affine_bytes(point(&g[0][0]) + &point(&g[1][0]))
    );
    // All bits.
    let mut all = EdwardsProjective::default();
    for row in g {
        for p in row {
            all += &point(p);
        }
    }
    assert_eq!(Small::evaluate(&parameters, &[0xffu8]).unwrap(), affine_bytes(all));
}

#[test]
fn pedersen_pads_short_input() {
    let mut rng = ark_std::test_rng();
    let parameters = Small::setup(&mut rng).unwrap();
    assert_eq!(Small::evaluate(&parameters, &[]).unwrap(), Small::evaluate(&parameters, &[0u8]).unwrap());
}

#[test]
fn pedersen_reports_undecodable_generator() {
    let parameters = Parameters { generators: vec![vec![[0xffu8; 128]; 2]; 4] };
    assert!(matches!(Small::evaluate(&parameters, &[0b1u8]), Err(Error::Crh)));
    // An unused generator is never decoded.
    assert_eq!(Small::evaluate(&parameters, &[0u8]).unwrap(), Small::default_output());
    let cloned = parameters.clone();
    assert_eq!(cloned.generators, parameters.generators);
    assert_eq!(Parameters::default().generators.len(), 0);
}

#[test]
fn pedersen_reads_affine_digest() {
    let mut bytes = Small::default_output();
    bytes.extend_from_slice(&[7u8; 10]);
    assert_eq!(Small::read_output(&bytes).unwrap(), Small::default_output());
    assert!(Small::read_output(&bytes[..63]).is_none());
    assert!(Small::read_output(&[0xffu8; 64]).is_none());
}

#[test]
fn blake2s_hashes_seed_then_input() {
    let parameters = Blake2Params::default();
    let input = [1u8, 2, 3];
    let mut h = blake2::Blake2s::new();
    h.update(&[0u8; 32][..]);
    h.update(&input[..]);
    let expected = h.finalize().to_vec();
    let got = Blake2s::evaluate(&parameters, &input).unwrap();
    assert_eq!(got, expected);
    assert_eq!(got.len(), 32);
    assert_ne!(got, Blake2s::evaluate(&parameters, &[1u8, 2, 4]).unwrap());
}

#[test]
fn blake2s_setup_seeds_differ_from_zero() {
    let mut rng = ark_std::test_rng();
    let parameters = Blake2s::setup(&mut rng).unwrap();
    let same = parameters.clone();
    assert_eq!(Blake2s::evaluate(&parameters, &[5u8]).unwrap(), Blake2s::evaluate(&same, &[5u8]).unwrap());
    assert_ne!(
        Blake2s::evaluate(&parameters, &[5u8]).unwrap(),
        Blake2s::evaluate(&Blake2Params::default(), &[5u8]).unwrap()
    );
}

#[test]
fn blake2s_reads_32_bytes() {
    let bytes: Vec<u8> = (0u8..40).collect();
    assert_eq!(Blake2s::read_output(&bytes).unwrap(), bytes[..32].to_vec());
    assert!(Blake2s::read_output(&bytes[..31]).is_none());
    assert_eq!(Blake2s::default_output(), vec![0u8; 32]);
}


#[test]
fn pedersen_default_digest_is_identity() {
    let d = Small::default_output();
    let mut expected = vec![0u8; 64];
    expected[32] = 1;
    assert_eq!(d, expected);
    assert_eq!(d, affine_bytes(EdwardsProjective::default()));
}

#[test]
fn pedersen_zero_inputs_hash_to_identity() {
    let mut rng = ark_std::test_rng();
    let parameters = Small::setup(&mut rng).unwrap();
    assert_eq!(Small::evaluate(&parameters, &[]).unwrap(), Small::default_output());
    assert_eq!(Small::evaluate(&parameters, &[0u8]).unwrap(), Small::default_output());
    // Even undecodable generators give the identity when no bit selects them.
    let broken = Parameters { generators: vec![vec![[0xffu8; 128]; 2]; 4] };
    assert_eq!(Small::evaluate(&broken, &[]).unwrap(), Small::default_output());
}

#[test]
fn pedersen_setup_parameters_hash_every_input() {
    let mut rng = ark_std::test_rng();
    let parameters = Small::setup(&mut rng).unwrap();
    for b in 0u8..=255 {
        assert!(Small::evaluate(&parameters, &[b]).is_ok());
    }
}

#[test]
fn accepted_input_lengths() {
    let mut rng = ark_std::test_rng();
    let parameters = Small::setup(&mut rng).unwrap();
    // Four windows of two bits: one byte.
    assert!(Small::accepts_input_len(&parameters, 0));
    assert!(Small::accepts_input_len(&parameters, 1));
    assert!(!Small::accepts_input_len(&parameters, 2));
    // A wrong number of generator rows is refused.
    let short = Parameters { generators: vec![vec![[0u8; 128]; 2]; 3] };
    assert!(!Small::accepts_input_len(&short, 0));
    assert!(Blake2s::accepts_input_len(&Blake2Params::default(), 1000));
}
