use ark_bls12_381::{Fr, G1Affine, G1Projective};
use ark_ec::{AffineRepr, CurveGroup};
use ark_serialize::CanonicalSerialize;
use avail_cda::g1::{combine_proofs_homomorphic, G1Point};
use avail_cda::rlnc::coding_vector_from_words;

fn compress(p: G1Affine) -> [u8; 48] {
    let mut out = [0u8; 48];
    p.serialize_compressed(&mut out[..]).unwrap();
    out
}

fn multiple(k: u64) -> [u8; 48] {
    let g: G1Projective = G1Affine::generator().into_group();
    compress((g * Fr::from(k)).into_affine())
}

fn points() -> [G1Point; 16] {
    core::array::from_fn(|i| G1Point::from_compressed(&multiple(i as u64 + 1)).unwrap())
}

#[test]
fn from_compressed_checks_encoding() {
    let g = multiple(1);
    let p = G1Point::from_compressed(&g).expect("generator decodes");
    assert_eq!(p.to_compressed(), g);
    assert!(G1Point::from_compressed(&[0u8; 48]).is_none());
    let mut bad = g;
    bad[47] ^= 1;
    assert!(G1Point::from_compressed(&bad).is_none());
}

#[test]
fn combine_selects_with_unit_vector() {
    let mut w = [0u64; 16];
    w[6] = 1;
    let r = combine_proofs_homomorphic(&points(), &coding_vector_from_words(&w));
    assert_eq!(r.to_compressed(), multiple(7));
}

#[test]
fn combine_is_weighted_sum() {
    let mut w = [0u64; 16];
    w[0] = 3; // 3 * (1 g)
    w[2] = 5; // 5 * (3 g)
    let r = combine_proofs_homomorphic(&points(), &coding_vector_from_words(&w));
    assert_eq!(r.to_compressed(), multiple(3 + 15));
}

#[test]
fn combine_with_zero_vector_is_identity() {
    let r = combine_proofs_homomorphic(&points(), &coding_vector_from_words(&[0; 16]));
    let mut id = [0u8; 48];
    id[0] = 0xc0;
    assert_eq!(r.to_compressed(), id);
}

#[test]
fn combine_all_ones() {
    // sum of (i + 1) g for i < 16 = 136 g
    let r = combine_proofs_homomorphic(&points(), &coding_vector_from_words(&[1; 16]));
    assert_eq!(r.to_compressed(), multiple(136));
}
