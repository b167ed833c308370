use avail_cda::rlnc::{
    coding_vector_from_words, decode_rlnc, encode_rlnc, generate_random_coding_vector,
    invert_matrix, CodingVectorFr, RlncError,
};
use rand::rngs::StdRng;
use rand::{RngCore, SeedableRng};
use avail_cda::scalar::Scalar;
use avail_cda::types::RLNCPiece;

fn le32(x: u64) -> [u8; 32] {
    let mut b = [0u8; 32];
    b[..8].copy_from_slice(&x.to_le_bytes());
    b
}

fn cv_from(values: [u64; 16]) -> CodingVectorFr {
    core::array::from_fn(|i| Scalar::from_u64(values[i]))
}

/// Original pieces of `chunks` chunks each; chunk `j` of piece `i` encodes `1000 * i + j + 1`.
fn originals(chunks: usize) -> [Vec<u8>; 16] {
    core::array::from_fn(|i| {
        let mut v = Vec::new();
        for j in 0..chunks {
            v.extend_from_slice(&le32((1000 * i + j + 1) as u64));
        }
        v
    })
}

/// Vandermonde coding vector of row `r`: `(r + 1)^c`.
fn vandermonde_row(r: u64) -> CodingVectorFr {
    let x = Scalar::from_u64(r + 1);
    let mut out = [Scalar::from_u64(1); 16];
    for c in 1..16 {
        out[c] = out[c - 1].mul(&x);
    }
    out
}

#[test]
fn encode_with_unit_coefficients_sums_chunks() {
    let pieces = originals(2);
    let piece = encode_rlnc(&pieces, &cv_from([1; 16])).expect("aligned canonical pieces");
    // chunk 0: sum over i of 1000 i + 1 = 120000 + 16
    assert_eq!(&piece.coded_data[0..32], &le32(120016));
    // chunk 1: sum over i of 1000 i + 2 = 120000 + 32
    assert_eq!(&piece.coded_data[32..64], &le32(120032));
    for c in 0..16 {
        assert_eq!(piece.coding_vector.0[c], le32(1));
    }
}

#[test]
fn encode_with_weights() {
    let pieces = originals(1);
    let mut w = [0u64; 16];
    w[3] = 2;
    w[5] = 7;
    let piece = encode_rlnc(&pieces, &cv_from(w)).unwrap();
    assert_eq!(&piece.coded_data[..], &le32(2 * 3001 + 7 * 5001));
    assert_eq!(piece.coding_vector.0[5], le32(7));
}

#[test]
fn encode_rejects_unequal_lengths() {
    let mut pieces = originals(1);
    pieces[7].push(0);
    assert_eq!(encode_rlnc(&pieces, &cv_from([1; 16])), Err(RlncError::PieceSizeMismatch));
}

#[test]
fn encode_rejects_partial_chunk() {
    let pieces: [Vec<u8>; 16] = core::array::from_fn(|_| vec![1u8; 40]);
    assert_eq!(encode_rlnc(&pieces, &cv_from([1; 16])), Err(RlncError::PieceSizeMismatch));
}

#[test]
fn encode_rejects_non_canonical_chunk() {
    let mut pieces = originals(2);
    for b in pieces[4][32..64].iter_mut() {
        *b = 0xff;
    }
    assert_eq!(encode_rlnc(&pieces, &cv_from([1; 16])), Err(RlncError::InvalidScalarEncoding));
}

#[test]
fn encode_of_empty_pieces_is_empty() {
    let pieces: [Vec<u8>; 16] = core::array::from_fn(|_| Vec::new());
    let piece = encode_rlnc(&pieces, &cv_from([3; 16])).unwrap();
    assert!(piece.coded_data.is_empty());
}

fn coded_set(pieces: &[Vec<u8>; 16]) -> Vec<RLNCPiece> {
    (0..16).map(|r| encode_rlnc(pieces, &vandermonde_row(r)).unwrap()).collect()
}

#[test]
fn decode_recovers_encoded_pieces() {
    let pieces = originals(3);
    let coded = coded_set(&pieces);
    let decoded = decode_rlnc(&coded).expect("invertible coding matrix");
    assert_eq!(decoded, pieces);
}

#[test]
fn decode_uses_first_sixteen_pieces() {
    let pieces = originals(2);
    let mut coded = coded_set(&pieces);
    let mut junk = coded[0].clone();
    junk.coded_data = vec![0xff; 7];
    coded.push(junk);
    assert_eq!(decode_rlnc(&coded).unwrap(), pieces);
}

#[test]
fn decode_rejects_too_few_pieces() {
    let pieces = originals(1);
    let mut coded = coded_set(&pieces);
    coded.pop();
    assert_eq!(decode_rlnc(&coded), Err(RlncError::InvalidPieceCount));
}

#[test]
fn decode_rejects_size_mismatch() {
    let pieces = originals(1);
    let mut coded = coded_set(&pieces);
    coded[9].coded_data.push(0);
    assert_eq!(decode_rlnc(&coded), Err(RlncError::PieceSizeMismatch));
}

#[test]
fn decode_rejects_rank_deficient_matrix() {
    let pieces = originals(1);
    let one = encode_rlnc(&pieces, &vandermonde_row(2)).unwrap();
    let coded: Vec<RLNCPiece> = (0..16).map(|_| one.clone()).collect();
    assert_eq!(decode_rlnc(&coded), Err(RlncError::RankDeficient));
}

#[test]
fn decode_rejects_non_canonical_coefficient() {
    let pieces = originals(1);
    let mut coded = coded_set(&pieces);
    coded[2].coding_vector.0[3] = [0xff; 32];
    assert_eq!(decode_rlnc(&coded), Err(RlncError::InvalidScalarEncoding));
}

#[test]
fn decode_rejects_non_canonical_data() {
    let pieces = originals(1);
    let mut coded = coded_set(&pieces);
    coded[11].coded_data = vec![0xff; 32];
    assert_eq!(decode_rlnc(&coded), Err(RlncError::InvalidScalarEncoding));
}

#[test]
fn invert_identity_and_singular() {
    let zero = Scalar::from_u64(0);
    let one = Scalar::from_u64(1);
    let mut id = [[zero; 16]; 16];
    for i in 0..16 {
        id[i][i] = one;
    }
    assert_eq!(invert_matrix(id), Some(id));
    let mut singular = id;
    singular[4] = singular[5];
    assert_eq!(invert_matrix(singular), None);
}

#[test]
fn invert_diagonal_matrix() {
    let zero = Scalar::from_u64(0);
    let mut m = [[zero; 16]; 16];
    for i in 0..16 {
        m[i][i] = Scalar::from_u64(2);
    }
    let inv = invert_matrix(m).unwrap();
    let half = Scalar::from_u64(2).inverse().unwrap();
    for i in 0..16 {
        assert_eq!(inv[i][i], half);
        assert!(inv[i][(i + 1) % 16].is_zero());
    }
}

#[test]
fn random_coding_vector_uses_generator_words() {
    let mut rng = StdRng::seed_from_u64(2026);
    let cv = generate_random_coding_vector(&mut rng);
    let mut again = StdRng::seed_from_u64(2026);
    let words: [u64; 16] = core::array::from_fn(|_| again.next_u64());
    assert_eq!(cv, coding_vector_from_words(&words));
    for i in 0..16 {
        assert_eq!(cv[i].to_bytes(), le32(words[i]));
    }
}

fn mat_product(x: &[[Scalar; 16]; 16], y: &[[Scalar; 16]; 16]) -> [[Scalar; 16]; 16] {
    core::array::from_fn(|i| {
        core::array::from_fn(|j| {
            let mut acc = Scalar::from_u64(0);
            for k in 0..16 {
                acc = acc.add(&x[i][k].mul(&y[k][j]));
            }
            acc
        })
    })
}

#[test]
fn inverse_is_two_sided() {
    let a: [[Scalar; 16]; 16] = core::array::from_fn(|r| vandermonde_row(r as u64));
    let inv = invert_matrix(a).expect("Vandermonde matrix on distinct points");
    let one = Scalar::from_u64(1);
    let zero = Scalar::from_u64(0);
    for p in [mat_product(&inv, &a), mat_product(&a, &inv)] {
        for i in 0..16 {
            for j in 0..16 {
                assert_eq!(p[i][j], if i == j { one } else { zero });
            }
        }
    }
}
