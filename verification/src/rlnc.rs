//! Random linear network coding of data pieces over the BLS12-381 scalar field.
use vstd::prelude::*;

use rand::Rng;
use vstd::arithmetic::mul::lemma_mul_is_commutative;

pub use crate::g1::combine_proofs_homomorphic;
use crate::linalg::{
    cong, ident, ident_fn, invertible, is_left_inverse, is_right_inverse, lemma_cong_add,
    lemma_cong_mod, lemma_cong_small, lemma_cong_sub, lemma_fmul_cong, lemma_fsub_cong,
    lemma_invertible_ext, lemma_prod_eliminate, lemma_prod_scale, lemma_prod_transpose,
    lemma_reduced_inverse, lemma_row_lincomb, lemma_row_ok_copy, lemma_singular, lemma_solve,
    lemma_sum_ext, lemma_sum_ident, lemma_unique_solution, mat_mul, mat_vec, prod_ok, row_ok, sum,
};
use crate::recovery::has_enough_pieces;
use crate::scalar::{
    fadd, fmul, fsub, is_canonical, le_value, lemma_value_lt_modulus, modulus, Scalar,
};
use crate::types::{CodingVector, RLNCPiece, CODING_VECTOR_LEN, SCALAR_ENCODED_SIZE};

verus! {

broadcast use lemma_value_lt_modulus;

/// The ways coding and decoding can fail.
#[derive(Debug, Clone, Copy, PartialEq, Eq, Structural)]
pub enum RlncError {
    InvalidPieceCount,
    PieceSizeMismatch,
    InvalidScalarEncoding,
    RankDeficient,
}

/// Coding vector as field elements.
pub type CodingVectorFr = [Scalar; CODING_VECTOR_LEN];

/// The `j`-th 32-byte chunk of `d`.
pub open spec fn chunk(d: Seq<u8>, j: int) -> Seq<u8> {
    d.subrange(32 * j, 32 * j + 32)
}

/// The integer encoded by the `j`-th chunk of `d`.
pub open spec fn chunk_value(d: Seq<u8>, j: int) -> int {
    le_value(chunk(d, j)) as int
}

/// The byte contents of the sixteen pieces.
pub open spec fn piece_views(p: [Vec<u8>; 16]) -> Seq<Seq<u8>> {
    Seq::new(16, |i: int| p[i]@)
}

/// The values of a coding vector.
pub open spec fn coeffs(cv: [Scalar; 16]) -> spec_fn(int) -> int {
    |i: int| cv[i].value() as int
}

/// All sixteen pieces have the length of the first, a whole number of chunks.
pub open spec fn pieces_aligned(pieces: Seq<Seq<u8>>) -> bool {
    &&& forall|i: int| 0 <= i < 16 ==> #[trigger] pieces[i].len() == pieces[0].len()
    &&& pieces[0].len() % 32 == 0
}

/// Every chunk of every piece encodes a canonical field element.
pub open spec fn pieces_canonical(pieces: Seq<Seq<u8>>) -> bool {
    forall|i: int, j: int|
        0 <= i < 16 && 0 <= j < pieces[0].len() / 32 ==> #[trigger] is_canonical(chunk(pieces[i], j))
}

/// The terms `c(i) * chunk_j(pieces[i])`.
pub open spec fn chunk_terms(c: spec_fn(int) -> int, pieces: Seq<Seq<u8>>, j: int) -> spec_fn(int) -> int {
    |i: int| c(i) * chunk_value(pieces[i], j)
}

/// The field element `sum_i c(i) * chunk_j(pieces[i])`.
pub open spec fn combined_chunk(c: spec_fn(int) -> int, pieces: Seq<Seq<u8>>, j: int) -> int {
    sum(chunk_terms(c, pieces, j), 16) % (modulus() as int)
}

/// Copies the 32 bytes of `v` that start at `from`.
fn read_chunk(v: &Vec<u8>, from: usize) -> (r: [u8; 32])
    requires
        from + 32 <= v.len(),
    ensures
        r@ == v@.subrange(from as int, from + 32),
{
    let mut r = [0u8; 32];
    for k in 0..32
        invariant
            from + 32 <= v.len(),
            forall|t: int| 0 <= t < k ==> #[trigger] r[t] == v@[from + t],
    {
        r[k] = v[from + k];
    }
    assert(r@ =~= v@.subrange(from as int, from + 32));
    r
}

/// Overwrites the 32 bytes of `v` that start at `from` with `b`.
fn write_chunk(v: &mut Vec<u8>, from: usize, b: &[u8; 32])
    requires
        from + 32 <= old(v).len(),
    ensures
        final(v)@ == old(v)@.subrange(0, from as int) + b@ + old(v)@.subrange(
            from + 32,
            old(v)@.len() as int,
        ),
{
    let ghost v0 = v@;
    for k in 0..32
        invariant
            from + 32 <= v0.len(),
            v@.len() == v0.len(),
            from + 32 <= v.len(),
            forall|t: int| 0 <= t < v0.len() ==> #[trigger] v@[t] == (if from <= t < from + k {
                b@[t - from]
            } else {
                v0[t]
            }),
    {
        v.set(from + k, b[k]);
    }
    assert(v@ =~= v0.subrange(0, from as int) + b@ + v0.subrange(from + 32, v0.len() as int));
}

proof fn lemma_acc_step(s: int, acc: int, c: int, x: int)
    requires
        acc == s % (modulus() as int),
    ensures
        fadd(acc, fmul(c, x) as int) as int == (s + c * x) % (modulus() as int),
{
    lemma_fmul_cong(c, x);
    lemma_cong_mod(s);
    lemma_cong_add(acc, s, fmul(c, x) as int, c * x);
    vstd::arithmetic::div_mod::lemma_mod_bound(acc + fmul(c, x), modulus() as int);
}

/// Codes sixteen equally long pieces into one: chunk `j` of the result is the
/// field element `sum_i coding_vector[i] * chunk_j(pieces[i])`.
pub fn encode_rlnc(pieces: &[Vec<u8>; 16], coding_vector: &CodingVectorFr) -> (res: Result<
    RLNCPiece,
    RlncError,
>)
    ensures
        res == Err::<RLNCPiece, RlncError>(RlncError::PieceSizeMismatch) <==> !pieces_aligned(
            piece_views(*pieces),
        ),
        res == Err::<RLNCPiece, RlncError>(RlncError::InvalidScalarEncoding) <==> pieces_aligned(
            piece_views(*pieces),
        ) && !pieces_canonical(piece_views(*pieces)),
        res is Ok <==> pieces_aligned(piece_views(*pieces)) && pieces_canonical(
            piece_views(*pieces),
        ),
        res matches Ok(piece) ==> {
            &&& piece.coded_data@.len() == pieces[0]@.len()
            &&& forall|j: int|
                0 <= j < pieces[0]@.len() / 32 ==> #[trigger] chunk_value(piece.coded_data@, j)
                    == combined_chunk(coeffs(*coding_vector), piece_views(*pieces), j)
            &&& forall|i: int|
                0 <= i < 16 ==> le_value(#[trigger] piece.coding_vector.0[i]@)
                    == coding_vector[i].value()
            &&& coded_from(piece, piece_views(*pieces))
            &&& forall|j: int|
                #![trigger chunk_value(piece.coded_data@, j)]
                0 <= j < pieces[0]@.len() / 32 ==> chunk_value(piece.coded_data@, j) == sum(
                    |i: int| coding_vector[i].value() as int * chunk_value(pieces[i]@, j),
                    16,
                ) % (modulus() as int)
            &&& forall|k: int, j: int|
                #![trigger chunk_value(piece.coded_data@, j), coding_vector[k]]
                0 <= k < 16 && 0 <= j < pieces[0]@.len() / 32 && (forall|t: int|
                    0 <= t < 16 && t != k ==> (#[trigger] coding_vector[t]).value() == 0)
                    ==> chunk_value(piece.coded_data@, j) == (coding_vector[k].value()
                    * chunk_value(pieces[k]@, j)) % (modulus() as int)
        },
{
    let ghost pv = piece_views(*pieces);
    let piece_len = pieces[0].len();
    for i in 0..16
        invariant
            pv == piece_views(*pieces),
            piece_len == pv[0].len(),
            forall|t: int| 0 <= t < i ==> #[trigger] pv[t].len() == piece_len,
    {
        assert(pv[i as int] == pieces[i as int]@);
        if pieces[i].len() != piece_len {
            return Err(RlncError::PieceSizeMismatch);
        }
    }
    if piece_len % SCALAR_ENCODED_SIZE != 0 {
        return Err(RlncError::PieceSizeMismatch);
    }
    let scalar_count = piece_len / SCALAR_ENCODED_SIZE;
    let mut out: Vec<u8> = vec![0u8; piece_len];
    for scalar_idx in 0..scalar_count
        invariant
            pv == piece_views(*pieces),
            pieces_aligned(pv),
            piece_len == pv[0].len(),
            scalar_count == piece_len / 32,
            out@.len() == piece_len,
            forall|i: int, j: int|
                0 <= i < 16 && 0 <= j < scalar_idx ==> #[trigger] is_canonical(chunk(pv[i], j)),
            forall|j: int|
                0 <= j < scalar_idx ==> #[trigger] chunk_value(out@, j) == combined_chunk(
                    coeffs(*coding_vector),
                    pv,
                    j,
                ),
    {
        let from = scalar_idx * SCALAR_ENCODED_SIZE;
        let ghost terms = chunk_terms(coeffs(*coding_vector), pv, scalar_idx as int);
        let mut acc = Scalar::from_u64(0);
        for piece_idx in 0..16
            invariant
                pv == piece_views(*pieces),
                pieces_aligned(pv),
                piece_len == pv[0].len(),
                scalar_idx < scalar_count,
                scalar_count == piece_len / 32,
                from == scalar_idx * 32,
                terms == chunk_terms(coeffs(*coding_vector), pv, scalar_idx as int),
                acc.value() == sum(terms, piece_idx as nat) % (modulus() as int),
                forall|i: int| 0 <= i < piece_idx ==> #[trigger] is_canonical(chunk(pv[i], scalar_idx as int)),
        {
            assert(pv[piece_idx as int] == pieces[piece_idx as int]@);
            assert(pv[piece_idx as int].len() == piece_len);
            assert(from + 32 <= piece_len) by {
                assert(scalar_idx + 1 <= scalar_count);
            }
            let bytes = read_chunk(&pieces[piece_idx], from);
            assert(bytes@ == chunk(pv[piece_idx as int], scalar_idx as int));
            let scalar = match Scalar::from_bytes(&bytes) {
                Some(s) => s,
                None => {
                    assert(!is_canonical(chunk(pv[piece_idx as int], scalar_idx as int)));
                    return Err(RlncError::InvalidScalarEncoding);
                },
            };
            let ghost prev = acc.value() as int;
            let ghost prev_term = coding_vector[piece_idx as int].value() as int * scalar.value() as int;
            acc = acc.add(&coding_vector[piece_idx].mul(&scalar));
            proof {
                lemma_acc_step(
                    sum(terms, piece_idx as nat),
                    prev,
                    coding_vector[piece_idx as int].value() as int,
                    scalar.value() as int,
                );
                assert(terms(piece_idx as int) == prev_term);
            }
        }
        let encoded = acc.to_bytes();
        let ghost out0 = out@;
        write_chunk(&mut out, from, &encoded);
        proof {
            assert(chunk(out@, scalar_idx as int) =~= encoded@);
            assert forall|j: int| 0 <= j < scalar_idx + 1 implies #[trigger] chunk_value(out@, j)
                == combined_chunk(coeffs(*coding_vector), pv, j) by {
                if j < scalar_idx {
                    assert(32 * j + 32 <= from);
                    assert(chunk(out@, j) =~= chunk(out0, j));
                    assert(chunk_value(out0, j) == combined_chunk(coeffs(*coding_vector), pv, j));
                }
            }
        }
    }
    let mut encoded_cv = [[0u8; SCALAR_ENCODED_SIZE]; CODING_VECTOR_LEN];
    for idx in 0..16
        invariant
            forall|i: int| 0 <= i < idx ==> le_value(#[trigger] encoded_cv[i]@) == coding_vector[i].value(),
    {
        encoded_cv[idx] = coding_vector[idx].to_bytes();
    }
    let piece = RLNCPiece { coded_data: out, coding_vector: CodingVector(encoded_cv) };
    proof {
        assert forall|c: int| 0 <= c < 16 implies #[trigger] is_canonical(piece.coding_vector.0[c]@) by {
            assert(le_value(encoded_cv[c]@) == coding_vector[c].value());
        }
        assert forall|j: int| 0 <= j < pv[0].len() / 32 implies #[trigger] chunk_value(piece.coded_data@, j)
            == combined_chunk(piece_coeffs(piece), pv, j) by {
            assert forall|i: int| 0 <= i < 16 implies #[trigger] chunk_terms(piece_coeffs(piece), pv, j)(i)
                == chunk_terms(coeffs(*coding_vector), pv, j)(i) by {
                assert(le_value(encoded_cv[i]@) == coding_vector[i].value());
            }
            lemma_sum_ext(chunk_terms(piece_coeffs(piece), pv, j), chunk_terms(coeffs(*coding_vector), pv, j), 16);
        }
        assert forall|j: int|
            #![trigger chunk_value(piece.coded_data@, j)]
            0 <= j < pv[0].len() / 32 implies chunk_value(piece.coded_data@, j) == sum(
            |i: int| coding_vector[i].value() as int * chunk_value(pieces[i]@, j),
            16,
        ) % (modulus() as int) by {
            assert forall|i: int| 0 <= i < 16 implies #[trigger] chunk_terms(coeffs(*coding_vector), pv, j)(i)
                == coding_vector[i].value() as int * chunk_value(pieces[i]@, j) by {
                assert(pv[i] == pieces[i]@);
            }
            lemma_sum_ext(
                chunk_terms(coeffs(*coding_vector), pv, j),
                |i: int| coding_vector[i].value() as int * chunk_value(pieces[i]@, j),
                16,
            );
        }
        assert forall|k: int, j: int|
            #![trigger chunk_value(piece.coded_data@, j), coding_vector[k]]
            0 <= k < 16 && 0 <= j < pv[0].len() / 32 && (forall|t: int|
                0 <= t < 16 && t != k ==> (#[trigger] coding_vector[t]).value() == 0)
                implies chunk_value(piece.coded_data@, j) == (coding_vector[k].value()
                * chunk_value(pieces[k]@, j)) % (modulus() as int) by {
            let f = |i: int| coding_vector[i].value() as int * chunk_value(pieces[i]@, j);
            assert(chunk_value(piece.coded_data@, j) == sum(f, 16) % (modulus() as int));
            assert forall|t: int| 0 <= t < 16 implies #[trigger] f(t) == ident(k, t) * f(t) by {
                if t != k {
                    assert(coding_vector[t].value() == 0);
                }
            }
            lemma_sum_ext(f, |t: int| ident(k, t) * f(t), 16);
            lemma_sum_ident(f, 16, k);
        }
    }
    Ok(piece)
}

/// A square matrix of field elements, one row per coded piece.
pub open spec fn mat_of(m: [[Scalar; 16]; 16]) -> spec_fn(int, int) -> int {
    |i: int, j: int| m[i][j].value() as int
}

/// Inverts a matrix by Gauss-Jordan elimination.
///
/// Returns `Some(inv)` with `inv` a two-sided inverse of `matrix` modulo the
/// field order, or `None` exactly when `matrix` has no inverse.
pub fn invert_matrix(matrix: [[Scalar; 16]; 16]) -> (res: Option<[[Scalar; 16]; 16]>)
    ensures
        match res {
            Some(inv) => is_left_inverse(mat_of(inv), mat_of(matrix), 16) && is_right_inverse(
                mat_of(inv),
                mat_of(matrix),
                16,
            ),
            None => !invertible(mat_of(matrix), 16),
        },
{
    let ghost a = mat_of(matrix);
    let mut m = matrix;
    let zero = Scalar::from_u64(0);
    let one = Scalar::from_u64(1);
    let mut inv = [[zero; 16]; 16];
    let mut d: usize = 0;
    while d < 16
        invariant
            0 <= d <= 16,
            one.value() == 1,
            forall|i: int, j: int|
                0 <= i < 16 && 0 <= j < 16 ==> #[trigger] inv[i][j].value() == (if i == j && i < d {
                    1int
                } else {
                    0int
                }),
        decreases 16 - d,
    {
        let mut row = inv[d];
        row[d] = one;
        inv[d] = row;
        d += 1;
    }
    let ghost mut g: spec_fn(int, int) -> int = ident_fn();
    proof {
        assert forall|i: int, j: int| 0 <= i < 16 && 0 <= j < 16 implies #[trigger] mat_of(inv)(i, j)
            == ident(i, j) by {}
        assert forall|i: int| 0 <= i < 16 implies #[trigger] row_ok(mat_of(inv), a, mat_of(m), 16, i) by {
            assert forall|j: int| 0 <= j < 16 implies #[trigger] cong(
                mat_mul(mat_of(inv), a, 16, i, j),
                mat_of(m)(i, j),
            ) by {
                lemma_sum_ext(
                    |k: int| mat_of(inv)(i, k) * a(k, j),
                    |k: int| ident(i, k) * (|k: int| a(k, j))(k),
                    16,
                );
                lemma_sum_ident(|k: int| a(k, j), 16, i);
            }
        }
        assert forall|i: int, j: int| 0 <= i < 16 && 0 <= j < 16 implies #[trigger] cong(
            mat_mul(g, mat_of(m), 16, i, j),
            a(i, j),
        ) by {
            lemma_sum_ext(
                |k: int| g(i, k) * mat_of(m)(k, j),
                |k: int| ident(i, k) * (|k: int| a(k, j))(k),
                16,
            );
            lemma_sum_ident(|k: int| a(k, j), 16, i);
        }
        assert forall|i: int, j: int| 0 <= i < 16 && 0 <= j < 16 implies #[trigger] cong(
            mat_mul(g, mat_of(inv), 16, i, j),
            ident_fn()(i, j),
        ) by {
            lemma_sum_ext(
                |k: int| g(i, k) * mat_of(inv)(k, j),
                |k: int| ident(i, k) * (|k: int| ident(k, j))(k),
                16,
            );
            lemma_sum_ident(|k: int| ident(k, j), 16, i);
        }
    }
    for p in 0..16
        invariant
            a == mat_of(matrix),
            forall|i: int| 0 <= i < 16 ==> #[trigger] row_ok(mat_of(inv), a, mat_of(m), 16, i),
            prod_ok(g, mat_of(m), a, 16),
            prod_ok(g, mat_of(inv), ident_fn(), 16),
            forall|k: int, c: int|
                0 <= k < 16 && 0 <= c < p ==> #[trigger] m[k][c].value() == ident(k, c),
    {
        let mut pivot: usize = p;
        while pivot < 16 && m[pivot][p].is_zero()
            invariant
                p <= pivot <= 16,
                p < 16,
                forall|k: int| p <= k < pivot ==> #[trigger] m[k][p as int].value() == 0,
            decreases 16 - pivot,
        {
            pivot += 1;
        }
        if pivot == 16 {
            proof {
                assert forall|k: int| p <= k < 16 implies #[trigger] mat_of(m)(k, p as int) == 0 by {
                    assert(m[k][p as int].value() == 0);
                }
                assert forall|k: int, c: int| 0 <= k < 16 && 0 <= c < p implies #[trigger] mat_of(m)(
                    k,
                    c,
                ) == ident(k, c) by {
                    assert(m[k][c].value() == ident(k, c));
                }
                lemma_singular(a, g, mat_of(m), 16, p as int);
            }
            return None;
        }
        if pivot != p {
            let ghost m0 = mat_of(m);
            let ghost e0 = mat_of(inv);
            let ghost g0 = g;
            let tmp = m[pivot];
            m[pivot] = m[p];
            m[p] = tmp;
            let tmp = inv[pivot];
            inv[pivot] = inv[p];
            inv[p] = tmp;
            proof {
                let q = pivot as int;
                let pp = p as int;
                g = |i: int, k: int|
                    if k == pp {
                        g0(i, q)
                    } else if k == q {
                        g0(i, pp)
                    } else {
                        g0(i, k)
                    };
                lemma_prod_transpose(g0, m0, a, g, mat_of(m), 16, pp, q);
                lemma_prod_transpose(g0, e0, ident_fn(), g, mat_of(inv), 16, pp, q);
                assert forall|i: int| 0 <= i < 16 implies #[trigger] row_ok(
                    mat_of(inv),
                    a,
                    mat_of(m),
                    16,
                    i,
                ) by {
                    let s = if i == pp {
                        q
                    } else if i == q {
                        pp
                    } else {
                        i
                    };
                    assert(row_ok(e0, a, m0, 16, s));
                    lemma_row_ok_copy(e0, a, m0, mat_of(inv), mat_of(m), 16, i, s);
                }
                assert forall|k: int, c: int| 0 <= k < 16 && 0 <= c < p implies #[trigger] m[k][c].value()
                    == ident(k, c) by {
                    assert(m0(pp, c) == ident(pp, c));
                    assert(m0(q, c) == ident(q, c));
                    assert(m0(k, c) == ident(k, c));
                }
            }
        }
        assert(!(m[p as int][p as int].value() == 0));
        let pivot_inv = match m[p][p].inverse() {
            Some(x) => x,
            None => {
                return None;
            },
        };
        {
            let ghost m0 = mat_of(m);
            let ghost e0 = mat_of(inv);
            let ghost g0 = g;
            let ghost u = m0(p as int, p as int);
            let mut row_m = m[p];
            let mut row_e = inv[p];
            for col in 0..16
                invariant
                    forall|c: int|
                        0 <= c < 16 ==> #[trigger] row_m[c].value() == (if c < col {
                            fmul(m0(p as int, c), pivot_inv.value() as int) as int
                        } else {
                            m0(p as int, c)
                        }),
                    forall|c: int|
                        0 <= c < 16 ==> #[trigger] row_e[c].value() == (if c < col {
                            fmul(e0(p as int, c), pivot_inv.value() as int) as int
                        } else {
                            e0(p as int, c)
                        }),
            {
                row_m[col] = row_m[col].mul(&pivot_inv);
                row_e[col] = row_e[col].mul(&pivot_inv);
            }
            m[p] = row_m;
            inv[p] = row_e;
            proof {
                let pp = p as int;
                let s = pivot_inv.value() as int;
                lemma_fmul_cong(u, s);
                assert(cong(u * s, 1));
                g = |i: int, k: int|
                    if k == pp {
                        g0(i, pp) * u
                    } else {
                        g0(i, k)
                    };
                assert forall|j: int| 0 <= j < 16 implies #[trigger] cong(
                    mat_of(m)(pp, j),
                    m0(pp, j) * s,
                ) by {
                    lemma_fmul_cong(m0(pp, j), s);
                }
                assert forall|j: int| 0 <= j < 16 implies #[trigger] cong(
                    mat_of(inv)(pp, j),
                    e0(pp, j) * s,
                ) by {
                    lemma_fmul_cong(e0(pp, j), s);
                }
                lemma_prod_scale(g0, m0, a, g, mat_of(m), 16, pp, u, s);
                lemma_prod_scale(g0, e0, ident_fn(), g, mat_of(inv), 16, pp, u, s);
                assert forall|i: int| 0 <= i < 16 implies #[trigger] row_ok(
                    mat_of(inv),
                    a,
                    mat_of(m),
                    16,
                    i,
                ) by {
                    assert(row_ok(e0, a, m0, 16, i));
                    if i == pp {
                        assert forall|k: int| 0 <= k < 16 implies #[trigger] cong(
                            mat_of(inv)(pp, k),
                            s * e0(pp, k) + 0 * e0(pp, k),
                        ) by {
                            lemma_fmul_cong(e0(pp, k), s);
                            lemma_mul_is_commutative(s, e0(pp, k));
                        }
                        assert forall|j: int| 0 <= j < 16 implies #[trigger] cong(
                            mat_of(m)(pp, j),
                            s * m0(pp, j) + 0 * m0(pp, j),
                        ) by {
                            lemma_fmul_cong(m0(pp, j), s);
                            lemma_mul_is_commutative(s, m0(pp, j));
                        }
                        lemma_row_lincomb(e0, a, m0, mat_of(inv), mat_of(m), 16, pp, pp, s, 0);
                    } else {
                        lemma_row_ok_copy(e0, a, m0, mat_of(inv), mat_of(m), 16, i, i);
                    }
                }
                assert forall|k: int, c: int| 0 <= k < 16 && 0 <= c < p implies #[trigger] m[k][c].value()
                    == ident(k, c) by {
                    assert(m0(k, c) == ident(k, c));
                    if k == pp {
                        assert(m0(pp, c) == 0);
                        assert(fmul(0, s) == 0);
                    }
                }
                assert(m[pp][pp].value() == 1) by {
                    assert(fmul(u, s) == 1);
                }
            }
        }
        for row in 0..16
            invariant
                0 <= p < 16,
                a == mat_of(matrix),
                forall|i: int| 0 <= i < 16 ==> #[trigger] row_ok(mat_of(inv), a, mat_of(m), 16, i),
                prod_ok(g, mat_of(m), a, 16),
                prod_ok(g, mat_of(inv), ident_fn(), 16),
                forall|k: int, c: int|
                    0 <= k < 16 && 0 <= c < p ==> #[trigger] m[k][c].value() == ident(k, c),
                m[p as int][p as int].value() == 1,
                forall|k: int| 0 <= k < row && k != p ==> #[trigger] m[k][p as int].value() == 0,
        {
            if row != p {
                let factor = m[row][p];
                if !factor.is_zero() {
                    let ghost m0 = mat_of(m);
                    let ghost e0 = mat_of(inv);
                    let ghost g0 = g;
                    let ghost f = factor.value() as int;
                    let mut row_m = m[row];
                    let mut row_e = inv[row];
                    let pivot_m = m[p];
                    let pivot_e = inv[p];
                    for col in 0..16
                        invariant
                            forall|c: int|
                                0 <= c < 16 ==> #[trigger] row_m[c].value() == (if c < col {
                                    fsub(m0(row as int, c), fmul(f, m0(p as int, c)) as int) as int
                                } else {
                                    m0(row as int, c)
                                }),
                            forall|c: int|
                                0 <= c < 16 ==> #[trigger] row_e[c].value() == (if c < col {
                                    fsub(e0(row as int, c), fmul(f, e0(p as int, c)) as int) as int
                                } else {
                                    e0(row as int, c)
                                }),
                            forall|c: int| 0 <= c < 16 ==> #[trigger] pivot_m[c].value() == m0(p as int, c),
                            forall|c: int| 0 <= c < 16 ==> #[trigger] pivot_e[c].value() == e0(p as int, c),
                            f == factor.value(),
                    {
                        row_m[col] = row_m[col].sub(&factor.mul(&pivot_m[col]));
                        row_e[col] = row_e[col].sub(&factor.mul(&pivot_e[col]));
                    }
                    m[row] = row_m;
                    inv[row] = row_e;
                    proof {
                        let pp = p as int;
                        let r = row as int;
                        g = |i: int, k: int|
                            if k == pp {
                                g0(i, pp) + f * g0(i, r)
                            } else {
                                g0(i, k)
                            };
                        assert forall|j: int| 0 <= j < 16 implies #[trigger] cong(
                            mat_of(m)(r, j),
                            m0(r, j) - f * m0(pp, j),
                        ) by {
                            lemma_fmul_cong(f, m0(pp, j));
                            lemma_fsub_cong(m0(r, j), fmul(f, m0(pp, j)) as int);
                            lemma_cong_sub(m0(r, j), m0(r, j), fmul(f, m0(pp, j)) as int, f * m0(pp, j));
                        }
                        assert forall|j: int| 0 <= j < 16 implies #[trigger] cong(
                            mat_of(inv)(r, j),
                            e0(r, j) - f * e0(pp, j),
                        ) by {
                            lemma_fmul_cong(f, e0(pp, j));
                            lemma_fsub_cong(e0(r, j), fmul(f, e0(pp, j)) as int);
                            lemma_cong_sub(e0(r, j), e0(r, j), fmul(f, e0(pp, j)) as int, f * e0(pp, j));
                        }
                        lemma_prod_eliminate(g0, m0, a, g, mat_of(m), 16, pp, r, f);
                        lemma_prod_eliminate(g0, e0, ident_fn(), g, mat_of(inv), 16, pp, r, f);
                        assert forall|i: int| 0 <= i < 16 implies #[trigger] row_ok(
                            mat_of(inv),
                            a,
                            mat_of(m),
                            16,
                            i,
                        ) by {
                            assert(row_ok(e0, a, m0, 16, i));
                            if i == r {
                                assert(row_ok(e0, a, m0, 16, pp));
                                assert forall|k: int| 0 <= k < 16 implies #[trigger] cong(
                                    mat_of(inv)(r, k),
                                    1 * e0(r, k) + (-f) * e0(pp, k),
                                ) by {
                                    assert(cong(mat_of(inv)(r, k), e0(r, k) - f * e0(pp, k)));
                                    assert(1 * e0(r, k) + (-f) * e0(pp, k) == e0(r, k) - f * e0(pp, k))
                                        by (nonlinear_arith);
                                }
                                assert forall|j: int| 0 <= j < 16 implies #[trigger] cong(
                                    mat_of(m)(r, j),
                                    1 * m0(r, j) + (-f) * m0(pp, j),
                                ) by {
                                    assert(cong(mat_of(m)(r, j), m0(r, j) - f * m0(pp, j)));
                                    assert(1 * m0(r, j) + (-f) * m0(pp, j) == m0(r, j) - f * m0(pp, j))
                                        by (nonlinear_arith);
                                }
                                lemma_row_lincomb(e0, a, m0, mat_of(inv), mat_of(m), 16, r, pp, 1, -f);
                            } else {
                                lemma_row_ok_copy(e0, a, m0, mat_of(inv), mat_of(m), 16, i, i);
                            }
                        }
                        assert forall|k: int, c: int| 0 <= k < 16 && 0 <= c < p implies #[trigger] m[k][c].value()
                            == ident(k, c) by {
                            assert(m0(k, c) == ident(k, c));
                            if k == r {
                                assert(m0(pp, c) == 0);
                                assert(fmul(f, 0) == 0);
                                lemma_fsub_cong(m0(r, c), 0);
                                lemma_cong_small(fsub(m0(r, c), 0) as int, m0(r, c));
                            }
                        }
                        assert(m[r][pp].value() == 0) by {
                            assert(m0(pp, pp) == 1);
                            assert(fmul(f, 1) == f % (modulus() as int));
                            vstd::arithmetic::div_mod::lemma_small_mod(f as nat, modulus());
                        }
                    }
                }
            }
        }
        proof {
            assert forall|k: int, c: int| 0 <= k < 16 && 0 <= c < p + 1 implies #[trigger] m[k][c].value()
                == ident(k, c) by {
                if c == p {
                    if k != p {
                        assert(m[k][p as int].value() == 0);
                    }
                }
            }
        }
    }
    proof {
        assert forall|i: int, j: int| 0 <= i < 16 && 0 <= j < 16 implies #[trigger] mat_of(m)(i, j) == ident(i, j) by {
            assert(m[i][j].value() == ident(i, j));
        }
        lemma_reduced_inverse(a, g, mat_of(m), mat_of(inv), 16);
    }
    Some(inv)
}


/// The byte contents of the first sixteen coded pieces.
pub open spec fn data_views(cp: Seq<RLNCPiece>) -> Seq<Seq<u8>> {
    Seq::new(16, |i: int| cp[i].coded_data@)
}

/// The coding vectors of the first sixteen coded pieces, one per row, as integers.
pub open spec fn coding_matrix(cp: Seq<RLNCPiece>) -> spec_fn(int, int) -> int {
    |r: int, c: int| le_value(cp[r].coding_vector.0[c]@) as int
}

/// Every coefficient of the first sixteen coding vectors is a canonical field element.
pub open spec fn coding_canonical(cp: Seq<RLNCPiece>) -> bool {
    forall|r: int, c: int| 0 <= r < 16 && 0 <= c < 16 ==> #[trigger] is_canonical(cp[r].coding_vector.0[c]@)
}

/// Chunk `j` of each of the sixteen pieces, as a column vector.
pub open spec fn chunk_col(pieces: Seq<Seq<u8>>, j: int) -> spec_fn(int) -> int {
    |i: int| chunk_value(pieces[i], j)
}

/// `x` solves the coded system: for every chunk `j`, coding matrix times the
/// `j`-th chunks of `x` is congruent to the `j`-th chunks of `y`.
pub open spec fn solves(a: spec_fn(int, int) -> int, x: Seq<Seq<u8>>, y: Seq<Seq<u8>>) -> bool {
    forall|r: int, j: int|
        0 <= r < 16 && 0 <= j < y[0].len() / 32 ==> #[trigger] cong(
            mat_vec(a, chunk_col(x, j), 16, r),
            chunk_value(y[r], j),
        )
}

/// The output pieces as byte sequences.
pub open spec fn out_views(o: [Vec<u8>; 16]) -> Seq<Seq<u8>> {
    Seq::new(16, |i: int| o[i]@)
}

/// Recovers the sixteen original pieces from the first sixteen coded pieces
/// by inverting their coding matrix; pieces after the sixteenth are not read
/// (see `lemma_decode_reads_first_sixteen`).
///
/// On success the output solves the coded system chunk by chunk; as the
/// coding matrix is then invertible, no other canonical output does (see
/// `lemma_decode_inverts_encode`).
pub fn decode_rlnc(coded_pieces: &[RLNCPiece]) -> (res: Result<[Vec<u8>; 16], RlncError>)
    ensures
        res == Err::<[Vec<u8>; 16], RlncError>(RlncError::InvalidPieceCount)
            <==> !has_enough_pieces(coded_pieces@.len()),
        res == Err::<[Vec<u8>; 16], RlncError>(RlncError::InvalidPieceCount)
            <==> coded_pieces@.len() < CODING_VECTOR_LEN,
        res == Err::<[Vec<u8>; 16], RlncError>(RlncError::PieceSizeMismatch)
            <==> has_enough_pieces(coded_pieces@.len())
            && !pieces_aligned(data_views(coded_pieces@)),
        res == Err::<[Vec<u8>; 16], RlncError>(RlncError::InvalidScalarEncoding)
            <==> has_enough_pieces(coded_pieces@.len())
            && pieces_aligned(data_views(coded_pieces@))
            && (!coding_canonical(coded_pieces@) || (invertible(coding_matrix(coded_pieces@), 16)
            && !pieces_canonical(data_views(coded_pieces@)))),
        res == Err::<[Vec<u8>; 16], RlncError>(RlncError::RankDeficient)
            <==> has_enough_pieces(coded_pieces@.len())
            && pieces_aligned(data_views(coded_pieces@))
            && coding_canonical(coded_pieces@)
            && !invertible(coding_matrix(coded_pieces@), 16),
        res is Ok <==> has_enough_pieces(coded_pieces@.len())
            && pieces_aligned(data_views(coded_pieces@))
            && coding_canonical(coded_pieces@)
            && invertible(coding_matrix(coded_pieces@), 16)
            && pieces_canonical(data_views(coded_pieces@)),
        res matches Ok(original) ==> {
            &&& forall|o: int|
                0 <= o < 16 ==> (#[trigger] original[o])@.len() == coded_pieces@[0].coded_data@.len()
            &&& pieces_canonical(out_views(original))
            &&& solves(coding_matrix(coded_pieces@), out_views(original), data_views(coded_pieces@))
            &&& forall|r: int, j: int|
                #![trigger chunk_value(coded_pieces@[r].coded_data@, j)]
                0 <= r < 16 && 0 <= j < coded_pieces@[0].coded_data@.len() / 32 ==> cong(
                    sum(
                        |i: int|
                            le_value(coded_pieces@[r].coding_vector.0[i]@) as int * chunk_value(
                                original[i]@,
                                j,
                            ),
                        16,
                    ),
                    chunk_value(coded_pieces@[r].coded_data@, j),
                )
        },
{
    if coded_pieces.len() < CODING_VECTOR_LEN {
        return Err(RlncError::InvalidPieceCount);
    }
    let ghost cp = coded_pieces@;
    let ghost dv = data_views(cp);
    let piece_len = coded_pieces[0].coded_data.len();
    for i in 0..16
        invariant
            cp == coded_pieces@,
            cp.len() >= 16,
            dv == data_views(cp),
            piece_len == dv[0].len(),
            forall|t: int| 0 <= t < i ==> #[trigger] dv[t].len() == piece_len,
    {
        assert(dv[i as int] == coded_pieces@[i as int].coded_data@);
        if coded_pieces[i].coded_data.len() != piece_len {
            return Err(RlncError::PieceSizeMismatch);
        }
    }
    if piece_len % SCALAR_ENCODED_SIZE != 0 {
        return Err(RlncError::PieceSizeMismatch);
    }
    assert(pieces_aligned(dv));
    let zero = Scalar::from_u64(0);
    let mut a = [[zero; 16]; 16];
    for row in 0..16
        invariant
            cp == coded_pieces@,
            cp.len() >= 16,
            dv == data_views(cp),
            pieces_aligned(dv),
            forall|r: int, c: int|
                0 <= r < row && 0 <= c < 16 ==> #[trigger] is_canonical(cp[r].coding_vector.0[c]@),
            forall|r: int, c: int|
                0 <= r < row && 0 <= c < 16 ==> #[trigger] a[r][c].value() == coding_matrix(cp)(r, c),
    {
        let mut a_row = a[row];
        for col in 0..16
            invariant
                cp == coded_pieces@,
                cp.len() >= 16,
                dv == data_views(cp),
                pieces_aligned(dv),
                row < 16,
                forall|c: int| 0 <= c < col ==> #[trigger] is_canonical(cp[row as int].coding_vector.0[c]@),
                forall|c: int| 0 <= c < col ==> #[trigger] a_row[c].value() == coding_matrix(cp)(row as int, c),
        {
            a_row[col] = match Scalar::from_bytes(&coded_pieces[row].coding_vector.0[col]) {
                Some(s) => s,
                None => {
                    assert(!coding_canonical(cp));
                    return Err(RlncError::InvalidScalarEncoding);
                },
            };
        }
        a[row] = a_row;
    }
    proof {
        assert forall|r: int, c: int| 0 <= r < 16 && 0 <= c < 16 implies #[trigger] mat_of(a)(r, c)
            == coding_matrix(cp)(r, c) by {
            assert(a[r][c].value() == coding_matrix(cp)(r, c));
        }
        lemma_invertible_ext(mat_of(a), coding_matrix(cp), 16);
    }
    let inv = match invert_matrix(a) {
        Some(x) => x,
        None => {
            return Err(RlncError::RankDeficient);
        },
    };
    assert(is_left_inverse(mat_of(inv), mat_of(a), 16));
    assert(invertible(coding_matrix(cp), 16));
    assert(coding_canonical(cp));
    let scalar_count = piece_len / SCALAR_ENCODED_SIZE;
    let mut ys: Vec<[Scalar; 16]> = Vec::new();
    for scalar_idx in 0..scalar_count
        invariant
            coding_canonical(cp),
            invertible(coding_matrix(cp), 16),
            cp == coded_pieces@,
            cp.len() >= 16,
            dv == data_views(cp),
            pieces_aligned(dv),
            piece_len == dv[0].len(),
            scalar_count == piece_len / 32,
            ys@.len() == scalar_idx,
            forall|s: int, r: int|
                0 <= s < scalar_idx && 0 <= r < 16 ==> #[trigger] is_canonical(chunk(dv[r], s)),
            forall|s: int, r: int|
                0 <= s < scalar_idx && 0 <= r < 16 ==> #[trigger] ys@[s][r].value() == chunk_value(dv[r], s),
    {
        let from = scalar_idx * SCALAR_ENCODED_SIZE;
        let mut y = [zero; 16];
        for row in 0..16
            invariant
                coding_canonical(cp),
                invertible(coding_matrix(cp), 16),
                cp == coded_pieces@,
                cp.len() >= 16,
                dv == data_views(cp),
                pieces_aligned(dv),
                piece_len == dv[0].len(),
                scalar_idx < scalar_count,
                scalar_count == piece_len / 32,
                from == scalar_idx * 32,
                forall|r: int| 0 <= r < row ==> #[trigger] is_canonical(chunk(dv[r], scalar_idx as int)),
                forall|r: int| 0 <= r < row ==> #[trigger] y[r].value() == chunk_value(dv[r], scalar_idx as int),
        {
            assert(dv[row as int] == coded_pieces@[row as int].coded_data@);
            assert(dv[row as int].len() == piece_len);
            assert(from + 32 <= piece_len) by {
                assert(scalar_idx + 1 <= scalar_count);
            }
            let bytes = read_chunk(&coded_pieces[row].coded_data, from);
            assert(bytes@ == chunk(dv[row as int], scalar_idx as int));
            y[row] = match Scalar::from_bytes(&bytes) {
                Some(s) => s,
                None => {
                    assert(!pieces_canonical(dv));
                    return Err(RlncError::InvalidScalarEncoding);
                },
            };
        }
        ys.push(y);
    }
    let mut original: [Vec<u8>; 16] = [
        Vec::new(), Vec::new(), Vec::new(), Vec::new(), Vec::new(), Vec::new(), Vec::new(), Vec::new(),
        Vec::new(), Vec::new(), Vec::new(), Vec::new(), Vec::new(), Vec::new(), Vec::new(), Vec::new(),
    ];
    for out_row in 0..16
        invariant
            dv == data_views(cp),
            pieces_aligned(dv),
            piece_len == dv[0].len(),
            scalar_count == piece_len / 32,
            ys@.len() == scalar_count,
            forall|s: int, r: int|
                0 <= s < scalar_count && 0 <= r < 16 ==> #[trigger] ys@[s][r].value() == chunk_value(dv[r], s),
            forall|o: int| 0 <= o < out_row ==> (#[trigger] original[o])@.len() == piece_len,
            forall|o: int, j: int|
                0 <= o < out_row && 0 <= j < scalar_count ==> #[trigger] chunk_value(original[o]@, j)
                    == mat_vec(mat_of(inv), chunk_col(dv, j), 16, o) % (modulus() as int),
    {
        let mut v: Vec<u8> = vec![0u8; piece_len];
        for scalar_idx in 0..scalar_count
            invariant
                dv == data_views(cp),
                pieces_aligned(dv),
                piece_len == dv[0].len(),
                scalar_count == piece_len / 32,
                ys@.len() == scalar_count,
                out_row < 16,
                forall|s: int, r: int|
                    0 <= s < scalar_count && 0 <= r < 16 ==> #[trigger] ys@[s][r].value() == chunk_value(dv[r], s),
                v@.len() == piece_len,
                forall|j: int|
                    0 <= j < scalar_idx ==> #[trigger] chunk_value(v@, j) == mat_vec(
                        mat_of(inv),
                        chunk_col(dv, j),
                        16,
                        out_row as int,
                    ) % (modulus() as int),
        {
            let ghost terms = row_terms(mat_of(inv), out_row as int, chunk_col(dv, scalar_idx as int));
            let y = ys[scalar_idx];
            let mut acc = Scalar::from_u64(0);
            for col in 0..16
                invariant
                    terms == row_terms(mat_of(inv), out_row as int, chunk_col(dv, scalar_idx as int)),
                    out_row < 16,
                    forall|r: int| 0 <= r < 16 ==> #[trigger] y[r].value() == chunk_value(dv[r], scalar_idx as int),
                    acc.value() == sum(terms, col as nat) % (modulus() as int),
            {
                let ghost prev = acc.value() as int;
                acc = acc.add(&inv[out_row][col].mul(&y[col]));
                proof {
                    lemma_acc_step(
                        sum(terms, col as nat),
                        prev,
                        inv[out_row as int][col as int].value() as int,
                        y[col as int].value() as int,
                    );
                    assert(terms(col as int) == inv[out_row as int][col as int].value() as int
                        * y[col as int].value() as int);
                }
            }
            let encoded = acc.to_bytes();
            let from = scalar_idx * SCALAR_ENCODED_SIZE;
            assert(from + 32 <= piece_len) by {
                assert(scalar_idx + 1 <= scalar_count);
            }
            let ghost v0 = v@;
            write_chunk(&mut v, from, &encoded);
            proof {
                assert(chunk(v@, scalar_idx as int) =~= encoded@);
                lemma_sum_ext(
                    terms,
                    |k: int| mat_of(inv)(out_row as int, k) * chunk_col(dv, scalar_idx as int)(k),
                    16,
                );
                assert forall|j: int| 0 <= j < scalar_idx + 1 implies #[trigger] chunk_value(v@, j)
                    == mat_vec(mat_of(inv), chunk_col(dv, j), 16, out_row as int) % (
                modulus() as int) by {
                    if j < scalar_idx {
                        assert(32 * j + 32 <= from);
                        assert(chunk(v@, j) =~= chunk(v0, j));
                        assert(chunk_value(v0, j) == mat_vec(mat_of(inv), chunk_col(dv, j), 16, out_row as int) % (
                        modulus() as int));
                    } else {
                        assert(chunk_value(v@, j) == le_value(encoded@));
                    }
                }
            }
        }
        original[out_row] = v;
    }
    proof {
        let ov = out_views(original);
        assert forall|o: int| 0 <= o < 16 implies #[trigger] ov[o] == original[o]@ by {}
        assert forall|i: int, j: int| 0 <= i < 16 && 0 <= j < ov[0].len() / 32 implies #[trigger] is_canonical(
            chunk(ov[i], j),
        ) by {
            assert(ov[i] == original[i]@);
            assert(chunk_value(original[i]@, j) == mat_vec(mat_of(inv), chunk_col(dv, j), 16, i) % (
            modulus() as int));
            vstd::arithmetic::div_mod::lemma_mod_bound(mat_vec(mat_of(inv), chunk_col(dv, j), 16, i), modulus() as int);
        }
        assert forall|r: int, j: int| 0 <= r < 16 && 0 <= j < dv[0].len() / 32 implies #[trigger] cong(
            mat_vec(coding_matrix(cp), chunk_col(ov, j), 16, r),
            chunk_value(dv[r], j),
        ) by {
            let x = chunk_col(ov, j);
            let y = chunk_col(dv, j);
            assert forall|i: int| 0 <= i < 16 implies #[trigger] cong(x(i), mat_vec(mat_of(inv), y, 16, i)) by {
                assert(ov[i] == original[i]@);
                assert(chunk_value(original[i]@, j) == mat_vec(mat_of(inv), y, 16, i) % (modulus() as int));
                lemma_cong_mod(mat_vec(mat_of(inv), y, 16, i));
            }
            lemma_solve(mat_of(a), mat_of(inv), y, x, 16);
            assert(cong(mat_vec(mat_of(a), x, 16, r), y(r)));
            lemma_sum_ext(
                |k: int| mat_of(a)(r, k) * x(k),
                |k: int| coding_matrix(cp)(r, k) * x(k),
                16,
            );
        }
        assert forall|r: int, j: int|
            #![trigger chunk_value(cp[r].coded_data@, j)]
            0 <= r < 16 && 0 <= j < dv[0].len() / 32 implies cong(
            sum(|i: int| le_value(cp[r].coding_vector.0[i]@) as int * chunk_value(original[i]@, j), 16),
            chunk_value(cp[r].coded_data@, j),
        ) by {
            assert(cong(mat_vec(coding_matrix(cp), chunk_col(ov, j), 16, r), chunk_value(dv[r], j)));
            assert forall|i: int| 0 <= i < 16 implies #[trigger] chunk_col(ov, j)(i) == chunk_value(
                original[i]@,
                j,
            ) by {
                assert(ov[i] == original[i]@);
            }
            lemma_sum_ext(
                |i: int| le_value(cp[r].coding_vector.0[i]@) as int * chunk_value(original[i]@, j),
                |k: int| coding_matrix(cp)(r, k) * chunk_col(ov, j)(k),
                16,
            );
        }
    }
    Ok(original)
}

/// The terms `e(o, c) * y(c)` of row `o` of `e * y`.
pub open spec fn row_terms(e: spec_fn(int, int) -> int, o: int, y: spec_fn(int) -> int) -> spec_fn(int) -> int {
    |c: int| e(o, c) * y(c)
}


/// The coefficients of a coded piece, read from its coding vector.
pub open spec fn piece_coeffs(piece: RLNCPiece) -> spec_fn(int) -> int {
    |i: int| le_value(piece.coding_vector.0[i]@) as int
}

/// `piece` is a coding of the sixteen `originals` with the coefficients it carries.
pub open spec fn coded_from(piece: RLNCPiece, originals: Seq<Seq<u8>>) -> bool {
    &&& piece.coded_data@.len() == originals[0].len()
    &&& forall|c: int| 0 <= c < 16 ==> #[trigger] is_canonical(piece.coding_vector.0[c]@)
    &&& forall|j: int|
        0 <= j < originals[0].len() / 32 ==> #[trigger] chunk_value(piece.coded_data@, j)
            == combined_chunk(piece_coeffs(piece), originals, j)
}

/// Two byte strings of one length whose 32-byte chunks encode the same integers are equal.
proof fn lemma_chunks_determine(a: Seq<u8>, b: Seq<u8>)
    requires
        a.len() == b.len(),
        a.len() % 32 == 0,
        forall|j: int| 0 <= j < a.len() / 32 ==> #[trigger] chunk_value(a, j) == chunk_value(b, j),
    ensures
        a == b,
{
    assert forall|t: int| 0 <= t < a.len() implies a[t] == b[t] by {
        let j = t / 32;
        assert(0 <= j < a.len() / 32);
        assert(chunk_value(a, j) == chunk_value(b, j));
        lemma_le_value_injective(chunk(a, j), chunk(b, j));
        assert(chunk(a, j)[t - 32 * j] == a[t]);
        assert(chunk(b, j)[t - 32 * j] == b[t]);
    }
    assert(a =~= b);
}

/// The little-endian value of a byte string determines its bytes, given its length.
proof fn lemma_le_value_injective(a: Seq<u8>, b: Seq<u8>)
    requires
        a.len() == b.len(),
        le_value(a) == le_value(b),
    ensures
        a == b,
    decreases a.len(),
{
    if a.len() > 0 {
        assert(le_value(a) == a[0] as nat + 256 * le_value(a.drop_first()));
        assert(le_value(b) == b[0] as nat + 256 * le_value(b.drop_first()));
        lemma_le_value_injective(a.drop_first(), b.drop_first());
        assert(a =~= seq![a[0]] + a.drop_first());
        assert(b =~= seq![b[0]] + b.drop_first());
    } else {
        assert(a =~= b);
    }
}

/// Sixteen pieces coded from the same canonical originals, whose coding
/// matrix is invertible, pass every check of `decode_rlnc`; and any output
/// that `decode_rlnc` may return for them is the originals themselves.
pub proof fn lemma_decode_inverts_encode(
    originals: Seq<Seq<u8>>,
    coded: Seq<RLNCPiece>,
    decoded: Seq<Seq<u8>>,
)
    requires
        originals.len() == 16,
        pieces_aligned(originals),
        pieces_canonical(originals),
        coded.len() >= 16,
        forall|r: int| 0 <= r < 16 ==> #[trigger] coded_from(coded[r], originals),
        invertible(coding_matrix(coded), 16),
        decoded.len() == 16,
        forall|o: int| 0 <= o < 16 ==> (#[trigger] decoded[o]).len() == coded[0].coded_data@.len(),
        pieces_canonical(decoded),
        solves(coding_matrix(coded), decoded, data_views(coded)),
    ensures
        pieces_aligned(data_views(coded)),
        coding_canonical(coded),
        pieces_canonical(data_views(coded)),
        decoded == originals,
{
    let dv = data_views(coded);
    let len = originals[0].len();
    let a = coding_matrix(coded);
    assert forall|r: int| 0 <= r < 16 implies #[trigger] dv[r].len() == len by {
        assert(coded_from(coded[r], originals));
    }
    assert forall|r: int, c: int| 0 <= r < 16 && 0 <= c < 16 implies #[trigger] is_canonical(
        coded[r].coding_vector.0[c]@,
    ) by {
        assert(coded_from(coded[r], originals));
    }
    assert forall|r: int, j: int| 0 <= r < 16 && 0 <= j < len / 32 implies #[trigger] cong(
        mat_vec(a, chunk_col(originals, j), 16, r),
        chunk_value(dv[r], j),
    ) by {
        assert(coded_from(coded[r], originals));
        assert(chunk_value(dv[r], j) == combined_chunk(piece_coeffs(coded[r]), originals, j));
        lemma_sum_ext(
            chunk_terms(piece_coeffs(coded[r]), originals, j),
            |k: int| a(r, k) * chunk_col(originals, j)(k),
            16,
        );
        lemma_cong_mod(mat_vec(a, chunk_col(originals, j), 16, r));
    }
    assert forall|r: int, j: int| 0 <= r < 16 && 0 <= j < dv[0].len() / 32 implies #[trigger] is_canonical(
        chunk(dv[r], j),
    ) by {
        assert(coded_from(coded[r], originals));
        assert(chunk_value(dv[r], j) == combined_chunk(piece_coeffs(coded[r]), originals, j));
        vstd::arithmetic::div_mod::lemma_mod_bound(
            sum(chunk_terms(piece_coeffs(coded[r]), originals, j), 16),
            modulus() as int,
        );
    }
    assert(dv[0].len() == len);
    assert forall|o: int| 0 <= o < 16 implies (#[trigger] originals[o]).len() == dv[0].len() by {}
    lemma_decoded_output_unique(a, dv, decoded, originals);
}


/// `decode_rlnc` reads only the first sixteen coded pieces: on any list of at
/// least sixteen, every condition of its contract has the same value as on
/// the first sixteen pieces alone, so the two calls fail alike, and on success
/// (with `lemma_decoded_output_unique`) give the same pieces.
pub proof fn lemma_decode_reads_first_sixteen(cp: Seq<RLNCPiece>)
    requires
        cp.len() >= CODING_VECTOR_LEN,
    ensures
        has_enough_pieces(cp.len()),
        has_enough_pieces(cp.subrange(0, 16).len()),
        cp.subrange(0, 16)[0] == cp[0],
        data_views(cp.subrange(0, 16)) == data_views(cp),
        coding_canonical(cp.subrange(0, 16)) == coding_canonical(cp),
        invertible(coding_matrix(cp.subrange(0, 16)), 16) == invertible(coding_matrix(cp), 16),
        forall|x: Seq<Seq<u8>>|
            #[trigger] solves(coding_matrix(cp.subrange(0, 16)), x, data_views(cp)) == solves(
                coding_matrix(cp),
                x,
                data_views(cp),
            ),
{
    let sub = cp.subrange(0, 16);
    let a = coding_matrix(cp);
    let b = coding_matrix(sub);
    assert(data_views(sub) =~= data_views(cp));
    assert forall|r: int, c: int| 0 <= r < 16 && 0 <= c < 16 implies #[trigger] b(r, c) == a(r, c) by {
        assert(sub[r] == cp[r]);
    }
    lemma_invertible_ext(b, a, 16);
    if coding_canonical(cp) {
        assert forall|r: int, c: int| 0 <= r < 16 && 0 <= c < 16 implies #[trigger] is_canonical(
            sub[r].coding_vector.0[c]@,
        ) by {
            assert(sub[r] == cp[r]);
            assert(is_canonical(cp[r].coding_vector.0[c]@));
        }
    }
    if coding_canonical(sub) {
        assert forall|r: int, c: int| 0 <= r < 16 && 0 <= c < 16 implies #[trigger] is_canonical(
            cp[r].coding_vector.0[c]@,
        ) by {
            assert(sub[r] == cp[r]);
            assert(is_canonical(sub[r].coding_vector.0[c]@));
        }
    }
    let dv = data_views(cp);
    assert forall|x: Seq<Seq<u8>>| #[trigger] solves(b, x, dv) == solves(a, x, dv) by {
        assert forall|r: int, j: int| 0 <= r < 16 implies #[trigger] mat_vec(b, chunk_col(x, j), 16, r)
            == mat_vec(a, chunk_col(x, j), 16, r) by {
            lemma_sum_ext(
                |k: int| b(r, k) * chunk_col(x, j)(k),
                |k: int| a(r, k) * chunk_col(x, j)(k),
                16,
            );
        }
        if solves(a, x, dv) {
            assert forall|r: int, j: int| 0 <= r < 16 && 0 <= j < dv[0].len() / 32 implies #[trigger] cong(
                mat_vec(b, chunk_col(x, j), 16, r),
                chunk_value(dv[r], j),
            ) by {
                assert(cong(mat_vec(a, chunk_col(x, j), 16, r), chunk_value(dv[r], j)));
            }
        }
        if solves(b, x, dv) {
            assert forall|r: int, j: int| 0 <= r < 16 && 0 <= j < dv[0].len() / 32 implies #[trigger] cong(
                mat_vec(a, chunk_col(x, j), 16, r),
                chunk_value(dv[r], j),
            ) by {
                assert(cong(mat_vec(b, chunk_col(x, j), 16, r), chunk_value(dv[r], j)));
            }
        }
    }
}

/// An invertible coded system has at most one solution among canonical
/// pieces of the coded length: whatever `decode_rlnc` returns is determined
/// by the coded pieces it reads.
pub proof fn lemma_decoded_output_unique(
    a: spec_fn(int, int) -> int,
    coded: Seq<Seq<u8>>,
    x1: Seq<Seq<u8>>,
    x2: Seq<Seq<u8>>,
)
    requires
        invertible(a, 16),
        x1.len() == 16,
        x2.len() == 16,
        forall|o: int| 0 <= o < 16 ==> (#[trigger] x1[o]).len() == coded[0].len(),
        forall|o: int| 0 <= o < 16 ==> (#[trigger] x2[o]).len() == coded[0].len(),
        coded[0].len() % 32 == 0,
        pieces_canonical(x1),
        pieces_canonical(x2),
        solves(a, x1, coded),
        solves(a, x2, coded),
    ensures
        x1 == x2,
{
    let len = coded[0].len();
    assert forall|j: int, i0: int| 0 <= j < len / 32 && 0 <= i0 < 16 implies #[trigger] chunk_col(
        x1,
        j,
    )(i0) == chunk_col(x2, j)(i0) by {
        let c1 = chunk_col(x1, j);
        let c2 = chunk_col(x2, j);
        let y = chunk_col(coded, j);
        assert forall|r: int| 0 <= r < 16 implies #[trigger] cong(mat_vec(a, c1, 16, r), y(r)) by {
            assert(cong(mat_vec(a, chunk_col(x1, j), 16, r), chunk_value(coded[r], j)));
        }
        assert forall|r: int| 0 <= r < 16 implies #[trigger] cong(mat_vec(a, c2, 16, r), y(r)) by {
            assert(cong(mat_vec(a, chunk_col(x2, j), 16, r), chunk_value(coded[r], j)));
        }
        assert forall|i: int| 0 <= i < 16 implies 0 <= #[trigger] c1(i) < modulus() by {
            assert(is_canonical(chunk(x1[i], j)));
        }
        assert forall|i: int| 0 <= i < 16 implies 0 <= #[trigger] c2(i) < modulus() by {
            assert(is_canonical(chunk(x2[i], j)));
        }
        lemma_unique_solution(a, c1, c2, y, 16);
    }
    assert forall|o: int| 0 <= o < 16 implies #[trigger] x1[o] == x2[o] by {
        assert forall|j: int| 0 <= j < x1[o].len() / 32 implies #[trigger] chunk_value(x1[o], j)
            == chunk_value(x2[o], j) by {
            assert(chunk_col(x1, j)(o) == chunk_col(x2, j)(o));
        }
        lemma_chunks_determine(x1[o], x2[o]);
    }
    assert(x1 =~= x2);
}


/// Draws the next 64-bit word from `rng` with `RngCore::next_u64`; any word may come back.
#[verifier::external_body]
fn draw_u64<R: Rng>(rng: &mut R) -> (w: u64) {
    rng.next_u64()
}

/// A random coding vector: each coefficient is a fresh 64-bit word drawn
/// from `rng`, as a field element.
pub fn generate_random_coding_vector<R: Rng>(rng: &mut R) -> (cv: CodingVectorFr)
    ensures
        forall|i: int| 0 <= i < 16 ==> (#[trigger] cv[i]).value() < 0x1_0000_0000_0000_0000,
{
    let mut words = [0u64; 16];
    for i in 0..16 {
        words[i] = draw_u64(rng);
    }
    coding_vector_from_words(&words)
}

/// Builds a coding vector whose coefficients are the given 64-bit words,
/// as `Fr::from(u64)` does for each draw of a random generator.
pub fn coding_vector_from_words(words: &[u64; 16]) -> (cv: CodingVectorFr)
    ensures
        forall|i: int| 0 <= i < 16 ==> (#[trigger] cv[i]).value() == words[i] as nat,
{
    let mut cv = [Scalar::from_u64(0); 16];
    for i in 0..16
        invariant
            forall|t: int| 0 <= t < i ==> (#[trigger] cv[t]).value() == words[t] as nat,
    {
        cv[i] = Scalar::from_u64(words[i]);
    }
    cv
}

} // verus!
