//! Segment proofs: one column polynomial opened at several points at once.
//!
//! The multi-point opening itself is computed outside this library; this
//! module selects the column polynomial and evaluates it at the points.
use vstd::prelude::*;

use ark_bls12_381::Fr;
use ark_ff::{BigInt, PrimeField};
use ark_poly::univariate::DensePolynomial;
use ark_poly::{DenseUVPolynomial, Polynomial};

use crate::g1::G1Point;
use crate::scalar::{lemma_value_lt_modulus, modulus, Scalar};

verus! {

broadcast use lemma_value_lt_modulus;

/// Whether the polynomials of a grid interpolate its rows or its columns.
#[derive(PartialEq, Eq, Structural, Clone, Copy, Debug)]
pub enum PolyOrientation {
    Row,
    Column,
}

/// The polynomials of a data grid, one coefficient vector per row or column.
#[derive(Clone, Debug)]
pub struct PolynomialGrid {
    pub inner: Vec<Vec<Scalar>>,
    pub orientation: PolyOrientation,
}

/// A multi-point opening proof of one column polynomial, with the evaluations it opens.
#[derive(Clone, Debug)]
pub struct SegmentMultiProof {
    pub proof: G1Point,
    pub evals: Vec<Scalar>,
    pub column: u16,
}

/// Why a segment proof could not be made or checked.
#[derive(Debug, Clone, Copy, PartialEq, Eq, Structural)]
pub enum SegmentProofError {
    InvalidGrid,
    InvalidColumn,
    Multiproof,
}

/// The values of a sequence of field elements.
pub open spec fn values(s: Seq<Scalar>) -> Seq<int> {
    Seq::new(s.len(), |i: int| s[i].value() as int)
}

/// `c[0] + c[1] x + c[2] x^2 + ...` as an integer.
pub open spec fn poly_eval(c: Seq<int>, x: int) -> int
    decreases c.len(),
{
    if c.len() == 0 {
        0
    } else {
        c[0] + x * poly_eval(c.drop_first(), x)
    }
}

/// Evaluates the polynomial with coefficients `coeffs` (constant term first)
/// at `point`, with `DensePolynomial::evaluate`.
#[verifier::external_body]
fn evaluate_polynomial(coeffs: &Vec<Scalar>, point: &Scalar) -> (r: Scalar)
    ensures
        r.value() == poly_eval(values(coeffs@), point.value() as int) % (modulus() as int),
{
    let mut fs: Vec<Fr> = Vec::with_capacity(coeffs.len());
    for c in coeffs.iter() {
        fs.push(Fr::from_bigint(BigInt::new(c.limbs)).unwrap());
    }
    let x = Fr::from_bigint(BigInt::new(point.limbs)).unwrap();
    let y = DensePolynomial::from_coefficients_vec(fs).evaluate(&x);
    Scalar { limbs: y.into_bigint().0 }
}

/// Selects the polynomial of `column` from a column-oriented grid and
/// evaluates it at every point: the part of making a segment proof that
/// precedes the multi-point opening.
pub fn prepare_segment_opening(poly_grid: &PolynomialGrid, column: u16, points: &[Scalar]) -> (res:
    Result<(Vec<Scalar>, Vec<Scalar>), SegmentProofError>)
    ensures
        res == Err::<(Vec<Scalar>, Vec<Scalar>), SegmentProofError>(SegmentProofError::InvalidGrid)
            <==> poly_grid.orientation != PolyOrientation::Column,
        res == Err::<(Vec<Scalar>, Vec<Scalar>), SegmentProofError>(SegmentProofError::InvalidColumn)
            <==> poly_grid.orientation == PolyOrientation::Column && column >= poly_grid.inner@.len(),
        res is Ok <==> poly_grid.orientation == PolyOrientation::Column && column
            < poly_grid.inner@.len(),
        res matches Ok((poly, evals)) ==> {
            &&& poly@ == poly_grid.inner@[column as int]@
            &&& evals@.len() == points@.len()
            &&& forall|i: int|
                0 <= i < points@.len() ==> (#[trigger] evals@[i]).value() == poly_eval(
                    values(poly@),
                    points@[i].value() as int,
                ) % (modulus() as int)
        },
{
    if poly_grid.orientation != PolyOrientation::Column {
        return Err(SegmentProofError::InvalidGrid);
    }
    if column as usize >= poly_grid.inner.len() {
        return Err(SegmentProofError::InvalidColumn);
    }
    let source = &poly_grid.inner[column as usize];
    let mut poly: Vec<Scalar> = Vec::new();
    for k in 0..source.len()
        invariant
            poly@ == source@.subrange(0, k as int),
    {
        poly.push(source[k]);
    }
    assert(poly@ =~= source@);
    let mut evals: Vec<Scalar> = Vec::new();
    for i in 0..points.len()
        invariant
            evals@.len() == i,
            forall|t: int|
                0 <= t < i ==> (#[trigger] evals@[t]).value() == poly_eval(
                    values(poly@),
                    points@[t].value() as int,
                ) % (modulus() as int),
    {
        evals.push(evaluate_polynomial(&poly, &points[i]));
    }
    Ok((poly, evals))
}

} // verus!
