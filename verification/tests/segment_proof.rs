use avail_cda::scalar::Scalar;
use avail_cda::segment_proof::{
    prepare_segment_opening, PolyOrientation, PolynomialGrid, SegmentProofError,
};

fn s(x: u64) -> Scalar {
    Scalar::from_u64(x)
}

fn grid(orientation: PolyOrientation) -> PolynomialGrid {
    PolynomialGrid {
        // column 0: 1 + 2x + 3x^2; column 1: 5
        inner: vec![vec![s(1), s(2), s(3)], vec![s(5)]],
        orientation,
    }
}

#[test]
fn opening_evaluates_column_polynomial() {
    let (poly, evals) =
        prepare_segment_opening(&grid(PolyOrientation::Column), 0, &[s(0), s(1), s(2), s(10)])
            .unwrap();
    assert_eq!(poly, vec![s(1), s(2), s(3)]);
    assert_eq!(evals, vec![s(1), s(6), s(17), s(321)]);
}

#[test]
fn opening_of_constant_column() {
    let (poly, evals) =
        prepare_segment_opening(&grid(PolyOrientation::Column), 1, &[s(4)]).unwrap();
    assert_eq!(poly, vec![s(5)]);
    assert_eq!(evals, vec![s(5)]);
}

#[test]
fn opening_rejects_row_grid() {
    assert_eq!(
        prepare_segment_opening(&grid(PolyOrientation::Row), 0, &[s(1)]).unwrap_err(),
        SegmentProofError::InvalidGrid
    );
}

#[test]
fn opening_rejects_missing_column() {
    assert_eq!(
        prepare_segment_opening(&grid(PolyOrientation::Column), 2, &[s(1)]).unwrap_err(),
        SegmentProofError::InvalidColumn
    );
}
