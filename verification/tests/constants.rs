use avail_cda::constants::{
    p2p_col_from_extended, p2p_row_from_extended, GRID_COLS_EXTENDED, GRID_COLS_ORIGINAL,
    GRID_ROWS_EXTENDED, GRID_ROWS_ORIGINAL, P2P_COLS, P2P_ROWS,
};

#[test]
fn extended_grid_targets_64x64() {
    assert_eq!(GRID_ROWS_EXTENDED, 64);
    assert_eq!(GRID_COLS_EXTENDED, 64);
}

#[test]
fn p2p_ranges_match_original_grid() {
    assert_eq!(P2P_ROWS, GRID_ROWS_ORIGINAL);
    assert_eq!(P2P_COLS, GRID_COLS_ORIGINAL);
    assert_eq!(p2p_row_from_extended(63), 31);
    assert_eq!(p2p_col_from_extended(63), 31);
}

#[test]
fn p2p_mapping_pairs_extended_rows() {
    assert_eq!(p2p_row_from_extended(0), 0);
    assert_eq!(p2p_row_from_extended(1), 0);
    assert_eq!(p2p_row_from_extended(2), 1);
    assert_eq!(p2p_col_from_extended(40), 20);
    assert_eq!(p2p_col_from_extended(41), 20);
}
