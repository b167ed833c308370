//! Grid geometry of the coded data availability layout.
use vstd::prelude::*;

verus! {

/// Number of coded pieces that make up one coding vector's worth of data.
pub const K_FACTOR: u16 = 16;
/// Number of chunks a matrix is split into.
pub const MATRIX_CHUNKS: u16 = 16;

/// Rows of the original (unextended) data grid.
pub const GRID_ROWS_ORIGINAL: u16 = 32;
/// Columns of the original (unextended) data grid.
pub const GRID_COLS_ORIGINAL: u16 = 32;
/// Rows of the extended grid: the original rows doubled.
pub const GRID_ROWS_EXTENDED: u16 = 64;
/// Columns of the extended grid: the original columns doubled.
pub const GRID_COLS_EXTENDED: u16 = 64;

/// Rows of the peer-to-peer grid, one per original row.
pub const P2P_ROWS: u16 = 32;
/// Columns of the peer-to-peer grid, one per original column.
pub const P2P_COLS: u16 = 32;

/// Row extension factor of the V4 header (non-zero).
pub const ROW_EXTENSION_V4: u16 = 2;
/// Column extension factor of the V4 header (non-zero).
pub const COL_EXTENSION_V4: u16 = 2;

/// Maps a row of the extended grid to the row of the peer-to-peer grid that holds it.
pub fn p2p_row_from_extended(row: u16) -> (r: u16)
    ensures
        r == row / 2,
{
    row / 2
}

/// Maps a column of the extended grid to the column of the peer-to-peer grid that holds it.
pub fn p2p_col_from_extended(col: u16) -> (r: u16)
    ensures
        r == col / 2,
{
    col / 2
}

/// The extended grid doubles the original grid in both directions, and the
/// peer-to-peer grid has exactly the original grid's shape.
pub proof fn lemma_grid_geometry()
    ensures
        GRID_ROWS_EXTENDED == GRID_ROWS_ORIGINAL * ROW_EXTENSION_V4,
        GRID_COLS_EXTENDED == GRID_COLS_ORIGINAL * COL_EXTENSION_V4,
        P2P_ROWS == GRID_ROWS_ORIGINAL,
        P2P_COLS == GRID_COLS_ORIGINAL,
        ROW_EXTENSION_V4 != 0,
        COL_EXTENSION_V4 != 0,
{
}

/// Every row of the extended grid maps into the peer-to-peer grid, and the two
/// extended rows `2k` and `2k + 1` map to the same peer-to-peer row `k`.
pub proof fn lemma_p2p_row_in_range(row: u16)
    requires
        row < GRID_ROWS_EXTENDED,
    ensures
        row / 2 < P2P_ROWS,
        (row / 2) * 2 <= row < (row / 2) * 2 + 2,
{
}

/// Every column of the extended grid maps into the peer-to-peer grid.
pub proof fn lemma_p2p_col_in_range(col: u16)
    requires
        col < GRID_COLS_EXTENDED,
    ensures
        col / 2 < P2P_COLS,
        (col / 2) * 2 <= col < (col / 2) * 2 + 2,
{
}

} // verus!
