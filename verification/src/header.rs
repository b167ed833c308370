//! The V4 header extension: application data lookup plus per-column commitments.
use vstd::prelude::*;

use primitive_types::H256;

use crate::constants::{GRID_COLS_EXTENDED, GRID_ROWS_EXTENDED};

verus! {

/// The 256-bit hash type of block headers.
#[verifier::external_type_specification]
#[verifier::external_body]
pub struct ExH256(H256);

/// `H256::clone` copies the 32 bytes of the hash, so the clone equals the original.
pub assume_specification[ <H256 as core::clone::Clone>::clone ](h: &H256) -> (r: H256)
    ensures
        r == *h,
;

/// Where each application's data lies in the grid: entries of
/// `(application id, first row, end row)`.
#[derive(PartialEq, Eq, Clone, Debug, Default)]
pub struct DataLookup {
    pub index: Vec<(u32, u32, u32)>,
}

impl DataLookup {
    /// A lookup with no application data.
    pub fn new_empty() -> (d: DataLookup)
        ensures
            d.index@.len() == 0,
    {
        DataLookup { index: Vec::new() }
    }

    /// The lookup that marks a block whose data could not be laid out:
    /// application 0 spanning every row.
    pub fn new_error() -> (d: DataLookup)
        ensures
            d.index@ == seq![(0u32, 0u32, u32::MAX)],
    {
        let mut index = Vec::new();
        index.push((0u32, 0u32, u32::MAX));
        DataLookup { index }
    }
}

/// Commitments of a V4 header: one per column of the extended grid, encoded,
/// and the root of the data.
#[derive(PartialEq, Eq, Clone, Debug, Default)]
pub struct KateCommitment {
    pub column_commitments: Vec<u8>,
    pub data_root: H256,
}

impl KateCommitment {
    /// A commitment to `data_root` with the given encoded column commitments.
    pub fn new(data_root: H256, column_commitments: Vec<u8>) -> (c: KateCommitment)
        ensures
            c.data_root == data_root,
            c.column_commitments@ == column_commitments@,
    {
        KateCommitment { column_commitments, data_root }
    }
}

/// The V4 header extension.
#[derive(PartialEq, Eq, Clone, Debug, Default)]
pub struct HeaderExtension {
    pub app_lookup: DataLookup,
    pub commitment: KateCommitment,
}

impl HeaderExtension {
    /// The root of the block data.
    pub fn data_root(&self) -> (r: H256)
        ensures
            r == self.commitment.data_root,
    {
        self.commitment.data_root
    }

    /// Where each application's data lies.
    pub fn app_lookup(&self) -> (r: &DataLookup)
        ensures
            *r == self.app_lookup,
    {
        &self.app_lookup
    }

    /// Rows of the grid a V4 header describes: the extended grid.
    pub fn rows(&self) -> (r: u16)
        ensures
            r == GRID_ROWS_EXTENDED,
    {
        GRID_ROWS_EXTENDED
    }

    /// Columns of the grid a V4 header describes: the extended grid.
    pub fn cols(&self) -> (r: u16)
        ensures
            r == GRID_COLS_EXTENDED,
    {
        GRID_COLS_EXTENDED
    }

    /// The header of a block without application data.
    pub fn get_empty_header(data_root: H256) -> (h: HeaderExtension)
        ensures
            h.app_lookup.index@.len() == 0,
            h.commitment.data_root == data_root,
            h.commitment.column_commitments@.len() == 0,
    {
        let empty_app_lookup = DataLookup::new_empty();
        let commitment = KateCommitment::new(data_root, Vec::new());
        HeaderExtension { app_lookup: empty_app_lookup, commitment }
    }

    /// The header of a block whose data could not be laid out.
    pub fn get_faulty_header(data_root: H256) -> (h: HeaderExtension)
        ensures
            h.app_lookup.index@ == seq![(0u32, 0u32, u32::MAX)],
            h.commitment.data_root == data_root,
            h.commitment.column_commitments@.len() == 0,
    {
        let error_app_lookup = DataLookup::new_error();
        let commitment = KateCommitment::new(data_root, Vec::new());
        HeaderExtension { app_lookup: error_app_lookup, commitment }
    }
}

} // verus!
