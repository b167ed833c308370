//! Shared data types of the coded data availability layer.
use vstd::prelude::*;

verus! {

/// Bytes in the encoding of one field element.
pub const SCALAR_ENCODED_SIZE: usize = 32;
/// Bytes in the encoding of one opening proof.
pub const PROOF_ENCODED_SIZE: usize = 48;
/// Number of coefficients in a coding vector, and of pieces it combines.
pub const CODING_VECTOR_LEN: usize = 16;

/// The coefficients of one coded piece, each as an encoded field element.
#[derive(PartialEq, Eq, Clone, Debug, Default)]
pub struct CodingVector(pub [[u8; SCALAR_ENCODED_SIZE]; CODING_VECTOR_LEN]);

/// A coded piece: a linear combination of original pieces together with the
/// coefficients that produced it.
#[derive(PartialEq, Eq, Clone, Debug, Default)]
pub struct RLNCPiece {
    pub coded_data: Vec<u8>,
    pub coding_vector: CodingVector,
}

/// An encoded proof that accompanies a coded piece.
#[derive(PartialEq, Eq, Clone, Debug, Default)]
pub struct RLNCProof(pub Vec<u8>);

/// An encoded multi-point opening proof for one column, with the evaluations it opens.
#[derive(PartialEq, Eq, Clone, Debug, Default)]
pub struct SegmentProof {
    pub proof: Vec<u8>,
    pub evals: Vec<[u8; SCALAR_ENCODED_SIZE]>,
    pub column: u16,
}

/// A cell of the grid.
#[derive(PartialEq, Eq, Structural, Clone, Copy, Debug, Default)]
pub struct GridPosition {
    pub row: u16,
    pub col: u16,
}

/// A gossip subnet: one per grid row and one per grid column.
#[derive(PartialEq, Eq, Structural, Clone, Copy, Debug)]
pub enum SubnetId {
    Row(u16),
    Column(u16),
}

/// Index of a coded piece within a cell.
#[derive(PartialEq, Eq, Structural, Clone, Copy, Debug, Default)]
pub struct PieceIndex(pub u16);

/// The roles a node can take in the network.
#[derive(PartialEq, Eq, Structural, Clone, Copy, Debug)]
pub enum NodeRole {
    Validator,
    FullNode,
    Bootstrap,
    StoreNode,
    FatNode,
}

} // verus!
