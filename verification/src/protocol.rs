//! Request and announcement messages of the coded data availability protocols.
use vstd::prelude::*;

use crate::types::{GridPosition, NodeRole, RLNCPiece, SegmentProof};

verus! {

/// Protocol name of piece requests.
pub const CDA_PIECE_PROTOCOL: &'static str = "/engram/cda/piece/1";
/// Protocol name of segment proof requests.
pub const CDA_SEGMENT_PROOF_PROTOCOL: &'static str = "/engram/cda/segment-proof/1";
/// Protocol name of subnet gossip.
pub const CDA_SUBNET_GOSSIP_PROTOCOL: &'static str = "/engram/cda/subnet/1";

/// Asks a peer for one coded piece of a cell.
#[derive(PartialEq, Eq, Structural, Clone, Debug, Default)]
pub struct PieceRequest {
    pub block_number: u32,
    pub row: u16,
    pub col: u16,
    pub piece_index: u16,
}

/// Answers a piece request.
#[derive(PartialEq, Eq, Clone, Debug, Default)]
pub struct PieceResponse {
    pub piece: RLNCPiece,
}

/// Asks a peer for a proof of some evaluation points of one column.
#[derive(PartialEq, Eq, Clone, Debug, Default)]
pub struct SegmentProofRequest {
    pub block_number: u32,
    pub column: u16,
    pub points: Vec<u16>,
}

/// Answers a segment proof request.
#[derive(PartialEq, Eq, Clone, Debug, Default)]
pub struct SegmentProofResponse {
    pub proof: SegmentProof,
}

/// Announces a peer's place in the grid and the roles it takes.
#[derive(PartialEq, Eq, Clone, Debug, Default)]
pub struct SubnetAnnounce {
    pub peer_position: GridPosition,
    pub roles: Vec<NodeRole>,
}

/// Gossip announcement published by a Store node after RLNC encode completes.
/// Fat nodes decode this, keep it when they own the column, then pull pieces
/// from the announcing Store over the piece protocol.
#[derive(PartialEq, Eq, Clone, Debug, Default)]
pub struct CdaPieceReadyAnnounce {
    pub block_number: u32,
    pub ext_row: u16,
    pub ext_col: u16,
    /// Raw peer id bytes of the announcing Store.
    pub store_peer_id: Vec<u8>,
    pub piece_count: u16,
    /// FNV-1a-32 over the encoded cell distribution payload, so that content
    /// divergence between stores and bit rot in flight can be detected.
    pub payload_checksum32: u32,
}

} // verus!
