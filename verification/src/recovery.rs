//! Checks on the recovery side before RLNC decoding.
use vstd::prelude::*;

use crate::types::{RLNCPiece, CODING_VECTOR_LEN};

verus! {

/// Why recovery cannot proceed.
#[derive(Debug, Clone, Copy, PartialEq, Eq, Structural)]
pub enum Error {
    NotEnoughPieces,
}

/// Whether there are enough coded pieces to attempt decoding: one per
/// coefficient of a coding vector.
pub open spec fn has_enough_pieces(count: nat) -> bool {
    count >= 16
}

/// A coding vector's worth of pieces is enough to attempt decoding.
pub proof fn lemma_coding_vector_len_is_enough()
    ensures
        has_enough_pieces(CODING_VECTOR_LEN as nat),
{
}

/// Having enough pieces only grows with the count: any count above one that
/// is enough is enough too.
pub proof fn lemma_enough_pieces_monotone(n: nat, m: nat)
    requires
        n <= m,
        has_enough_pieces(n),
    ensures
        has_enough_pieces(m),
{
}

/// Recovery-side precheck for RLNC decode inputs: fails exactly when there
/// are fewer coded pieces than coefficients in a coding vector.
pub fn ensure_decode_ready(coded_pieces: &[RLNCPiece]) -> (r: Result<(), Error>)
    ensures
        r is Ok <==> has_enough_pieces(coded_pieces@.len()),
        r == Ok::<(), Error>(()) <==> coded_pieces@.len() >= CODING_VECTOR_LEN,
        r == Err::<(), Error>(Error::NotEnoughPieces) <==> coded_pieces@.len() < CODING_VECTOR_LEN,
{
    if coded_pieces.len() < CODING_VECTOR_LEN {
        return Err(Error::NotEnoughPieces);
    }
    Ok(())
}

} // verus!
