use avail_cda::recovery::{ensure_decode_ready, Error};
use avail_cda::types::RLNCPiece;

#[test]
fn decode_ready_needs_sixteen_pieces() {
    let pieces: Vec<RLNCPiece> = (0..15).map(|_| RLNCPiece::default()).collect();
    assert_eq!(ensure_decode_ready(&pieces), Err(Error::NotEnoughPieces));
    let pieces: Vec<RLNCPiece> = (0..16).map(|_| RLNCPiece::default()).collect();
    assert_eq!(ensure_decode_ready(&pieces), Ok(()));
    assert_eq!(ensure_decode_ready(&[]), Err(Error::NotEnoughPieces));
}
