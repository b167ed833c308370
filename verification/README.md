# avail_cda

Coded data availability primitives, verified with Verus:

- `constants`: geometry of the original, extended and peer-to-peer grids.
- `types`, `protocol`: data and message types exchanged between nodes.
- `header`: the V4 header extension.
- `scalar`: elements of the BLS12-381 scalar field in canonical form; the
  arithmetic is done by `ark-ff` and stated as arithmetic modulo the field order.
- `linalg`: finite sums, matrix products and congruences used in the proofs.
- `rlnc`: random linear network coding. `encode_rlnc` combines sixteen pieces
  chunk by chunk, `invert_matrix` is Gauss-Jordan elimination with a proof that
  it returns a two-sided inverse exactly when one exists, and `decode_rlnc`
  recovers the pieces; `lemma_decode_inverts_encode` proves that decoding
  sixteen codings with an invertible coding matrix gives back the originals.
- `g1`: G1 points as compressed encodings, and the linear combination of
  single-point opening proofs.
- `segment_proof`: selecting and evaluating the column polynomial of a segment proof.
- `recovery`: the recovery-side precheck.

`app/` holds what the library does not: SCALE and serde encodings of the
types, error messages, and the calls into the multi-point proof system.
