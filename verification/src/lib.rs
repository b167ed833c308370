//! Coded data availability (CDA) primitives: grid geometry, wire types,
//! the V4 header extension, and random linear network coding (RLNC) over
//! the BLS12-381 scalar field.
pub mod constants;
pub mod types;
pub mod protocol;
pub mod header;
pub mod scalar;
pub mod linalg;
pub mod rlnc;
pub mod g1;
pub mod segment_proof;
pub mod recovery;
