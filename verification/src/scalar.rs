//! Elements of the BLS12-381 scalar field, held in canonical form.
//!
//! The arithmetic itself is done by `ark-ff` / `ark-bls12-381`; this module
//! states what each operation computes as integers modulo the field order.
use vstd::prelude::*;

use ark_bls12_381::Fr;
use ark_ff::{BigInt, Field, PrimeField};
use ark_serialize::{CanonicalDeserialize, CanonicalSerialize};

verus! {

/// The order `r` of the BLS12-381 scalar field.
pub open spec fn modulus() -> nat {
    52435875175126190479447740508185965837690552500527637822603658699938581184513nat
}

/// Integer value of four little-endian 64-bit limbs.
pub open spec fn limbs_value(l: [u64; 4]) -> nat {
    l[0] as nat + l[1] as nat * 0x1_0000_0000_0000_0000nat + l[2] as nat
        * 0x1_0000_0000_0000_0000_0000_0000_0000_0000nat + l[3] as nat
        * 0x1_0000_0000_0000_0000_0000_0000_0000_0000_0000_0000_0000_0000nat
}

/// Integer value of a little-endian byte string.
pub open spec fn le_value(b: Seq<u8>) -> nat
    decreases b.len(),
{
    if b.len() == 0 {
        0
    } else {
        b[0] as nat + 256 * le_value(b.drop_first())
    }
}

/// Whether a little-endian byte string encodes a canonical field element.
pub open spec fn is_canonical(b: Seq<u8>) -> bool {
    le_value(b) < modulus()
}

/// Field addition on canonical representatives.
pub open spec fn fadd(a: int, b: int) -> nat {
    ((a + b) % (modulus() as int)) as nat
}

/// Field subtraction on canonical representatives.
pub open spec fn fsub(a: int, b: int) -> nat {
    ((a - b) % (modulus() as int)) as nat
}

/// Field multiplication on canonical representatives.
pub open spec fn fmul(a: int, b: int) -> nat {
    ((a * b) % (modulus() as int)) as nat
}

/// An element of the BLS12-381 scalar field, kept as its canonical
/// representative in four little-endian 64-bit limbs.
#[derive(Clone, Copy, Debug, PartialEq, Eq)]
pub struct Scalar {
    pub(crate) limbs: [u64; 4],
}

impl Scalar {
    #[verifier::type_invariant]
    spec fn is_reduced(self) -> bool {
        limbs_value(self.limbs) < modulus()
    }

    /// The integer in `[0, r)` that this element stands for.
    pub closed spec fn value(self) -> nat {
        limbs_value(self.limbs) % modulus()
    }

    /// The field element `x`.
    pub fn from_u64(x: u64) -> (s: Scalar)
        ensures
            s.value() == x as nat,
    {
        fr_from_u64(x)
    }

    /// Field sum.
    pub fn add(&self, other: &Scalar) -> (s: Scalar)
        ensures
            s.value() == fadd(self.value() as int, other.value() as int),
    {
        fr_add(self, other)
    }

    /// Field difference.
    pub fn sub(&self, other: &Scalar) -> (s: Scalar)
        ensures
            s.value() == fsub(self.value() as int, other.value() as int),
    {
        fr_sub(self, other)
    }

    /// Field product.
    pub fn mul(&self, other: &Scalar) -> (s: Scalar)
        ensures
            s.value() == fmul(self.value() as int, other.value() as int),
    {
        fr_mul(self, other)
    }

    /// Multiplicative inverse: `None` exactly for zero.
    pub fn inverse(&self) -> (s: Option<Scalar>)
        ensures
            s is None <==> self.value() == 0,
            s matches Some(t) ==> fmul(self.value() as int, t.value() as int) == 1,
    {
        fr_inverse(self)
    }

    /// Decodes 32 little-endian bytes: `None` exactly when the integer they
    /// encode is not below the field order.
    pub fn from_bytes(bytes: &[u8; 32]) -> (s: Option<Scalar>)
        ensures
            s is Some <==> is_canonical(bytes@),
            s matches Some(t) ==> t.value() == le_value(bytes@),
    {
        fr_from_bytes(bytes)
    }

    /// Encodes the element as 32 little-endian bytes.
    pub fn to_bytes(&self) -> (b: [u8; 32])
        ensures
            le_value(b@) == self.value(),
    {
        fr_to_bytes(self)
    }

    /// Whether this is the zero element.
    pub fn is_zero(&self) -> (b: bool)
        ensures
            b == (self.value() == 0),
    {
        proof {
            use_type_invariant(self);
        }
        self.limbs[0] == 0 && self.limbs[1] == 0 && self.limbs[2] == 0 && self.limbs[3] == 0
    }
}

/// Builds the field element `x` (calls `Fr::from(u64)`).
#[verifier::external_body]
fn fr_from_u64(x: u64) -> (s: Scalar)
    ensures
        s.value() == x as nat,
{
    Scalar { limbs: Fr::from(x).into_bigint().0 }
}

/// Field sum, computed by `Fr`'s `Add`.
#[verifier::external_body]
fn fr_add(a: &Scalar, b: &Scalar) -> (s: Scalar)
    ensures
        s.value() == fadd(a.value() as int, b.value() as int),
{
    let x = Fr::from_bigint(BigInt::new(a.limbs)).unwrap();
    let y = Fr::from_bigint(BigInt::new(b.limbs)).unwrap();
    Scalar { limbs: (x + y).into_bigint().0 }
}

/// Field difference, computed by `Fr`'s `Sub`.
#[verifier::external_body]
fn fr_sub(a: &Scalar, b: &Scalar) -> (s: Scalar)
    ensures
        s.value() == fsub(a.value() as int, b.value() as int),
{
    let x = Fr::from_bigint(BigInt::new(a.limbs)).unwrap();
    let y = Fr::from_bigint(BigInt::new(b.limbs)).unwrap();
    Scalar { limbs: (x - y).into_bigint().0 }
}

/// Field product, computed by `Fr`'s `Mul`.
#[verifier::external_body]
fn fr_mul(a: &Scalar, b: &Scalar) -> (s: Scalar)
    ensures
        s.value() == fmul(a.value() as int, b.value() as int),
{
    let x = Fr::from_bigint(BigInt::new(a.limbs)).unwrap();
    let y = Fr::from_bigint(BigInt::new(b.limbs)).unwrap();
    Scalar { limbs: (x * y).into_bigint().0 }
}

/// Multiplicative inverse, computed by `Field::inverse`: `None` exactly for zero.
#[verifier::external_body]
fn fr_inverse(a: &Scalar) -> (s: Option<Scalar>)
    ensures
        s is None <==> a.value() == 0,
        s matches Some(t) ==> fmul(a.value() as int, t.value() as int) == 1,
{
    let x = Fr::from_bigint(BigInt::new(a.limbs)).unwrap();
    match x.inverse() {
        Some(b) => Some(Scalar { limbs: b.into_bigint().0 }),
        None => None,
    }
}

/// Decodes 32 little-endian bytes with `CanonicalDeserialize` for `Fr`;
/// `None` exactly when the integer they encode is not below the field order.
#[verifier::external_body]
fn fr_from_bytes(bytes: &[u8; 32]) -> (s: Option<Scalar>)
    ensures
        s is Some <==> is_canonical(bytes@),
        s matches Some(t) ==> t.value() == le_value(bytes@),
{
    match Fr::deserialize_compressed(&bytes[..]) {
        Ok(f) => Some(Scalar { limbs: f.into_bigint().0 }),
        Err(_) => None,
    }
}

/// Encodes the element as 32 little-endian bytes with `CanonicalSerialize`
/// for `Fr`, which writes exactly 32 bytes and so cannot fail here.
#[verifier::external_body]
fn fr_to_bytes(a: &Scalar) -> (b: [u8; 32])
    ensures
        le_value(b@) == a.value(),
{
    let x = Fr::from_bigint(BigInt::new(a.limbs)).unwrap();
    let mut out = [0u8; 32];
    let _ = x.serialize_compressed(&mut out[..]);
    out
}


/// Bytes that encode an element's value, as `to_bytes` writes them, are
/// accepted by `from_bytes`, which then gives back that value.
pub proof fn lemma_bytes_round_trip(s: Scalar, b: Seq<u8>)
    requires
        le_value(b) == s.value(),
    ensures
        is_canonical(b),
{
}

/// Every element's value is a canonical representative.
pub broadcast proof fn lemma_value_lt_modulus(s: Scalar)
    ensures
        #[trigger] s.value() < modulus(),
{
}

} // verus!
