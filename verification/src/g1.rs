//! Points of the BLS12-381 G1 group, carried as their 48-byte compressed
//! encodings, and the linear combination of single-point opening proofs.
use vstd::prelude::*;

use ark_bls12_381::{Fr, G1Affine};
use ark_ec::{AffineRepr, CurveGroup};
use ark_ff::{BigInt, PrimeField};
use ark_serialize::{CanonicalDeserialize, CanonicalSerialize};

use crate::rlnc::CodingVectorFr;
use crate::scalar::Scalar;

verus! {

/// Whether `G1Affine::deserialize_compressed` (with curve and subgroup
/// checks) accepts these 48 bytes.
pub uninterp spec fn g1_valid(bytes: Seq<u8>) -> bool;

/// Compressed encoding of `point * scalar`, as computed by the `Mul<Fr>` of
/// `G1Projective` on the decoded point.
pub uninterp spec fn g1_scale(point: Seq<u8>, scalar: nat) -> Seq<u8>;

/// Compressed encoding of `a + b`, as computed by the `Add` of `G1Projective`
/// on the decoded points.
pub uninterp spec fn g1_sum(a: Seq<u8>, b: Seq<u8>) -> Seq<u8>;

/// Compressed encoding of the identity: the compression and infinity flags
/// set in the first byte, every other bit zero.
pub open spec fn g1_identity_encoding() -> Seq<u8> {
    seq![0xc0u8] + Seq::new(47, |i: int| 0u8)
}

/// `sum_{i < n} proofs[i] * coeffs(i)`, accumulated from the identity as the
/// group operations compute it.
pub open spec fn combination(proofs: Seq<Seq<u8>>, coeffs: spec_fn(int) -> nat, n: nat) -> Seq<u8>
    decreases n,
{
    if n == 0 {
        g1_identity_encoding()
    } else {
        g1_sum(
            combination(proofs, coeffs, (n - 1) as nat),
            g1_scale(proofs[n - 1], coeffs(n - 1)),
        )
    }
}

/// A point of the BLS12-381 G1 group (in its prime-order subgroup), kept as
/// its 48-byte compressed encoding.
#[derive(Clone, Copy, Debug, PartialEq, Eq)]
pub struct G1Point {
    bytes: [u8; 48],
}

impl G1Point {
    #[verifier::type_invariant]
    spec fn is_valid(self) -> bool {
        g1_valid(self.bytes@)
    }

    /// The compressed encoding of this point.
    pub closed spec fn encoding(self) -> Seq<u8> {
        self.bytes@
    }

    /// Decodes a compressed point: `None` unless it lies on the curve and in
    /// the prime-order subgroup.
    pub fn from_compressed(bytes: &[u8; 48]) -> (p: Option<G1Point>)
        ensures
            p is Some <==> g1_valid(bytes@),
            p matches Some(q) ==> q.encoding() == bytes@,
    {
        G1Point::decode(bytes)
    }

    /// Decodes a compressed point with `G1Affine::deserialize_compressed`,
    /// which checks that it lies on the curve and in the prime-order subgroup;
    /// `None` when it does not.
    #[verifier::external_body]
    fn decode(bytes: &[u8; 48]) -> (p: Option<G1Point>)
        ensures
            p is Some <==> g1_valid(bytes@),
            p matches Some(q) ==> q.encoding() == bytes@,
    {
        match G1Affine::deserialize_compressed(&bytes[..]) {
            Ok(_) => Some(G1Point { bytes: *bytes }),
            Err(_) => None,
        }
    }

    /// The compressed encoding of this point.
    pub fn to_compressed(&self) -> (b: [u8; 48])
        ensures
            b@ == self.encoding(),
    {
        self.bytes
    }

    /// The identity, encoded by `CanonicalSerialize` for `G1Affine`: the
    /// infinity flag and zeros. Adding the identity to it gives it back.
    #[verifier::external_body]
    fn identity() -> (p: G1Point)
        ensures
            p.encoding() == g1_identity_encoding(),
            g1_valid(p.encoding()),
            g1_sum(p.encoding(), g1_identity_encoding()) == p.encoding(),
            g1_sum(g1_identity_encoding(), p.encoding()) == p.encoding(),
    {
        let mut out = [0u8; 48];
        let _ = G1Affine::zero().serialize_compressed(&mut out[..]);
        G1Point { bytes: out }
    }

    /// `self * s`, by `G1Projective`'s `Mul<Fr>`; the encoding of a group
    /// element decodes again, so the result is valid. Multiplying by zero
    /// gives the identity, serialized as `g1_identity_encoding`. The result is
    /// a point as `CanonicalSerialize` writes it, which decodes to that same
    /// point, so adding the identity on either side gives these bytes back.
    #[verifier::external_body]
    fn scale(&self, s: &Scalar) -> (p: G1Point)
        requires
            g1_valid(self.encoding()),
        ensures
            p.encoding() == g1_scale(self.encoding(), s.value()),
            g1_valid(p.encoding()),
            s.value() == 0 ==> p.encoding() == g1_identity_encoding(),
            g1_sum(p.encoding(), g1_identity_encoding()) == p.encoding(),
            g1_sum(g1_identity_encoding(), p.encoding()) == p.encoding(),
    {
        let a = G1Affine::deserialize_compressed_unchecked(&self.bytes[..]).unwrap();
        let f = Fr::from_bigint(BigInt::new(s.limbs)).unwrap();
        let mut out = [0u8; 48];
        let _ = (a.into_group() * f).into_affine().serialize_compressed(&mut out[..]);
        G1Point { bytes: out }
    }

    /// `self + other`, by `G1Projective`'s `Add`; the result is valid, and
    /// as it is written by `CanonicalSerialize`, adding the identity on either
    /// side gives these bytes back.
    #[verifier::external_body]
    fn plus(&self, other: &G1Point) -> (p: G1Point)
        requires
            g1_valid(self.encoding()),
            g1_valid(other.encoding()),
        ensures
            p.encoding() == g1_sum(self.encoding(), other.encoding()),
            g1_valid(p.encoding()),
            g1_sum(p.encoding(), g1_identity_encoding()) == p.encoding(),
            g1_sum(g1_identity_encoding(), p.encoding()) == p.encoding(),
    {
        let a = G1Affine::deserialize_compressed_unchecked(&self.bytes[..]).unwrap();
        let b = G1Affine::deserialize_compressed_unchecked(&other.bytes[..]).unwrap();
        let mut out = [0u8; 48];
        let _ = (a.into_group() + b.into_group()).into_affine().serialize_compressed(&mut out[..]);
        G1Point { bytes: out }
    }
}

/// Linearly combines single-point opening proofs with the RLNC coefficients:
/// the result is `sum_i proofs[i] * coding_vector[i]`.
///
/// This is a valid opening proof of the combined polynomial only when every
/// input proof opens its polynomial at the same evaluation point.
pub fn combine_proofs_homomorphic(proofs: &[G1Point; 16], coding_vector: &CodingVectorFr) -> (r: G1Point)
    ensures
        r.encoding() == combination(
            Seq::new(16, |i: int| proofs[i].encoding()),
            |i: int| coding_vector[i].value(),
            16,
        ),
        forall|k: int|
            0 <= k < 16 && (forall|t: int| 0 <= t < 16 && t != k ==> (#[trigger] coding_vector[t]).value() == 0)
                ==> r.encoding() == g1_scale(#[trigger] proofs[k].encoding(), coding_vector[k].value()),
        forall|k1: int, k2: int|
            #![trigger proofs[k1].encoding(), proofs[k2].encoding()]
            0 <= k1 < k2 < 16 && (forall|t: int|
                0 <= t < 16 && t != k1 && t != k2 ==> (#[trigger] coding_vector[t]).value() == 0)
                ==> r.encoding() == g1_sum(
                g1_scale(proofs[k1].encoding(), coding_vector[k1].value()),
                g1_scale(proofs[k2].encoding(), coding_vector[k2].value()),
            ),
{
    let ghost ps = Seq::new(16, |i: int| proofs[i].encoding());
    let ghost cs = |i: int| coding_vector[i].value();
    let mut acc = G1Point::identity();
    for i in 0..16
        invariant
            ps == Seq::new(16, |i: int| proofs[i].encoding()),
            cs == (|i: int| coding_vector[i].value()),
            acc.encoding() == combination(ps, cs, i as nat),
            g1_valid(acc.encoding()),
            g1_sum(acc.encoding(), g1_identity_encoding()) == acc.encoding(),
            forall|k: int|
                0 <= k < 16 && (forall|t: int| 0 <= t < i && t != k ==> (#[trigger] coding_vector[t]).value() == 0)
                    ==> acc.encoding() == (if k < i {
                    g1_scale(#[trigger] proofs[k].encoding(), coding_vector[k].value())
                } else {
                    g1_identity_encoding()
                }),
            forall|k1: int, k2: int|
                #![trigger proofs[k1].encoding(), proofs[k2].encoding()]
                0 <= k1 < k2 < 16 && (forall|t: int|
                    0 <= t < i && t != k1 && t != k2 ==> (#[trigger] coding_vector[t]).value() == 0)
                    ==> acc.encoding() == (if k2 < i {
                    g1_sum(
                        g1_scale(proofs[k1].encoding(), coding_vector[k1].value()),
                        g1_scale(proofs[k2].encoding(), coding_vector[k2].value()),
                    )
                } else if k1 < i {
                    g1_scale(proofs[k1].encoding(), coding_vector[k1].value())
                } else {
                    g1_identity_encoding()
                }),
    {
        let p = &proofs[i];
        proof {
            use_type_invariant(p);
        }
        let ghost prev = acc.encoding();
        let term = p.scale(&coding_vector[i]);
        acc = acc.plus(&term);
        proof {
            assert forall|k: int|
                0 <= k < 16 && (forall|t: int| 0 <= t < i + 1 && t != k ==> (#[trigger] coding_vector[t]).value() == 0)
                    implies acc.encoding() == (if k < i + 1 {
                    g1_scale(#[trigger] proofs[k].encoding(), coding_vector[k].value())
                } else {
                    g1_identity_encoding()
                }) by {
                assert forall|t: int| 0 <= t < i && t != k implies (#[trigger] coding_vector[t]).value() == 0 by {
                    assert(0 <= t < i + 1);
                }
                if k < i {
                    assert(coding_vector[i as int].value() == 0);
                    assert(prev == g1_scale(proofs[k].encoding(), coding_vector[k].value()));
                } else if k == i {
                    assert(prev == g1_identity_encoding());
                } else {
                    assert(coding_vector[i as int].value() == 0);
                    assert(prev == g1_identity_encoding());
                }
            }
            assert forall|k1: int, k2: int|
                #![trigger proofs[k1].encoding(), proofs[k2].encoding()]
                0 <= k1 < k2 < 16 && (forall|t: int|
                    0 <= t < i + 1 && t != k1 && t != k2 ==> (#[trigger] coding_vector[t]).value() == 0)
                    implies acc.encoding() == (if k2 < i + 1 {
                    g1_sum(
                        g1_scale(proofs[k1].encoding(), coding_vector[k1].value()),
                        g1_scale(proofs[k2].encoding(), coding_vector[k2].value()),
                    )
                } else if k1 < i + 1 {
                    g1_scale(proofs[k1].encoding(), coding_vector[k1].value())
                } else {
                    g1_identity_encoding()
                }) by {
                assert forall|t: int| 0 <= t < i && t != k1 && t != k2 implies (
                #[trigger] coding_vector[t]).value() == 0 by {
                    assert(0 <= t < i + 1);
                }
                let s1 = g1_scale(proofs[k1].encoding(), coding_vector[k1].value());
                let s2 = g1_scale(proofs[k2].encoding(), coding_vector[k2].value());
                if k2 < i {
                    assert(coding_vector[i as int].value() == 0);
                    assert(prev == g1_sum(s1, s2));
                } else if k2 == i {
                    assert(prev == s1);
                } else if k1 < i {
                    assert(coding_vector[i as int].value() == 0);
                    assert(prev == s1);
                } else if k1 == i {
                    assert(prev == g1_identity_encoding());
                } else {
                    assert(coding_vector[i as int].value() == 0);
                    assert(prev == g1_identity_encoding());
                }
            }
        }
    }
    acc
}

} // verus!
