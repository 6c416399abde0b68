//! Points of the BLS12-381 group G1, held as their canonical uncompressed
//! encoding. What the group operations return is named, not spelled out.

use crate::field::Scalar;
use ark_bls12_381::{Fr, G1Affine, G1Projective};
use ark_ec::CurveGroup;
use ark_ff::PrimeField;
use ark_serialize::{CanonicalDeserialize, CanonicalSerialize};
use ark_std::UniformRand;
use rand::rngs::StdRng;
use vstd::prelude::*;

verus! {

/// The encoding of the sum of the points that `a` and `b` encode.
pub uninterp spec fn point_sum(a: Seq<u8>, b: Seq<u8>) -> Seq<u8>;

/// The encoding of the point that `p` encodes, multiplied by the scalar `k`.
pub uninterp spec fn point_scaled(p: Seq<u8>, k: int) -> Seq<u8>;

/// A group element; its model is its encoding, `p@`.
pub struct Point {
    bytes: Vec<u8>,
}

impl View for Point {
    type V = Seq<u8>;

    closed spec fn view(&self) -> Seq<u8> {
        self.bytes@
    }
}

impl Point {
    /// A copy of this point.
    pub fn copy(&self) -> (r: Point)
        ensures
            r@ == self@,
    {
        Point { bytes: self.bytes.clone() }
    }

    /// Whether both encode the same point (encodings are canonical).
    pub fn same(&self, o: &Point) -> (r: bool)
        ensures
            r == (self@ == o@),
    {
        if self.bytes.len() != o.bytes.len() {
            return false;
        }
        let mut i: usize = 0;
        while i < self.bytes.len()
            invariant
                i <= self.bytes.len(),
                self.bytes.len() == o.bytes.len(),
                forall|k: int| 0 <= k < i ==> self.bytes@[k] == o.bytes@[k],
            decreases self.bytes.len() - i,
        {
            if self.bytes[i] != o.bytes[i] {
                return false;
            }
            i += 1;
        }
        assert(self.bytes@ =~= o.bytes@);
        true
    }
}

/// Relies on G1 addition, after `CanonicalDeserialize::deserialize_uncompressed_unchecked`
/// of both operands and before `CanonicalSerialize::serialize_uncompressed`.
/// Encodings are made only here, by serializing points of G1; one that does
/// not decode is read as the identity, which the name covers as well.
#[verifier::external_body]
pub fn point_add(a: &Point, b: &Point) -> (r: Point)
    ensures
        r@ == point_sum(a@, b@),
{
    let x = G1Affine::deserialize_uncompressed_unchecked(&a.bytes[..]).unwrap_or_default();
    let y = G1Affine::deserialize_uncompressed_unchecked(&b.bytes[..]).unwrap_or_default();
    let mut bytes = Vec::new();
    let _ = (x + y).into_affine().serialize_uncompressed(&mut bytes);
    Point { bytes }
}

/// Relies on G1 scalar multiplication by an `Fr` read with
/// `PrimeField::from_le_bytes_mod_order`, encoded as in `point_add`.
#[verifier::external_body]
pub fn point_mul(p: &Point, k: &Scalar) -> (r: Point)
    ensures
        r@ == point_scaled(p@, k.val() % crate::field::field_order()),
{
    let x = G1Affine::deserialize_uncompressed_unchecked(&p.bytes[..]).unwrap_or_default();
    let s = Fr::from_le_bytes_mod_order(&k.to_le_bytes());
    let mut bytes = Vec::new();
    let _ = (x * s).into_affine().serialize_uncompressed(&mut bytes);
    Point { bytes }
}

/// Relies on `UniformRand` for `G1Projective`: a uniformly drawn point, of
/// which nothing is promised.
#[verifier::external_body]
pub fn point_random(rng: &mut StdRng) -> (r: Point) {
    let mut bytes = Vec::new();
    let _ = G1Projective::rand(rng).into_affine().serialize_uncompressed(&mut bytes);
    Point { bytes }
}

} // verus!
