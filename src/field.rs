//! Scalars of the BLS12-381 scalar field, held as their canonical
//! little-endian bytes and modelled as integers modulo the field order.

use ark_bls12_381::Fr;
use ark_ff::{BigInteger, PrimeField};
use ark_std::UniformRand;
use rand::rngs::StdRng;
use vstd::arithmetic::power::pow;
use vstd::prelude::*;

verus! {

#[verifier::external_type_specification]
#[verifier::external_body]
pub struct ExStdRng(StdRng);

/// The order of the scalar field (and of the group generated by each point).
pub open spec fn field_order() -> int {
    0x73eda753299d7d483339d80809a1d80553bda402fffe5bfeffffffff00000001int
}

/// The integer that a little-endian byte string denotes.
pub open spec fn le_value(b: Seq<u8>) -> int
    decreases b.len(),
{
    if b.len() == 0 {
        0
    } else {
        b[0] as int + 256 * le_value(b.drop_first())
    }
}

/// A field element; its model is `val()`, an integer in `[0, field_order())`.
pub struct Scalar {
    bytes: Vec<u8>,
}

impl Scalar {
    pub closed spec fn val(&self) -> int {
        le_value(self.bytes@)
    }

    /// The little-endian bytes of the model.
    pub fn to_le_bytes(&self) -> (r: Vec<u8>)
        ensures
            le_value(r@) == self.val(),
    {
        self.bytes.clone()
    }

    /// A copy of this scalar.
    pub fn copy(&self) -> (r: Scalar)
        ensures
            r.val() == self.val(),
    {
        Scalar { bytes: self.bytes.clone() }
    }
}

/// Relies on `PrimeField::from_le_bytes_mod_order` and
/// `BigInteger::to_bytes_le`: the canonical bytes of `n` read as an element of `Fr`.
#[verifier::external_body]
pub fn scalar_from_u64(n: u64) -> (r: Scalar)
    ensures
        r.val() == n as int % field_order(),
{
    Scalar { bytes: Fr::from(n).into_bigint().to_bytes_le() }
}

/// Relies on `Fr` addition: the sum modulo the field order.
#[verifier::external_body]
pub fn scalar_add(a: &Scalar, b: &Scalar) -> (r: Scalar)
    ensures
        r.val() == (a.val() + b.val()) % field_order(),
{
    let x = Fr::from_le_bytes_mod_order(&a.bytes) + Fr::from_le_bytes_mod_order(&b.bytes);
    Scalar { bytes: x.into_bigint().to_bytes_le() }
}

/// Relies on `Fr` multiplication: the product modulo the field order.
#[verifier::external_body]
pub fn scalar_mul(a: &Scalar, b: &Scalar) -> (r: Scalar)
    ensures
        r.val() == (a.val() * b.val()) % field_order(),
{
    let x = Fr::from_le_bytes_mod_order(&a.bytes) * Fr::from_le_bytes_mod_order(&b.bytes);
    Scalar { bytes: x.into_bigint().to_bytes_le() }
}

/// Relies on `Fr` negation: the additive inverse modulo the field order.
#[verifier::external_body]
pub fn scalar_neg(a: &Scalar) -> (r: Scalar)
    ensures
        r.val() == (field_order() - a.val() % field_order()) % field_order(),
{
    let x = -Fr::from_le_bytes_mod_order(&a.bytes);
    Scalar { bytes: x.into_bigint().to_bytes_le() }
}

/// Relies on `UniformRand` for `Fr`: a uniformly drawn field element, of
/// which only its range is promised.
#[verifier::external_body]
pub fn scalar_random(rng: &mut StdRng) -> (r: Scalar)
    ensures
        0 <= r.val() < field_order(),
{
    Scalar { bytes: Fr::rand(rng).into_bigint().to_bytes_le() }
}

/// `base` raised to the power `e` in the field.
pub fn field_pow(base: &Scalar, e: usize) -> (r: Scalar)
    ensures
        r.val() == pow(base.val(), e as nat) % field_order(),
{
    let mut acc = scalar_from_u64(1);
    let mut k: usize = 0;
    proof {
        reveal(pow);
    }
    while k < e
        invariant
            k <= e,
            acc.val() == pow(base.val(), k as nat) % field_order(),
        decreases e - k,
    {
        let next = scalar_mul(&acc, base);
        proof {
            reveal(pow);
            let p = pow(base.val(), k as nat);
            vstd::arithmetic::div_mod::lemma_mul_mod_noop_left(p, base.val(), field_order());
            assert(pow(base.val(), (k + 1) as nat) == base.val() * p);
            assert(p * base.val() == base.val() * p) by (nonlinear_arith);
        }
        acc = next;
        k += 1;
    }
    acc
}

} // verus!
