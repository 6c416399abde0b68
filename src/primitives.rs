//! ElGamal encryption "in the exponent" and Pedersen commitments over G1.

use crate::field::{field_order, scalar_neg, scalar_random, Scalar};
use crate::group::{point_add, point_mul, point_scaled, point_sum, Point};
use rand::rngs::StdRng;
use vstd::prelude::*;

verus! {

/// An ElGamal ciphertext `(a, b) = (g·r, g·m + pk·r)`.
pub struct Cipher {
    pub a: Point,
    pub b: Point,
}

impl Cipher {
    pub fn copy(&self) -> (r: Cipher)
        ensures
            r.a@ == self.a@,
            r.b@ == self.b@,
    {
        Cipher { a: self.a.copy(), b: self.b.copy() }
    }
}

/// `g` multiplied by the residue of `k`.
pub open spec fn times(g: Seq<u8>, k: int) -> Seq<u8> {
    point_scaled(g, k % field_order())
}

/// The Pedersen commitment `g·m + h·r`.
pub open spec fn commitment(g: Seq<u8>, h: Seq<u8>, m: int, r: int) -> Seq<u8> {
    point_sum(times(g, m), times(h, r))
}

/// The first component of an encryption of `m` under `pk` with randomness `r`.
pub open spec fn enc_a(g: Seq<u8>, r: int) -> Seq<u8> {
    times(g, r)
}

/// The second component of an encryption of `m` under `pk` with randomness `r`.
pub open spec fn enc_b(g: Seq<u8>, pk: Seq<u8>, m: int, r: int) -> Seq<u8> {
    point_sum(times(g, m), times(pk, r))
}

/// `c` is an encryption of `m` under `pk` with some randomness.
pub open spec fn encrypts(c: Cipher, g: Seq<u8>, pk: Seq<u8>, m: int) -> bool {
    exists|r: int| c.a@ == enc_a(g, r) && c.b@ == enc_b(g, pk, m, r)
}

/// What decryption with secret `sk` yields from `c`: `b - a·sk`.
pub open spec fn dec(c: Cipher, sk: int) -> Seq<u8> {
    point_sum(c.b@, times(c.a@, field_order() - sk % field_order()))
}

/// Commits to `m` with randomness `r`.
pub fn commit_raw(g: &Point, h: &Point, m: &Scalar, r: &Scalar) -> (c: Point)
    ensures
        c@ == commitment(g@, h@, m.val(), r.val()),
{
    point_add(&point_mul(g, m), &point_mul(h, r))
}

/// Encrypts the exponent `m` under `pk` with randomness `r`.
pub fn encrypt_raw(g: &Point, pk: &Point, m: &Scalar, r: &Scalar) -> (c: Cipher)
    ensures
        c.a@ == enc_a(g@, r.val()),
        c.b@ == enc_b(g@, pk@, m.val(), r.val()),
        encrypts(c, g@, pk@, m.val()),
{
    let c = Cipher { a: point_mul(g, r), b: point_add(&point_mul(g, m), &point_mul(pk, r)) };
    assert(c.a@ == enc_a(g@, r.val()) && c.b@ == enc_b(g@, pk@, m.val(), r.val()));
    c
}

/// The point `g·m` held in `c`, recovered with the secret `sk`.
pub fn decrypt_raw(sk: &Scalar, c: &Cipher) -> (m: Point)
    ensures
        m@ == dec(*c, sk.val()),
{
    let neg = scalar_neg(sk);
    proof {
        let q = field_order();
        vstd::arithmetic::div_mod::lemma_mod_twice(q - sk.val() % q, q);
    }
    point_add(&c.b, &point_mul(&c.a, &neg))
}

/// Draws an ElGamal key pair: a secret scalar and the point `g·sk`.
pub fn elgamal_key_gen(g: &Point, rng: &mut StdRng) -> (r: (Scalar, Point))
    ensures
        r.1@ == times(g@, r.0.val()),
        0 <= r.0.val() < field_order(),
{
    let sk = scalar_random(rng);
    let pk = point_mul(g, &sk);
    (sk, pk)
}

} // verus!
