//! The protocol engine: setup, key generation, hint update, escrow and the
//! threshold test.

use crate::combin::{binom, binomial_row, stirling2, stirling_row, MAX_DEGREE};
use crate::field::{field_order, field_pow, scalar_from_u64, scalar_mul, scalar_neg, scalar_random, Scalar};
use crate::group::{point_add, point_mul, point_random, point_sum, Point};
use crate::primitives::{
    commit_raw, commitment, dec, elgamal_key_gen, enc_a, enc_b, encrypt_raw, encrypts, times,
    Cipher,
};
use rand::rngs::StdRng;
use vstd::arithmetic::power::pow;
use vstd::prelude::*;

verus! {

broadcast use vstd::arithmetic::div_mod::lemma_mod_twice;

/// A proof slot. Proofs come from a separate proof system; every slot that
/// this engine fills is `NotGenerated`, which no verifier accepts as a proof.
pub enum ProofSlot {
    NotGenerated,
}

/// The proof that binds a public key to its threshold commitment.
pub struct PkProof {
    pub proof: ProofSlot,
}

/// The proof that binds a hint to its predecessor.
pub struct TagProof {
    pub proof: ProofSlot,
}

pub struct PublicKey {
    pub h: Point,
    pub com_t: Point,
    pub proof_pk: PkProof,
}

pub struct SecretKey {
    pub sk: Scalar,
}

/// Encryptions of the powers `(x - t)^1 ..= (x - t)^d` of the running total
/// `x`, a commitment to `x`, and a consistency proof.
pub struct Hint {
    pub ciphers: Vec<Cipher>,
    pub com_x: Point,
    pub proof_c: ProofSlot,
}

pub struct Tag {
    pub proof: TagProof,
    pub com: Point,
}

/// The public statement of an update.
pub struct XC {
    pub h: Point,
    pub comt_t: Point,
    pub old_com_x: Point,
    pub com_u: Point,
    pub old_ciphers: Vec<Cipher>,
}

/// The private witness of an update.
pub struct WC {
    pub x: usize,
    pub r_list: Vec<Scalar>,
    pub r_x: Scalar,
    pub alpha: Scalar,
    pub r_alpha: Scalar,
}

pub struct Escrow {
    /// `(E1, E2)`
    pub escrow_enc: Cipher,
    /// `{A_i, D_i}`
    pub blinded_ciphers: Vec<Cipher>,
    pub com_x: Point,
    pub com_alpha: Point,
    pub com_beta: Point,
    pub proof_c: ProofSlot,
    pub proof_e: ProofSlot,
}

/// The engine: its randomness source and the fixed public parameters.
pub struct Ublu {
    pub rng: StdRng,
    pub lambda: usize,
    pub d: usize,
    pub g: Point,
    pub com_h: Point,
    pub w: Vec<Point>,
    pub stirling: Vec<u64>,
}

/// The first components of a ciphertext vector.
pub open spec fn firsts(cs: Seq<Cipher>) -> Seq<Seq<u8>> {
    cs.map_values(|c: Cipher| c.a@)
}

/// The second components of a ciphertext vector.
pub open spec fn seconds(cs: Seq<Cipher>) -> Seq<Seq<u8>> {
    cs.map_values(|c: Cipher| c.b@)
}

/// `start + pts[0]·ks[0] + ... + pts[n-1]·ks[n-1]`, added left to right.
pub open spec fn lin_comb(start: Seq<u8>, pts: Seq<Seq<u8>>, ks: Seq<int>, n: nat) -> Seq<u8>
    decreases n,
{
    if n == 0 {
        start
    } else {
        point_sum(lin_comb(start, pts, ks, (n - 1) as nat), times(pts[n - 1], ks[n - 1]))
    }
}

/// The weights of the threshold evaluation: `S(d, 1) ..= S(d, d)`.
pub open spec fn stirling_weights(d: nat) -> Seq<int> {
    Seq::new(d, |j: int| stirling2(d, (j + 1) as nat))
}

/// The binomial weights of power `i` after adding `delta`: the old power `j`
/// (for `j` in `1..=i`, at index `j - 1`) is weighted by `C(i, j)·delta^(i-j)`.
pub open spec fn update_coeffs(delta: int, i: nat) -> Seq<int> {
    Seq::new(i, |k: int| binom(i, (k + 1) as nat) * pow(delta, (i - k - 1) as nat))
}

/// The plaintext of the initial power `i`: `(-t)^i`.
pub open spec fn initial_power(t: int, i: nat) -> int {
    pow(-t, i)
}

impl Ublu {
    /// The parameters are consistent with the degree bound: `|w| == d`, and
    /// the Stirling table holds `S(d, 1) ..= S(d, d)`, so `|stirling| == d`.
    pub open spec fn wf(&self) -> bool {
        &&& self.d <= MAX_DEGREE
        &&& self.d != 2
        &&& self.w@.len() == self.d
        &&& self.stirling@.len() == self.d
        &&& forall|k: int|
            0 <= k < self.d ==> self.stirling@[k] as int == stirling2(
                self.d as nat,
                (k + 1) as nat,
            )
    }

    /// Everything but the randomness source is the same.
    pub open spec fn same_params(&self, o: &Ublu) -> bool {
        &&& self.lambda == o.lambda
        &&& self.d == o.d
        &&& self.g == o.g
        &&& self.com_h == o.com_h
        &&& self.w == o.w
        &&& self.stirling == o.stirling
    }

    /// The escrow ciphertext for `cs` and blinding `beta`:
    /// `(beta·A, beta·B + g)` with `(A, B)` the Stirling-weighted sum of `cs`.
    pub open spec fn evaluated(&self, e: Cipher, cs: Seq<Cipher>, beta: int) -> bool {
        let zero = times(self.g@, 0);
        let ws = stirling_weights(self.d as nat);
        &&& e.a@ == times(lin_comb(zero, firsts(cs), ws, self.d as nat), beta)
        &&& e.b@ == point_sum(
            times(lin_comb(zero, seconds(cs), ws, self.d as nat), beta),
            self.g@,
        )
    }

    /// `bl` is `cs` with `w[i]·alpha` added to each second component.
    pub open spec fn blinded(&self, bl: Seq<Cipher>, cs: Seq<Cipher>, alpha: int) -> bool {
        &&& bl.len() == cs.len()
        &&& forall|i: int|
            0 <= i < cs.len() ==> bl[i].a@ == cs[i].a@ && bl[i].b@ == point_sum(
                cs[i].b@,
                times(self.w@[i]@, alpha),
            )
    }

    /// `c` is power `i` of `old` after adding `delta`, rerandomized with `r`:
    /// the binomial expansion of `(y + delta)^i` over the old powers `y^j`,
    /// with the term `j = 0` (an encryption of `delta^i`) as the start.
    pub open spec fn power_updated(
        g: Seq<u8>,
        c: Cipher,
        old: Seq<Cipher>,
        pk: Seq<u8>,
        delta: int,
        i: nat,
        r: int,
    ) -> bool {
        let ks = update_coeffs(delta, i);
        &&& c.a@ == lin_comb(enc_a(g, r), firsts(old), ks, i)
        &&& c.b@ == lin_comb(enc_b(g, pk, pow(delta, i), r), seconds(old), ks, i)
    }

    /// `c` is power `i` of `old` after adding `delta`, with some rerandomization.
    pub open spec fn power_updated_some(
        g: Seq<u8>,
        c: Cipher,
        old: Seq<Cipher>,
        pk: Seq<u8>,
        delta: int,
        i: nat,
    ) -> bool {
        exists|r: int| Self::power_updated(g, c, old, pk, delta, i, r)
    }

    /// Draws the generators and computes the Stirling weights `S(d, 1..=d)`
    /// for degree `d`.
    ///
    /// The degree 2 is refused: its weights give the evaluation polynomial
    /// `z + z^2`, which vanishes at `z = -1` as well as at 0, so a total one
    /// below the threshold would pass the threshold test.
    pub fn setup(lambda: usize, d: usize, rng: StdRng) -> (r: Ublu)
        requires
            d <= MAX_DEGREE,
            d != 2,
        ensures
            r.wf(),
            r.lambda == lambda,
            r.d == d,
            r.w@.len() == d,
            r.stirling@.len() == d,
    {
        let mut rng = rng;
        let g = point_random(&mut rng);
        let com_h = point_random(&mut rng);
        let mut w: Vec<Point> = Vec::new();
        let mut i: usize = 0;
        while i < d
            invariant
                i <= d,
                w@.len() == i,
            decreases d - i,
        {
            w.push(point_random(&mut rng));
            i += 1;
        }
        let row = stirling_row(d);
        let mut stirling: Vec<u64> = Vec::new();
        let mut k: usize = 1;
        while k <= d
            invariant
                1 <= k <= d + 1,
                d <= MAX_DEGREE,
                row@.len() == d + 1,
                forall|j: int| 0 <= j <= d ==> row@[j] as int == stirling2(d as nat, j as nat),
                stirling@.len() == k - 1,
                forall|j: int|
                    0 <= j < k - 1 ==> stirling@[j] as int == stirling2(d as nat, (j + 1) as nat),
            decreases d + 1 - k,
        {
            stirling.push(row[k]);
            k += 1;
        }
        Ublu { rng, lambda, d, g, com_h, w, stirling }
    }

    /// The threshold test: whether the escrow ciphertext decrypts to `g`.
    pub fn decrypt(&self, sk: &SecretKey, escrow: &Escrow) -> (r: bool)
        ensures
            r == (dec(escrow.escrow_enc, sk.sk.val()) == self.g@),
    {
        let m = crate::primitives::decrypt_raw(&sk.sk, &escrow.escrow_enc);
        m.same(&self.g)
    }

    fn evaluate(&self, old_ciphers: &Vec<Cipher>, beta: &Scalar) -> (r: Cipher)
        requires
            self.wf(),
            old_ciphers@.len() == self.d,
        ensures
            self.evaluated(r, old_ciphers@, beta.val()),
    {
        let zero = point_mul(&self.g, &scalar_from_u64(0));
        let ghost ws = stirling_weights(self.d as nat);
        let ghost fs = firsts(old_ciphers@);
        let ghost ss = seconds(old_ciphers@);
        let mut e_1 = zero.copy();
        let mut e_2 = zero;
        let mut i: usize = 0;
        while i < self.d
            invariant
                self.wf(),
                old_ciphers@.len() == self.d,
                i <= self.d,
                ws == stirling_weights(self.d as nat),
                fs == firsts(old_ciphers@),
                ss == seconds(old_ciphers@),
                e_1@ == lin_comb(times(self.g@, 0), fs, ws, i as nat),
                e_2@ == lin_comb(times(self.g@, 0), ss, ws, i as nat),
            decreases self.d - i,
        {
            let s = scalar_from_u64(self.stirling[i]);
            e_1 = point_add(&e_1, &point_mul(&old_ciphers[i].a, &s));
            e_2 = point_add(&e_2, &point_mul(&old_ciphers[i].b, &s));
            i += 1;
        }
        let a = point_mul(&e_1, beta);
        let b = point_add(&point_mul(&e_2, beta), &self.g);
        Cipher { a, b }
    }

    fn blind_powers(&self, old_ciphers: &Vec<Cipher>, alpha: &Scalar) -> (r: Vec<Cipher>)
        requires
            self.wf(),
            old_ciphers@.len() == self.d,
        ensures
            self.blinded(r@, old_ciphers@, alpha.val()),
    {
        let mut out: Vec<Cipher> = Vec::new();
        let mut i: usize = 0;
        while i < old_ciphers.len()
            invariant
                self.wf(),
                old_ciphers@.len() == self.d,
                i <= self.d,
                out@.len() == i,
                forall|k: int|
                    0 <= k < i ==> out@[k].a@ == old_ciphers@[k].a@ && out@[k].b@ == point_sum(
                        old_ciphers@[k].b@,
                        times(self.w@[k]@, alpha.val()),
                    ),
            decreases self.d - i,
        {
            let c = &old_ciphers[i];
            out.push(Cipher { a: c.a.copy(), b: point_add(&c.b, &point_mul(&self.w[i], alpha)) });
            i += 1;
        }
        out
    }
    /// The binomial weight `C(i, j)·delta^(i-j)`.
    fn v_func(delta: &Scalar, i: usize, j: usize) -> (r: Scalar)
        requires
            1 <= j <= i <= MAX_DEGREE,
        ensures
            r.val() == (binom(i as nat, j as nat) * pow(delta.val(), (i - j) as nat))
                % field_order(),
    {
        let row = binomial_row(i);
        let b = scalar_from_u64(row[j]);
        let p = field_pow(delta, i - j);
        let r = scalar_mul(&b, &p);
        proof {
            crate::combin::lemma_binom_bound(i as nat, j as nat);
            assert(binom(i as nat, j as nat) < field_order()) by {
                assert(row@[j as int] < 0x1_0000_0000_0000_0000int);
            }
            vstd::arithmetic::div_mod::lemma_mul_mod_noop_right(
                binom(i as nat, j as nat),
                pow(delta.val(), (i - j) as nat),
                field_order(),
            );
        }
        r
    }

    /// Each new power `i` is the binomial combination of the old powers
    /// `1..=i` with the encryption of `delta^i` (the power `0` term),
    /// rerandomized with `r_i_list[i - 1]`.
    fn update_powers2(
        &self,
        old_ciphers: &Vec<Cipher>,
        r_i_list: &Vec<Scalar>,
        x: &Scalar,
        pk_h: &Point,
    ) -> (r: Vec<Cipher>)
        requires
            self.wf(),
            old_ciphers@.len() == self.d,
            r_i_list@.len() == self.d,
        ensures
            r@.len() == self.d,
            forall|i: int|
                0 <= i < self.d ==> Self::power_updated(
                    self.g@,
                    #[trigger] r@[i],
                    old_ciphers@,
                    pk_h@,
                    x.val(),
                    (i + 1) as nat,
                    r_i_list@[i].val(),
                ),
    {
        let mut new_ciphers: Vec<Cipher> = Vec::new();
        let mut i: usize = 1;
        while i <= self.d
            invariant
                self.wf(),
                old_ciphers@.len() == self.d,
                r_i_list@.len() == self.d,
                1 <= i <= self.d + 1,
                new_ciphers@.len() == i - 1,
                forall|k: int|
                    0 <= k < i - 1 ==> Self::power_updated(
                    self.g@,
                        #[trigger] new_ciphers@[k],
                        old_ciphers@,
                        pk_h@,
                        x.val(),
                        (k + 1) as nat,
                        r_i_list@[k].val(),
                    ),
            decreases self.d + 1 - i,
        {
            let r_i = &r_i_list[i - 1];
            let x_pow = field_pow(x, i);
            let ghost ks = update_coeffs(x.val(), i as nat);
            let ghost start_a = enc_a(self.g@, r_i.val());
            let ghost start_b = enc_b(self.g@, pk_h@, pow(x.val(), i as nat), r_i.val());
            let mut cur_a_res = point_mul(&self.g, r_i);
            let mut cur_b_res = point_add(&point_mul(&self.g, &x_pow), &point_mul(pk_h, r_i));
            let mut j: usize = 1;
            while j <= i
                invariant
                    self.wf(),
                    old_ciphers@.len() == self.d,
                    1 <= i <= self.d,
                    1 <= j <= i + 1,
                    ks == update_coeffs(x.val(), i as nat),
                    cur_a_res@ == lin_comb(start_a, firsts(old_ciphers@), ks, (j - 1) as nat),
                    cur_b_res@ == lin_comb(start_b, seconds(old_ciphers@), ks, (j - 1) as nat),
                decreases i + 1 - j,
            {
                let cur_v_val = Self::v_func(x, i, j);
                assert(ks[j - 1] == binom(i as nat, j as nat) * pow(x.val(), (i - j) as nat));
                cur_a_res = point_add(&cur_a_res, &point_mul(&old_ciphers[j - 1].a, &cur_v_val));
                cur_b_res = point_add(&cur_b_res, &point_mul(&old_ciphers[j - 1].b, &cur_v_val));
                j += 1;
            }
            new_ciphers.push(Cipher { a: cur_a_res, b: cur_b_res });
            i += 1;
        }
        new_ciphers
    }
    /// Draws a key pair, commits to the threshold `t`, and builds the
    /// genesis hint: encryptions of `(-t)^1 ..= (-t)^d` and a commitment to 0.
    pub fn key_gen(&mut self, t: u32) -> (r: (PublicKey, SecretKey, Hint))
        requires
            old(self).wf(),
        ensures
            final(self).wf(),
            final(self).same_params(old(self)),
            r.0.h@ == times(old(self).g@, r.1.sk.val()),
            exists|r_t: int| r.0.com_t@ == commitment(old(self).g@, old(self).com_h@, t as int, r_t),
            r.2.ciphers@.len() == old(self).d,
            forall|i: int|
                0 <= i < old(self).d ==> encrypts(
                    #[trigger] r.2.ciphers@[i],
                    old(self).g@,
                    r.0.h@,
                    initial_power(t as int, (i + 1) as nat),
                ),
            r.2.com_x@ == commitment(old(self).g@, old(self).com_h@, 0, 0),
    {
        let (sk, pk_h) = elgamal_key_gen(&self.g, &mut self.rng);
        let r_t = scalar_random(&mut self.rng);
        let t_field = scalar_from_u64(t as u64);
        let neg_t = scalar_neg(&t_field);
        let ghost q = field_order();
        proof {
            reveal(pow);
            assert((t as int) % q == t as int);
            vstd::arithmetic::div_mod::lemma_mod_add_multiples_vanish(-(t as int), q);
            assert(t_field.val() == t as int);
            assert(pow(-(t as int), 1) == -(t as int) * pow(-(t as int), 0));
            assert(neg_t.val() == (q - (t as int)) % q);
            assert(neg_t.val() == pow(-(t as int), 1) % q);
        }
        let mut cur_msg = neg_t.copy();
        let mut cipher_vec: Vec<Cipher> = Vec::new();
        let mut i: usize = 1;
        while i <= self.d
            invariant
                self.wf(),
                self.same_params(old(self)),
                1 <= i <= self.d + 1,
                q == field_order(),
                neg_t.val() == pow(-(t as int), 1) % q,
                cur_msg.val() == pow(-(t as int), i as nat) % q,
                cipher_vec@.len() == i - 1,
                forall|k: int|
                    0 <= k < i - 1 ==> encrypts(
                        #[trigger] cipher_vec@[k],
                        self.g@,
                        pk_h@,
                        initial_power(t as int, (k + 1) as nat),
                    ),
            decreases self.d + 1 - i,
        {
            let cur_r = scalar_random(&mut self.rng);
            let c = encrypt_raw(&self.g, &pk_h, &cur_msg, &cur_r);
            proof {
                let m = pow(-(t as int), i as nat);
                assert(c.a@ == enc_a(self.g@, cur_r.val()));
                assert(c.b@ == enc_b(self.g@, pk_h@, m, cur_r.val()));
            }
            cipher_vec.push(c);
            let next = scalar_mul(&cur_msg, &neg_t);
            proof {
                reveal(pow);
                let p = pow(-(t as int), i as nat);
                let n = -(t as int);
                assert(pow(n, 1) == n * pow(n, 0));
                vstd::arithmetic::div_mod::lemma_mul_mod_noop(p, n, q);
                assert(pow(n, (i + 1) as nat) == n * p);
                assert(p * n == n * p) by (nonlinear_arith);
            }
            cur_msg = next;
            i += 1;
        }
        let com_t = commit_raw(&self.g, &self.com_h, &t_field, &r_t);
        let zero = scalar_from_u64(0);
        let com_x0 = commit_raw(&self.g, &self.com_h, &zero, &scalar_from_u64(0));
        let pk = PublicKey { h: pk_h, com_t, proof_pk: PkProof { proof: ProofSlot::NotGenerated } };
        let hint = Hint { ciphers: cipher_vec, com_x: com_x0, proof_c: ProofSlot::NotGenerated };
        (pk, SecretKey { sk }, hint)
    }

    /// Folds the increment `x` into `hint`: the commitment to the total gains
    /// a fresh commitment to `x`, and each power is updated binomially and
    /// rerandomized. The tag carries the new commitment.
    pub fn update(&mut self, pk: &PublicKey, hint: &Hint, _old_tag: Option<&Tag>, x: usize) -> (r: (Hint, Tag))
        requires
            old(self).wf(),
            hint.ciphers@.len() == old(self).d,
        ensures
            final(self).wf(),
            final(self).same_params(old(self)),
            exists|r_x: int|
                r.0.com_x@ == point_sum(
                    commitment(old(self).g@, old(self).com_h@, x as int, r_x),
                    hint.com_x@,
                ),
            r.0.ciphers@.len() == old(self).d,
            forall|i: int|
                0 <= i < old(self).d ==> Self::power_updated_some(
                    old(self).g@,
                    #[trigger] r.0.ciphers@[i],
                    hint.ciphers@,
                    pk.h@,
                    x as int,
                    (i + 1) as nat,
                ),
            r.1.com@ == r.0.com_x@,
    {
        let r_x = scalar_random(&mut self.rng);
        let new_hint = self.update_hint(pk, hint, x, &r_x);
        let new_tag = Tag {
            proof: TagProof { proof: ProofSlot::NotGenerated },
            com: new_hint.com_x.copy(),
        };
        (new_hint, new_tag)
    }

    fn copy_ciphers(cs: &Vec<Cipher>) -> (r: Vec<Cipher>)
        ensures
            r@.len() == cs@.len(),
            forall|i: int| 0 <= i < cs@.len() ==> r@[i].a@ == cs@[i].a@ && r@[i].b@ == cs@[i].b@,
    {
        let mut out: Vec<Cipher> = Vec::new();
        let mut i: usize = 0;
        while i < cs.len()
            invariant
                i <= cs@.len(),
                out@.len() == i,
                forall|k: int| 0 <= k < i ==> out@[k].a@ == cs@[k].a@ && out@[k].b@ == cs@[k].b@,
            decreases cs@.len() - i,
        {
            out.push(cs[i].copy());
            i += 1;
        }
        out
    }

    fn update_hint(&mut self, pk: &PublicKey, old_hint: &Hint, x: usize, r_x: &Scalar) -> (r: Hint)
        requires
            old(self).wf(),
            old_hint.ciphers@.len() == old(self).d,
        ensures
            final(self).wf(),
            final(self).same_params(old(self)),
            r.com_x@ == point_sum(
                commitment(old(self).g@, old(self).com_h@, x as int, r_x.val()),
                old_hint.com_x@,
            ),
            r.ciphers@.len() == old(self).d,
            forall|i: int|
                0 <= i < old(self).d ==> Self::power_updated_some(
                    old(self).g@,
                    #[trigger] r.ciphers@[i],
                    old_hint.ciphers@,
                    pk.h@,
                    x as int,
                    (i + 1) as nat,
                ),
    {
        let mut r_i_list: Vec<Scalar> = Vec::new();
        let mut i: usize = 0;
        while i < self.d
            invariant
                self.wf(),
                self.same_params(old(self)),
                i <= self.d,
                r_i_list@.len() == i,
            decreases self.d - i,
        {
            r_i_list.push(scalar_random(&mut self.rng));
            i += 1;
        }
        let x_field = scalar_from_u64(x as u64);
        proof {
            assert((x as int) % field_order() == x as int);
        }
        let new_com = point_add(&commit_raw(&self.g, &self.com_h, &x_field, r_x), &old_hint.com_x);
        let new_ciphers = self.update_powers2(&old_hint.ciphers, &r_i_list, &x_field, &pk.h);
        assert forall|i: int| 0 <= i < self.d implies Self::power_updated_some(
            self.g@,
            #[trigger] new_ciphers@[i],
            old_hint.ciphers@,
            pk.h@,
            x as int,
            (i + 1) as nat,
        ) by {
            assert(Self::power_updated(self.g@, new_ciphers@[i], old_hint.ciphers@, pk.h@, x as int, (i + 1) as nat, r_i_list@[i].val()));
        }
        let zero = scalar_from_u64(0);
        let com_u = commit_raw(&self.g, &self.com_h, &zero, &scalar_from_u64(0));
        let _xc = XC {
            h: pk.h.copy(),
            comt_t: pk.com_t.copy(),
            old_com_x: old_hint.com_x.copy(),
            com_u,
            old_ciphers: Self::copy_ciphers(&old_hint.ciphers),
        };
        let _wc = WC {
            x,
            r_list: r_i_list,
            r_x: r_x.copy(),
            alpha: scalar_from_u64(0),
            r_alpha: scalar_from_u64(0),
        };
        Hint { ciphers: new_ciphers, com_x: new_com, proof_c: ProofSlot::NotGenerated }
    }

    /// Builds an escrow of `hint`: commitments to fresh blinding scalars
    /// `alpha` and `beta`, the powers blinded with `w·alpha`, and the
    /// Stirling-weighted evaluation scaled by `beta`.
    ///
    /// The evaluation reads the powers before blinding: the blinding adds
    /// `w[i]·alpha` to each second component, and that term, weighted and
    /// summed, would survive decryption and make the threshold test fail.
    pub fn escrow(&mut self, pk: &PublicKey, hint: &Hint) -> (r: Escrow)
        requires
            old(self).wf(),
            hint.ciphers@.len() == old(self).d,
        ensures
            final(self).wf(),
            final(self).same_params(old(self)),
            r.com_x@ == hint.com_x@,
            exists|alpha: int, r_alpha: int|
                r.com_alpha@ == commitment(old(self).g@, old(self).com_h@, alpha, r_alpha)
                    && old(self).blinded(r.blinded_ciphers@, hint.ciphers@, alpha),
            exists|beta: int, r_beta: int|
                r.com_beta@ == commitment(old(self).g@, old(self).com_h@, beta, r_beta)
                    && old(self).evaluated(r.escrow_enc, hint.ciphers@, beta),
    {
        let alpha = scalar_random(&mut self.rng);
        let r_alpha = scalar_random(&mut self.rng);
        let beta = scalar_random(&mut self.rng);
        let r_beta = scalar_random(&mut self.rng);
        let com_alpha = commit_raw(&self.g, &self.com_h, &alpha, &r_alpha);
        let com_beta = commit_raw(&self.g, &self.com_h, &beta, &r_beta);
        let blinded_ciphers = self.blind_powers(&hint.ciphers, &alpha);
        let escrow_enc = self.evaluate(&hint.ciphers, &beta);
        let r = Escrow {
            escrow_enc,
            blinded_ciphers,
            com_x: hint.com_x.copy(),
            com_alpha,
            com_beta,
            proof_c: ProofSlot::NotGenerated,
            proof_e: ProofSlot::NotGenerated,
        };
        assert(r.com_alpha@ == commitment(self.g@, self.com_h@, alpha.val(), r_alpha.val())
            && self.blinded(r.blinded_ciphers@, hint.ciphers@, alpha.val()));
        assert(r.com_beta@ == commitment(self.g@, self.com_h@, beta.val(), r_beta.val())
            && self.evaluated(r.escrow_enc, hint.ciphers@, beta.val()));
        r
    }
}

/// `ks[0]·vs[0] + ... + ks[n-1]·vs[n-1]`: the plaintext counterpart of `lin_comb`.
pub open spec fn weighted_sum(ks: Seq<int>, vs: Seq<int>, n: nat) -> int
    decreases n,
{
    if n == 0 {
        0
    } else {
        weighted_sum(ks, vs, (n - 1) as nat) + ks[n - 1] * vs[n - 1]
    }
}

/// The plaintexts `y^1 ..= y^i` of a power vector for total `y`.
pub open spec fn powers_of(y: int, i: nat) -> Seq<int> {
    Seq::new(i, |k: int| pow(y, (k + 1) as nat))
}

/// `sum_{j=0..=m} C(i, j)·delta^(i-j)·y^j`.
pub open spec fn binom_terms(y: int, delta: int, i: nat, m: int) -> int
    decreases m + 1,
{
    if m < 0 {
        0
    } else {
        binom_terms(y, delta, i, m - 1) + binom(i, m as nat) * (pow(delta, (i - m) as nat) * pow(
            y,
            m as nat,
        ))
    }
}

proof fn lemma_binom_terms_step(y: int, delta: int, i: nat, m: int)
    requires
        0 <= m <= i,
    ensures
        binom_terms(y, delta, i + 1, m) == delta * binom_terms(y, delta, i, m) + y * binom_terms(
            y,
            delta,
            i,
            m - 1,
        ),
    decreases m,
{
    reveal(pow);
    if m == 0 {
        assert(binom_terms(y, delta, i, -1) == 0);
        assert(binom_terms(y, delta, i + 1, -1) == 0);
        assert(pow(delta, (i + 1) as nat) == delta * pow(delta, i));
        assert(binom(i + 1, 0) == 1 && binom(i, 0) == 1);
        assert(pow(y, 0) == 1);
        let pd = pow(delta, (i + 1) as nat);
        assert(((i + 1) - 0) as nat == (i + 1) as nat);
        assert(binom_terms(y, delta, i + 1, 0) == binom_terms(y, delta, i + 1, -1) + binom(
            (i + 1) as nat,
            0,
        ) * (pow(delta, ((i + 1) - 0) as nat) * pow(y, 0)));
        assert(1 * (pd * 1) == pd);
        assert(binom_terms(y, delta, i + 1, 0) == pow(delta, (i + 1) as nat));
        assert(binom_terms(y, delta, i, 0) == pow(delta, i));
    } else {
        lemma_binom_terms_step(y, delta, i, m - 1);
        let a = binom(i, (m - 1) as nat);
        let b = binom(i, m as nat);
        let p = pow(delta, (i - m) as nat);
        let yy = pow(y, (m - 1) as nat);
        let q = p * yy;
        let big = delta * (y * q);
        assert(binom((i + 1) as nat, m as nat) == a + b);
        assert(pow(delta, (i + 1 - m) as nat) == delta * p);
        assert(pow(y, m as nat) == y * yy);
        assert((delta * p) * (y * yy) == big) by (nonlinear_arith)
            requires
                q == p * yy,
                big == delta * (y * q),
        ;
        assert(p * (y * yy) == y * q) by (nonlinear_arith)
            requires
                q == p * yy,
        ;
        assert((delta * p) * yy == delta * q) by (nonlinear_arith)
            requires
                q == p * yy,
        ;
        assert(delta * (b * (y * q)) == b * big) by (nonlinear_arith)
            requires
                big == delta * (y * q),
        ;
        assert(y * (a * (delta * q)) == a * big) by (nonlinear_arith)
            requires
                big == delta * (y * q),
        ;
        assert((a + b) * big == a * big + b * big) by (nonlinear_arith);
        let t_m = binom_terms(y, delta, i, m);
        let t_m1 = binom_terms(y, delta, i, m - 1);
        let t_m2 = binom_terms(y, delta, i, m - 2);
        assert(t_m == t_m1 + b * (y * q));
        assert(t_m1 == t_m2 + a * (delta * q));
        assert(delta * t_m == delta * t_m1 + delta * (b * (y * q))) by (nonlinear_arith)
            requires
                t_m == t_m1 + b * (y * q),
        ;
        assert(y * t_m1 == y * t_m2 + y * (a * (delta * q))) by (nonlinear_arith)
            requires
                t_m1 == t_m2 + a * (delta * q),
        ;
    }
}

proof fn lemma_binomial_theorem(y: int, delta: int, i: nat)
    ensures
        binom_terms(y, delta, i, i as int) == pow(y + delta, i),
    decreases i,
{
    reveal(pow);
    if i == 0 {
        assert(binom_terms(y, delta, 0, -1) == 0);
        assert(binom(0, 0) == 1);
    } else {
        let n = (i - 1) as nat;
        lemma_binomial_theorem(y, delta, n);
        lemma_binom_terms_step(y, delta, n, n as int);
        let t = binom_terms(y, delta, n, n as int);
        let t1 = binom_terms(y, delta, n, n - 1);
        let yn = pow(y, n);
        assert(binom(n, n) == 1);
        assert(binom(i, i) == 1);
        assert(pow(delta, 0) == 1);
        assert(t == t1 + yn);
        assert(pow(y, i) == y * yn);
        assert(i as int - 1 == n as int);
        assert(binom_terms(y, delta, i, n as int) == delta * t + y * t1);
        assert(binom_terms(y, delta, i, i as int) == binom_terms(y, delta, i, n as int) + binom(
            i,
            i,
        ) * (pow(delta, 0) * pow(y, i)));
        assert(binom_terms(y, delta, i, i as int) == delta * t + y * t1 + y * yn);
        assert(delta * t + y * t1 + y * yn == (y + delta) * t) by (nonlinear_arith)
            requires
                t == t1 + yn,
        ;
    }
}

proof fn lemma_update_sum(y: int, delta: int, i: nat, n: nat)
    requires
        n <= i,
    ensures
        pow(delta, i) + weighted_sum(update_coeffs(delta, i), powers_of(y, i), n) == binom_terms(
            y,
            delta,
            i,
            n as int,
        ),
    decreases n,
{
    reveal(pow);
    if n == 0 {
        assert(binom_terms(y, delta, i, -1) == 0);
        assert(binom(i, 0) == 1);
    } else {
        lemma_update_sum(y, delta, i, (n - 1) as nat);
        let b = binom(i, n);
        let p = pow(delta, (i - n) as nat);
        let yn = pow(y, n);
        assert(update_coeffs(delta, i)[n - 1] == b * p);
        assert(powers_of(y, i)[n - 1] == yn);
        assert((b * p) * yn == b * (p * yn)) by (nonlinear_arith);
    }
}

/// Power-update correctness: if the old powers hold `y^1 ..= y^i`, the
/// binomial weights of power `i` applied to them, plus the start term
/// `delta^i`, give `(y + delta)^i`.
pub proof fn lemma_power_update(y: int, delta: int, i: nat)
    ensures
        pow(delta, i) + weighted_sum(update_coeffs(delta, i), powers_of(y, i), i) == pow(
            y + delta,
            i,
        ),
{
    lemma_update_sum(y, delta, i, i);
    lemma_binomial_theorem(y, delta, i);
}

/// At the threshold the evaluation vanishes: the Stirling-weighted sum of the
/// powers `0^1 ..= 0^d` is 0, so the escrow plaintext is `beta·0 + 1`.
pub proof fn lemma_evaluation_at_threshold(d: nat)
    ensures
        weighted_sum(stirling_weights(d), powers_of(0, d), d) == 0,
{
    lemma_zero_prefix(d, d);
}

proof fn lemma_zero_prefix(d: nat, n: nat)
    requires
        n <= d,
    ensures
        weighted_sum(stirling_weights(d), powers_of(0, d), n) == 0,
    decreases n,
{
    if n > 0 {
        lemma_zero_prefix(d, (n - 1) as nat);
        reveal(pow);
        assert(powers_of(0, d)[n - 1] == 0 * pow(0, (n - 1) as nat));
    }
}

} // verus!
