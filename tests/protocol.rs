use rand::rngs::StdRng;
use rand::SeedableRng;
use ublu::combin::{binomial_row, stirling_row};
use ublu::field::{field_pow, scalar_add, scalar_from_u64, scalar_mul, scalar_neg, scalar_random};
use ublu::group::{point_add, point_mul, point_random};
use ublu::primitives::{commit_raw, decrypt_raw, elgamal_key_gen, encrypt_raw};
use ublu::ublu::{Hint, ProofSlot, Ublu};

fn engine(d: usize, seed: u64) -> Ublu {
    Ublu::setup(40, d, StdRng::seed_from_u64(seed))
}

fn le(v: u64) -> Vec<u8> {
    scalar_from_u64(v).to_le_bytes()
}

#[test]
fn sunshine() {
    let lambda = 40;
    let d = 10;
    let t = 5;
    let x = 4;
    let rng = StdRng::seed_from_u64(1);
    let mut ublu = Ublu::setup(lambda, d, rng);
    let (pk, sk, hint_0) = ublu.key_gen(t);
    let (hint_1, _tag_1) = ublu.update(&pk, &hint_0, None, x);
    let escrow_1 = ublu.escrow(&pk, &hint_1);
    // 4 is not the threshold 5
    assert!(!ublu.decrypt(&sk, &escrow_1));
    // Two increments of 4 reach a total of 8, which is not the threshold either.
    let (hint_2, _tag_2) = ublu.update(&pk, &hint_1, None, x);
    let escrow_2 = ublu.escrow(&pk, &hint_2);
    assert!(!ublu.decrypt(&sk, &escrow_2));
}

#[test]
fn threshold_reached_by_two_increments() {
    let mut u = engine(10, 2);
    let (pk, sk, h0) = u.key_gen(5);
    let (h1, _) = u.update(&pk, &h0, None, 2);
    let e1 = u.escrow(&pk, &h1);
    assert!(!u.decrypt(&sk, &e1));
    let (h2, tag2) = u.update(&pk, &h1, None, 3);
    assert!(tag2.com.same(&h2.com_x));
    let e2 = u.escrow(&pk, &h2);
    assert!(u.decrypt(&sk, &e2));
    // a second escrow of the same hint also passes
    let e3 = u.escrow(&pk, &h2);
    assert!(u.decrypt(&sk, &e3));
}

#[test]
fn threshold_reached_by_one_increment() {
    let mut u = engine(4, 3);
    let (pk, sk, h0) = u.key_gen(7);
    let (h1, _) = u.update(&pk, &h0, None, 7);
    let esc = u.escrow(&pk, &h1);
    assert!(u.decrypt(&sk, &esc));
    let (h2, _) = u.update(&pk, &h1, None, 1);
    let esc = u.escrow(&pk, &h2);
    assert!(!u.decrypt(&sk, &esc));
}

#[test]
fn threshold_zero_reached_at_genesis() {
    let mut u = engine(3, 4);
    let (pk, sk, h0) = u.key_gen(0);
    let esc = u.escrow(&pk, &h0);
    assert!(u.decrypt(&sk, &esc));
}

#[test]
fn degree_one_tests_equality() {
    let mut u = engine(1, 16);
    assert_eq!(u.stirling, vec![1]);
    let (pk, sk, h0) = u.key_gen(3);
    let (h1, _) = u.update(&pk, &h0, None, 2);
    let e1 = u.escrow(&pk, &h1);
    assert!(!u.decrypt(&sk, &e1));
    let (h2, _) = u.update(&pk, &h1, None, 1);
    let e2 = u.escrow(&pk, &h2);
    assert!(u.decrypt(&sk, &e2));
}

#[test]
fn wrong_secret_key_fails() {
    let mut u = engine(3, 5);
    let (pk, _sk, h0) = u.key_gen(2);
    let (_pk2, sk2, _) = u.key_gen(2);
    let (h1, _) = u.update(&pk, &h0, None, 2);
    let esc = u.escrow(&pk, &h1);
    assert!(!u.decrypt(&sk2, &esc));
}

#[test]
fn setup_dimensions() {
    let u = engine(10, 6);
    assert_eq!(u.d, 10);
    assert_eq!(u.lambda, 40);
    assert_eq!(u.w.len(), 10);
    assert_eq!(u.stirling.len(), 10);
    assert_eq!(u.stirling[0], 1);
    assert_eq!(u.stirling[1], 511);
    assert_eq!(u.stirling[4], 42525);
    assert_eq!(u.stirling[9], 1);
}

#[test]
fn genesis_hint_shape() {
    let mut u = engine(5, 7);
    let (pk, sk, h0) = u.key_gen(3);
    assert_eq!(h0.ciphers.len(), 5);
    let zero = scalar_from_u64(0);
    assert!(h0.com_x.same(&commit_raw(&u.g, &u.com_h, &zero, &zero)));
    assert!(matches!(h0.proof_c, ProofSlot::NotGenerated));
    assert!(pk.h.same(&point_mul(&u.g, &sk.sk)));
    // power i holds (-3)^i
    let neg3 = scalar_neg(&scalar_from_u64(3));
    for i in 0..5 {
        let m = decrypt_raw(&sk.sk, &h0.ciphers[i]);
        assert!(m.same(&point_mul(&u.g, &field_pow(&neg3, i + 1))));
    }
}

#[test]
fn update_moves_powers() {
    let mut u = engine(6, 8);
    let (pk, sk, h0) = u.key_gen(3);
    let (h1, _) = u.update(&pk, &h0, None, 5);
    assert_eq!(h1.ciphers.len(), 6);
    // total 5, threshold 3: power i holds 2^i
    for i in 0..6 {
        let m = decrypt_raw(&sk.sk, &h1.ciphers[i]);
        assert!(m.same(&point_mul(&u.g, &scalar_from_u64(1u64 << (i + 1)))));
    }
}

#[test]
fn power_update_binomial() {
    // powers of y = 4 updated by 3 hold 7^i
    let mut u = engine(5, 9);
    let (pk, sk, _) = u.key_gen(0);
    let mut rng = StdRng::seed_from_u64(10);
    let y = scalar_from_u64(4);
    let mut ciphers = Vec::new();
    for i in 0..5 {
        let r = scalar_random(&mut rng);
        ciphers.push(encrypt_raw(&u.g, &pk.h, &field_pow(&y, i + 1), &r));
    }
    let zero = scalar_from_u64(0);
    let com_x = commit_raw(&u.g, &u.com_h, &zero, &zero);
    let hint = Hint { ciphers, com_x, proof_c: ProofSlot::NotGenerated };
    let (h1, _) = u.update(&pk, &hint, None, 3);
    let seven = scalar_from_u64(7);
    for i in 0..5 {
        let m = decrypt_raw(&sk.sk, &h1.ciphers[i]);
        assert!(m.same(&point_mul(&u.g, &field_pow(&seven, i + 1))));
    }
}

#[test]
fn update_commitment_adds() {
    let mut u = engine(3, 11);
    let (pk, _sk, h0) = u.key_gen(4);
    let (h1, t1) = u.update(&pk, &h0, None, 3);
    assert!(t1.com.same(&h1.com_x));
    assert!(!h1.com_x.same(&h0.com_x));
}

#[test]
fn escrow_blinds_second_components() {
    let mut u = engine(3, 12);
    let (pk, _sk, h0) = u.key_gen(2);
    let e = u.escrow(&pk, &h0);
    assert_eq!(e.blinded_ciphers.len(), 3);
    assert!(e.com_x.same(&h0.com_x));
    for i in 0..3 {
        assert!(e.blinded_ciphers[i].a.same(&h0.ciphers[i].a));
        assert!(!e.blinded_ciphers[i].b.same(&h0.ciphers[i].b));
    }
}

#[test]
fn commitment_homomorphism() {
    let mut rng = StdRng::seed_from_u64(13);
    let g = point_random(&mut rng);
    let h = point_random(&mut rng);
    let a = scalar_from_u64(11);
    let b = scalar_random(&mut rng);
    let ra = scalar_random(&mut rng);
    let rb = scalar_random(&mut rng);
    let lhs = point_add(&commit_raw(&g, &h, &a, &ra), &commit_raw(&g, &h, &b, &rb));
    let rhs = commit_raw(&g, &h, &scalar_add(&a, &b), &scalar_add(&ra, &rb));
    assert!(lhs.same(&rhs));
}

#[test]
fn encryption_correctness() {
    let mut rng = StdRng::seed_from_u64(14);
    let g = point_random(&mut rng);
    let (sk, pk) = elgamal_key_gen(&g, &mut rng);
    let m = scalar_from_u64(123);
    let r = scalar_random(&mut rng);
    let c = encrypt_raw(&g, &pk, &m, &r);
    assert!(decrypt_raw(&sk, &c).same(&point_mul(&g, &m)));
    assert!(!decrypt_raw(&scalar_from_u64(1), &c).same(&point_mul(&g, &m)));
}

#[test]
fn scalar_arithmetic() {
    assert_eq!(scalar_add(&scalar_from_u64(2), &scalar_from_u64(3)).to_le_bytes(), le(5));
    assert_eq!(scalar_mul(&scalar_from_u64(6), &scalar_from_u64(7)).to_le_bytes(), le(42));
    assert_eq!(field_pow(&scalar_from_u64(3), 4).to_le_bytes(), le(81));
    assert_eq!(field_pow(&scalar_from_u64(3), 0).to_le_bytes(), le(1));
    let minus_one = scalar_neg(&scalar_from_u64(1));
    assert_eq!(scalar_add(&minus_one, &scalar_from_u64(1)).to_le_bytes(), le(0));
    assert_eq!(scalar_mul(&minus_one, &minus_one).to_le_bytes(), le(1));
    assert_eq!(scalar_from_u64(258).to_le_bytes()[..2], [2u8, 1u8]);
}

#[test]
fn point_arithmetic() {
    let mut rng = StdRng::seed_from_u64(15);
    let p = point_random(&mut rng);
    let two = scalar_from_u64(2);
    let doubled = point_mul(&p, &two);
    assert!(!doubled.same(&p));
    assert!(point_add(&p, &p).same(&doubled));
    assert!(point_mul(&p, &scalar_from_u64(1)).same(&p));
    assert!(p.copy().same(&p));
}

#[test]
fn binomial_and_stirling_rows() {
    assert_eq!(binomial_row(0), vec![1]);
    assert_eq!(binomial_row(5), vec![1, 5, 10, 10, 5, 1]);
    assert_eq!(binomial_row(26)[13], 10400600);
    assert_eq!(stirling_row(0), vec![1]);
    assert_eq!(stirling_row(4), vec![0, 1, 7, 6, 1]);
    assert_eq!(stirling_row(10)[5], 42525);
    assert_eq!(stirling_row(26)[26], 1);
}
