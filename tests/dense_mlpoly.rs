use rand_core::{OsRng, RngCore};
use spartan::commitments::{
    check_evaluation, prove_layout, verify_layout, PolyCommitmentGens, ProofVerifyError,
};
use spartan::dense::DensePolynomial;
use spartan::eq::EqPolynomial;
use spartan::identity::IdentityPolynomial;
use spartan::random::{le_bytes, scalar_from_bytes_wide, RandomTape};
use spartan::scalar::{Scalar, MODULUS};

fn s(x: u64) -> Scalar {
    Scalar::from_u64(x)
}

fn random_scalar() -> Scalar {
    Scalar::from_u64(OsRng.next_u64())
}

fn random_point(n: usize) -> Vec<Scalar> {
    (0..n).map(|_| random_scalar()).collect()
}

fn evaluate_with_lr(z: &Vec<Scalar>, r: &Vec<Scalar>) -> Scalar {
    let eq = EqPolynomial::new(r.to_vec());
    let (l, rr) = eq.compute_factored_evals();
    let ell = r.len();
    assert!(ell % 2 == 0);
    let m = 1usize << (ell / 2);
    let mut lz: Vec<Scalar> = Vec::new();
    for i in 0..m {
        let mut acc = Scalar::zero();
        for j in 0..m {
            acc = acc.add(&l[j].mul(&z[j * m + i]));
        }
        lz.push(acc);
    }
    let mut acc = Scalar::zero();
    for i in 0..lz.len() {
        acc = acc.add(&lz[i].mul(&rr[i]));
    }
    acc
}

fn chi_naive(r: &[Scalar], i: usize, shift_len: usize) -> Scalar {
    let mut chi = Scalar::one();
    for j in 0..r.len() {
        let bit = (i & (1 << (shift_len - j - 1))) > 0;
        if bit {
            chi = chi.mul(&r[j]);
        } else {
            chi = chi.mul(&Scalar::one().sub(&r[j]));
        }
    }
    chi
}

fn compute_chis_at_r(r: &Vec<Scalar>) -> Vec<Scalar> {
    let n = 1usize << r.len();
    (0..n).map(|i| chi_naive(r, i, r.len())).collect()
}

fn compute_factored_chis_at_r(r: &Vec<Scalar>) -> (Vec<Scalar>, Vec<Scalar>) {
    let ell = r.len();
    assert!(ell % 2 == 0);
    let m = 1usize << (ell / 2);
    let mut l: Vec<Scalar> = Vec::new();
    let mut rr: Vec<Scalar> = Vec::new();
    for i in 0..m {
        let mut chi_i = Scalar::one();
        for j in 0..ell / 2 {
            let bit_j = ((m * i) & (1 << (r.len() - j - 1))) > 0;
            if bit_j {
                chi_i = chi_i.mul(&r[j]);
            } else {
                chi_i = chi_i.mul(&Scalar::one().sub(&r[j]));
            }
        }
        l.push(chi_i);
    }
    for i in 0..m {
        let mut chi_i = Scalar::one();
        for j in ell / 2..ell {
            let bit_j = (i & (1 << (r.len() - j - 1))) > 0;
            if bit_j {
                chi_i = chi_i.mul(&r[j]);
            } else {
                chi_i = chi_i.mul(&Scalar::one().sub(&r[j]));
            }
        }
        rr.push(chi_i);
    }
    (l, rr)
}

fn compute_outerproduct(l: Vec<Scalar>, r: Vec<Scalar>) -> Vec<Scalar> {
    let mut o: Vec<Scalar> = Vec::new();
    for i in 0..l.len() {
        for j in 0..r.len() {
            o.push(l[i].mul(&r[j]));
        }
    }
    o
}

#[test]
fn check_polynomial_evaluation() {
    let z: Vec<Scalar> = vec![Scalar::one(), s(2), s(1), s(4)];
    let r: Vec<Scalar> = vec![s(4), s(3)];
    let eval_with_lr = evaluate_with_lr(&z, &r);
    let poly = DensePolynomial::new(z);
    let eval = poly.evaluate(&r);
    assert_eq!(eval, s(28));
    assert_eq!(eval_with_lr, eval);
}

#[test]
fn check_memoized_chis() {
    let r = random_point(10);
    let chis = compute_chis_at_r(&r);
    let chis_m = EqPolynomial::new(r).evals();
    assert_eq!(chis, chis_m);
}

#[test]
fn check_factored_chis() {
    let r = random_point(10);
    let chis = EqPolynomial::new(r.clone()).evals();
    let (l, rr) = EqPolynomial::new(r).compute_factored_evals();
    let o = compute_outerproduct(l, rr);
    assert_eq!(chis, o);
}

#[test]
fn check_memoized_factored_chis() {
    let r = random_point(10);
    let (l, rr) = compute_factored_chis_at_r(&r);
    let eq = EqPolynomial::new(r);
    let (l2, r2) = eq.compute_factored_evals();
    assert_eq!(l, l2);
    assert_eq!(rr, r2);
}

#[test]
fn memoized_chis_match_naive_for_small_points() {
    for ell in 1..=14 {
        let r = random_point(ell);
        assert_eq!(compute_chis_at_r(&r), EqPolynomial::new(r).evals());
    }
}

#[test]
fn factored_chis_odd_length() {
    let r = random_point(7);
    let (l, rr) = EqPolynomial::new(r.clone()).compute_factored_evals();
    assert_eq!(l.len(), 8);
    assert_eq!(rr.len(), 16);
    assert_eq!(compute_outerproduct(l, rr), EqPolynomial::new(r).evals());
}

#[test]
fn factored_lens_split() {
    assert_eq!(EqPolynomial::compute_factored_lens(7), (3, 4));
    assert_eq!(EqPolynomial::compute_factored_lens(8), (4, 4));
    assert_eq!(EqPolynomial::compute_factored_lens(0), (0, 0));
}

#[test]
fn eq_evaluate_values() {
    let eq = EqPolynomial::new(vec![s(4), s(3)]);
    // (4*1 + (1-4)*(1-1)) * (3*0 + (1-3)*(1-0)) = 4 * (-2)
    assert_eq!(eq.evaluate(&vec![s(1), s(0)]), s(MODULUS - 8));
    let table = eq.evals();
    assert_eq!(eq.evaluate(&vec![s(1), s(0)]), table[2]);
}

#[test]
fn constant_polynomial_evaluates_to_entry() {
    let poly = DensePolynomial::new(vec![s(42)]);
    assert_eq!(poly.get_num_vars(), 0);
    assert_eq!(poly.evaluate(&vec![]), s(42));
    assert_eq!(EqPolynomial::new(vec![]).evals(), vec![Scalar::one()]);
}

#[test]
fn binding_top_variables_matches_evaluation() {
    let z: Vec<Scalar> = (0..16).map(|i| s(i * i + 3)).collect();
    let r = random_point(4);
    let mut poly = DensePolynomial::new(z.clone());
    let expected = DensePolynomial::new(z).evaluate(&r);
    for ri in &r {
        poly.bound_poly_var_top(ri);
    }
    assert_eq!(poly.len(), 1);
    assert_eq!(poly.index(0), Some(expected));
}

#[test]
fn bind_top_and_bottom_values() {
    let z = vec![s(1), s(2), s(1), s(4)];
    let mut top = DensePolynomial::new(z.clone());
    top.bound_poly_var_top(&s(4));
    // z[0] + 4*(z[2]-z[0]) = 1, z[1] + 4*(z[3]-z[1]) = 10
    assert_eq!(top.len(), 2);
    assert_eq!(top.get_num_vars(), 1);
    assert_eq!(top.index(0), Some(s(1)));
    assert_eq!(top.index(1), Some(s(10)));
    top.bound_poly_var_top(&s(3));
    assert_eq!(top.index(0), Some(s(28)));

    let mut bot = DensePolynomial::new(z);
    bot.bound_poly_var_bot(&s(3));
    // z[0] + 3*(z[1]-z[0]) = 4, z[2] + 3*(z[3]-z[2]) = 10
    assert_eq!(bot.index(0), Some(s(4)));
    assert_eq!(bot.index(1), Some(s(10)));
    bot.bound_poly_var_bot(&s(4));
    assert_eq!(bot.index(0), Some(s(28)));
}

#[test]
fn merge_then_split_recovers_parts() {
    let a = DensePolynomial::new(vec![s(1), s(2), s(3), s(4)]);
    let b = DensePolynomial::new(vec![s(5), s(6), s(7), s(8)]);
    let m = DensePolynomial::merge(&vec![a.clone(), b.clone()]);
    assert_eq!(m.len(), 8);
    assert_eq!(m.get_num_vars(), 3);
    let (a2, b2) = m.split(4);
    for i in 0..4 {
        assert_eq!(a2.index(i), a.index(i));
        assert_eq!(b2.index(i), b.index(i));
    }
}

#[test]
fn merge_pads_with_zeros() {
    let a = DensePolynomial::new(vec![s(1), s(2)]);
    let b = DensePolynomial::new(vec![s(3)]);
    let m = DensePolynomial::merge(&vec![a, b]);
    assert_eq!(m.len(), 4);
    assert_eq!(m.index(2), Some(s(3)));
    assert_eq!(m.index(3), Some(Scalar::zero()));
    let e = DensePolynomial::merge(&vec![]);
    assert_eq!(e.len(), 1);
    assert_eq!(e.index(0), Some(Scalar::zero()));
}

#[test]
fn extend_appends_other_half() {
    let mut a = DensePolynomial::new(vec![s(1), s(2)]);
    let b = DensePolynomial::new(vec![s(3), s(4)]);
    a.extend(&b);
    assert_eq!(a.len(), 4);
    assert_eq!(a.get_num_vars(), 2);
    assert_eq!(a.index(3), Some(s(4)));
    // the new top variable selects `b`
    assert_eq!(a.evaluate(&vec![Scalar::one(), Scalar::zero()]), s(3));
}

#[test]
fn from_usize_and_index() {
    let p = DensePolynomial::from_usize(&vec![7, 8, 9, 10]);
    assert_eq!(p.index(1), Some(s(8)));
    assert_eq!(p.index(4), None);
    let c = p.clone();
    assert_eq!(c.index(3), Some(s(10)));
}

#[test]
fn identity_polynomial_value() {
    let id = IdentityPolynomial::new(3);
    // 4*1 + 2*0 + 1*1 = 5
    assert_eq!(id.evaluate(&vec![s(1), s(0), s(1)]), s(5));
    // 4*2 + 2*3 + 5 = 19
    assert_eq!(id.evaluate(&vec![s(2), s(3), s(5)]), s(19));
}

#[test]
fn scalar_arithmetic_wraps() {
    assert_eq!(s(3).sub(&s(5)), s(MODULUS - 2));
    assert_eq!(s(MODULUS - 1).add(&s(2)), s(1));
    assert_eq!(s(MODULUS - 1).mul(&s(MODULUS - 1)), Scalar::one());
    assert_eq!(s(MODULUS + 5), s(5));
    assert_eq!(s(5).to_u64(), 5);
}

#[test]
fn bytes_reduce_little_endian() {
    assert_eq!(scalar_from_bytes_wide(&vec![1, 2]), s(513));
    assert_eq!(scalar_from_bytes_wide(&vec![]), Scalar::zero());
}

#[test]
fn random_tape_moves_on() {
    let mut tape = RandomTape::new(b"proof").expect("entropy from the operating system");
    let a = tape.random_scalar(b"blind");
    let b = tape.random_scalar(b"blind");
    assert_ne!(a, b);
}

#[test]
fn commitment_gens_width() {
    assert_eq!(PolyCommitmentGens::new(12, b"test-two").gens, 64);
    assert_eq!(PolyCommitmentGens::new(5, b"test-two").gens, 8);
}

#[test]
fn layouts_and_acceptance() {
    let poly = DensePolynomial::new((0..16).map(|i| s(i)).collect());
    let r = random_point(4);
    let t = prove_layout(&poly, &r, 4, 4).unwrap();
    assert_eq!((t.left_num_vars, t.right_num_vars), (2, 2));
    assert_eq!(t.outer, EqPolynomial::new(r[..2].to_vec()).evals());
    assert!(prove_layout(&poly, &r, 3, 4).is_none());
    assert!(prove_layout(&poly, &r, 4, 8).is_none());
    assert!(prove_layout(&poly, &r[..3].to_vec(), 4, 2).is_none());
    let v = verify_layout(2, 2, &r, 4).unwrap();
    assert_eq!(v.inner, EqPolynomial::new(r[2..].to_vec()).evals());
    assert!(matches!(verify_layout(1, 2, &r, 4), Err(ProofVerifyError::InternalError)));
    assert!(verify_layout(2, 2, &r, 2).is_err());
    assert_eq!(check_evaluation(&s(3), &s(3)), Ok(()));
    assert_eq!(check_evaluation(&s(3), &s(4)), Err(ProofVerifyError::InternalError));
}

#[test]
fn row_column_recombination_matches_evaluation() {
    // 2 rows of 4 entries: L weighs the rows, R the columns
    let z: Vec<Scalar> = (0..8).map(|i| s(3 * i + 1)).collect();
    let r = random_point(3);
    let eval = DensePolynomial::new(z.clone()).evaluate(&r);
    let l = EqPolynomial::new(r[..1].to_vec()).evals();
    let rr = EqPolynomial::new(r[1..].to_vec()).evals();
    let mut acc = Scalar::zero();
    for i in 0..2 {
        let mut row = Scalar::zero();
        for j in 0..4 {
            row = row.add(&rr[j].mul(&z[i * 4 + j]));
        }
        acc = acc.add(&l[i].mul(&row));
    }
    assert_eq!(acc, eval);
}

#[test]
fn word_bytes_little_endian() {
    assert_eq!(le_bytes(0x0102), vec![2, 1, 0, 0, 0, 0, 0, 0]);
    assert_eq!(le_bytes(u64::MAX), vec![255; 8]);
    assert_eq!(scalar_from_bytes_wide(&le_bytes(12345)), s(12345));
}

#[test]
fn identity_polynomial_long_point() {
    let mut r = vec![Scalar::zero(); 70];
    r[69] = s(5);
    r[68] = s(1);
    // 2*1 + 1*5
    assert_eq!(IdentityPolynomial::new(70).evaluate(&r), s(7));
    let mut top = vec![Scalar::zero(); 70];
    top[6] = Scalar::one();
    // 2^63 reduced modulo the field order
    let expected = s(1u64 << 63);
    assert_eq!(IdentityPolynomial::new(70).evaluate(&top), expected);
}
