use folding_core::field::{Fp, MODULUS};
use folding_core::mvpoly::Poly;

fn fp(v: u64) -> Fp {
    Fp::new(v)
}

fn point(vs: &[u64]) -> Vec<Fp> {
    vs.iter().map(|v| fp(*v)).collect()
}

/// `p = x_1^2 + x_2` over two variables with degree bound two.
fn sample_poly() -> Poly {
    let mut p = Poly::new(2, 2);
    p.add_monomial(vec![2, 0], fp(1));
    p.add_monomial(vec![0, 1], fp(1));
    p
}

#[test]
fn field_operations() {
    assert_eq!(fp(3).add(fp(4)).v, 7);
    assert_eq!(fp(3).mul(fp(4)).v, 12);
    assert_eq!(fp(3).neg().v, MODULUS - 3);
    assert_eq!(fp(3).add(fp(3).neg()).v, 0);
    assert_eq!(fp(5).sub(fp(7)).v, MODULUS - 2);
    assert_eq!(fp(6).double().v, 12);
    assert_eq!(fp(2).pow(10).v, 1024);
    assert_eq!(fp(MODULUS).v, 0);
    assert_eq!(Fp::zero().v, 0);
    assert_eq!(Fp::one().v, 1);
}

#[test]
fn eval_degree_two() {
    let p = sample_poly();
    assert_eq!(p.eval(&point(&[2, 3])).v, 7);
}

#[test]
fn sample_poly_is_not_homogeneous() {
    let p = sample_poly();
    assert!(!p.is_homogeneous());
}

#[test]
fn homogeneous_eval_with_scalar() {
    let p = sample_poly();
    assert_eq!(p.homogeneous_eval(&point(&[2, 3]), fp(5)).v, 19);
}

#[test]
fn homogeneous_eval_at_one_is_plain_eval() {
    let p = sample_poly();
    let x = point(&[11, 23]);
    assert_eq!(p.homogeneous_eval(&x, fp(1)).v, p.eval(&x).v);
}

#[test]
fn homogeneous_polynomial_detected() {
    let mut p = Poly::new(2, 2);
    p.add_monomial(vec![2, 0], fp(3));
    p.add_monomial(vec![1, 1], fp(4));
    assert!(p.is_homogeneous());
    p.add_monomial(vec![0, 1], fp(1));
    assert!(!p.is_homogeneous());
}

#[test]
fn zero_polynomial_edge_cases() {
    let p = Poly::new(3, 4);
    assert_eq!(p.degree(), 0);
    assert!(p.is_constant());
    assert!(p.is_homogeneous() == true || p.terms.is_empty());
    assert_eq!(p.eval(&point(&[1, 2, 3])).v, 0);
}

#[test]
fn add_monomial_accumulates() {
    let mut p = Poly::new(2, 3);
    p.add_monomial(vec![1, 1], fp(5));
    p.add_monomial(vec![1, 1], fp(6));
    assert_eq!(p.get_coefficient(&vec![1, 1]).v, 11);
    assert_eq!(p.terms.len(), 1);
}

#[test]
fn add_monomial_cancellation_prunes() {
    let mut p = Poly::new(2, 3);
    p.add_monomial(vec![1, 0], fp(5));
    p.add_monomial(vec![1, 0], fp(5).neg());
    assert!(p.terms.is_empty());
    assert_eq!(p.get_coefficient(&vec![1, 0]).v, 0);
}

#[test]
fn modify_monomial_overwrites_and_prunes() {
    let mut p = Poly::new(2, 3);
    p.add_monomial(vec![0, 2], fp(9));
    p.modify_monomial(vec![0, 2], fp(4));
    assert_eq!(p.get_coefficient(&vec![0, 2]).v, 4);
    p.modify_monomial(vec![0, 2], fp(0));
    assert!(p.terms.is_empty());
}

#[test]
fn canonical_form_no_zero_coefficients() {
    let mut p = Poly::new(3, 4);
    p.add_monomial(vec![1, 0, 0], fp(2));
    p.add_monomial(vec![0, 1, 0], fp(3));
    p.add_monomial(vec![1, 0, 0], fp(2).neg());
    p.modify_monomial(vec![0, 0, 2], fp(7));
    p.modify_monomial(vec![0, 0, 2], fp(0));
    p.add_monomial(vec![0, 1, 0], fp(1));
    for (_, c) in p.terms.iter() {
        assert_ne!(c.v, 0);
    }
    assert_eq!(p.terms.len(), 1);
}

#[test]
fn arithmetic_matches_pointwise() {
    let mut a = Poly::new(2, 4);
    a.add_monomial(vec![1, 0], fp(3));
    a.add_monomial(vec![0, 2], fp(2));
    let mut b = Poly::new(2, 4);
    b.add_monomial(vec![1, 0], fp(4));
    b.add_monomial(vec![1, 1], fp(5));
    let x = point(&[2, 3]);
    let av = a.eval(&x).v;
    let bv = b.eval(&x).v;
    assert_eq!(a.add(&b).eval(&x).v, (av + bv) % MODULUS);
    assert_eq!(a.sub(&b).eval(&x).v, (av + MODULUS - bv) % MODULUS);
    assert_eq!(a.mul(&b).eval(&x).v, (av * bv) % MODULUS);
    assert_eq!(a.neg().eval(&x).v, (MODULUS - av) % MODULUS);
    assert_eq!(a.double().eval(&x).v, (2 * av) % MODULUS);
    assert_eq!(a.mul_by_scalar(fp(7)).eval(&x).v, (7 * av) % MODULUS);
}

#[test]
fn multiplication_degree_within_bound() {
    let mut a = Poly::new(2, 4);
    a.add_monomial(vec![2, 0], fp(1));
    let mut b = Poly::new(2, 4);
    b.add_monomial(vec![1, 1], fp(1));
    let c = a.mul(&b);
    assert_eq!(c.degree(), 4);
    assert_eq!(c.get_coefficient(&vec![3, 1]).v, 1);
}

#[test]
fn constant_and_variable_constructors() {
    let c = Poly::constant(3, 2, fp(9));
    assert!(c.is_constant());
    assert_eq!(c.eval(&point(&[5, 6, 7])).v, 9);
    let v = Poly::from_variable(3, 2, 1);
    assert_eq!(v.eval(&point(&[5, 6, 7])).v, 6);
    assert_eq!(v.degree(), 1);
}

#[test]
fn multilinear_check() {
    let mut p = Poly::new(2, 3);
    p.add_monomial(vec![1, 1], fp(2));
    assert!(p.is_multilinear());
    p.add_monomial(vec![2, 0], fp(1));
    assert!(!p.is_multilinear());
}

#[test]
fn random_respects_degree_bound() {
    let p = Poly::random(2, 3, 42, None);
    assert!(p.degree() <= 3);
    let q = Poly::random(2, 3, 42, Some(1));
    assert!(q.degree() <= 1);
}

#[test]
fn random_is_deterministic_in_the_seed() {
    let p = Poly::random(2, 3, 42, None);
    let q = Poly::random(2, 3, 42, None);
    assert_eq!(p.terms.len(), q.terms.len());
    for (e, c) in p.terms.iter() {
        assert_eq!(q.get_coefficient(e).v, c.v);
    }
}

#[test]
fn ring_operations_combine_coefficients() {
    let mut a = Poly::new(2, 3);
    a.add_monomial(vec![1, 0], fp(3));
    a.add_monomial(vec![0, 2], fp(2));
    let mut b = Poly::new(2, 3);
    b.add_monomial(vec![1, 0], fp(4));
    let s = a.add(&b);
    assert_eq!(s.get_coefficient(&vec![1, 0]).v, 7);
    assert_eq!(s.get_coefficient(&vec![0, 2]).v, 2);
    let d = a.sub(&b);
    assert_eq!(d.get_coefficient(&vec![1, 0]).v, MODULUS - 1);
    let m = a.mul_by_scalar(fp(10));
    assert_eq!(m.get_coefficient(&vec![0, 2]).v, 20);
    let n = a.neg();
    assert_eq!(n.get_coefficient(&vec![1, 0]).v, MODULUS - 3);
}
