use folding_core::field::{Fp, MODULUS};
use folding_core::mvpoly::Poly;

fn fp(v: u64) -> Fp {
    Fp::new(v)
}

fn point(vs: &[u64]) -> Vec<Fp> {
    vs.iter().map(|v| fp(*v)).collect()
}

/// `p = x_1^2 + x_2` over two variables with degree bound two.
fn sample_poly() -> Poly {
    let mut p = Poly::new(2, 2);
    p.add_monomial(vec![2, 0], fp(1));
    p.add_monomial(vec![0, 1], fp(1));
    p
}

/// Evaluates `sum_k r^k * t_k` over the full coefficient table
/// `t_0 .. t_d`.
fn power_sum(coeffs: &[Fp], r: Fp) -> Fp {
    let mut acc = Fp::zero();
    for (k, c) in coeffs.iter().enumerate() {
        acc = acc.add(r.pow(k).mul(*c));
    }
    acc
}

/// The combined point `e1 + r * e2`.
fn combine(e1: &[Fp], e2: &[Fp], r: Fp) -> Vec<Fp> {
    e1.iter().zip(e2.iter()).map(|(a, b)| a.add(r.mul(*b))).collect()
}

#[test]
fn cross_terms_size_is_degree_minus_one() {
    let p = sample_poly();
    let terms = p.compute_cross_terms(&point(&[1, 0]), &point(&[0, 1]), fp(1), fp(1));
    assert_eq!(terms.len(), 1);
    assert!(terms.contains_key(&1));
    assert!(!terms.contains_key(&0));
    assert!(!terms.contains_key(&2));
}

#[test]
fn cross_terms_repeated_instance() {
    // folding an instance with itself: the middle coefficient of
    // ((1 + r)^2 + 0) is two
    let p = sample_poly();
    let terms = p.compute_cross_terms(&point(&[1, 0]), &point(&[1, 0]), fp(1), fp(1));
    assert_eq!(terms.len(), 1);
    assert_eq!(terms.get(&1).unwrap().v, 2);
}

#[test]
fn cross_terms_satisfy_the_defining_identity() {
    let p = sample_poly();
    let e1 = point(&[1, 0]);
    let e2 = point(&[0, 1]);
    let (u1, u2) = (fp(1), fp(1));
    let terms = p.compute_cross_terms(&e1, &e2, u1, u2);
    let t0 = p.homogeneous_eval(&e1, u1);
    let t2 = p.homogeneous_eval(&e2, u2);
    assert_eq!(t0.v, 1);
    assert_eq!(t2.v, 1);
    let table = vec![t0, *terms.get(&1).unwrap(), t2];
    for r in [0u64, 1, 2, 17, 1234567] {
        let r = fp(r);
        let folded = p.homogeneous_eval(&combine(&e1, &e2, r), u1.add(r.mul(u2)));
        assert_eq!(power_sum(&table, r).v, folded.v);
    }
}

#[test]
fn cross_terms_high_degree_random_polynomial() {
    let p = Poly::random(3, 4, 7, None);
    let e1 = point(&[3, 1, 4]);
    let e2 = point(&[2, 7, 1]);
    let (u1, u2) = (fp(9), fp(11));
    let terms = p.compute_cross_terms(&e1, &e2, u1, u2);
    assert_eq!(terms.len(), 3);
    let mut table = vec![p.homogeneous_eval(&e1, u1)];
    for k in 1..4 {
        table.push(*terms.get(&k).unwrap());
    }
    table.push(p.homogeneous_eval(&e2, u2));
    for r in [1u64, 5, 99, MODULUS - 1] {
        let r = fp(r);
        let folded = p.homogeneous_eval(&combine(&e1, &e2, r), u1.add(r.mul(u2)));
        assert_eq!(power_sum(&table, r).v, folded.v);
    }
}
