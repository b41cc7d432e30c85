//! The cross-term algorithm of the folding scheme.
//!
//! Folding two constraint instances `(eval1, u1)` and `(eval2, u2)` with a
//! challenge `r` evaluates the degree-`d` homogenization at the combined
//! point `eval1 + r * eval2` with scalar `u1 + r * u2`.  That value is a
//! degree-`d` polynomial `T(r) = sum_k r^k * T_k`; `T_0` and `T_d` are the
//! two instances' own homogeneous evaluations, and the inner coefficients
//! `T_1 .. T_(d-1)` are the cross-terms the prover must supply.
//!
//! Each monomial contributes the product of the binomials
//! `(eval1_i + r * eval2_i)^(e_i)` and `(u1 + r * u2)^(d - k)`; the module
//! represents those univariate polynomials in `r` by their coefficient
//! sequences ([`binom_seq`], composed with [`conv`]), sums them over the
//! monomials ([`cross_from`]), and proves the defining identity
//! ([`lemma_cross_term_identity`]).

use crate::field::{
    fadd, fmul, fp_seq_wf, fp_vals, fpow, in_fp, lemma_fadd_in_fp, lemma_fadd_zero,
    lemma_fmul_assoc, lemma_fmul_comm, lemma_fmul_distrib, lemma_fmul_in_fp, lemma_fmul_one,
    lemma_fmul_zero, Fp,
};
use crate::mvpoly::{
    homog_eval, homog_term_val, int_max, mono_eval, sum_exps, lemma_sum_exps_nonneg, point_wf,
    Poly, Term,
};
use vstd::arithmetic::div_mod::lemma_add_mod_noop;
use vstd::prelude::*;

verus! {

broadcast use vstd::std_specs::hash::group_hash_axioms;

// ------------------------------------------------------------------
// Coefficient sequences of polynomials in the challenge variable.
// ------------------------------------------------------------------
/// The entry at `k`, reading absent positions as zero.
pub open spec fn at0(s: Seq<int>, k: int) -> int {
    if 0 <= k < s.len() {
        s[k]
    } else {
        0
    }
}

/// Pointwise field sum of two coefficient sequences, padded to the longer
/// length.
pub open spec fn seq_fadd(a: Seq<int>, b: Seq<int>) -> Seq<int> {
    Seq::new(int_max(a.len() as int, b.len() as int) as nat, |k: int| fadd(at0(a, k), at0(b, k)))
}

/// A coefficient sequence scaled by a field element.
pub open spec fn scale(c: int, s: Seq<int>) -> Seq<int> {
    Seq::new(s.len(), |k: int| fmul(c, s[k]))
}

/// A coefficient sequence multiplied by the variable: a zero is prepended.
pub open spec fn shift1(s: Seq<int>) -> Seq<int> {
    Seq::new(s.len() + 1, |k: int| if k == 0 {
        0int
    } else {
        s[k - 1]
    })
}

/// The convolution of two coefficient sequences: the coefficients of the
/// product polynomial.
pub open spec fn conv(p: Seq<int>, q: Seq<int>) -> Seq<int>
    decreases p.len(),
{
    if p.len() == 0 {
        Seq::empty()
    } else {
        seq_fadd(scale(p[0], q), shift1(conv(p.drop_first(), q)))
    }
}

/// The value of the polynomial with coefficient sequence `s` at `r`
/// (Horner form).
pub open spec fn rpoly_eval(s: Seq<int>, r: int) -> int
    decreases s.len(),
{
    if s.len() == 0 {
        0
    } else {
        fadd(s[0], fmul(r, rpoly_eval(s.drop_first(), r)))
    }
}

/// The coefficient sequence of `(a + r * b)^e` as a polynomial in `r`.
pub open spec fn binom_seq(a: int, b: int, e: nat) -> Seq<int>
    decreases e,
{
    if e == 0 {
        seq![1int]
    } else {
        conv(binom_seq(a, b, (e - 1) as nat), seq![a, b])
    }
}

/// The all-zero coefficient sequence of the given length.
pub open spec fn zero_seq(len: int) -> Seq<int> {
    Seq::new(len as nat, |k: int| 0int)
}

/// The coefficient sequence, in `r`, of the monomial factors from index `i`
/// on: the product of `(e1_j + r * e2_j)^(exp_j)` for `j >= i`.
pub open spec fn factors_from(exp: Seq<usize>, e1: Seq<int>, e2: Seq<int>, i: int) -> Seq<int>
    decreases exp.len() - i,
{
    if i < 0 || i >= exp.len() {
        seq![1int]
    } else {
        conv(binom_seq(e1[i], e2[i], exp[i] as nat), factors_from(exp, e1, e2, i + 1))
    }
}

/// The full coefficient sequence, in `r`, contributed by one stored term:
/// its coefficient times its monomial factors times the homogenizing factor
/// `(u1 + r * u2)^(d - k)`.
pub open spec fn term_r_poly(t: Term, e1: Seq<int>, e2: Seq<int>, u1: int, u2: int, d: int) -> Seq<
    int,
> {
    scale(
        t.1@,
        conv(factors_from(t.0@, e1, e2, 0), binom_seq(u1, u2, (d - sum_exps(t.0@)) as nat)),
    )
}

/// The coefficient sequence of `T(r)`: the field sum, over the stored terms
/// from index `i` on, of each term's contribution.
pub open spec fn cross_from(
    ts: Seq<Term>,
    i: int,
    e1: Seq<int>,
    e2: Seq<int>,
    u1: int,
    u2: int,
    d: int,
) -> Seq<int>
    decreases ts.len() - i,
{
    if i < 0 || i >= ts.len() {
        zero_seq(d + 1)
    } else {
        seq_fadd(
            term_r_poly(ts[i], e1, e2, u1, u2, d),
            cross_from(ts, i + 1, e1, e2, u1, u2, d),
        )
    }
}

/// The combined evaluation point `eval1 + r * eval2`.
pub open spec fn combined(e1: Seq<int>, e2: Seq<int>, r: int) -> Seq<int> {
    Seq::new(e1.len(), |i: int| fadd(e1[i], fmul(r, e2[i])))
}

// ------------------------------------------------------------------
// Lengths.
// ------------------------------------------------------------------
/// The convolution of nonempty sequences has the degree-sum length.
pub proof fn lemma_conv_len(p: Seq<int>, q: Seq<int>)
    requires
        p.len() >= 1,
        q.len() >= 1,
    ensures
        conv(p, q).len() == p.len() + q.len() - 1,
    decreases p.len(),
{
    if p.len() == 1 {
        assert(conv(p.drop_first(), q) =~= Seq::<int>::empty());
    } else {
        lemma_conv_len(p.drop_first(), q);
    }
}

/// The binomial power sequence has one more entry than the exponent.
pub proof fn lemma_binom_len(a: int, b: int, e: nat)
    ensures
        binom_seq(a, b, e).len() == e + 1,
    decreases e,
{
    if e > 0 {
        lemma_binom_len(a, b, (e - 1) as nat);
        lemma_conv_len(binom_seq(a, b, (e - 1) as nat), seq![a, b]);
    }
}

/// The factors sequence has one more entry than the remaining total degree.
pub proof fn lemma_factors_len(exp: Seq<usize>, e1: Seq<int>, e2: Seq<int>, i: int)
    requires
        0 <= i <= exp.len(),
    ensures
        factors_from(exp, e1, e2, i).len() == sum_exps(exp.skip(i)) + 1,
    decreases exp.len() - i,
{
    if i == exp.len() {
        assert(exp.skip(i) =~= Seq::<usize>::empty());
    } else {
        lemma_factors_len(exp, e1, e2, i + 1);
        lemma_binom_len(e1[i], e2[i], exp[i] as nat);
        lemma_sum_exps_nonneg(exp.skip(i + 1));
        lemma_conv_len(binom_seq(e1[i], e2[i], exp[i] as nat), factors_from(exp, e1, e2, i + 1));
        assert(exp.skip(i)[0] == exp[i]);
        assert(exp.skip(i).drop_first() =~= exp.skip(i + 1));
    }
}

/// One term's contribution has length `d + 1`.
pub proof fn lemma_term_r_poly_len(t: Term, e1: Seq<int>, e2: Seq<int>, u1: int, u2: int, d: int)
    requires
        0 <= sum_exps(t.0@) <= d,
    ensures
        term_r_poly(t, e1, e2, u1, u2, d).len() == d + 1,
{
    assert(t.0@.skip(0) =~= t.0@);
    lemma_factors_len(t.0@, e1, e2, 0);
    lemma_binom_len(u1, u2, (d - sum_exps(t.0@)) as nat);
    lemma_conv_len(
        factors_from(t.0@, e1, e2, 0),
        binom_seq(u1, u2, (d - sum_exps(t.0@)) as nat),
    );
}

/// The cross-term coefficient sequence has length `d + 1`.
pub proof fn lemma_cross_len(
    ts: Seq<Term>,
    i: int,
    e1: Seq<int>,
    e2: Seq<int>,
    u1: int,
    u2: int,
    d: int,
)
    requires
        0 <= i <= ts.len(),
        d >= 0,
        forall|p: int| 0 <= p < ts.len() ==> 0 <= sum_exps((#[trigger] ts[p]).0@) <= d,
    ensures
        cross_from(ts, i, e1, e2, u1, u2, d).len() == d + 1,
    decreases ts.len() - i,
{
    if i < ts.len() {
        lemma_cross_len(ts, i + 1, e1, e2, u1, u2, d);
        lemma_term_r_poly_len(ts[i], e1, e2, u1, u2, d);
    }
}

// ------------------------------------------------------------------
// Evaluation homomorphisms.
// ------------------------------------------------------------------
/// Four summands rebracket.
pub proof fn lemma_fadd_four(a: int, b: int, c: int, d: int)
    ensures
        fadd(fadd(a, b), fadd(c, d)) == fadd(fadd(a, c), fadd(b, d)),
{
    let m = crate::field::modulus();
    lemma_add_mod_noop(a + b, c + d, m);
    lemma_add_mod_noop(a + c, b + d, m);
}

/// Evaluation distributes over the pointwise sum.
pub proof fn lemma_rpoly_eval_fadd(a: Seq<int>, b: Seq<int>, r: int)
    ensures
        rpoly_eval(seq_fadd(a, b), r) == fadd(rpoly_eval(a, r), rpoly_eval(b, r)),
    decreases a.len() + b.len(),
{
    let s = seq_fadd(a, b);
    if a.len() == 0 && b.len() == 0 {
        assert(s =~= Seq::<int>::empty());
    } else {
        assert(s.len() >= 1);
        assert(s[0] == fadd(at0(a, 0), at0(b, 0)));
        let ad = if a.len() == 0 { a } else { a.drop_first() };
        let bd = if b.len() == 0 { b } else { b.drop_first() };
        assert(s.drop_first() =~= seq_fadd(ad, bd)) by {
            assert forall|k: int| 0 <= k < s.drop_first().len() implies s.drop_first()[k]
                == seq_fadd(ad, bd)[k] by {
                assert(s.drop_first()[k] == s[k + 1]);
                assert(at0(a, k + 1) == at0(ad, k));
                assert(at0(b, k + 1) == at0(bd, k));
            }
        }
        lemma_rpoly_eval_fadd(ad, bd, r);
        let ea = rpoly_eval(ad, r);
        let eb = rpoly_eval(bd, r);
        lemma_fmul_distrib(r, ea, eb);
        lemma_fadd_four(at0(a, 0), at0(b, 0), fmul(r, ea), fmul(r, eb));
        // both head entries and both tails line up with the two evaluations
        if a.len() == 0 {
            assert(rpoly_eval(a, r) == 0);
            assert(ea == 0);
            lemma_fmul_zero(r);
            lemma_rpoly_eval_in_fp(b, r);
            lemma_fadd_in_fp(at0(b, 0), fmul(r, eb));
            lemma_fadd_zero(fadd(at0(b, 0), fmul(r, eb)));
            assert(rpoly_eval(b, r) == fadd(b[0], fmul(r, eb)));
        } else if b.len() == 0 {
            assert(rpoly_eval(b, r) == 0);
            assert(eb == 0);
            lemma_fmul_zero(r);
            lemma_rpoly_eval_in_fp(a, r);
            lemma_fadd_in_fp(at0(a, 0), fmul(r, ea));
            lemma_fadd_zero(fadd(at0(a, 0), fmul(r, ea)));
            assert(rpoly_eval(a, r) == fadd(a[0], fmul(r, ea)));
        } else {
            assert(rpoly_eval(a, r) == fadd(a[0], fmul(r, ea)));
            assert(rpoly_eval(b, r) == fadd(b[0], fmul(r, eb)));
        }
    }
}

/// Evaluations are reduced residues.
pub proof fn lemma_rpoly_eval_in_fp(s: Seq<int>, r: int)
    ensures
        in_fp(rpoly_eval(s, r)),
    decreases s.len(),
{
    if s.len() > 0 {
        lemma_fadd_in_fp(s[0], fmul(r, rpoly_eval(s.drop_first(), r)));
    }
}

/// Evaluation commutes with scaling.
pub proof fn lemma_rpoly_eval_scale(c: int, s: Seq<int>, r: int)
    ensures
        rpoly_eval(scale(c, s), r) == fmul(c, rpoly_eval(s, r)),
    decreases s.len(),
{
    let sc = scale(c, s);
    if s.len() == 0 {
        assert(sc =~= Seq::<int>::empty());
        lemma_fmul_zero(c);
    } else {
        assert(sc.len() == s.len());
        assert(sc[0] == fmul(c, s[0]));
        assert(sc.drop_first() =~= scale(c, s.drop_first()));
        lemma_rpoly_eval_scale(c, s.drop_first(), r);
        let es = rpoly_eval(s.drop_first(), r);
        lemma_fmul_distrib(c, s[0], fmul(r, es));
        // c * (r * es) == r * (c * es)
        lemma_fmul_assoc(c, r, es);
        lemma_fmul_comm(c, r);
        lemma_fmul_assoc(r, c, es);
    }
}

/// Evaluation of a shifted sequence multiplies by the variable.
pub proof fn lemma_rpoly_eval_shift1(s: Seq<int>, r: int)
    ensures
        rpoly_eval(shift1(s), r) == fmul(r, rpoly_eval(s, r)),
{
    let sh = shift1(s);
    assert(sh.len() == s.len() + 1);
    assert(sh[0] == 0);
    assert(sh.drop_first() =~= s);
    lemma_rpoly_eval_in_fp(s, r);
    lemma_fmul_in_fp(r, rpoly_eval(s, r));
    lemma_fadd_zero(fmul(r, rpoly_eval(s, r)));
}

/// Evaluation turns convolution into the field product.
pub proof fn lemma_rpoly_eval_conv(p: Seq<int>, q: Seq<int>, r: int)
    ensures
        rpoly_eval(conv(p, q), r) == fmul(rpoly_eval(p, r), rpoly_eval(q, r)),
    decreases p.len(),
{
    if p.len() == 0 {
        lemma_fmul_zero(rpoly_eval(q, r));
    } else {
        lemma_rpoly_eval_fadd(scale(p[0], q), shift1(conv(p.drop_first(), q)), r);
        lemma_rpoly_eval_scale(p[0], q, r);
        lemma_rpoly_eval_shift1(conv(p.drop_first(), q), r);
        lemma_rpoly_eval_conv(p.drop_first(), q, r);
        let eq = rpoly_eval(q, r);
        let ep = rpoly_eval(p.drop_first(), r);
        // r * (ep * eq) == (r * ep) * eq
        lemma_fmul_assoc(r, ep, eq);
        // (p0 + r * ep) * eq distributes
        lemma_fmul_comm(fadd(p[0], fmul(r, ep)), eq);
        lemma_fmul_distrib(eq, p[0], fmul(r, ep));
        lemma_fmul_comm(eq, p[0]);
        lemma_fmul_comm(eq, fmul(r, ep));
    }
}

/// The binomial power sequence evaluates to the binomial power.
pub proof fn lemma_rpoly_eval_binom(a: int, b: int, e: nat, r: int)
    requires
        in_fp(b),
    ensures
        rpoly_eval(binom_seq(a, b, e), r) == fpow(fadd(a, fmul(r, b)), e),
    decreases e,
{
    if e == 0 {
        let s = binom_seq(a, b, 0);
        assert(s.len() == 1 && s[0] == 1);
        assert(s.drop_first() =~= Seq::<int>::empty());
        assert(rpoly_eval(s.drop_first(), r) == 0);
        assert(rpoly_eval(s, r) == fadd(s[0], fmul(r, rpoly_eval(s.drop_first(), r))));
        lemma_fmul_zero(r);
        lemma_fadd_zero(1);
        assert(rpoly_eval(s, r) == 1);
        assert(fpow(fadd(a, fmul(r, b)), 0) == 1);
    } else {
        lemma_rpoly_eval_binom(a, b, (e - 1) as nat, r);
        lemma_rpoly_eval_conv(binom_seq(a, b, (e - 1) as nat), seq![a, b], r);
        // the pair [a, b] evaluates to a + r * b
        let ab = seq![a, b];
        assert(ab[0] == a && ab.len() == 2);
        assert(ab.drop_first() =~= seq![b]);
        let sb = seq![b];
        assert(sb[0] == b && sb.len() == 1);
        assert(sb.drop_first() =~= Seq::<int>::empty());
        assert(rpoly_eval(sb.drop_first(), r) == 0);
        assert(rpoly_eval(sb, r) == fadd(sb[0], fmul(r, rpoly_eval(sb.drop_first(), r))));
        lemma_fmul_zero(r);
        lemma_fadd_zero(b);
        assert(rpoly_eval(sb, r) == b);
        assert(rpoly_eval(ab, r) == fadd(ab[0], fmul(r, rpoly_eval(ab.drop_first(), r))));
        assert(rpoly_eval(ab.drop_first(), r) == b);
        assert(rpoly_eval(ab, r) == fadd(a, fmul(r, b)));
        let base = fadd(a, fmul(r, b));
        lemma_fmul_comm(fpow(base, (e - 1) as nat), base);
        assert(fpow(base, e) == fmul(base, fpow(base, (e - 1) as nat)));
    }
}

/// The factors sequence evaluates to the monomial value at the combined
/// point.
pub proof fn lemma_rpoly_eval_factors(
    exp: Seq<usize>,
    e1: Seq<int>,
    e2: Seq<int>,
    i: int,
    r: int,
)
    requires
        0 <= i <= exp.len(),
        e1.len() == exp.len(),
        e2.len() == exp.len(),
        forall|j: int| 0 <= j < e2.len() ==> in_fp(#[trigger] e2[j]),
    ensures
        rpoly_eval(factors_from(exp, e1, e2, i), r) == mono_eval(
            exp.skip(i),
            combined(e1, e2, r).skip(i),
        ),
    decreases exp.len() - i,
{
    let cx = combined(e1, e2, r);
    if i == exp.len() {
        assert(exp.skip(i) =~= Seq::<usize>::empty());
        let s = factors_from(exp, e1, e2, i);
        assert(s.len() == 1 && s[0] == 1);
        assert(s.drop_first() =~= Seq::<int>::empty());
        assert(rpoly_eval(s.drop_first(), r) == 0);
        assert(rpoly_eval(s, r) == fadd(s[0], fmul(r, rpoly_eval(s.drop_first(), r))));
        lemma_fmul_zero(r);
        lemma_fadd_zero(1);
        assert(mono_eval(exp.skip(i), cx.skip(i)) == 1);
    } else {
        lemma_rpoly_eval_factors(exp, e1, e2, i + 1, r);
        lemma_rpoly_eval_conv(
            binom_seq(e1[i], e2[i], exp[i] as nat),
            factors_from(exp, e1, e2, i + 1),
            r,
        );
        lemma_rpoly_eval_binom(e1[i], e2[i], exp[i] as nat, r);
        assert(exp.skip(i)[0] == exp[i]);
        assert(exp.skip(i).drop_first() =~= exp.skip(i + 1));
        assert(cx.skip(i)[0] == cx[i]);
        assert(cx.skip(i).drop_first() =~= cx.skip(i + 1));
        assert(cx[i] == fadd(e1[i], fmul(r, e2[i])));
        assert(mono_eval(exp.skip(i), cx.skip(i)) == fmul(
            fpow(cx.skip(i)[0], exp.skip(i)[0] as nat),
            mono_eval(exp.skip(i).drop_first(), cx.skip(i).drop_first()),
        ));
    }
}

/// The full cross-term sequence evaluates to the homogeneous evaluation at
/// the combined point with the combined scalar.
pub proof fn lemma_rpoly_eval_cross(
    ts: Seq<Term>,
    i: int,
    e1: Seq<int>,
    e2: Seq<int>,
    u1: int,
    u2: int,
    d: int,
    r: int,
)
    requires
        0 <= i <= ts.len(),
        d >= 0,
        forall|p: int| 0 <= p < ts.len() ==> {
            &&& (#[trigger] ts[p]).0@.len() == e1.len()
            &&& 0 <= sum_exps(ts[p].0@) <= d
        },
        e1.len() == e2.len(),
        forall|j: int| 0 <= j < e2.len() ==> in_fp(#[trigger] e2[j]),
        in_fp(u2),
    ensures
        rpoly_eval(cross_from(ts, i, e1, e2, u1, u2, d), r) == homog_eval(
            ts.skip(i),
            combined(e1, e2, r),
            fadd(u1, fmul(r, u2)),
            d,
        ),
    decreases ts.len() - i,
{
    let cx = combined(e1, e2, r);
    let cu = fadd(u1, fmul(r, u2));
    if i == ts.len() {
        assert(ts.skip(i) =~= Seq::<Term>::empty());
        lemma_rpoly_eval_zero_seq(d + 1, r);
    } else {
        lemma_rpoly_eval_cross(ts, i + 1, e1, e2, u1, u2, d, r);
        let t = ts[i];
        lemma_rpoly_eval_fadd(
            term_r_poly(t, e1, e2, u1, u2, d),
            cross_from(ts, i + 1, e1, e2, u1, u2, d),
            r,
        );
        lemma_rpoly_eval_scale(
            t.1@,
            conv(factors_from(t.0@, e1, e2, 0), binom_seq(u1, u2, (d - sum_exps(t.0@)) as nat)),
            r,
        );
        lemma_rpoly_eval_conv(
            factors_from(t.0@, e1, e2, 0),
            binom_seq(u1, u2, (d - sum_exps(t.0@)) as nat),
            r,
        );
        lemma_rpoly_eval_factors(t.0@, e1, e2, 0, r);
        assert(t.0@.skip(0) =~= t.0@);
        assert(combined(e1, e2, r).skip(0) =~= cx);
        lemma_rpoly_eval_binom(u1, u2, (d - sum_exps(t.0@)) as nat, r);
        assert(rpoly_eval(term_r_poly(t, e1, e2, u1, u2, d), r) == homog_term_val(t, cx, cu, d));
        assert(ts.skip(i)[0] == t);
        assert(ts.skip(i).drop_first() =~= ts.skip(i + 1));
    }
}

/// The all-zero sequence evaluates to zero.
pub proof fn lemma_rpoly_eval_zero_seq(len: int, r: int)
    requires
        len >= 0,
    ensures
        rpoly_eval(zero_seq(len), r) == 0,
    decreases len,
{
    if len > 0 {
        let s = zero_seq(len);
        assert(s[0] == 0);
        assert(s.drop_first() =~= zero_seq(len - 1));
        lemma_rpoly_eval_zero_seq(len - 1, r);
        lemma_fmul_zero(r);
    } else {
        assert(zero_seq(len) =~= Seq::<int>::empty());
    }
}

// ------------------------------------------------------------------
// The endpoints of the cross-term sequence.
// ------------------------------------------------------------------
/// Entries of the cross-term sequence are reduced residues.
pub proof fn lemma_cross_entry_in_fp(
    ts: Seq<Term>,
    i: int,
    e1: Seq<int>,
    e2: Seq<int>,
    u1: int,
    u2: int,
    d: int,
    k: int,
)
    requires
        0 <= k < cross_from(ts, i, e1, e2, u1, u2, d).len(),
    ensures
        in_fp(cross_from(ts, i, e1, e2, u1, u2, d)[k]),
{
    if i < 0 || i >= ts.len() {
        assert(cross_from(ts, i, e1, e2, u1, u2, d)[k] == 0);
    } else {
        let a = term_r_poly(ts[i], e1, e2, u1, u2, d);
        let b = cross_from(ts, i + 1, e1, e2, u1, u2, d);
        assert(cross_from(ts, i, e1, e2, u1, u2, d)[k] == fadd(at0(a, k), at0(b, k)));
        lemma_fadd_in_fp(at0(a, k), at0(b, k));
    }
}

/// Evaluating a coefficient sequence at zero reads its constant entry.
pub proof fn lemma_rpoly_eval_at_zero(s: Seq<int>)
    requires
        s.len() >= 1,
        in_fp(s[0]),
    ensures
        rpoly_eval(s, 0) == s[0],
{
    lemma_rpoly_eval_in_fp(s.drop_first(), 0);
    lemma_fmul_zero(rpoly_eval(s.drop_first(), 0));
    lemma_fadd_zero(s[0]);
}

/// The last entry of a convolution is the product of the last entries.
pub proof fn lemma_conv_last(p: Seq<int>, q: Seq<int>)
    requires
        p.len() >= 1,
        q.len() >= 1,
    ensures
        conv(p, q)[p.len() + q.len() - 2] == fmul(p.last(), q.last()),
    decreases p.len(),
{
    let m = p.len() + q.len() - 2;
    let cv = conv(p, q);
    lemma_conv_len(p, q);
    if p.len() == 1 {
        assert(conv(p.drop_first(), q) =~= Seq::<int>::empty());
        let sh = shift1(conv(p.drop_first(), q));
        assert(sh.len() == 1 && sh[0] == 0);
        assert(cv[m] == fadd(at0(scale(p[0], q), m), at0(sh, m)));
        assert(at0(scale(p[0], q), m) == fmul(p[0], q[m]));
        assert(at0(sh, m) == if m == 0 {
            0int
        } else {
            0int
        });
        lemma_fmul_in_fp(p[0], q[m]);
        lemma_fadd_zero(fmul(p[0], q[m]));
    } else {
        lemma_conv_last(p.drop_first(), q);
        lemma_conv_len(p.drop_first(), q);
        let rest = conv(p.drop_first(), q);
        let sh = shift1(rest);
        assert(cv[m] == fadd(at0(scale(p[0], q), m), at0(sh, m)));
        assert(at0(scale(p[0], q), m) == 0);
        assert(sh[m] == rest[m - 1]);
        assert(rest[m - 1] == fmul(p.drop_first().last(), q.last()));
        assert(p.drop_first().last() == p.last());
        lemma_fmul_in_fp(p.last(), q.last());
        assert(fadd(0, fmul(p.last(), q.last())) == fmul(p.last(), q.last())) by {
            lemma_fadd_zero(fmul(p.last(), q.last()));
        }
    }
}

/// The leading entry of the binomial power sequence is the power of the
/// second operand.
pub proof fn lemma_binom_last(a: int, b: int, e: nat)
    ensures
        binom_seq(a, b, e)[e as int] == fpow(b, e),
    decreases e,
{
    lemma_binom_len(a, b, e);
    if e == 0 {
        assert(binom_seq(a, b, 0)[0] == 1);
    } else {
        lemma_binom_last(a, b, (e - 1) as nat);
        lemma_binom_len(a, b, (e - 1) as nat);
        lemma_conv_last(binom_seq(a, b, (e - 1) as nat), seq![a, b]);
        assert(seq![a, b].last() == b);
        assert(binom_seq(a, b, (e - 1) as nat).last() == fpow(b, (e - 1) as nat));
        lemma_fmul_comm(fpow(b, (e - 1) as nat), b);
        assert(fpow(b, e) == fmul(b, fpow(b, (e - 1) as nat)));
    }
}

/// The leading entry of the factors sequence is the monomial value at the
/// second instance's point.
pub proof fn lemma_factors_last(exp: Seq<usize>, e1: Seq<int>, e2: Seq<int>, i: int)
    requires
        0 <= i <= exp.len(),
        e1.len() == exp.len(),
        e2.len() == exp.len(),
    ensures
        factors_from(exp, e1, e2, i)[sum_exps(exp.skip(i))] == mono_eval(exp.skip(i), e2.skip(i)),
    decreases exp.len() - i,
{
    lemma_factors_len(exp, e1, e2, i);
    if i == exp.len() {
        assert(exp.skip(i) =~= Seq::<usize>::empty());
        assert(factors_from(exp, e1, e2, i)[0] == 1);
        assert(mono_eval(exp.skip(i), e2.skip(i)) == 1);
    } else {
        lemma_factors_last(exp, e1, e2, i + 1);
        lemma_factors_len(exp, e1, e2, i + 1);
        lemma_binom_len(e1[i], e2[i], exp[i] as nat);
        lemma_binom_last(e1[i], e2[i], exp[i] as nat);
        lemma_sum_exps_nonneg(exp.skip(i + 1));
        lemma_conv_last(
            binom_seq(e1[i], e2[i], exp[i] as nat),
            factors_from(exp, e1, e2, i + 1),
        );
        assert(exp.skip(i)[0] == exp[i]);
        assert(exp.skip(i).drop_first() =~= exp.skip(i + 1));
        assert(e2.skip(i)[0] == e2[i]);
        assert(e2.skip(i).drop_first() =~= e2.skip(i + 1));
        assert(mono_eval(exp.skip(i), e2.skip(i)) == fmul(
            fpow(e2[i], exp[i] as nat),
            mono_eval(exp.skip(i + 1), e2.skip(i + 1)),
        ));
    }
}

/// The leading entry of the cross-term sequence is the second instance's
/// homogeneous evaluation.
pub proof fn lemma_cross_last(
    ts: Seq<Term>,
    i: int,
    e1: Seq<int>,
    e2: Seq<int>,
    u1: int,
    u2: int,
    d: int,
)
    requires
        0 <= i <= ts.len(),
        d >= 0,
        forall|p: int| 0 <= p < ts.len() ==> {
            &&& (#[trigger] ts[p]).0@.len() == e1.len()
            &&& 0 <= sum_exps(ts[p].0@) <= d
        },
        e1.len() == e2.len(),
    ensures
        cross_from(ts, i, e1, e2, u1, u2, d)[d] == homog_eval(ts.skip(i), e2, u2, d),
    decreases ts.len() - i,
{
    lemma_cross_len(ts, i, e1, e2, u1, u2, d);
    if i == ts.len() {
        assert(ts.skip(i) =~= Seq::<Term>::empty());
        assert(cross_from(ts, i, e1, e2, u1, u2, d)[d] == 0);
    } else {
        lemma_cross_last(ts, i + 1, e1, e2, u1, u2, d);
        lemma_cross_len(ts, i + 1, e1, e2, u1, u2, d);
        let t = ts[i];
        let tp = term_r_poly(t, e1, e2, u1, u2, d);
        lemma_term_r_poly_len(t, e1, e2, u1, u2, d);
        assert(cross_from(ts, i, e1, e2, u1, u2, d)[d] == fadd(
            at0(tp, d),
            at0(cross_from(ts, i + 1, e1, e2, u1, u2, d), d),
        ));
        // the last entry of this term's contribution
        let fl = factors_from(t.0@, e1, e2, 0);
        let bu = binom_seq(u1, u2, (d - sum_exps(t.0@)) as nat);
        assert(t.0@.skip(0) =~= t.0@);
        lemma_factors_len(t.0@, e1, e2, 0);
        lemma_binom_len(u1, u2, (d - sum_exps(t.0@)) as nat);
        lemma_conv_len(fl, bu);
        lemma_conv_last(fl, bu);
        lemma_factors_last(t.0@, e1, e2, 0);
        lemma_binom_last(u1, u2, (d - sum_exps(t.0@)) as nat);
        assert(e2.skip(0) =~= e2);
        assert(fl.last() == mono_eval(t.0@, e2));
        assert(bu.last() == fpow(u2, (d - sum_exps(t.0@)) as nat));
        assert(tp[d] == fmul(t.1@, conv(fl, bu)[d]));
        assert(tp[d] == homog_term_val(t, e2, u2, d));
        assert(ts.skip(i)[0] == t);
        assert(ts.skip(i).drop_first() =~= ts.skip(i + 1));
    }
}

// ------------------------------------------------------------------
// The power-sum reading of an evaluation.
// ------------------------------------------------------------------
/// The sum `sum_k r^k * s[k]` from index `i` on.
pub open spec fn powsum_from(s: Seq<int>, r: int, i: int) -> int
    decreases s.len() - i,
{
    if i < 0 || i >= s.len() {
        0
    } else {
        fadd(fmul(fpow(r, i as nat), s[i]), powsum_from(s, r, i + 1))
    }
}

/// Dropping the head shifts the power sum by one power of `r`.
pub proof fn lemma_powsum_drop(s: Seq<int>, r: int, j: int)
    requires
        0 <= j,
        s.len() >= 1,
    ensures
        powsum_from(s, r, j + 1) == fmul(r, powsum_from(s.drop_first(), r, j)),
    decreases s.len() - j,
{
    if j + 1 >= s.len() {
        assert(powsum_from(s.drop_first(), r, j) == 0);
        lemma_fmul_zero(r);
    } else {
        lemma_powsum_drop(s, r, j + 1);
        assert(s.drop_first()[j] == s[j + 1]);
        let sd = s.drop_first();
        assert(powsum_from(sd, r, j) == fadd(
            fmul(fpow(r, j as nat), sd[j]),
            powsum_from(sd, r, j + 1),
        ));
        lemma_fmul_distrib(r, fmul(fpow(r, j as nat), sd[j]), powsum_from(sd, r, j + 1));
        lemma_fmul_assoc(r, fpow(r, j as nat), s[j + 1]);
        assert(fpow(r, (j + 1) as nat) == fmul(r, fpow(r, j as nat)));
        assert(fmul(fmul(r, fpow(r, j as nat)), s[j + 1]) == fmul(fpow(r, (j + 1) as nat), s[j + 1]))
            by {
            lemma_fmul_in_fp(r, fpow(r, j as nat));
            vstd::arithmetic::div_mod::lemma_mul_mod_noop_general(
                r * fpow(r, j as nat),
                s[j + 1],
                crate::field::modulus(),
            );
        }
    }
}

/// Horner evaluation equals the power sum, for reduced coefficients.
pub proof fn lemma_rpoly_eval_powsum(s: Seq<int>, r: int)
    requires
        forall|k: int| 0 <= k < s.len() ==> in_fp(#[trigger] s[k]),
    ensures
        rpoly_eval(s, r) == powsum_from(s, r, 0),
    decreases s.len(),
{
    if s.len() > 0 {
        assert forall|k: int| 0 <= k < s.drop_first().len() implies in_fp(
            #[trigger] s.drop_first()[k],
        ) by {
            assert(s.drop_first()[k] == s[k + 1]);
        }
        lemma_rpoly_eval_powsum(s.drop_first(), r);
        lemma_powsum_drop(s, r, 0);
        assert(powsum_from(s, r, 0) == fadd(fmul(fpow(r, 0), s[0]), powsum_from(s, r, 1)));
        lemma_fmul_one(s[0]);
        assert(fpow(r, 0) == 1);
    }
}

// ------------------------------------------------------------------
// The cross-term law and the executable algorithm.
// ------------------------------------------------------------------
/// The coefficient sequence `T_0 .. T_d` of a polynomial's fold expansion.
pub open spec fn cross_terms_spec(p: Poly, e1: Seq<int>, e2: Seq<int>, u1: int, u2: int) -> Seq<
    int,
> {
    cross_from(p.terms@, 0, e1, e2, u1, u2, p.d as int)
}

/// The cross-term identity.  For a well-formed polynomial `p`, reduced
/// points `e1, e2` and reduced scalars `u1, u2`, the coefficients
/// `T_0 .. T_d` of the fold expansion satisfy, for every challenge `r`:
/// `sum_k r^k * T_k` is the homogeneous evaluation of `p` at the combined
/// point `e1 + r * e2` with scalar `u1 + r * u2`; moreover `T_0` and `T_d`
/// are the two instances' own homogeneous evaluations.
pub proof fn lemma_cross_term_identity(
    p: Poly,
    e1: Seq<int>,
    e2: Seq<int>,
    u1: int,
    u2: int,
    r: int,
)
    requires
        p.wf(),
        point_wf(e1, p.n as int),
        point_wf(e2, p.n as int),
        in_fp(u1),
        in_fp(u2),
    ensures
        cross_terms_spec(p, e1, e2, u1, u2).len() == p.d + 1,
        powsum_from(cross_terms_spec(p, e1, e2, u1, u2), r, 0) == homog_eval(
            p.terms@,
            combined(e1, e2, r),
            fadd(u1, fmul(r, u2)),
            p.d as int,
        ),
        cross_terms_spec(p, e1, e2, u1, u2)[0] == homog_eval(p.terms@, e1, u1, p.d as int),
        cross_terms_spec(p, e1, e2, u1, u2)[p.d as int] == homog_eval(
            p.terms@,
            e2,
            u2,
            p.d as int,
        ),
{
    let ts = p.terms@;
    let d = p.d as int;
    let cr = cross_terms_spec(p, e1, e2, u1, u2);
    assert forall|q: int| 0 <= q < ts.len() implies {
        &&& (#[trigger] ts[q]).0@.len() == e1.len()
        &&& 0 <= sum_exps(ts[q].0@) <= d
    } by {
        lemma_sum_exps_nonneg(ts[q].0@);
    }
    lemma_cross_len(ts, 0, e1, e2, u1, u2, d);
    // the power-sum form equals the Horner form (entries are reduced)
    assert forall|k: int| 0 <= k < cr.len() implies in_fp(#[trigger] cr[k]) by {
        lemma_cross_entry_in_fp(ts, 0, e1, e2, u1, u2, d, k);
    }
    lemma_rpoly_eval_powsum(cr, r);
    lemma_rpoly_eval_cross(ts, 0, e1, e2, u1, u2, d, r);
    assert(ts.skip(0) =~= ts);
    // the constant entry: instantiate the identity at r == 0
    lemma_rpoly_eval_cross(ts, 0, e1, e2, u1, u2, d, 0);
    lemma_rpoly_eval_at_zero(cr);
    assert(combined(e1, e2, 0) =~= e1) by {
        assert forall|j: int| 0 <= j < e1.len() implies combined(e1, e2, 0)[j] == e1[j] by {
            lemma_fmul_zero(e2[j]);
            lemma_fadd_zero(e1[j]);
        }
    }
    assert(fadd(u1, fmul(0, u2)) == u1) by {
        lemma_fmul_zero(u2);
        lemma_fadd_zero(u1);
    }
    // the leading entry: the second instance's own evaluation
    lemma_cross_last(ts, 0, e1, e2, u1, u2, d);
}

// ------------------------------------------------------------------
// The executable algorithm.
// ------------------------------------------------------------------
/// Pointwise field sum of two coefficient vectors.
fn seq_fadd_exec(a: &Vec<Fp>, b: &Vec<Fp>) -> (r: Vec<Fp>)
    requires
        fp_seq_wf(a@),
        fp_seq_wf(b@),
    ensures
        fp_seq_wf(r@),
        fp_vals(r@) == seq_fadd(fp_vals(a@), fp_vals(b@)),
{
    let n = if a.len() >= b.len() {
        a.len()
    } else {
        b.len()
    };
    let mut r: Vec<Fp> = Vec::new();
    let mut k: usize = 0;
    while k < n
        invariant
            fp_seq_wf(a@),
            fp_seq_wf(b@),
            n == int_max(a@.len() as int, b@.len() as int),
            k <= n,
            r@.len() == k,
            fp_seq_wf(r@),
            forall|j: int|
                0 <= j < k ==> (#[trigger] r@[j])@ == fadd(at0(fp_vals(a@), j), at0(fp_vals(b@), j)),
        decreases n - k,
    {
        let av = if k < a.len() {
            a[k]
        } else {
            Fp { v: 0 }
        };
        let bv = if k < b.len() {
            b[k]
        } else {
            Fp { v: 0 }
        };
        r.push(av.add(bv));
        k = k + 1;
    }
    proof {
        assert(fp_vals(r@) =~= seq_fadd(fp_vals(a@), fp_vals(b@)));
    }
    r
}

/// A coefficient vector scaled by a field element.
fn scale_exec(c: Fp, s: &Vec<Fp>) -> (r: Vec<Fp>)
    requires
        c.wf(),
        fp_seq_wf(s@),
    ensures
        fp_seq_wf(r@),
        fp_vals(r@) == scale(c@, fp_vals(s@)),
{
    let mut r: Vec<Fp> = Vec::new();
    let mut k: usize = 0;
    while k < s.len()
        invariant
            c.wf(),
            fp_seq_wf(s@),
            k <= s@.len(),
            r@.len() == k,
            fp_seq_wf(r@),
            forall|j: int| 0 <= j < k ==> (#[trigger] r@[j])@ == fmul(c@, s@[j]@),
        decreases s@.len() - k,
    {
        r.push(c.mul(s[k]));
        k = k + 1;
    }
    proof {
        assert(fp_vals(r@) =~= scale(c@, fp_vals(s@)));
    }
    r
}

/// A coefficient vector multiplied by the variable: a zero is prepended.
fn shift1_exec(s: &Vec<Fp>) -> (r: Vec<Fp>)
    requires
        fp_seq_wf(s@),
    ensures
        fp_seq_wf(r@),
        fp_vals(r@) == shift1(fp_vals(s@)),
{
    let mut r: Vec<Fp> = Vec::new();
    r.push(Fp { v: 0 });
    let mut k: usize = 0;
    while k < s.len()
        invariant
            fp_seq_wf(s@),
            k <= s@.len(),
            r@.len() == k + 1,
            fp_seq_wf(r@),
            r@[0]@ == 0,
            forall|j: int| 1 <= j < k + 1 ==> (#[trigger] r@[j])@ == s@[j - 1]@,
        decreases s@.len() - k,
    {
        r.push(s[k]);
        k = k + 1;
    }
    proof {
        assert(fp_vals(r@) =~= shift1(fp_vals(s@)));
    }
    r
}

/// The convolution of the suffix of `p` from `i` with `q`.
fn conv_rec(p: &Vec<Fp>, i: usize, q: &Vec<Fp>) -> (r: Vec<Fp>)
    requires
        i <= p@.len(),
        fp_seq_wf(p@),
        fp_seq_wf(q@),
    ensures
        fp_seq_wf(r@),
        fp_vals(r@) == conv(fp_vals(p@).skip(i as int), fp_vals(q@)),
    decreases p@.len() - i,
{
    if i == p.len() {
        let r: Vec<Fp> = Vec::new();
        proof {
            assert(fp_vals(p@).skip(i as int) =~= Seq::<int>::empty());
            assert(fp_vals(r@) =~= conv(fp_vals(p@).skip(i as int), fp_vals(q@)));
        }
        r
    } else {
        let rest = conv_rec(p, i + 1, q);
        let head = scale_exec(p[i], q);
        let shifted = shift1_exec(&rest);
        let r = seq_fadd_exec(&head, &shifted);
        proof {
            let pv = fp_vals(p@).skip(i as int);
            assert(pv[0] == p@[i as int]@);
            assert(pv.drop_first() =~= fp_vals(p@).skip(i as int + 1));
            assert(conv(pv, fp_vals(q@)) == seq_fadd(
                scale(pv[0], fp_vals(q@)),
                shift1(conv(pv.drop_first(), fp_vals(q@))),
            ));
        }
        r
    }
}

/// The coefficient vector of `(a + r * b)^e`.
fn binom_exec(a: Fp, b: Fp, e: usize) -> (r: Vec<Fp>)
    requires
        a.wf(),
        b.wf(),
    ensures
        fp_seq_wf(r@),
        fp_vals(r@) == binom_seq(a@, b@, e as nat),
{
    let mut acc: Vec<Fp> = Vec::new();
    acc.push(Fp { v: 1 });
    proof {
        assert(fp_vals(acc@) =~= seq![1int]);
    }
    let pair_first: Vec<Fp> = vec![a, b];
    let mut j: usize = 0;
    while j < e
        invariant
            a.wf(),
            b.wf(),
            pair_first@.len() == 2,
            pair_first@[0] == a,
            pair_first@[1] == b,
            fp_seq_wf(pair_first@),
            j <= e,
            fp_seq_wf(acc@),
            fp_vals(acc@) == binom_seq(a@, b@, j as nat),
        decreases e - j,
    {
        let next = conv_rec(&acc, 0, &pair_first);
        proof {
            assert(fp_vals(acc@).skip(0) =~= fp_vals(acc@));
            assert(fp_vals(pair_first@) =~= seq![a@, b@]);
        }
        acc = next;
        j = j + 1;
    }
    acc
}

/// The coefficient vector of the product of the monomial's binomial factors.
fn factors_exec(exp: &Vec<usize>, eval1: &Vec<Fp>, eval2: &Vec<Fp>) -> (r: Vec<Fp>)
    requires
        exp@.len() == eval1@.len(),
        exp@.len() == eval2@.len(),
        fp_seq_wf(eval1@),
        fp_seq_wf(eval2@),
    ensures
        fp_seq_wf(r@),
        fp_vals(r@) == factors_from(exp@, fp_vals(eval1@), fp_vals(eval2@), 0),
{
    let mut acc: Vec<Fp> = Vec::new();
    acc.push(Fp { v: 1 });
    proof {
        assert(fp_vals(acc@) =~= seq![1int]);
    }
    let mut i: usize = exp.len();
    while i > 0
        invariant
            exp@.len() == eval1@.len(),
            exp@.len() == eval2@.len(),
            fp_seq_wf(eval1@),
            fp_seq_wf(eval2@),
            i <= exp@.len(),
            fp_seq_wf(acc@),
            fp_vals(acc@) == factors_from(exp@, fp_vals(eval1@), fp_vals(eval2@), i as int),
        decreases i,
    {
        i = i - 1;
        let bs = binom_exec(eval1[i], eval2[i], exp[i]);
        let next = conv_rec(&bs, 0, &acc);
        proof {
            assert(fp_vals(bs@).skip(0) =~= fp_vals(bs@));
            assert(fp_vals(eval1@)[i as int] == eval1@[i as int]@);
            assert(fp_vals(eval2@)[i as int] == eval2@[i as int]@);
        }
        acc = next;
    }
    acc
}

impl Poly {
    /// Computes the cross-terms of the fold expansion: the map from each
    /// power `k` in `1 .. d-1` of the challenge to the coefficient `T_k` of
    /// the expansion of the folded homogeneous evaluation.  The outer
    /// coefficients `T_0` and `T_d` are the two instances' own homogeneous
    /// evaluations and are not returned: the output holds exactly `d - 1`
    /// entries.  [`lemma_cross_term_identity`] states what the coefficients
    /// mean.
    pub fn compute_cross_terms(
        &self,
        eval1: &Vec<Fp>,
        eval2: &Vec<Fp>,
        u1: Fp,
        u2: Fp,
    ) -> (res: std::collections::HashMap<usize, Fp>)
        requires
            self.wf(),
            eval1@.len() == self.n,
            eval2@.len() == self.n,
            fp_seq_wf(eval1@),
            fp_seq_wf(eval2@),
            u1.wf(),
            u2.wf(),
            1 <= self.d < usize::MAX,
        ensures
            forall|k: usize| #[trigger] res@.contains_key(k) <==> 1 <= k < self.d,
            forall|k: usize|
                1 <= k < self.d ==> (#[trigger] res@[k])@ == cross_terms_spec(
                    *self,
                    fp_vals(eval1@),
                    fp_vals(eval2@),
                    u1@,
                    u2@,
                )[k as int],
    {
        let ghost se1 = fp_vals(eval1@);
        let ghost se2 = fp_vals(eval2@);
        let ghost dd = self.d as int;
        let mut acc: Vec<Fp> = vec![Fp { v: 0 }; self.d + 1];
        proof {
            assert forall|q: int| 0 <= q < self.terms@.len() implies 0 <= sum_exps(
                (#[trigger] self.terms@[q]).0@,
            ) <= dd by {
                lemma_sum_exps_nonneg(self.terms@[q].0@);
            }
            assert(fp_vals(acc@) =~= zero_seq(dd + 1));
        }
        let mut i: usize = self.terms.len();
        while i > 0
            invariant
                self.wf(),
                eval1@.len() == self.n,
                eval2@.len() == self.n,
                fp_seq_wf(eval1@),
                fp_seq_wf(eval2@),
                u1.wf(),
                u2.wf(),
                1 <= self.d,
                se1 == fp_vals(eval1@),
                se2 == fp_vals(eval2@),
                dd == self.d as int,
                i <= self.terms@.len(),
                fp_seq_wf(acc@),
                fp_vals(acc@) == cross_from(self.terms@, i as int, se1, se2, u1@, u2@, dd),
            decreases i,
        {
            i = i - 1;
            let s = self.term_degree(i);
            let fl = factors_exec(&self.terms[i].0, eval1, eval2);
            let bu = binom_exec(u1, u2, self.d - s);
            let cv = conv_rec(&fl, 0, &bu);
            let sc = scale_exec(self.terms[i].1, &cv);
            let next = seq_fadd_exec(&sc, &acc);
            proof {
                assert(fp_vals(fl@).skip(0) =~= fp_vals(fl@));
                let t = self.terms@[i as int];
                assert(fp_vals(sc@) == term_r_poly(t, se1, se2, u1@, u2@, dd));
            }
            acc = next;
        }
        proof {
            lemma_cross_len(self.terms@, 0, se1, se2, u1@, u2@, dd);
            assert(acc@.len() == self.d + 1);
        }
        let mut res: std::collections::HashMap<usize, Fp> = std::collections::HashMap::new();
        let mut k: usize = 1;
        while k < self.d
            invariant
                1 <= k <= self.d,
                acc@.len() == self.d + 1,
                fp_vals(acc@) == cross_from(self.terms@, 0, se1, se2, u1@, u2@, dd),
                forall|kk: usize| #[trigger] res@.contains_key(kk) <==> 1 <= kk < k,
                forall|kk: usize| 1 <= kk < k ==> #[trigger] res@[kk] == acc@[kk as int],
            decreases self.d - k,
        {
            res.insert(k, acc[k]);
            k = k + 1;
        }
        proof {
            assert forall|kk: usize| 1 <= kk < self.d implies (#[trigger] res@[kk])@
                == cross_terms_spec(*self, se1, se2, u1@, u2@)[kk as int] by {
                assert(res@[kk] == acc@[kk as int]);
                assert(fp_vals(acc@)[kk as int] == acc@[kk as int]@);
            }
        }
        res
    }
}

} // verus!
