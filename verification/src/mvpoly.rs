//! The multivariate polynomial engine.
//!
//! A [`Poly`] is a sparse polynomial in `n` variables over the prime field of
//! [`crate::field`], bounded by total degree `d`: a list of monomials, each an
//! exponent vector of length `n` paired with a nonzero coefficient.  Absence
//! of an exponent vector means a zero coefficient, and no two stored monomials
//! share an exponent vector, so the representation is canonical.
//!
//! The specification level talks about the term list through [`coeff_of`]
//! (the coefficient map), [`poly_eval`] (evaluation), [`homog_eval`]
//! (evaluation of the degree-`d` homogenization) and [`poly_deg`] (total
//! degree); every executable operation is pinned to those functions.

use crate::field::{
    fadd, fmul, fneg, fp_seq_wf, fp_vals, fpow, in_fp, lemma_fadd_assoc, lemma_fadd_in_fp,
    lemma_fmul_assoc, lemma_fmul_comm, lemma_fmul_distrib, lemma_fmul_in_fp, lemma_fmul_one,
    lemma_fmul_zero, lemma_fneg, lemma_fpow_add, lemma_fpow_one_base, lemma_fadd_zero, modulus,
    Fp,
};
use vstd::arithmetic::div_mod::{lemma_mod_multiples_vanish, lemma_mul_mod_noop_general};
use vstd::prelude::*;

verus! {

/// The larger of two integers.
pub open spec fn int_max(a: int, b: int) -> int {
    if a >= b {
        a
    } else {
        b
    }
}

/// The total degree of an exponent vector: the sum of its entries.
pub open spec fn sum_exps(e: Seq<usize>) -> int
    decreases e.len(),
{
    if e.len() == 0 {
        0
    } else {
        e[0] + sum_exps(e.drop_first())
    }
}

/// One stored monomial: an exponent vector and its coefficient.
pub type Term = (Vec<usize>, Fp);

/// The value of the monomial `prod x_i^(e_i)` at the point `x`.
pub open spec fn mono_eval(e: Seq<usize>, x: Seq<int>) -> int
    decreases e.len(),
{
    if e.len() == 0 {
        1
    } else {
        fmul(fpow(x[0], e[0] as nat), mono_eval(e.drop_first(), x.drop_first()))
    }
}

/// The contribution of one stored term to an evaluation.
pub open spec fn term_val(t: Term, x: Seq<int>) -> int {
    fmul(t.1@, mono_eval(t.0@, x))
}

/// The value of a term list at the point `x`: the field sum of the
/// contributions of its terms.
pub open spec fn poly_eval(ts: Seq<Term>, x: Seq<int>) -> int
    decreases ts.len(),
{
    if ts.len() == 0 {
        0
    } else {
        fadd(term_val(ts[0], x), poly_eval(ts.drop_first(), x))
    }
}

/// The contribution of one stored term to a homogeneous evaluation: the term
/// is padded to total degree `d` with the extra variable `u`.
pub open spec fn homog_term_val(t: Term, x: Seq<int>, u: int, d: int) -> int {
    fmul(t.1@, fmul(mono_eval(t.0@, x), fpow(u, (d - sum_exps(t.0@)) as nat)))
}

/// The value of the degree-`d` homogenization of a term list at `(x, u)`.
pub open spec fn homog_eval(ts: Seq<Term>, x: Seq<int>, u: int, d: int) -> int
    decreases ts.len(),
{
    if ts.len() == 0 {
        0
    } else {
        fadd(homog_term_val(ts[0], x, u, d), homog_eval(ts.drop_first(), x, u, d))
    }
}

/// The coefficient stored for the exponent vector `e` (zero if absent).
pub open spec fn coeff_of(ts: Seq<Term>, e: Seq<usize>) -> int
    decreases ts.len(),
{
    if ts.len() == 0 {
        0
    } else if ts[0].0@ == e {
        ts[0].1@
    } else {
        coeff_of(ts.drop_first(), e)
    }
}

/// Whether some stored term has the exponent vector `e`.
pub open spec fn has_exp(ts: Seq<Term>, e: Seq<usize>) -> bool {
    exists|j: int| 0 <= j < ts.len() && #[trigger] ts[j].0@ == e
}

/// The maximum total degree among the stored monomials; zero for the empty
/// term list.
pub open spec fn poly_deg(ts: Seq<Term>) -> int
    decreases ts.len(),
{
    if ts.len() == 0 {
        0
    } else {
        int_max(sum_exps(ts[0].0@), poly_deg(ts.drop_first()))
    }
}

/// Well-formedness of a term list for `n` variables and degree bound `d`:
/// every exponent vector has length `n` and total degree at most `d`, every
/// coefficient is a reduced nonzero residue, and no exponent vector repeats.
pub open spec fn wf_terms(ts: Seq<Term>, n: int, d: int) -> bool {
    &&& forall|i: int|
        0 <= i < ts.len() ==> {
            &&& (#[trigger] ts[i]).0@.len() == n
            &&& sum_exps(ts[i].0@) <= d
            &&& in_fp(ts[i].1@)
            &&& ts[i].1@ != 0
        }
    &&& forall|i: int, j: int| 0 <= i < j < ts.len() ==> (#[trigger] ts[i]).0@ != (#[trigger] ts[j]).0@
}

/// A point of the specification level: `n` reduced residues.
pub open spec fn point_wf(x: Seq<int>, n: int) -> bool {
    x.len() == n && forall|i: int| 0 <= i < x.len() ==> in_fp(#[trigger] x[i])
}

/// A sparse multivariate polynomial in `n` variables of total degree at most
/// `d`.
#[derive(Debug)]
pub struct Poly {
    pub n: usize,
    pub d: usize,
    pub terms: Vec<Term>,
}

impl Poly {
    /// The representation invariant.
    pub open spec fn wf(self) -> bool {
        wf_terms(self.terms@, self.n as int, self.d as int)
    }

    /// Shorthand: the evaluation of this polynomial at `x`.
    pub open spec fn eval_spec(self, x: Seq<int>) -> int {
        poly_eval(self.terms@, x)
    }

    /// Shorthand: the homogeneous evaluation of this polynomial at `(x, u)`.
    pub open spec fn homog_eval_spec(self, x: Seq<int>, u: int) -> int {
        homog_eval(self.terms@, x, u, self.d as int)
    }

    /// Shorthand: the stored coefficient of the exponent vector `e`.
    pub open spec fn coeff_spec(self, e: Seq<usize>) -> int {
        coeff_of(self.terms@, e)
    }

    /// Shorthand: the total degree of this polynomial.
    pub open spec fn deg_spec(self) -> int {
        poly_deg(self.terms@)
    }
}

// ------------------------------------------------------------------
// Facts about sums of exponents.
// ------------------------------------------------------------------
/// Total degrees are nonnegative.
pub proof fn lemma_sum_exps_nonneg(e: Seq<usize>)
    ensures
        sum_exps(e) >= 0,
    decreases e.len(),
{
    if e.len() > 0 {
        lemma_sum_exps_nonneg(e.drop_first());
    }
}

/// Each entry of an exponent vector is bounded by the total degree.
pub proof fn lemma_sum_exps_coord(e: Seq<usize>, j: int)
    requires
        0 <= j < e.len(),
    ensures
        e[j] <= sum_exps(e),
    decreases e.len(),
{
    lemma_sum_exps_nonneg(e.drop_first());
    if j > 0 {
        lemma_sum_exps_coord(e.drop_first(), j - 1);
    }
}

/// A vector sums to zero exactly when every entry is zero.
pub proof fn lemma_sum_exps_zero(e: Seq<usize>)
    ensures
        (sum_exps(e) == 0) <==> (forall|j: int| 0 <= j < e.len() ==> e[j] == 0),
    decreases e.len(),
{
    if e.len() > 0 {
        lemma_sum_exps_zero(e.drop_first());
        lemma_sum_exps_nonneg(e.drop_first());
        if sum_exps(e) == 0 {
            assert forall|j: int| 0 <= j < e.len() implies e[j] == 0 by {
                if j > 0 {
                    assert(e.drop_first()[j - 1] == e[j]);
                }
            }
        }
        if forall|j: int| 0 <= j < e.len() ==> e[j] == 0 {
            assert forall|j: int| 0 <= j < e.drop_first().len() implies e.drop_first()[j] == 0 by {
                assert(e.drop_first()[j] == e[j + 1]);
            }
        }
    }
}

/// The degree of the pointwise sum of two exponent vectors is the sum of
/// their degrees.
pub proof fn lemma_sum_exps_add(a: Seq<usize>, b: Seq<usize>, c: Seq<usize>)
    requires
        a.len() == b.len(),
        c.len() == a.len(),
        forall|j: int| 0 <= j < c.len() ==> #[trigger] c[j] == a[j] + b[j],
    ensures
        sum_exps(c) == sum_exps(a) + sum_exps(b),
    decreases a.len(),
{
    if a.len() > 0 {
        assert forall|j: int| 0 <= j < c.drop_first().len() implies #[trigger] c.drop_first()[j]
            == a.drop_first()[j] + b.drop_first()[j] by {
            assert(c.drop_first()[j] == c[j + 1]);
            assert(a.drop_first()[j] == a[j + 1]);
            assert(b.drop_first()[j] == b[j + 1]);
        }
        lemma_sum_exps_add(a.drop_first(), b.drop_first(), c.drop_first());
    }
}

// ------------------------------------------------------------------
// Range facts: evaluations are reduced residues.
// ------------------------------------------------------------------
/// Monomial values are reduced residues.
pub proof fn lemma_mono_eval_in_fp(e: Seq<usize>, x: Seq<int>)
    ensures
        in_fp(mono_eval(e, x)),
    decreases e.len(),
{
    if e.len() == 0 {
    } else {
        lemma_fmul_in_fp(fpow(x[0], e[0] as nat), mono_eval(e.drop_first(), x.drop_first()));
    }
}

/// Polynomial values are reduced residues.
pub proof fn lemma_poly_eval_in_fp(ts: Seq<Term>, x: Seq<int>)
    ensures
        in_fp(poly_eval(ts, x)),
    decreases ts.len(),
{
    if ts.len() == 0 {
    } else {
        lemma_fadd_in_fp(term_val(ts[0], x), poly_eval(ts.drop_first(), x));
    }
}

/// Homogeneous evaluations are reduced residues.
pub proof fn lemma_homog_eval_in_fp(ts: Seq<Term>, x: Seq<int>, u: int, d: int)
    ensures
        in_fp(homog_eval(ts, x, u, d)),
    decreases ts.len(),
{
    if ts.len() == 0 {
    } else {
        lemma_fadd_in_fp(homog_term_val(ts[0], x, u, d), homog_eval(ts.drop_first(), x, u, d));
    }
}

// ------------------------------------------------------------------
// Facts about the coefficient map.
// ------------------------------------------------------------------
/// In a list without repeated exponent vectors, the coefficient map returns
/// the stored coefficient of each term.
pub proof fn lemma_coeff_of_found(ts: Seq<Term>, i: int)
    requires
        0 <= i < ts.len(),
        forall|p: int, q: int| 0 <= p < q < ts.len() ==> (#[trigger] ts[p]).0@ != (#[trigger] ts[q]).0@,
    ensures
        coeff_of(ts, ts[i].0@) == ts[i].1@,
    decreases ts.len(),
{
    if i > 0 {
        assert(ts[0].0@ != ts[i].0@);
        assert forall|p: int, q: int| 0 <= p < q < ts.drop_first().len() implies (#[trigger] ts.drop_first()[p]).0@
            != (#[trigger] ts.drop_first()[q]).0@ by {
            assert(ts.drop_first()[p] == ts[p + 1]);
            assert(ts.drop_first()[q] == ts[q + 1]);
        }
        lemma_coeff_of_found(ts.drop_first(), i - 1);
        assert(ts.drop_first()[i - 1] == ts[i]);
    }
}

/// The coefficient map returns zero for an exponent vector that no term has.
pub proof fn lemma_coeff_of_absent(ts: Seq<Term>, e: Seq<usize>)
    requires
        !has_exp(ts, e),
    ensures
        coeff_of(ts, e) == 0,
    decreases ts.len(),
{
    if ts.len() > 0 {
        assert(ts[0].0@ != e);
        assert(!has_exp(ts.drop_first(), e)) by {
            if has_exp(ts.drop_first(), e) {
                let j = choose|j: int|
                    0 <= j < ts.drop_first().len() && #[trigger] ts.drop_first()[j].0@ == e;
                assert(ts[j + 1].0@ == e);
            }
        }
        lemma_coeff_of_absent(ts.drop_first(), e);
    }
}

/// How the coefficient map changes when one term's coefficient is replaced.
pub proof fn lemma_coeff_of_update(ts: Seq<Term>, i: int, t: Term, e: Seq<usize>)
    requires
        0 <= i < ts.len(),
        t.0@ == ts[i].0@,
        forall|p: int, q: int| 0 <= p < q < ts.len() ==> (#[trigger] ts[p]).0@ != (#[trigger] ts[q]).0@,
    ensures
        coeff_of(ts.update(i, t), e) == if e == ts[i].0@ {
            t.1@
        } else {
            coeff_of(ts, e)
        },
    decreases ts.len(),
{
    let us = ts.update(i, t);
    if i == 0 {
        assert(us[0] == t);
        assert(us.drop_first() =~= ts.drop_first());
    } else {
        assert(us[0] == ts[0]);
        assert(us.drop_first() =~= ts.drop_first().update(i - 1, t));
        assert forall|p: int, q: int| 0 <= p < q < ts.drop_first().len() implies (#[trigger] ts.drop_first()[p]).0@
            != (#[trigger] ts.drop_first()[q]).0@ by {
            assert(ts.drop_first()[p] == ts[p + 1]);
            assert(ts.drop_first()[q] == ts[q + 1]);
        }
        assert(ts.drop_first()[i - 1] == ts[i]);
        lemma_coeff_of_update(ts.drop_first(), i - 1, t, e);
        assert(ts[0].0@ != ts[i].0@);
    }
}

/// How the coefficient map changes when one term is removed.
pub proof fn lemma_coeff_of_remove(ts: Seq<Term>, i: int, e: Seq<usize>)
    requires
        0 <= i < ts.len(),
        forall|p: int, q: int| 0 <= p < q < ts.len() ==> (#[trigger] ts[p]).0@ != (#[trigger] ts[q]).0@,
    ensures
        coeff_of(ts.remove(i), e) == if e == ts[i].0@ {
            0
        } else {
            coeff_of(ts, e)
        },
    decreases ts.len(),
{
    let rs = ts.remove(i);
    if i == 0 {
        assert(rs =~= ts.drop_first());
        if e == ts[0].0@ {
            assert(!has_exp(ts.drop_first(), e)) by {
                if has_exp(ts.drop_first(), e) {
                    let j = choose|j: int|
                        0 <= j < ts.drop_first().len() && #[trigger] ts.drop_first()[j].0@ == e;
                    assert(ts[j + 1].0@ == e);
                }
            }
            lemma_coeff_of_absent(ts.drop_first(), e);
        }
    } else {
        assert(rs[0] == ts[0]);
        assert(rs.drop_first() =~= ts.drop_first().remove(i - 1));
        assert forall|p: int, q: int| 0 <= p < q < ts.drop_first().len() implies (#[trigger] ts.drop_first()[p]).0@
            != (#[trigger] ts.drop_first()[q]).0@ by {
            assert(ts.drop_first()[p] == ts[p + 1]);
            assert(ts.drop_first()[q] == ts[q + 1]);
        }
        assert(ts.drop_first()[i - 1] == ts[i]);
        lemma_coeff_of_remove(ts.drop_first(), i - 1, e);
        assert(ts[0].0@ != ts[i].0@);
    }
}

/// How the coefficient map changes when a term with a fresh exponent vector
/// is appended.
pub proof fn lemma_coeff_of_push(ts: Seq<Term>, t: Term, e: Seq<usize>)
    requires
        !has_exp(ts, t.0@),
    ensures
        coeff_of(ts.push(t), e) == if e == t.0@ {
            t.1@
        } else {
            coeff_of(ts, e)
        },
    decreases ts.len(),
{
    let ps = ts.push(t);
    assert(ps.len() == ts.len() + 1);
    assert(coeff_of(ps, e) == if ps[0].0@ == e {
        ps[0].1@
    } else {
        coeff_of(ps.drop_first(), e)
    });
    if ts.len() == 0 {
        assert(ps[0] == t);
        assert(ps.drop_first() =~= Seq::<Term>::empty());
        assert(coeff_of(ps.drop_first(), e) == 0);
    } else {
        assert(ps[0] == ts[0]);
        assert(ps.drop_first() =~= ts.drop_first().push(t));
        assert(!has_exp(ts.drop_first(), t.0@)) by {
            if has_exp(ts.drop_first(), t.0@) {
                let j = choose|j: int|
                    0 <= j < ts.drop_first().len() && #[trigger] ts.drop_first()[j].0@ == t.0@;
                assert(ts[j + 1].0@ == t.0@);
            }
        }
        lemma_coeff_of_push(ts.drop_first(), t, e);
        assert(ts[0].0@ != t.0@);
    }
}

/// In a well-formed term list every entry of the coefficient map is a
/// reduced residue.
pub proof fn lemma_coeff_of_in_fp(ts: Seq<Term>, e: Seq<usize>, n: int, d: int)
    requires
        wf_terms(ts, n, d),
    ensures
        in_fp(coeff_of(ts, e)),
    decreases ts.len(),
{
    if ts.len() > 0 && ts[0].0@ != e {
        assert forall|p: int| 0 <= p < ts.drop_first().len() implies {
            &&& (#[trigger] ts.drop_first()[p]).0@.len() == n
            &&& sum_exps(ts.drop_first()[p].0@) <= d
            &&& in_fp(ts.drop_first()[p].1@)
            &&& ts.drop_first()[p].1@ != 0
        } by {
            assert(ts.drop_first()[p] == ts[p + 1]);
        }
        assert forall|p: int, q: int| 0 <= p < q < ts.drop_first().len() implies (#[trigger] ts.drop_first()[p]).0@
            != (#[trigger] ts.drop_first()[q]).0@ by {
            assert(ts.drop_first()[p] == ts[p + 1]);
            assert(ts.drop_first()[q] == ts[q + 1]);
        }
        lemma_coeff_of_in_fp(ts.drop_first(), e, n, d);
    }
}

// ------------------------------------------------------------------
// Facts about evaluation under term-list surgery.
// ------------------------------------------------------------------
/// Appending a term adds its contribution to the evaluation.
pub proof fn lemma_poly_eval_push(ts: Seq<Term>, t: Term, x: Seq<int>)
    ensures
        poly_eval(ts.push(t), x) == fadd(poly_eval(ts, x), term_val(t, x)),
    decreases ts.len(),
{
    let ps = ts.push(t);
    assert(ps.len() == ts.len() + 1);
    assert(poly_eval(ps, x) == fadd(term_val(ps[0], x), poly_eval(ps.drop_first(), x)));
    if ts.len() == 0 {
        assert(ps[0] == t);
        assert(ps.drop_first() =~= Seq::<Term>::empty());
        assert(poly_eval(ps.drop_first(), x) == 0);
        lemma_mono_eval_in_fp(t.0@, x);
        assert(fadd(term_val(t, x), 0) == fadd(0, term_val(t, x)));
    } else {
        assert(ps[0] == ts[0]);
        assert(ps.drop_first() =~= ts.drop_first().push(t));
        lemma_poly_eval_push(ts.drop_first(), t, x);
        lemma_fadd_assoc(term_val(ts[0], x), poly_eval(ts.drop_first(), x), term_val(t, x));
    }
}

/// Replacing the term at `i` exchanges its contribution in the evaluation.
pub proof fn lemma_poly_eval_update(ts: Seq<Term>, i: int, t: Term, x: Seq<int>)
    requires
        0 <= i < ts.len(),
    ensures
        fadd(poly_eval(ts.update(i, t), x), term_val(ts[i], x)) == fadd(
            poly_eval(ts, x),
            term_val(t, x),
        ),
    decreases ts.len(),
{
    let us = ts.update(i, t);
    if i == 0 {
        assert(us[0] == t);
        assert(us.drop_first() =~= ts.drop_first());
        let rest = poly_eval(ts.drop_first(), x);
        lemma_fadd_assoc(term_val(t, x), rest, term_val(ts[0], x));
        lemma_fadd_assoc(term_val(ts[0], x), rest, term_val(t, x));
        assert(fadd(rest, term_val(ts[0], x)) == fadd(term_val(ts[0], x), rest));
    } else {
        assert(us[0] == ts[0]);
        assert(us.drop_first() =~= ts.drop_first().update(i - 1, t));
        assert(ts.drop_first()[i - 1] == ts[i]);
        lemma_poly_eval_update(ts.drop_first(), i - 1, t, x);
        lemma_fadd_assoc(
            term_val(ts[0], x),
            poly_eval(ts.drop_first().update(i - 1, t), x),
            term_val(ts[i], x),
        );
        lemma_fadd_assoc(term_val(ts[0], x), poly_eval(ts.drop_first(), x), term_val(t, x));
    }
}

/// Removing the term at `i` subtracts its contribution from the evaluation.
pub proof fn lemma_poly_eval_remove(ts: Seq<Term>, i: int, x: Seq<int>)
    requires
        0 <= i < ts.len(),
    ensures
        fadd(poly_eval(ts.remove(i), x), term_val(ts[i], x)) == poly_eval(ts, x),
    decreases ts.len(),
{
    let rs = ts.remove(i);
    if i == 0 {
        assert(rs =~= ts.drop_first());
        let rest = poly_eval(ts.drop_first(), x);
        lemma_poly_eval_in_fp(ts.drop_first(), x);
        lemma_mono_eval_in_fp(ts[0].0@, x);
        assert(fadd(rest, term_val(ts[0], x)) == fadd(term_val(ts[0], x), rest));
    } else {
        assert(rs[0] == ts[0]);
        assert(rs.drop_first() =~= ts.drop_first().remove(i - 1));
        assert(ts.drop_first()[i - 1] == ts[i]);
        lemma_poly_eval_remove(ts.drop_first(), i - 1, x);
        lemma_fadd_assoc(
            term_val(ts[0], x),
            poly_eval(ts.drop_first().remove(i - 1), x),
            term_val(ts[i], x),
        );
    }
}

// ------------------------------------------------------------------
// Facts about the total degree under term-list surgery.
// ------------------------------------------------------------------
/// Total degrees of term lists are nonnegative.
pub proof fn lemma_poly_deg_nonneg(ts: Seq<Term>)
    ensures
        poly_deg(ts) >= 0,
    decreases ts.len(),
{
    if ts.len() > 0 {
        lemma_sum_exps_nonneg(ts[0].0@);
        lemma_poly_deg_nonneg(ts.drop_first());
    }
}

/// Every stored monomial's degree is bounded by the list's total degree.
pub proof fn lemma_poly_deg_bound(ts: Seq<Term>, i: int)
    requires
        0 <= i < ts.len(),
    ensures
        sum_exps(ts[i].0@) <= poly_deg(ts),
    decreases ts.len(),
{
    if i > 0 {
        assert(ts.drop_first()[i - 1] == ts[i]);
        lemma_poly_deg_bound(ts.drop_first(), i - 1);
    }
}

/// Appending a term raises the total degree to at most the maximum of the
/// old degree and the new monomial's degree.
pub proof fn lemma_poly_deg_push(ts: Seq<Term>, t: Term)
    ensures
        poly_deg(ts.push(t)) == if ts.len() == 0 {
            int_max(0, sum_exps(t.0@))
        } else {
            int_max(poly_deg(ts), sum_exps(t.0@))
        },
    decreases ts.len(),
{
    let ps = ts.push(t);
    assert(ps.len() == ts.len() + 1);
    assert(poly_deg(ps) == int_max(sum_exps(ps[0].0@), poly_deg(ps.drop_first())));
    if ts.len() == 0 {
        assert(ps[0] == t);
        assert(ps.drop_first() =~= Seq::<Term>::empty());
        assert(poly_deg(ps.drop_first()) == 0);
    } else {
        assert(ps[0] == ts[0]);
        assert(ps.drop_first() =~= ts.drop_first().push(t));
        lemma_poly_deg_push(ts.drop_first(), t);
        lemma_poly_deg_nonneg(ts.drop_first());
        lemma_sum_exps_nonneg(t.0@);
        lemma_sum_exps_nonneg(ts[0].0@);
    }
}

/// Replacing a term's coefficient (same exponent vector) keeps the degree.
pub proof fn lemma_poly_deg_update(ts: Seq<Term>, i: int, t: Term)
    requires
        0 <= i < ts.len(),
        t.0@ == ts[i].0@,
    ensures
        poly_deg(ts.update(i, t)) == poly_deg(ts),
    decreases ts.len(),
{
    let us = ts.update(i, t);
    if i == 0 {
        assert(us[0] == t);
        assert(us.drop_first() =~= ts.drop_first());
    } else {
        assert(us[0] == ts[0]);
        assert(us.drop_first() =~= ts.drop_first().update(i - 1, t));
        assert(ts.drop_first()[i - 1] == ts[i]);
        lemma_poly_deg_update(ts.drop_first(), i - 1, t);
    }
}

/// Removing a term cannot raise the degree.
pub proof fn lemma_poly_deg_remove(ts: Seq<Term>, i: int)
    requires
        0 <= i < ts.len(),
    ensures
        poly_deg(ts.remove(i)) <= poly_deg(ts),
    decreases ts.len(),
{
    let rs = ts.remove(i);
    if i == 0 {
        assert(rs =~= ts.drop_first());
        lemma_sum_exps_nonneg(ts[0].0@);
        lemma_poly_deg_nonneg(ts.drop_first());
    } else {
        assert(rs[0] == ts[0]);
        assert(rs.drop_first() =~= ts.drop_first().remove(i - 1));
        lemma_poly_deg_remove(ts.drop_first(), i - 1);
    }
}

// ------------------------------------------------------------------
// Executable helpers.
// ------------------------------------------------------------------
/// Compares two exponent vectors.
fn exps_eq(a: &Vec<usize>, b: &Vec<usize>) -> (r: bool)
    ensures
        r == (a@ == b@),
{
    if a.len() != b.len() {
        proof {
            assert(a@ != b@);
        }
        return false;
    }
    let mut j: usize = 0;
    while j < a.len()
        invariant
            j <= a@.len(),
            a@.len() == b@.len(),
            forall|k: int| 0 <= k < j ==> a@[k] == b@[k],
        decreases a@.len() - j,
    {
        if a[j] != b[j] {
            proof {
                assert(a@[j as int] != b@[j as int]);
            }
            return false;
        }
        j = j + 1;
    }
    proof {
        assert(a@ =~= b@);
    }
    true
}

/// Copies an exponent vector.
fn copy_exps(e: &Vec<usize>) -> (r: Vec<usize>)
    ensures
        r@ == e@,
{
    let mut r: Vec<usize> = Vec::new();
    let mut j: usize = 0;
    while j < e.len()
        invariant
            j <= e@.len(),
            r@ =~= e@.take(j as int),
        decreases e@.len() - j,
    {
        r.push(e[j]);
        j = j + 1;
        proof {
            assert(r@ =~= e@.take(j as int));
        }
    }
    proof {
        assert(e@.take(e@.len() as int) =~= e@);
    }
    r
}

impl Poly {
    /// The zero polynomial in `n` variables with degree bound `d`.
    pub fn new(n: usize, d: usize) -> (r: Poly)
        ensures
            r.wf(),
            r.n == n,
            r.d == d,
            r.terms@.len() == 0,
    {
        Poly { n, d, terms: Vec::new() }
    }

    /// Finds the index of the stored term with the given exponent vector.
    fn find_term(&self, exponents: &Vec<usize>) -> (r: Option<usize>)
        ensures
            match r {
                Some(i) => i < self.terms@.len() && self.terms@[i as int].0@ == exponents@,
                None => !has_exp(self.terms@, exponents@),
            },
    {
        let mut i: usize = 0;
        while i < self.terms.len()
            invariant
                i <= self.terms@.len(),
                forall|j: int| 0 <= j < i ==> (#[trigger] self.terms@[j]).0@ != exponents@,
            decreases self.terms@.len() - i,
        {
            if exps_eq(&self.terms[i].0, exponents) {
                return Some(i);
            }
            i = i + 1;
        }
        proof {
            assert(!has_exp(self.terms@, exponents@));
        }
        None
    }

    /// Adds `coeff` to the coefficient of the given monomial, creating the
    /// monomial if it is absent and pruning it if the sum is zero, so the
    /// stored form stays canonical: no stored monomial keeps a zero
    /// coefficient.
    pub fn add_monomial(&mut self, exponents: Vec<usize>, coeff: Fp)
        requires
            old(self).wf(),
            exponents@.len() == old(self).n,
            sum_exps(exponents@) <= old(self).d,
            coeff.wf(),
        ensures
            final(self).wf(),
            final(self).n == old(self).n,
            final(self).d == old(self).d,
            forall|e: Seq<usize>|
                #[trigger] final(self).coeff_spec(e) == if e == exponents@ {
                    fadd(old(self).coeff_spec(e), coeff@)
                } else {
                    old(self).coeff_spec(e)
                },
            forall|x: Seq<int>|
                #[trigger] final(self).eval_spec(x) == fadd(
                    old(self).eval_spec(x),
                    fmul(coeff@, mono_eval(exponents@, x)),
                ),
            final(self).deg_spec() <= int_max(old(self).deg_spec(), sum_exps(exponents@)),
    {
        let ghost ts = self.terms@;
        proof {
            lemma_poly_deg_nonneg(ts);
            lemma_sum_exps_nonneg(exponents@);
        }
        match self.find_term(&exponents) {
            Some(i) => {
                let c = self.terms[i].1.add(coeff);
                let ghost told = ts[i as int];
                if c.is_zero() {
                    self.terms.remove(i);
                    proof {
                        let tsr = ts.remove(i as int);
                        assert(self.terms@ =~= tsr);
                        assert forall|p: int, q: int| 0 <= p < q < tsr.len() implies (#[trigger] tsr[p]).0@
                            != (#[trigger] tsr[q]).0@ by {
                            if q < i {
                                assert(tsr[p] == ts[p] && tsr[q] == ts[q]);
                            } else if p < i {
                                assert(tsr[p] == ts[p] && tsr[q] == ts[q + 1]);
                            } else {
                                assert(tsr[p] == ts[p + 1] && tsr[q] == ts[q + 1]);
                            }
                        }
                        assert forall|e: Seq<usize>| #[trigger] coeff_of(tsr, e) == (if e
                            == exponents@ {
                            fadd(coeff_of(ts, e), coeff@)
                        } else {
                            coeff_of(ts, e)
                        }) by {
                            lemma_coeff_of_remove(ts, i as int, e);
                            if e == exponents@ {
                                lemma_coeff_of_found(ts, i as int);
                            }
                        }
                        assert forall|x: Seq<int>| #[trigger] poly_eval(tsr, x) == fadd(
                            poly_eval(ts, x),
                            fmul(coeff@, mono_eval(exponents@, x)),
                        ) by {
                            lemma_poly_eval_remove(ts, i as int, x);
                            lemma_poly_eval_in_fp(tsr, x);
                            lemma_poly_eval_in_fp(ts, x);
                            lemma_mono_eval_in_fp(exponents@, x);
                            let m = mono_eval(exponents@, x);
                            // coeff is the additive inverse of the old
                            // coefficient, so the removed contribution equals
                            // the negated added one.
                            assert(fadd(told.1@, coeff@) == 0);
                            lemma_fneg(told.1@);
                            assert(fadd(told.1@, fneg(told.1@)) == 0);
                            assert(coeff@ == fneg(told.1@)) by {
                                assert(fadd(told.1@, coeff@) == fadd(told.1@, fneg(told.1@)));
                                lemma_cancel_left(told.1@, coeff@, fneg(told.1@));
                            }
                            lemma_fmul_fneg(told.1@, m);
                            let tv = term_val(told, x);
                            lemma_fmul_in_fp(told.1@, m);
                            lemma_fneg(tv);
                            // both sides, summed with tv, give poly_eval(ts, x)
                            let lhs = poly_eval(tsr, x);
                            let rhs = fadd(poly_eval(ts, x), fmul(coeff@, m));
                            assert(fmul(coeff@, m) == fneg(tv));
                            lemma_fadd_assoc(poly_eval(ts, x), fneg(tv), tv);
                            assert(fadd(fneg(tv), tv) == fadd(tv, fneg(tv)));
                            assert(fadd(rhs, tv) == fadd(poly_eval(ts, x), 0));
                            lemma_fadd_in_fp(poly_eval(tsr, x), term_val(ts[i as int], x));
                            assert(fadd(lhs, tv) == poly_eval(ts, x));
                            lemma_cancel_right(lhs, rhs, tv);
                        }
                        lemma_poly_deg_remove(ts, i as int);
                    }
                } else {
                    let e2 = copy_exps(&exponents);
                    self.terms[i] = (e2, c);
                    proof {
                        let t2 = (e2, c);
                        let tsu = ts.update(i as int, t2);
                        assert(self.terms@ =~= tsu);
                        assert(t2.0@ == ts[i as int].0@);
                        assert forall|p: int, q: int| 0 <= p < q < tsu.len() implies (#[trigger] tsu[p]).0@
                            != (#[trigger] tsu[q]).0@ by {
                            assert(tsu[p].0@ == ts[p].0@);
                            assert(tsu[q].0@ == ts[q].0@);
                        }
                        assert forall|e: Seq<usize>| #[trigger] coeff_of(tsu, e) == (if e
                            == exponents@ {
                            fadd(coeff_of(ts, e), coeff@)
                        } else {
                            coeff_of(ts, e)
                        }) by {
                            lemma_coeff_of_update(ts, i as int, t2, e);
                            if e == exponents@ {
                                lemma_coeff_of_found(ts, i as int);
                            }
                        }
                        assert forall|x: Seq<int>| #[trigger] poly_eval(tsu, x) == fadd(
                            poly_eval(ts, x),
                            fmul(coeff@, mono_eval(exponents@, x)),
                        ) by {
                            lemma_poly_eval_update(ts, i as int, t2, x);
                            let m = mono_eval(exponents@, x);
                            let tv = term_val(told, x);
                            // the new contribution splits into the old one
                            // plus the added one
                            assert(term_val(t2, x) == fmul(fadd(told.1@, coeff@), m));
                            lemma_fmul_comm(fadd(told.1@, coeff@), m);
                            lemma_fmul_distrib(m, told.1@, coeff@);
                            lemma_fmul_comm(m, told.1@);
                            lemma_fmul_comm(m, coeff@);
                            assert(term_val(t2, x) == fadd(tv, fmul(coeff@, m)));
                            let lhs = poly_eval(tsu, x);
                            let rhs = fadd(poly_eval(ts, x), fmul(coeff@, m));
                            lemma_fadd_assoc(poly_eval(ts, x), tv, fmul(coeff@, m));
                            lemma_fadd_assoc(poly_eval(ts, x), fmul(coeff@, m), tv);
                            assert(fadd(tv, fmul(coeff@, m)) == fadd(fmul(coeff@, m), tv));
                            assert(fadd(lhs, tv) == fadd(poly_eval(ts, x), term_val(t2, x)));
                            assert(fadd(lhs, tv) == fadd(rhs, tv));
                            lemma_poly_eval_in_fp(tsu, x);
                            lemma_poly_eval_in_fp(ts, x);
                            lemma_fmul_in_fp(coeff@, m);
                            lemma_fadd_in_fp(poly_eval(ts, x), fmul(coeff@, m));
                            lemma_cancel_right(lhs, rhs, tv);
                        }
                        lemma_poly_deg_update(ts, i as int, t2);
                    }
                }
            },
            None => {
                if !coeff.is_zero() {
                    let t = (exponents, coeff);
                    self.terms.push(t);
                    proof {
                        let tsp = ts.push(t);
                        assert(self.terms@ =~= tsp);
                        assert forall|p: int, q: int| 0 <= p < q < tsp.len() implies (#[trigger] tsp[p]).0@
                            != (#[trigger] tsp[q]).0@ by {
                            if q < ts.len() {
                                assert(tsp[p] == ts[p] && tsp[q] == ts[q]);
                            } else {
                                assert(tsp[q] == t);
                                assert(tsp[p] == ts[p]);
                                assert(!has_exp(ts, t.0@));
                            }
                        }
                        assert forall|e: Seq<usize>| #[trigger] coeff_of(tsp, e) == (if e
                            == exponents@ {
                            fadd(coeff_of(ts, e), coeff@)
                        } else {
                            coeff_of(ts, e)
                        }) by {
                            lemma_coeff_of_push(ts, t, e);
                            if e == exponents@ {
                                lemma_coeff_of_absent(ts, e);
                            }
                        }
                        assert forall|x: Seq<int>| #[trigger] poly_eval(tsp, x) == fadd(
                            poly_eval(ts, x),
                            fmul(coeff@, mono_eval(exponents@, x)),
                        ) by {
                            lemma_poly_eval_push(ts, t, x);
                        }
                        lemma_poly_deg_push(ts, t);
                        lemma_poly_deg_nonneg(ts);
                    }
                } else {
                    proof {
                        assert forall|e: Seq<usize>| #[trigger] coeff_of(ts, e) == (if e
                            == exponents@ {
                            fadd(coeff_of(ts, e), coeff@)
                        } else {
                            coeff_of(ts, e)
                        }) by {
                            if e == exponents@ {
                                lemma_coeff_of_absent(ts, e);
                            }
                        }
                        assert forall|x: Seq<int>| #[trigger] poly_eval(ts, x) == fadd(
                            poly_eval(ts, x),
                            fmul(coeff@, mono_eval(exponents@, x)),
                        ) by {
                            lemma_fmul_zero(mono_eval(exponents@, x));
                            lemma_poly_eval_in_fp(ts, x);
                        }
                    }
                }
            },
        }
    }

    /// Overwrites the coefficient of the given monomial with `coeff`,
    /// creating the monomial if absent and pruning it if `coeff` is zero.
    pub fn modify_monomial(&mut self, exponents: Vec<usize>, coeff: Fp)
        requires
            old(self).wf(),
            exponents@.len() == old(self).n,
            sum_exps(exponents@) <= old(self).d,
            coeff.wf(),
        ensures
            final(self).wf(),
            final(self).n == old(self).n,
            final(self).d == old(self).d,
            forall|e: Seq<usize>|
                #[trigger] final(self).coeff_spec(e) == if e == exponents@ {
                    coeff@
                } else {
                    old(self).coeff_spec(e)
                },
    {
        let ghost ts = self.terms@;
        match self.find_term(&exponents) {
            Some(i) => {
                if coeff.is_zero() {
                    self.terms.remove(i);
                    proof {
                        let tsr = ts.remove(i as int);
                        assert(self.terms@ =~= tsr);
                        assert forall|p: int, q: int| 0 <= p < q < tsr.len() implies (#[trigger] tsr[p]).0@
                            != (#[trigger] tsr[q]).0@ by {
                            if q < i {
                                assert(tsr[p] == ts[p] && tsr[q] == ts[q]);
                            } else if p < i {
                                assert(tsr[p] == ts[p] && tsr[q] == ts[q + 1]);
                            } else {
                                assert(tsr[p] == ts[p + 1] && tsr[q] == ts[q + 1]);
                            }
                        }
                        assert forall|e: Seq<usize>| #[trigger] coeff_of(tsr, e) == (if e
                            == exponents@ {
                            coeff@
                        } else {
                            coeff_of(ts, e)
                        }) by {
                            lemma_coeff_of_remove(ts, i as int, e);
                        }
                    }
                } else {
                    let e2 = copy_exps(&exponents);
                    self.terms[i] = (e2, coeff);
                    proof {
                        let t2 = (e2, coeff);
                        let tsu = ts.update(i as int, t2);
                        assert(self.terms@ =~= tsu);
                        assert forall|p: int, q: int| 0 <= p < q < tsu.len() implies (#[trigger] tsu[p]).0@
                            != (#[trigger] tsu[q]).0@ by {
                            assert(tsu[p].0@ == ts[p].0@);
                            assert(tsu[q].0@ == ts[q].0@);
                        }
                        assert forall|e: Seq<usize>| #[trigger] coeff_of(tsu, e) == (if e
                            == exponents@ {
                            coeff@
                        } else {
                            coeff_of(ts, e)
                        }) by {
                            lemma_coeff_of_update(ts, i as int, t2, e);
                        }
                    }
                }
            },
            None => {
                if !coeff.is_zero() {
                    let t = (exponents, coeff);
                    self.terms.push(t);
                    proof {
                        let tsp = ts.push(t);
                        assert(self.terms@ =~= tsp);
                        assert forall|p: int, q: int| 0 <= p < q < tsp.len() implies (#[trigger] tsp[p]).0@
                            != (#[trigger] tsp[q]).0@ by {
                            if q < ts.len() {
                                assert(tsp[p] == ts[p] && tsp[q] == ts[q]);
                            } else {
                                assert(tsp[q] == t);
                                assert(tsp[p] == ts[p]);
                                assert(!has_exp(ts, t.0@));
                            }
                        }
                        assert forall|e: Seq<usize>| #[trigger] coeff_of(tsp, e) == (if e
                            == exponents@ {
                            coeff@
                        } else {
                            coeff_of(ts, e)
                        }) by {
                            lemma_coeff_of_push(ts, t, e);
                        }
                    }
                } else {
                    proof {
                        assert forall|e: Seq<usize>| #[trigger] coeff_of(ts, e) == (if e
                            == exponents@ {
                            coeff@
                        } else {
                            coeff_of(ts, e)
                        }) by {
                            if e == exponents@ {
                                lemma_coeff_of_absent(ts, e);
                            }
                        }
                    }
                }
            },
        }
    }
}

// ------------------------------------------------------------------
// Special exponent vectors.
// ------------------------------------------------------------------
/// The all-zero exponent vector of length `n`.
pub open spec fn zero_exps(n: int) -> Seq<usize> {
    Seq::new(n as nat, |i: int| 0usize)
}

/// The all-zero exponent vector sums to zero.
pub proof fn lemma_sum_exps_zero_exps(n: int)
    requires
        n >= 0,
    ensures
        sum_exps(zero_exps(n)) == 0,
{
    lemma_sum_exps_zero(zero_exps(n));
}

/// Updating one entry shifts the total degree by the difference.
pub proof fn lemma_sum_exps_update(e: Seq<usize>, j: int, v: usize)
    requires
        0 <= j < e.len(),
    ensures
        sum_exps(e.update(j, v)) == sum_exps(e) - e[j] + v,
    decreases e.len(),
{
    let us = e.update(j, v);
    if j == 0 {
        assert(us[0] == v);
        assert(us.drop_first() =~= e.drop_first());
    } else {
        assert(us[0] == e[0]);
        assert(us.drop_first() =~= e.drop_first().update(j - 1, v));
        lemma_sum_exps_update(e.drop_first(), j - 1, v);
        assert(e.drop_first()[j - 1] == e[j]);
    }
}

/// A monomial with all exponents zero evaluates to one, at any point.
pub proof fn lemma_mono_eval_all_zero(e: Seq<usize>, x: Seq<int>)
    requires
        forall|j: int| 0 <= j < e.len() ==> e[j] == 0,
    ensures
        mono_eval(e, x) == 1,
    decreases e.len(),
{
    if e.len() > 0 {
        assert forall|j: int| 0 <= j < e.drop_first().len() implies e.drop_first()[j] == 0 by {
            assert(e.drop_first()[j] == e[j + 1]);
        }
        lemma_mono_eval_all_zero(e.drop_first(), x.drop_first());
        assert(fpow(x[0], 0) == 1);
        lemma_fmul_one(1);
    }
}

/// The monomial `x_i` (exponent one at `i`, zero elsewhere) evaluates to the
/// `i`-th coordinate of a reduced point.
pub proof fn lemma_mono_eval_unit(e: Seq<usize>, x: Seq<int>, i: int)
    requires
        0 <= i < e.len(),
        x.len() >= e.len(),
        e[i] == 1,
        forall|j: int| 0 <= j < e.len() && j != i ==> #[trigger] e[j] == 0,
        in_fp(x[i]),
    ensures
        mono_eval(e, x) == x[i],
    decreases e.len(),
{
    if i == 0 {
        assert(fpow(x[0], 0) == 1);
        assert(fpow(x[0], 1) == fmul(x[0], fpow(x[0], 0)));
        lemma_fmul_one(x[0]);
        assert forall|j: int| 0 <= j < e.drop_first().len() implies e.drop_first()[j] == 0 by {
            assert(e.drop_first()[j] == e[j + 1]);
        }
        lemma_mono_eval_all_zero(e.drop_first(), x.drop_first());
        lemma_fmul_one(x[0]);
    } else {
        assert(e[0] == 0);
        assert(fpow(x[0], 0) == 1);
        assert(e.drop_first()[i - 1] == e[i]);
        assert(x.drop_first()[i - 1] == x[i]);
        assert forall|j: int| 0 <= j < e.drop_first().len() && j != i - 1 implies #[trigger] e.drop_first()[j]
            == 0 by {
            assert(e.drop_first()[j] == e[j + 1]);
        }
        lemma_mono_eval_unit(e.drop_first(), x.drop_first(), i - 1);
        lemma_fmul_one(x[i]);
    }
}

// ------------------------------------------------------------------
// Evaluation, degree and shape queries.
// ------------------------------------------------------------------
impl Poly {
    /// The total degree of the `i`-th stored monomial.
    pub(crate) fn term_degree(&self, i: usize) -> (s: usize)
        requires
            self.wf(),
            i < self.terms@.len(),
        ensures
            s as int == sum_exps(self.terms@[i as int].0@),
    {
        let e = &self.terms[i].0;
        let ghost ev = e@;
        let mut s: usize = 0;
        let mut j: usize = 0;
        proof {
            assert(ev.skip(0) =~= ev);
            lemma_sum_exps_nonneg(ev);
        }
        while j < e.len()
            invariant
                self.wf(),
                i < self.terms@.len(),
                ev == self.terms@[i as int].0@,
                ev == e@,
                j <= ev.len(),
                s + sum_exps(ev.skip(j as int)) == sum_exps(ev),
                sum_exps(ev) <= self.d,
                s >= 0,
            decreases ev.len() - j,
        {
            proof {
                let sk = ev.skip(j as int);
                assert(sk[0] == ev[j as int]);
                assert(sk.drop_first() =~= ev.skip(j as int + 1));
                lemma_sum_exps_nonneg(ev.skip(j as int + 1));
            }
            s = s + e[j];
            j = j + 1;
        }
        proof {
            assert(ev.skip(ev.len() as int) =~= Seq::<usize>::empty());
        }
        s
    }

    /// The value of the `i`-th stored monomial (without its coefficient) at
    /// the point `x`.
    fn mono_value(&self, i: usize, x: &Vec<Fp>) -> (r: Fp)
        requires
            self.wf(),
            i < self.terms@.len(),
            x@.len() == self.n,
            fp_seq_wf(x@),
        ensures
            r.wf(),
            r@ == mono_eval(self.terms@[i as int].0@, fp_vals(x@)),
    {
        let e = &self.terms[i].0;
        let ghost ev = e@;
        let ghost xs = fp_vals(x@);
        let mut m = Fp::one();
        let mut j: usize = 0;
        proof {
            assert(ev.skip(0) =~= ev);
            assert(xs.skip(0) =~= xs);
            lemma_mono_eval_in_fp(ev, xs);
            lemma_fmul_one(mono_eval(ev, xs));
        }
        while j < e.len()
            invariant
                self.wf(),
                i < self.terms@.len(),
                x@.len() == self.n,
                fp_seq_wf(x@),
                ev == self.terms@[i as int].0@,
                ev == e@,
                xs == fp_vals(x@),
                ev.len() == self.n,
                j <= ev.len(),
                m.wf(),
                fmul(m@, mono_eval(ev.skip(j as int), xs.skip(j as int))) == mono_eval(ev, xs),
            decreases ev.len() - j,
        {
            proof {
                let esk = ev.skip(j as int);
                let xsk = xs.skip(j as int);
                assert(esk[0] == ev[j as int]);
                assert(xsk[0] == xs[j as int]);
                assert(esk.drop_first() =~= ev.skip(j as int + 1));
                assert(xsk.drop_first() =~= xs.skip(j as int + 1));
                assert(xs[j as int] == x@[j as int]@);
                lemma_fmul_assoc(
                    m@,
                    fpow(xs[j as int], ev[j as int] as nat),
                    mono_eval(ev.skip(j as int + 1), xs.skip(j as int + 1)),
                );
            }
            let f = x[j].pow(e[j]);
            m = m.mul(f);
            j = j + 1;
        }
        proof {
            assert(ev.skip(ev.len() as int) =~= Seq::<usize>::empty());
            assert(mono_eval(Seq::<usize>::empty(), xs.skip(ev.len() as int)) == 1);
            lemma_fmul_one(m@);
        }
        m
    }

    /// Evaluates the polynomial at the point `x`, summing
    /// `coeff * prod x_i^(e_i)` over the stored monomials.
    pub fn eval(&self, x: &Vec<Fp>) -> (r: Fp)
        requires
            self.wf(),
            x@.len() == self.n,
            fp_seq_wf(x@),
        ensures
            r.wf(),
            r@ == self.eval_spec(fp_vals(x@)),
    {
        let ghost xs = fp_vals(x@);
        let mut acc = Fp::zero();
        let mut i: usize = 0;
        proof {
            assert(self.terms@.skip(0) =~= self.terms@);
            lemma_poly_eval_in_fp(self.terms@, xs);
        }
        while i < self.terms.len()
            invariant
                self.wf(),
                x@.len() == self.n,
                fp_seq_wf(x@),
                xs == fp_vals(x@),
                i <= self.terms@.len(),
                acc.wf(),
                fadd(acc@, poly_eval(self.terms@.skip(i as int), xs)) == poly_eval(
                    self.terms@,
                    xs,
                ),
            decreases self.terms@.len() - i,
        {
            let m = self.mono_value(i, x);
            let tv = self.terms[i].1.mul(m);
            proof {
                let sk = self.terms@.skip(i as int);
                assert(sk[0] == self.terms@[i as int]);
                assert(sk.drop_first() =~= self.terms@.skip(i as int + 1));
                assert(tv@ == term_val(self.terms@[i as int], xs));
                lemma_fadd_assoc(
                    acc@,
                    term_val(self.terms@[i as int], xs),
                    poly_eval(self.terms@.skip(i as int + 1), xs),
                );
            }
            acc = acc.add(tv);
            i = i + 1;
        }
        proof {
            assert(self.terms@.skip(self.terms@.len() as int) =~= Seq::<Term>::empty());
        }
        acc
    }

    /// Evaluates the degree-`d` homogenization of the polynomial at `(x, u)`:
    /// each monomial of degree `k` is multiplied by `u^(d - k)`.
    pub fn homogeneous_eval(&self, x: &Vec<Fp>, u: Fp) -> (r: Fp)
        requires
            self.wf(),
            x@.len() == self.n,
            fp_seq_wf(x@),
            u.wf(),
        ensures
            r.wf(),
            r@ == self.homog_eval_spec(fp_vals(x@), u@),
    {
        let ghost xs = fp_vals(x@);
        let ghost dd = self.d as int;
        let mut acc = Fp::zero();
        let mut i: usize = 0;
        proof {
            assert(self.terms@.skip(0) =~= self.terms@);
            lemma_homog_eval_in_fp(self.terms@, xs, u@, dd);
        }
        while i < self.terms.len()
            invariant
                self.wf(),
                x@.len() == self.n,
                fp_seq_wf(x@),
                u.wf(),
                xs == fp_vals(x@),
                dd == self.d as int,
                i <= self.terms@.len(),
                acc.wf(),
                fadd(acc@, homog_eval(self.terms@.skip(i as int), xs, u@, dd)) == homog_eval(
                    self.terms@,
                    xs,
                    u@,
                    dd,
                ),
            decreases self.terms@.len() - i,
        {
            let m = self.mono_value(i, x);
            let s = self.term_degree(i);
            let f = u.pow(self.d - s);
            let tv = self.terms[i].1.mul(m.mul(f));
            proof {
                let sk = self.terms@.skip(i as int);
                assert(sk[0] == self.terms@[i as int]);
                assert(sk.drop_first() =~= self.terms@.skip(i as int + 1));
                assert(tv@ == homog_term_val(self.terms@[i as int], xs, u@, dd));
                lemma_fadd_assoc(
                    acc@,
                    homog_term_val(self.terms@[i as int], xs, u@, dd),
                    homog_eval(self.terms@.skip(i as int + 1), xs, u@, dd),
                );
            }
            acc = acc.add(tv);
            i = i + 1;
        }
        proof {
            assert(self.terms@.skip(self.terms@.len() as int) =~= Seq::<Term>::empty());
        }
        acc
    }

    /// The maximum total degree among the stored monomials; the zero
    /// polynomial has degree zero by definition.
    pub fn degree(&self) -> (r: usize)
        requires
            self.wf(),
        ensures
            r as int == self.deg_spec(),
    {
        let mut best: usize = 0;
        let mut i: usize = 0;
        proof {
            assert(self.terms@.skip(0) =~= self.terms@);
            lemma_poly_deg_nonneg(self.terms@);
        }
        while i < self.terms.len()
            invariant
                self.wf(),
                i <= self.terms@.len(),
                best >= 0,
                int_max(best as int, poly_deg(self.terms@.skip(i as int))) == poly_deg(
                    self.terms@,
                ),
            decreases self.terms@.len() - i,
        {
            proof {
                let sk = self.terms@.skip(i as int);
                assert(sk[0] == self.terms@[i as int]);
                assert(sk.drop_first() =~= self.terms@.skip(i as int + 1));
                lemma_poly_deg_nonneg(self.terms@.skip(i as int + 1));
            }
            let s = self.term_degree(i);
            if s > best {
                best = s;
            }
            i = i + 1;
        }
        proof {
            assert(self.terms@.skip(self.terms@.len() as int) =~= Seq::<Term>::empty());
        }
        best
    }

    /// True exactly when the only stored monomial, if any, has all-zero
    /// exponents.
    pub fn is_constant(&self) -> (r: bool)
        requires
            self.wf(),
        ensures
            r == (forall|i: int|
                0 <= i < self.terms@.len() ==> sum_exps(#[trigger] self.terms@[i].0@) == 0),
    {
        let mut i: usize = 0;
        while i < self.terms.len()
            invariant
                self.wf(),
                i <= self.terms@.len(),
                forall|j: int| 0 <= j < i ==> sum_exps(#[trigger] self.terms@[j].0@) == 0,
            decreases self.terms@.len() - i,
        {
            let s = self.term_degree(i);
            if s != 0 {
                return false;
            }
            i = i + 1;
        }
        true
    }

    /// True exactly when every stored monomial has total degree `d`
    /// (vacuously true for the zero polynomial).
    pub fn is_homogeneous(&self) -> (r: bool)
        requires
            self.wf(),
        ensures
            r == (forall|i: int|
                0 <= i < self.terms@.len() ==> sum_exps(#[trigger] self.terms@[i].0@)
                    == self.d as int),
    {
        let mut i: usize = 0;
        while i < self.terms.len()
            invariant
                self.wf(),
                i <= self.terms@.len(),
                forall|j: int|
                    0 <= j < i ==> sum_exps(#[trigger] self.terms@[j].0@) == self.d as int,
            decreases self.terms@.len() - i,
        {
            let s = self.term_degree(i);
            if s != self.d {
                return false;
            }
            i = i + 1;
        }
        true
    }

    /// True exactly when every exponent of every stored monomial is at most
    /// one.
    pub fn is_multilinear(&self) -> (r: bool)
        requires
            self.wf(),
        ensures
            r == (forall|i: int, j: int|
                0 <= i < self.terms@.len() && 0 <= j < self.terms@[i].0@.len()
                    ==> (#[trigger] self.terms@[i].0@[j]) <= 1),
    {
        let mut i: usize = 0;
        while i < self.terms.len()
            invariant
                self.wf(),
                i <= self.terms@.len(),
                forall|p: int, j: int|
                    0 <= p < i && 0 <= j < self.terms@[p].0@.len() ==> (#[trigger] self.terms@[p].0@[j])
                        <= 1,
            decreases self.terms@.len() - i,
        {
            let e = &self.terms[i].0;
            let mut j: usize = 0;
            while j < e.len()
                invariant
                    self.wf(),
                    i < self.terms@.len(),
                    e@ == self.terms@[i as int].0@,
                    j <= e@.len(),
                    forall|k: int| 0 <= k < j ==> (#[trigger] e@[k]) <= 1,
                decreases e@.len() - j,
            {
                if e[j] > 1 {
                    return false;
                }
                j = j + 1;
            }
            i = i + 1;
        }
        true
    }

    /// The constant polynomial with value `c`.
    pub fn constant(n: usize, d: usize, c: Fp) -> (r: Poly)
        requires
            c.wf(),
        ensures
            r.wf(),
            r.n == n,
            r.d == d,
            r.deg_spec() == 0,
            forall|x: Seq<int>| #[trigger] r.eval_spec(x) == c@,
            forall|e: Seq<usize>|
                #[trigger] r.coeff_spec(e) == if e == zero_exps(n as int) {
                    c@
                } else {
                    0
                },
    {
        let mut r = Poly::new(n, d);
        let exps: Vec<usize> = vec![0; n];
        proof {
            assert(exps@ =~= zero_exps(n as int));
            lemma_sum_exps_zero_exps(n as int);
        }
        r.add_monomial(exps, c);
        proof {
            lemma_poly_deg_nonneg(r.terms@);
            assert forall|x: Seq<int>| #[trigger] r.eval_spec(x) == c@ by {
                lemma_mono_eval_all_zero(zero_exps(n as int), x);
                lemma_fmul_one(c@);
            }
        }
        r
    }

    /// The univariate monomial `x_i`.
    pub fn from_variable(n: usize, d: usize, i: usize) -> (r: Poly)
        requires
            i < n,
            1 <= d,
        ensures
            r.wf(),
            r.n == n,
            r.d == d,
            r.deg_spec() <= 1,
            forall|x: Seq<int>| point_wf(x, n as int) ==> #[trigger] r.eval_spec(x) == x[i as int],
            forall|e: Seq<usize>|
                #[trigger] r.coeff_spec(e) == if e == zero_exps(n as int).update(i as int, 1usize) {
                    1int
                } else {
                    0int
                },
    {
        let mut r = Poly::new(n, d);
        let mut exps: Vec<usize> = vec![0; n];
        proof {
            assert(exps@ =~= zero_exps(n as int));
        }
        exps[i] = 1;
        proof {
            assert(exps@ =~= zero_exps(n as int).update(i as int, 1usize));
            lemma_sum_exps_zero_exps(n as int);
            lemma_sum_exps_update(zero_exps(n as int), i as int, 1usize);
        }
        let ghost ev = exps@;
        r.add_monomial(exps, Fp::one());
        proof {
            assert forall|x: Seq<int>| point_wf(x, n as int) implies #[trigger] r.eval_spec(x)
                == x[i as int] by {
                assert forall|j: int| 0 <= j < ev.len() && j != i as int implies #[trigger] ev[j]
                    == 0 by {}
                lemma_mono_eval_unit(ev, x, i as int);
                lemma_fmul_one(x[i as int]);
            }
        }
        r
    }
}

// ------------------------------------------------------------------
// Ring operations.
// ------------------------------------------------------------------
/// Products rebracket across four factors.
pub proof fn lemma_fmul_four(a: int, b: int, c: int, d: int)
    ensures
        fmul(fmul(a, b), fmul(c, d)) == fmul(fmul(a, c), fmul(b, d)),
{
    let m = modulus();
    lemma_mul_mod_noop_general(a * b, c * d, m);
    lemma_mul_mod_noop_general(a * c, b * d, m);
    assert((a * b) * (c * d) == (a * c) * (b * d)) by (nonlinear_arith);
}

/// The product of pointwise-summed exponent vectors evaluates to the product
/// of the monomial values.
pub proof fn lemma_mono_eval_add(a: Seq<usize>, b: Seq<usize>, c: Seq<usize>, x: Seq<int>)
    requires
        a.len() == b.len(),
        c.len() == a.len(),
        forall|j: int| 0 <= j < c.len() ==> #[trigger] c[j] == a[j] + b[j],
    ensures
        mono_eval(c, x) == fmul(mono_eval(a, x), mono_eval(b, x)),
    decreases a.len(),
{
    if a.len() == 0 {
        lemma_fmul_one(1);
    } else {
        assert forall|j: int| 0 <= j < c.drop_first().len() implies #[trigger] c.drop_first()[j]
            == a.drop_first()[j] + b.drop_first()[j] by {
            assert(c.drop_first()[j] == c[j + 1]);
            assert(a.drop_first()[j] == a[j + 1]);
            assert(b.drop_first()[j] == b[j + 1]);
        }
        lemma_mono_eval_add(a.drop_first(), b.drop_first(), c.drop_first(), x.drop_first());
        lemma_fpow_add(x[0], a[0] as nat, b[0] as nat);
        lemma_fmul_four(
            fpow(x[0], a[0] as nat),
            fpow(x[0], b[0] as nat),
            mono_eval(a.drop_first(), x.drop_first()),
            mono_eval(b.drop_first(), x.drop_first()),
        );
    }
}

/// Adds two exponent vectors pointwise.
fn add_exps(a: &Vec<usize>, b: &Vec<usize>) -> (r: Vec<usize>)
    requires
        a@.len() == b@.len(),
        sum_exps(a@) + sum_exps(b@) <= usize::MAX,
    ensures
        r@.len() == a@.len(),
        forall|k: int| 0 <= k < r@.len() ==> #[trigger] r@[k] == a@[k] + b@[k],
{
    let mut r: Vec<usize> = Vec::new();
    let mut k: usize = 0;
    while k < a.len()
        invariant
            a@.len() == b@.len(),
            sum_exps(a@) + sum_exps(b@) <= usize::MAX,
            k <= a@.len(),
            r@.len() == k,
            forall|j: int| 0 <= j < k ==> #[trigger] r@[j] == a@[j] + b@[j],
        decreases a@.len() - k,
    {
        proof {
            lemma_sum_exps_coord(a@, k as int);
            lemma_sum_exps_coord(b@, k as int);
            lemma_sum_exps_nonneg(a@);
            lemma_sum_exps_nonneg(b@);
        }
        r.push(a[k] + b[k]);
        k = k + 1;
    }
    r
}

impl Poly {
    /// Adds `c` times every term of `src` into `self`.
    fn accumulate(&mut self, src: &Vec<Term>, c: Fp)
        requires
            old(self).wf(),
            c.wf(),
            wf_terms(src@, old(self).n as int, old(self).d as int),
        ensures
            final(self).wf(),
            final(self).n == old(self).n,
            final(self).d == old(self).d,
            forall|x: Seq<int>|
                #[trigger] final(self).eval_spec(x) == fadd(
                    old(self).eval_spec(x),
                    fmul(c@, poly_eval(src@, x)),
                ),
            forall|e: Seq<usize>|
                #[trigger] final(self).coeff_spec(e) == fadd(
                    old(self).coeff_spec(e),
                    fmul(c@, coeff_of(src@, e)),
                ),
            final(self).deg_spec() <= int_max(old(self).deg_spec(), poly_deg(src@)),
    {
        let ghost orig = *self;
        let ghost sv = src@;
        let mut i: usize = 0;
        proof {
            assert(sv.skip(0) =~= sv);
            assert(sv.take(0) =~= Seq::<Term>::empty());
            lemma_poly_deg_nonneg(orig.terms@);
            lemma_poly_deg_nonneg(sv);
            assert forall|e: Seq<usize>| #[trigger] coeff_of(self.terms@, e) == fadd(
                coeff_of(orig.terms@, e),
                fmul(c@, coeff_of(sv.take(0), e)),
            ) by {
                assert(coeff_of(sv.take(0), e) == 0);
                lemma_fmul_zero(c@);
                lemma_coeff_of_in_fp(orig.terms@, e, orig.n as int, orig.d as int);
                lemma_fadd_zero(coeff_of(orig.terms@, e));
            }
        }
        while i < src.len()
            invariant
                self.wf(),
                self.n == orig.n,
                self.d == orig.d,
                orig.wf(),
                c.wf(),
                sv == src@,
                wf_terms(sv, orig.n as int, orig.d as int),
                i <= sv.len(),
                forall|x: Seq<int>|
                    fadd(#[trigger] self.eval_spec(x), fmul(c@, poly_eval(sv.skip(i as int), x)))
                        == fadd(orig.eval_spec(x), fmul(c@, poly_eval(sv, x))),
                forall|e: Seq<usize>|
                    #[trigger] coeff_of(self.terms@, e) == fadd(
                        coeff_of(orig.terms@, e),
                        fmul(c@, coeff_of(sv.take(i as int), e)),
                    ),
                self.deg_spec() <= int_max(orig.deg_spec(), poly_deg(sv)),
            decreases sv.len() - i,
        {
            let ghost before = *self;
            let exps = copy_exps(&src[i].0);
            let coeff = src[i].1.mul(c);
            proof {
                lemma_poly_deg_bound(sv, i as int);
            }
            self.add_monomial(exps, coeff);
            proof {
                let t = sv[i as int];
                let sk = sv.skip(i as int);
                assert(sk[0] == t);
                assert(sk.drop_first() =~= sv.skip(i as int + 1));
                assert forall|x: Seq<int>| fadd(
                    #[trigger] self.eval_spec(x),
                    fmul(c@, poly_eval(sv.skip(i as int + 1), x)),
                ) == fadd(orig.eval_spec(x), fmul(c@, poly_eval(sv, x))) by {
                    let m = mono_eval(t.0@, x);
                    let rest = poly_eval(sv.skip(i as int + 1), x);
                    // the added contribution is c times the source term's one
                    assert(self.eval_spec(x) == fadd(before.eval_spec(x), fmul(coeff@, m)));
                    lemma_fmul_assoc(t.1@, c@, m);
                    lemma_fmul_comm(t.1@, c@);
                    lemma_fmul_assoc(c@, t.1@, m);
                    assert(fmul(coeff@, m) == fmul(c@, fmul(t.1@, m)));
                    assert(poly_eval(sk, x) == fadd(term_val(t, x), rest));
                    lemma_fmul_distrib(c@, term_val(t, x), rest);
                    lemma_fadd_assoc(before.eval_spec(x), fmul(c@, term_val(t, x)), fmul(c@, rest));
                }
                // the processed prefix grows by this term, whose exponent
                // vector is fresh in it
                assert(sv.take(i as int + 1) =~= sv.take(i as int).push(t));
                assert(!has_exp(sv.take(i as int), t.0@)) by {
                    if has_exp(sv.take(i as int), t.0@) {
                        let k = choose|k: int|
                            0 <= k < sv.take(i as int).len() && #[trigger] sv.take(i as int)[k].0@
                                == t.0@;
                        assert(sv[k].0@ == sv[i as int].0@);
                    }
                }
                assert forall|e: Seq<usize>| #[trigger] coeff_of(self.terms@, e) == fadd(
                    coeff_of(orig.terms@, e),
                    fmul(c@, coeff_of(sv.take(i as int + 1), e)),
                ) by {
                    lemma_coeff_of_push(sv.take(i as int), t, e);
                    assert(self.coeff_spec(e) == coeff_of(self.terms@, e));
                    assert(before.coeff_spec(e) == coeff_of(before.terms@, e));
                    if e == t.0@ {
                        lemma_coeff_of_absent(sv.take(i as int), e);
                        lemma_fmul_zero(c@);
                        lemma_coeff_of_in_fp(orig.terms@, e, orig.n as int, orig.d as int);
                        lemma_fadd_zero(coeff_of(orig.terms@, e));
                        assert(coeff_of(before.terms@, e) == coeff_of(orig.terms@, e));
                        assert(coeff_of(self.terms@, e) == fadd(coeff_of(before.terms@, e), coeff@));
                        lemma_fmul_comm(t.1@, c@);
                        assert(coeff_of(sv.take(i as int + 1), e) == t.1@);
                    } else {
                        assert(coeff_of(self.terms@, e) == coeff_of(before.terms@, e));
                        assert(coeff_of(sv.take(i as int + 1), e) == coeff_of(sv.take(i as int), e));
                    }
                }
            }
            i = i + 1;
        }
        proof {
            assert(sv.skip(sv.len() as int) =~= Seq::<Term>::empty());
            assert(sv.take(sv.len() as int) =~= sv);
            assert forall|x: Seq<int>| #[trigger] self.eval_spec(x) == fadd(
                orig.eval_spec(x),
                fmul(c@, poly_eval(sv, x)),
            ) by {
                lemma_fmul_zero(c@);
                lemma_poly_eval_in_fp(self.terms@, x);
            }
        }
    }

    /// The polynomial scaled by `scalar`.
    pub fn mul_by_scalar(&self, scalar: Fp) -> (r: Poly)
        requires
            self.wf(),
            scalar.wf(),
        ensures
            r.wf(),
            r.n == self.n,
            r.d == self.d,
            forall|x: Seq<int>|
                #[trigger] r.eval_spec(x) == fmul(scalar@, self.eval_spec(x)),
            forall|e: Seq<usize>|
                #[trigger] r.coeff_spec(e) == fmul(scalar@, self.coeff_spec(e)),
            r.deg_spec() <= self.deg_spec(),
    {
        let mut r = Poly::new(self.n, self.d);
        r.accumulate(&self.terms, scalar);
        proof {
            lemma_poly_deg_nonneg(self.terms@);
            assert forall|e: Seq<usize>| #[trigger] r.coeff_spec(e) == fmul(
                scalar@,
                self.coeff_spec(e),
            ) by {
                lemma_fmul_in_fp(scalar@, self.coeff_spec(e));
                lemma_fadd_zero(fmul(scalar@, self.coeff_spec(e)));
            }
            assert forall|x: Seq<int>| #[trigger] r.eval_spec(x) == fmul(
                scalar@,
                self.eval_spec(x),
            ) by {
                lemma_fmul_in_fp(scalar@, self.eval_spec(x));
            }
        }
        r
    }

    /// The additive inverse of the polynomial.
    pub fn neg(&self) -> (r: Poly)
        requires
            self.wf(),
        ensures
            r.wf(),
            r.n == self.n,
            r.d == self.d,
            forall|x: Seq<int>| #[trigger] r.eval_spec(x) == fneg(self.eval_spec(x)),
            forall|e: Seq<usize>| #[trigger] r.coeff_spec(e) == fneg(self.coeff_spec(e)),
            r.deg_spec() <= self.deg_spec(),
    {
        let r = self.mul_by_scalar(Fp { v: MODULUS_MINUS_ONE });
        proof {
            assert forall|x: Seq<int>| #[trigger] r.eval_spec(x) == fneg(self.eval_spec(x)) by {
                lemma_fneg_as_mul(self.eval_spec(x));
            }
            assert forall|e: Seq<usize>| #[trigger] r.coeff_spec(e) == fneg(
                self.coeff_spec(e),
            ) by {
                lemma_fneg_as_mul(self.coeff_spec(e));
            }
        }
        r
    }

    /// The polynomial doubled.
    pub fn double(&self) -> (r: Poly)
        requires
            self.wf(),
        ensures
            r.wf(),
            r.n == self.n,
            r.d == self.d,
            forall|x: Seq<int>|
                #[trigger] r.eval_spec(x) == fadd(self.eval_spec(x), self.eval_spec(x)),
            forall|e: Seq<usize>|
                #[trigger] r.coeff_spec(e) == fadd(self.coeff_spec(e), self.coeff_spec(e)),
            r.deg_spec() <= self.deg_spec(),
    {
        let r = self.mul_by_scalar(Fp { v: 2 });
        proof {
            assert forall|x: Seq<int>| #[trigger] r.eval_spec(x) == fadd(
                self.eval_spec(x),
                self.eval_spec(x),
            ) by {
                let a = self.eval_spec(x);
                assert(2 * a == a + a) by (nonlinear_arith);
            }
            assert forall|e: Seq<usize>| #[trigger] r.coeff_spec(e) == fadd(
                self.coeff_spec(e),
                self.coeff_spec(e),
            ) by {
                let a = self.coeff_spec(e);
                assert(2 * a == a + a) by (nonlinear_arith);
            }
        }
        r
    }

    /// The sum of two polynomials over the same variables and degree bound.
    pub fn add(&self, other: &Poly) -> (r: Poly)
        requires
            self.wf(),
            other.wf(),
            self.n == other.n,
            self.d == other.d,
        ensures
            r.wf(),
            r.n == self.n,
            r.d == self.d,
            forall|x: Seq<int>|
                #[trigger] r.eval_spec(x) == fadd(self.eval_spec(x), other.eval_spec(x)),
            forall|e: Seq<usize>|
                #[trigger] r.coeff_spec(e) == fadd(self.coeff_spec(e), other.coeff_spec(e)),
            r.deg_spec() <= int_max(self.deg_spec(), other.deg_spec()),
    {
        let mut r = Poly::new(self.n, self.d);
        r.accumulate(&self.terms, Fp { v: 1 });
        r.accumulate(&other.terms, Fp { v: 1 });
        proof {
            lemma_poly_deg_nonneg(self.terms@);
            lemma_poly_deg_nonneg(other.terms@);
            assert forall|x: Seq<int>| #[trigger] r.eval_spec(x) == fadd(
                self.eval_spec(x),
                other.eval_spec(x),
            ) by {
                lemma_poly_eval_in_fp(self.terms@, x);
                lemma_poly_eval_in_fp(other.terms@, x);
                lemma_fmul_one(self.eval_spec(x));
                lemma_fmul_one(other.eval_spec(x));
                lemma_fadd_in_fp(0, fmul(1, self.eval_spec(x)));
            }
            assert forall|e: Seq<usize>| #[trigger] r.coeff_spec(e) == fadd(
                self.coeff_spec(e),
                other.coeff_spec(e),
            ) by {
                lemma_coeff_of_in_fp(self.terms@, e, self.n as int, self.d as int);
                lemma_coeff_of_in_fp(other.terms@, e, other.n as int, other.d as int);
                lemma_fmul_one(self.coeff_spec(e));
                lemma_fmul_one(other.coeff_spec(e));
                lemma_fadd_zero(self.coeff_spec(e));
            }
        }
        r
    }

    /// The difference of two polynomials over the same variables and degree
    /// bound.
    pub fn sub(&self, other: &Poly) -> (r: Poly)
        requires
            self.wf(),
            other.wf(),
            self.n == other.n,
            self.d == other.d,
        ensures
            r.wf(),
            r.n == self.n,
            r.d == self.d,
            forall|x: Seq<int>|
                #[trigger] r.eval_spec(x) == crate::field::fsub(
                    self.eval_spec(x),
                    other.eval_spec(x),
                ),
            forall|e: Seq<usize>|
                #[trigger] r.coeff_spec(e) == crate::field::fsub(
                    self.coeff_spec(e),
                    other.coeff_spec(e),
                ),
            r.deg_spec() <= int_max(self.deg_spec(), other.deg_spec()),
    {
        let o = other.neg();
        self.add(&o)
    }

    /// The product of two polynomials.  The degree bound is hard: the caller
    /// must guarantee that the operands' total degrees sum to at most `d`.
    pub fn mul(&self, other: &Poly) -> (r: Poly)
        requires
            self.wf(),
            other.wf(),
            self.n == other.n,
            self.d == other.d,
            self.deg_spec() + other.deg_spec() <= self.d,
        ensures
            r.wf(),
            r.n == self.n,
            r.d == self.d,
            forall|x: Seq<int>|
                #[trigger] r.eval_spec(x) == fmul(self.eval_spec(x), other.eval_spec(x)),
            r.deg_spec() <= self.deg_spec() + other.deg_spec(),
    {
        let ghost pv = self.terms@;
        let ghost qv = other.terms@;
        let mut r = Poly::new(self.n, self.d);
        let mut i: usize = 0;
        proof {
            assert(pv.skip(0) =~= pv);
            lemma_poly_deg_nonneg(pv);
            lemma_poly_deg_nonneg(qv);
            assert forall|x: Seq<int>| fadd(
                #[trigger] r.eval_spec(x),
                fmul(poly_eval(pv.skip(0), x), poly_eval(qv, x)),
            ) == fmul(poly_eval(pv, x), poly_eval(qv, x)) by {
                assert(r.terms@ =~= Seq::<Term>::empty());
                assert(poly_eval(Seq::<Term>::empty(), x) == 0);
                assert(r.eval_spec(x) == 0);
                assert(pv.skip(0) =~= pv);
                assert(poly_eval(pv.skip(0), x) == poly_eval(pv, x));
                let z = fmul(poly_eval(pv, x), poly_eval(qv, x));
                lemma_fmul_in_fp(poly_eval(pv, x), poly_eval(qv, x));
                crate::field::lemma_fadd_zero(z);
                assert(fadd(0, z) == z);
            }
        }
        while i < self.terms.len()
            invariant
                self.wf(),
                other.wf(),
                self.n == other.n,
                self.d == other.d,
                self.deg_spec() + other.deg_spec() <= self.d,
                pv == self.terms@,
                qv == other.terms@,
                i <= pv.len(),
                r.wf(),
                r.n == self.n,
                r.d == self.d,
                forall|x: Seq<int>|
                    fadd(
                        #[trigger] r.eval_spec(x),
                        fmul(poly_eval(pv.skip(i as int), x), poly_eval(qv, x)),
                    ) == fmul(poly_eval(pv, x), poly_eval(qv, x)),
                r.deg_spec() <= poly_deg(pv) + poly_deg(qv),
            decreases pv.len() - i,
        {
            let mut j: usize = 0;
            proof {
                assert(qv.skip(0) =~= qv);
                let sk = pv.skip(i as int);
                assert(sk[0] == pv[i as int]);
                assert(sk.drop_first() =~= pv.skip(i as int + 1));
                assert forall|x: Seq<int>| fadd(
                    #[trigger] r.eval_spec(x),
                    fadd(
                        fmul(term_val(pv[i as int], x), poly_eval(qv.skip(0), x)),
                        fmul(poly_eval(pv.skip(i as int + 1), x), poly_eval(qv, x)),
                    ),
                ) == fmul(poly_eval(pv, x), poly_eval(qv, x)) by {
                    let ti = term_val(pv[i as int], x);
                    let rest = poly_eval(pv.skip(i as int + 1), x);
                    let q = poly_eval(qv, x);
                    assert(poly_eval(pv.skip(i as int), x) == fadd(ti, rest));
                    lemma_fmul_comm(fadd(ti, rest), q);
                    lemma_fmul_distrib(q, ti, rest);
                    lemma_fmul_comm(q, ti);
                    lemma_fmul_comm(q, rest);
                    assert(qv.skip(0) == qv);
                }
            }
            while j < other.terms.len()
                invariant
                    self.wf(),
                    other.wf(),
                    self.n == other.n,
                    self.d == other.d,
                    self.deg_spec() + other.deg_spec() <= self.d,
                    pv == self.terms@,
                    qv == other.terms@,
                    i < pv.len(),
                    j <= qv.len(),
                    r.wf(),
                    r.n == self.n,
                    r.d == self.d,
                    forall|x: Seq<int>|
                        fadd(
                            #[trigger] r.eval_spec(x),
                            fadd(
                                fmul(term_val(pv[i as int], x), poly_eval(qv.skip(j as int), x)),
                                fmul(poly_eval(pv.skip(i as int + 1), x), poly_eval(qv, x)),
                            ),
                        ) == fmul(poly_eval(pv, x), poly_eval(qv, x)),
                    r.deg_spec() <= poly_deg(pv) + poly_deg(qv),
                decreases qv.len() - j,
            {
                let ghost before = r;
                proof {
                    lemma_poly_deg_bound(pv, i as int);
                    lemma_poly_deg_bound(qv, j as int);
                    lemma_sum_exps_nonneg(pv[i as int].0@);
                    lemma_sum_exps_nonneg(qv[j as int].0@);
                }
                let exps = add_exps(&self.terms[i].0, &other.terms[j].0);
                let coeff = self.terms[i].1.mul(other.terms[j].1);
                proof {
                    lemma_sum_exps_add(pv[i as int].0@, qv[j as int].0@, exps@);
                }
                r.add_monomial(exps, coeff);
                proof {
                    let ti = pv[i as int];
                    let tj = qv[j as int];
                    let sk = qv.skip(j as int);
                    assert(sk[0] == tj);
                    assert(sk.drop_first() =~= qv.skip(j as int + 1));
                    assert forall|x: Seq<int>| fadd(
                        #[trigger] r.eval_spec(x),
                        fadd(
                            fmul(term_val(ti, x), poly_eval(qv.skip(j as int + 1), x)),
                            fmul(poly_eval(pv.skip(i as int + 1), x), poly_eval(qv, x)),
                        ),
                    ) == fmul(poly_eval(pv, x), poly_eval(qv, x)) by {
                        let mi = mono_eval(ti.0@, x);
                        let mj = mono_eval(tj.0@, x);
                        let restq = poly_eval(qv.skip(j as int + 1), x);
                        let tailp = fmul(poly_eval(pv.skip(i as int + 1), x), poly_eval(qv, x));
                        lemma_mono_eval_add(ti.0@, tj.0@, exps@, x);
                        // the added contribution equals term_val(ti) * term_val(tj)
                        assert(r.eval_spec(x) == fadd(
                            before.eval_spec(x),
                            fmul(coeff@, mono_eval(exps@, x)),
                        ));
                        lemma_fmul_four(ti.1@, tj.1@, mi, mj);
                        assert(fmul(coeff@, mono_eval(exps@, x)) == fmul(
                            term_val(ti, x),
                            term_val(tj, x),
                        ));
                        // split the j-suffix of q
                        assert(poly_eval(sk, x) == fadd(term_val(tj, x), restq));
                        lemma_fmul_distrib(term_val(ti, x), term_val(tj, x), restq);
                        // rebracket the three summands
                        let a = before.eval_spec(x);
                        let b = fmul(term_val(ti, x), term_val(tj, x));
                        let c = fmul(term_val(ti, x), restq);
                        lemma_fadd_assoc(a, b, fadd(c, tailp));
                        lemma_fadd_assoc(b, c, tailp);
                        lemma_fadd_assoc(a, fadd(b, c), tailp);
                        assert(fadd(a, fadd(b, fadd(c, tailp))) == fadd(
                            a,
                            fadd(fadd(b, c), tailp),
                        ));
                        assert(fmul(term_val(ti, x), poly_eval(sk, x)) == fadd(b, c));
                        assert(fadd(r.eval_spec(x), fadd(c, tailp)) == fadd(
                            fadd(a, b),
                            fadd(c, tailp),
                        ));
                    }
                }
                j = j + 1;
            }
            proof {
                assert(qv.skip(qv.len() as int) =~= Seq::<Term>::empty());
                let sk = pv.skip(i as int);
                assert(sk[0] == pv[i as int]);
                assert(sk.drop_first() =~= pv.skip(i as int + 1));
                assert forall|x: Seq<int>| fadd(
                    #[trigger] r.eval_spec(x),
                    fmul(poly_eval(pv.skip(i as int + 1), x), poly_eval(qv, x)),
                ) == fmul(poly_eval(pv, x), poly_eval(qv, x)) by {
                    let ti = term_val(pv[i as int], x);
                    let tailp = fmul(poly_eval(pv.skip(i as int + 1), x), poly_eval(qv, x));
                    lemma_fmul_zero(ti);
                    assert(fmul(ti, poly_eval(Seq::<Term>::empty(), x)) == 0);
                    lemma_fadd_in_fp(r.eval_spec(x), fadd(0, tailp));
                    assert(fadd(0, tailp) == tailp % modulus());
                    lemma_fadd_in_fp(0, tailp);
                    lemma_fmul_in_fp(poly_eval(pv.skip(i as int + 1), x), poly_eval(qv, x));
                    assert(fadd(0, tailp) == tailp);
                }
            }
            i = i + 1;
        }
        proof {
            assert(pv.skip(pv.len() as int) =~= Seq::<Term>::empty());
            assert forall|x: Seq<int>| #[trigger] r.eval_spec(x) == fmul(
                poly_eval(pv, x),
                poly_eval(qv, x),
            ) by {
                lemma_fmul_zero(poly_eval(qv, x));
                lemma_poly_eval_in_fp(r.terms@, x);
            }
        }
        r
    }

    /// The stored coefficient of the given monomial (zero if absent).
    pub fn get_coefficient(&self, exponents: &Vec<usize>) -> (r: Fp)
        requires
            self.wf(),
        ensures
            r.wf(),
            r@ == self.coeff_spec(exponents@),
    {
        match self.find_term(exponents) {
            Some(i) => {
                proof {
                    lemma_coeff_of_found(self.terms@, i as int);
                }
                self.terms[i].1
            },
            None => {
                proof {
                    lemma_coeff_of_absent(self.terms@, exponents@);
                }
                Fp { v: 0 }
            },
        }
    }
}

// ------------------------------------------------------------------
// Homogeneity and the coefficient map.
// ------------------------------------------------------------------
/// A nonzero entry of the coefficient map belongs to a stored monomial.
pub proof fn lemma_coeff_nonzero_is_stored(ts: Seq<Term>, e: Seq<usize>)
    requires
        coeff_of(ts, e) != 0,
    ensures
        exists|i: int| 0 <= i < ts.len() && (#[trigger] ts[i]).0@ == e,
    decreases ts.len(),
{
    if ts.len() > 0 {
        if ts[0].0@ == e {
            assert(ts[0].0@ == e);
        } else {
            lemma_coeff_nonzero_is_stored(ts.drop_first(), e);
            let j = choose|j: int| 0 <= j < ts.drop_first().len() && (#[trigger] ts.drop_first()[j]).0@ == e;
            assert(ts[j + 1].0@ == e);
        }
    }
}

/// A monomial of off-bound total degree with a nonzero coefficient leaves
/// the polynomial inhomogeneous: together with the contract of
/// [`Poly::is_homogeneous`], the check returns false after
/// [`Poly::add_monomial`] has given such a monomial a nonzero coefficient.
pub proof fn lemma_off_degree_coefficient_not_homogeneous(p: Poly, e: Seq<usize>)
    requires
        p.wf(),
        sum_exps(e) != p.d as int,
        p.coeff_spec(e) != 0,
    ensures
        exists|i: int|
            0 <= i < p.terms@.len() && sum_exps((#[trigger] p.terms@[i]).0@) != p.d as int,
{
    lemma_coeff_nonzero_is_stored(p.terms@, e);
    let i = choose|i: int| 0 <= i < p.terms@.len() && (#[trigger] p.terms@[i]).0@ == e;
    assert(sum_exps(p.terms@[i].0@) != p.d as int);
}

// ------------------------------------------------------------------
// Pseudorandom polynomials for testing.
// ------------------------------------------------------------------
/// All exponent vectors of length `n` with total degree at most `max_degree`.
fn exponent_vectors(n: usize, max_degree: usize) -> (r: Vec<Vec<usize>>)
    requires
        max_degree < usize::MAX,
    ensures
        forall|i: int|
            0 <= i < r@.len() ==> {
                &&& (#[trigger] r@[i])@.len() == n
                &&& sum_exps(r@[i]@) <= max_degree
            },
    decreases n,
{
    let mut r: Vec<Vec<usize>> = Vec::new();
    if n == 0 {
        let empty: Vec<usize> = Vec::new();
        proof {
            assert(empty@ =~= Seq::<usize>::empty());
        }
        r.push(empty);
        return r;
    }
    let mut e0: usize = 0;
    while e0 <= max_degree
        invariant
            n >= 1,
            max_degree < usize::MAX,
            e0 <= max_degree + 1,
            forall|i: int|
                0 <= i < r@.len() ==> {
                    &&& (#[trigger] r@[i])@.len() == n
                    &&& sum_exps(r@[i]@) <= max_degree
                },
        decreases max_degree - e0 + 1,
    {
        let tails = exponent_vectors(n - 1, max_degree - e0);
        let mut t: usize = 0;
        while t < tails.len()
            invariant
                n >= 1,
                max_degree < usize::MAX,
                e0 <= max_degree,
                t <= tails@.len(),
                forall|i: int|
                    0 <= i < tails@.len() ==> {
                        &&& (#[trigger] tails@[i])@.len() == n - 1
                        &&& sum_exps(tails@[i]@) <= max_degree - e0
                    },
                forall|i: int|
                    0 <= i < r@.len() ==> {
                        &&& (#[trigger] r@[i])@.len() == n
                        &&& sum_exps(r@[i]@) <= max_degree
                    },
            decreases tails@.len() - t,
        {
            let tail = &tails[t];
            let mut v: Vec<usize> = Vec::new();
            v.push(e0);
            let mut k: usize = 0;
            while k < tail.len()
                invariant
                    k <= tail@.len(),
                    v@.len() == k + 1,
                    v@[0] == e0,
                    forall|j: int| 1 <= j < v@.len() ==> #[trigger] v@[j] == tail@[j - 1],
                decreases tail@.len() - k,
            {
                v.push(tail[k]);
                k = k + 1;
            }
            proof {
                assert(v@.drop_first() =~= tails@[t as int]@);
                assert(sum_exps(v@) == e0 + sum_exps(tails@[t as int]@));
                lemma_sum_exps_nonneg(tails@[t as int]@);
            }
            r.push(v);
            t = t + 1;
        }
        e0 = e0 + 1;
    }
    r
}

impl Poly {
    /// A pseudorandom polynomial with monomials of total degree up to
    /// `max_degree` (the full bound `d` when `None` is given), with
    /// coefficients derived from the seed by a linear congruential step.
    /// The stream is deterministic in the seed and documented as unsuitable
    /// for cryptographic randomness: it exists for testing.
    pub fn random(n: usize, d: usize, seed: u64, max_degree: Option<usize>) -> (r: Poly)
        requires
            d < usize::MAX,
            (match max_degree {
                Some(m) => m <= d,
                None => true,
            }),
        ensures
            r.wf(),
            r.n == n,
            r.d == d,
            r.deg_spec() <= (match max_degree {
                Some(m) => m as int,
                None => d as int,
            }),
    {
        let md = match max_degree {
            Some(m) => m,
            None => d,
        };
        let mut p = Poly::new(n, d);
        let exps = exponent_vectors(n, md);
        let mut state: u64 = seed;
        let mut i: usize = 0;
        proof {
            lemma_poly_deg_nonneg(p.terms@);
        }
        while i < exps.len()
            invariant
                p.wf(),
                p.n == n,
                p.d == d,
                md <= d,
                i <= exps@.len(),
                p.deg_spec() <= md,
                forall|q: int|
                    0 <= q < exps@.len() ==> {
                        &&& (#[trigger] exps@[q])@.len() == n
                        &&& sum_exps(exps@[q]@) <= md
                    },
            decreases exps@.len() - i,
        {
            state = state.wrapping_mul(6364136223846793005).wrapping_add(1442695040888963407);
            let coeff = Fp::new(state);
            let e = copy_exps(&exps[i]);
            p.add_monomial(e, coeff);
            i = i + 1;
        }
        p
    }
}

// ------------------------------------------------------------------
// The homogenization identity.
// ------------------------------------------------------------------
/// Homogenizing with `u == 1` changes nothing: every padding factor is a
/// power of one.
pub proof fn lemma_homog_eval_at_one(ts: Seq<Term>, x: Seq<int>, d: int)
    requires
        forall|i: int| 0 <= i < ts.len() ==> sum_exps((#[trigger] ts[i]).0@) <= d,
    ensures
        homog_eval(ts, x, 1, d) == poly_eval(ts, x),
    decreases ts.len(),
{
    if ts.len() > 0 {
        assert forall|i: int| 0 <= i < ts.drop_first().len() implies sum_exps(
            (#[trigger] ts.drop_first()[i]).0@,
        ) <= d by {
            assert(ts.drop_first()[i] == ts[i + 1]);
        }
        lemma_homog_eval_at_one(ts.drop_first(), x, d);
        let t = ts[0];
        lemma_fpow_one_base((d - sum_exps(t.0@)) as nat);
        lemma_mono_eval_in_fp(t.0@, x);
        lemma_fmul_one(mono_eval(t.0@, x));
        assert(homog_term_val(t, x, 1, d) == term_val(t, x));
    }
}

/// The homogenization identity: for every polynomial `p` and point `x`,
/// evaluating the degree-`d` homogenization of `p` at `(x, 1)` gives the
/// plain evaluation of `p` at `x`.
pub proof fn lemma_homogeneous_eval_identity(p: Poly, x: Seq<int>)
    requires
        p.wf(),
    ensures
        p.homog_eval_spec(x, 1) == p.eval_spec(x),
{
    lemma_homog_eval_at_one(p.terms@, x, p.d as int);
}

/// One less than the modulus: the residue of minus one.
pub const MODULUS_MINUS_ONE: u64 = 4294967290;

/// Multiplying by the residue of minus one negates.
pub proof fn lemma_fneg_as_mul(a: int)
    ensures
        fmul(MODULUS_MINUS_ONE as int, a) == fneg(a),
{
    let m = modulus();
    assert(MODULUS_MINUS_ONE as int == m - 1);
    assert((m - 1) * a == m * a + (-a)) by (nonlinear_arith);
    lemma_mod_multiples_vanish(a, -a, m);
    assert(fmul(m - 1, a) == (-a) % m);
    lemma_mod_multiples_vanish(1, -a, m);
    assert(m - a == m * 1 + (-a)) by (nonlinear_arith);
    assert(fneg(a) == (-a) % m);
}

// ------------------------------------------------------------------
// Cancellation in the additive group.
// ------------------------------------------------------------------
/// Additive cancellation on the right.
pub proof fn lemma_cancel_right(a: int, b: int, c: int)
    requires
        in_fp(a),
        in_fp(b),
        in_fp(c),
        fadd(a, c) == fadd(b, c),
    ensures
        a == b,
{
    lemma_fneg(c);
    lemma_fadd_assoc(a, c, fneg(c));
    lemma_fadd_assoc(b, c, fneg(c));
}

/// Additive cancellation on the left.
pub proof fn lemma_cancel_left(c: int, a: int, b: int)
    requires
        in_fp(a),
        in_fp(b),
        in_fp(c),
        fadd(c, a) == fadd(c, b),
    ensures
        a == b,
{
    assert(fadd(c, a) == fadd(a, c));
    assert(fadd(c, b) == fadd(b, c));
    lemma_cancel_right(a, b, c);
}

/// Negation factors out of a product.
pub proof fn lemma_fmul_fneg(a: int, b: int)
    ensures
        fmul(fneg(a), b) == fneg(fmul(a, b)),
{
    let m = modulus();
    lemma_mul_mod_noop_general(m - a, b, m);
    assert((m - a) * b == b * m + (-(a * b))) by (nonlinear_arith);
    lemma_mod_multiples_vanish(b, -(a * b), m);
    // fneg(fmul(a, b)) == (m - (a*b) % m) % m == (-(a*b)) % m
    lemma_mod_multiples_vanish(1, -((a * b) % m), m);
    lemma_mul_mod_noop_general(a * b, 1, m);
    assert((a * b) * 1 == a * b) by (nonlinear_arith);
    assert((m - (a * b) % m) == 1 * m + (-((a * b) % m)));
    assert(fneg(fmul(a, b)) == (-((a * b) % m)) % m);
    assert((-((a * b) % m)) % m == (-(a * b)) % m) by {
        vstd::arithmetic::div_mod::lemma_sub_mod_noop_right(0, a * b, m);
    }
}

} // verus!
