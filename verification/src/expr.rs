//! The expression compiler: rewrites an arithmetic constraint expression
//! into a [`Poly`] of the polynomial engine.
//!
//! Only constant literals, current-row cell references and the arithmetic
//! connectives are meaningful at this boundary.  Symbolic challenges,
//! protocol constants, cached sub-expressions, conditional-feature nodes and
//! next-row references never legitimately appear here: compiling one returns
//! a typed failure instead of aborting, since a malformed circuit is a
//! realistic external input.

use crate::column::{column_index, column_is_variable, Column};
use crate::error::{Error, NodeKind};
use crate::field::{fadd, fmul, fpow, fsub, lemma_fmul_one, lemma_fpow_in_fp, Fp};
use crate::mvpoly::{point_wf, Poly};
use vstd::arithmetic::mul::{lemma_mul_inequality, lemma_mul_nonnegative};
use vstd::prelude::*;

verus! {

/// Which row a cell reference points at.
#[derive(Clone, Copy, Debug, PartialEq, Eq, Structural)]
pub enum CurrOrNext {
    Curr,
    Next,
}

/// A constant sub-expression: the scalar layer of the expression language.
#[derive(Debug)]
pub enum ConstantExpr {
    /// A symbolic challenge atom; not meaningful at this boundary.
    Challenge,
    /// The endomorphism-coefficient constant atom; not meaningful here.
    EndoCoefficient,
    /// An MDS-matrix entry constant atom; not meaningful here.
    Mds { row: usize, col: usize },
    /// A field literal.
    Literal(Fp),
    Add(Box<ConstantExpr>, Box<ConstantExpr>),
    Sub(Box<ConstantExpr>, Box<ConstantExpr>),
    Mul(Box<ConstantExpr>, Box<ConstantExpr>),
    Double(Box<ConstantExpr>),
    Square(Box<ConstantExpr>),
    Pow(Box<ConstantExpr>, u64),
    /// A cached sub-expression; not meaningful at this boundary.
    Cache(Box<ConstantExpr>),
    /// A conditional-feature node; not meaningful at this boundary.
    IfFeature(Box<ConstantExpr>, Box<ConstantExpr>),
}

/// A constraint expression over circuit columns.
#[derive(Debug)]
pub enum Expr {
    Constant(ConstantExpr),
    /// A cell reference: a column at the current or the next row.
    Cell { col: Column, row: CurrOrNext },
    /// An unnormalized Lagrange basis atom; not meaningful at this boundary.
    UnnormalizedLagrangeBasis,
    /// The vanishing-polynomial atom; not meaningful at this boundary.
    VanishesOnZeroKnowledgeAndPreviousRows,
    Add(Box<Expr>, Box<Expr>),
    Sub(Box<Expr>, Box<Expr>),
    Mul(Box<Expr>, Box<Expr>),
    Double(Box<Expr>),
    Square(Box<Expr>),
    Pow(Box<Expr>, u64),
    /// A cached sub-expression; not meaningful at this boundary.
    Cache(Box<Expr>),
    /// A conditional-feature node; not meaningful at this boundary.
    IfFeature(Box<Expr>, Box<Expr>),
}

// ------------------------------------------------------------------
// The specification of the compiler.
// ------------------------------------------------------------------
/// Which result compiling a constant sub-expression must have: `Ok` exactly
/// when no unsupported node occurs, and otherwise the error of the first
/// unsupported node in evaluation order.
pub open spec fn const_check(c: ConstantExpr) -> Result<(), Error>
    decreases c,
{
    match c {
        ConstantExpr::Challenge => Err(Error::UnsupportedConstruct(NodeKind::Challenge)),
        ConstantExpr::EndoCoefficient => Err(
            Error::UnsupportedConstruct(NodeKind::EndoCoefficient),
        ),
        ConstantExpr::Mds { .. } => Err(Error::UnsupportedConstruct(NodeKind::Mds)),
        ConstantExpr::Literal(_) => Ok(()),
        ConstantExpr::Add(a, b) => if const_check(*a) is Err {
            const_check(*a)
        } else {
            const_check(*b)
        },
        ConstantExpr::Sub(a, b) => if const_check(*a) is Err {
            const_check(*a)
        } else {
            const_check(*b)
        },
        ConstantExpr::Mul(a, b) => if const_check(*a) is Err {
            const_check(*a)
        } else {
            const_check(*b)
        },
        ConstantExpr::Double(a) => const_check(*a),
        ConstantExpr::Square(a) => const_check(*a),
        ConstantExpr::Pow(a, _) => const_check(*a),
        ConstantExpr::Cache(_) => Err(Error::UnsupportedConstruct(NodeKind::Cache)),
        ConstantExpr::IfFeature(_, _) => Err(Error::UnsupportedConstruct(NodeKind::IfFeature)),
    }
}

/// Every literal in the constant sub-expression is a reduced residue.
pub open spec fn const_lits_wf(c: ConstantExpr) -> bool
    decreases c,
{
    match c {
        ConstantExpr::Literal(f) => f.wf(),
        ConstantExpr::Add(a, b) => const_lits_wf(*a) && const_lits_wf(*b),
        ConstantExpr::Sub(a, b) => const_lits_wf(*a) && const_lits_wf(*b),
        ConstantExpr::Mul(a, b) => const_lits_wf(*a) && const_lits_wf(*b),
        ConstantExpr::Double(a) => const_lits_wf(*a),
        ConstantExpr::Square(a) => const_lits_wf(*a),
        ConstantExpr::Pow(a, _) => const_lits_wf(*a),
        ConstantExpr::Cache(a) => const_lits_wf(*a),
        ConstantExpr::IfFeature(a, b) => const_lits_wf(*a) && const_lits_wf(*b),
        _ => true,
    }
}

/// The arithmetic value of a supported constant sub-expression.
pub open spec fn const_eval(c: ConstantExpr) -> int
    decreases c,
{
    match c {
        ConstantExpr::Literal(f) => f@,
        ConstantExpr::Add(a, b) => fadd(const_eval(*a), const_eval(*b)),
        ConstantExpr::Sub(a, b) => fsub(const_eval(*a), const_eval(*b)),
        ConstantExpr::Mul(a, b) => fmul(const_eval(*a), const_eval(*b)),
        ConstantExpr::Double(a) => fadd(const_eval(*a), const_eval(*a)),
        ConstantExpr::Square(a) => fmul(const_eval(*a), const_eval(*a)),
        ConstantExpr::Pow(a, k) => fpow(const_eval(*a), k as nat),
        _ => 0,
    }
}

/// Which result compiling an expression must have: `Ok` exactly when no
/// unsupported node occurs, and otherwise the error of the first unsupported
/// node in evaluation order.  A next-row cell reference and a selector-column
/// reference are unsupported.
pub open spec fn expr_check(e: Expr) -> Result<(), Error>
    decreases e,
{
    match e {
        Expr::Constant(c) => const_check(c),
        Expr::Cell { col, row } => if row is Next {
            Err(Error::UnsupportedRowReference)
        } else if !column_is_variable(col) {
            Err(Error::UnsupportedColumn)
        } else {
            Ok(())
        },
        Expr::UnnormalizedLagrangeBasis => Err(
            Error::UnsupportedConstruct(NodeKind::UnnormalizedLagrangeBasis),
        ),
        Expr::VanishesOnZeroKnowledgeAndPreviousRows => Err(
            Error::UnsupportedConstruct(NodeKind::VanishesOnZeroKnowledgeAndPreviousRows),
        ),
        Expr::Add(a, b) => if expr_check(*a) is Err {
            expr_check(*a)
        } else {
            expr_check(*b)
        },
        Expr::Sub(a, b) => if expr_check(*a) is Err {
            expr_check(*a)
        } else {
            expr_check(*b)
        },
        Expr::Mul(a, b) => if expr_check(*a) is Err {
            expr_check(*a)
        } else {
            expr_check(*b)
        },
        Expr::Double(a) => expr_check(*a),
        Expr::Square(a) => expr_check(*a),
        Expr::Pow(a, _) => expr_check(*a),
        Expr::Cache(_) => Err(Error::UnsupportedConstruct(NodeKind::Cache)),
        Expr::IfFeature(_, _) => Err(Error::UnsupportedConstruct(NodeKind::IfFeature)),
    }
}

/// Every literal in the expression is a reduced residue.
pub open spec fn expr_lits_wf(e: Expr) -> bool
    decreases e,
{
    match e {
        Expr::Constant(c) => const_lits_wf(c),
        Expr::Add(a, b) => expr_lits_wf(*a) && expr_lits_wf(*b),
        Expr::Sub(a, b) => expr_lits_wf(*a) && expr_lits_wf(*b),
        Expr::Mul(a, b) => expr_lits_wf(*a) && expr_lits_wf(*b),
        Expr::Double(a) => expr_lits_wf(*a),
        Expr::Square(a) => expr_lits_wf(*a),
        Expr::Pow(a, _) => expr_lits_wf(*a),
        Expr::Cache(a) => expr_lits_wf(*a),
        Expr::IfFeature(a, b) => expr_lits_wf(*a) && expr_lits_wf(*b),
        _ => true,
    }
}

/// Every non-selector cell reference maps to a variable index below `n`.
pub open spec fn expr_cols_ok(e: Expr, n: int) -> bool
    decreases e,
{
    match e {
        Expr::Cell { col, row } => column_is_variable(col) ==> 0 <= column_index(col) < n,
        Expr::Add(a, b) => expr_cols_ok(*a, n) && expr_cols_ok(*b, n),
        Expr::Sub(a, b) => expr_cols_ok(*a, n) && expr_cols_ok(*b, n),
        Expr::Mul(a, b) => expr_cols_ok(*a, n) && expr_cols_ok(*b, n),
        Expr::Double(a) => expr_cols_ok(*a, n),
        Expr::Square(a) => expr_cols_ok(*a, n),
        Expr::Pow(a, _) => expr_cols_ok(*a, n),
        Expr::Cache(a) => expr_cols_ok(*a, n),
        Expr::IfFeature(a, b) => expr_cols_ok(*a, n) && expr_cols_ok(*b, n),
        _ => true,
    }
}

/// The total degree the compiled polynomial can reach: cells are degree one,
/// sums take the maximum, products add, squaring doubles and a power
/// multiplies by the exponent.
pub open spec fn expr_degree(e: Expr) -> int
    decreases e,
{
    match e {
        Expr::Constant(_) => 0,
        Expr::Cell { .. } => 1,
        Expr::Add(a, b) => crate::mvpoly::int_max(expr_degree(*a), expr_degree(*b)),
        Expr::Sub(a, b) => crate::mvpoly::int_max(expr_degree(*a), expr_degree(*b)),
        Expr::Mul(a, b) => expr_degree(*a) + expr_degree(*b),
        Expr::Double(a) => expr_degree(*a),
        Expr::Square(a) => 2 * expr_degree(*a),
        Expr::Pow(a, k) => k * expr_degree(*a),
        _ => 0,
    }
}

/// The hard degree bound holds structurally: the degree of every
/// sub-expression, not only of the whole, stays within `d`.  (A power with
/// exponent zero has degree zero but still compiles its base.)
pub open spec fn expr_deg_ok(e: Expr, d: int) -> bool
    decreases e,
{
    expr_degree(e) <= d && match e {
        Expr::Add(a, b) => expr_deg_ok(*a, d) && expr_deg_ok(*b, d),
        Expr::Sub(a, b) => expr_deg_ok(*a, d) && expr_deg_ok(*b, d),
        Expr::Mul(a, b) => expr_deg_ok(*a, d) && expr_deg_ok(*b, d),
        Expr::Double(a) => expr_deg_ok(*a, d),
        Expr::Square(a) => expr_deg_ok(*a, d),
        Expr::Pow(a, _) => expr_deg_ok(*a, d),
        Expr::Cache(a) => expr_deg_ok(*a, d),
        Expr::IfFeature(a, b) => expr_deg_ok(*a, d) && expr_deg_ok(*b, d),
        _ => true,
    }
}

/// The direct arithmetic interpretation of a supported expression at the
/// point `x`: a current-row cell reference reads the coordinate its column
/// maps to, and the connectives are field operations.
pub open spec fn expr_eval(e: Expr, x: Seq<int>) -> int
    decreases e,
{
    match e {
        Expr::Constant(c) => const_eval(c),
        Expr::Cell { col, row } => x[column_index(col)],
        Expr::Add(a, b) => fadd(expr_eval(*a, x), expr_eval(*b, x)),
        Expr::Sub(a, b) => fsub(expr_eval(*a, x), expr_eval(*b, x)),
        Expr::Mul(a, b) => fmul(expr_eval(*a, x), expr_eval(*b, x)),
        Expr::Double(a) => fadd(expr_eval(*a, x), expr_eval(*a, x)),
        Expr::Square(a) => fmul(expr_eval(*a, x), expr_eval(*a, x)),
        Expr::Pow(a, k) => fpow(expr_eval(*a, x), k as nat),
        _ => 0,
    }
}

/// Expression degrees are nonnegative.
pub proof fn lemma_expr_degree_nonneg(e: Expr)
    ensures
        expr_degree(e) >= 0,
    decreases e,
{
    match e {
        Expr::Add(a, b) => {
            lemma_expr_degree_nonneg(*a);
            lemma_expr_degree_nonneg(*b);
        },
        Expr::Sub(a, b) => {
            lemma_expr_degree_nonneg(*a);
            lemma_expr_degree_nonneg(*b);
        },
        Expr::Mul(a, b) => {
            lemma_expr_degree_nonneg(*a);
            lemma_expr_degree_nonneg(*b);
        },
        Expr::Double(a) => {
            lemma_expr_degree_nonneg(*a);
        },
        Expr::Square(a) => {
            lemma_expr_degree_nonneg(*a);
        },
        Expr::Pow(a, k) => {
            lemma_expr_degree_nonneg(*a);
            lemma_mul_nonnegative(k as int, expr_degree(*a));
        },
        _ => {},
    }
}

// ------------------------------------------------------------------
// The compiler.
// ------------------------------------------------------------------
impl Poly {
    /// Compiles a constant sub-expression into a constant polynomial in `n`
    /// variables with degree bound `d`.  Succeeds exactly on supported
    /// nodes; the compiled polynomial is constant and evaluates everywhere
    /// to the arithmetic value of the sub-expression.
    pub fn from_constant(op: &ConstantExpr, n: usize, d: usize) -> (r: Result<Poly, Error>)
        requires
            const_lits_wf(*op),
        ensures
            r is Ok <==> const_check(*op) is Ok,
            r is Err ==> r->Err_0 == const_check(*op)->Err_0,
            r is Ok ==> {
                let p = r->Ok_0;
                &&& p.wf()
                &&& p.n == n
                &&& p.d == d
                &&& p.deg_spec() <= 0
                &&& forall|x: Seq<int>| #[trigger] p.eval_spec(x) == const_eval(*op)
            },
        decreases *op,
    {
        match op {
            ConstantExpr::Challenge => Err(Error::UnsupportedConstruct(NodeKind::Challenge)),
            ConstantExpr::EndoCoefficient => Err(
                Error::UnsupportedConstruct(NodeKind::EndoCoefficient),
            ),
            ConstantExpr::Mds { row: _, col: _ } => Err(
                Error::UnsupportedConstruct(NodeKind::Mds),
            ),
            ConstantExpr::Literal(c) => Ok(Poly::constant(n, d, *c)),
            ConstantExpr::Add(c1, c2) => {
                let p1 = Poly::from_constant(c1, n, d)?;
                let p2 = Poly::from_constant(c2, n, d)?;
                Ok(p1.add(&p2))
            },
            ConstantExpr::Sub(c1, c2) => {
                let p1 = Poly::from_constant(c1, n, d)?;
                let p2 = Poly::from_constant(c2, n, d)?;
                Ok(p1.sub(&p2))
            },
            ConstantExpr::Mul(c1, c2) => {
                let p1 = Poly::from_constant(c1, n, d)?;
                let p2 = Poly::from_constant(c2, n, d)?;
                Ok(p1.mul(&p2))
            },
            ConstantExpr::Double(c1) => {
                let p1 = Poly::from_constant(c1, n, d)?;
                Ok(p1.double())
            },
            ConstantExpr::Square(c1) => {
                let p1 = Poly::from_constant(c1, n, d)?;
                Ok(p1.mul(&p1))
            },
            ConstantExpr::Pow(c1, k) => {
                let p1 = Poly::from_constant(c1, n, d)?;
                let mut result = Poly::constant(n, d, Fp { v: 1 });
                let mut j: u64 = 0;
                while j < *k
                    invariant
                        p1.wf(),
                        p1.n == n,
                        p1.d == d,
                        p1.deg_spec() <= 0,
                        forall|x: Seq<int>| #[trigger] p1.eval_spec(x) == const_eval(**c1),
                        j <= *k,
                        result.wf(),
                        result.n == n,
                        result.d == d,
                        result.deg_spec() <= 0,
                        forall|x: Seq<int>|
                            #[trigger] result.eval_spec(x) == fpow(const_eval(**c1), j as nat),
                    decreases *k - j,
                {
                    let ghost prev = result;
                    result = result.mul(&p1);
                    j = j + 1;
                    proof {
                        crate::mvpoly::lemma_poly_deg_nonneg(result.terms@);
                        assert forall|x: Seq<int>| #[trigger] result.eval_spec(x) == fpow(
                            const_eval(**c1),
                            j as nat,
                        ) by {
                            let v = const_eval(**c1);
                            assert(result.eval_spec(x) == fmul(prev.eval_spec(x), v));
                            crate::field::lemma_fpow_add(v, (j - 1) as nat, 1);
                            lemma_fpow_in_fp(v, 1);
                            assert(fpow(v, 1) == fmul(v, fpow(v, 0)));
                            assert(fpow(v, 0) == 1);
                            crate::field::lemma_fmul_comm(fpow(v, (j - 1) as nat), fmul(v, 1));
                            crate::field::lemma_fmul_comm(v, 1);
                            lemma_fmul_one(v);
                            crate::field::lemma_fmul_comm(v, fpow(v, (j - 1) as nat));
                        }
                    }
                }
                proof {
                    assert forall|x: Seq<int>| #[trigger] result.eval_spec(x) == const_eval(*op) by {
                    }
                }
                Ok(result)
            },
            ConstantExpr::Cache(_) => Err(Error::UnsupportedConstruct(NodeKind::Cache)),
            ConstantExpr::IfFeature(_, _) => Err(Error::UnsupportedConstruct(NodeKind::IfFeature)),
        }
    }

    /// Compiles a constraint expression into a polynomial in `n` variables
    /// with degree bound `d`.  The caller guarantees that every cell
    /// reference maps below `n` and that the expression's degree stays
    /// within the hard bound `d`.  Succeeds exactly on supported
    /// expressions; at every reduced point the compiled polynomial evaluates
    /// to the direct arithmetic interpretation of the expression.
    pub fn from_expr(e: &Expr, n: usize, d: usize) -> (r: Result<Poly, Error>)
        requires
            expr_lits_wf(*e),
            expr_cols_ok(*e, n as int),
            expr_deg_ok(*e, d as int),
        ensures
            r is Ok <==> expr_check(*e) is Ok,
            r is Err ==> r->Err_0 == expr_check(*e)->Err_0,
            r is Ok ==> {
                let p = r->Ok_0;
                &&& p.wf()
                &&& p.n == n
                &&& p.d == d
                &&& p.deg_spec() <= expr_degree(*e)
                &&& forall|x: Seq<int>|
                    point_wf(x, n as int) ==> #[trigger] p.eval_spec(x) == expr_eval(*e, x)
            },
        decreases *e,
    {
        match e {
            Expr::Constant(c) => {
                let p = Poly::from_constant(c, n, d)?;
                Ok(p)
            },
            Expr::Cell { col, row } => {
                match row {
                    CurrOrNext::Next => Err(Error::UnsupportedRowReference),
                    CurrOrNext::Curr => {
                        let i = col.to_variable_index()?;
                        proof {
                            crate::mvpoly::lemma_poly_deg_nonneg(Seq::<crate::mvpoly::Term>::empty());
                        }
                        Ok(Poly::from_variable(n, d, i))
                    },
                }
            },
            Expr::UnnormalizedLagrangeBasis => Err(
                Error::UnsupportedConstruct(NodeKind::UnnormalizedLagrangeBasis),
            ),
            Expr::VanishesOnZeroKnowledgeAndPreviousRows => Err(
                Error::UnsupportedConstruct(NodeKind::VanishesOnZeroKnowledgeAndPreviousRows),
            ),
            Expr::Add(e1, e2) => {
                proof {
                    lemma_expr_degree_nonneg(**e1);
                    lemma_expr_degree_nonneg(**e2);
                }
                let p1 = Poly::from_expr(e1, n, d)?;
                let p2 = Poly::from_expr(e2, n, d)?;
                Ok(p1.add(&p2))
            },
            Expr::Sub(e1, e2) => {
                proof {
                    lemma_expr_degree_nonneg(**e1);
                    lemma_expr_degree_nonneg(**e2);
                }
                let p1 = Poly::from_expr(e1, n, d)?;
                let p2 = Poly::from_expr(e2, n, d)?;
                Ok(p1.sub(&p2))
            },
            Expr::Mul(e1, e2) => {
                proof {
                    lemma_expr_degree_nonneg(**e1);
                    lemma_expr_degree_nonneg(**e2);
                }
                let p1 = Poly::from_expr(e1, n, d)?;
                let p2 = Poly::from_expr(e2, n, d)?;
                Ok(p1.mul(&p2))
            },
            Expr::Double(e1) => {
                let p1 = Poly::from_expr(e1, n, d)?;
                Ok(p1.double())
            },
            Expr::Square(e1) => {
                proof {
                    lemma_expr_degree_nonneg(**e1);
                }
                let p1 = Poly::from_expr(e1, n, d)?;
                Ok(p1.mul(&p1))
            },
            Expr::Pow(e1, k) => {
                proof {
                    lemma_expr_degree_nonneg(**e1);
                }
                let p1 = Poly::from_expr(e1, n, d)?;
                let ghost db = expr_degree(**e1);
                let mut result = Poly::constant(n, d, Fp { v: 1 });
                let mut j: u64 = 0;
                while j < *k
                    invariant
                        p1.wf(),
                        p1.n == n,
                        p1.d == d,
                        db >= 0,
                        db == expr_degree(**e1),
                        p1.deg_spec() <= db,
                        k * db <= d,
                        forall|x: Seq<int>|
                            point_wf(x, n as int) ==> #[trigger] p1.eval_spec(x) == expr_eval(
                                **e1,
                                x,
                            ),
                        j <= *k,
                        result.wf(),
                        result.n == n,
                        result.d == d,
                        result.deg_spec() <= j * db,
                        forall|x: Seq<int>|
                            point_wf(x, n as int) ==> #[trigger] result.eval_spec(x) == fpow(
                                expr_eval(**e1, x),
                                j as nat,
                            ),
                    decreases *k - j,
                {
                    let ghost prev = result;
                    proof {
                        // the running degree plus one more factor stays
                        // within the hard bound
                        lemma_mul_inequality(j as int + 1, k as int, db);
                        assert((j as int) * db + db == (j as int + 1) * db) by (nonlinear_arith);
                        vstd::arithmetic::mul::lemma_mul_nonnegative(j as int, db);
                    }
                    result = result.mul(&p1);
                    j = j + 1;
                    proof {
                        assert((j - 1) as int * db + db == (j as int) * db) by (nonlinear_arith);
                        assert forall|x: Seq<int>| point_wf(x, n as int) implies #[trigger] result.eval_spec(
                            x,
                        ) == fpow(expr_eval(**e1, x), j as nat) by {
                            let v = expr_eval(**e1, x);
                            assert(result.eval_spec(x) == fmul(prev.eval_spec(x), v));
                            crate::field::lemma_fpow_add(v, (j - 1) as nat, 1);
                            lemma_fpow_in_fp(v, 1);
                            assert(fpow(v, 1) == fmul(v, fpow(v, 0)));
                            assert(fpow(v, 0) == 1);
                            crate::field::lemma_fmul_comm(fpow(v, (j - 1) as nat), fmul(v, 1));
                            crate::field::lemma_fmul_comm(v, 1);
                            lemma_fmul_one(v);
                            crate::field::lemma_fmul_comm(v, fpow(v, (j - 1) as nat));
                        }
                    }
                }
                proof {
                    lemma_mul_nonnegative(k as int, db);
                    assert(result.deg_spec() <= k * db);
                }
                Ok(result)
            },
            Expr::Cache(_) => Err(Error::UnsupportedConstruct(NodeKind::Cache)),
            Expr::IfFeature(_, _) => Err(Error::UnsupportedConstruct(NodeKind::IfFeature)),
        }
    }
}

} // verus!
