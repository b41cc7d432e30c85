//! The prime field the polynomial engine works over.
//!
//! Elements are residues modulo [`MODULUS`], held in a `u64`.  The
//! specification-level operations [`fadd`], [`fmul`], [`fneg`], [`fsub`] and
//! [`fpow`] define the arithmetic over `int`; every executable operation is
//! proved to agree with them.

use vstd::arithmetic::div_mod::{
    lemma_add_mod_noop, lemma_add_mod_noop_right, lemma_mod_bound, lemma_mul_mod_noop_general,
};
use vstd::arithmetic::mul::{lemma_mul_is_commutative, lemma_mul_is_distributive_add_other_way};
use vstd::prelude::*;

verus! {

/// The field modulus: the largest 32-bit prime.  Keeping the modulus below
/// `2^32` lets every product of two reduced elements fit in a `u64`.
pub const MODULUS: u64 = 4294967291;

/// The modulus as a specification-level integer.
pub open spec fn modulus() -> int {
    MODULUS as int
}

/// A value is a reduced field element.
pub open spec fn in_fp(a: int) -> bool {
    0 <= a < modulus()
}

/// Field addition over the integers.
pub open spec fn fadd(a: int, b: int) -> int {
    (a + b) % modulus()
}

/// Field multiplication over the integers.
pub open spec fn fmul(a: int, b: int) -> int {
    (a * b) % modulus()
}

/// Field negation over the integers.
pub open spec fn fneg(a: int) -> int {
    (modulus() - a) % modulus()
}

/// Field subtraction over the integers.
pub open spec fn fsub(a: int, b: int) -> int {
    fadd(a, fneg(b))
}

/// Field exponentiation over the integers; the zeroth power is one.
pub open spec fn fpow(a: int, e: nat) -> int
    decreases e,
{
    if e == 0 {
        1
    } else {
        fmul(a, fpow(a, (e - 1) as nat))
    }
}

/// The result of a field addition is reduced.
pub proof fn lemma_fadd_in_fp(a: int, b: int)
    ensures
        in_fp(fadd(a, b)),
{
    lemma_mod_bound(a + b, modulus());
}

/// The result of a field multiplication is reduced.
pub proof fn lemma_fmul_in_fp(a: int, b: int)
    ensures
        in_fp(fmul(a, b)),
{
    lemma_mod_bound(a * b, modulus());
}

/// Zero is the additive identity on reduced elements.
pub proof fn lemma_fadd_zero(a: int)
    requires
        in_fp(a),
    ensures
        fadd(a, 0) == a,
        fadd(0, a) == a,
{
}

/// Field addition is associative.
pub proof fn lemma_fadd_assoc(a: int, b: int, c: int)
    ensures
        fadd(fadd(a, b), c) == fadd(a, fadd(b, c)),
{
    lemma_add_mod_noop(a + b, c, modulus());
    lemma_add_mod_noop_right(a, b + c, modulus());
}

/// Field multiplication is commutative.
pub proof fn lemma_fmul_comm(a: int, b: int)
    ensures
        fmul(a, b) == fmul(b, a),
{
    lemma_mul_is_commutative(a, b);
}

/// Field multiplication is associative.
pub proof fn lemma_fmul_assoc(a: int, b: int, c: int)
    ensures
        fmul(fmul(a, b), c) == (a * b * c) % modulus(),
        fmul(a, fmul(b, c)) == (a * b * c) % modulus(),
        fmul(fmul(a, b), c) == fmul(a, fmul(b, c)),
{
    lemma_mul_mod_noop_general(a * b, c, modulus());
    lemma_mul_mod_noop_general(a, b * c, modulus());
    assert(a * (b * c) == a * b * c) by (nonlinear_arith);
}

/// Field multiplication distributes over field addition.
pub proof fn lemma_fmul_distrib(a: int, b: int, c: int)
    ensures
        fmul(a, fadd(b, c)) == fadd(fmul(a, b), fmul(a, c)),
{
    lemma_mul_mod_noop_general(a, b + c, modulus());
    assert(a * (b + c) == a * b + a * c) by (nonlinear_arith);
    lemma_add_mod_noop(a * b, a * c, modulus());
}

/// Multiplying by zero gives zero.
pub proof fn lemma_fmul_zero(a: int)
    ensures
        fmul(a, 0) == 0,
        fmul(0, a) == 0,
{
    lemma_mul_is_commutative(a, 0);
}

/// One is the multiplicative identity on reduced elements.
pub proof fn lemma_fmul_one(a: int)
    requires
        in_fp(a),
    ensures
        fmul(a, 1) == a,
        fmul(1, a) == a,
{
    lemma_mul_is_commutative(a, 1);
}

/// Powers of reduced elements are reduced, and one raised to anything is one.
pub proof fn lemma_fpow_in_fp(a: int, e: nat)
    ensures
        in_fp(fpow(a, e)),
    decreases e,
{
    if e == 0 {
    } else {
        lemma_fpow_in_fp(a, (e - 1) as nat);
        lemma_fmul_in_fp(a, fpow(a, (e - 1) as nat));
    }
}

/// One raised to any power is one.
pub proof fn lemma_fpow_one_base(e: nat)
    ensures
        fpow(1, e) == 1,
    decreases e,
{
    if e == 0 {
    } else {
        lemma_fpow_one_base((e - 1) as nat);
        lemma_fmul_one(1);
    }
}

/// Exponents add: `a^(e1 + e2) == a^e1 * a^e2` in the field.
pub proof fn lemma_fpow_add(a: int, e1: nat, e2: nat)
    ensures
        fpow(a, e1 + e2) == fmul(fpow(a, e1), fpow(a, e2)),
    decreases e1,
{
    if e1 == 0 {
        lemma_fpow_in_fp(a, e2);
        lemma_fmul_one(fpow(a, e2));
    } else {
        lemma_fpow_add(a, (e1 - 1) as nat, e2);
        assert(fpow(a, e1 + e2) == fmul(a, fpow(a, ((e1 - 1) + e2) as nat)));
        lemma_fmul_assoc(a, fpow(a, (e1 - 1) as nat), fpow(a, e2));
    }
}

/// A reduced element plus its negation is zero.
pub proof fn lemma_fneg(a: int)
    requires
        in_fp(a),
    ensures
        in_fp(fneg(a)),
        fadd(a, fneg(a)) == 0,
{
    lemma_mod_bound(modulus() - a, modulus());
    if a == 0 {
        assert(fneg(0) == 0);
    } else {
        assert(fneg(a) == modulus() - a);
        assert(fadd(a, modulus() - a) == modulus() % modulus());
    }
}

/// A reduced field element.
#[derive(Clone, Copy, Debug, PartialEq, Eq, Structural)]
pub struct Fp {
    pub v: u64,
}

impl View for Fp {
    type V = int;

    open spec fn view(&self) -> int {
        self.v as int
    }
}

impl Fp {
    /// The representation invariant: the residue is reduced.
    pub open spec fn wf(self) -> bool {
        in_fp(self@)
    }

    /// Builds a field element by reducing an arbitrary machine word.
    pub fn new(v: u64) -> (r: Fp)
        ensures
            r.wf(),
            r@ == v as int % modulus(),
    {
        proof {
            lemma_mod_bound(v as int, modulus());
        }
        Fp { v: v % MODULUS }
    }

    /// The additive identity.
    pub fn zero() -> (r: Fp)
        ensures
            r.wf(),
            r@ == 0,
    {
        Fp { v: 0 }
    }

    /// The multiplicative identity.
    pub fn one() -> (r: Fp)
        ensures
            r.wf(),
            r@ == 1,
    {
        Fp { v: 1 }
    }

    /// Field addition.
    pub fn add(self, other: Fp) -> (r: Fp)
        requires
            self.wf(),
            other.wf(),
        ensures
            r.wf(),
            r@ == fadd(self@, other@),
    {
        proof {
            lemma_mod_bound(self@ + other@, modulus());
        }
        Fp { v: (self.v + other.v) % MODULUS }
    }

    /// Field multiplication.
    pub fn mul(self, other: Fp) -> (r: Fp)
        requires
            self.wf(),
            other.wf(),
        ensures
            r.wf(),
            r@ == fmul(self@, other@),
    {
        proof {
            assert(self.v * other.v <= (MODULUS - 1) * (MODULUS - 1)) by (nonlinear_arith)
                requires
                    self.v <= MODULUS - 1 && other.v <= MODULUS - 1,
            ;
            lemma_mod_bound(self@ * other@, modulus());
        }
        Fp { v: (self.v * other.v) % MODULUS }
    }

    /// Field negation.
    pub fn neg(self) -> (r: Fp)
        requires
            self.wf(),
        ensures
            r.wf(),
            r@ == fneg(self@),
    {
        proof {
            lemma_mod_bound(modulus() - self@, modulus());
            if self.v == 0 {
                assert(fneg(0) == 0);
            } else {
                assert(fneg(self@) == modulus() - self@);
            }
        }
        if self.v == 0 {
            Fp { v: 0 }
        } else {
            Fp { v: MODULUS - self.v }
        }
    }

    /// Field subtraction.
    pub fn sub(self, other: Fp) -> (r: Fp)
        requires
            self.wf(),
            other.wf(),
        ensures
            r.wf(),
            r@ == fsub(self@, other@),
    {
        self.add(other.neg())
    }

    /// Doubling, as addition with itself.
    pub fn double(self) -> (r: Fp)
        requires
            self.wf(),
        ensures
            r.wf(),
            r@ == fadd(self@, self@),
    {
        self.add(self)
    }

    /// Field exponentiation by repeated multiplication.
    pub fn pow(self, e: usize) -> (r: Fp)
        requires
            self.wf(),
        ensures
            r.wf(),
            r@ == fpow(self@, e as nat),
    {
        let mut r = Fp::one();
        let mut i: usize = 0;
        while i < e
            invariant
                self.wf(),
                r.wf(),
                i <= e,
                r@ == fpow(self@, i as nat),
            decreases e - i,
        {
            proof {
                lemma_fpow_in_fp(self@, i as nat);
                lemma_fpow_add(self@, i as nat, 1);
                lemma_fmul_one(self@);
                lemma_fmul_comm(fpow(self@, i as nat), fmul(self@, 1));
            }
            r = r.mul(self);
            i = i + 1;
            proof {
                lemma_fmul_comm(self@, fpow(self@, (i - 1) as nat));
            }
        }
        r
    }

    /// Whether this element is zero.
    pub fn is_zero(self) -> (r: bool)
        ensures
            r == (self@ == 0),
    {
        self.v == 0
    }
}

/// The integer values of a sequence of field elements.
pub open spec fn fp_vals(s: Seq<Fp>) -> Seq<int> {
    s.map(|i: int, f: Fp| f@)
}

/// Every element of the sequence is reduced.
pub open spec fn fp_seq_wf(s: Seq<Fp>) -> bool {
    forall|i: int| 0 <= i < s.len() ==> #[trigger] s[i].wf()
}

} // verus!
