//! The accumulation (fold) and proving protocols over per-column witness
//! evaluations.
//!
//! A column set is a fixed-length family of values, one per logical circuit
//! column, kept in declaration order; the same shape carries raw evaluation
//! vectors, interpolated polynomials, commitments and evaluation snapshots
//! through the pipeline.  Human-readable column names live in an external
//! catalog; the core fixes only the count, the order and the designated
//! constant column.
//!
//! The commitment scheme, the Fiat-Shamir transcript and the evaluation
//! domain are external collaborators.  [`ProofSystem`] states their
//! interface; the protocol functions are generic over it, and everything
//! that does not depend on a collaborator's behaviour is proved: the fold
//! equation, the shape invariants and the fixed absorption order of the
//! code itself.

use crate::field::{fadd, fmul, fp_seq_wf, in_fp, Fp};
use vstd::prelude::*;

verus! {

/// The size of the evaluation domain: the length of every evaluation column.
pub const DOMAIN_SIZE: usize = 32768;

/// The number of logical columns in the column set.
pub const KECCAK_COLUMN_COUNT: usize = 10;

/// The index, in declaration order, of the designated constant column: the
/// one a default accumulator initializes to the multiplicative identity
/// instead of zero.
pub const CONSTANT_COLUMN: usize = 8;

/// A fixed, named collection of per-column values, in declaration order.
#[derive(Debug)]
pub struct KeccakColumns<T> {
    pub cols: Vec<T>,
}

impl<T> KeccakColumns<T> {
    /// The shape invariant: one entry per logical column.
    pub open spec fn wf(self) -> bool {
        self.cols@.len() == KECCAK_COLUMN_COUNT
    }
}

/// Well-formed evaluation columns: the right column count, every column of
/// domain length, every entry reduced.
pub open spec fn evals_wf(c: KeccakColumns<Vec<Fp>>) -> bool {
    &&& c.wf()
    &&& forall|i: int|
        0 <= i < c.cols@.len() ==> {
            &&& (#[trigger] c.cols@[i])@.len() == DOMAIN_SIZE
            &&& fp_seq_wf(c.cols@[i]@)
        }
}

/// The value of one cell of an evaluation column set.
pub open spec fn col_val(c: KeccakColumns<Vec<Fp>>, i: int, j: int) -> int {
    c.cols@[i]@[j]@
}

/// The relation the linear fold establishes: every cell of `after` is the
/// instance cell plus `r` times the previous accumulator cell.
pub open spec fn fold_rel(
    before: KeccakColumns<Vec<Fp>>,
    instance: KeccakColumns<Vec<Fp>>,
    r: int,
    after: KeccakColumns<Vec<Fp>>,
) -> bool {
    forall|i: int, j: int|
        0 <= i < KECCAK_COLUMN_COUNT && 0 <= j < DOMAIN_SIZE ==> #[trigger] col_val(after, i, j)
            == fadd(col_val(instance, i, j), fmul(r, col_val(before, i, j)))
}

/// The running accumulator of the folding protocol: one evaluation vector
/// per column.
#[derive(Debug)]
pub struct KeccakProofInputs {
    pub evaluations: KeccakColumns<Vec<Fp>>,
}

impl KeccakProofInputs {
    /// The representation invariant.
    pub open spec fn wf(self) -> bool {
        evals_wf(self.evaluations)
    }
}

impl Default for KeccakProofInputs {
    /// The caller-supplied default an accumulator starts from: every column
    /// all zero, except the designated constant column, which is all one.
    fn default() -> (r: KeccakProofInputs)
        ensures
            r.wf(),
            forall|i: int, j: int|
                0 <= i < KECCAK_COLUMN_COUNT && 0 <= j < DOMAIN_SIZE ==> #[trigger] col_val(
                    r.evaluations,
                    i,
                    j,
                ) == if i == CONSTANT_COLUMN {
                    1int
                } else {
                    0int
                },
    {
        let mut cols: Vec<Vec<Fp>> = Vec::new();
        let mut i: usize = 0;
        while i < KECCAK_COLUMN_COUNT
            invariant
                i <= KECCAK_COLUMN_COUNT,
                cols@.len() == i,
                forall|p: int|
                    0 <= p < i ==> {
                        &&& (#[trigger] cols@[p])@.len() == DOMAIN_SIZE
                        &&& fp_seq_wf(cols@[p]@)
                        &&& forall|j: int|
                            0 <= j < DOMAIN_SIZE ==> cols@[p]@[j]@ == if p == CONSTANT_COLUMN {
                                1int
                            } else {
                                0int
                            }
                    },
            decreases KECCAK_COLUMN_COUNT - i,
        {
            let value = if i == CONSTANT_COLUMN {
                Fp { v: 1 }
            } else {
                Fp { v: 0 }
            };
            let col: Vec<Fp> = vec![value; DOMAIN_SIZE];
            cols.push(col);
            i = i + 1;
        }
        KeccakProofInputs { evaluations: KeccakColumns { cols } }
    }
}

/// The proof artifact: commitments, the two evaluation snapshots (at the
/// challenge point and at the challenge point shifted by the domain
/// generator), and one opening proof from the commitment scheme.  Immutable
/// once constructed.
#[derive(Debug)]
pub struct KeccakProof<C, O> {
    pub commitments: KeccakColumns<C>,
    pub zeta_evaluations: KeccakColumns<Fp>,
    pub zeta_omega_evaluations: KeccakColumns<Fp>,
    pub opening_proof: O,
}

/// The interface of the external collaborators: the polynomial-commitment
/// scheme over its reference string, the Fiat-Shamir transcripts and the
/// evaluation domain.  The protocol fixes the order of the calls; what the
/// collaborators return is up to the implementation, so the protocol's
/// contracts claim nothing about those values beyond how they are combined.
pub trait ProofSystem: Sized {
    /// A commitment to one column.
    type Commitment;

    /// One column interpolated into coefficient form over the domain.
    type Polynomial;

    /// The opening proof of the commitment scheme.
    type OpeningProof;

    /// Begins a fresh commitment transcript seeded with the protocol
    /// parameters.
    fn start_transcript(&mut self);

    /// Commits to one column of raw evaluations (non-hiding).
    fn commit_evaluations(&mut self, evals: &Vec<Fp>) -> Self::Commitment;

    /// Absorbs one commitment into the current transcript.
    fn absorb_commitment(&mut self, c: &Self::Commitment);

    /// Squeezes one scalar challenge from the current transcript, mapped
    /// into the field through the curve's endomorphism split.
    fn squeeze_challenge(&mut self) -> Fp;

    /// Interpolates one evaluation column over the domain.
    fn interpolate(&mut self, evals: &Vec<Fp>) -> Self::Polynomial;

    /// Commits to one interpolated polynomial (non-hiding).
    fn commit_polynomial(&mut self, p: &Self::Polynomial) -> Self::Commitment;

    /// Evaluates one interpolated polynomial at a point.
    fn evaluate(&mut self, p: &Self::Polynomial, point: &Fp) -> Fp;

    /// The generator of the evaluation domain.
    fn domain_generator(&mut self) -> Fp;

    /// The digest of the current commitment transcript.
    fn digest(&mut self) -> Fp;

    /// Begins the second, scalar transcript from the first transcript's
    /// digest.
    fn start_scalar_transcript(&mut self, digest: Fp);

    /// Absorbs one column's pair of evaluation snapshots into the scalar
    /// transcript.
    fn absorb_evaluations(&mut self, zeta_eval: &Fp, zeta_omega_eval: &Fp);

    /// Squeezes one scalar challenge from the scalar transcript.
    fn squeeze_scalar_challenge(&mut self) -> Fp;

    /// Invokes the opening-proof primitive over all interpolated polynomials
    /// at the two evaluation points, with combination factor `v`, blinding
    /// factor `u` and fresh secure randomness of the implementation.
    fn open_proof(
        &mut self,
        polys: &Vec<Self::Polynomial>,
        zeta: &Fp,
        zeta_omega: &Fp,
        v: &Fp,
        u: &Fp,
    ) -> Self::OpeningProof;
}

/// Replaces every accumulator cell by the matching instance cell plus `r`
/// times the old accumulator cell.  This is the verified arithmetic core of
/// the fold transition: the shape of the accumulator is kept, only values
/// change.
pub fn fold_columns(
    accumulator: &mut KeccakProofInputs,
    inputs: &KeccakColumns<Vec<Fp>>,
    r: Fp,
)
    requires
        old(accumulator).wf(),
        evals_wf(*inputs),
        r.wf(),
    ensures
        final(accumulator).wf(),
        fold_rel(old(accumulator).evaluations, *inputs, r@, final(accumulator).evaluations),
{
    let ghost orig = accumulator.evaluations;
    let mut i: usize = 0;
    while i < KECCAK_COLUMN_COUNT
        invariant
            accumulator.evaluations.cols@.len() == KECCAK_COLUMN_COUNT,
            evals_wf(*inputs),
            evals_wf(orig),
            r.wf(),
            i <= KECCAK_COLUMN_COUNT,
            forall|p: int|
                i <= p < KECCAK_COLUMN_COUNT ==> #[trigger] accumulator.evaluations.cols@[p]
                    == orig.cols@[p],
            forall|p: int|
                0 <= p < i ==> {
                    &&& (#[trigger] accumulator.evaluations.cols@[p])@.len() == DOMAIN_SIZE
                    &&& fp_seq_wf(accumulator.evaluations.cols@[p]@)
                    &&& forall|j: int|
                        0 <= j < DOMAIN_SIZE ==> accumulator.evaluations.cols@[p]@[j]@ == fadd(
                            col_val(*inputs, p, j),
                            fmul(r@, col_val(orig, p, j)),
                        )
                },
        decreases KECCAK_COLUMN_COUNT - i,
    {
        let mut col: Vec<Fp> = Vec::new();
        let mut j: usize = 0;
        while j < DOMAIN_SIZE
            invariant
                accumulator.evaluations.cols@.len() == KECCAK_COLUMN_COUNT,
                evals_wf(*inputs),
                evals_wf(orig),
                r.wf(),
                i < KECCAK_COLUMN_COUNT,
                accumulator.evaluations.cols@[i as int] == orig.cols@[i as int],
                j <= DOMAIN_SIZE,
                col@.len() == j,
                fp_seq_wf(col@),
                forall|q: int|
                    0 <= q < j ==> col@[q]@ == fadd(
                        col_val(*inputs, i as int, q),
                        fmul(r@, col_val(orig, i as int, q)),
                    ),
            decreases DOMAIN_SIZE - j,
        {
            let prev = accumulator.evaluations.cols[i][j];
            let next = inputs.cols[i][j].add(r.mul(prev));
            col.push(next);
            j = j + 1;
        }
        accumulator.evaluations.cols[i] = col;
        i = i + 1;
    }
}

/// One fold transition: commits every instance column independently in
/// declaration order, absorbs the commitments in the same order into a
/// fresh transcript, squeezes the scalar challenge, and folds the instance
/// into the accumulator with that challenge.  The accumulator keeps its
/// shape; every new cell is the instance cell plus the challenge times the
/// old cell, for one challenge shared by all cells.
pub fn fold<S: ProofSystem>(
    sys: &mut S,
    accumulator: &mut KeccakProofInputs,
    inputs: &KeccakColumns<Vec<Fp>>,
)
    requires
        old(accumulator).wf(),
        evals_wf(*inputs),
    ensures
        final(accumulator).wf(),
        exists|r: int|
            in_fp(r) && fold_rel(
                old(accumulator).evaluations,
                *inputs,
                r,
                final(accumulator).evaluations,
            ),
{
    let mut commitments: Vec<S::Commitment> = Vec::new();
    let mut i: usize = 0;
    while i < KECCAK_COLUMN_COUNT
        invariant
            evals_wf(*inputs),
            i <= KECCAK_COLUMN_COUNT,
            commitments@.len() == i,
        decreases KECCAK_COLUMN_COUNT - i,
    {
        let c = sys.commit_evaluations(&inputs.cols[i]);
        commitments.push(c);
        i = i + 1;
    }
    sys.start_transcript();
    let mut k: usize = 0;
    while k < commitments.len()
        invariant
            k <= commitments@.len(),
        decreases commitments@.len() - k,
    {
        sys.absorb_commitment(&commitments[k]);
        k = k + 1;
    }
    let raw = sys.squeeze_challenge();
    let scaling_challenge = Fp::new(raw.v);
    fold_columns(accumulator, inputs, scaling_challenge);
    proof {
        let ghost rr = scaling_challenge@;
        assert(in_fp(rr) && fold_rel(
            old(accumulator).evaluations,
            *inputs,
            rr,
            accumulator.evaluations,
        ));
    }
}

/// Folding is deterministic in its arithmetic part: from accumulators with
/// equal cell values, the same instance and the same challenge, the fold
/// relation forces equal cell values out.
pub proof fn lemma_fold_deterministic(
    before1: KeccakColumns<Vec<Fp>>,
    before2: KeccakColumns<Vec<Fp>>,
    instance: KeccakColumns<Vec<Fp>>,
    r: int,
    after1: KeccakColumns<Vec<Fp>>,
    after2: KeccakColumns<Vec<Fp>>,
)
    requires
        fold_rel(before1, instance, r, after1),
        fold_rel(before2, instance, r, after2),
        forall|i: int, j: int|
            0 <= i < KECCAK_COLUMN_COUNT && 0 <= j < DOMAIN_SIZE ==> #[trigger] col_val(
                before1,
                i,
                j,
            ) == col_val(before2, i, j),
    ensures
        forall|i: int, j: int|
            0 <= i < KECCAK_COLUMN_COUNT && 0 <= j < DOMAIN_SIZE ==> #[trigger] col_val(
                after1,
                i,
                j,
            ) == col_val(after2, i, j),
{
}

/// Produces the proof for a finished accumulator: interpolates every column
/// over the domain, commits the interpolated polynomials and absorbs the
/// commitments in declaration order into a fresh transcript, squeezes the
/// evaluation point and shifts it by the domain generator, evaluates every
/// polynomial at both points, absorbs the two snapshots in order into a
/// second transcript seeded with the first one's digest, squeezes the two
/// opening challenges, and invokes the opening primitive.  Any collaborator
/// failure is fatal for the implementation of [`ProofSystem`]; there is no
/// partial-proof state here.
pub fn prove<S: ProofSystem>(sys: &mut S, inputs: KeccakProofInputs) -> (r: KeccakProof<
    S::Commitment,
    S::OpeningProof,
>)
    requires
        inputs.wf(),
    ensures
        r.commitments.wf(),
        r.zeta_evaluations.wf(),
        r.zeta_omega_evaluations.wf(),
{
    let evaluations = inputs.evaluations;
    let mut polys: Vec<S::Polynomial> = Vec::new();
    let mut i: usize = 0;
    while i < KECCAK_COLUMN_COUNT
        invariant
            evals_wf(evaluations),
            i <= KECCAK_COLUMN_COUNT,
            polys@.len() == i,
        decreases KECCAK_COLUMN_COUNT - i,
    {
        let p = sys.interpolate(&evaluations.cols[i]);
        polys.push(p);
        i = i + 1;
    }
    let mut commitments: Vec<S::Commitment> = Vec::new();
    let mut k: usize = 0;
    while k < polys.len()
        invariant
            k <= polys@.len(),
            commitments@.len() == k,
        decreases polys@.len() - k,
    {
        let c = sys.commit_polynomial(&polys[k]);
        commitments.push(c);
        k = k + 1;
    }
    sys.start_transcript();
    let mut a: usize = 0;
    while a < commitments.len()
        invariant
            a <= commitments@.len(),
        decreases commitments@.len() - a,
    {
        sys.absorb_commitment(&commitments[a]);
        a = a + 1;
    }
    let zeta = Fp::new(sys.squeeze_challenge().v);
    let omega = Fp::new(sys.domain_generator().v);
    let zeta_omega = zeta.mul(omega);

    let mut zeta_evaluations: Vec<Fp> = Vec::new();
    let mut zeta_omega_evaluations: Vec<Fp> = Vec::new();
    let mut b: usize = 0;
    while b < polys.len()
        invariant
            b <= polys@.len(),
            zeta_evaluations@.len() == b,
            zeta_omega_evaluations@.len() == b,
        decreases polys@.len() - b,
    {
        let ze = sys.evaluate(&polys[b], &zeta);
        let zoe = sys.evaluate(&polys[b], &zeta_omega);
        zeta_evaluations.push(ze);
        zeta_omega_evaluations.push(zoe);
        b = b + 1;
    }
    let dg = sys.digest();
    sys.start_scalar_transcript(dg);
    let mut c: usize = 0;
    while c < zeta_evaluations.len()
        invariant
            c <= zeta_evaluations@.len(),
            zeta_evaluations@.len() == zeta_omega_evaluations@.len(),
        decreases zeta_evaluations@.len() - c,
    {
        sys.absorb_evaluations(&zeta_evaluations[c], &zeta_omega_evaluations[c]);
        c = c + 1;
    }
    let v = sys.squeeze_scalar_challenge();
    let u = sys.squeeze_scalar_challenge();
    let opening_proof = sys.open_proof(&polys, &zeta, &zeta_omega, &v, &u);
    KeccakProof {
        commitments: KeccakColumns { cols: commitments },
        zeta_evaluations: KeccakColumns { cols: zeta_evaluations },
        zeta_omega_evaluations: KeccakColumns { cols: zeta_omega_evaluations },
        opening_proof,
    }
}

} // verus!
