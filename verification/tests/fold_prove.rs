use folding_core::field::Fp;
use folding_core::protocol::{
    fold, prove, KeccakColumns, KeccakProofInputs, ProofSystem, CONSTANT_COLUMN, DOMAIN_SIZE,
    KECCAK_COLUMN_COUNT,
};

/// A deterministic stand-in for the external collaborators: commitments are
/// running hashes of the column words, the transcripts are mixed into a
/// single word of state, interpolation is the identity and evaluation is
/// Horner form over the field.
struct ToySystem {
    state: u64,
}

impl ToySystem {
    fn new() -> ToySystem {
        ToySystem { state: 0 }
    }

    fn mix(&mut self, w: u64) {
        self.state = (self.state ^ w).wrapping_mul(1099511628211).wrapping_add(17);
    }
}

fn hash_words(ws: &[Fp]) -> u64 {
    let mut h: u64 = 1469598103934665603;
    for w in ws {
        h = (h ^ w.v).wrapping_mul(1099511628211);
    }
    h
}

impl ProofSystem for ToySystem {
    type Commitment = u64;

    type Polynomial = Vec<Fp>;

    type OpeningProof = u64;

    fn start_transcript(&mut self) {
        self.state = 0x5eed;
    }

    fn commit_evaluations(&mut self, evals: &Vec<Fp>) -> u64 {
        hash_words(evals)
    }

    fn absorb_commitment(&mut self, c: &u64) {
        self.mix(*c);
    }

    fn squeeze_challenge(&mut self) -> Fp {
        self.mix(0x11);
        Fp::new(self.state)
    }

    fn interpolate(&mut self, evals: &Vec<Fp>) -> Vec<Fp> {
        evals.clone()
    }

    fn commit_polynomial(&mut self, p: &Vec<Fp>) -> u64 {
        hash_words(p)
    }

    fn evaluate(&mut self, p: &Vec<Fp>, point: &Fp) -> Fp {
        let mut acc = Fp::zero();
        for c in p.iter().rev() {
            acc = c.add(point.mul(acc));
        }
        acc
    }

    fn domain_generator(&mut self) -> Fp {
        Fp::new(5)
    }

    fn digest(&mut self) -> Fp {
        Fp::new(self.state)
    }

    fn start_scalar_transcript(&mut self, digest: Fp) {
        self.state = digest.v ^ 0xf00d;
    }

    fn absorb_evaluations(&mut self, zeta_eval: &Fp, zeta_omega_eval: &Fp) {
        self.mix(zeta_eval.v);
        self.mix(zeta_omega_eval.v);
    }

    fn squeeze_scalar_challenge(&mut self) -> Fp {
        self.mix(0x22);
        Fp::new(self.state)
    }

    fn open_proof(
        &mut self,
        polys: &Vec<Vec<Fp>>,
        zeta: &Fp,
        zeta_omega: &Fp,
        v: &Fp,
        u: &Fp,
    ) -> u64 {
        let mut h = self.state ^ zeta.v ^ zeta_omega.v ^ v.v ^ u.v;
        for p in polys {
            h ^= hash_words(p);
        }
        h
    }
}

/// An instance whose cells depend on the column and row indices.
fn sample_instance(salt: u64) -> KeccakColumns<Vec<Fp>> {
    let mut cols = Vec::new();
    for i in 0..KECCAK_COLUMN_COUNT {
        let mut col = Vec::with_capacity(DOMAIN_SIZE);
        for j in 0..DOMAIN_SIZE {
            col.push(Fp::new(salt.wrapping_add((i as u64) * 31).wrapping_add(j as u64)));
        }
        cols.push(col);
    }
    KeccakColumns { cols }
}

fn assert_same_accumulator(a: &KeccakProofInputs, b: &KeccakProofInputs) {
    assert_eq!(a.evaluations.cols.len(), b.evaluations.cols.len());
    for (ca, cb) in a.evaluations.cols.iter().zip(b.evaluations.cols.iter()) {
        assert_eq!(ca.len(), cb.len());
        for (x, y) in ca.iter().zip(cb.iter()) {
            assert_eq!(x.v, y.v);
        }
    }
}

#[test]
fn default_accumulator_shape_and_contents() {
    let acc = KeccakProofInputs::default();
    assert_eq!(acc.evaluations.cols.len(), KECCAK_COLUMN_COUNT);
    for (i, col) in acc.evaluations.cols.iter().enumerate() {
        assert_eq!(col.len(), DOMAIN_SIZE);
        let expected = if i == CONSTANT_COLUMN { 1 } else { 0 };
        for cell in col.iter() {
            assert_eq!(cell.v, expected);
        }
    }
}

#[test]
fn fold_keeps_the_accumulator_shape() {
    let mut sys = ToySystem::new();
    let mut acc = KeccakProofInputs::default();
    let inst = sample_instance(3);
    fold(&mut sys, &mut acc, &inst);
    assert_eq!(acc.evaluations.cols.len(), KECCAK_COLUMN_COUNT);
    for col in acc.evaluations.cols.iter() {
        assert_eq!(col.len(), DOMAIN_SIZE);
    }
    fold(&mut sys, &mut acc, &sample_instance(9));
    assert_eq!(acc.evaluations.cols.len(), KECCAK_COLUMN_COUNT);
    for col in acc.evaluations.cols.iter() {
        assert_eq!(col.len(), DOMAIN_SIZE);
    }
}

#[test]
fn fold_applies_the_linear_combination() {
    // with a toy transcript the challenge is reproducible: derive it once
    // by hand and check one cell of the folded accumulator
    let mut probe = ToySystem::new();
    let inst = sample_instance(3);
    let mut commitments = Vec::new();
    for col in inst.cols.iter() {
        commitments.push(probe.commit_evaluations(col));
    }
    probe.start_transcript();
    for c in commitments.iter() {
        probe.absorb_commitment(c);
    }
    let r = Fp::new(probe.squeeze_challenge().v);

    let mut sys = ToySystem::new();
    let mut acc = KeccakProofInputs::default();
    fold(&mut sys, &mut acc, &inst);
    // a cell of the constant column: instance + r * 1
    let got = acc.evaluations.cols[CONSTANT_COLUMN][7].v;
    let want = inst.cols[CONSTANT_COLUMN][7].add(r.mul(Fp::new(1))).v;
    assert_eq!(got, want);
    // a cell of an ordinary column: instance + r * 0
    let got0 = acc.evaluations.cols[0][11].v;
    assert_eq!(got0, inst.cols[0][11].v);
}

#[test]
fn fold_is_deterministic() {
    let inst1 = sample_instance(5);
    let inst2 = sample_instance(1000);

    let mut sys_a = ToySystem::new();
    let mut acc_a = KeccakProofInputs::default();
    fold(&mut sys_a, &mut acc_a, &inst1);
    fold(&mut sys_a, &mut acc_a, &inst2);

    let mut sys_b = ToySystem::new();
    let mut acc_b = KeccakProofInputs::default();
    fold(&mut sys_b, &mut acc_b, &inst1);
    fold(&mut sys_b, &mut acc_b, &inst2);

    assert_same_accumulator(&acc_a, &acc_b);
    // the derived transcript states agree as well
    assert_eq!(sys_a.state, sys_b.state);
}

#[test]
fn fold_order_matters() {
    let inst1 = sample_instance(5);
    let inst2 = sample_instance(1000);

    let mut sys_a = ToySystem::new();
    let mut acc_a = KeccakProofInputs::default();
    fold(&mut sys_a, &mut acc_a, &inst1);
    fold(&mut sys_a, &mut acc_a, &inst2);

    let mut sys_b = ToySystem::new();
    let mut acc_b = KeccakProofInputs::default();
    fold(&mut sys_b, &mut acc_b, &inst2);
    fold(&mut sys_b, &mut acc_b, &inst1);

    let flat_a: Vec<u64> = acc_a.evaluations.cols.iter().flatten().map(|f| f.v).collect();
    let flat_b: Vec<u64> = acc_b.evaluations.cols.iter().flatten().map(|f| f.v).collect();
    assert_ne!(flat_a, flat_b);
}

#[test]
fn prove_packages_the_proof_shape() {
    let mut sys = ToySystem::new();
    let mut acc = KeccakProofInputs::default();
    fold(&mut sys, &mut acc, &sample_instance(3));
    let proof = prove(&mut sys, acc);
    assert_eq!(proof.commitments.cols.len(), KECCAK_COLUMN_COUNT);
    assert_eq!(proof.zeta_evaluations.cols.len(), KECCAK_COLUMN_COUNT);
    assert_eq!(proof.zeta_omega_evaluations.cols.len(), KECCAK_COLUMN_COUNT);
}

#[test]
fn prove_is_deterministic() {
    let mut sys_a = ToySystem::new();
    let mut acc_a = KeccakProofInputs::default();
    fold(&mut sys_a, &mut acc_a, &sample_instance(3));
    let proof_a = prove(&mut sys_a, acc_a);

    let mut sys_b = ToySystem::new();
    let mut acc_b = KeccakProofInputs::default();
    fold(&mut sys_b, &mut acc_b, &sample_instance(3));
    let proof_b = prove(&mut sys_b, acc_b);

    assert_eq!(proof_a.opening_proof, proof_b.opening_proof);
    assert_eq!(proof_a.commitments.cols, proof_b.commitments.cols);
    for (a, b) in proof_a
        .zeta_evaluations
        .cols
        .iter()
        .zip(proof_b.zeta_evaluations.cols.iter())
    {
        assert_eq!(a.v, b.v);
    }
}
