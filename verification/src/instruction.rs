//! The catalog of instruction opcodes, grouped by encoding type.
//!
//! Each enum carries an explicit registry function `variants` that lists
//! every variant in declaration order; `Instruction::into_iter` expands an
//! instruction into the full registry of its own encoding type.

use vstd::prelude::*;

verus! {

#[derive(Clone, Copy, Debug, PartialEq, Eq, Structural, Hash, PartialOrd, Ord)]
pub enum Instruction {
    RType(RInstruction),
    IType(IInstruction),
    SType(SInstruction),
    BType(BInstruction),
    UType(UInstruction),
    JType(JInstruction),
}

#[derive(Clone, Copy, Debug, PartialEq, Eq, Structural, Hash, PartialOrd, Ord, Default)]
pub enum RInstruction {
    #[default]
    Add,
    Sub,
    ShiftLeftLogical,
    SetLessThan,
    SetLessThanUnsigned,
    Xor,
    ShiftRightLogical,
    ShiftRightArithmetic,
    Or,
    And,
}

#[derive(Clone, Copy, Debug, PartialEq, Eq, Structural, Hash, PartialOrd, Ord, Default)]
pub enum IInstruction {
    #[default]
    LoadByte,
    LoadHalf,
    LoadWord,
    LoadByteUnsigned,
    LoadHalfUnsigned,
    ShiftLeftLogicalImmediate,
    ShiftRightLogicalImmediate,
    ShiftRightArithmeticImmediate,
    SetLessThanImmediate,
    SetLessThanImmediateUnsigned,
    AddImmediate,
    XorImmediate,
    OrImmediate,
}

#[derive(Clone, Copy, Debug, PartialEq, Eq, Structural, Hash, PartialOrd, Ord, Default)]
pub enum SInstruction {
    #[default]
    StoreByte,
    StoreHalf,
    StoreWord,
}

#[derive(Clone, Copy, Debug, PartialEq, Eq, Structural, Hash, PartialOrd, Ord, Default)]
pub enum BInstruction {
    #[default]
    BranchEq,
    BranchNeq,
    BranchLessThan,
    BranchGe,
    BranchLessThanUnsigned,
    BranchGreaterThanEqual,
}

#[derive(Clone, Copy, Debug, PartialEq, Eq, Structural, Hash, PartialOrd, Ord, Default)]
pub enum UInstruction {
    #[default]
    LoadUpperImmediate,
    AddUpperImmediate,
}

#[derive(Clone, Copy, Debug, PartialEq, Eq, Structural, Hash, PartialOrd, Ord, Default)]
pub enum JInstruction {
    #[default]
    JumpAndLink,
    Jump,
}

/// All R-type opcodes, in declaration order.
pub open spec fn r_variants() -> Seq<RInstruction> {
    seq![
        RInstruction::Add,
        RInstruction::Sub,
        RInstruction::ShiftLeftLogical,
        RInstruction::SetLessThan,
        RInstruction::SetLessThanUnsigned,
        RInstruction::Xor,
        RInstruction::ShiftRightLogical,
        RInstruction::ShiftRightArithmetic,
        RInstruction::Or,
        RInstruction::And,
    ]
}

/// All I-type opcodes, in declaration order.
pub open spec fn i_variants() -> Seq<IInstruction> {
    seq![
        IInstruction::LoadByte,
        IInstruction::LoadHalf,
        IInstruction::LoadWord,
        IInstruction::LoadByteUnsigned,
        IInstruction::LoadHalfUnsigned,
        IInstruction::ShiftLeftLogicalImmediate,
        IInstruction::ShiftRightLogicalImmediate,
        IInstruction::ShiftRightArithmeticImmediate,
        IInstruction::SetLessThanImmediate,
        IInstruction::SetLessThanImmediateUnsigned,
        IInstruction::AddImmediate,
        IInstruction::XorImmediate,
        IInstruction::OrImmediate,
    ]
}

/// All S-type opcodes, in declaration order.
pub open spec fn s_variants() -> Seq<SInstruction> {
    seq![SInstruction::StoreByte, SInstruction::StoreHalf, SInstruction::StoreWord]
}

/// All B-type opcodes, in declaration order.
pub open spec fn b_variants() -> Seq<BInstruction> {
    seq![
        BInstruction::BranchEq,
        BInstruction::BranchNeq,
        BInstruction::BranchLessThan,
        BInstruction::BranchGe,
        BInstruction::BranchLessThanUnsigned,
        BInstruction::BranchGreaterThanEqual,
    ]
}

/// All U-type opcodes, in declaration order.
pub open spec fn u_variants() -> Seq<UInstruction> {
    seq![UInstruction::LoadUpperImmediate, UInstruction::AddUpperImmediate]
}

/// All J-type opcodes, in declaration order.
pub open spec fn j_variants() -> Seq<JInstruction> {
    seq![JInstruction::JumpAndLink, JInstruction::Jump]
}

impl RInstruction {
    /// The registry of all R-type opcodes, in declaration order.
    pub fn variants() -> (r: Vec<RInstruction>)
        ensures
            r@ == r_variants(),
    {
        let v = vec![
            RInstruction::Add,
            RInstruction::Sub,
            RInstruction::ShiftLeftLogical,
            RInstruction::SetLessThan,
            RInstruction::SetLessThanUnsigned,
            RInstruction::Xor,
            RInstruction::ShiftRightLogical,
            RInstruction::ShiftRightArithmetic,
            RInstruction::Or,
            RInstruction::And,
        ];
        proof {
            assert(v@ =~= r_variants());
        }
        v
    }
}

impl IInstruction {
    /// The registry of all I-type opcodes, in declaration order.
    pub fn variants() -> (r: Vec<IInstruction>)
        ensures
            r@ == i_variants(),
    {
        let v = vec![
            IInstruction::LoadByte,
            IInstruction::LoadHalf,
            IInstruction::LoadWord,
            IInstruction::LoadByteUnsigned,
            IInstruction::LoadHalfUnsigned,
            IInstruction::ShiftLeftLogicalImmediate,
            IInstruction::ShiftRightLogicalImmediate,
            IInstruction::ShiftRightArithmeticImmediate,
            IInstruction::SetLessThanImmediate,
            IInstruction::SetLessThanImmediateUnsigned,
            IInstruction::AddImmediate,
            IInstruction::XorImmediate,
            IInstruction::OrImmediate,
        ];
        proof {
            assert(v@ =~= i_variants());
        }
        v
    }
}

impl SInstruction {
    /// The registry of all S-type opcodes, in declaration order.
    pub fn variants() -> (r: Vec<SInstruction>)
        ensures
            r@ == s_variants(),
    {
        let v = vec![SInstruction::StoreByte, SInstruction::StoreHalf, SInstruction::StoreWord];
        proof {
            assert(v@ =~= s_variants());
        }
        v
    }
}

impl BInstruction {
    /// The registry of all B-type opcodes, in declaration order.
    pub fn variants() -> (r: Vec<BInstruction>)
        ensures
            r@ == b_variants(),
    {
        let v = vec![
            BInstruction::BranchEq,
            BInstruction::BranchNeq,
            BInstruction::BranchLessThan,
            BInstruction::BranchGe,
            BInstruction::BranchLessThanUnsigned,
            BInstruction::BranchGreaterThanEqual,
        ];
        proof {
            assert(v@ =~= b_variants());
        }
        v
    }
}

impl UInstruction {
    /// The registry of all U-type opcodes, in declaration order.
    pub fn variants() -> (r: Vec<UInstruction>)
        ensures
            r@ == u_variants(),
    {
        let v = vec![UInstruction::LoadUpperImmediate, UInstruction::AddUpperImmediate];
        proof {
            assert(v@ =~= u_variants());
        }
        v
    }
}

impl JInstruction {
    /// The registry of all J-type opcodes, in declaration order.
    pub fn variants() -> (r: Vec<JInstruction>)
        ensures
            r@ == j_variants(),
    {
        let v = vec![JInstruction::JumpAndLink, JInstruction::Jump];
        proof {
            assert(v@ =~= j_variants());
        }
        v
    }
}

/// The expansion of an instruction into the registry of its encoding type.
pub open spec fn same_type_variants(i: Instruction) -> Seq<Instruction> {
    match i {
        Instruction::RType(_) => r_variants().map(|k: int, v: RInstruction| Instruction::RType(v)),
        Instruction::IType(_) => i_variants().map(|k: int, v: IInstruction| Instruction::IType(v)),
        Instruction::SType(_) => s_variants().map(|k: int, v: SInstruction| Instruction::SType(v)),
        Instruction::BType(_) => b_variants().map(|k: int, v: BInstruction| Instruction::BType(v)),
        Instruction::UType(_) => u_variants().map(|k: int, v: UInstruction| Instruction::UType(v)),
        Instruction::JType(_) => j_variants().map(|k: int, v: JInstruction| Instruction::JType(v)),
    }
}

impl Instruction {
    /// Expands the instruction into every instruction of its own encoding
    /// type, in declaration order.
    pub fn into_iter(self) -> (r: Vec<Instruction>)
        ensures
            r@ == same_type_variants(self),
    {
        match self {
            Instruction::RType(_) => {
                let source = RInstruction::variants();
                let mut contents: Vec<Instruction> = Vec::new();
                let mut k: usize = 0;
                while k < source.len()
                    invariant
                        source@ == r_variants(),
                        k <= source@.len(),
                        contents@ == r_variants().map(
                            |j: int, v: RInstruction| Instruction::RType(v),
                        ).take(k as int),
                    decreases source@.len() - k,
                {
                    contents.push(Instruction::RType(source[k]));
                    k = k + 1;
                    proof {
                        assert(contents@ =~= r_variants().map(
                            |j: int, v: RInstruction| Instruction::RType(v),
                        ).take(k as int));
                    }
                }
                proof {
                    assert(contents@ =~= same_type_variants(self));
                }
                contents
            },
            Instruction::IType(_) => {
                let source = IInstruction::variants();
                let mut contents: Vec<Instruction> = Vec::new();
                let mut k: usize = 0;
                while k < source.len()
                    invariant
                        source@ == i_variants(),
                        k <= source@.len(),
                        contents@ == i_variants().map(
                            |j: int, v: IInstruction| Instruction::IType(v),
                        ).take(k as int),
                    decreases source@.len() - k,
                {
                    contents.push(Instruction::IType(source[k]));
                    k = k + 1;
                    proof {
                        assert(contents@ =~= i_variants().map(
                            |j: int, v: IInstruction| Instruction::IType(v),
                        ).take(k as int));
                    }
                }
                proof {
                    assert(contents@ =~= same_type_variants(self));
                }
                contents
            },
            Instruction::SType(_) => {
                let source = SInstruction::variants();
                let mut contents: Vec<Instruction> = Vec::new();
                let mut k: usize = 0;
                while k < source.len()
                    invariant
                        source@ == s_variants(),
                        k <= source@.len(),
                        contents@ == s_variants().map(
                            |j: int, v: SInstruction| Instruction::SType(v),
                        ).take(k as int),
                    decreases source@.len() - k,
                {
                    contents.push(Instruction::SType(source[k]));
                    k = k + 1;
                    proof {
                        assert(contents@ =~= s_variants().map(
                            |j: int, v: SInstruction| Instruction::SType(v),
                        ).take(k as int));
                    }
                }
                proof {
                    assert(contents@ =~= same_type_variants(self));
                }
                contents
            },
            Instruction::BType(_) => {
                let source = BInstruction::variants();
                let mut contents: Vec<Instruction> = Vec::new();
                let mut k: usize = 0;
                while k < source.len()
                    invariant
                        source@ == b_variants(),
                        k <= source@.len(),
                        contents@ == b_variants().map(
                            |j: int, v: BInstruction| Instruction::BType(v),
                        ).take(k as int),
                    decreases source@.len() - k,
                {
                    contents.push(Instruction::BType(source[k]));
                    k = k + 1;
                    proof {
                        assert(contents@ =~= b_variants().map(
                            |j: int, v: BInstruction| Instruction::BType(v),
                        ).take(k as int));
                    }
                }
                proof {
                    assert(contents@ =~= same_type_variants(self));
                }
                contents
            },
            Instruction::UType(_) => {
                let source = UInstruction::variants();
                let mut contents: Vec<Instruction> = Vec::new();
                let mut k: usize = 0;
                while k < source.len()
                    invariant
                        source@ == u_variants(),
                        k <= source@.len(),
                        contents@ == u_variants().map(
                            |j: int, v: UInstruction| Instruction::UType(v),
                        ).take(k as int),
                    decreases source@.len() - k,
                {
                    contents.push(Instruction::UType(source[k]));
                    k = k + 1;
                    proof {
                        assert(contents@ =~= u_variants().map(
                            |j: int, v: UInstruction| Instruction::UType(v),
                        ).take(k as int));
                    }
                }
                proof {
                    assert(contents@ =~= same_type_variants(self));
                }
                contents
            },
            Instruction::JType(_) => {
                let source = JInstruction::variants();
                let mut contents: Vec<Instruction> = Vec::new();
                let mut k: usize = 0;
                while k < source.len()
                    invariant
                        source@ == j_variants(),
                        k <= source@.len(),
                        contents@ == j_variants().map(
                            |j: int, v: JInstruction| Instruction::JType(v),
                        ).take(k as int),
                    decreases source@.len() - k,
                {
                    contents.push(Instruction::JType(source[k]));
                    k = k + 1;
                    proof {
                        assert(contents@ =~= j_variants().map(
                            |j: int, v: JInstruction| Instruction::JType(v),
                        ).take(k as int));
                    }
                }
                proof {
                    assert(contents@ =~= same_type_variants(self));
                }
                contents
            },
        }
    }
}

} // verus!
