use folding_core::column::{Column, Gadget};
use folding_core::field::Fp;
use folding_core::instruction::{
    BInstruction, IInstruction, Instruction, JInstruction, RInstruction, SInstruction,
    UInstruction,
};
use folding_core::witness::{VariableCell, Variables};

#[test]
fn column_latex_rendering() {
    assert_eq!(Column::Selector(Gadget::App).latex(), "q_app");
    assert_eq!(Column::Selector(Gadget::EllipticCurveAddition).latex(), "q_ec_add");
    assert_eq!(Column::Selector(Gadget::EllipticCurveScaling).latex(), "q_ec_mul");
    assert_eq!(Column::Selector(Gadget::Poseidon).latex(), "q_pos");
    assert_eq!(Column::PublicInput(12).latex(), "pi_{12}");
    assert_eq!(Column::X(3).latex(), "x_{3}");
}

#[test]
fn column_text_rendering() {
    assert_eq!(Column::Selector(Gadget::Poseidon).text(), "q_pos_next_row");
    assert_eq!(Column::Selector(Gadget::App).text(), "q_app");
    assert_eq!(Column::PublicInput(0).text(), "pi[0]");
    assert_eq!(Column::X(105).text(), "x[105]");
}

#[test]
fn instruction_registries_have_every_opcode() {
    assert_eq!(RInstruction::variants().len(), 10);
    assert_eq!(IInstruction::variants().len(), 13);
    assert_eq!(SInstruction::variants().len(), 3);
    assert_eq!(BInstruction::variants().len(), 6);
    assert_eq!(UInstruction::variants().len(), 2);
    assert_eq!(JInstruction::variants().len(), 2);
    assert_eq!(RInstruction::variants()[0], RInstruction::Add);
    assert_eq!(RInstruction::variants()[9], RInstruction::And);
    assert_eq!(SInstruction::variants(), vec![
        SInstruction::StoreByte,
        SInstruction::StoreHalf,
        SInstruction::StoreWord,
    ]);
}

#[test]
fn instruction_defaults() {
    assert_eq!(RInstruction::default(), RInstruction::Add);
    assert_eq!(IInstruction::default(), IInstruction::LoadByte);
    assert_eq!(SInstruction::default(), SInstruction::StoreByte);
    assert_eq!(BInstruction::default(), BInstruction::BranchEq);
    assert_eq!(UInstruction::default(), UInstruction::LoadUpperImmediate);
    assert_eq!(JInstruction::default(), JInstruction::JumpAndLink);
}

#[test]
fn instruction_into_iter_expands_its_own_type() {
    let r = Instruction::RType(RInstruction::Xor).into_iter();
    assert_eq!(r.len(), 10);
    assert_eq!(r[0], Instruction::RType(RInstruction::Add));
    assert_eq!(r[5], Instruction::RType(RInstruction::Xor));
    let j = Instruction::JType(JInstruction::Jump).into_iter();
    assert_eq!(j, vec![
        Instruction::JType(JInstruction::JumpAndLink),
        Instruction::JType(JInstruction::Jump),
    ]);
    let b = Instruction::BType(BInstruction::BranchGe).into_iter();
    assert_eq!(b.len(), 6);
    for i in b {
        assert!(matches!(i, Instruction::BType(_)));
    }
}

#[test]
fn variable_cell_reads_its_binding() {
    let cell = VariableCell::create("lhs");
    let env = Variables {
        entries: vec![
            ("rhs".to_string(), Fp::new(3)),
            ("lhs".to_string(), Fp::new(42)),
        ],
    };
    assert_eq!(cell.value(&env).v, 42);
}

#[test]
fn variable_cell_first_binding_wins() {
    let cell = VariableCell::create("x");
    let env = Variables {
        entries: vec![
            ("x".to_string(), Fp::new(1)),
            ("x".to_string(), Fp::new(2)),
        ],
    };
    assert_eq!(cell.value(&env).v, 1);
}
