use folding_core::column::{Column, Gadget, NUMBER_OF_COLUMNS};
use folding_core::error::{Error, NodeKind};
use folding_core::expr::{ConstantExpr, CurrOrNext, Expr};
use folding_core::field::{Fp, MODULUS};
use folding_core::mvpoly::Poly;

fn fp(v: u64) -> Fp {
    Fp::new(v)
}

fn point(vs: &[u64]) -> Vec<Fp> {
    vs.iter().map(|v| fp(*v)).collect()
}

fn lit(v: u64) -> Expr {
    Expr::Constant(ConstantExpr::Literal(fp(v)))
}

fn cell(i: usize) -> Expr {
    Expr::Cell { col: Column::X(i), row: CurrOrNext::Curr }
}

const N: usize = 20;

#[test]
fn column_to_variable_index() {
    assert_eq!(Column::X(3).to_variable_index(), Ok(3));
    assert_eq!(Column::PublicInput(2).to_variable_index(), Ok(NUMBER_OF_COLUMNS + 2));
    assert_eq!(
        Column::Selector(Gadget::Poseidon).to_variable_index(),
        Err(Error::UnsupportedColumn)
    );
}

#[test]
fn compile_evaluates_like_the_expression() {
    // (x_0 + 3) * (x_1 - 2)^2 + double(x_0)
    let e = Expr::Add(
        Box::new(Expr::Mul(
            Box::new(Expr::Add(Box::new(cell(0)), Box::new(lit(3)))),
            Box::new(Expr::Square(Box::new(Expr::Sub(Box::new(cell(1)), Box::new(lit(2)))))),
        )),
        Box::new(Expr::Double(Box::new(cell(0)))),
    );
    let p = Poly::from_expr(&e, N, 3).unwrap();
    let mut x = vec![0u64; N];
    x[0] = 5;
    x[1] = 9;
    let expected = ((5 + 3) * (9 - 2) * (9 - 2) + 2 * 5) % MODULUS;
    assert_eq!(p.eval(&point(&x)).v, expected);
}

#[test]
fn compile_power_repeated_multiplication() {
    let e = Expr::Pow(Box::new(cell(0)), 3);
    let p = Poly::from_expr(&e, N, 3).unwrap();
    let mut x = vec![0u64; N];
    x[0] = 4;
    assert_eq!(p.eval(&point(&x)).v, 64);
    let zero_pow = Expr::Pow(Box::new(cell(0)), 0);
    let one = Poly::from_expr(&zero_pow, N, 3).unwrap();
    assert_eq!(one.eval(&point(&x)).v, 1);
}

#[test]
fn compile_constant_layer() {
    let c = ConstantExpr::Mul(
        Box::new(ConstantExpr::Add(
            Box::new(ConstantExpr::Literal(fp(2))),
            Box::new(ConstantExpr::Literal(fp(5))),
        )),
        Box::new(ConstantExpr::Literal(fp(3))),
    );
    let p = Poly::from_constant(&c, N, 2).unwrap();
    assert!(p.is_constant());
    assert_eq!(p.eval(&point(&[0; N])).v, 21);
}

#[test]
fn compile_next_row_reference_fails() {
    let e = Expr::Cell { col: Column::X(0), row: CurrOrNext::Next };
    assert_eq!(Poly::from_expr(&e, N, 2).unwrap_err(), Error::UnsupportedRowReference);
}

#[test]
fn compile_selector_reference_fails() {
    let e = Expr::Cell { col: Column::Selector(Gadget::App), row: CurrOrNext::Curr };
    assert_eq!(Poly::from_expr(&e, N, 2).unwrap_err(), Error::UnsupportedColumn);
}

#[test]
fn compile_unsupported_constructs_fail_with_their_kind() {
    let cases: Vec<(Expr, NodeKind)> = vec![
        (Expr::Constant(ConstantExpr::Challenge), NodeKind::Challenge),
        (Expr::Constant(ConstantExpr::EndoCoefficient), NodeKind::EndoCoefficient),
        (Expr::Constant(ConstantExpr::Mds { row: 0, col: 1 }), NodeKind::Mds),
        (Expr::UnnormalizedLagrangeBasis, NodeKind::UnnormalizedLagrangeBasis),
        (
            Expr::VanishesOnZeroKnowledgeAndPreviousRows,
            NodeKind::VanishesOnZeroKnowledgeAndPreviousRows,
        ),
        (Expr::Cache(Box::new(lit(1))), NodeKind::Cache),
        (Expr::IfFeature(Box::new(lit(1)), Box::new(lit(0))), NodeKind::IfFeature),
    ];
    for (e, kind) in cases {
        assert_eq!(Poly::from_expr(&e, N, 2).unwrap_err(), Error::UnsupportedConstruct(kind));
    }
}

#[test]
fn compile_reports_first_error_in_evaluation_order() {
    let e = Expr::Add(
        Box::new(Expr::Constant(ConstantExpr::Challenge)),
        Box::new(Expr::UnnormalizedLagrangeBasis),
    );
    assert_eq!(
        Poly::from_expr(&e, N, 2).unwrap_err(),
        Error::UnsupportedConstruct(NodeKind::Challenge)
    );
}

#[test]
fn compile_nested_failure_propagates() {
    let e = Expr::Mul(
        Box::new(cell(0)),
        Box::new(Expr::Square(Box::new(Expr::Cache(Box::new(cell(1)))))),
    );
    assert_eq!(Poly::from_expr(&e, N, 3).unwrap_err(), Error::UnsupportedConstruct(NodeKind::Cache));
}

#[test]
fn compile_public_input_cell() {
    let e = Expr::Cell { col: Column::PublicInput(1), row: CurrOrNext::Curr };
    let p = Poly::from_expr(&e, N, 2).unwrap();
    let mut x = vec![0u64; N];
    x[NUMBER_OF_COLUMNS + 1] = 77;
    assert_eq!(p.eval(&point(&x)).v, 77);
}
