use schist::expr::NameMap;
use schist::exprvm::{eval, eval_reals, CompileError, Compiler, Program};
use schist::numeric::{ArithOp, RealNeed, Reals};
use schist::sql::{BinOp, Expr};
use schist::value::Value;

fn cols() -> NameMap {
    let mut m = NameMap::new();
    m.insert("a", 0);
    m.insert("b", 1);
    m
}

fn col(name: &str) -> Box<Expr> {
    Box::new(Expr::Column(name.to_string()))
}

fn num(i: i64) -> Box<Expr> {
    Box::new(Expr::LitInt(i))
}

fn compile_expr(expr: Expr) -> Program {
    let cols = cols();
    Compiler::new(&cols).compile(&expr).unwrap()
}

#[test]
fn arithmetic_program() {
    // a + b * 2
    let prog = compile_expr(Expr::Binary(
        BinOp::Add,
        col("a"),
        Box::new(Expr::Binary(BinOp::Mul, col("b"), num(2))),
    ));
    let v = eval(&prog, &[Value::Int(3), Value::Int(4)]);
    assert_eq!(v, Value::Int(11));
}

#[test]
fn comparison_and_logic() {
    // a > 1 AND b < 10
    let prog = compile_expr(Expr::Binary(
        BinOp::And,
        Box::new(Expr::Binary(BinOp::Gt, col("a"), num(1))),
        Box::new(Expr::Binary(BinOp::Lt, col("b"), num(10))),
    ));
    assert_eq!(eval(&prog, &[Value::Int(2), Value::Int(5)]), Value::Bool(true));
    assert_eq!(eval(&prog, &[Value::Int(0), Value::Int(5)]), Value::Bool(false));
}

#[test]
fn null_propagation() {
    let prog = compile_expr(Expr::Binary(BinOp::Add, col("a"), col("b")));
    assert_eq!(eval(&prog, &[Value::Null, Value::Int(1)]), Value::Null);
}

#[test]
fn is_null_op() {
    let prog = compile_expr(Expr::IsNull(col("a"), false));
    assert_eq!(eval(&prog, &[Value::Null, Value::Int(0)]), Value::Bool(true));
    assert_eq!(eval(&prog, &[Value::Int(1), Value::Int(0)]), Value::Bool(false));
}

#[test]
fn between_op() {
    let prog = compile_expr(Expr::Between(col("a"), num(1), num(10)));
    assert_eq!(eval(&prog, &[Value::Int(5), Value::Null]), Value::Bool(true));
    assert_eq!(eval(&prog, &[Value::Int(20), Value::Null]), Value::Bool(false));
}

#[test]
fn in_list_op() {
    let prog = compile_expr(Expr::InList(
        col("a"),
        vec![Expr::LitInt(1), Expr::LitInt(3), Expr::LitInt(5)],
    ));
    assert_eq!(eval(&prog, &[Value::Int(3), Value::Null]), Value::Bool(true));
    assert_eq!(eval(&prog, &[Value::Int(4), Value::Null]), Value::Bool(false));
}

#[test]
fn unknown_column_errors() {
    let cols = cols();
    let expr = Expr::Column("c".to_string());
    assert!(matches!(
        Compiler::new(&cols).compile(&expr),
        Err(CompileError::UnknownColumn(_))
    ));
}

#[test]
fn real_sums_are_asked_for() {
    let prog = compile_expr(Expr::Binary(BinOp::Add, col("a"), col("b")));
    let (x, y, z) = (0.5f64.to_bits(), 0.25f64.to_bits(), 0.75f64.to_bits());
    let row = [Value::Real(x), Value::Real(y)];
    let mut reals = Reals::new();
    assert_eq!(eval_reals(&prog, &row, &reals), Err(RealNeed::Arith(ArithOp::Add, x, y)));
    reals.note_result(ArithOp::Add, x, y, z);
    assert_eq!(eval_reals(&prog, &row, &reals), Ok(Value::Real(z)));
}
