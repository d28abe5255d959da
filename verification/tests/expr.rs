use schist::expr::{eval, eval_reals, eval_with, parse, EvalError, NameMap, NoNames};
use schist::numeric::{ArithOp, RealNeed, Reals};
use schist::value::Value;

fn names(pairs: &[(&str, usize)]) -> NameMap {
    let mut m = NameMap::new();
    for &(n, i) in pairs {
        m.insert(n, i);
    }
    m
}

#[test]
fn parse_and_eval_arith() {
    let e = parse("1 + 2 * 3").unwrap();
    assert_eq!(eval(&e, &[]), Ok(Value::Int(7)));
}

#[test]
fn parse_and_eval_cmp() {
    let e = parse("x > 5").unwrap();
    let n = names(&[("x", 1)]);
    assert_eq!(eval_with(&e, &[Value::Int(0), Value::Int(10)], &n), Ok(Value::Bool(true)));
}

#[test]
fn parse_and_eval_logic() {
    let e = parse("x > 0 AND y > 0").unwrap();
    let n = names(&[("x", 1), ("y", 2)]);
    let row = [Value::Int(0), Value::Int(3), Value::Int(4)];
    assert_eq!(eval_with(&e, &row, &n), Ok(Value::Bool(true)));
}

#[test]
fn parse_and_eval_coalesce() {
    let e = parse("COALESCE(a, b, 0)").unwrap();
    let n = names(&[("a", 1), ("b", 2)]);
    let row = [Value::Int(0), Value::Null, Value::Int(9)];
    assert_eq!(eval_with(&e, &row, &n), Ok(Value::Int(9)));
}

#[test]
fn eval_div_by_zero() {
    let e = parse("1 / 0").unwrap();
    assert_eq!(eval(&e, &[]), Err(EvalError::DivByZero));
}

#[test]
fn eval_abs_func() {
    let e = parse("abs(-7)").unwrap();
    assert_eq!(eval(&e, &[]), Ok(Value::Int(7)));
}

#[test]
fn eval_not() {
    let e = parse("NOT x").unwrap();
    let n = names(&[("x", 1)]);
    assert_eq!(eval_with(&e, &[Value::Int(0), Value::Bool(false)], &n), Ok(Value::Bool(true)));
}

#[test]
fn reals_are_asked_for() {
    let e = parse("1.5 + 2").unwrap();
    let mut reals = Reals::new();
    assert_eq!(
        eval_reals(&e, &[], &NoNames, &reals),
        Err(EvalError::Pending(RealNeed::Text("1.5".to_string())))
    );
    reals.note_text("1.5", 1.5f64.to_bits());
    assert_eq!(
        eval_reals(&e, &[], &NoNames, &reals),
        Err(EvalError::Pending(RealNeed::Arith(ArithOp::Add, 1.5f64.to_bits(), 2.0f64.to_bits())))
    );
    reals.note_result(ArithOp::Add, 1.5f64.to_bits(), 2.0f64.to_bits(), 3.5f64.to_bits());
    assert_eq!(eval_reals(&e, &[], &NoNames, &reals), Ok(Value::Real(3.5f64.to_bits())));
}

#[test]
fn parse_errors() {
    assert!(parse("1 +").is_err());
    assert!(parse("(1").is_err());
    assert!(parse("1 2").is_err());
}

#[test]
fn precedence_and_parentheses() {
    assert_eq!(eval(&parse("(1 + 2) * 3").unwrap(), &[]), Ok(Value::Int(9)));
    assert_eq!(eval(&parse("10 - 2 - 3").unwrap(), &[]), Ok(Value::Int(5)));
}
