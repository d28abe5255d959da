use schist::expr::NameMap;
use schist::exprvm::{Compiler, Program};
use schist::physical::{AggKind, AggSpec, Filter, HashAggregate, Limit, Operator, Project, Row, Scan, Sort};
use schist::sql::{BinOp, Expr};
use schist::value::Value;

fn rows() -> Vec<Row> {
    vec![
        vec![Value::Int(1), Value::Int(10)],
        vec![Value::Int(2), Value::Int(20)],
        vec![Value::Int(3), Value::Int(30)],
        vec![Value::Int(1), Value::Int(40)],
    ]
}

fn col(name: &str) -> Expr {
    Expr::Column(name.to_string())
}

fn program(expr: Expr) -> Program {
    let mut cols = NameMap::new();
    cols.insert("a", 0);
    cols.insert("b", 1);
    Compiler::new(&cols).compile(&expr).unwrap()
}

fn compared(op: BinOp, i: i64) -> Program {
    program(Expr::Binary(op, Box::new(col("b")), Box::new(Expr::LitInt(i))))
}

#[test]
fn scan_filter() {
    let scan = Scan::new(rows());
    let mut op = Filter::new(scan, compared(BinOp::Gt, 15));
    let out = op.collect_rows();
    assert_eq!(out.len(), 3);
}

#[test]
fn project_expressions() {
    let scan = Scan::new(rows());
    let sum = Expr::Binary(BinOp::Add, Box::new(col("a")), Box::new(col("b")));
    let mut op = Project::new(scan, vec![program(sum)]);
    let out = op.collect_rows();
    assert_eq!(out[0], vec![Value::Int(11)]);
    assert_eq!(out[3], vec![Value::Int(41)]);
}

#[test]
fn limit_offset() {
    let scan = Scan::new(rows());
    let mut op = Limit::new(scan, 2, 1);
    let out = op.collect_rows();
    assert_eq!(out.len(), 2);
    assert_eq!(out[0][0], Value::Int(2));
}

#[test]
fn sort_descending() {
    let scan = Scan::new(rows());
    let mut op = Sort::new(scan, vec![(1, false)]);
    let out = op.collect_rows();
    let col1: Vec<Value> = out.iter().map(|r| r[1]).collect();
    assert_eq!(col1, vec![Value::Int(40), Value::Int(30), Value::Int(20), Value::Int(10)]);
}

#[test]
fn hash_aggregate_group_sum() {
    let scan = Scan::new(rows());
    let mut op = HashAggregate::new(
        scan,
        vec![0],
        vec![
            AggSpec { kind: AggKind::Sum, column: 1 },
            AggSpec { kind: AggKind::Count, column: 1 },
        ],
    );
    let mut out = op.collect_rows();
    out.sort_by_key(|r| r[0].as_int().unwrap());
    // Group 1 -> sum 50, count 2.
    assert_eq!(out[0], vec![Value::Int(1), Value::Int(50), Value::Int(2)]);
    assert_eq!(out[1], vec![Value::Int(2), Value::Int(20), Value::Int(1)]);
}

#[test]
fn pipeline_composition() {
    // Scan -> Filter -> Project -> Sort
    let scan = Scan::new(rows());
    let filt = Filter::new(scan, compared(BinOp::GtEq, 20));
    let proj = Project::new(filt, vec![program(col("a")), program(col("b"))]);
    let mut sort = Sort::new(proj, vec![(1, true)]);
    let out = sort.collect_rows();
    assert_eq!(out.len(), 3);
    assert_eq!(out[0][1], Value::Int(20));
    assert_eq!(out[2][1], Value::Int(40));
}

#[test]
fn aggregate_extremes() {
    let mut op = HashAggregate::new(
        Scan::new(rows()),
        vec![],
        vec![AggSpec { kind: AggKind::Min, column: 1 }, AggSpec { kind: AggKind::Max, column: 1 }],
    );
    assert_eq!(op.collect_rows(), vec![vec![Value::Int(10), Value::Int(40)]]);
}
