use schist::cost::{CostModel, Estimate, TableStats};
use schist::logical::LogicalPlan;
use schist::numeric::{ArithOp, RealFn, RealNeed, Reals};
use schist::sql::{AggFunc, BinOp, Expr};

fn note(reals: &mut Reals, need: RealNeed) {
    match need {
        RealNeed::Arith(op, a, b) => {
            let (x, y) = (f64::from_bits(a), f64::from_bits(b));
            let z = match op {
                ArithOp::Add => x + y,
                ArithOp::Sub => x - y,
                ArithOp::Mul => x * y,
                ArithOp::Div => x / y,
                ArithOp::Mod => x % y,
            };
            reals.note_result(op, a, b, z.to_bits());
        }
        RealNeed::Apply(f, a) => {
            let x = f64::from_bits(a);
            let z = match f {
                RealFn::Sqrt => x.sqrt(),
                RealFn::Log2 => x.log2(),
            };
            reals.note_image(f, a, z.to_bits());
        }
        RealNeed::Text(_) => panic!("unexpected need"),
    }
}

fn estimate(m: &CostModel, p: &LogicalPlan) -> (f64, f64) {
    let mut reals = Reals::new();
    loop {
        match m.estimate(p, &reals) {
            Ok(Estimate { rows, cost }) => return (f64::from_bits(rows), f64::from_bits(cost)),
            Err(need) => note(&mut reals, need),
        }
    }
}

fn share(m: &CostModel, e: &Expr, stats: &TableStats) -> f64 {
    let mut reals = Reals::new();
    loop {
        match m.selectivity(e, stats, &reals) {
            Ok(s) => return f64::from_bits(s),
            Err(need) => note(&mut reals, need),
        }
    }
}

fn col(name: &str) -> Box<Expr> {
    Box::new(Expr::Column(name.to_string()))
}

fn is(name: &str, i: i64) -> Expr {
    Expr::Binary(BinOp::Eq, col(name), Box::new(Expr::LitInt(i)))
}

fn scan() -> LogicalPlan {
    LogicalPlan::Scan { table: "t".to_string(), alias: None }
}

fn all(p: LogicalPlan) -> LogicalPlan {
    LogicalPlan::Project { exprs: vec![(Expr::Star, None)], input: Box::new(p) }
}

fn filtered(predicate: Expr) -> LogicalPlan {
    all(LogicalPlan::Filter { predicate, input: Box::new(scan()) })
}

#[test]
fn scan_uses_row_count() {
    let mut m = CostModel::new();
    m.set_stats("t", TableStats::new(5000));
    let (rows, _) = estimate(&m, &all(scan()));
    assert_eq!(rows, 5000.0);
}

#[test]
fn equality_selectivity_from_ndv() {
    let mut m = CostModel::new();
    m.set_stats("t", TableStats::new(1000).with_ndv("a", 100));
    let (rows, _) = estimate(&m, &filtered(is("a", 5)));
    // 1000 * (1/100) = 10.
    assert!((rows - 10.0).abs() < 0.001, "rows {}", rows);
}

#[test]
fn conjunction_multiplies() {
    let mut m = CostModel::new();
    m.set_stats("t", TableStats::new(1000).with_ndv("a", 10).with_ndv("b", 10));
    let both = Expr::Binary(BinOp::And, Box::new(is("a", 1)), Box::new(is("b", 2)));
    let (rows, _) = estimate(&m, &filtered(both));
    // 1000 * 0.1 * 0.1 = 10.
    assert!((rows - 10.0).abs() < 0.001, "rows {}", rows);
}

#[test]
fn range_is_a_third() {
    let mut m = CostModel::new();
    m.set_stats("t", TableStats::new(900));
    let above = Expr::Binary(BinOp::Gt, col("a"), Box::new(Expr::LitInt(5)));
    let (rows, _) = estimate(&m, &filtered(above));
    assert!((rows - 300.0).abs() < 1.0, "rows {}", rows);
}

#[test]
fn aggregate_reduces_rows() {
    let mut m = CostModel::new();
    m.set_stats("t", TableStats::new(10_000));
    let p = LogicalPlan::Aggregate {
        group_by: vec![*col("a")],
        aggregates: vec![(Expr::Aggregate(AggFunc::Count, Box::new(Expr::Star)), None)],
        input: Box::new(scan()),
    };
    let (rows, cost) = estimate(&m, &p);
    assert!(rows < 10_000.0);
    assert!(rows >= 1.0);
    assert_eq!(rows, 100.0);
    assert_eq!(cost, 60_000.0);
}

#[test]
fn limit_caps_rows() {
    let mut m = CostModel::new();
    m.set_stats("t", TableStats::new(10_000));
    let p = LogicalPlan::Limit { limit: Some(25), offset: None, input: Box::new(all(scan())) };
    let (rows, _) = estimate(&m, &p);
    assert_eq!(rows, 25.0);
}

#[test]
fn selectivity_bounds() {
    let m = CostModel::new();
    let stats = TableStats::new(100).with_ndv("a", 4);
    let s = share(&m, &is("a", 1), &stats);
    assert!((s - 0.25).abs() < 0.001);
}

#[test]
fn selectivity_of_other_predicates() {
    let m = CostModel::new();
    let stats = TableStats::new(100).with_ndv("a", 4);
    let either = Expr::Binary(BinOp::Or, Box::new(is("a", 1)), Box::new(is("a", 2)));
    assert_eq!(share(&m, &either, &stats), 0.4375);
    // No count is known: the root of a hundred rows.
    assert_eq!(share(&m, &is("b", 1), &stats), 0.1);
    let list = Expr::InList(col("a"), (0..20).map(Expr::LitInt).collect());
    assert_eq!(share(&m, &list, &stats), 0.9);
    assert_eq!(share(&m, &Expr::IsNull(col("a"), false), &stats), 0.05);
    assert_eq!(share(&m, &Expr::IsNull(col("a"), true), &stats), 0.95);
    assert_eq!(share(&m, &Expr::LitBool(false), &stats), 0.0);
}

#[test]
fn join_and_sort_costs() {
    let mut m = CostModel::new();
    m.set_stats("t", TableStats::new(1000));
    let on = Expr::Binary(BinOp::Eq, col("x"), col("y"));
    let join = LogicalPlan::Join {
        kind: schist::sql::JoinKind::Inner,
        on,
        left: Box::new(scan()),
        right: Box::new(scan()),
    };
    assert_eq!(estimate(&m, &join), (1000.0, 10_000.0));
    let sort = LogicalPlan::Sort {
        keys: vec![(*col("a"), true)],
        input: Box::new(LogicalPlan::Limit { limit: Some(16), offset: None, input: Box::new(scan()) }),
    };
    assert_eq!(estimate(&m, &sort), (16.0, 4064.0));
    assert_eq!(estimate(&m, &LogicalPlan::EmptyRelation), (0.0, 0.0));
}
