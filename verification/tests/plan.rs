use schist::numeric::{ArithOp, RealNeed, RealTexts, Reals};
use schist::plan::{optimize, plan, LogicalNode, PhysicalNode, PlanStats, ScanPath};
use schist::value::Value;

fn stats() -> PlanStats {
    PlanStats {
        table_rows: 10000.0f64.to_bits(),
        eq_selectivity: vec![1.0f64.to_bits(), 0.01f64.to_bits()],
        indexed_cols: vec![false, true],
    }
}

fn note(reals: &mut Reals, need: RealNeed) {
    match need {
        RealNeed::Arith(op, a, b) => {
            let (x, y) = (f64::from_bits(a), f64::from_bits(b));
            let z = match op {
                ArithOp::Add => x + y,
                ArithOp::Sub => x - y,
                ArithOp::Mul => x * y,
                ArithOp::Div => x / y,
                ArithOp::Mod => x % y,
            };
            reals.note_result(op, a, b, z.to_bits());
        }
        _ => panic!("unexpected need"),
    }
}

fn planned(logical: &LogicalNode, stats: &PlanStats) -> PhysicalNode {
    let mut reals = Reals::new();
    loop {
        match plan(logical, stats, &reals) {
            Ok(p) => return p,
            Err(need) => note(&mut reals, need),
        }
    }
}

fn scan(t: &str) -> Box<LogicalNode> {
    Box::new(LogicalNode::Scan { table: t.into() })
}

#[test]
fn plan_filter_with_index_uses_index_scan() {
    let logical = LogicalNode::Filter {
        input: scan("t"),
        col: 1,
        op: "=".into(),
        value: Value::Int(5),
    };
    let phys = planned(&logical, &stats());
    match phys {
        PhysicalNode::Scan { path: ScanPath::IndexEq { col, .. }, est_rows, .. } => {
            assert_eq!(col, 1);
            assert_eq!(f64::from_bits(est_rows), 100.0);
        }
        _ => panic!("expected index scan"),
    }
}

#[test]
fn plan_join_picks_hash_for_small() {
    let logical = LogicalNode::Join { left: scan("a"), right: scan("b"), left_col: 0, right_col: 0 };
    let phys = planned(&logical, &stats());
    assert!(matches!(phys, PhysicalNode::HashJoin { .. }));
}

#[test]
fn plan_join_by_size() {
    let logical = LogicalNode::Join { left: scan("a"), right: scan("b"), left_col: 0, right_col: 0 };
    let mut s = stats();
    s.table_rows = 100.0f64.to_bits();
    let small = planned(&logical, &s);
    assert!(matches!(small, PhysicalNode::HashJoin { .. }));
    assert_eq!(f64::from_bits(small.est_rows()), 100.0);
    s.table_rows = 100_000.0f64.to_bits();
    assert!(matches!(planned(&logical, &s), PhysicalNode::SortMergeJoin { .. }));
    s.table_rows = 1e6f64.to_bits();
    assert!(matches!(planned(&logical, &s), PhysicalNode::NestedLoopJoin { .. }));
}

#[test]
fn plan_asks_for_products() {
    let logical = LogicalNode::Filter { input: scan("t"), col: 0, op: "<".into(), value: Value::Int(5) };
    let need = RealNeed::Arith(ArithOp::Mul, 10000.0f64.to_bits(), 0.3f64.to_bits());
    assert!(matches!(plan(&logical, &stats(), &Reals::new()), Err(n) if n == need));
}

#[test]
fn plan_limit_and_aggregate() {
    let limit = LogicalNode::Limit { input: scan("t"), n: 25 };
    assert_eq!(f64::from_bits(planned(&limit, &stats()).est_rows()), 25.0);
    let agg = LogicalNode::Aggregate { input: scan("t"), keys: vec![0, 1], agg_col: 2 };
    assert_eq!(f64::from_bits(planned(&agg, &stats()).est_rows()), 500.0);
}

#[test]
fn optimize_pushes_filter_below_project() {
    let logical = LogicalNode::Filter {
        input: Box::new(LogicalNode::Project {
            input: Box::new(LogicalNode::Scan { table: "t".into() }),
            cols: vec![0, 1],
        }),
        col: 1,
        op: "=".into(),
        value: Value::Int(5),
    };
    let opt = optimize(logical);
    match opt {
        LogicalNode::Project { input, .. } => match *input {
            LogicalNode::Filter { .. } => {}
            _ => panic!("expected filter below project"),
        },
        _ => panic!("expected project on top"),
    }
}

#[test]
fn pretty_print_does_not_panic() {
    let logical = LogicalNode::Limit {
        input: Box::new(LogicalNode::Sort { input: scan("t"), keys: vec![(0, true)] }),
        n: 10,
    };
    assert_eq!(logical.pretty(&RealTexts::new()), "Limit(10)\n  Sort([(0, true)])\n    Scan(t)\n");
    let phys = planned(&logical, &stats());
    assert_eq!(
        physical_text(&phys),
        "Limit(10 ~10)\n  Sort(~10000)\n    Scan(\"\" Sequential ~10000 rows)\n"
    );
}

/// Note the estimates of a plan, without decimals.
fn note_rounded(p: &PhysicalNode, rounded: &mut RealTexts) {
    rounded.note(p.est_rows(), &format!("{:.0}", f64::from_bits(p.est_rows())));
    match p {
        PhysicalNode::Scan { .. } => {}
        PhysicalNode::Filter { input, .. }
        | PhysicalNode::Project { input, .. }
        | PhysicalNode::Aggregate { input, .. }
        | PhysicalNode::Sort { input, .. }
        | PhysicalNode::Limit { input, .. } => note_rounded(input, rounded),
        PhysicalNode::HashJoin { left, right, .. }
        | PhysicalNode::SortMergeJoin { left, right, .. }
        | PhysicalNode::NestedLoopJoin { left, right, .. } => {
            note_rounded(left, rounded);
            note_rounded(right, rounded);
        }
    }
}

fn physical_text(p: &PhysicalNode) -> String {
    let mut texts = RealTexts::new();
    texts.note(2.5f64.to_bits(), "2.5");
    let mut rounded = RealTexts::new();
    note_rounded(p, &mut rounded);
    p.pretty(&texts, &rounded)
}

fn physical_scan(path: ScanPath, est: f64) -> Box<PhysicalNode> {
    Box::new(PhysicalNode::Scan { table: "t".into(), path, est_rows: est.to_bits() })
}

#[test]
fn physical_pretty_prints_each_step() {
    let join = PhysicalNode::HashJoin {
        left: physical_scan(ScanPath::IndexEq { col: 1, value: Value::Int(5) }, 2.6),
        right: physical_scan(
            ScanPath::ZonePruned { col: 0, lo: Value::Null, hi: Value::Real(2.5f64.to_bits()) },
            3.0,
        ),
        est_rows: 7.4f64.to_bits(),
    };
    assert_eq!(
        physical_text(&join),
        "HashJoin(~7)\n  Scan(\"t\" IndexEq { col: 1, value: Int(5) } ~3 rows)\n  \
         Scan(\"t\" ZonePruned { col: 0, lo: Null, hi: Real(2.5) } ~3 rows)\n"
    );
    let above = PhysicalNode::Filter {
        input: Box::new(PhysicalNode::Project { input: Box::new(join), cols: vec![0, 2], est_rows: 4.0f64.to_bits() }),
        est_rows: 2.0f64.to_bits(),
    };
    assert!(physical_text(&above).starts_with("Filter(~2 rows)\n  Project([0, 2] ~4)\n    HashJoin(~7)\n      Scan("));
    let agg = PhysicalNode::Aggregate {
        input: Box::new(PhysicalNode::SortMergeJoin {
            left: physical_scan(ScanPath::Sequential, 1.0),
            right: physical_scan(ScanPath::Sequential, 1.0),
            est_rows: 1.0f64.to_bits(),
        }),
        est_rows: 1.0f64.to_bits(),
    };
    assert!(physical_text(&agg).starts_with("Aggregate(~1)\n  SortMergeJoin(~1)\n    Scan(\"t\" Sequential ~1 rows)\n"));
}

#[test]
fn physical_pretty_escapes_a_table_name() {
    let odd = PhysicalNode::Scan { table: "a\"b\n".into(), path: ScanPath::Sequential, est_rows: 1.0f64.to_bits() };
    assert_eq!(physical_text(&odd), "Scan(\"a\\\"b\\n\" Sequential ~1 rows)\n");
}

#[test]
fn pretty_prints_each_node() {
    let mut texts = RealTexts::new();
    texts.note(1.5f64.to_bits(), "1.5");
    let filter = LogicalNode::Filter {
        input: Box::new(LogicalNode::Project { input: scan("t"), cols: vec![0, 2] }),
        col: 1,
        op: "<".into(),
        value: Value::Real(1.5f64.to_bits()),
    };
    assert_eq!(filter.pretty(&texts), "Filter(col=1 < Real(1.5))\n  Project([0, 2])\n    Scan(t)\n");
    let values = LogicalNode::Values { rows: vec![vec![Value::Null]] };
    assert_eq!(values.pretty(&texts), "Values(1 rows)\n");
}

#[test]
fn optimize_pushes_limit_below_sort() {
    let logical = LogicalNode::Limit {
        input: Box::new(LogicalNode::Sort { input: scan("t"), keys: vec![(0, false)] }),
        n: 3,
    };
    match optimize(logical) {
        LogicalNode::Sort { input, .. } => assert!(matches!(*input, LogicalNode::Limit { n: 3, .. })),
        _ => panic!("expected sort on top"),
    }
}

#[test]
fn optimize_keeps_filter_above_reordering_project() {
    let logical = LogicalNode::Filter {
        input: Box::new(LogicalNode::Project { input: scan("t"), cols: vec![1, 0] }),
        col: 1,
        op: "=".into(),
        value: Value::Int(5),
    };
    assert!(matches!(optimize(logical), LogicalNode::Filter { .. }));
}
