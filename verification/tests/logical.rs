use schist::logical::{combine_conjuncts, fold_constants, split_conjuncts, LogicalPlan, Optimizer};
use schist::sql::{AggFunc, BinOp, Expr, JoinClause, JoinKind, SelectItem, SelectStmt};

fn col(name: &str) -> Box<Expr> {
    Box::new(Expr::Column(name.to_string()))
}

fn num(i: i64) -> Box<Expr> {
    Box::new(Expr::LitInt(i))
}

fn item(expr: Expr) -> SelectItem {
    SelectItem { expr, alias: None }
}

fn select(items: Vec<SelectItem>, table: &str) -> SelectStmt {
    SelectStmt {
        distinct: false,
        items,
        from: Some(table.to_string()),
        from_alias: None,
        joins: vec![],
        filter: None,
        group_by: vec![],
        having: None,
        order_by: vec![],
        limit: None,
        offset: None,
    }
}

#[test]
fn lowers_scan_filter_project() {
    // SELECT a FROM t WHERE a > 1
    let mut stmt = select(vec![item(*col("a"))], "t");
    stmt.filter = Some(Expr::Binary(BinOp::Gt, col("a"), num(1)));
    let plan = LogicalPlan::from_select(&stmt);
    assert_eq!(plan.op_name(), "Project");
    assert!(plan.explain().contains("Scan t"));
    assert!(plan.explain().contains("Filter"));
}

#[test]
fn lowers_aggregate() {
    // SELECT dept, COUNT(*) FROM emp GROUP BY dept
    let mut stmt = select(
        vec![item(*col("dept")), item(Expr::Aggregate(AggFunc::Count, Box::new(Expr::Star)))],
        "emp",
    );
    stmt.group_by = vec![*col("dept")];
    let plan = LogicalPlan::from_select(&stmt);
    assert_eq!(plan.op_name(), "Aggregate");
}

fn same_column(l: &str, r: &str, c: &str) -> Expr {
    Expr::Binary(
        BinOp::Eq,
        Box::new(Expr::Qualified(l.to_string(), c.to_string())),
        Box::new(Expr::Qualified(r.to_string(), c.to_string())),
    )
}

#[test]
fn lowers_join_chain() {
    // SELECT * FROM a JOIN b ON a.x = b.x JOIN c ON a.y = c.y
    let mut stmt = select(vec![item(Expr::Star)], "a");
    stmt.joins = vec![
        JoinClause { kind: JoinKind::Inner, table: "b".to_string(), alias: None, on: same_column("a", "b", "x") },
        JoinClause { kind: JoinKind::Inner, table: "c".to_string(), alias: None, on: same_column("a", "c", "y") },
    ];
    let plan = LogicalPlan::from_select(&stmt);
    // Two joins nested.
    assert!(plan.node_count() >= 5);
}

#[test]
fn constant_folding() {
    // 1 + 2 = 3
    let e = Expr::Binary(BinOp::Eq, Box::new(Expr::Binary(BinOp::Add, num(1), num(2))), num(3));
    let folded = fold_constants(&e);
    assert_eq!(folded, Expr::LitBool(true));
}

#[test]
fn split_and_combine_conjuncts() {
    // a = 1 AND b = 2 AND c = 3
    let e = Expr::Binary(
        BinOp::And,
        Box::new(Expr::Binary(
            BinOp::And,
            Box::new(Expr::Binary(BinOp::Eq, col("a"), num(1))),
            Box::new(Expr::Binary(BinOp::Eq, col("b"), num(2))),
        )),
        Box::new(Expr::Binary(BinOp::Eq, col("c"), num(3))),
    );
    let parts = split_conjuncts(&e);
    assert_eq!(parts.len(), 3);
    let recombined = combine_conjuncts(&parts).unwrap();
    assert_eq!(split_conjuncts(&recombined).len(), 3);
    assert_eq!(split_conjuncts(&recombined), parts);
}

#[test]
fn optimizer_drops_true_filter_and_collapses() {
    // Filter(true) should vanish; nested filters collapse.
    let plan = LogicalPlan::Filter {
        predicate: Expr::Binary(
            BinOp::And,
            Box::new(Expr::LitBool(true)),
            Box::new(Expr::LitBool(true)),
        ),
        input: Box::new(LogicalPlan::Scan {
            table: "t".into(),
            alias: None,
        }),
    };
    let opt = Optimizer::new().optimize(plan);
    assert_eq!(opt.op_name(), "Scan");
}

#[test]
fn optimizer_pushes_filter_below_projection() {
    let plan = LogicalPlan::Filter {
        predicate: Expr::Binary(
            BinOp::Gt,
            Box::new(Expr::Column("a".into())),
            Box::new(Expr::LitInt(1)),
        ),
        input: Box::new(LogicalPlan::Project {
            exprs: vec![(Expr::Column("a".into()), None)],
            input: Box::new(LogicalPlan::Scan {
                table: "t".into(),
                alias: None,
            }),
        }),
    };
    let opt = Optimizer::new().optimize(plan);
    // Project should now be on top, filter beneath.
    assert_eq!(opt.op_name(), "Project");
}

#[test]
fn optimizer_leaves_a_filter_above_a_join() {
    let scan = |t: &str| Box::new(LogicalPlan::Scan { table: t.into(), alias: None });
    let plan = LogicalPlan::Filter {
        predicate: Expr::Binary(BinOp::Gt, Box::new(Expr::Qualified("a".into(), "x".into())), num(1)),
        input: Box::new(LogicalPlan::Join {
            kind: JoinKind::Inner,
            left: scan("a"),
            right: scan("b"),
            on: same_column("a", "b", "x"),
        }),
    };
    let opt = Optimizer::new().optimize(plan);
    match opt {
        LogicalPlan::Filter { input, .. } => assert_eq!(input.op_name(), "Join"),
        _ => panic!("expected the filter on top"),
    }
}
