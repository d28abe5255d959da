//! Logical query plans and a rule-based optimizer.
//!
//! This module lowers a parsed `SELECT` into a tree of relational operators
//! ([`LogicalPlan`]) and then runs a small fixpoint optimizer over it. The rewrite
//! rules are the classic logical ones: constant folding in predicates, dropping
//! filters that hold always, collapsing adjacent filters, and pushing a filter
//! below a projection. None of this touches physical execution — it only reshapes
//! the logical tree the planner will later cost.
//!
//! The rules touch filters only ([`bare`] plans stay as they are): a filter stops
//! above a join, whole, and projections are neither joined nor pruned, since a plan
//! does not know which table a column comes from.
use vstd::prelude::*;

use crate::expr::NameTable;
use crate::exprvm;
use crate::numeric;
use crate::numeric::ArithOp;
use crate::sql;
use crate::sql::{BinOp, Expr, JoinKind, SelectStmt, UnaryOp};
use crate::text;
use crate::value;
use crate::value::Value;

verus! {

/// A node in the logical plan tree.
#[derive(Debug, PartialEq)]
pub enum LogicalPlan {
    /// A base table scan.
    Scan { table: String, alias: Option<String> },
    /// A selection (filter) with a boolean predicate.
    Filter { predicate: Expr, input: Box<LogicalPlan> },
    /// A projection of named expressions.
    Project { exprs: Vec<(Expr, Option<String>)>, input: Box<LogicalPlan> },
    /// A join of two inputs.
    Join { kind: JoinKind, on: Expr, left: Box<LogicalPlan>, right: Box<LogicalPlan> },
    /// A grouped aggregation.
    Aggregate { group_by: Vec<Expr>, aggregates: Vec<(Expr, Option<String>)>, input: Box<LogicalPlan> },
    /// A sort.
    Sort { keys: Vec<(Expr, bool)>, input: Box<LogicalPlan> },
    /// A limit/offset.
    Limit { limit: Option<i64>, offset: Option<i64>, input: Box<LogicalPlan> },
    /// A distinct.
    Distinct { input: Box<LogicalPlan> },
    /// An empty relation with no rows (used when there is no FROM).
    EmptyRelation,
}

/// An expression with the name that it is given.
pub type Named = (sql::Node, Option<Seq<char>>);

/// A plan with its names as characters.
pub enum Plan {
    Scan(Seq<char>, Option<Seq<char>>),
    Filter(sql::Node, Box<Plan>),
    Project(Seq<Named>, Box<Plan>),
    Join(JoinKind, sql::Node, Box<Plan>, Box<Plan>),
    Aggregate(Seq<sql::Node>, Seq<Named>, Box<Plan>),
    Sort(Seq<(sql::Node, bool)>, Box<Plan>),
    Limit(Option<i64>, Option<i64>, Box<Plan>),
    Distinct(Box<Plan>),
    EmptyRelation,
}

pub open spec fn named(v: Seq<(Expr, Option<String>)>) -> Seq<Named> {
    Seq::new(v.len(), |i: int| (sql::node(v[i].0), sql::name_view(v[i].1)))
}

pub open spec fn sort_keys(v: Seq<(Expr, bool)>) -> Seq<(sql::Node, bool)> {
    Seq::new(v.len(), |i: int| (sql::node(v[i].0), v[i].1))
}

pub open spec fn plan(p: LogicalPlan) -> Plan
    decreases p,
{
    match p {
        LogicalPlan::Scan { table, alias } => Plan::Scan(table@, sql::name_view(alias)),
        LogicalPlan::Filter { predicate, input } => Plan::Filter(sql::node(predicate), Box::new(plan(*input))),
        LogicalPlan::Project { exprs, input } => Plan::Project(named(exprs@), Box::new(plan(*input))),
        LogicalPlan::Join { kind, on, left, right } => Plan::Join(
            kind,
            sql::node(on),
            Box::new(plan(*left)),
            Box::new(plan(*right)),
        ),
        LogicalPlan::Aggregate { group_by, aggregates, input } => Plan::Aggregate(
            sql::nodes(group_by@),
            named(aggregates@),
            Box::new(plan(*input)),
        ),
        LogicalPlan::Sort { keys, input } => Plan::Sort(sort_keys(keys@), Box::new(plan(*input))),
        LogicalPlan::Limit { limit, offset, input } => Plan::Limit(limit, offset, Box::new(plan(*input))),
        LogicalPlan::Distinct { input } => Plan::Distinct(Box::new(plan(*input))),
        LogicalPlan::EmptyRelation => Plan::EmptyRelation,
    }
}

// Lowering

/// The expression that a part of a statement holds, where it has one.
pub open spec fn part(e: Option<Expr>) -> Option<sql::Node> {
    match e {
        Some(x) => Some(sql::node(x)),
        None => None,
    }
}

/// The tables of a statement: the first one, joined to the others in turn.
pub open spec fn joined(from: Plan, joins: Seq<sql::JoinClause>) -> Plan
    decreases joins.len(),
{
    if joins.len() == 0 {
        from
    } else {
        let j = joins.last();
        Plan::Join(
            j.kind,
            sql::node(j.on),
            Box::new(joined(from, joins.drop_last())),
            Box::new(Plan::Scan(j.table@, sql::name_view(j.alias))),
        )
    }
}

/// What a predicate, where there is one, makes of a plan.
pub open spec fn filtered(p: Plan, e: Option<sql::Node>) -> Plan {
    match e {
        Some(x) => Plan::Filter(x, Box::new(p)),
        None => p,
    }
}

/// The items of a select list.
pub open spec fn listed(items: Seq<sql::SelectItem>) -> Seq<Named> {
    Seq::new(items.len(), |i: int| (sql::node(items[i].expr), sql::name_view(items[i].alias)))
}

/// Whether a statement groups its rows.
pub open spec fn groups(stmt: SelectStmt) -> bool {
    stmt.group_by@.len() > 0 || exists|i: int|
        0 <= i < stmt.items@.len() && has_aggregate(sql::node((#[trigger] stmt.items@[i]).expr))
}

/// The keys of a statement's order.
pub open spec fn order_keys(o: Seq<sql::OrderItem>) -> Seq<(sql::Node, bool)> {
    Seq::new(o.len(), |i: int| (sql::node(o[i].expr), o[i].ascending))
}

/// The plan of a statement: tables, filter, grouping with its own filter or
/// projection, distinct, order, limit.
pub open spec fn lowered(stmt: SelectStmt) -> Plan {
    let from = match stmt.from {
        Some(t) => Plan::Scan(t@, sql::name_view(stmt.from_alias)),
        None => Plan::EmptyRelation,
    };
    let a = filtered(joined(from, stmt.joins@), part(stmt.filter));
    let b = if groups(stmt) {
        filtered(
            Plan::Aggregate(sql::nodes(stmt.group_by@), listed(stmt.items@), Box::new(a)),
            part(stmt.having),
        )
    } else {
        Plan::Project(listed(stmt.items@), Box::new(a))
    };
    let c = if stmt.distinct {
        Plan::Distinct(Box::new(b))
    } else {
        b
    };
    let d = if stmt.order_by@.len() > 0 {
        Plan::Sort(order_keys(stmt.order_by@), Box::new(c))
    } else {
        c
    };
    if stmt.limit is Some || stmt.offset is Some {
        Plan::Limit(stmt.limit, stmt.offset, Box::new(d))
    } else {
        d
    }
}

/// Whether an expression has an aggregate function in it.
pub open spec fn has_aggregate(e: sql::Node) -> bool
    decreases e,
{
    match e {
        sql::Node::Aggregate(_, _) => true,
        sql::Node::Unary(_, a) => has_aggregate(*a),
        sql::Node::IsNull(a, _) => has_aggregate(*a),
        sql::Node::Binary(_, a, b) => has_aggregate(*a) || has_aggregate(*b),
        sql::Node::Like(a, b) => has_aggregate(*a) || has_aggregate(*b),
        sql::Node::Between(a, b, c) => has_aggregate(*a) || has_aggregate(*b) || has_aggregate(*c),
        sql::Node::InList(a, l) => has_aggregate(*a) || any_aggregate(l),
        _ => false,
    }
}

pub open spec fn any_aggregate(l: Seq<sql::Node>) -> bool
    decreases l,
{
    l.len() > 0 && (any_aggregate(l.drop_last()) || has_aggregate(l.last()))
}

proof fn lemma_any_aggregate(l: Seq<sql::Node>, i: int)
    requires
        0 <= i < l.len(),
        has_aggregate(l[i]),
    ensures
        any_aggregate(l),
    decreases l.len(),
{
    if i < l.len() - 1 {
        lemma_any_aggregate(l.drop_last(), i);
    }
}

/// `true` if an expression tree contains an aggregate function.
pub fn contains_aggregate(expr: &Expr) -> (r: bool)
    ensures
        r == has_aggregate(sql::node(*expr)),
    decreases expr,
{
    match expr {
        Expr::Aggregate(_, _) => true,
        Expr::Unary(_, a) => contains_aggregate(a),
        Expr::IsNull(a, _) => contains_aggregate(a),
        Expr::Binary(_, a, b) => contains_aggregate(a) || contains_aggregate(b),
        Expr::Like(a, b) => contains_aggregate(a) || contains_aggregate(b),
        Expr::Between(a, b, c) => contains_aggregate(a) || contains_aggregate(b) || contains_aggregate(c),
        Expr::InList(a, list) => {
            if contains_aggregate(a) {
                return true;
            }
            let ghost l = sql::nodes(list@);
            proof {
                sql::lemma_nodes(list@);
            }
            let mut i: usize = 0;
            while i < list.len()
                invariant
                    i <= list.len(),
                    decreases_to!(expr => list@),
                    l == sql::nodes(list@),
                    l.len() == list@.len(),
                    forall|k: int| 0 <= k < list@.len() ==> #[trigger] l[k] == sql::node(list@[k]),
                    !any_aggregate(l.take(i as int)),
                    sql::node(*expr) == sql::Node::InList(Box::new(sql::node(**a)), l),
                decreases list.len() - i,
            {
                if contains_aggregate(&list[i]) {
                    proof {
                        lemma_any_aggregate(l, i as int);
                    }
                    return true;
                }
                proof {
                    assert(l.take(i + 1).drop_last() =~= l.take(i as int));
                    assert(l.take(i + 1).last() == l[i as int]);
                }
                i += 1;
            }
            assert(l.take(l.len() as int) =~= l);
            false
        },
        _ => false,
    }
}

fn copy_items(items: &Vec<sql::SelectItem>) -> (v: Vec<(Expr, Option<String>)>)
    ensures
        named(v@) == listed(items@),
{
    let mut v: Vec<(Expr, Option<String>)> = Vec::new();
    let mut i: usize = 0;
    while i < items.len()
        invariant
            i <= items.len(),
            named(v@) == listed(items@).take(i as int),
        decreases items.len() - i,
    {
        let ghost was = v@;
        let e = sql::copy(&items[i].expr);
        let n = sql::copy_name(&items[i].alias);
        v.push((e, n));
        assert(named(v@) =~= named(was).push(listed(items@)[i as int]));
        assert(listed(items@).take(i + 1) =~= listed(items@).take(i as int).push(listed(items@)[i as int]));
        i += 1;
    }
    assert(listed(items@).take(items@.len() as int) =~= listed(items@));
    v
}

fn copy_named(l: &Vec<(Expr, Option<String>)>) -> (v: Vec<(Expr, Option<String>)>)
    ensures
        named(v@) == named(l@),
{
    let mut v: Vec<(Expr, Option<String>)> = Vec::new();
    let mut i: usize = 0;
    while i < l.len()
        invariant
            i <= l.len(),
            named(v@) == named(l@).take(i as int),
        decreases l.len() - i,
    {
        let ghost was = v@;
        let e = sql::copy(&l[i].0);
        let n = sql::copy_name(&l[i].1);
        v.push((e, n));
        assert(named(v@) =~= named(was).push(named(l@)[i as int]));
        assert(named(l@).take(i + 1) =~= named(l@).take(i as int).push(named(l@)[i as int]));
        i += 1;
    }
    assert(named(l@).take(l@.len() as int) =~= named(l@));
    v
}

fn copy_keys(l: &Vec<(Expr, bool)>) -> (v: Vec<(Expr, bool)>)
    ensures
        sort_keys(v@) == sort_keys(l@),
{
    let mut v: Vec<(Expr, bool)> = Vec::new();
    let mut i: usize = 0;
    while i < l.len()
        invariant
            i <= l.len(),
            sort_keys(v@) == sort_keys(l@).take(i as int),
        decreases l.len() - i,
    {
        let ghost was = v@;
        let e = sql::copy(&l[i].0);
        v.push((e, l[i].1));
        assert(sort_keys(v@) =~= sort_keys(was).push(sort_keys(l@)[i as int]));
        assert(sort_keys(l@).take(i + 1) =~= sort_keys(l@).take(i as int).push(sort_keys(l@)[i as int]));
        i += 1;
    }
    assert(sort_keys(l@).take(l@.len() as int) =~= sort_keys(l@));
    v
}

fn copy_order(o: &Vec<sql::OrderItem>) -> (v: Vec<(Expr, bool)>)
    ensures
        sort_keys(v@) == order_keys(o@),
{
    let mut v: Vec<(Expr, bool)> = Vec::new();
    let mut i: usize = 0;
    while i < o.len()
        invariant
            i <= o.len(),
            sort_keys(v@) == order_keys(o@).take(i as int),
        decreases o.len() - i,
    {
        let ghost was = v@;
        let e = sql::copy(&o[i].expr);
        v.push((e, o[i].ascending));
        assert(sort_keys(v@) =~= sort_keys(was).push(order_keys(o@)[i as int]));
        assert(order_keys(o@).take(i + 1) =~= order_keys(o@).take(i as int).push(order_keys(o@)[i as int]));
        i += 1;
    }
    assert(order_keys(o@).take(o@.len() as int) =~= order_keys(o@));
    v
}

/// Put a filter over a plan, where there is one.
fn put_filter(p: LogicalPlan, e: &Option<Expr>) -> (r: LogicalPlan)
    ensures
        plan(r) == filtered(plan(p), part(*e)),
{
    match e {
        Some(x) => LogicalPlan::Filter { predicate: sql::copy(x), input: Box::new(p) },
        None => p,
    }
}

fn any_item(items: &Vec<sql::SelectItem>) -> (r: bool)
    ensures
        r == exists|i: int| 0 <= i < items@.len() && has_aggregate(sql::node((#[trigger] items@[i]).expr)),
{
    let mut i: usize = 0;
    while i < items.len()
        invariant
            i <= items.len(),
            forall|k: int| 0 <= k < i ==> !has_aggregate(sql::node((#[trigger] items@[k]).expr)),
        decreases items.len() - i,
    {
        if contains_aggregate(&items[i].expr) {
            return true;
        }
        i += 1;
    }
    false
}

// Trees

/// The plans directly below a plan.
pub open spec fn below(p: Plan) -> Seq<Plan> {
    match p {
        Plan::Scan(_, _) => Seq::empty(),
        Plan::EmptyRelation => Seq::empty(),
        Plan::Filter(_, i) => seq![*i],
        Plan::Project(_, i) => seq![*i],
        Plan::Aggregate(_, _, i) => seq![*i],
        Plan::Sort(_, i) => seq![*i],
        Plan::Limit(_, _, i) => seq![*i],
        Plan::Distinct(i) => seq![*i],
        Plan::Join(_, _, l, r) => seq![*l, *r],
    }
}

/// The number of nodes in a tree.
pub open spec fn count(p: Plan) -> nat
    decreases p,
{
    match p {
        Plan::Scan(_, _) => 1,
        Plan::EmptyRelation => 1,
        Plan::Filter(_, i) => 1 + count(*i),
        Plan::Project(_, i) => 1 + count(*i),
        Plan::Aggregate(_, _, i) => 1 + count(*i),
        Plan::Sort(_, i) => 1 + count(*i),
        Plan::Limit(_, _, i) => 1 + count(*i),
        Plan::Distinct(i) => 1 + count(*i),
        Plan::Join(_, _, l, r) => 1 + count(*l) + count(*r),
    }
}

/// An operator's name.
pub open spec fn name_of(p: Plan) -> Seq<char> {
    match p {
        Plan::Scan(_, _) => "Scan"@,
        Plan::Filter(_, _) => "Filter"@,
        Plan::Project(_, _) => "Project"@,
        Plan::Join(_, _, _, _) => "Join"@,
        Plan::Aggregate(_, _, _) => "Aggregate"@,
        Plan::Sort(_, _) => "Sort"@,
        Plan::Limit(_, _, _) => "Limit"@,
        Plan::Distinct(_) => "Distinct"@,
        Plan::EmptyRelation => "EmptyRelation"@,
    }
}

/// A bound, or that there is none.
pub open spec fn bound_text(b: Option<i64>) -> Seq<char> {
    match b {
        Some(n) => "Some("@ + text::int_text(n as int) + ")"@,
        None => "None"@,
    }
}

/// What follows an operator's name.
pub open spec fn details(p: Plan) -> Seq<char> {
    match p {
        Plan::Scan(t, a) => " "@ + t + (match a {
            Some(n) => " AS "@ + n,
            None => Seq::empty(),
        }),
        Plan::Limit(l, o, _) => " limit="@ + bound_text(l) + " offset="@ + bound_text(o),
        _ => Seq::empty(),
    }
}

/// Two spaces for each level.
pub open spec fn indent(depth: nat) -> Seq<char>
    decreases depth,
{
    if depth == 0 {
        Seq::empty()
    } else {
        indent((depth - 1) as nat) + "  "@
    }
}

/// The line of a node.
pub open spec fn line_of(p: Plan, depth: nat) -> Seq<char> {
    indent(depth) + name_of(p) + details(p) + "\n"@
}

/// A plan as an indented tree: a line for the node, then its children.
pub open spec fn outline(p: Plan, depth: nat) -> Seq<char>
    decreases p,
{
    let line = line_of(p, depth);
    match p {
        Plan::Scan(_, _) => line,
        Plan::EmptyRelation => line,
        Plan::Filter(_, i) => line + outline(*i, depth + 1),
        Plan::Project(_, i) => line + outline(*i, depth + 1),
        Plan::Aggregate(_, _, i) => line + outline(*i, depth + 1),
        Plan::Sort(_, i) => line + outline(*i, depth + 1),
        Plan::Limit(_, _, i) => line + outline(*i, depth + 1),
        Plan::Distinct(i) => line + outline(*i, depth + 1),
        Plan::Join(_, _, l, r) => line + outline(*l, depth + 1) + outline(*r, depth + 1),
    }
}

fn put_int(s: &mut String, n: i64)
    ensures
        final(s)@ == old(s)@ + text::int_text(n as int),
{
    let t = numeric::int_string(n);
    s.append(t.as_str());
}

fn put_bound(s: &mut String, b: Option<i64>)
    ensures
        final(s)@ == old(s)@ + bound_text(b),
{
    let ghost was = s@;
    match b {
        Some(n) => {
            s.append("Some(");
            put_int(s, n);
            s.append(")");
        },
        None => s.append("None"),
    }
    assert(s@ =~= was + bound_text(b));
}

impl LogicalPlan {
    /// Lower a parsed `SELECT` into an unoptimized logical plan.
    pub fn from_select(stmt: &SelectStmt) -> (r: LogicalPlan)
        ensures
            plan(r) == lowered(*stmt),
    {
        let mut p = match &stmt.from {
            Some(table) => LogicalPlan::Scan {
                table: sql::copy_text(table),
                alias: sql::copy_name(&stmt.from_alias),
            },
            None => LogicalPlan::EmptyRelation,
        };
        let ghost from = plan(p);
        let mut i: usize = 0;
        while i < stmt.joins.len()
            invariant
                i <= stmt.joins.len(),
                plan(p) == joined(from, stmt.joins@.take(i as int)),
            decreases stmt.joins.len() - i,
        {
            proof {
                assert(stmt.joins@.take(i + 1).drop_last() =~= stmt.joins@.take(i as int));
                assert(stmt.joins@.take(i + 1).last() == stmt.joins@[i as int]);
            }
            let join = &stmt.joins[i];
            let scan = LogicalPlan::Scan { table: sql::copy_text(&join.table), alias: sql::copy_name(&join.alias) };
            assert(plan(scan) == Plan::Scan(join.table@, sql::name_view(join.alias)));
            p = LogicalPlan::Join { kind: join.kind, on: sql::copy(&join.on), left: Box::new(p), right: Box::new(scan) };
            i += 1;
        }
        assert(stmt.joins@.take(stmt.joins@.len() as int) =~= stmt.joins@);
        p = put_filter(p, &stmt.filter);
        let ghost a = plan(p);
        if stmt.group_by.len() > 0 || any_item(&stmt.items) {
            let g = LogicalPlan::Aggregate {
                group_by: sql::copy_all(&stmt.group_by),
                aggregates: copy_items(&stmt.items),
                input: Box::new(p),
            };
            assert(plan(g) == Plan::Aggregate(sql::nodes(stmt.group_by@), listed(stmt.items@), Box::new(a)));
            p = put_filter(g, &stmt.having);
        } else {
            p = LogicalPlan::Project { exprs: copy_items(&stmt.items), input: Box::new(p) };
            assert(plan(p) == Plan::Project(listed(stmt.items@), Box::new(a)));
        }
        let ghost b = plan(p);
        if stmt.distinct {
            p = LogicalPlan::Distinct { input: Box::new(p) };
            assert(plan(p) == Plan::Distinct(Box::new(b)));
        }
        let ghost c = plan(p);
        if stmt.order_by.len() > 0 {
            p = LogicalPlan::Sort { keys: copy_order(&stmt.order_by), input: Box::new(p) };
            assert(plan(p) == Plan::Sort(order_keys(stmt.order_by@), Box::new(c)));
        }
        let ghost d = plan(p);
        if stmt.limit.is_some() || stmt.offset.is_some() {
            p = LogicalPlan::Limit { limit: stmt.limit, offset: stmt.offset, input: Box::new(p) };
            assert(plan(p) == Plan::Limit(stmt.limit, stmt.offset, Box::new(d)));
        }
        p
    }

    /// The direct children of this node.
    pub fn children(&self) -> (r: Vec<&LogicalPlan>)
        ensures
            Seq::new(r@.len(), |i: int| plan(*r@[i])) == below(plan(*self)),
    {
        let mut v: Vec<&LogicalPlan> = Vec::new();
        match self {
            LogicalPlan::Scan { .. } => {},
            LogicalPlan::EmptyRelation => {},
            LogicalPlan::Filter { predicate: _, input } => v.push(input),
            LogicalPlan::Project { exprs: _, input } => v.push(input),
            LogicalPlan::Aggregate { group_by: _, aggregates: _, input } => v.push(input),
            LogicalPlan::Sort { keys: _, input } => v.push(input),
            LogicalPlan::Limit { limit: _, offset: _, input } => v.push(input),
            LogicalPlan::Distinct { input } => v.push(input),
            LogicalPlan::Join { kind: _, on: _, left, right } => {
                v.push(left);
                v.push(right);
            },
        }
        assert(Seq::new(v@.len(), |i: int| plan(*v@[i])) =~= below(plan(*self)));
        v
    }

    /// The number of nodes in the tree, which the machine can count.
    pub fn node_count(&self) -> (r: usize)
        requires
            count(plan(*self)) <= usize::MAX,
        ensures
            r == count(plan(*self)),
        decreases self,
    {
        match self {
            LogicalPlan::Scan { .. } => 1,
            LogicalPlan::EmptyRelation => 1,
            LogicalPlan::Filter { predicate: _, input } => 1 + input.node_count(),
            LogicalPlan::Project { exprs: _, input } => 1 + input.node_count(),
            LogicalPlan::Aggregate { group_by: _, aggregates: _, input } => 1 + input.node_count(),
            LogicalPlan::Sort { keys: _, input } => 1 + input.node_count(),
            LogicalPlan::Limit { limit: _, offset: _, input } => 1 + input.node_count(),
            LogicalPlan::Distinct { input } => 1 + input.node_count(),
            LogicalPlan::Join { kind: _, on: _, left, right } => 1 + left.node_count() + right.node_count(),
        }
    }

    /// A one-line operator name.
    pub fn op_name(&self) -> (r: &'static str)
        ensures
            r@ == name_of(plan(*self)),
    {
        match self {
            LogicalPlan::Scan { .. } => "Scan",
            LogicalPlan::Filter { .. } => "Filter",
            LogicalPlan::Project { .. } => "Project",
            LogicalPlan::Join { .. } => "Join",
            LogicalPlan::Aggregate { .. } => "Aggregate",
            LogicalPlan::Sort { .. } => "Sort",
            LogicalPlan::Limit { .. } => "Limit",
            LogicalPlan::Distinct { .. } => "Distinct",
            LogicalPlan::EmptyRelation => "EmptyRelation",
        }
    }

    /// Render the plan as an indented tree, whose depth the machine can count.
    pub fn explain(&self) -> (r: String)
        requires
            count(plan(*self)) <= usize::MAX,
        ensures
            r@ == outline(plan(*self), 0),
    {
        let mut out = String::new();
        self.explain_into(&mut out, 0);
        assert(out@ =~= outline(plan(*self), 0));
        out
    }

    /// The line of this node alone.
    fn explain_line(&self, out: &mut String, depth: usize)
        ensures
            final(out)@ == old(out)@ + line_of(plan(*self), depth as nat),
    {
        let ghost was = out@;
        let ghost p = plan(*self);
        let mut d: usize = 0;
        assert(was + indent(0) =~= was);
        while d < depth
            invariant
                d <= depth,
                out@ == was + indent(d as nat),
            decreases depth - d,
        {
            out.append("  ");
            assert(out@ =~= was + indent((d + 1) as nat));
            d += 1;
        }
        out.append(self.op_name());
        let ghost mid = out@;
        match self {
            LogicalPlan::Scan { table, alias } => {
                out.append(" ");
                out.append(table.as_str());
                if let Some(a) = alias {
                    out.append(" AS ");
                    out.append(a.as_str());
                }
            },
            LogicalPlan::Limit { limit, offset, input: _ } => {
                out.append(" limit=");
                put_bound(out, *limit);
                out.append(" offset=");
                put_bound(out, *offset);
            },
            _ => {},
        }
        assert(out@ =~= mid + details(p));
        out.append("\n");
        assert(out@ =~= was + line_of(p, depth as nat));
    }

    #[verifier::rlimit(40)]
    fn explain_into(&self, out: &mut String, depth: usize)
        requires
            depth + count(plan(*self)) <= usize::MAX,
        ensures
            final(out)@ == old(out)@ + outline(plan(*self), depth as nat),
        decreases self,
    {
        let ghost was = out@;
        let ghost p = plan(*self);
        self.explain_line(out, depth);
        match self {
            LogicalPlan::Scan { .. } => {},
            LogicalPlan::EmptyRelation => {},
            LogicalPlan::Filter { predicate: _, input } => input.explain_into(out, depth + 1),
            LogicalPlan::Project { exprs: _, input } => input.explain_into(out, depth + 1),
            LogicalPlan::Aggregate { group_by: _, aggregates: _, input } => input.explain_into(out, depth + 1),
            LogicalPlan::Sort { keys: _, input } => input.explain_into(out, depth + 1),
            LogicalPlan::Limit { limit: _, offset: _, input } => input.explain_into(out, depth + 1),
            LogicalPlan::Distinct { input } => input.explain_into(out, depth + 1),
            LogicalPlan::Join { kind: _, on: _, left, right } => {
                left.explain_into(out, depth + 1);
                right.explain_into(out, depth + 1);
            },
        }
        assert(out@ =~= was + outline(p, depth as nat));
    }
}

// Folding

/// The value of an operator on two integer literals, where it has one.
pub open spec fn int_folded(op: BinOp, x: i64, y: i64) -> Option<sql::Node> {
    match exprvm::arith_op(op) {
        Some(f) => if (f == ArithOp::Div || f == ArithOp::Mod) && y == 0 {
            None
        } else {
            Some(sql::Node::LitInt(numeric::int_result(f, x, y)))
        },
        None => match op {
            BinOp::Eq => Some(sql::Node::LitBool(x == y)),
            BinOp::NotEq => Some(sql::Node::LitBool(x != y)),
            BinOp::Lt => Some(sql::Node::LitBool(x < y)),
            BinOp::LtEq => Some(sql::Node::LitBool(x <= y)),
            BinOp::Gt => Some(sql::Node::LitBool(x > y)),
            BinOp::GtEq => Some(sql::Node::LitBool(x >= y)),
            _ => None,
        },
    }
}

/// An operator on two folded operands.
pub open spec fn pair_folded(op: BinOp, a: sql::Node, b: sql::Node) -> sql::Node {
    let kept = sql::Node::Binary(op, Box::new(a), Box::new(b));
    match (a, b) {
        (sql::Node::LitInt(x), sql::Node::LitInt(y)) => match int_folded(op, x, y) {
            Some(v) => v,
            None => kept,
        },
        _ => match op {
            BinOp::And => if a == sql::Node::LitBool(false) || b == sql::Node::LitBool(false) {
                sql::Node::LitBool(false)
            } else if a == sql::Node::LitBool(true) {
                b
            } else if b == sql::Node::LitBool(true) {
                a
            } else {
                kept
            },
            BinOp::Or => if a == sql::Node::LitBool(true) || b == sql::Node::LitBool(true) {
                sql::Node::LitBool(true)
            } else if a == sql::Node::LitBool(false) && b == sql::Node::LitBool(false) {
                sql::Node::LitBool(false)
            } else {
                kept
            },
            _ => kept,
        },
    }
}

/// An expression with its constant parts folded: below negations, nots and binary
/// operators.
pub open spec fn folded(e: sql::Node) -> sql::Node
    decreases e,
{
    match e {
        sql::Node::Unary(UnaryOp::Neg, a) => match folded(*a) {
            sql::Node::LitInt(i) => sql::Node::LitInt(numeric::int_negated(i)),
            sql::Node::LitReal(b) => sql::Node::LitReal(numeric::real_negated(b)),
            x => sql::Node::Unary(UnaryOp::Neg, Box::new(x)),
        },
        sql::Node::Unary(UnaryOp::Not, a) => match folded(*a) {
            sql::Node::LitBool(b) => sql::Node::LitBool(!b),
            x => sql::Node::Unary(UnaryOp::Not, Box::new(x)),
        },
        sql::Node::Binary(op, a, b) => pair_folded(op, folded(*a), folded(*b)),
        _ => e,
    }
}

fn fold_int(op: BinOp, x: i64, y: i64) -> (r: Option<Expr>)
    ensures
        part(r) == int_folded(op, x, y),
{
    match op {
        BinOp::Add => Some(Expr::LitInt(numeric::int_arith(ArithOp::Add, x, y))),
        BinOp::Sub => Some(Expr::LitInt(numeric::int_arith(ArithOp::Sub, x, y))),
        BinOp::Mul => Some(Expr::LitInt(numeric::int_arith(ArithOp::Mul, x, y))),
        BinOp::Div => if y == 0 {
            None
        } else {
            Some(Expr::LitInt(numeric::int_arith(ArithOp::Div, x, y)))
        },
        BinOp::Mod => if y == 0 {
            None
        } else {
            Some(Expr::LitInt(numeric::int_arith(ArithOp::Mod, x, y)))
        },
        BinOp::Eq => Some(Expr::LitBool(x == y)),
        BinOp::NotEq => Some(Expr::LitBool(x != y)),
        BinOp::Lt => Some(Expr::LitBool(x < y)),
        BinOp::LtEq => Some(Expr::LitBool(x <= y)),
        BinOp::Gt => Some(Expr::LitBool(x > y)),
        BinOp::GtEq => Some(Expr::LitBool(x >= y)),
        _ => None,
    }
}

fn is_bool(e: &Expr, b: bool) -> (r: bool)
    ensures
        r == (sql::node(*e) == sql::Node::LitBool(b)),
{
    match e {
        Expr::LitBool(x) => *x == b,
        _ => false,
    }
}

fn fold_pair(op: BinOp, a: Expr, b: Expr) -> (r: Expr)
    ensures
        sql::node(r) == pair_folded(op, sql::node(a), sql::node(b)),
{
    if let (Expr::LitInt(x), Expr::LitInt(y)) = (&a, &b) {
        if let Some(v) = fold_int(op, *x, *y) {
            return v;
        }
        return Expr::Binary(op, Box::new(a), Box::new(b));
    }
    if matches!(op, BinOp::And) {
        if is_bool(&a, false) || is_bool(&b, false) {
            return Expr::LitBool(false);
        }
        if is_bool(&a, true) {
            return b;
        }
        if is_bool(&b, true) {
            return a;
        }
    } else if matches!(op, BinOp::Or) {
        if is_bool(&a, true) || is_bool(&b, true) {
            return Expr::LitBool(true);
        }
        if is_bool(&a, false) && is_bool(&b, false) {
            return Expr::LitBool(false);
        }
    }
    Expr::Binary(op, Box::new(a), Box::new(b))
}

/// Fold constant sub-expressions where possible.
pub fn fold_constants(expr: &Expr) -> (r: Expr)
    ensures
        sql::node(r) == folded(sql::node(*expr)),
    decreases expr,
{
    match expr {
        Expr::Unary(UnaryOp::Neg, e) => {
            let x = fold_constants(e);
            match x {
                Expr::LitInt(i) => Expr::LitInt(numeric::int_neg(i)),
                Expr::LitReal(b) => Expr::LitReal(numeric::real_neg(b)),
                other => Expr::Unary(UnaryOp::Neg, Box::new(other)),
            }
        },
        Expr::Unary(UnaryOp::Not, e) => {
            let x = fold_constants(e);
            match x {
                Expr::LitBool(b) => Expr::LitBool(!b),
                other => Expr::Unary(UnaryOp::Not, Box::new(other)),
            }
        },
        Expr::Binary(op, a, b) => {
            let x = fold_constants(a);
            let y = fold_constants(b);
            fold_pair(*op, x, y)
        },
        _ => sql::copy(expr),
    }
}

// Conjuncts

/// The top-level `AND` conjuncts of a predicate.
pub open spec fn conjuncts(e: sql::Node) -> Seq<sql::Node>
    decreases e,
{
    match e {
        sql::Node::Binary(BinOp::And, a, b) => conjuncts(*a) + conjuncts(*b),
        _ => seq![e],
    }
}

/// One `AND` chain of predicates.
pub open spec fn chained(s: Seq<sql::Node>) -> sql::Node
    decreases s.len(),
{
    if s.len() <= 1 {
        s[0]
    } else {
        sql::Node::Binary(BinOp::And, Box::new(chained(s.drop_last())), Box::new(s.last()))
    }
}

/// Split a predicate into its top-level `AND` conjuncts.
pub fn split_conjuncts(expr: &Expr) -> (out: Vec<Expr>)
    ensures
        sql::nodes(out@) == conjuncts(sql::node(*expr)),
{
    let mut out: Vec<Expr> = Vec::new();
    assert(sql::nodes(out@) =~= Seq::empty());
    split_into(expr, &mut out);
    assert(sql::nodes(out@) =~= conjuncts(sql::node(*expr)));
    out
}

fn split_into(expr: &Expr, out: &mut Vec<Expr>)
    ensures
        sql::nodes(final(out)@) == sql::nodes(old(out)@) + conjuncts(sql::node(*expr)),
    decreases expr,
{
    let ghost was = out@;
    if let Expr::Binary(BinOp::And, a, b) = expr {
        split_into(a, out);
        split_into(b, out);
        proof {
            let x = conjuncts(sql::node(**a));
            let y = conjuncts(sql::node(**b));
            assert(sql::nodes(was) + x + y =~= sql::nodes(was) + (x + y));
        }
    } else {
        out.push(sql::copy(expr));
        assert(out@.drop_last() =~= was);
    }
}

/// Combine conjuncts back into a single `AND` chain.
pub fn combine_conjuncts(conjuncts: &[Expr]) -> (r: Option<Expr>)
    ensures
        conjuncts@.len() == 0 ==> r is None,
        conjuncts@.len() > 0 ==> r is Some && sql::node(r.unwrap()) == chained(sql::nodes(conjuncts@)),
{
    if conjuncts.len() == 0 {
        return None;
    }
    let ghost s = sql::nodes(conjuncts@);
    proof {
        sql::lemma_nodes(conjuncts@);
    }
    let mut acc = sql::copy(&conjuncts[0]);
    let mut i: usize = 1;
    while i < conjuncts.len()
        invariant
            1 <= i <= conjuncts@.len(),
            s == sql::nodes(conjuncts@),
            s.len() == conjuncts@.len(),
            forall|k: int| 0 <= k < conjuncts@.len() ==> #[trigger] s[k] == sql::node(conjuncts@[k]),
            sql::node(acc) == chained(s.take(i as int)),
        decreases conjuncts@.len() - i,
    {
        proof {
            assert(s.take(i + 1).drop_last() =~= s.take(i as int));
            assert(s.take(i + 1).last() == s[i as int]);
        }
        acc = Expr::Binary(BinOp::And, Box::new(acc), Box::new(sql::copy(&conjuncts[i])));
        i += 1;
    }
    assert(s.take(s.len() as int) =~= s);
    Some(acc)
}

/// Whether an expression is an `AND`.
pub open spec fn is_and(e: sql::Node) -> bool {
    e matches sql::Node::Binary(BinOp::And, _, _)
}

/// A predicate has a conjunct, and none of its conjuncts is an `AND` itself.
pub proof fn lemma_conjuncts_plain(e: sql::Node)
    ensures
        conjuncts(e).len() > 0,
        forall|i: int| 0 <= i < conjuncts(e).len() ==> !is_and(#[trigger] conjuncts(e)[i]),
    decreases e,
{
    if let sql::Node::Binary(BinOp::And, a, b) = e {
        lemma_conjuncts_plain(*a);
        lemma_conjuncts_plain(*b);
    }
}

/// A chain of predicates that are no `AND`s splits into just these predicates; so
/// splitting what was combined after a split gives the same conjuncts.
pub proof fn lemma_split_combined(s: Seq<sql::Node>)
    requires
        s.len() > 0,
        forall|i: int| 0 <= i < s.len() ==> !is_and(#[trigger] s[i]),
    ensures
        conjuncts(chained(s)) == s,
    decreases s.len(),
{
    if s.len() == 1 {
        assert(s =~= seq![s[0]]);
    } else {
        let d = s.drop_last();
        assert forall|i: int| 0 <= i < d.len() implies !is_and(#[trigger] d[i]) by {
            assert(d[i] == s[i]);
        }
        lemma_split_combined(d);
        assert(!is_and(s[s.len() - 1]));
        assert(conjuncts(s.last()) =~= seq![s.last()]);
        assert(d + seq![s.last()] =~= s);
    }
}

// Rewriting

/// What becomes of a filter over a rewritten input: a predicate that holds always
/// goes, two filters become one, and a filter goes below a projection.
pub open spec fn filter_rule(predicate: sql::Node, input: Plan) -> Plan {
    let q = folded(predicate);
    if q == sql::Node::LitBool(true) {
        input
    } else {
        match input {
            Plan::Filter(inner, x) => Plan::Filter(
                folded(sql::Node::Binary(BinOp::And, Box::new(q), Box::new(inner))),
                x,
            ),
            Plan::Project(exprs, x) => Plan::Project(exprs, Box::new(Plan::Filter(q, x))),
            _ => Plan::Filter(q, Box::new(input)),
        }
    }
}

/// A plan after one pass of the rules, from the leaves up.
pub open spec fn rewritten(p: Plan) -> Plan
    decreases p,
{
    match p {
        Plan::Filter(e, i) => filter_rule(e, rewritten(*i)),
        Plan::Project(e, i) => Plan::Project(e, Box::new(rewritten(*i))),
        Plan::Aggregate(g, a, i) => Plan::Aggregate(g, a, Box::new(rewritten(*i))),
        Plan::Sort(k, i) => Plan::Sort(k, Box::new(rewritten(*i))),
        Plan::Limit(l, o, i) => Plan::Limit(l, o, Box::new(rewritten(*i))),
        Plan::Distinct(i) => Plan::Distinct(Box::new(rewritten(*i))),
        Plan::Join(k, on, l, r) => Plan::Join(k, on, Box::new(rewritten(*l)), Box::new(rewritten(*r))),
        _ => p,
    }
}

/// A plan after at most `n` passes; a pass that changes nothing is the last.
pub open spec fn optimized(p: Plan, n: nat) -> Plan
    decreases n,
{
    if n == 0 || rewritten(p) == p {
        p
    } else {
        optimized(rewritten(p), (n - 1) as nat)
    }
}

/// A plan without its filters.
pub open spec fn bare(p: Plan) -> Plan
    decreases p,
{
    match p {
        Plan::Filter(e, i) => bare(*i),
        Plan::Project(e, i) => Plan::Project(e, Box::new(bare(*i))),
        Plan::Aggregate(g, a, i) => Plan::Aggregate(g, a, Box::new(bare(*i))),
        Plan::Sort(k, i) => Plan::Sort(k, Box::new(bare(*i))),
        Plan::Limit(l, o, i) => Plan::Limit(l, o, Box::new(bare(*i))),
        Plan::Distinct(i) => Plan::Distinct(Box::new(bare(*i))),
        Plan::Join(k, on, l, r) => Plan::Join(k, on, Box::new(bare(*l)), Box::new(bare(*r))),
        _ => p,
    }
}

/// A pass changes filters only: no other node is added, dropped, moved or changed.
pub proof fn lemma_rewritten_bare(p: Plan)
    ensures
        bare(rewritten(p)) == bare(p),
    decreases p,
{
    reveal_with_fuel(bare, 3);
    match p {
        Plan::Filter(_, i) => lemma_rewritten_bare(*i),
        Plan::Project(_, i) => lemma_rewritten_bare(*i),
        Plan::Aggregate(_, _, i) => lemma_rewritten_bare(*i),
        Plan::Sort(_, i) => lemma_rewritten_bare(*i),
        Plan::Limit(_, _, i) => lemma_rewritten_bare(*i),
        Plan::Distinct(i) => lemma_rewritten_bare(*i),
        Plan::Join(_, _, l, r) => {
            lemma_rewritten_bare(*l);
            lemma_rewritten_bare(*r);
        },
        _ => {},
    }
}

/// An optimized plan is the plan it came from but for filters.
pub proof fn lemma_optimized_bare(p: Plan, n: nat)
    ensures
        bare(optimized(p, n)) == bare(p),
    decreases n,
{
    if n > 0 && rewritten(p) != p {
        lemma_rewritten_bare(p);
        lemma_optimized_bare(rewritten(p), (n - 1) as nat);
    }
}

/// A filter stays above a join, with all its conjuncts, unless it holds always.
pub proof fn lemma_filter_over_join(predicate: sql::Node, input: Plan)
    requires
        input is Join,
    ensures
        filter_rule(predicate, input) == if folded(predicate) == sql::Node::LitBool(true) {
            input
        } else {
            Plan::Filter(folded(predicate), Box::new(input))
        },
{
}

/// No pass adds a node.
pub proof fn lemma_rewritten_count(p: Plan)
    ensures
        count(rewritten(p)) <= count(p),
    decreases p,
{
    reveal_with_fuel(count, 3);
    match p {
        Plan::Filter(_, i) => lemma_rewritten_count(*i),
        Plan::Project(_, i) => lemma_rewritten_count(*i),
        Plan::Aggregate(_, _, i) => lemma_rewritten_count(*i),
        Plan::Sort(_, i) => lemma_rewritten_count(*i),
        Plan::Limit(_, _, i) => lemma_rewritten_count(*i),
        Plan::Distinct(i) => lemma_rewritten_count(*i),
        Plan::Join(_, _, l, r) => {
            lemma_rewritten_count(*l);
            lemma_rewritten_count(*r);
        },
        _ => {},
    }
}

/// An optimized plan has no more nodes than the plan it came from.
pub proof fn lemma_optimized(p: Plan, n: nat)
    ensures
        count(optimized(p, n)) <= count(p),
    decreases n,
{
    if n > 0 && rewritten(p) != p {
        lemma_rewritten_count(p);
        lemma_optimized(rewritten(p), (n - 1) as nat);
    }
}

fn same_name(a: &Option<String>, b: &Option<String>) -> (r: bool)
    ensures
        r == (sql::name_view(*a) == sql::name_view(*b)),
{
    match (a, b) {
        (Some(x), Some(y)) => text::same_text(x.as_str(), y.as_str()),
        (None, None) => true,
        _ => false,
    }
}

fn same_named(a: &Vec<(Expr, Option<String>)>, b: &Vec<(Expr, Option<String>)>) -> (r: bool)
    ensures
        r == (named(a@) == named(b@)),
{
    if a.len() != b.len() {
        assert(named(a@).len() != named(b@).len());
        return false;
    }
    let mut i: usize = 0;
    while i < a.len()
        invariant
            i <= a.len(),
            a@.len() == b@.len(),
            forall|k: int| 0 <= k < i ==> named(a@)[k] == named(b@)[k],
        decreases a.len() - i,
    {
        if !sql::same(&a[i].0, &b[i].0) || !same_name(&a[i].1, &b[i].1) {
            assert(named(a@)[i as int] != named(b@)[i as int]);
            return false;
        }
        i += 1;
    }
    assert(named(a@) =~= named(b@));
    true
}

fn same_keys(a: &Vec<(Expr, bool)>, b: &Vec<(Expr, bool)>) -> (r: bool)
    ensures
        r == (sort_keys(a@) == sort_keys(b@)),
{
    if a.len() != b.len() {
        assert(sort_keys(a@).len() != sort_keys(b@).len());
        return false;
    }
    let mut i: usize = 0;
    while i < a.len()
        invariant
            i <= a.len(),
            a@.len() == b@.len(),
            forall|k: int| 0 <= k < i ==> sort_keys(a@)[k] == sort_keys(b@)[k],
        decreases a.len() - i,
    {
        if !sql::same(&a[i].0, &b[i].0) || a[i].1 != b[i].1 {
            assert(sort_keys(a@)[i as int] != sort_keys(b@)[i as int]);
            return false;
        }
        i += 1;
    }
    assert(sort_keys(a@) =~= sort_keys(b@));
    true
}

fn same_exprs(a: &Vec<Expr>, b: &Vec<Expr>) -> (r: bool)
    ensures
        r == (sql::nodes(a@) == sql::nodes(b@)),
{
    proof {
        sql::lemma_nodes(a@);
        sql::lemma_nodes(b@);
    }
    if a.len() != b.len() {
        return false;
    }
    let mut i: usize = 0;
    while i < a.len()
        invariant
            i <= a.len(),
            a@.len() == b@.len(),
            sql::nodes(a@).len() == a@.len(),
            sql::nodes(b@).len() == b@.len(),
            forall|k: int| 0 <= k < a@.len() ==> #[trigger] sql::nodes(a@)[k] == sql::node(a@[k]),
            forall|k: int| 0 <= k < b@.len() ==> #[trigger] sql::nodes(b@)[k] == sql::node(b@[k]),
            forall|k: int| 0 <= k < i ==> sql::nodes(a@)[k] == sql::nodes(b@)[k],
        decreases a.len() - i,
    {
        if !sql::same(&a[i], &b[i]) {
            assert(sql::nodes(a@)[i as int] != sql::nodes(b@)[i as int]);
            return false;
        }
        i += 1;
    }
    assert(sql::nodes(a@) =~= sql::nodes(b@));
    true
}

fn same_bound(a: Option<i64>, b: Option<i64>) -> (r: bool)
    ensures
        r == (a == b),
{
    match (a, b) {
        (Some(x), Some(y)) => x == y,
        (None, None) => true,
        _ => false,
    }
}

/// Whether two plans are the same.
fn same_plan(a: &LogicalPlan, b: &LogicalPlan) -> (r: bool)
    ensures
        r == (plan(*a) == plan(*b)),
    decreases a,
{
    match (a, b) {
        (LogicalPlan::Scan { table: t, alias: n }, LogicalPlan::Scan { table: u, alias: m }) => text::same_text(
            t.as_str(),
            u.as_str(),
        ) && same_name(n, m),
        (LogicalPlan::Filter { predicate: e, input: i }, LogicalPlan::Filter { predicate: f, input: j }) => sql::same(
            e,
            f,
        ) && same_plan(i, j),
        (LogicalPlan::Project { exprs: e, input: i }, LogicalPlan::Project { exprs: f, input: j }) => same_named(e, f)
            && same_plan(i, j),
        (
            LogicalPlan::Join { kind: k, on: e, left: p, right: q },
            LogicalPlan::Join { kind: l, on: f, left: u, right: v },
        ) => *k == *l && sql::same(e, f) && same_plan(p, u) && same_plan(q, v),
        (
            LogicalPlan::Aggregate { group_by: g, aggregates: e, input: i },
            LogicalPlan::Aggregate { group_by: h, aggregates: f, input: j },
        ) => same_exprs(g, h) && same_named(e, f) && same_plan(i, j),
        (LogicalPlan::Sort { keys: e, input: i }, LogicalPlan::Sort { keys: f, input: j }) => same_keys(e, f)
            && same_plan(i, j),
        (
            LogicalPlan::Limit { limit: l, offset: o, input: i },
            LogicalPlan::Limit { limit: m, offset: p, input: j },
        ) => same_bound(*l, *m) && same_bound(*o, *p) && same_plan(i, j),
        (LogicalPlan::Distinct { input: i }, LogicalPlan::Distinct { input: j }) => same_plan(i, j),
        (LogicalPlan::EmptyRelation, LogicalPlan::EmptyRelation) => true,
        _ => false,
    }
}

/// The rule-based optimizer.
pub struct Optimizer {
    max_passes: usize,
}

impl Default for Optimizer {
    fn default() -> (r: Optimizer)
        ensures
            r.passes() == 8,
    {
        Optimizer { max_passes: 8 }
    }
}

impl Optimizer {
    /// The most passes that an optimizer makes.
    pub closed spec fn passes(self) -> nat {
        self.max_passes as nat
    }

    /// A new optimizer.
    pub fn new() -> (r: Optimizer)
        ensures
            r.passes() == 8,
    {
        Optimizer { max_passes: 8 }
    }

    /// Run rewrite rules to a fixpoint (or the pass cap).
    pub fn optimize(&self, plan: LogicalPlan) -> (r: LogicalPlan)
        ensures
            self::plan(r) == optimized(self::plan(plan), self.passes()),
    {
        let ghost whole = optimized(self::plan(plan), self.passes());
        let mut current = plan;
        let mut left: usize = self.max_passes;
        while left > 0
            invariant
                whole == optimized(self::plan(plan), self.passes()),
                whole == optimized(self::plan(current), left as nat),
            decreases left,
        {
            let next = rewrite(&current);
            if same_plan(&next, &current) {
                return current;
            }
            current = next;
            left -= 1;
        }
        current
    }
}

/// One pass of the rules.
fn rewrite(p: &LogicalPlan) -> (r: LogicalPlan)
    ensures
        plan(r) == rewritten(plan(*p)),
    decreases p,
{
    match p {
        LogicalPlan::Filter { predicate, input } => {
            let i = rewrite(input);
            apply_filter_rule(predicate, i)
        },
        LogicalPlan::Project { exprs, input } => LogicalPlan::Project {
            exprs: copy_named(exprs),
            input: Box::new(rewrite(input)),
        },
        LogicalPlan::Aggregate { group_by, aggregates, input } => LogicalPlan::Aggregate {
            group_by: sql::copy_all(group_by),
            aggregates: copy_named(aggregates),
            input: Box::new(rewrite(input)),
        },
        LogicalPlan::Sort { keys, input } => LogicalPlan::Sort {
            keys: copy_keys(keys),
            input: Box::new(rewrite(input)),
        },
        LogicalPlan::Limit { limit, offset, input } => LogicalPlan::Limit {
            limit: *limit,
            offset: *offset,
            input: Box::new(rewrite(input)),
        },
        LogicalPlan::Distinct { input } => LogicalPlan::Distinct { input: Box::new(rewrite(input)) },
        LogicalPlan::Join { kind, on, left, right } => LogicalPlan::Join {
            kind: *kind,
            on: sql::copy(on),
            left: Box::new(rewrite(left)),
            right: Box::new(rewrite(right)),
        },
        LogicalPlan::Scan { table, alias } => LogicalPlan::Scan {
            table: sql::copy_text(table),
            alias: sql::copy_name(alias),
        },
        LogicalPlan::EmptyRelation => LogicalPlan::EmptyRelation,
    }
}

fn apply_filter_rule(predicate: &Expr, input: LogicalPlan) -> (r: LogicalPlan)
    ensures
        plan(r) == filter_rule(sql::node(*predicate), plan(input)),
{
    let q = fold_constants(predicate);
    if is_bool(&q, true) {
        return input;
    }
    match input {
        LogicalPlan::Filter { predicate: inner, input: x } => {
            let ghost below = plan(*x);
            let ghost inside = sql::node(inner);
            assert(plan(input) == Plan::Filter(inside, Box::new(below)));
            let both = Expr::Binary(BinOp::And, Box::new(q), Box::new(inner));
            assert(sql::node(both) == sql::Node::Binary(BinOp::And, Box::new(sql::node(q)), Box::new(inside)));
            let f = fold_constants(&both);
            let r = LogicalPlan::Filter { predicate: f, input: x };
            assert(plan(r) == Plan::Filter(sql::node(f), Box::new(below)));
            r
        },
        LogicalPlan::Project { exprs, input: x } => {
            let ghost below = plan(*x);
            let f = LogicalPlan::Filter { predicate: q, input: x };
            assert(plan(f) == Plan::Filter(sql::node(q), Box::new(below)));
            LogicalPlan::Project { exprs, input: Box::new(f) }
        },
        other => LogicalPlan::Filter { predicate: q, input: Box::new(other) },
    }
}

// What folding and rewriting keep

/// An expression without a connective where a value is asked for: none below a
/// comparison, arithmetic or a negation.
pub open spec fn strict(e: sql::Node) -> bool
    decreases e,
{
    match e {
        sql::Node::Unary(_, a) => strict(*a),
        sql::Node::Binary(op, a, b) => op != BinOp::And && op != BinOp::Or && strict(*a) && strict(*b),
        _ => true,
    }
}

/// A condition: connectives and nots over expressions without any.
pub open spec fn is_condition(e: sql::Node) -> bool
    decreases e,
{
    match e {
        sql::Node::Binary(BinOp::And, a, b) => is_condition(*a) && is_condition(*b),
        sql::Node::Binary(BinOp::Or, a, b) => is_condition(*a) && is_condition(*b),
        sql::Node::Unary(UnaryOp::Not, a) => is_condition(*a),
        _ => strict(e),
    }
}

proof fn lemma_strict_condition(e: sql::Node)
    requires
        strict(e),
    ensures
        is_condition(e),
    decreases e,
{
    if let sql::Node::Unary(UnaryOp::Not, a) = e {
        lemma_strict_condition(*a);
    }
}

/// Folding the constants of an expression, without connectives, keeps what it means.
#[verifier::spinoff_prover]
#[verifier::rlimit(40)]
pub proof fn lemma_folded_meaning<N: NameTable>(
    e: sql::Node,
    names: N,
    row: Seq<Value>,
    reals: numeric::RealFacts,
)
    requires
        strict(e),
    ensures
        exprvm::meaning(folded(e), names, row, reals) == exprvm::meaning(e, names, row, reals),
        strict(folded(e)),
    decreases e,
{
    reveal_with_fuel(exprvm::meaning, 2);
    match e {
        sql::Node::Unary(_, a) => {
            lemma_folded_meaning(*a, names, row, reals);
        },
        sql::Node::Binary(op, a, b) => {
            lemma_folded_meaning(*a, names, row, reals);
            lemma_folded_meaning(*b, names, row, reals);
            if let (sql::Node::LitInt(x), sql::Node::LitInt(y)) = (folded(*a), folded(*b)) {
                value::lemma_int_side(x, y);
            }
        },
        _ => {},
    }
}

/// Folding the constants of a condition keeps its truth: for a row for which the
/// condition can be told, it holds before if and only if it holds after, and is false
/// before if and only if it is false after.
#[verifier::spinoff_prover]
#[verifier::rlimit(40)]
pub proof fn lemma_folded_truth<N: NameTable>(
    e: sql::Node,
    names: N,
    row: Seq<Value>,
    reals: numeric::RealFacts,
)
    requires
        is_condition(e),
        exprvm::meaning(e, names, row, reals) is Ok,
    ensures
        is_condition(folded(e)),
        exprvm::meaning(folded(e), names, row, reals) is Ok,
        ({
            let yes = |v: Value| v == Value::Bool(true) || v is Int && v != Value::Int(0);
            let no = |v: Value| v == Value::Bool(false) || v == Value::Int(0);
            let v = exprvm::meaning(e, names, row, reals)->Ok_0;
            let w = exprvm::meaning(folded(e), names, row, reals)->Ok_0;
            yes(v) == yes(w) && no(v) == no(w)
        }),
    decreases e,
{
    reveal_with_fuel(exprvm::meaning, 2);
    match e {
        sql::Node::Binary(BinOp::And, a, b) => {
            lemma_folded_truth(*a, names, row, reals);
            lemma_folded_truth(*b, names, row, reals);
        },
        sql::Node::Binary(BinOp::Or, a, b) => {
            lemma_folded_truth(*a, names, row, reals);
            lemma_folded_truth(*b, names, row, reals);
        },
        sql::Node::Unary(UnaryOp::Not, a) => {
            lemma_folded_truth(*a, names, row, reals);
        },
        _ => {
            lemma_folded_meaning(e, names, row, reals);
            lemma_strict_condition(folded(e));
        },
    }
}

/// A row passes a filter where its predicate is true, or an integer other than zero.
pub open spec fn passes<N: NameTable>(e: sql::Node, names: N, row: Seq<Value>, reals: numeric::RealFacts) -> bool {
    ||| exprvm::meaning(e, names, row, reals) == Ok::<Value, numeric::Need>(Value::Bool(true))
    ||| exprvm::meaning(e, names, row, reals) matches Ok(Value::Int(i)) && i != 0
}

/// Whether a row passes all the filters over each node that has rows of its own: a
/// table, a join, an aggregate, a sort, a limit or a distinct, from the top of the
/// plan down. Projections are looked through.
pub open spec fn verdicts<N: NameTable>(p: Plan, names: N, row: Seq<Value>, reals: numeric::RealFacts) -> Seq<bool>
    decreases p,
{
    match p {
        Plan::Filter(e, i) => {
            let v = verdicts(*i, names, row, reals);
            seq![passes(e, names, row, reals) && v[0]] + v.skip(1)
        },
        Plan::Project(_, i) => verdicts(*i, names, row, reals),
        Plan::Aggregate(_, _, i) => seq![true] + verdicts(*i, names, row, reals),
        Plan::Sort(_, i) => seq![true] + verdicts(*i, names, row, reals),
        Plan::Limit(_, _, i) => seq![true] + verdicts(*i, names, row, reals),
        Plan::Distinct(i) => seq![true] + verdicts(*i, names, row, reals),
        Plan::Join(_, _, l, r) => seq![true] + verdicts(*l, names, row, reals) + verdicts(*r, names, row, reals),
        _ => seq![true],
    }
}

/// Every filter of a plan is a condition that can be told of a row.
pub open spec fn can_tell<N: NameTable>(p: Plan, names: N, row: Seq<Value>, reals: numeric::RealFacts) -> bool
    decreases p,
{
    match p {
        Plan::Filter(e, i) => is_condition(e) && exprvm::meaning(e, names, row, reals) is Ok && can_tell(
            *i,
            names,
            row,
            reals,
        ),
        Plan::Project(_, i) => can_tell(*i, names, row, reals),
        Plan::Aggregate(_, _, i) => can_tell(*i, names, row, reals),
        Plan::Sort(_, i) => can_tell(*i, names, row, reals),
        Plan::Limit(_, _, i) => can_tell(*i, names, row, reals),
        Plan::Distinct(i) => can_tell(*i, names, row, reals),
        Plan::Join(_, _, l, r) => can_tell(*l, names, row, reals) && can_tell(*r, names, row, reals),
        _ => true,
    }
}

proof fn lemma_verdicts_some<N: NameTable>(p: Plan, names: N, row: Seq<Value>, reals: numeric::RealFacts)
    ensures
        verdicts(p, names, row, reals).len() > 0,
    decreases p,
{
    match p {
        Plan::Filter(_, i) => lemma_verdicts_some(*i, names, row, reals),
        Plan::Project(_, i) => lemma_verdicts_some(*i, names, row, reals),
        _ => {},
    }
}

/// Two filters, one over the other, become one that a row passes if and only if it
/// passes both.
#[verifier::spinoff_prover]
pub proof fn lemma_filter_rule_keeps<N: NameTable>(
    e: sql::Node,
    input: Plan,
    names: N,
    row: Seq<Value>,
    reals: numeric::RealFacts,
)
    requires
        can_tell(Plan::Filter(e, Box::new(input)), names, row, reals),
    ensures
        can_tell(filter_rule(e, input), names, row, reals),
        verdicts(filter_rule(e, input), names, row, reals) == verdicts(
            Plan::Filter(e, Box::new(input)),
            names,
            row,
            reals,
        ),
{
    reveal_with_fuel(verdicts, 3);
    reveal_with_fuel(can_tell, 3);
    let q = folded(e);
    lemma_folded_truth(e, names, row, reals);
    lemma_verdicts_some(input, names, row, reals);
    let v = verdicts(input, names, row, reals);
    assert(passes(q, names, row, reals) == passes(e, names, row, reals));
    if q == sql::Node::LitBool(true) {
        assert(passes(q, names, row, reals));
        assert(seq![passes(e, names, row, reals) && v[0]] + v.skip(1) =~= v);
    } else {
        match input {
            Plan::Filter(inner, x) => {
                let both = sql::Node::Binary(BinOp::And, Box::new(q), Box::new(inner));
                exprvm::lemma_connectives(q, inner, names, row, reals);
                assert(is_condition(both));
                assert(exprvm::meaning(both, names, row, reals) is Ok) by {
                    reveal_with_fuel(exprvm::meaning, 2);
                }
                lemma_folded_truth(both, names, row, reals);
                assert(passes(both, names, row, reals) == (passes(q, names, row, reals) && passes(inner, names, row, reals)));
                assert(passes(folded(both), names, row, reals) == passes(both, names, row, reals));
                lemma_verdicts_some(*x, names, row, reals);
                let w = verdicts(*x, names, row, reals);
                assert(v =~= seq![passes(inner, names, row, reals) && w[0]] + w.skip(1));
                assert(v.skip(1) =~= w.skip(1));
            },
            Plan::Project(exprs, x) => {},
            _ => {},
        }
    }
}

/// A pass of the rules keeps the rows: a row passes the filters over every node of the
/// rewritten plan that it passed before, and no others.
pub proof fn lemma_rewritten_keeps<N: NameTable>(p: Plan, names: N, row: Seq<Value>, reals: numeric::RealFacts)
    requires
        can_tell(p, names, row, reals),
    ensures
        can_tell(rewritten(p), names, row, reals),
        verdicts(rewritten(p), names, row, reals) == verdicts(p, names, row, reals),
    decreases p,
{
    match p {
        Plan::Filter(e, i) => {
            lemma_rewritten_keeps(*i, names, row, reals);
            let j = rewritten(*i);
            reveal_with_fuel(verdicts, 2);
            reveal_with_fuel(can_tell, 2);
            lemma_filter_rule_keeps(e, j, names, row, reals);
        },
        Plan::Project(_, i) => lemma_rewritten_keeps(*i, names, row, reals),
        Plan::Aggregate(_, _, i) => lemma_rewritten_keeps(*i, names, row, reals),
        Plan::Sort(_, i) => lemma_rewritten_keeps(*i, names, row, reals),
        Plan::Limit(_, _, i) => lemma_rewritten_keeps(*i, names, row, reals),
        Plan::Distinct(i) => lemma_rewritten_keeps(*i, names, row, reals),
        Plan::Join(_, _, l, r) => {
            lemma_rewritten_keeps(*l, names, row, reals);
            lemma_rewritten_keeps(*r, names, row, reals);
        },
        _ => {},
    }
}

/// An optimized plan keeps the rows of the plan that it came from: whether a row passes
/// the filters over each of its nodes stays the same.
pub proof fn lemma_optimized_keeps<N: NameTable>(
    p: Plan,
    n: nat,
    names: N,
    row: Seq<Value>,
    reals: numeric::RealFacts,
)
    requires
        can_tell(p, names, row, reals),
    ensures
        verdicts(optimized(p, n), names, row, reals) == verdicts(p, names, row, reals),
    decreases n,
{
    if n > 0 && rewritten(p) != p {
        lemma_rewritten_keeps(p, names, row, reals);
        lemma_optimized_keeps(rewritten(p), (n - 1) as nat, names, row, reals);
    }
}

/// A predicate holds if and only if each of its conjuncts does, and a chain of
/// predicates if and only if each of them does.
pub proof fn lemma_conjuncts_hold<N: NameTable>(
    e: sql::Node,
    s: Seq<sql::Node>,
    names: N,
    row: Seq<Value>,
    reals: numeric::RealFacts,
)
    requires
        exprvm::meaning(e, names, row, reals) is Ok,
        s.len() > 0,
        forall|i: int| 0 <= i < s.len() ==> exprvm::meaning(#[trigger] s[i], names, row, reals) is Ok,
    ensures
        passes(e, names, row, reals) <==> forall|i: int|
            0 <= i < conjuncts(e).len() ==> passes(#[trigger] conjuncts(e)[i], names, row, reals),
        passes(chained(s), names, row, reals) <==> forall|i: int|
            0 <= i < s.len() ==> passes(#[trigger] s[i], names, row, reals),
{
    lemma_conjunct_truth(e, names, row, reals);
    lemma_chain_truth(s, names, row, reals);
}

proof fn lemma_conjunct_truth<N: NameTable>(e: sql::Node, names: N, row: Seq<Value>, reals: numeric::RealFacts)
    requires
        exprvm::meaning(e, names, row, reals) is Ok,
    ensures
        passes(e, names, row, reals) <==> forall|i: int|
            0 <= i < conjuncts(e).len() ==> passes(#[trigger] conjuncts(e)[i], names, row, reals),
    decreases e,
{
    let c = conjuncts(e);
    if let sql::Node::Binary(BinOp::And, a, b) = e {
        lemma_conjunct_truth(*a, names, row, reals);
        lemma_conjunct_truth(*b, names, row, reals);
        exprvm::lemma_connectives(*a, *b, names, row, reals);
        let x = conjuncts(*a);
        let y = conjuncts(*b);
        if forall|i: int| 0 <= i < c.len() ==> passes(#[trigger] c[i], names, row, reals) {
            assert forall|i: int| 0 <= i < x.len() implies passes(#[trigger] x[i], names, row, reals) by {
                assert(c[i] == x[i]);
            }
            assert forall|i: int| 0 <= i < y.len() implies passes(#[trigger] y[i], names, row, reals) by {
                assert(c[i + x.len()] == y[i]);
            }
        }
        if passes(e, names, row, reals) {
            assert forall|i: int| 0 <= i < c.len() implies passes(#[trigger] c[i], names, row, reals) by {
                if i < x.len() {
                    assert(c[i] == x[i]);
                } else {
                    assert(c[i] == y[i - x.len()]);
                }
            }
        }
    } else {
        assert(c =~= seq![e]);
        assert(c[0] == e);
    }
}

proof fn lemma_chain_truth<N: NameTable>(s: Seq<sql::Node>, names: N, row: Seq<Value>, reals: numeric::RealFacts)
    requires
        s.len() > 0,
        forall|i: int| 0 <= i < s.len() ==> exprvm::meaning(#[trigger] s[i], names, row, reals) is Ok,
    ensures
        exprvm::meaning(chained(s), names, row, reals) is Ok,
        passes(chained(s), names, row, reals) <==> forall|i: int|
            0 <= i < s.len() ==> passes(#[trigger] s[i], names, row, reals),
    decreases s.len(),
{
    if s.len() > 1 {
        let d = s.drop_last();
        assert forall|i: int| 0 <= i < d.len() implies exprvm::meaning(#[trigger] d[i], names, row, reals) is Ok by {
            assert(d[i] == s[i]);
        }
        lemma_chain_truth(d, names, row, reals);
        assert(exprvm::meaning(s[s.len() - 1], names, row, reals) is Ok);
        exprvm::lemma_connectives(chained(d), s.last(), names, row, reals);
        assert(exprvm::meaning(chained(s), names, row, reals) is Ok) by {
            reveal_with_fuel(exprvm::meaning, 2);
        }
        if forall|i: int| 0 <= i < s.len() ==> passes(#[trigger] s[i], names, row, reals) {
            assert forall|i: int| 0 <= i < d.len() implies passes(#[trigger] d[i], names, row, reals) by {
                assert(d[i] == s[i]);
            }
            assert(passes(s[s.len() - 1], names, row, reals));
        }
        if passes(chained(s), names, row, reals) {
            assert forall|i: int| 0 <= i < s.len() implies passes(#[trigger] s[i], names, row, reals) by {
                if i < d.len() {
                    assert(d[i] == s[i]);
                }
            }
        }
    } else {
        assert(chained(s) == s[0]);
    }
}

// What lowering gives

/// The plan of a statement, from the outside in: a limit where it has one, over a sort
/// where it has an order, over distinct rows where it asks for them, over a grouping with
/// its own filter or over a projection, over the filter of its rows, over its tables.
pub proof fn lemma_lowered(stmt: SelectStmt)
    ensures
        ({
            let limited = stmt.limit is Some || stmt.offset is Some;
            let ordered = stmt.order_by@.len() > 0;
            let grouped = stmt.group_by@.len() > 0;
            let a = lowered(stmt);
            let b = if limited {
                *a->Limit_2
            } else {
                a
            };
            let c = if ordered {
                *b->Sort_1
            } else {
                b
            };
            let d = if stmt.distinct {
                *c->Distinct_0
            } else {
                c
            };
            let e = if grouped && stmt.having is Some {
                *d->Filter_1
            } else {
                d
            };
            let f = if grouped {
                *e->Aggregate_2
            } else {
                *e->Project_1
            };
            let g = if stmt.filter is Some {
                *f->Filter_1
            } else {
                f
            };
            &&& (a is Limit <==> limited)
            &&& limited ==> a->Limit_0 == stmt.limit && a->Limit_1 == stmt.offset
            &&& (b is Sort <==> ordered)
            &&& ordered ==> b->Sort_0.len() == stmt.order_by@.len()
            &&& ordered ==> forall|i: int|
                0 <= i < stmt.order_by@.len() ==> (#[trigger] b->Sort_0[i]).0 == sql::node(stmt.order_by@[i].expr)
                    && b->Sort_0[i].1 == stmt.order_by@[i].ascending
            &&& (c is Distinct <==> stmt.distinct)
            &&& grouped && stmt.having is Some ==> d is Filter && d->Filter_0 == sql::node(stmt.having.unwrap())
            &&& grouped ==> e is Aggregate && e->Aggregate_0 == sql::nodes(stmt.group_by@) && e->Aggregate_1.len()
                == stmt.items@.len()
            &&& grouped || e is Project ==> (stmt.filter is Some ==> f is Filter && f->Filter_0 == sql::node(
                stmt.filter.unwrap(),
            ))
            &&& (grouped || e is Project) && stmt.joins@.len() == 0 && stmt.from is Some ==> g is Scan && g->Scan_0
                == stmt.from.unwrap()@
            &&& (grouped || e is Project) && stmt.joins@.len() == 0 && stmt.from is None ==> g is EmptyRelation
            &&& (grouped || e is Project) && stmt.joins@.len() > 0 ==> {
                let j = stmt.joins@.last();
                g is Join && g->Join_0 == j.kind && g->Join_1 == sql::node(j.on) && *g->Join_3 == Plan::Scan(
                    j.table@,
                    sql::name_view(j.alias),
                )
            }
        }),
{
}

/// A statement without a grouping is a projection of its items unless one of them has an
/// aggregate in it, and then it is a grouping into one group.
pub proof fn lemma_grouping(stmt: SelectStmt)
    requires
        stmt.limit is None && stmt.offset is None && stmt.order_by@.len() == 0 && !stmt.distinct,
        stmt.group_by@.len() == 0 && stmt.having is None,
    ensures
        (forall|i: int| 0 <= i < stmt.items@.len() ==> !has_aggregate(sql::node((#[trigger] stmt.items@[i]).expr)))
            ==> lowered(stmt) is Project,
        forall|i: int|
            0 <= i < stmt.items@.len() && (sql::node((#[trigger] stmt.items@[i]).expr) is Aggregate) ==> lowered(
                stmt,
            ) is Aggregate && lowered(stmt)->Aggregate_0.len() == 0,
        forall|i: int|
            0 <= i < stmt.items@.len() && lowered(stmt) is Project ==> (#[trigger] lowered(stmt)->Project_0[i]).0
                == sql::node(stmt.items@[i].expr) && lowered(stmt)->Project_0[i].1 == sql::name_view(
                stmt.items@[i].alias,
            ),
{
    assert(sql::nodes(stmt.group_by@).len() == 0) by {
        sql::lemma_nodes(stmt.group_by@);
    }
}

} // verus!
