//! Query planning.
//!
//! A logical plan describes *what* a query computes (scan, filter, project,
//! join, aggregate, sort). A physical plan describes *how* it is computed
//! (which scan path, which join algorithm, where to sort). The planner turns a
//! logical plan into a physical one using simple cost estimates derived from
//! column statistics. Estimates are reals, held as bits; arithmetic on them is
//! looked up in a [`Reals`] table, and a plan that lacks an entry says which one
//! it needs.
use vstd::prelude::*;

use crate::bits;
use crate::numeric;
use crate::numeric::{ArithOp, ONE, RealNeed, RealTexts, Reals};
use crate::text;
use crate::value;
use crate::value::Value;

verus! {

/// A logical operator.
#[derive(Debug)]
pub enum LogicalNode {
    /// Scan a table.
    Scan { table: String },
    /// Filter by a predicate on a column.
    Filter { input: Box<LogicalNode>, col: usize, op: String, value: Value },
    /// Project a subset of columns.
    Project { input: Box<LogicalNode>, cols: Vec<usize> },
    /// Join two inputs on equal columns.
    Join { left: Box<LogicalNode>, right: Box<LogicalNode>, left_col: usize, right_col: usize },
    /// Aggregate by a set of keys.
    Aggregate { input: Box<LogicalNode>, keys: Vec<usize>, agg_col: usize },
    /// Sort by a set of keys.
    Sort { input: Box<LogicalNode>, keys: Vec<(usize, bool)> },
    /// Limit to N rows.
    Limit { input: Box<LogicalNode>, n: usize },
    /// A materialized constant.
    Values { rows: Vec<Vec<Value>> },
}

/// A logical operator with its names as characters.
pub enum Node {
    Scan(Seq<char>),
    Filter(Box<Node>, usize, Seq<char>, Value),
    Project(Box<Node>, Seq<usize>),
    Join(Box<Node>, Box<Node>, usize, usize),
    Aggregate(Box<Node>, Seq<usize>, usize),
    Sort(Box<Node>, Seq<(usize, bool)>),
    Limit(Box<Node>, usize),
    Values(Seq<Vec<Value>>),
}

pub open spec fn node(n: LogicalNode) -> Node
    decreases n,
{
    match n {
        LogicalNode::Scan { table } => Node::Scan(table@),
        LogicalNode::Filter { input, col, op, value } => Node::Filter(Box::new(node(*input)), col, op@, value),
        LogicalNode::Project { input, cols } => Node::Project(Box::new(node(*input)), cols@),
        LogicalNode::Join { left, right, left_col, right_col } => Node::Join(
            Box::new(node(*left)),
            Box::new(node(*right)),
            left_col,
            right_col,
        ),
        LogicalNode::Aggregate { input, keys, agg_col } => Node::Aggregate(Box::new(node(*input)), keys@, agg_col),
        LogicalNode::Sort { input, keys } => Node::Sort(Box::new(node(*input)), keys@),
        LogicalNode::Limit { input, n } => Node::Limit(Box::new(node(*input)), n),
        LogicalNode::Values { rows } => Node::Values(rows@),
    }
}

// Printing

/// A number in decimal.
pub open spec fn num(n: usize) -> Seq<char> {
    text::digits(n as nat)
}

/// A truth value's text.
pub open spec fn flag(b: bool) -> Seq<char> {
    if b {
        "true"@
    } else {
        "false"@
    }
}

/// A value with its kind.
pub open spec fn value_text(v: Value, reals: numeric::RealTextFacts) -> Seq<char> {
    match v {
        Value::Null => "Null"@,
        Value::Bool(b) => "Bool("@ + flag(b) + ")"@,
        Value::Int(i) => "Int("@ + text::int_text(i as int) + ")"@,
        Value::Real(b) => "Real("@ + numeric::real_text(reals, b) + ")"@,
        Value::Text(id) => "Text("@ + text::digits(id as nat) + ")"@,
    }
}

/// Numbers with commas between them.
pub open spec fn nums_text(s: Seq<usize>) -> Seq<char>
    decreases s.len(),
{
    if s.len() == 0 {
        Seq::empty()
    } else if s.len() == 1 {
        num(s[0])
    } else {
        nums_text(s.drop_last()) + ", "@ + num(s.last())
    }
}

/// Sort keys with commas between them.
pub open spec fn keys_text(s: Seq<(usize, bool)>) -> Seq<char>
    decreases s.len(),
{
    if s.len() == 0 {
        Seq::empty()
    } else {
        let k = "("@ + num(s.last().0) + ", "@ + flag(s.last().1) + ")"@;
        if s.len() == 1 {
            k
        } else {
            keys_text(s.drop_last()) + ", "@ + k
        }
    }
}

/// Spaces.
pub open spec fn spaces(n: nat) -> Seq<char> {
    Seq::new(n, |i: int| ' ')
}

/// A plan, indented: a line for the node, then its inputs two spaces further in.
pub open spec fn outline(n: Node, indent: nat, reals: numeric::RealTextFacts) -> Seq<char>
    decreases n,
{
    spaces(indent) + match n {
        Node::Scan(t) => "Scan("@ + t + ")\n"@,
        Node::Filter(i, col, op, v) => "Filter(col="@ + num(col) + " "@ + op + " "@ + value_text(v, reals) + ")\n"@
            + outline(*i, indent + 2, reals),
        Node::Project(i, cols) => "Project(["@ + nums_text(cols) + "])\n"@ + outline(*i, indent + 2, reals),
        Node::Join(l, r, lc, rc) => "Join("@ + num(lc) + "="@ + num(rc) + ")\n"@ + outline(*l, indent + 2, reals)
            + outline(*r, indent + 2, reals),
        Node::Aggregate(i, keys, agg) => "Aggregate(keys=["@ + nums_text(keys) + "], agg="@ + num(agg) + ")\n"@
            + outline(*i, indent + 2, reals),
        Node::Sort(i, keys) => "Sort(["@ + keys_text(keys) + "])\n"@ + outline(*i, indent + 2, reals),
        Node::Limit(i, k) => "Limit("@ + num(k) + ")\n"@ + outline(*i, indent + 2, reals),
        Node::Values(rows) => "Values("@ + text::digits(rows.len()) + " rows)\n"@,
    }
}

/// How deep a plan is.
pub open spec fn depth(n: Node) -> nat
    decreases n,
{
    match n {
        Node::Scan(_) => 1,
        Node::Values(_) => 1,
        Node::Filter(i, _, _, _) => 1 + depth(*i),
        Node::Project(i, _) => 1 + depth(*i),
        Node::Aggregate(i, _, _) => 1 + depth(*i),
        Node::Sort(i, _) => 1 + depth(*i),
        Node::Limit(i, _) => 1 + depth(*i),
        Node::Join(l, r, _, _) => 1 + (if depth(*l) > depth(*r) {
            depth(*l)
        } else {
            depth(*r)
        }),
    }
}

fn put_num(s: &mut String, n: usize)
    ensures
        final(s)@ == old(s)@ + num(n),
{
    let mut v: Vec<char> = Vec::new();
    text::push_number(&mut v, n as u128);
    assert(v@ =~= num(n));
    let t = text::string_of(&v);
    s.append(t.as_str());
}

fn put_flag(s: &mut String, b: bool)
    ensures
        final(s)@ == old(s)@ + flag(b),
{
    if b {
        s.append("true");
    } else {
        s.append("false");
    }
}

fn put_value(s: &mut String, v: &Value, reals: &RealTexts)
    ensures
        final(s)@ == old(s)@ + value_text(*v, reals@),
{
    let ghost was = s@;
    match v {
        Value::Null => s.append("Null"),
        Value::Bool(b) => {
            s.append("Bool(");
            put_flag(s, *b);
            s.append(")");
        },
        Value::Int(i) => {
            s.append("Int(");
            let t = numeric::int_string(*i);
            s.append(t.as_str());
            s.append(")");
        },
        Value::Real(b) => {
            s.append("Real(");
            let t = reals.text(*b);
            s.append(t.as_str());
            s.append(")");
        },
        Value::Text(id) => {
            s.append("Text(");
            let mut v: Vec<char> = Vec::new();
            text::push_number(&mut v, *id as u128);
            assert(v@ =~= text::digits(*id as nat));
            let t = text::string_of(&v);
            s.append(t.as_str());
            s.append(")");
        },
    }
    assert(s@ =~= was + value_text(*v, reals@));
}

fn put_nums(s: &mut String, v: &Vec<usize>)
    ensures
        final(s)@ == old(s)@ + nums_text(v@),
{
    let ghost was = s@;
    let mut i: usize = 0;
    assert(was + nums_text(v@.take(0)) =~= was);
    while i < v.len()
        invariant
            i <= v@.len(),
            s@ == was + nums_text(v@.take(i as int)),
        decreases v@.len() - i,
    {
        assert(v@.take(i + 1).drop_last() =~= v@.take(i as int));
        if i > 0 {
            s.append(", ");
        }
        put_num(s, v[i]);
        assert(s@ =~= was + nums_text(v@.take(i + 1)));
        i += 1;
    }
    assert(v@.take(v@.len() as int) =~= v@);
}

fn put_keys(s: &mut String, v: &Vec<(usize, bool)>)
    ensures
        final(s)@ == old(s)@ + keys_text(v@),
{
    let ghost was = s@;
    let mut i: usize = 0;
    assert(was + keys_text(v@.take(0)) =~= was);
    while i < v.len()
        invariant
            i <= v@.len(),
            s@ == was + keys_text(v@.take(i as int)),
        decreases v@.len() - i,
    {
        assert(v@.take(i + 1).drop_last() =~= v@.take(i as int));
        if i > 0 {
            s.append(", ");
        }
        let (c, b) = v[i];
        s.append("(");
        put_num(s, c);
        s.append(", ");
        put_flag(s, b);
        s.append(")");
        assert(s@ =~= was + keys_text(v@.take(i + 1)));
        i += 1;
    }
    assert(v@.take(v@.len() as int) =~= v@);
}

fn put_spaces(s: &mut String, n: usize)
    ensures
        final(s)@ == old(s)@ + spaces(n as nat),
{
    let ghost was = s@;
    let mut i: usize = 0;
    assert(was + spaces(0) =~= was);
    while i < n
        invariant
            i <= n,
            s@ == was + spaces(i as nat),
        decreases n - i,
    {
        s.push(' ');
        assert(s@ =~= was + spaces((i + 1) as nat));
        i += 1;
    }
}

impl LogicalNode {
    /// Pretty-print the plan indented. Its depth must leave room to count the
    /// indent.
    pub fn pretty(&self, reals: &RealTexts) -> (r: String)
        requires
            2 * depth(node(*self)) <= usize::MAX,
        ensures
            r@ == outline(node(*self), 0, reals@),
    {
        let mut s = String::new();
        self.pretty_into(&mut s, 0, reals);
        assert(s@ =~= outline(node(*self), 0, reals@));
        s
    }

    #[verifier::rlimit(40)]
    fn pretty_into(&self, s: &mut String, indent: usize, reals: &RealTexts)
        requires
            indent + 2 * depth(node(*self)) <= usize::MAX,
        ensures
            final(s)@ == old(s)@ + outline(node(*self), indent as nat, reals@),
        decreases self,
    {
        let ghost was = s@;
        put_spaces(s, indent);
        match self {
            LogicalNode::Scan { table } => {
                s.append("Scan(");
                s.append(table.as_str());
                s.append(")\n");
            },
            LogicalNode::Filter { input, col, op, value } => {
                s.append("Filter(col=");
                put_num(s, *col);
                s.append(" ");
                s.append(op.as_str());
                s.append(" ");
                put_value(s, value, reals);
                s.append(")\n");
                input.pretty_into(s, indent + 2, reals);
            },
            LogicalNode::Project { input, cols } => {
                s.append("Project([");
                put_nums(s, cols);
                s.append("])\n");
                input.pretty_into(s, indent + 2, reals);
            },
            LogicalNode::Join { left, right, left_col, right_col } => {
                s.append("Join(");
                put_num(s, *left_col);
                s.append("=");
                put_num(s, *right_col);
                s.append(")\n");
                left.pretty_into(s, indent + 2, reals);
                right.pretty_into(s, indent + 2, reals);
            },
            LogicalNode::Aggregate { input, keys, agg_col } => {
                s.append("Aggregate(keys=[");
                put_nums(s, keys);
                s.append("], agg=");
                put_num(s, *agg_col);
                s.append(")\n");
                input.pretty_into(s, indent + 2, reals);
            },
            LogicalNode::Sort { input, keys } => {
                s.append("Sort([");
                put_keys(s, keys);
                s.append("])\n");
                input.pretty_into(s, indent + 2, reals);
            },
            LogicalNode::Limit { input, n } => {
                s.append("Limit(");
                put_num(s, *n);
                s.append(")\n");
                input.pretty_into(s, indent + 2, reals);
            },
            LogicalNode::Values { rows } => {
                s.append("Values(");
                put_num(s, rows.len());
                s.append(" rows)\n");
            },
        }
        assert(s@ =~= was + outline(node(*self), indent as nat, reals@));
    }
}

// Physical plans

/// A physical scan path.
#[derive(Debug, Clone, Copy, PartialEq, Eq, Structural)]
pub enum ScanPath {
    /// Full sequential scan.
    Sequential,
    /// Index scan via the secondary index for an equality predicate.
    IndexEq { col: usize, value: Value },
    /// Zone-map-pruned scan for a range predicate.
    ZonePruned { col: usize, lo: Value, hi: Value },
}

/// A physical operator. An estimate is held as the bits of a real.
#[derive(Debug)]
pub enum PhysicalNode {
    Scan { table: String, path: ScanPath, est_rows: u64 },
    Filter { input: Box<PhysicalNode>, est_rows: u64 },
    Project { input: Box<PhysicalNode>, cols: Vec<usize>, est_rows: u64 },
    HashJoin { left: Box<PhysicalNode>, right: Box<PhysicalNode>, est_rows: u64 },
    SortMergeJoin { left: Box<PhysicalNode>, right: Box<PhysicalNode>, est_rows: u64 },
    NestedLoopJoin { left: Box<PhysicalNode>, right: Box<PhysicalNode>, est_rows: u64 },
    Aggregate { input: Box<PhysicalNode>, est_rows: u64 },
    Sort { input: Box<PhysicalNode>, est_rows: u64 },
    Limit { input: Box<PhysicalNode>, n: usize, est_rows: u64 },
}

/// A physical operator with its names as characters.
pub enum Step {
    Scan(Seq<char>, ScanPath, u64),
    Filter(Box<Step>, u64),
    Project(Box<Step>, Seq<usize>, u64),
    HashJoin(Box<Step>, Box<Step>, u64),
    SortMergeJoin(Box<Step>, Box<Step>, u64),
    NestedLoopJoin(Box<Step>, Box<Step>, u64),
    Aggregate(Box<Step>, u64),
    Sort(Box<Step>, u64),
    Limit(Box<Step>, usize, u64),
}

pub open spec fn step(p: PhysicalNode) -> Step
    decreases p,
{
    match p {
        PhysicalNode::Scan { table, path, est_rows } => Step::Scan(table@, path, est_rows),
        PhysicalNode::Filter { input, est_rows } => Step::Filter(Box::new(step(*input)), est_rows),
        PhysicalNode::Project { input, cols, est_rows } => Step::Project(Box::new(step(*input)), cols@, est_rows),
        PhysicalNode::HashJoin { left, right, est_rows } => Step::HashJoin(
            Box::new(step(*left)),
            Box::new(step(*right)),
            est_rows,
        ),
        PhysicalNode::SortMergeJoin { left, right, est_rows } => Step::SortMergeJoin(
            Box::new(step(*left)),
            Box::new(step(*right)),
            est_rows,
        ),
        PhysicalNode::NestedLoopJoin { left, right, est_rows } => Step::NestedLoopJoin(
            Box::new(step(*left)),
            Box::new(step(*right)),
            est_rows,
        ),
        PhysicalNode::Aggregate { input, est_rows } => Step::Aggregate(Box::new(step(*input)), est_rows),
        PhysicalNode::Sort { input, est_rows } => Step::Sort(Box::new(step(*input)), est_rows),
        PhysicalNode::Limit { input, n, est_rows } => Step::Limit(Box::new(step(*input)), n, est_rows),
    }
}

/// A step's estimate.
pub open spec fn est(s: Step) -> u64 {
    match s {
        Step::Scan(_, _, e) => e,
        Step::Filter(_, e) => e,
        Step::Project(_, _, e) => e,
        Step::HashJoin(_, _, e) => e,
        Step::SortMergeJoin(_, _, e) => e,
        Step::NestedLoopJoin(_, _, e) => e,
        Step::Aggregate(_, e) => e,
        Step::Sort(_, e) => e,
        Step::Limit(_, _, e) => e,
    }
}

impl PhysicalNode {
    /// The estimated rows, as the bits of a real.
    pub fn est_rows(&self) -> (r: u64)
        ensures
            r == est(step(*self)),
    {
        match self {
            PhysicalNode::Scan { table: _, path: _, est_rows } => *est_rows,
            PhysicalNode::Filter { input: _, est_rows } => *est_rows,
            PhysicalNode::Project { input: _, cols: _, est_rows } => *est_rows,
            PhysicalNode::HashJoin { left: _, right: _, est_rows } => *est_rows,
            PhysicalNode::SortMergeJoin { left: _, right: _, est_rows } => *est_rows,
            PhysicalNode::NestedLoopJoin { left: _, right: _, est_rows } => *est_rows,
            PhysicalNode::Aggregate { input: _, est_rows } => *est_rows,
            PhysicalNode::Sort { input: _, est_rows } => *est_rows,
            PhysicalNode::Limit { input: _, n: _, est_rows } => *est_rows,
        }
    }
}

/// A scan path's text.
pub open spec fn path_text(p: ScanPath, reals: numeric::RealTextFacts) -> Seq<char> {
    match p {
        ScanPath::Sequential => "Sequential"@,
        ScanPath::IndexEq { col, value } => "IndexEq { col: "@ + num(col) + ", value: "@ + value_text(value, reals) + " }"@,
        ScanPath::ZonePruned { col, lo, hi } => "ZonePruned { col: "@ + num(col) + ", lo: "@ + value_text(lo, reals)
            + ", hi: "@ + value_text(hi, reals) + " }"@,
    }
}

/// A physical plan, indented: a line for the step with its estimate, rounded,
/// and the step's inputs two spaces further in.
pub open spec fn layout(
    s: Step,
    indent: nat,
    reals: numeric::RealTextFacts,
    rounded: numeric::RealTextFacts,
) -> Seq<char>
    decreases s,
{
    let e = numeric::real_text(rounded, est(s));
    spaces(indent) + match s {
        Step::Scan(t, path, _) => "Scan("@ + text::quoted(t) + " "@ + path_text(path, reals) + " ~"@ + e + " rows)\n"@,
        Step::Filter(i, _) => "Filter(~"@ + e + " rows)\n"@ + layout(*i, indent + 2, reals, rounded),
        Step::Project(i, cols, _) => "Project(["@ + nums_text(cols) + "] ~"@ + e + ")\n"@ + layout(
            *i,
            indent + 2,
            reals,
            rounded,
        ),
        Step::HashJoin(l, r, _) => "HashJoin(~"@ + e + ")\n"@ + layout(*l, indent + 2, reals, rounded) + layout(
            *r,
            indent + 2,
            reals,
            rounded,
        ),
        Step::SortMergeJoin(l, r, _) => "SortMergeJoin(~"@ + e + ")\n"@ + layout(*l, indent + 2, reals, rounded)
            + layout(*r, indent + 2, reals, rounded),
        Step::NestedLoopJoin(l, r, _) => "NestedLoopJoin(~"@ + e + ")\n"@ + layout(*l, indent + 2, reals, rounded)
            + layout(*r, indent + 2, reals, rounded),
        Step::Aggregate(i, _) => "Aggregate(~"@ + e + ")\n"@ + layout(*i, indent + 2, reals, rounded),
        Step::Sort(i, _) => "Sort(~"@ + e + ")\n"@ + layout(*i, indent + 2, reals, rounded),
        Step::Limit(i, k, _) => "Limit("@ + num(k) + " ~"@ + e + ")\n"@ + layout(*i, indent + 2, reals, rounded),
    }
}

/// How deep a physical plan is.
pub open spec fn step_depth(s: Step) -> nat
    decreases s,
{
    match s {
        Step::Scan(_, _, _) => 1,
        Step::Filter(i, _) => 1 + step_depth(*i),
        Step::Project(i, _, _) => 1 + step_depth(*i),
        Step::Aggregate(i, _) => 1 + step_depth(*i),
        Step::Sort(i, _) => 1 + step_depth(*i),
        Step::Limit(i, _, _) => 1 + step_depth(*i),
        Step::HashJoin(l, r, _) => 1 + deeper(step_depth(*l), step_depth(*r)),
        Step::SortMergeJoin(l, r, _) => 1 + deeper(step_depth(*l), step_depth(*r)),
        Step::NestedLoopJoin(l, r, _) => 1 + deeper(step_depth(*l), step_depth(*r)),
    }
}

/// The greater of two depths.
pub open spec fn deeper(a: nat, b: nat) -> nat {
    if a > b {
        a
    } else {
        b
    }
}

fn put_path(s: &mut String, p: &ScanPath, reals: &RealTexts)
    ensures
        final(s)@ == old(s)@ + path_text(*p, reals@),
{
    let ghost was = s@;
    match p {
        ScanPath::Sequential => s.append("Sequential"),
        ScanPath::IndexEq { col, value } => {
            s.append("IndexEq { col: ");
            put_num(s, *col);
            s.append(", value: ");
            put_value(s, value, reals);
            s.append(" }");
        },
        ScanPath::ZonePruned { col, lo, hi } => {
            s.append("ZonePruned { col: ");
            put_num(s, *col);
            s.append(", lo: ");
            put_value(s, lo, reals);
            s.append(", hi: ");
            put_value(s, hi, reals);
            s.append(" }");
        },
    }
    assert(s@ =~= was + path_text(*p, reals@));
}

impl PhysicalNode {
    /// Pretty-print the plan indented. `reals` holds the texts of the reals in
    /// its predicates, `rounded` those of its estimates, without decimals. Its
    /// depth must leave room to count the indent.
    pub fn pretty(&self, reals: &RealTexts, rounded: &RealTexts) -> (r: String)
        requires
            2 * step_depth(step(*self)) <= usize::MAX,
        ensures
            r@ == layout(step(*self), 0, reals@, rounded@),
    {
        let mut s = String::new();
        self.pretty_into(&mut s, 0, reals, rounded);
        assert(s@ =~= layout(step(*self), 0, reals@, rounded@));
        s
    }

    #[verifier::rlimit(60)]
    #[verifier::spinoff_prover]
    fn pretty_into(&self, s: &mut String, indent: usize, reals: &RealTexts, rounded: &RealTexts)
        requires
            indent + 2 * step_depth(step(*self)) <= usize::MAX,
        ensures
            final(s)@ == old(s)@ + layout(step(*self), indent as nat, reals@, rounded@),
        decreases self,
    {
        let ghost was = s@;
        put_spaces(s, indent);
        let e = rounded.text(self.est_rows());
        match self {
            PhysicalNode::Scan { table, path, est_rows: _ } => {
                s.append("Scan(");
                let t = text::quote(table.as_str());
                s.append(t.as_str());
                s.append(" ");
                put_path(s, path, reals);
                s.append(" ~");
                s.append(e.as_str());
                s.append(" rows)\n");
            },
            PhysicalNode::Filter { input, est_rows: _ } => {
                s.append("Filter(~");
                s.append(e.as_str());
                s.append(" rows)\n");
                input.pretty_into(s, indent + 2, reals, rounded);
            },
            PhysicalNode::Project { input, cols, est_rows: _ } => {
                s.append("Project([");
                put_nums(s, cols);
                s.append("] ~");
                s.append(e.as_str());
                s.append(")\n");
                input.pretty_into(s, indent + 2, reals, rounded);
            },
            PhysicalNode::HashJoin { left, right, est_rows: _ } => {
                s.append("HashJoin(~");
                s.append(e.as_str());
                s.append(")\n");
                left.pretty_into(s, indent + 2, reals, rounded);
                right.pretty_into(s, indent + 2, reals, rounded);
            },
            PhysicalNode::SortMergeJoin { left, right, est_rows: _ } => {
                s.append("SortMergeJoin(~");
                s.append(e.as_str());
                s.append(")\n");
                left.pretty_into(s, indent + 2, reals, rounded);
                right.pretty_into(s, indent + 2, reals, rounded);
            },
            PhysicalNode::NestedLoopJoin { left, right, est_rows: _ } => {
                s.append("NestedLoopJoin(~");
                s.append(e.as_str());
                s.append(")\n");
                left.pretty_into(s, indent + 2, reals, rounded);
                right.pretty_into(s, indent + 2, reals, rounded);
            },
            PhysicalNode::Aggregate { input, est_rows: _ } => {
                s.append("Aggregate(~");
                s.append(e.as_str());
                s.append(")\n");
                input.pretty_into(s, indent + 2, reals, rounded);
            },
            PhysicalNode::Sort { input, est_rows: _ } => {
                s.append("Sort(~");
                s.append(e.as_str());
                s.append(")\n");
                input.pretty_into(s, indent + 2, reals, rounded);
            },
            PhysicalNode::Limit { input, n, est_rows: _ } => {
                s.append("Limit(");
                put_num(s, *n);
                s.append(" ~");
                s.append(e.as_str());
                s.append(")\n");
                input.pretty_into(s, indent + 2, reals, rounded);
            },
        }
        assert(s@ =~= was + layout(step(*self), indent as nat, reals@, rounded@));
    }
}

/// Statistics the planner consults. Reals are held as bits.
#[derive(Debug, Clone)]
pub struct PlanStats {
    pub table_rows: u64,
    /// What share of the rows an equality on a column keeps, by column.
    pub eq_selectivity: Vec<u64>,
    pub indexed_cols: Vec<bool>,
}

/// One tenth: the share an equality keeps where nothing is known.
pub const TENTH: u64 = 0x3FB9_9999_9999_999A;

/// Three tenths: the share a range keeps.
pub const THREE_TENTHS: u64 = 0x3FD3_3333_3333_3333;

/// One half: the share any other predicate keeps.
pub const HALF: u64 = 0x3FE0_0000_0000_0000;

pub const TEN: u64 = 0x4024_0000_0000_0000;

/// Ten thousand: the most rows of a side that counts as small.
pub const SMALL: u64 = 0x40C3_8800_0000_0000;

pub const MILLION: u64 = 0x412E_8480_0000_0000;

/// Whether an operator tests for equality.
pub open spec fn is_eq(op: Seq<char>) -> bool {
    op == "="@
}

/// Whether an operator bounds a range.
pub open spec fn is_range(op: Seq<char>) -> bool {
    op == "<"@ || op == ">"@ || op == "<="@ || op == ">="@
}

/// The share of the rows that a predicate keeps.
pub open spec fn share(op: Seq<char>, col: usize, stats: PlanStats) -> u64 {
    if is_eq(op) {
        if col < stats.eq_selectivity@.len() {
            stats.eq_selectivity@[col as int]
        } else {
            TENTH
        }
    } else if is_range(op) {
        THREE_TENTHS
    } else {
        HALF
    }
}

/// Whether a column has an index.
pub open spec fn indexed(col: usize, stats: PlanStats) -> bool {
    col < stats.indexed_cols@.len() && stats.indexed_cols@[col as int]
}

/// A filter over a step. An equality on an indexed column becomes part of the scan
/// below it.
pub open spec fn filter_step(s: Step, col: usize, op: Seq<char>, v: Value, stats: PlanStats, e: u64) -> Step {
    match s {
        Step::Scan(t, _, _) => if is_eq(op) && indexed(col, stats) {
            Step::Scan(t, ScanPath::IndexEq { col, value: v }, e)
        } else {
            Step::Filter(Box::new(s), e)
        },
        _ => Step::Filter(Box::new(s), e),
    }
}

/// A join of two steps: by hash where one side is small, else by sorting where
/// both together are not too large, else by nested loops.
pub open spec fn join_step(l: Step, r: Step, e: u64, both: u64) -> Step {
    let least = numeric::real_min(est(l), est(r));
    if numeric::real_less(least, SMALL) || least == SMALL {
        Step::HashJoin(Box::new(l), Box::new(r), e)
    } else if numeric::real_less(both, MILLION) {
        Step::SortMergeJoin(Box::new(l), Box::new(r), e)
    } else {
        Step::NestedLoopJoin(Box::new(l), Box::new(r), e)
    }
}

/// The physical plan of a logical one, or a real that is needed for it.
pub open spec fn planned(n: Node, stats: PlanStats, reals: numeric::RealFacts) -> Result<Step, numeric::Need>
    decreases n,
{
    match n {
        Node::Scan(_) => Ok(Step::Scan(Seq::empty(), ScanPath::Sequential, stats.table_rows)),
        Node::Filter(i, col, op, v) => match planned(*i, stats, reals) {
            Err(x) => Err(x),
            Ok(s) => match numeric::real_op(ArithOp::Mul, est(s), share(op, col, stats), reals) {
                Err(x) => Err(x),
                Ok(e) => Ok(filter_step(s, col, op, v, stats, e)),
            },
        },
        Node::Project(i, cols) => match planned(*i, stats, reals) {
            Err(x) => Err(x),
            Ok(s) => Ok(Step::Project(Box::new(s), cols, est(s))),
        },
        Node::Join(l, r, _, _) => match planned(*l, stats, reals) {
            Err(x) => Err(x),
            Ok(a) => match planned(*r, stats, reals) {
                Err(x) => Err(x),
                Ok(b) => match numeric::real_op(ArithOp::Mul, est(a), est(b), reals) {
                    Err(x) => Err(x),
                    Ok(m) => match numeric::real_op(
                        ArithOp::Div,
                        m,
                        numeric::real_max(stats.table_rows, ONE),
                        reals,
                    ) {
                        Err(x) => Err(x),
                        Ok(e) => match numeric::real_op(ArithOp::Add, est(a), est(b), reals) {
                            Err(x) => Err(x),
                            Ok(both) => Ok(join_step(a, b, e, both)),
                        },
                    },
                },
            },
        },
        Node::Aggregate(i, keys, _) => match planned(*i, stats, reals) {
            Err(x) => Err(x),
            Ok(s) => match numeric::real_op(
                ArithOp::Mul,
                value::real_of_nat(
                    if keys.len() > 1 {
                        keys.len()
                    } else {
                        1
                    },
                ) as u64,
                TEN,
                reals,
            ) {
                Err(x) => Err(x),
                Ok(d) => match numeric::real_op(ArithOp::Div, est(s), numeric::real_max(d, ONE), reals) {
                    Err(x) => Err(x),
                    Ok(e) => Ok(Step::Aggregate(Box::new(s), numeric::real_max(e, ONE))),
                },
            },
        },
        Node::Sort(i, _) => match planned(*i, stats, reals) {
            Err(x) => Err(x),
            Ok(s) => Ok(Step::Sort(Box::new(s), est(s))),
        },
        Node::Limit(i, k) => match planned(*i, stats, reals) {
            Err(x) => Err(x),
            Ok(s) => Ok(
                Step::Limit(
                    Box::new(s),
                    k,
                    numeric::real_min(est(s), value::real_of_nat(k as nat) as u64),
                ),
            ),
        },
        Node::Values(rows) => Ok(
            Step::Scan("values"@, ScanPath::Sequential, value::real_of_nat(rows.len()) as u64),
        ),
    }
}

/// What planning gave.
pub open spec fn told(r: Result<PhysicalNode, RealNeed>) -> Result<Step, numeric::Need> {
    match r {
        Ok(p) => Ok(step(p)),
        Err(n) => Err(n@),
    }
}

fn share_of(op: &str, col: usize, stats: &PlanStats) -> (r: u64)
    ensures
        r == share(op@, col, *stats),
{
    if text::same_text(op, "=") {
        if col < stats.eq_selectivity.len() {
            stats.eq_selectivity[col]
        } else {
            TENTH
        }
    } else if text::same_text(op, "<") || text::same_text(op, ">") || text::same_text(op, "<=") || text::same_text(
        op,
        ">=",
    ) {
        THREE_TENTHS
    } else {
        HALF
    }
}

fn copy_cols(v: &Vec<usize>) -> (r: Vec<usize>)
    ensures
        r@ == v@,
{
    let mut r: Vec<usize> = Vec::new();
    let mut i: usize = 0;
    while i < v.len()
        invariant
            i <= v@.len(),
            r@ == v@.take(i as int),
        decreases v@.len() - i,
    {
        r.push(v[i]);
        assert(v@.take(i + 1) =~= v@.take(i as int).push(v@[i as int]));
        i += 1;
    }
    assert(v@.take(v@.len() as int) =~= v@);
    r
}

fn place_filter(child: PhysicalNode, col: usize, op: &str, v: Value, stats: &PlanStats, e: u64) -> (r: PhysicalNode)
    ensures
        step(r) == filter_step(step(child), col, op@, v, *stats, e),
{
    let fold = text::same_text(op, "=") && col < stats.indexed_cols.len() && stats.indexed_cols[col];
    match child {
        PhysicalNode::Scan { table, path, est_rows } => {
            if fold {
                PhysicalNode::Scan { table, path: ScanPath::IndexEq { col, value: v }, est_rows: e }
            } else {
                let scan = PhysicalNode::Scan { table, path, est_rows };
                assert(step(scan) == step(child));
                PhysicalNode::Filter { input: Box::new(scan), est_rows: e }
            }
        },
        other => PhysicalNode::Filter { input: Box::new(other), est_rows: e },
    }
}

fn plan_join(l: PhysicalNode, r: PhysicalNode, stats: &PlanStats, reals: &Reals) -> (res: Result<
    PhysicalNode,
    RealNeed,
>)
    ensures
        told(res) == (match numeric::real_op(ArithOp::Mul, est(step(l)), est(step(r)), reals@) {
            Err(x) => Err(x),
            Ok(m) => match numeric::real_op(ArithOp::Div, m, numeric::real_max(stats.table_rows, ONE), reals@) {
                Err(x) => Err(x),
                Ok(e) => match numeric::real_op(ArithOp::Add, est(step(l)), est(step(r)), reals@) {
                    Err(x) => Err(x),
                    Ok(both) => Ok(join_step(step(l), step(r), e, both)),
                },
            },
        }),
{
    let a = l.est_rows();
    let b = r.est_rows();
    let m = match numeric::do_real_op(ArithOp::Mul, a, b, reals) {
        Err(x) => return Err(x),
        Ok(m) => m,
    };
    let e = match numeric::do_real_op(ArithOp::Div, m, numeric::max_real(stats.table_rows, ONE), reals) {
        Err(x) => return Err(x),
        Ok(e) => e,
    };
    let both = match numeric::do_real_op(ArithOp::Add, a, b, reals) {
        Err(x) => return Err(x),
        Ok(s) => s,
    };
    let least = numeric::min_real(a, b);
    if numeric::less_real(least, SMALL) || least == SMALL {
        Ok(PhysicalNode::HashJoin { left: Box::new(l), right: Box::new(r), est_rows: e })
    } else if numeric::less_real(both, MILLION) {
        Ok(PhysicalNode::SortMergeJoin { left: Box::new(l), right: Box::new(r), est_rows: e })
    } else {
        Ok(PhysicalNode::NestedLoopJoin { left: Box::new(l), right: Box::new(r), est_rows: e })
    }
}

/// Plan a logical node into a physical node.
pub fn plan(logical: &LogicalNode, stats: &PlanStats, reals: &Reals) -> (r: Result<PhysicalNode, RealNeed>)
    ensures
        told(r) == planned(node(*logical), *stats, reals@),
    decreases logical,
{
    match logical {
        LogicalNode::Scan { table: _ } => {
            let t = String::new();
            assert(t@ =~= Seq::<char>::empty());
            Ok(PhysicalNode::Scan { table: t, path: ScanPath::Sequential, est_rows: stats.table_rows })
        },
        LogicalNode::Filter { input, col, op, value } => match plan(input, stats, reals) {
            Err(x) => Err(x),
            Ok(child) => {
                let sel = share_of(op.as_str(), *col, stats);
                match numeric::do_real_op(ArithOp::Mul, child.est_rows(), sel, reals) {
                    Err(x) => Err(x),
                    Ok(e) => Ok(place_filter(child, *col, op.as_str(), *value, stats, e)),
                }
            },
        },
        LogicalNode::Project { input, cols } => match plan(input, stats, reals) {
            Err(x) => Err(x),
            Ok(child) => {
                let e = child.est_rows();
                Ok(PhysicalNode::Project { input: Box::new(child), cols: copy_cols(cols), est_rows: e })
            },
        },
        LogicalNode::Join { left, right, left_col: _, right_col: _ } => match plan(left, stats, reals) {
            Err(x) => Err(x),
            Ok(l) => match plan(right, stats, reals) {
                Err(x) => Err(x),
                Ok(r) => plan_join(l, r, stats, reals),
            },
        },
        LogicalNode::Aggregate { input, keys, agg_col: _ } => match plan(input, stats, reals) {
            Err(x) => Err(x),
            Ok(child) => {
                let k: usize = if keys.len() > 1 {
                    keys.len()
                } else {
                    1
                };
                let d = match numeric::do_real_op(ArithOp::Mul, value::nat_to_real(k as u64), TEN, reals) {
                    Err(x) => return Err(x),
                    Ok(d) => d,
                };
                match numeric::do_real_op(ArithOp::Div, child.est_rows(), numeric::max_real(d, ONE), reals) {
                    Err(x) => Err(x),
                    Ok(e) => Ok(
                        PhysicalNode::Aggregate { input: Box::new(child), est_rows: numeric::max_real(e, ONE) },
                    ),
                }
            },
        },
        LogicalNode::Sort { input, keys: _ } => match plan(input, stats, reals) {
            Err(x) => Err(x),
            Ok(child) => {
                let e = child.est_rows();
                Ok(PhysicalNode::Sort { input: Box::new(child), est_rows: e })
            },
        },
        LogicalNode::Limit { input, n } => match plan(input, stats, reals) {
            Err(x) => Err(x),
            Ok(child) => {
                let e = numeric::min_real(child.est_rows(), value::nat_to_real(*n as u64));
                Ok(PhysicalNode::Limit { input: Box::new(child), n: *n, est_rows: e })
            },
        },
        LogicalNode::Values { rows } => Ok(
            PhysicalNode::Scan {
                table: String::from_str("values"),
                path: ScanPath::Sequential,
                est_rows: value::nat_to_real(rows.len() as u64),
            },
        ),
    }
}

// Rewriting

/// Whether a projection keeps the columns in place.
pub open spec fn in_place(cols: Seq<usize>) -> bool {
    forall|i: int| 0 <= i < cols.len() ==> #[trigger] cols[i] == i
}

/// A plan after the rewrites at its top: a filter goes below a projection that
/// keeps the columns in place, a limit below a sort.
pub open spec fn optimized(n: Node) -> Node
    decreases n,
{
    match n {
        Node::Filter(i, col, op, v) => match optimized(*i) {
            Node::Project(p, cols) => if in_place(cols) {
                Node::Project(Box::new(Node::Filter(p, col, op, v)), cols)
            } else {
                Node::Filter(Box::new(Node::Project(p, cols)), col, op, v)
            },
            x => Node::Filter(Box::new(x), col, op, v),
        },
        Node::Limit(i, k) => match optimized(*i) {
            Node::Sort(s, keys) => Node::Sort(Box::new(Node::Limit(s, k)), keys),
            x => Node::Limit(Box::new(x), k),
        },
        _ => n,
    }
}

/// How many operators a plan has.
pub open spec fn size(n: Node) -> nat
    decreases n,
{
    match n {
        Node::Scan(_) => 1,
        Node::Values(_) => 1,
        Node::Filter(i, _, _, _) => 1 + size(*i),
        Node::Project(i, _) => 1 + size(*i),
        Node::Aggregate(i, _, _) => 1 + size(*i),
        Node::Sort(i, _) => 1 + size(*i),
        Node::Limit(i, _) => 1 + size(*i),
        Node::Join(l, r, _, _) => 1 + size(*l) + size(*r),
    }
}

/// The rewrites neither add nor drop an operator.
pub proof fn lemma_optimized_size(n: Node)
    ensures
        size(optimized(n)) == size(n),
    decreases n,
{
    reveal_with_fuel(size, 3);
    match n {
        Node::Filter(i, _, _, _) => lemma_optimized_size(*i),
        Node::Limit(i, _) => lemma_optimized_size(*i),
        _ => {},
    }
}

fn keeps_place(cols: &Vec<usize>) -> (r: bool)
    ensures
        r == in_place(cols@),
{
    let mut i: usize = 0;
    while i < cols.len()
        invariant
            i <= cols@.len(),
            forall|k: int| 0 <= k < i ==> #[trigger] cols@[k] == k,
        decreases cols@.len() - i,
    {
        if cols[i] != i {
            return false;
        }
        i += 1;
    }
    true
}

/// Apply a set of optimization rewrites to a logical plan: predicate pushdown
/// (push filters below projects), and limit pushdown.
pub fn optimize(logical: LogicalNode) -> (r: LogicalNode)
    ensures
        node(r) == optimized(node(logical)),
    decreases logical,
{
    match logical {
        LogicalNode::Filter { input, col, op, value } => {
            let input = optimize(*input);
            match input {
                LogicalNode::Project { input: p, cols } => {
                    let ghost below = node(*p);
                    if keeps_place(&cols) {
                        let f = LogicalNode::Filter { input: p, col, op, value };
                        assert(node(f) == Node::Filter(Box::new(below), col, op@, value));
                        LogicalNode::Project { input: Box::new(f), cols }
                    } else {
                        let q = LogicalNode::Project { input: p, cols };
                        assert(node(q) == Node::Project(Box::new(below), cols@));
                        LogicalNode::Filter { input: Box::new(q), col, op, value }
                    }
                },
                other => LogicalNode::Filter { input: Box::new(other), col, op, value },
            }
        },
        LogicalNode::Limit { input, n } => {
            let input = optimize(*input);
            match input {
                LogicalNode::Sort { input: s, keys } => {
                    let ghost below = node(*s);
                    let l = LogicalNode::Limit { input: s, n };
                    assert(node(l) == Node::Limit(Box::new(below), n));
                    LogicalNode::Sort { input: Box::new(l), keys }
                },
                other => LogicalNode::Limit { input: Box::new(other), n },
            }
        },
        other => other,
    }
}

/// How a filter is planned. An equality on an indexed column, right over a scan, becomes
/// that scan by index for its value; any other filter stands over what its input is
/// planned as. It keeps of the estimate what the column's equality keeps, or a tenth
/// where that is not known; three tenths for a range; and a half otherwise.
pub proof fn lemma_filter_planned(
    i: Node,
    col: usize,
    op: Seq<char>,
    v: Value,
    stats: PlanStats,
    reals: numeric::RealFacts,
)
    requires
        planned(Node::Filter(Box::new(i), col, op, v), stats, reals) is Ok,
    ensures
        planned(i, stats, reals) is Ok,
        ({
            let s = planned(i, stats, reals)->Ok_0;
            let t = planned(Node::Filter(Box::new(i), col, op, v), stats, reals)->Ok_0;
            let by_index = op == seq!['='] && col < stats.indexed_cols@.len() && stats.indexed_cols@[col as int] && s is Scan;
            let ranged = op == seq!['<'] || op == seq!['>'] || op == seq!['<', '='] || op == seq!['>', '='];
            &&& by_index ==> t == Step::Scan(s->Scan_0, ScanPath::IndexEq { col, value: v }, est(t))
            &&& !by_index ==> t == Step::Filter(Box::new(s), est(t))
            &&& op == seq!['='] && col < stats.eq_selectivity@.len() ==> numeric::real_op(
                ArithOp::Mul,
                est(s),
                stats.eq_selectivity@[col as int],
                reals,
            ) == Ok::<u64, numeric::Need>(est(t))
            &&& op == seq!['='] && col >= stats.eq_selectivity@.len() ==> numeric::real_op(ArithOp::Mul, est(s), TENTH, reals)
                == Ok::<u64, numeric::Need>(est(t))
            &&& ranged ==> numeric::real_op(ArithOp::Mul, est(s), THREE_TENTHS, reals) == Ok::<u64, numeric::Need>(est(t))
            &&& op != seq!['='] && !ranged ==> numeric::real_op(ArithOp::Mul, est(s), HALF, reals) == Ok::<u64, numeric::Need>(
                est(t),
            )
        }),
{
    reveal_strlit("=");
    reveal_strlit("<");
    reveal_strlit(">");
    reveal_strlit("<=");
    reveal_strlit(">=");
    assert("="@ =~= seq!['=']);
    assert("<"@ =~= seq!['<']);
    assert(">"@ =~= seq!['>']);
    assert("<="@ =~= seq!['<', '=']);
    assert(">="@ =~= seq!['>', '=']);
    assert("="@[0] != "<"@[0] && "="@[0] != ">"@[0]);
    assert("="@.len() == 1 && "<="@.len() == 2 && ">="@.len() == 2);
}

/// How a join is made of its two sides: by hash where a side is estimated at ten
/// thousand rows or fewer; else by sorting where both together stay below a million; else
/// by nested loops.
#[verifier::spinoff_prover]
pub proof fn lemma_join_chosen(a: Step, b: Step, e: u64, both: u64)
    requires
        !value::is_nan(est(a)),
        !value::is_nan(est(b)),
    ensures
        ({
            let few = |x: u64| numeric::real_less(x, SMALL);
            let many = |x: u64| numeric::real_less(SMALL, x);
            let t = join_step(a, b, e, both);
            &&& est(t) == e
            &&& few(est(a)) || few(est(b)) || est(a) == SMALL && many(est(b)) || est(b) == SMALL && many(est(a)) ==> t
                == Step::HashJoin(Box::new(a), Box::new(b), e)
            &&& many(est(a)) && many(est(b)) && numeric::real_less(both, MILLION) ==> t == Step::SortMergeJoin(
                Box::new(a),
                Box::new(b),
                e,
            )
            &&& many(est(a)) && many(est(b)) && !numeric::real_less(both, MILLION) ==> t == Step::NestedLoopJoin(
                Box::new(a),
                Box::new(b),
                e,
            )
        }),
{
    assert(!value::is_nan(SMALL));
}

/// A planned join stands over its two sides as they are planned.
#[verifier::spinoff_prover]
#[verifier::rlimit(60)]
pub proof fn lemma_join_planned(l: Node, r: Node, lc: usize, rc: usize, stats: PlanStats, reals: numeric::RealFacts)
    requires
        planned(Node::Join(Box::new(l), Box::new(r), lc, rc), stats, reals) is Ok,
    ensures
        planned(l, stats, reals) is Ok,
        planned(r, stats, reals) is Ok,
        ({
            let a = planned(l, stats, reals)->Ok_0;
            let b = planned(r, stats, reals)->Ok_0;
            let t = planned(Node::Join(Box::new(l), Box::new(r), lc, rc), stats, reals)->Ok_0;
            let both = numeric::real_op(ArithOp::Add, est(a), est(b), reals);
            both is Ok && t == join_step(a, b, est(t), both->Ok_0)
        }),
{
}

/// A projection and a sort keep the estimate of their input; a limit has no more than its
/// input and no more than it lets through; a table has the rows of the statistics.
pub proof fn lemma_others_planned(
    i: Node,
    cols: Seq<usize>,
    keys: Seq<(usize, bool)>,
    k: usize,
    t: Seq<char>,
    stats: PlanStats,
    reals: numeric::RealFacts,
)
    requires
        planned(i, stats, reals) is Ok,
    ensures
        ({
            let s = planned(i, stats, reals)->Ok_0;
            &&& planned(Node::Project(Box::new(i), cols), stats, reals) == Ok::<Step, numeric::Need>(
                Step::Project(Box::new(s), cols, est(s)),
            )
            &&& planned(Node::Sort(Box::new(i), keys), stats, reals) == Ok::<Step, numeric::Need>(
                Step::Sort(Box::new(s), est(s)),
            )
            &&& planned(Node::Limit(Box::new(i), k), stats, reals) matches Ok(Step::Limit(c, n, e)) && *c == s && n == k && (
            !value::is_nan(est(s)) && !value::is_nan(value::real_of_nat(k as nat) as u64) ==> !numeric::real_less(est(s), e)
                && !numeric::real_less(value::real_of_nat(k as nat) as u64, e) && (e == est(s) || e == value::real_of_nat(
                k as nat,
            ) as u64))
            &&& planned(Node::Scan(t), stats, reals) matches Ok(Step::Scan(_, path, e)) && path == ScanPath::Sequential && e
                == stats.table_rows
        }),
{
    reveal_with_fuel(planned, 2);
}

/// What the rewrites move: a filter goes below a projection only where every column is in
/// its place below as it is above; otherwise it stays over what its input became. A limit
/// goes below a sort, and otherwise stays as well.
pub proof fn lemma_moved(i: Node, col: usize, op: Seq<char>, v: Value, k: usize)
    ensures
        optimized(Node::Filter(Box::new(i), col, op, v)) matches Node::Project(f, cols) ==> {
            &&& forall|j: int| 0 <= j < cols.len() ==> #[trigger] cols[j] == j
            &&& *f matches Node::Filter(p, c, o, w) && c == col && o == op && w == v && optimized(i) == Node::Project(p, cols)
        },
        optimized(Node::Filter(Box::new(i), col, op, v)) !is Project ==> optimized(Node::Filter(Box::new(i), col, op, v))
            == Node::Filter(Box::new(optimized(i)), col, op, v),
        optimized(Node::Limit(Box::new(i), k)) matches Node::Sort(m, keys) ==> (*m matches Node::Limit(p, n) && n == k
            && optimized(i) == Node::Sort(p, keys)),
        optimized(Node::Limit(Box::new(i), k)) !is Sort ==> optimized(Node::Limit(Box::new(i), k)) == Node::Limit(
            Box::new(optimized(i)),
            k,
        ),
{
    reveal_with_fuel(optimized, 2);
}

/// The numbers that the planner goes by: a half, ten, ten thousand and a million.
pub proof fn lemma_thresholds()
    ensures
        2 * value::real_key(HALF) == value::int_key(1),
        value::real_key(TEN) == value::int_key(10),
        value::real_key(SMALL) == value::int_key(10000),
        value::real_key(MILLION) == value::int_key(1000000),
{
    let p = bits::pow2(1074) as int;
    lemma_binary(HALF, 1, 53, 1021);
    lemma_binary(TEN, 10, 49, 1025);
    lemma_binary(SMALL, 10000, 39, 1035);
    lemma_binary(MILLION, 1000000, 33, 1041);
}

/// A real whose significand is a number times a power of two.
proof fn lemma_binary(b: u64, n: int, k: nat, e: nat)
    requires
        b < 0x8000_0000_0000_0000,
        value::exponent(b) == e + 1,
        k + e == 1074,
        (k == 53 && n == 1 && value::fraction(b) == 0) || (k == 49 && value::fraction(b) + 0x10_0000_0000_0000 == n
            * 0x2_0000_0000_0000) || (k == 39 && value::fraction(b) + 0x10_0000_0000_0000 == n * 0x80_0000_0000) || (k == 33
            && value::fraction(b) + 0x10_0000_0000_0000 == n * 0x2_0000_0000),
    ensures
        k == 53 ==> 2 * value::real_key(b) == value::int_key(1),
        k != 53 ==> value::real_key(b) == n * bits::pow2(1074),
{
    bits::lemma_pow2_values();
    bits::lemma_pow2_add(k, e);
    bits::lemma_pow2_add(32, 16);
    bits::lemma_pow2_add(48, 3);
    reveal_with_fuel(bits::pow2, 9);
    bits::lemma_pow2_add(32, 1);
    bits::lemma_pow2_add(32, 7);
    bits::lemma_pow2_add(48, 1);
    bits::lemma_pow2_add(48, 5);
    let a = (value::fraction(b) + 0x10_0000_0000_0000) as int;
    let x = bits::pow2(k) as int;
    let y = bits::pow2(e) as int;
    let t = bits::pow2(1074) as int;
    assert(t == x * y);
    if k == 53 {
        assert(2 * a == x);
        assert(2 * (a * y) == t) by (nonlinear_arith)
            requires
                2 * a == x,
                t == x * y,
        ;
    } else {
        assert(a == n * x);
        assert(a * y == n * t) by (nonlinear_arith)
            requires
                a == n * x,
                t == x * y,
        ;
    }
}

} // verus!
