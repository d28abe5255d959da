//! A cardinality and cost model for logical plans.
//!
//! Choosing between physical operators (hash vs. merge join, index vs. full
//! scan) needs an estimate of how many rows each plan node produces and how
//! much work it costs. This module walks a [`LogicalPlan`] bottom-up, deriving
//! output cardinalities from base-table statistics and predicate selectivity,
//! and assigns each node a cost in abstract units (CPU touches plus a page-I/O
//! surcharge). The selectivity rules are the textbook defaults: equality is
//! `1/ndv`, range is a third, conjunction multiplies, disjunction adds and
//! subtracts the overlap. Reals are held as bits; arithmetic on them is looked up
//! in a [`Reals`] table, and an estimate that lacks an entry says which one it
//! needs.
use vstd::prelude::*;

use crate::logical;
use crate::logical::LogicalPlan;
use crate::numeric;
use crate::numeric::{ArithOp, ONE, RealFn, RealNeed, Reals};
use crate::sql;
use crate::sql::{BinOp, Expr, UnaryOp};
use crate::text;
use crate::value;

verus! {

pub const ZERO: u64 = 0;

/// One twentieth: the share of the rows where a value is null.
pub const TWENTIETH: u64 = 0x3FA9_9999_9999_999A;

/// One tenth: the share an equality keeps where no column is named.
pub const TENTH: u64 = 0x3FB9_9999_9999_999A;

/// One fifth: the share a pattern keeps.
pub const FIFTH: u64 = 0x3FC9_9999_9999_999A;

/// One quarter: the share a pair of bounds keeps.
pub const QUARTER: u64 = 0x3FD0_0000_0000_0000;

/// A third, to four places: the share a comparison keeps.
pub const THIRD: u64 = 0x3FD5_54C9_85F0_6F69;

/// One half: the share any other predicate keeps.
pub const HALF: u64 = 0x3FE0_0000_0000_0000;

/// Nine tenths: the share an inequality keeps where no column is named.
pub const NINE_TENTHS: u64 = 0x3FEC_CCCC_CCCC_CCCD;

/// The share of the rows where a value is not null.
pub const NINETEEN_TWENTIETHS: u64 = 0x3FEE_6666_6666_6666;

pub const TWO: u64 = 0x4000_0000_0000_0000;

/// Cost multiplier for a page fault relative to a CPU row touch: four.
pub const IO_WEIGHT: u64 = 0x4010_0000_0000_0000;

/// The rows of a table of which nothing is known: a thousand.
pub const UNKNOWN_ROWS: u64 = 0x408F_4000_0000_0000;

// Chains of looked-up reals

/// An operation on two results; the first need stands.
pub open spec fn combined(
    op: ArithOp,
    a: Result<u64, numeric::Need>,
    b: Result<u64, numeric::Need>,
    reals: numeric::RealFacts,
) -> Result<u64, numeric::Need> {
    match a {
        Err(x) => Err(x),
        Ok(p) => match b {
            Err(y) => Err(y),
            Ok(q) => numeric::real_op(op, p, q, reals),
        },
    }
}

/// A result raised to a floor.
pub open spec fn raised(a: Result<u64, numeric::Need>, floor: u64) -> Result<u64, numeric::Need> {
    match a {
        Err(x) => Err(x),
        Ok(p) => Ok(numeric::real_max(p, floor)),
    }
}

/// A result brought between zero and a bound.
pub open spec fn bounded(a: Result<u64, numeric::Need>, hi: u64) -> Result<u64, numeric::Need> {
    match a {
        Err(x) => Err(x),
        Ok(p) => Ok(numeric::real_clamp(p, ZERO, hi)),
    }
}

fn combine(op: ArithOp, a: Result<u64, RealNeed>, b: Result<u64, RealNeed>, reals: &Reals) -> (r: Result<
    u64,
    RealNeed,
>)
    ensures
        numeric::asked(r) == combined(op, numeric::asked(a), numeric::asked(b), reals@),
{
    match a {
        Err(x) => Err(x),
        Ok(p) => match b {
            Err(y) => Err(y),
            Ok(q) => numeric::do_real_op(op, p, q, reals),
        },
    }
}

fn raise(a: Result<u64, RealNeed>, floor: u64) -> (r: Result<u64, RealNeed>)
    ensures
        numeric::asked(r) == raised(numeric::asked(a), floor),
{
    match a {
        Err(x) => Err(x),
        Ok(p) => Ok(numeric::max_real(p, floor)),
    }
}

fn bound(a: Result<u64, RealNeed>, hi: u64) -> (r: Result<u64, RealNeed>)
    ensures
        numeric::asked(r) == bounded(numeric::asked(a), hi),
{
    match a {
        Err(x) => Err(x),
        Ok(p) => Ok(numeric::clamp_real(p, ZERO, hi)),
    }
}

// Statistics

/// Per-table statistics the estimator consults.
#[derive(Debug, Clone)]
pub struct TableStats {
    /// How many rows there are, as the bits of a real.
    pub row_count: u64,
    /// Distinct value counts per column name (for equality selectivity), as the
    /// bits of reals; a later count stands before an earlier one.
    pub ndv: Vec<(String, u64)>,
}

/// What is known of a table.
#[verifier::ext_equal]
pub struct Facts {
    pub rows: u64,
    pub ndv: Map<Seq<char>, u64>,
}

/// The counts of a list; a later one stands before an earlier one.
pub open spec fn counts(v: Seq<(String, u64)>) -> Map<Seq<char>, u64>
    decreases v.len(),
{
    if v.len() == 0 {
        Map::empty()
    } else {
        counts(v.drop_last()).insert(v.last().0@, v.last().1)
    }
}

impl View for TableStats {
    type V = Facts;

    open spec fn view(&self) -> Facts {
        Facts { rows: self.row_count, ndv: counts(self.ndv@) }
    }
}

/// How many distinct values a column has: as told, or else the root of the row
/// count, and at least one.
pub open spec fn distinct(f: Facts, column: Seq<char>, reals: numeric::RealFacts) -> Result<u64, numeric::Need> {
    if f.ndv.contains_key(column) {
        Ok(f.ndv[column])
    } else {
        raised(numeric::real_fn(RealFn::Sqrt, numeric::real_max(f.rows, ONE), reals), ONE)
    }
}

/// What is known of a table of so many rows.
pub open spec fn plain(rows: nat) -> Facts {
    Facts { rows: value::real_of_nat(rows) as u64, ndv: Map::empty() }
}

impl TableStats {
    /// Stats for a table of `rows` rows with no per-column detail.
    pub fn new(rows: u64) -> (r: TableStats)
        ensures
            r@ == plain(rows as nat),
    {
        TableStats { row_count: value::nat_to_real(rows), ndv: Vec::new() }
    }

    /// Builder: set a column's distinct-value count.
    pub fn with_ndv(self, column: &str, ndv: u64) -> (r: TableStats)
        ensures
            r@.rows == self@.rows,
            r@.ndv == self@.ndv.insert(
                column@,
                value::real_of_nat(
                    if ndv > 1 {
                        ndv as nat
                    } else {
                        1
                    },
                ) as u64,
            ),
    {
        let n: u64 = if ndv > 1 {
            ndv
        } else {
            1
        };
        let c = text::chars_of(column);
        let mut list = self.ndv;
        let ghost was = list@;
        list.push((text::string_of(&c), value::nat_to_real(n)));
        assert(list@.drop_last() =~= was);
        TableStats { row_count: self.row_count, ndv: list }
    }

    fn ndv_of(&self, column: &str, reals: &Reals) -> (r: Result<u64, RealNeed>)
        ensures
            numeric::asked(r) == distinct(self@, column@, reals@),
    {
        let mut i: usize = self.ndv.len();
        assert(self.ndv@.take(i as int) =~= self.ndv@);
        while i > 0
            invariant
                i <= self.ndv@.len(),
                counts(self.ndv@).contains_key(column@) == counts(self.ndv@.take(i as int)).contains_key(column@),
                counts(self.ndv@).contains_key(column@) ==> counts(self.ndv@)[column@] == counts(
                    self.ndv@.take(i as int),
                )[column@],
            decreases i,
        {
            i -= 1;
            assert(self.ndv@.take(i + 1).drop_last() =~= self.ndv@.take(i as int));
            if text::same_text(self.ndv[i].0.as_str(), column) {
                return Ok(self.ndv[i].1);
            }
        }
        let root = numeric::do_real_fn(RealFn::Sqrt, numeric::max_real(self.row_count, ONE), reals);
        raise(root, ONE)
    }
}

/// The estimator, holding a catalog of table statistics.
#[derive(Debug, Clone)]
pub struct CostModel {
    /// Statistics by table name; later ones stand before earlier ones.
    pub stats: Vec<(String, TableStats)>,
}

/// The statistics of a list; later ones stand before earlier ones.
pub open spec fn tables(v: Seq<(String, TableStats)>) -> Map<Seq<char>, Facts>
    decreases v.len(),
{
    if v.len() == 0 {
        Map::empty()
    } else {
        tables(v.drop_last()).insert(v.last().0@, v.last().1@)
    }
}

impl View for CostModel {
    type V = Map<Seq<char>, Facts>;

    open spec fn view(&self) -> Map<Seq<char>, Facts> {
        tables(self.stats@)
    }
}

/// The estimated cardinality and cost of a plan node, as the bits of reals.
#[derive(Debug, Clone, Copy, PartialEq, Eq, Structural)]
pub struct Estimate {
    pub rows: u64,
    pub cost: u64,
}

// Selectivity

/// The column an expression names.
pub open spec fn column_of(e: sql::Node) -> Option<Seq<char>> {
    match e {
        sql::Node::Column(c) => Some(c),
        sql::Node::Qualified(_, c) => Some(c),
        _ => None,
    }
}

/// The column that one of two expressions names; the left one goes first.
pub open spec fn compared(l: sql::Node, r: sql::Node) -> Option<Seq<char>> {
    match column_of(l) {
        Some(c) => Some(c),
        None => column_of(r),
    }
}

/// The share of a table's rows that a predicate keeps.
pub open spec fn kept(e: sql::Node, f: Facts, reals: numeric::RealFacts) -> Result<u64, numeric::Need>
    decreases e,
{
    match e {
        sql::Node::LitBool(b) => if b {
            Ok(ONE)
        } else {
            Ok(ZERO)
        },
        sql::Node::Binary(op, l, r) => match op {
            BinOp::And => combined(ArithOp::Mul, kept(*l, f, reals), kept(*r, f, reals), reals),
            BinOp::Or => {
                let a = kept(*l, f, reals);
                let b = kept(*r, f, reals);
                bounded(
                    combined(
                        ArithOp::Sub,
                        combined(ArithOp::Add, a, b, reals),
                        combined(ArithOp::Mul, a, b, reals),
                        reals,
                    ),
                    ONE,
                )
            },
            BinOp::Eq => match compared(*l, *r) {
                Some(c) => bounded(combined(ArithOp::Div, Ok(ONE), distinct(f, c, reals), reals), ONE),
                None => Ok(TENTH),
            },
            BinOp::NotEq => match compared(*l, *r) {
                Some(c) => bounded(
                    combined(
                        ArithOp::Sub,
                        Ok(ONE),
                        combined(ArithOp::Div, Ok(ONE), distinct(f, c, reals), reals),
                        reals,
                    ),
                    ONE,
                ),
                None => Ok(NINE_TENTHS),
            },
            BinOp::Lt => Ok(THIRD),
            BinOp::LtEq => Ok(THIRD),
            BinOp::Gt => Ok(THIRD),
            BinOp::GtEq => Ok(THIRD),
            _ => Ok(HALF),
        },
        sql::Node::Between(_, _, _) => Ok(QUARTER),
        sql::Node::InList(_, list) => bounded(
            combined(ArithOp::Mul, Ok(TENTH), Ok(value::real_of_nat(list.len()) as u64), reals),
            NINE_TENTHS,
        ),
        sql::Node::Like(_, _) => Ok(FIFTH),
        sql::Node::IsNull(_, not) => if not {
            Ok(NINETEEN_TWENTIETHS)
        } else {
            Ok(TWENTIETH)
        },
        sql::Node::Unary(op, a) => match op {
            UnaryOp::Not => combined(ArithOp::Sub, Ok(ONE), kept(*a, f, reals), reals),
            UnaryOp::Neg => Ok(HALF),
        },
        _ => Ok(HALF),
    }
}

fn column_name(e: &Expr) -> (r: Option<&String>)
    ensures
        match r {
            Some(c) => column_of(sql::node(*e)) == Some(c@),
            None => column_of(sql::node(*e)) is None,
        },
{
    match e {
        Expr::Column(c) => Some(c),
        Expr::Qualified(_, c) => Some(c),
        _ => None,
    }
}

fn compared_column<'a>(l: &'a Expr, r: &'a Expr) -> (res: Option<&'a String>)
    ensures
        match res {
            Some(c) => compared(sql::node(*l), sql::node(*r)) == Some(c@),
            None => compared(sql::node(*l), sql::node(*r)) is None,
        },
{
    match column_name(l) {
        Some(c) => Some(c),
        None => column_name(r),
    }
}

// Estimates

/// What is known of a plan's table, where the plan is a scan of one; else a table
/// of a thousand rows.
pub open spec fn below(m: Map<Seq<char>, Facts>, p: logical::Plan) -> Facts {
    match p {
        logical::Plan::Scan(t, _) => if m.contains_key(t) {
            m[t]
        } else {
            plain(1000)
        },
        _ => plain(1000),
    }
}

/// The share of a cross product that a join keeps.
pub open spec fn joined_share(on: sql::Node, l: u64, r: u64, reals: numeric::RealFacts) -> Result<
    u64,
    numeric::Need,
> {
    match on {
        sql::Node::Binary(op, _, _) => if op == BinOp::Eq {
            combined(ArithOp::Div, Ok(ONE), Ok(numeric::real_max(numeric::real_max(l, r), ONE)), reals)
        } else {
            Ok(THIRD)
        },
        _ => Ok(THIRD),
    }
}

/// An estimate from its two parts; the first need stands.
pub open spec fn paired(rows: Result<u64, numeric::Need>, cost: Result<u64, numeric::Need>) -> Result<
    Estimate,
    numeric::Need,
> {
    match rows {
        Err(x) => Err(x),
        Ok(r) => match cost {
            Err(x) => Err(x),
            Ok(c) => Ok(Estimate { rows: r, cost: c }),
        },
    }
}

/// The estimate of a plan.
pub open spec fn estimated(m: Map<Seq<char>, Facts>, p: logical::Plan, reals: numeric::RealFacts) -> Result<
    Estimate,
    numeric::Need,
>
    decreases p,
{
    match p {
        logical::Plan::EmptyRelation => Ok(Estimate { rows: ZERO, cost: ZERO }),
        logical::Plan::Scan(t, _) => {
            let rows = if m.contains_key(t) {
                m[t].rows
            } else {
                UNKNOWN_ROWS
            };
            paired(Ok(rows), combined(ArithOp::Mul, Ok(rows), Ok(IO_WEIGHT), reals))
        },
        logical::Plan::Filter(predicate, input) => match estimated(m, *input, reals) {
            Err(x) => Err(x),
            Ok(c) => paired(
                raised(combined(ArithOp::Mul, Ok(c.rows), kept(predicate, below(m, *input), reals), reals), ZERO),
                combined(ArithOp::Add, Ok(c.cost), Ok(c.rows), reals),
            ),
        },
        logical::Plan::Project(_, input) => match estimated(m, *input, reals) {
            Err(x) => Err(x),
            Ok(c) => paired(Ok(c.rows), combined(ArithOp::Add, Ok(c.cost), Ok(c.rows), reals)),
        },
        logical::Plan::Aggregate(group_by, _, input) => match estimated(m, *input, reals) {
            Err(x) => Err(x),
            Ok(c) => paired(
                if group_by.len() == 0 {
                    Ok(ONE)
                } else {
                    raised(numeric::real_fn(RealFn::Sqrt, c.rows, reals), ONE)
                },
                combined(ArithOp::Add, Ok(c.cost), combined(ArithOp::Mul, Ok(c.rows), Ok(TWO), reals), reals),
            ),
        },
        logical::Plan::Join(_, on, left, right) => match estimated(m, *left, reals) {
            Err(x) => Err(x),
            Ok(l) => match estimated(m, *right, reals) {
                Err(x) => Err(x),
                Ok(r) => paired(
                    raised(
                        combined(
                            ArithOp::Mul,
                            combined(ArithOp::Mul, Ok(l.rows), Ok(r.rows), reals),
                            joined_share(on, l.rows, r.rows, reals),
                            reals,
                        ),
                        ZERO,
                    ),
                    combined(
                        ArithOp::Add,
                        combined(
                            ArithOp::Add,
                            combined(ArithOp::Add, Ok(l.cost), Ok(r.cost), reals),
                            Ok(l.rows),
                            reals,
                        ),
                        Ok(r.rows),
                        reals,
                    ),
                ),
            },
        },
        logical::Plan::Sort(_, input) => match estimated(m, *input, reals) {
            Err(x) => Err(x),
            Ok(c) => {
                let n = numeric::real_max(c.rows, ONE);
                paired(
                    Ok(c.rows),
                    combined(
                        ArithOp::Add,
                        Ok(c.cost),
                        combined(
                            ArithOp::Mul,
                            Ok(n),
                            raised(numeric::real_fn(RealFn::Log2, n, reals), ONE),
                            reals,
                        ),
                        reals,
                    ),
                )
            },
        },
        logical::Plan::Limit(limit, _, input) => match estimated(m, *input, reals) {
            Err(x) => Err(x),
            Ok(c) => Ok(
                Estimate {
                    rows: match limit {
                        Some(l) => numeric::real_min(c.rows, value::real_of_int(l)),
                        None => c.rows,
                    },
                    cost: c.cost,
                },
            ),
        },
        logical::Plan::Distinct(input) => match estimated(m, *input, reals) {
            Err(x) => Err(x),
            Ok(c) => paired(
                raised(numeric::real_fn(RealFn::Sqrt, c.rows, reals), ONE),
                combined(ArithOp::Add, Ok(c.cost), Ok(c.rows), reals),
            ),
        },
    }
}

/// What estimating gave.
pub open spec fn told(r: Result<Estimate, RealNeed>) -> Result<Estimate, numeric::Need> {
    match r {
        Ok(e) => Ok(e),
        Err(n) => Err(n@),
    }
}

fn pair(rows: Result<u64, RealNeed>, cost: Result<u64, RealNeed>) -> (r: Result<Estimate, RealNeed>)
    ensures
        told(r) == paired(numeric::asked(rows), numeric::asked(cost)),
{
    match rows {
        Err(x) => Err(x),
        Ok(r) => match cost {
            Err(x) => Err(x),
            Ok(c) => Ok(Estimate { rows: r, cost: c }),
        },
    }
}

fn join_selectivity(on: &Expr, left_rows: u64, right_rows: u64, reals: &Reals) -> (r: Result<u64, RealNeed>)
    ensures
        numeric::asked(r) == joined_share(sql::node(*on), left_rows, right_rows, reals@),
{
    match on {
        Expr::Binary(op, _, _) => if *op == BinOp::Eq {
            let most = numeric::max_real(numeric::max_real(left_rows, right_rows), ONE);
            combine(ArithOp::Div, Ok(ONE), Ok(most), reals)
        } else {
            Ok(THIRD)
        },
        _ => Ok(THIRD),
    }
}

impl CostModel {
    /// A model with no statistics.
    pub fn new() -> (r: CostModel)
        ensures
            r@ == Map::<Seq<char>, Facts>::empty(),
    {
        CostModel { stats: Vec::new() }
    }

    /// Register statistics for a table.
    pub fn set_stats(&mut self, table: &str, stats: TableStats)
        ensures
            final(self)@ == old(self)@.insert(table@, stats@),
    {
        let c = text::chars_of(table);
        let ghost was = self.stats@;
        self.stats.push((text::string_of(&c), stats));
        assert(self.stats@.drop_last() =~= was);
    }

    fn stats_of(&self, table: &str) -> (r: Option<&TableStats>)
        ensures
            match r {
                Some(s) => self@.contains_key(table@) && self@[table@] == s@,
                None => !self@.contains_key(table@),
            },
    {
        let mut i: usize = self.stats.len();
        assert(self.stats@.take(i as int) =~= self.stats@);
        while i > 0
            invariant
                i <= self.stats@.len(),
                tables(self.stats@).contains_key(table@) == tables(self.stats@.take(i as int)).contains_key(table@),
                tables(self.stats@).contains_key(table@) ==> tables(self.stats@)[table@] == tables(
                    self.stats@.take(i as int),
                )[table@],
            decreases i,
        {
            i -= 1;
            assert(self.stats@.take(i + 1).drop_last() =~= self.stats@.take(i as int));
            if text::same_text(self.stats[i].0.as_str(), table) {
                return Some(&self.stats[i].1);
            }
        }
        None
    }

    /// Selectivity of a boolean predicate against a table's stats.
    #[verifier::rlimit(40)]
    pub fn selectivity(&self, predicate: &Expr, stats: &TableStats, reals: &Reals) -> (r: Result<u64, RealNeed>)
        ensures
            numeric::asked(r) == kept(sql::node(*predicate), stats@, reals@),
        decreases predicate,
    {
        match predicate {
            Expr::LitBool(b) => if *b {
                Ok(ONE)
            } else {
                Ok(ZERO)
            },
            Expr::Binary(op, l, r) => match op {
                BinOp::And => {
                    let a = self.selectivity(l, stats, reals);
                    let b = self.selectivity(r, stats, reals);
                    combine(ArithOp::Mul, a, b, reals)
                },
                BinOp::Or => {
                    let a = match self.selectivity(l, stats, reals) {
                        Ok(a) => a,
                        Err(x) => return Err(x),
                    };
                    let b = match self.selectivity(r, stats, reals) {
                        Ok(b) => b,
                        Err(x) => return Err(x),
                    };
                    let sum = combine(ArithOp::Add, Ok(a), Ok(b), reals);
                    let overlap = combine(ArithOp::Mul, Ok(a), Ok(b), reals);
                    bound(combine(ArithOp::Sub, sum, overlap, reals), ONE)
                },
                BinOp::Eq => match compared_column(l, r) {
                    Some(c) => {
                        let n = stats.ndv_of(c.as_str(), reals);
                        bound(combine(ArithOp::Div, Ok(ONE), n, reals), ONE)
                    },
                    None => Ok(TENTH),
                },
                BinOp::NotEq => match compared_column(l, r) {
                    Some(c) => {
                        let n = stats.ndv_of(c.as_str(), reals);
                        let one = combine(ArithOp::Div, Ok(ONE), n, reals);
                        bound(combine(ArithOp::Sub, Ok(ONE), one, reals), ONE)
                    },
                    None => Ok(NINE_TENTHS),
                },
                BinOp::Lt => Ok(THIRD),
                BinOp::LtEq => Ok(THIRD),
                BinOp::Gt => Ok(THIRD),
                BinOp::GtEq => Ok(THIRD),
                _ => Ok(HALF),
            },
            Expr::Between(_, _, _) => Ok(QUARTER),
            Expr::InList(_, list) => {
                proof {
                    sql::lemma_nodes(list@);
                }
                let n = value::nat_to_real(list.len() as u64);
                bound(combine(ArithOp::Mul, Ok(TENTH), Ok(n), reals), NINE_TENTHS)
            },
            Expr::Like(_, _) => Ok(FIFTH),
            Expr::IsNull(_, not) => if *not {
                Ok(NINETEEN_TWENTIETHS)
            } else {
                Ok(TWENTIETH)
            },
            Expr::Unary(op, a) => match op {
                UnaryOp::Not => {
                    let s = self.selectivity(a, stats, reals);
                    combine(ArithOp::Sub, Ok(ONE), s, reals)
                },
                UnaryOp::Neg => Ok(HALF),
            },
            _ => Ok(HALF),
        }
    }

    fn filter_selectivity(&self, predicate: &Expr, input: &LogicalPlan, reals: &Reals) -> (r: Result<u64, RealNeed>)
        ensures
            numeric::asked(r) == kept(sql::node(*predicate), below(self@, logical::plan(*input)), reals@),
    {
        match input {
            LogicalPlan::Scan { table, alias: _ } => match self.stats_of(table.as_str()) {
                Some(stats) => return self.selectivity(predicate, stats, reals),
                None => {},
            },
            _ => {},
        }
        let default = TableStats::new(1000);
        self.selectivity(predicate, &default, reals)
    }

    /// Estimate the whole plan.
    #[verifier::rlimit(60)]
    pub fn estimate(&self, plan: &LogicalPlan, reals: &Reals) -> (r: Result<Estimate, RealNeed>)
        ensures
            told(r) == estimated(self@, logical::plan(*plan), reals@),
        decreases plan,
    {
        match plan {
            LogicalPlan::EmptyRelation => Ok(Estimate { rows: ZERO, cost: ZERO }),
            LogicalPlan::Scan { table, alias: _ } => {
                let rows = match self.stats_of(table.as_str()) {
                    Some(s) => s.row_count,
                    None => UNKNOWN_ROWS,
                };
                let cost = combine(ArithOp::Mul, Ok(rows), Ok(IO_WEIGHT), reals);
                pair(Ok(rows), cost)
            },
            LogicalPlan::Filter { predicate, input } => match self.estimate(input, reals) {
                Err(x) => Err(x),
                Ok(child) => {
                    let sel = self.filter_selectivity(predicate, input, reals);
                    let rows = raise(combine(ArithOp::Mul, Ok(child.rows), sel, reals), ZERO);
                    // one touch per input row
                    let cost = combine(ArithOp::Add, Ok(child.cost), Ok(child.rows), reals);
                    pair(rows, cost)
                },
            },
            LogicalPlan::Project { exprs: _, input } => match self.estimate(input, reals) {
                Err(x) => Err(x),
                Ok(child) => {
                    let cost = combine(ArithOp::Add, Ok(child.cost), Ok(child.rows), reals);
                    pair(Ok(child.rows), cost)
                },
            },
            LogicalPlan::Aggregate { group_by, aggregates: _, input } => match self.estimate(input, reals) {
                Err(x) => Err(x),
                Ok(child) => {
                    proof {
                        sql::lemma_nodes(group_by@);
                    }
                    let groups = if group_by.len() == 0 {
                        Ok(ONE)
                    } else {
                        // Heuristic: distinct groups ~ sqrt of input rows.
                        raise(numeric::do_real_fn(RealFn::Sqrt, child.rows, reals), ONE)
                    };
                    let touched = combine(ArithOp::Mul, Ok(child.rows), Ok(TWO), reals);
                    pair(groups, combine(ArithOp::Add, Ok(child.cost), touched, reals))
                },
            },
            LogicalPlan::Join { kind: _, on, left, right } => match self.estimate(left, reals) {
                Err(x) => Err(x),
                Ok(l) => match self.estimate(right, reals) {
                    Err(x) => Err(x),
                    Ok(r) => {
                        let sel = join_selectivity(on, l.rows, r.rows, reals);
                        let cross = combine(ArithOp::Mul, Ok(l.rows), Ok(r.rows), reals);
                        let rows = raise(combine(ArithOp::Mul, cross, sel, reals), ZERO);
                        let inputs = combine(ArithOp::Add, Ok(l.cost), Ok(r.cost), reals);
                        let touched = combine(ArithOp::Add, inputs, Ok(l.rows), reals);
                        pair(rows, combine(ArithOp::Add, touched, Ok(r.rows), reals))
                    },
                },
            },
            LogicalPlan::Sort { keys: _, input } => match self.estimate(input, reals) {
                Err(x) => Err(x),
                Ok(child) => {
                    let n = numeric::max_real(child.rows, ONE);
                    let depth = raise(numeric::do_real_fn(RealFn::Log2, n, reals), ONE);
                    let work = combine(ArithOp::Mul, Ok(n), depth, reals);
                    pair(Ok(child.rows), combine(ArithOp::Add, Ok(child.cost), work, reals))
                },
            },
            LogicalPlan::Limit { limit, offset: _, input } => match self.estimate(input, reals) {
                Err(x) => Err(x),
                Ok(child) => {
                    let rows = match limit {
                        Some(l) => numeric::min_real(child.rows, value::to_real(*l)),
                        None => child.rows,
                    };
                    Ok(Estimate { rows, cost: child.cost })
                },
            },
            LogicalPlan::Distinct { input } => match self.estimate(input, reals) {
                Err(x) => Err(x),
                Ok(child) => {
                    let rows = raise(numeric::do_real_fn(RealFn::Sqrt, child.rows, reals), ONE);
                    pair(rows, combine(ArithOp::Add, Ok(child.cost), Ok(child.rows), reals))
                },
            },
        }
    }
}

impl Default for CostModel {
    fn default() -> (r: CostModel)
        ensures
            r@ == Map::<Seq<char>, Facts>::empty(),
    {
        CostModel::new()
    }
}

// What the shares and the estimates satisfy

/// Shares: the shares of both sides of a conjunction are multiplied; a disjunction takes
/// their sum without their product, within zero and one; a negation takes what the share
/// leaves of one; a constant keeps all or nothing.
pub proof fn lemma_shares(
    l: sql::Node,
    r: sql::Node,
    f: Facts,
    reals: numeric::RealFacts,
    x: u64,
    y: u64,
    sum: u64,
    product: u64,
    rest: u64,
)
    requires
        kept(l, f, reals) == Ok::<u64, numeric::Need>(x),
        kept(r, f, reals) == Ok::<u64, numeric::Need>(y),
        numeric::real_op(ArithOp::Add, x, y, reals) == Ok::<u64, numeric::Need>(sum),
        numeric::real_op(ArithOp::Mul, x, y, reals) == Ok::<u64, numeric::Need>(product),
        numeric::real_op(ArithOp::Sub, sum, product, reals) == Ok::<u64, numeric::Need>(rest),
    ensures
        kept(sql::Node::Binary(BinOp::And, Box::new(l), Box::new(r)), f, reals) == Ok::<u64, numeric::Need>(product),
        ({
            let s = kept(sql::Node::Binary(BinOp::Or, Box::new(l), Box::new(r)), f, reals);
            &&& s is Ok
            &&& !numeric::real_less(s->Ok_0, 0) && !numeric::real_less(0x3FF0_0000_0000_0000, s->Ok_0)
            &&& !numeric::real_less(rest, 0) && !numeric::real_less(0x3FF0_0000_0000_0000, rest) ==> s->Ok_0 == rest
        }),
        forall|z: u64| #[trigger]
            numeric::real_op(ArithOp::Sub, 0x3FF0_0000_0000_0000, x, reals) == Ok::<u64, numeric::Need>(z) ==> kept(
                sql::Node::Unary(UnaryOp::Not, Box::new(l)),
                f,
                reals,
            ) == Ok::<u64, numeric::Need>(z),
        kept(sql::Node::LitBool(true), f, reals) == Ok::<u64, numeric::Need>(0x3FF0_0000_0000_0000),
        kept(sql::Node::LitBool(false), f, reals) == Ok::<u64, numeric::Need>(0),
{
    let nil: u64 = 0;
    let one: u64 = 0x3FF0_0000_0000_0000;
    assert(ONE == one);
    assert(!numeric::real_less(nil, nil) && !numeric::real_less(one, one));
    assert(!numeric::real_less(one, nil));
}

/// The shares of the other predicates: one over the distinct values for an equality with
/// a column, and what it leaves for an inequality; a third for an order; a quarter between
/// two bounds; a fifth for a pattern; a twentieth for null.
pub proof fn lemma_default_shares(
    column: Seq<char>,
    l: sql::Node,
    r: sql::Node,
    f: Facts,
    reals: numeric::RealFacts,
    n: u64,
    share: u64,
    rest: u64,
)
    requires
        f.ndv.contains_key(column) && f.ndv[column] == n,
        numeric::real_op(ArithOp::Div, 0x3FF0_0000_0000_0000, n, reals) == Ok::<u64, numeric::Need>(share),
        numeric::real_op(ArithOp::Sub, 0x3FF0_0000_0000_0000, share, reals) == Ok::<u64, numeric::Need>(rest),
        !numeric::real_less(share, 0) && !numeric::real_less(0x3FF0_0000_0000_0000, share),
        !numeric::real_less(rest, 0) && !numeric::real_less(0x3FF0_0000_0000_0000, rest),
    ensures
        kept(sql::Node::Binary(BinOp::Eq, Box::new(sql::Node::Column(column)), Box::new(r)), f, reals) == Ok::<
            u64,
            numeric::Need,
        >(share),
        kept(sql::Node::Binary(BinOp::NotEq, Box::new(sql::Node::Column(column)), Box::new(r)), f, reals) == Ok::<
            u64,
            numeric::Need,
        >(rest),
        column_of(l) is None ==> kept(
            sql::Node::Binary(BinOp::Eq, Box::new(l), Box::new(sql::Node::Column(column))),
            f,
            reals,
        ) == Ok::<u64, numeric::Need>(share),
        forall|op: BinOp|
            op == BinOp::Lt || op == BinOp::LtEq || op == BinOp::Gt || op == BinOp::GtEq ==> #[trigger] kept(
                sql::Node::Binary(op, Box::new(l), Box::new(r)),
                f,
                reals,
            ) == Ok::<u64, numeric::Need>(0x3FD5_54C9_85F0_6F69),
        kept(sql::Node::Between(Box::new(l), Box::new(l), Box::new(r)), f, reals) == Ok::<u64, numeric::Need>(
            0x3FD0_0000_0000_0000,
        ),
        kept(sql::Node::Like(Box::new(l), Box::new(r)), f, reals) == Ok::<u64, numeric::Need>(0x3FC9_9999_9999_999A),
        kept(sql::Node::IsNull(Box::new(l), false), f, reals) == Ok::<u64, numeric::Need>(0x3FA9_9999_9999_999A),
        kept(sql::Node::IsNull(Box::new(l), true), f, reals) == Ok::<u64, numeric::Need>(0x3FEE_6666_6666_6666),
{
    assert(ONE == 0x3FF0_0000_0000_0000u64);
}

/// Estimates of plans over one input: a projection and a sort keep its rows; a limit keeps
/// its cost and leaves no more rows than it or the limit; a grouping without keys gives
/// one row. A projection costs a touch of each row on top.
pub proof fn lemma_estimates(
    m: Map<Seq<char>, Facts>,
    input: logical::Plan,
    reals: numeric::RealFacts,
    items: Seq<logical::Named>,
    keys: Seq<(sql::Node, bool)>,
    limit: i64,
    offset: Option<i64>,
)
    requires
        estimated(m, input, reals) is Ok,
    ensures
        ({
            let c = estimated(m, input, reals)->Ok_0;
            let project = estimated(m, logical::Plan::Project(items, Box::new(input)), reals);
            let sort = estimated(m, logical::Plan::Sort(keys, Box::new(input)), reals);
            let cut = estimated(m, logical::Plan::Limit(Some(limit), offset, Box::new(input)), reals);
            let one = estimated(m, logical::Plan::Aggregate(Seq::empty(), items, Box::new(input)), reals);
            &&& project is Ok ==> project->Ok_0.rows == c.rows && Ok::<u64, numeric::Need>(project->Ok_0.cost)
                == numeric::real_op(ArithOp::Add, c.cost, c.rows, reals)
            &&& sort is Ok ==> sort->Ok_0.rows == c.rows
            &&& one is Ok ==> one->Ok_0.rows == 0x3FF0_0000_0000_0000
            &&& estimated(m, logical::Plan::Limit(None, offset, Box::new(input)), reals) == Ok::<Estimate, numeric::Need>(c)
            &&& cut is Ok && cut->Ok_0.cost == c.cost
            &&& cut->Ok_0.rows == c.rows || cut->Ok_0.rows == value::real_of_int(limit)
            &&& !numeric::real_less(c.rows, cut->Ok_0.rows)
            &&& !numeric::real_less(value::real_of_int(limit), cut->Ok_0.rows)
        }),
{
    let c = estimated(m, input, reals)->Ok_0;
    assert(ONE == 0x3FF0_0000_0000_0000u64);
}

/// The estimate of a filter is the share that its predicate keeps of the rows below it,
/// and a touch of each of these.
pub proof fn lemma_filter_estimate(
    m: Map<Seq<char>, Facts>,
    table: Seq<char>,
    name: Option<Seq<char>>,
    predicate: sql::Node,
    reals: numeric::RealFacts,
    share: u64,
    rows: u64,
)
    requires
        m.contains_key(table),
        kept(predicate, m[table], reals) == Ok::<u64, numeric::Need>(share),
        numeric::real_op(ArithOp::Mul, m[table].rows, share, reals) == Ok::<u64, numeric::Need>(rows),
        numeric::real_less(0, rows),
    ensures
        ({
            let scan = estimated(m, logical::Plan::Scan(table, name), reals);
            let e = estimated(m, logical::Plan::Filter(predicate, Box::new(logical::Plan::Scan(table, name))), reals);
            &&& scan is Ok ==> scan->Ok_0.rows == m[table].rows && Ok::<u64, numeric::Need>(scan->Ok_0.cost)
                == numeric::real_op(ArithOp::Mul, m[table].rows, 0x4010_0000_0000_0000, reals)
            &&& e is Ok ==> scan is Ok && e->Ok_0.rows == rows && Ok::<u64, numeric::Need>(e->Ok_0.cost)
                == numeric::real_op(ArithOp::Add, scan->Ok_0.cost, m[table].rows, reals)
        }),
{
    assert(ZERO == 0u64);
    assert(IO_WEIGHT == 0x4010_0000_0000_0000u64);
    let scan = estimated(m, logical::Plan::Scan(table, name), reals);
}

/// The rows of a join: of all pairs it keeps a third, or, where its condition is an
/// equality, one over the rows of the longer side.
pub proof fn lemma_join_estimate(
    m: Map<Seq<char>, Facts>,
    kind: sql::JoinKind,
    on: sql::Node,
    left: logical::Plan,
    right: logical::Plan,
    reals: numeric::RealFacts,
    l: Estimate,
    r: Estimate,
    all: u64,
    share: u64,
    rows: u64,
)
    requires
        estimated(m, left, reals) == Ok::<Estimate, numeric::Need>(l),
        estimated(m, right, reals) == Ok::<Estimate, numeric::Need>(r),
        numeric::real_op(ArithOp::Mul, l.rows, r.rows, reals) == Ok::<u64, numeric::Need>(all),
        on is Binary && on->Binary_0 == BinOp::Eq || share == 0x3FD5_54C9_85F0_6F69,
        on is Binary && on->Binary_0 == BinOp::Eq ==> {
            let longer = if numeric::real_less(l.rows, r.rows) {
                r.rows
            } else {
                l.rows
            };
            &&& numeric::real_less(0x3FF0_0000_0000_0000, longer) && numeric::real_less(0, l.rows) && numeric::real_less(0, r.rows)
            &&& numeric::real_op(ArithOp::Div, 0x3FF0_0000_0000_0000, longer, reals) == Ok::<u64, numeric::Need>(share)
        },
        numeric::real_op(ArithOp::Mul, all, share, reals) == Ok::<u64, numeric::Need>(rows),
        numeric::real_less(0, rows),
    ensures
        estimated(m, logical::Plan::Join(kind, on, Box::new(left), Box::new(right)), reals) matches Ok(e) ==> e.rows
            == rows,
{
    assert(ONE == 0x3FF0_0000_0000_0000u64);
}

} // verus!
