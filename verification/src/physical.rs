//! Volcano-style physical operators.
//!
//! A physical plan is a tree of iterators, each pulling rows from its child on
//! demand through a uniform `next` interface (the "Volcano" model). This module
//! implements the row-at-a-time operators the planner lowers to — scan, filter,
//! project, limit, sort, and hash aggregate — over rows of [`Value`]. Filter and
//! project reuse the compiled [`crate::exprvm`] programs, so predicate and
//! projection evaluation is the flat bytecode path rather than tree walking.
use vstd::prelude::*;

use crate::exprvm;
use crate::exprvm::Program;
use crate::join;
use crate::numeric;
use crate::numeric::Reals;
use crate::sort;
use crate::sort::Ranked;
use crate::value;
use crate::value::{Side, Value};

verus! {

/// A row is a fixed-width vector of values.
pub type Row = Vec<Value>;

/// The pull-based operator interface.
pub trait Operator: Sized {
    /// The rows still to come.
    spec fn rest(&self) -> Seq<Seq<Value>>;

    /// Whether the operator can produce them.
    spec fn ready(&self) -> bool;

    /// Produce the next row, or `None` at end of stream.
    fn next(&mut self) -> (r: Option<Row>)
        requires
            old(self).ready(),
        ensures
            final(self).ready(),
            match r {
                Some(row) => old(self).rest().len() > 0 && row@ == old(self).rest()[0] && final(self).rest() == old(self).rest().skip(1),
                None => old(self).rest().len() == 0 && final(self).rest() == old(self).rest(),
            },
    ;

    /// Drain the operator into a vector (for tests and materialization).
    fn collect_rows(&mut self) -> (out: Vec<Row>)
        requires
            old(self).ready(),
        ensures
            final(self).ready(),
            join::rows(out@) == old(self).rest(),
            final(self).rest().len() == 0,
    {
        let ghost all = self.rest();
        let mut out: Vec<Row> = Vec::new();
        assert(join::rows(out@) + self.rest() =~= all);
        loop
            invariant
                self.ready(),
                join::rows(out@) + self.rest() == all,
                all == old(self).rest(),
            decreases self.rest().len(),
        {
            let ghost s = self.rest();
            match self.next() {
                Some(row) => {
                    let ghost was = join::rows(out@);
                    out.push(row);
                    assert(join::rows(out@) =~= was.push(row@));
                    assert(was + s =~= was.push(row@) + s.skip(1));
                },
                None => {
                    assert(join::rows(out@) + s =~= join::rows(out@));
                    return out;
                },
            }
        }
    }
}

/// A leaf scan over an in-memory row set.
pub struct Scan {
    rows: Vec<Row>,
    pos: usize,
}

fn copy_row(r: &Row) -> (c: Row)
    ensures
        c@ == r@,
{
    let mut c: Row = Vec::new();
    let mut i: usize = 0;
    while i < r.len()
        invariant
            i <= r.len(),
            c@ == r@.take(i as int),
        decreases r.len() - i,
    {
        c.push(r[i]);
        assert(r@.take(i + 1) =~= r@.take(i as int).push(r@[i as int]));
        i += 1;
    }
    assert(r@.take(r@.len() as int) =~= r@);
    c
}

impl Scan {
    /// Scan the given rows.
    pub fn new(rows: Vec<Row>) -> (r: Scan)
        ensures
            r.ready(),
            r.rest() == join::rows(rows@),
    {
        let r = Scan { rows, pos: 0 };
        assert(join::rows(rows@).skip(0) =~= join::rows(rows@));
        r
    }
}

impl Operator for Scan {
    closed spec fn rest(&self) -> Seq<Seq<Value>> {
        join::rows(self.rows@).skip(self.pos as int)
    }

    closed spec fn ready(&self) -> bool {
        self.pos <= self.rows@.len()
    }

    fn next(&mut self) -> (r: Option<Row>) {
        if self.pos < self.rows.len() {
            let row = copy_row(&self.rows[self.pos]);
            proof {
                let s = join::rows(self.rows@);
                assert(s.skip(self.pos as int)[0] == s[self.pos as int]);
                assert(s.skip(self.pos as int).skip(1) =~= s.skip(self.pos + 1));
            }
            self.pos = self.pos + 1;
            Some(row)
        } else {
            None
        }
    }
}

/// Whether a program has a value for a row.
pub open spec fn defined(p: Seq<exprvm::Op>, row: Seq<Value>, reals: numeric::RealFacts) -> bool {
    exprvm::outcome(p, row, reals) is Ok
}

/// A program's value for a row.
pub open spec fn result(p: Seq<exprvm::Op>, row: Seq<Value>, reals: numeric::RealFacts) -> Value {
    exprvm::outcome(p, row, reals)->Ok_0
}

/// The rows for which a predicate is true.
pub open spec fn passing(s: Seq<Seq<Value>>, p: Seq<exprvm::Op>, reals: numeric::RealFacts) -> Seq<Seq<Value>>
    decreases s.len(),
{
    if s.len() == 0 {
        Seq::empty()
    } else if result(p, s[0], reals) == Value::Bool(true) {
        seq![s[0]] + passing(s.skip(1), p, reals)
    } else {
        passing(s.skip(1), p, reals)
    }
}

/// A filter applying a compiled boolean predicate.
pub struct Filter<C: Operator> {
    child: C,
    predicate: Program,
    reals: Reals,
}

fn run(p: &Program, row: &Row, reals: &Reals) -> (v: Value)
    requires
        defined(p@, row@, reals@),
    ensures
        v == result(p@, row@, reals@),
{
    match exprvm::eval_reals(p, row.as_slice(), reals) {
        Ok(v) => v,
        Err(_) => Value::Null,
    }
}

impl<C: Operator> Filter<C> {
    /// Filter `child` by `predicate`, which takes no arithmetic on reals.
    pub fn new(child: C, predicate: Program) -> (r: Filter<C>)
        requires
            child.ready(),
            forall|i: int|
                0 <= i < child.rest().len() ==> defined(predicate@, #[trigger] child.rest()[i], numeric::no_reals()),
        ensures
            r.ready(),
            r.rest() == passing(child.rest(), predicate@, numeric::no_reals()),
    {
        Filter { child, predicate, reals: Reals::new() }
    }

    /// Filter `child` by `predicate`, with what is known about reals.
    pub fn with_reals(child: C, predicate: Program, reals: Reals) -> (r: Filter<C>)
        requires
            child.ready(),
            forall|i: int| 0 <= i < child.rest().len() ==> defined(predicate@, #[trigger] child.rest()[i], reals@),
        ensures
            r.ready(),
            r.rest() == passing(child.rest(), predicate@, reals@),
    {
        Filter { child, predicate, reals }
    }
}

impl<C: Operator> Operator for Filter<C> {
    closed spec fn rest(&self) -> Seq<Seq<Value>> {
        passing(self.child.rest(), self.predicate@, self.reals@)
    }

    closed spec fn ready(&self) -> bool {
        self.child.ready() && forall|i: int|
            0 <= i < self.child.rest().len() ==> defined(self.predicate@, #[trigger] self.child.rest()[i], self.reals@)
    }

    fn next(&mut self) -> (r: Option<Row>) {
        loop
            invariant
                self.ready(),
                self.rest() == old(self).rest(),
            decreases self.child.rest().len(),
        {
            let ghost s = self.child.rest();
            let ghost all = self.rest();
            let ghost p = self.predicate@;
            let ghost f = self.reals@;
            match self.child.next() {
                None => {
                    return None;
                },
                Some(row) => {
                    proof {
                        assert forall|i: int| 0 <= i < self.child.rest().len() implies defined(
                            self.predicate@,
                            #[trigger] self.child.rest()[i],
                            self.reals@,
                        ) by {
                            assert(s[i + 1] == self.child.rest()[i]);
                        }
                        assert(defined(p, s[0], f));
                    }
                    let v = run(&self.predicate, &row, &self.reals);
                    if matches!(v, Value::Bool(true)) {
                        assert(all == seq![s[0]] + passing(s.skip(1), p, f));
                        assert(all.skip(1) =~= passing(s.skip(1), p, f));
                        return Some(row);
                    }
                },
            }
        }
    }
}

/// What programs make of a row.
pub open spec fn image(ps: Seq<Program>, row: Seq<Value>, reals: numeric::RealFacts) -> Seq<Value> {
    Seq::new(ps.len(), |k: int| result(ps[k]@, row, reals))
}

/// Whether programs all have a value for a row.
pub open spec fn all_defined(ps: Seq<Program>, row: Seq<Value>, reals: numeric::RealFacts) -> bool {
    forall|k: int| 0 <= k < ps.len() ==> defined((#[trigger] ps[k])@, row, reals)
}

/// What programs make of rows.
pub open spec fn images(s: Seq<Seq<Value>>, ps: Seq<Program>, reals: numeric::RealFacts) -> Seq<Seq<Value>> {
    Seq::new(s.len(), |i: int| image(ps, s[i], reals))
}

/// A projection producing new columns from compiled expressions.
pub struct Project<C: Operator> {
    child: C,
    exprs: Vec<Program>,
    reals: Reals,
}

impl<C: Operator> Project<C> {
    /// Project `child` through the given per-output-column programs, which take
    /// no arithmetic on reals.
    pub fn new(child: C, exprs: Vec<Program>) -> (r: Project<C>)
        requires
            child.ready(),
            forall|i: int|
                0 <= i < child.rest().len() ==> all_defined(exprs@, #[trigger] child.rest()[i], numeric::no_reals()),
        ensures
            r.ready(),
            r.rest() == images(child.rest(), exprs@, numeric::no_reals()),
    {
        Project { child, exprs, reals: Reals::new() }
    }

    /// Project `child` through programs, with what is known about reals.
    pub fn with_reals(child: C, exprs: Vec<Program>, reals: Reals) -> (r: Project<C>)
        requires
            child.ready(),
            forall|i: int| 0 <= i < child.rest().len() ==> all_defined(exprs@, #[trigger] child.rest()[i], reals@),
        ensures
            r.ready(),
            r.rest() == images(child.rest(), exprs@, reals@),
    {
        Project { child, exprs, reals }
    }
}

impl<C: Operator> Operator for Project<C> {
    closed spec fn rest(&self) -> Seq<Seq<Value>> {
        images(self.child.rest(), self.exprs@, self.reals@)
    }

    closed spec fn ready(&self) -> bool {
        self.child.ready() && forall|i: int|
            0 <= i < self.child.rest().len() ==> all_defined(self.exprs@, #[trigger] self.child.rest()[i], self.reals@)
    }

    fn next(&mut self) -> (r: Option<Row>) {
        let ghost s = self.child.rest();
        let ghost all = self.rest();
        match self.child.next() {
            None => None,
            Some(row) => {
                proof {
                    assert forall|i: int| 0 <= i < self.child.rest().len() implies all_defined(
                        self.exprs@,
                        #[trigger] self.child.rest()[i],
                        self.reals@,
                    ) by {
                        assert(s[i + 1] == self.child.rest()[i]);
                    }
                    assert(all_defined(self.exprs@, s[0], self.reals@));
                }
                let mut out: Row = Vec::new();
                let mut k: usize = 0;
                while k < self.exprs.len()
                    invariant
                        k <= self.exprs.len(),
                        all_defined(self.exprs@, row@, self.reals@),
                        out@ == image(self.exprs@, row@, self.reals@).take(k as int),
                    decreases self.exprs.len() - k,
                {
                    assert(defined(self.exprs@[k as int]@, row@, self.reals@));
                    let v = run(&self.exprs[k], &row, &self.reals);
                    out.push(v);
                    assert(image(self.exprs@, row@, self.reals@).take(k + 1) =~= image(
                        self.exprs@,
                        row@,
                        self.reals@,
                    ).take(k as int).push(v));
                    k += 1;
                }
                assert(out@ =~= image(self.exprs@, row@, self.reals@));
                assert(all.skip(1) =~= self.rest());
                Some(out)
            },
        }
    }
}

/// At most `limit` rows after `offset` ones.
pub open spec fn window(s: Seq<Seq<Value>>, limit: nat, offset: nat) -> Seq<Seq<Value>> {
    let t = if offset >= s.len() {
        Seq::empty()
    } else {
        s.skip(offset as int)
    };
    if limit >= t.len() {
        t
    } else {
        t.take(limit as int)
    }
}

/// A limit/offset operator.
pub struct Limit<C: Operator> {
    child: C,
    remaining: usize,
    to_skip: usize,
}

impl<C: Operator> Limit<C> {
    /// Take at most `limit` rows after skipping `offset`.
    pub fn new(child: C, limit: usize, offset: usize) -> (r: Limit<C>)
        requires
            child.ready(),
        ensures
            r.ready(),
            r.rest() == window(child.rest(), limit as nat, offset as nat),
    {
        Limit { child, remaining: limit, to_skip: offset }
    }
}

impl<C: Operator> Operator for Limit<C> {
    closed spec fn rest(&self) -> Seq<Seq<Value>> {
        window(self.child.rest(), self.remaining as nat, self.to_skip as nat)
    }

    closed spec fn ready(&self) -> bool {
        self.child.ready()
    }

    fn next(&mut self) -> (r: Option<Row>) {
        let ghost all = self.rest();
        while self.to_skip > 0
            invariant
                self.ready(),
                self.rest() == all,
                all == old(self).rest(),
            decreases self.to_skip,
        {
            let ghost s = self.child.rest();
            let ghost w = self.rest();
            match self.child.next() {
                None => {
                    return None;
                },
                Some(_) => {
                    self.to_skip = self.to_skip - 1;
                    assert(self.rest() =~= w);
                },
            }
        }
        if self.remaining == 0 {
            return None;
        }
        match self.child.next() {
            None => None,
            Some(row) => {
                self.remaining = self.remaining - 1;
                assert(all.skip(1) =~= self.rest());
                Some(row)
            },
        }
    }
}

// Sorting

/// A value that a row is sorted by, and in which direction.
#[derive(Debug, Clone, Copy, PartialEq, Eq, Structural)]
pub struct Cell {
    pub value: Value,
    pub ascending: bool,
}

/// How two cells compare.
pub open spec fn cell_side(a: Cell, b: Cell) -> Side {
    if a.ascending != b.ascending {
        if a.ascending {
            Side::Below
        } else {
            Side::Above
        }
    } else if a.ascending {
        value::value_side(a.value, b.value)
    } else {
        value::value_side(b.value, a.value)
    }
}

/// How two lists of cells compare: by the first cells that differ.
pub open spec fn cells_side(a: Seq<Cell>, b: Seq<Cell>) -> Side
    decreases a.len(),
{
    if a.len() == 0 {
        if b.len() == 0 {
            Side::Same
        } else {
            Side::Below
        }
    } else if b.len() == 0 {
        Side::Above
    } else if cell_side(a[0], b[0]) != Side::Same {
        cell_side(a[0], b[0])
    } else {
        cells_side(a.skip(1), b.skip(1))
    }
}

proof fn lemma_cell_order(a: Cell, b: Cell, c: Cell)
    ensures
        cell_side(a, a) == Side::Same,
        (cell_side(a, b) == Side::Below) == (cell_side(b, a) == Side::Above),
        (cell_side(a, b) == Side::Same) == (cell_side(b, a) == Side::Same),
        cell_side(a, b) != Side::Above && cell_side(b, c) != Side::Above ==> cell_side(a, c) != Side::Above,
        cell_side(a, b) == Side::Below && cell_side(b, c) != Side::Above ==> cell_side(a, c) == Side::Below,
        cell_side(a, b) != Side::Above && cell_side(b, c) == Side::Below ==> cell_side(a, c) == Side::Below,
{
    value::lemma_value_order(a.value, b.value, c.value);
    value::lemma_value_order(c.value, b.value, a.value);
    value::lemma_value_order(b.value, a.value, b.value);
    value::lemma_value_order(c.value, a.value, c.value);
}

proof fn lemma_cells_order(a: Seq<Cell>, b: Seq<Cell>, c: Seq<Cell>)
    ensures
        cells_side(a, a) == Side::Same,
        cells_side(a, b) == Side::Below && cells_side(b, c) == Side::Below ==> cells_side(a, c) == Side::Below,
        cells_side(a, b) != Side::Below && cells_side(b, c) != Side::Below ==> cells_side(a, c) != Side::Below,
    decreases a.len(),
{
    if a.len() > 0 {
        lemma_cell_order(a[0], a[0], a[0]);
        if b.len() > 0 && c.len() > 0 {
            lemma_cell_order(a[0], b[0], c[0]);
            lemma_cell_order(c[0], b[0], a[0]);
            lemma_cell_order(b[0], c[0], a[0]);
            lemma_cell_order(a[0], c[0], b[0]);
            lemma_cell_order(b[0], a[0], c[0]);
            lemma_cell_order(c[0], a[0], b[0]);
            lemma_cells_order(a.skip(1), b.skip(1), c.skip(1));
        } else {
            lemma_cells_order(a.skip(1), a.skip(1), a.skip(1));
        }
    }
}

/// What a row is sorted by.
pub struct Rank {
    cells: Vec<Cell>,
}

impl View for Rank {
    type V = Seq<Cell>;

    closed spec fn view(&self) -> Seq<Cell> {
        self.cells@
    }
}

impl Ranked for Rank {
    open spec fn before(self, other: Rank) -> bool {
        cells_side(self@, other@) == Side::Below
    }

    proof fn lemma_weak_order(a: Rank, b: Rank, c: Rank) {
        lemma_cells_order(a@, b@, c@);
    }

    fn is_before(&self, other: &Rank) -> (r: bool) {
        let mut i: usize = 0;
        proof {
            assert(self@.skip(0) =~= self@);
            assert(other@.skip(0) =~= other@);
        }
        loop
            invariant
                i <= self.cells.len(),
                i <= other.cells.len(),
                cells_side(self@, other@) == cells_side(self@.skip(i as int), other@.skip(i as int)),
            decreases self.cells.len() - i,
        {
            if i == self.cells.len() {
                return i < other.cells.len();
            }
            if i == other.cells.len() {
                return false;
            }
            let a = self.cells[i];
            let b = other.cells[i];
            proof {
                assert(self@.skip(i as int)[0] == a);
                assert(other@.skip(i as int)[0] == b);
                assert(self@.skip(i as int).skip(1) =~= self@.skip(i + 1));
                assert(other@.skip(i as int).skip(1) =~= other@.skip(i + 1));
            }
            let s = if a.ascending != b.ascending {
                if a.ascending {
                    Side::Below
                } else {
                    Side::Above
                }
            } else if a.ascending {
                value::compare(&a.value, &b.value)
            } else {
                value::compare(&b.value, &a.value)
            };
            if matches!(s, Side::Below) {
                return true;
            }
            if matches!(s, Side::Above) {
                return false;
            }
            i += 1;
        }
    }
}

/// What a row is sorted by, for keys `(column, ascending)`.
pub open spec fn row_cells(row: Seq<Value>, keys: Seq<(usize, bool)>) -> Seq<Cell> {
    Seq::new(
        keys.len(),
        |k: int| Cell { value: join::cell(row, keys[k].0 as int), ascending: keys[k].1 },
    )
}

/// Whether row `a` of `s` comes before row `b` in the sorted order: its keys are
/// smaller, or it is earlier and they are level.
pub open spec fn sooner(s: Seq<Seq<Value>>, keys: Seq<(usize, bool)>, a: int, b: int) -> bool {
    let x = row_cells(s[a], keys);
    let y = row_cells(s[b], keys);
    cells_side(x, y) == Side::Below || (cells_side(y, x) != Side::Below && a < b)
}

/// `p` lists the places of `s` in the stable order of the keys.
pub open spec fn sorts(s: Seq<Seq<Value>>, keys: Seq<(usize, bool)>, p: Seq<usize>) -> bool {
    &&& p.len() == s.len()
    &&& forall|i: int| 0 <= i < p.len() ==> (#[trigger] p[i]) < s.len()
    &&& forall|i: int, j: int| 0 <= i < j < p.len() ==> #[trigger] sooner(s, keys, p[i] as int, p[j] as int)
}

/// The rows of `s` in the stable order of the keys.
pub open spec fn sorted(s: Seq<Seq<Value>>, keys: Seq<(usize, bool)>) -> Seq<Seq<Value>> {
    sort::arranged(s, choose|p: Seq<usize>| sorts(s, keys, p))
}

/// A blocking sort operator (materializes its input, then streams sorted rows).
pub struct Sort<C: Operator> {
    child: Option<C>,
    keys: Vec<(usize, bool)>,
    buffer: Vec<Row>,
    pos: usize,
}

impl<C: Operator> Sort<C> {
    /// Sort `child` by `(column, ascending)` keys, in order.
    pub fn new(child: C, keys: Vec<(usize, bool)>) -> (r: Sort<C>)
        requires
            child.ready(),
        ensures
            r.ready(),
            r.rest() == sorted(child.rest(), keys@),
    {
        Sort { child: Some(child), keys, buffer: Vec::new(), pos: 0 }
    }
}

fn rank_of(row: &Row, keys: &Vec<(usize, bool)>) -> (r: Rank)
    ensures
        r@ == row_cells(row@, keys@),
{
    let mut cells: Vec<Cell> = Vec::new();
    let mut k: usize = 0;
    while k < keys.len()
        invariant
            k <= keys.len(),
            cells@ == row_cells(row@, keys@).take(k as int),
        decreases keys.len() - k,
    {
        let (c, ascending) = keys[k];
        let v = if c < row.len() {
            row[c]
        } else {
            Value::Null
        };
        cells.push(Cell { value: v, ascending });
        assert(row_cells(row@, keys@).take(k + 1) =~= row_cells(row@, keys@).take(k as int).push(
            row_cells(row@, keys@)[k as int],
        ));
        k += 1;
    }
    assert(cells@ =~= row_cells(row@, keys@));
    Rank { cells }
}

/// Rows in the stable order of the keys.
fn sort_rows(rows: &Vec<Row>, keys: &Vec<(usize, bool)>) -> (t: Vec<Row>)
    ensures
        join::rows(t@) == sorted(join::rows(rows@), keys@),
{
    let ghost s = join::rows(rows@);
    let mut ranks: Vec<Rank> = Vec::new();
    let mut i: usize = 0;
    while i < rows.len()
        invariant
            i <= rows.len(),
            s == join::rows(rows@),
            ranks@.len() == i,
            forall|k: int| 0 <= k < i ==> (#[trigger] ranks@[k])@ == row_cells(s[k], keys@),
        decreases rows.len() - i,
    {
        ranks.push(rank_of(&rows[i], keys));
        i += 1;
    }
    let p = sort::stable_order(&ranks);
    proof {
        assert forall|i: int, j: int| 0 <= i < j < p@.len() implies #[trigger] sooner(
            s,
            keys@,
            p@[i] as int,
            p@[j] as int,
        ) by {
            assert(sort::precedes(ranks@, p@[i] as int, p@[j] as int));
            assert(p@[i] < s.len() && p@[j] < s.len());
        }
        assert(sorts(s, keys@, p@));
        let q = choose|q: Seq<usize>| sorts(s, keys@, q);
        assert(sort::is_order(ranks@, q)) by {
            assert forall|i: int, j: int| 0 <= i < j < q.len() implies #[trigger] sort::precedes(
                ranks@,
                q[i] as int,
                q[j] as int,
            ) by {
                assert(sooner(s, keys@, q[i] as int, q[j] as int));
                assert(q[i] < s.len() && q[j] < s.len());
            }
        }
        sort::lemma_order_unique(ranks@, p@, q);
    }
    let mut t: Vec<Row> = Vec::new();
    let mut k: usize = 0;
    while k < p.len()
        invariant
            k <= p.len(),
            s == join::rows(rows@),
            sorts(s, keys@, p@),
            join::rows(t@) == sort::arranged(s, p@).take(k as int),
        decreases p.len() - k,
    {
        assert(p@[k as int] < s.len());
        let ghost was = join::rows(t@);
        t.push(copy_row(&rows[p[k]]));
        assert(join::rows(t@) =~= was.push(s[p@[k as int] as int]));
        assert(sort::arranged(s, p@).take(k + 1) =~= sort::arranged(s, p@).take(k as int).push(
            s[p@[k as int] as int],
        ));
        k += 1;
    }
    assert(join::rows(t@) =~= sort::arranged(s, p@));
    t
}

impl<C: Operator> Operator for Sort<C> {
    closed spec fn rest(&self) -> Seq<Seq<Value>> {
        match self.child {
            Some(c) => sorted(c.rest(), self.keys@),
            None => join::rows(self.buffer@).skip(self.pos as int),
        }
    }

    closed spec fn ready(&self) -> bool {
        match self.child {
            Some(c) => c.ready(),
            None => self.pos <= self.buffer@.len(),
        }
    }

    fn next(&mut self) -> (r: Option<Row>) {
        let ghost all = self.rest();
        let held = self.child.take();
        if let Some(c) = held {
            let mut c = c;
            let rows = c.collect_rows();
            self.buffer = sort_rows(&rows, &self.keys);
            self.pos = 0;
            assert(join::rows(self.buffer@).skip(0) =~= join::rows(self.buffer@));
        }
        assert(self.rest() == all);
        if self.pos < self.buffer.len() {
            let row = copy_row(&self.buffer[self.pos]);
            proof {
                let s = join::rows(self.buffer@);
                assert(s.skip(self.pos as int)[0] == s[self.pos as int]);
                assert(s.skip(self.pos as int).skip(1) =~= s.skip(self.pos + 1));
            }
            self.pos = self.pos + 1;
            Some(row)
        } else {
            None
        }
    }
}

// Aggregation

/// One aggregate to compute.
#[derive(Debug, Clone, Copy, PartialEq, Eq, Structural)]
pub struct AggSpec {
    pub kind: AggKind,
    pub column: usize,
}

/// Supported aggregate kinds.
#[derive(Debug, Clone, Copy, PartialEq, Eq, Structural)]
pub enum AggKind {
    Count,
    Sum,
    Min,
    Max,
}

/// A row's key: its grouping columns as integers; what is none counts as the
/// smallest one.
pub open spec fn group_key(row: Seq<Value>, cols: Seq<usize>) -> Seq<i64> {
    Seq::new(
        cols.len(),
        |k: int|
            match join::cell(row, cols[k] as int).spec_as_int() {
                Some(i) => i,
                None => i64::MIN,
            },
    )
}

/// The integers that a column has in the rows with a key, in order.
pub open spec fn ints(s: Seq<Seq<Value>>, cols: Seq<usize>, key: Seq<i64>, column: usize) -> Seq<i64>
    decreases s.len(),
{
    if s.len() == 0 {
        Seq::empty()
    } else {
        let d = ints(s.drop_last(), cols, key, column);
        match join::cell(s.last(), column as int).spec_as_int() {
            Some(i) => if group_key(s.last(), cols) == key {
                d.push(i)
            } else {
                d
            },
            None => d,
        }
    }
}

/// How many rows have a key.
pub open spec fn members(s: Seq<Seq<Value>>, cols: Seq<usize>, key: Seq<i64>) -> nat
    decreases s.len(),
{
    if s.len() == 0 {
        0
    } else {
        members(s.drop_last(), cols, key) + if group_key(s.last(), cols) == key {
            1nat
        } else {
            0
        }
    }
}

/// A sum that wraps.
pub open spec fn total(s: Seq<i64>) -> i64
    decreases s.len(),
{
    if s.len() == 0 {
        0
    } else {
        total(s.drop_last()).wrapping_add(s.last())
    }
}

/// The smallest, or the greatest, of integers.
pub open spec fn extreme(s: Seq<i64>, least: bool) -> i64
    decreases s.len(),
{
    if s.len() <= 1 {
        s[0]
    } else {
        let e = extreme(s.drop_last(), least);
        if least && s.last() < e || !least && s.last() > e {
            s.last()
        } else {
            e
        }
    }
}

/// An aggregate over the rows with a key.
pub open spec fn aggregated(s: Seq<Seq<Value>>, cols: Seq<usize>, key: Seq<i64>, a: AggSpec) -> Value {
    let v = ints(s, cols, key, a.column);
    match a.kind {
        AggKind::Count => Value::Int(members(s, cols, key) as i64),
        AggKind::Sum => Value::Int(total(v)),
        AggKind::Min => if v.len() == 0 {
            Value::Null
        } else {
            Value::Int(extreme(v, true))
        },
        AggKind::Max => if v.len() == 0 {
            Value::Null
        } else {
            Value::Int(extreme(v, false))
        },
    }
}

/// The keys of rows, in the order in which they first come.
pub open spec fn group_keys(s: Seq<Seq<Value>>, cols: Seq<usize>) -> Seq<Seq<i64>>
    decreases s.len(),
{
    if s.len() == 0 {
        Seq::empty()
    } else {
        let d = group_keys(s.drop_last(), cols);
        let k = group_key(s.last(), cols);
        if d.contains(k) {
            d
        } else {
            d.push(k)
        }
    }
}

/// A group's row: its key, then its aggregates.
pub open spec fn group_row(s: Seq<Seq<Value>>, cols: Seq<usize>, aggs: Seq<AggSpec>, key: Seq<i64>) -> Seq<Value> {
    Seq::new(key.len(), |k: int| Value::Int(key[k])) + Seq::new(
        aggs.len(),
        |k: int| aggregated(s, cols, key, aggs[k]),
    )
}

/// The rows of all groups.
pub open spec fn grouped(s: Seq<Seq<Value>>, cols: Seq<usize>, aggs: Seq<AggSpec>) -> Seq<Seq<Value>> {
    let g = group_keys(s, cols);
    Seq::new(g.len(), |i: int| group_row(s, cols, aggs, g[i]))
}

fn key_of(row: &Row, cols: &Vec<usize>) -> (key: Vec<i64>)
    ensures
        key@ == group_key(row@, cols@),
{
    let mut key: Vec<i64> = Vec::new();
    let mut k: usize = 0;
    while k < cols.len()
        invariant
            k <= cols.len(),
            key@ == group_key(row@, cols@).take(k as int),
        decreases cols.len() - k,
    {
        let c = cols[k];
        let v = if c < row.len() {
            row[c]
        } else {
            Value::Null
        };
        let i: i64 = match v.as_int() {
            Some(i) => i,
            None => i64::MIN,
        };
        key.push(i);
        assert(group_key(row@, cols@).take(k + 1) =~= group_key(row@, cols@).take(k as int).push(
            group_key(row@, cols@)[k as int],
        ));
        k += 1;
    }
    assert(key@ =~= group_key(row@, cols@));
    key
}

fn same_key(a: &Vec<i64>, b: &Vec<i64>) -> (r: bool)
    ensures
        r == (a@ == b@),
{
    if a.len() != b.len() {
        return false;
    }
    let mut i: usize = 0;
    while i < a.len()
        invariant
            i <= a.len(),
            a@.len() == b@.len(),
            forall|k: int| 0 <= k < i ==> a@[k] == b@[k],
        decreases a.len() - i,
    {
        if a[i] != b[i] {
            return false;
        }
        i += 1;
    }
    assert(a@ =~= b@);
    true
}

/// The views of keys.
spec fn keys_view(v: Seq<Vec<i64>>) -> Seq<Seq<i64>> {
    Seq::new(v.len(), |i: int| v[i]@)
}

/// The keys of rows, in the order in which they first come.
fn find_keys(rows: &Vec<Row>, cols: &Vec<usize>) -> (keys: Vec<Vec<i64>>)
    ensures
        keys_view(keys@) == group_keys(join::rows(rows@), cols@),
{
    let ghost s = join::rows(rows@);
    let mut keys: Vec<Vec<i64>> = Vec::new();
    let mut i: usize = 0;
    assert(keys_view(keys@) =~= group_keys(s.take(0), cols@));
    while i < rows.len()
        invariant
            i <= rows.len(),
            s == join::rows(rows@),
            keys_view(keys@) == group_keys(s.take(i as int), cols@),
        decreases rows.len() - i,
    {
        let k = key_of(&rows[i], cols);
        let ghost d = keys_view(keys@);
        proof {
            assert(s.take(i + 1).drop_last() =~= s.take(i as int));
            assert(s.take(i + 1).last() == s[i as int]);
        }
        let mut known = false;
        let mut j: usize = 0;
        while j < keys.len()
            invariant
                j <= keys.len(),
                d == keys_view(keys@),
                known ==> d.contains(k@),
                !known ==> forall|q: int| 0 <= q < j ==> #[trigger] d[q] != k@,
            decreases keys.len() - j,
        {
            if same_key(&keys[j], &k) {
                assert(d[j as int] == k@);
                known = true;
            }
            j += 1;
        }
        if !known {
            assert(!d.contains(k@));
            keys.push(k);
            assert(keys_view(keys@) =~= d.push(k@));
        }
        i += 1;
    }
    assert(s.take(s.len() as int) =~= s);
    keys
}

/// What is known of a group's column so far.
struct AggState {
    count: i64,
    sum: i64,
    min: i64,
    max: i64,
    seen: bool,
}

impl AggState {
    spec fn tells(self, n: nat, v: Seq<i64>) -> bool {
        &&& self.count == n
        &&& self.sum == total(v)
        &&& self.seen == (v.len() > 0)
        &&& v.len() > 0 ==> self.min == extreme(v, true) && self.max == extreme(v, false)
    }

    fn new() -> (r: AggState)
        ensures
            r.tells(0, Seq::empty()),
    {
        AggState { count: 0, sum: 0, min: i64::MAX, max: i64::MIN, seen: false }
    }

    fn update(&mut self, v: Value, Ghost(n): Ghost<nat>, Ghost(s): Ghost<Seq<i64>>)
        requires
            old(self).tells(n, s),
            n < i64::MAX,
        ensures
            final(self).tells(
                n + 1,
                match v.spec_as_int() {
                    Some(i) => s.push(i),
                    None => s,
                },
            ),
    {
        self.count = self.count + 1;
        if let Some(i) = v.as_int() {
            assert(s.push(i).drop_last() =~= s);
            self.sum = self.sum.wrapping_add(i);
            if !self.seen || i < self.min {
                self.min = i;
            }
            if !self.seen || i > self.max {
                self.max = i;
            }
            self.seen = true;
        }
    }

    fn finalize(&self, kind: AggKind) -> (r: Value)
        ensures
            forall|n: nat, v: Seq<i64>| #[trigger]
                self.tells(n, v) ==> r == (match kind {
                    AggKind::Count => Value::Int(n as i64),
                    AggKind::Sum => Value::Int(total(v)),
                    AggKind::Min => if v.len() == 0 {
                        Value::Null
                    } else {
                        Value::Int(extreme(v, true))
                    },
                    AggKind::Max => if v.len() == 0 {
                        Value::Null
                    } else {
                        Value::Int(extreme(v, false))
                    },
                }),
    {
        match kind {
            AggKind::Count => Value::Int(self.count),
            AggKind::Sum => Value::Int(self.sum),
            AggKind::Min => if self.seen {
                Value::Int(self.min)
            } else {
                Value::Null
            },
            AggKind::Max => if self.seen {
                Value::Int(self.max)
            } else {
                Value::Null
            },
        }
    }
}

proof fn lemma_members(s: Seq<Seq<Value>>, cols: Seq<usize>, key: Seq<i64>)
    ensures
        members(s, cols, key) <= s.len(),
    decreases s.len(),
{
    if s.len() > 0 {
        lemma_members(s.drop_last(), cols, key);
    }
}

/// One aggregate over the rows with a key.
fn aggregate(rows: &Vec<Row>, cols: &Vec<usize>, key: &Vec<i64>, a: AggSpec) -> (r: Value)
    requires
        rows@.len() <= i64::MAX,
    ensures
        r == aggregated(join::rows(rows@), cols@, key@, a),
{
    let ghost s = join::rows(rows@);
    let mut state = AggState::new();
    let mut i: usize = 0;
    while i < rows.len()
        invariant
            i <= rows.len(),
            rows@.len() <= i64::MAX,
            s == join::rows(rows@),
            state.tells(members(s.take(i as int), cols@, key@), ints(s.take(i as int), cols@, key@, a.column)),
        decreases rows.len() - i,
    {
        let ghost n = members(s.take(i as int), cols@, key@);
        let ghost v = ints(s.take(i as int), cols@, key@, a.column);
        proof {
            assert(s.take(i + 1).drop_last() =~= s.take(i as int));
            assert(s.take(i + 1).last() == s[i as int]);
            lemma_members(s.take(i as int), cols@, key@);
        }
        let row = &rows[i];
        let k = key_of(row, cols);
        if same_key(&k, key) {
            let c = if a.column < row.len() {
                row[a.column]
            } else {
                Value::Null
            };
            state.update(c, Ghost(n), Ghost(v));
        }
        i += 1;
    }
    assert(s.take(s.len() as int) =~= s);
    state.finalize(a.kind)
}

/// The rows of all groups.
fn group(rows: &Vec<Row>, cols: &Vec<usize>, aggs: &Vec<AggSpec>) -> (out: Vec<Row>)
    requires
        rows@.len() <= i64::MAX,
    ensures
        join::rows(out@) == grouped(join::rows(rows@), cols@, aggs@),
{
    let ghost s = join::rows(rows@);
    let keys = find_keys(rows, cols);
    let ghost g = keys_view(keys@);
    let mut out: Vec<Row> = Vec::new();
    let mut i: usize = 0;
    while i < keys.len()
        invariant
            i <= keys.len(),
            rows@.len() <= i64::MAX,
            s == join::rows(rows@),
            g == keys_view(keys@),
            g == group_keys(s, cols@),
            join::rows(out@) == grouped(s, cols@, aggs@).take(i as int),
        decreases keys.len() - i,
    {
        let key = &keys[i];
        let ghost head = Seq::new(key@.len(), |k: int| Value::Int(key@[k]));
        let ghost tail = Seq::new(aggs@.len(), |k: int| aggregated(s, cols@, key@, aggs@[k]));
        let mut row: Row = Vec::new();
        let mut k: usize = 0;
        while k < key.len()
            invariant
                k <= key.len(),
                head == Seq::new(key@.len(), |k: int| Value::Int(key@[k])),
                row@ == head.take(k as int),
            decreases key.len() - k,
        {
            row.push(Value::Int(key[k]));
            assert(head.take(k + 1) =~= head.take(k as int).push(head[k as int]));
            k += 1;
        }
        assert(head.take(head.len() as int) =~= head);
        let mut m: usize = 0;
        assert(head + tail.take(0) =~= head);
        while m < aggs.len()
            invariant
                m <= aggs.len(),
                rows@.len() <= i64::MAX,
                s == join::rows(rows@),
                tail == Seq::new(aggs@.len(), |k: int| aggregated(s, cols@, key@, aggs@[k])),
                row@ == head + tail.take(m as int),
            decreases aggs.len() - m,
        {
            row.push(aggregate(rows, cols, key, aggs[m]));
            assert(tail.take(m + 1) =~= tail.take(m as int).push(tail[m as int]));
            m += 1;
        }
        assert(row@ =~= group_row(s, cols@, aggs@, key@));
        let ghost was = join::rows(out@);
        out.push(row);
        assert(join::rows(out@) =~= was.push(row@));
        assert(grouped(s, cols@, aggs@).take(i + 1) =~= grouped(s, cols@, aggs@).take(i as int).push(row@));
        i += 1;
    }
    assert(join::rows(out@) =~= grouped(s, cols@, aggs@));
    out
}

/// A grouping aggregate: `SUM`/`COUNT`/`MIN`/`MAX` over integer columns keyed by
/// a set of grouping columns.
pub struct HashAggregate<C: Operator> {
    child: Option<C>,
    group_cols: Vec<usize>,
    aggs: Vec<AggSpec>,
    output: Vec<Row>,
    pos: usize,
}

impl<C: Operator> HashAggregate<C> {
    /// Aggregate `child`, whose rows an `i64` can count, grouped by `group_cols`,
    /// computing `aggs`. Groups come in the order of their first rows.
    pub fn new(child: C, group_cols: Vec<usize>, aggs: Vec<AggSpec>) -> (r: HashAggregate<C>)
        requires
            child.ready(),
            child.rest().len() <= i64::MAX,
        ensures
            r.ready(),
            r.rest() == grouped(child.rest(), group_cols@, aggs@),
    {
        HashAggregate { child: Some(child), group_cols, aggs, output: Vec::new(), pos: 0 }
    }
}

impl<C: Operator> Operator for HashAggregate<C> {
    closed spec fn rest(&self) -> Seq<Seq<Value>> {
        match self.child {
            Some(c) => grouped(c.rest(), self.group_cols@, self.aggs@),
            None => join::rows(self.output@).skip(self.pos as int),
        }
    }

    closed spec fn ready(&self) -> bool {
        match self.child {
            Some(c) => c.ready() && c.rest().len() <= i64::MAX,
            None => self.pos <= self.output@.len(),
        }
    }

    fn next(&mut self) -> (r: Option<Row>) {
        let ghost all = self.rest();
        let held = self.child.take();
        if let Some(c) = held {
            let mut c = c;
            let ghost s = c.rest();
            let rows = c.collect_rows();
            assert(join::rows(rows@).len() == rows@.len());
            self.output = group(&rows, &self.group_cols, &self.aggs);
            self.pos = 0;
            assert(join::rows(self.output@).skip(0) =~= join::rows(self.output@));
        }
        assert(self.rest() == all);
        if self.pos < self.output.len() {
            let row = copy_row(&self.output[self.pos]);
            proof {
                let s = join::rows(self.output@);
                assert(s.skip(self.pos as int)[0] == s[self.pos as int]);
                assert(s.skip(self.pos as int).skip(1) =~= s.skip(self.pos + 1));
            }
            self.pos = self.pos + 1;
            Some(row)
        } else {
            None
        }
    }
}

// What operators give

/// What a filter gives: the rows for which the predicate is true, each once and in
/// their order, and no others.
pub proof fn lemma_passing_rows(s: Seq<Seq<Value>>, p: Seq<exprvm::Op>, reals: numeric::RealFacts) -> (at: Seq<int>)
    requires
        forall|i: int| 0 <= i < s.len() ==> exprvm::outcome(p, #[trigger] s[i], reals) is Ok,
    ensures
        at.len() == passing(s, p, reals).len(),
        forall|k: int| 0 <= k < at.len() ==> 0 <= #[trigger] at[k] < s.len() && passing(s, p, reals)[k] == s[at[k]],
        forall|k: int, l: int| 0 <= k < l < at.len() ==> at[k] < at[l],
        forall|i: int|
            0 <= i < s.len() ==> (#[trigger] at.contains(i) <==> exprvm::outcome(p, s[i], reals) == Ok::<Value, numeric::Need>(
                Value::Bool(true),
            )),
    decreases s.len(),
{
    if s.len() == 0 {
        Seq::empty()
    } else {
        let t = s.skip(1);
        assert forall|i: int| 0 <= i < t.len() implies exprvm::outcome(p, #[trigger] t[i], reals) is Ok by {
            assert(t[i] == s[i + 1]);
        }
        let b = lemma_passing_rows(t, p, reals);
        let moved = Seq::new(b.len(), |k: int| b[k] + 1);
        assert(exprvm::outcome(p, s[0], reals) is Ok);
        let hit = result(p, s[0], reals) == Value::Bool(true);
        let at = if hit {
            seq![0int] + moved
        } else {
            moved
        };
        let shift = if hit {
            1int
        } else {
            0
        };
        assert forall|i: int| 0 <= i < s.len() implies (#[trigger] at.contains(i) <==> exprvm::outcome(p, s[i], reals) == Ok::<
            Value,
            numeric::Need,
        >(Value::Bool(true))) by {
            if i == 0 {
                if hit {
                    assert(at[0] == 0);
                } else if at.contains(0) {
                    let k = at.index_of(0);
                    assert(b[k] >= 0);
                }
            } else {
                assert(t[i - 1] == s[i]);
                if b.contains(i - 1) {
                    let k = b.index_of(i - 1);
                    assert(at[k + shift] == i);
                }
                if at.contains(i) {
                    let k = at.index_of(i);
                    assert(b[k - shift] == i - 1);
                }
            }
        }
        assert forall|k: int| 0 <= k < at.len() implies 0 <= #[trigger] at[k] < s.len() && passing(s, p, reals)[k] == s[at[k]] by {
            if k >= shift {
                assert(0 <= b[k - shift] < t.len());
                assert(t[b[k - shift]] == s[at[k]]);
            }
        }
        at
    }
}

/// What a limit gives: the rows from the offset on, as many as it allows.
pub proof fn lemma_window_rows(s: Seq<Seq<Value>>, limit: nat, offset: nat)
    ensures
        offset >= s.len() ==> window(s, limit, offset).len() == 0,
        offset + limit <= s.len() ==> window(s, limit, offset).len() == limit,
        offset <= s.len() <= offset + limit ==> window(s, limit, offset).len() == s.len() - offset,
        forall|k: int| 0 <= k < window(s, limit, offset).len() ==> #[trigger] window(s, limit, offset)[k] == s[offset + k],
{
}

/// What a projection gives: for each row, in order, the value of each program for it.
pub proof fn lemma_image_rows(s: Seq<Seq<Value>>, ps: Seq<Program>, reals: numeric::RealFacts, i: int, k: int)
    requires
        0 <= i < s.len(),
        0 <= k < ps.len(),
        exprvm::outcome(ps[k]@, s[i], reals) is Ok,
    ensures
        images(s, ps, reals).len() == s.len(),
        images(s, ps, reals)[i].len() == ps.len(),
        exprvm::outcome(ps[k]@, s[i], reals) == Ok::<Value, numeric::Need>(images(s, ps, reals)[i][k]),
{
}

/// Two lists of cells in order: the first cells that the order tells apart are.
proof fn lemma_first_apart(a: Seq<Cell>, b: Seq<Cell>, k: int)
    requires
        a.len() == b.len(),
        0 <= k < a.len(),
        cells_side(a, b) != Side::Above,
        forall|m: int| 0 <= m < k ==> cell_side(#[trigger] a[m], b[m]) == Side::Same,
    ensures
        cell_side(a[k], b[k]) != Side::Above,
    decreases k,
{
    if k > 0 {
        let c = a.skip(1);
        let d = b.skip(1);
        assert(cell_side(a[0], b[0]) == Side::Same);
        assert forall|m: int| 0 <= m < k - 1 implies cell_side(#[trigger] c[m], d[m]) == Side::Same by {
            assert(c[m] == a[m + 1]);
            assert(cell_side(a[m + 1], b[m + 1]) == Side::Same);
        }
        lemma_first_apart(c, d, k - 1);
        assert(c[k - 1] == a[k] && d[k - 1] == b[k]);
    }
}

/// What a sort gives: of two rows the one that comes first is not above the other in
/// the first key that tells them apart, or not below it where the key descends; rows
/// that no key tells apart stay in their order; and every row is there once.
pub proof fn lemma_sorted_rows(s: Seq<Seq<Value>>, keys: Seq<(usize, bool)>, p: Seq<usize>, i: int, j: int, k: int)
    requires
        sorts(s, keys, p),
        0 <= i < j < s.len(),
    ensures
        p[i] != p[j],
        0 <= k < keys.len() && (forall|m: int|
            0 <= m < k ==> value::value_side(
                join::cell(s[p[i] as int], (#[trigger] keys[m]).0 as int),
                join::cell(s[p[j] as int], keys[m].0 as int),
            ) == Side::Same) ==> value::value_side(
            join::cell(s[p[i] as int], keys[k].0 as int),
            join::cell(s[p[j] as int], keys[k].0 as int),
        ) != if keys[k].1 {
            Side::Above
        } else {
            Side::Below
        },
        (forall|m: int|
            0 <= m < keys.len() ==> value::value_side(
                join::cell(s[p[i] as int], (#[trigger] keys[m]).0 as int),
                join::cell(s[p[j] as int], keys[m].0 as int),
            ) == Side::Same) ==> p[i] < p[j],
{
    let a = p[i] as int;
    let b = p[j] as int;
    let x = row_cells(s[a], keys);
    let y = row_cells(s[b], keys);
    assert(sooner(s, keys, a, b));
    lemma_cells_turn(x, y);
    lemma_cells_turn(x, x);
    if 0 <= k < keys.len() && (forall|m: int|
        0 <= m < k ==> value::value_side(
            join::cell(s[a], (#[trigger] keys[m]).0 as int),
            join::cell(s[b], keys[m].0 as int),
        ) == Side::Same) {
        assert forall|m: int| 0 <= m < k implies cell_side(#[trigger] x[m], y[m]) == Side::Same by {
            assert(value::value_side(join::cell(s[a], keys[m].0 as int), join::cell(s[b], keys[m].0 as int)) == Side::Same);
            value::lemma_value_order(x[m].value, y[m].value, x[m].value);
        }
        lemma_first_apart(x, y, k);
        value::lemma_value_order(x[k].value, y[k].value, x[k].value);
    }
    if forall|m: int|
        0 <= m < keys.len() ==> value::value_side(
            join::cell(s[a], (#[trigger] keys[m]).0 as int),
            join::cell(s[b], keys[m].0 as int),
        ) == Side::Same {
        assert forall|m: int| 0 <= m < x.len() implies cell_side(#[trigger] x[m], y[m]) == Side::Same by {
            assert(value::value_side(join::cell(s[a], keys[m].0 as int), join::cell(s[b], keys[m].0 as int)) == Side::Same);
            value::lemma_value_order(x[m].value, y[m].value, x[m].value);
        }
        lemma_cells_level(x, y);
    }
}

proof fn lemma_cells_turn(a: Seq<Cell>, b: Seq<Cell>)
    ensures
        (cells_side(a, b) == Side::Below) == (cells_side(b, a) == Side::Above),
        cells_side(a, a) == Side::Same,
        (cells_side(a, b) == Side::Same) == (cells_side(b, a) == Side::Same),
    decreases a.len(),
{
    if a.len() > 0 {
        lemma_cell_order(a[0], a[0], a[0]);
        lemma_cells_turn(a.skip(1), a.skip(1));
        if b.len() > 0 {
            lemma_cell_order(a[0], b[0], a[0]);
            lemma_cells_turn(a.skip(1), b.skip(1));
        }
    }
}

proof fn lemma_cells_level(a: Seq<Cell>, b: Seq<Cell>)
    requires
        a.len() == b.len(),
        forall|m: int| 0 <= m < a.len() ==> cell_side(#[trigger] a[m], b[m]) == Side::Same,
    ensures
        cells_side(a, b) == Side::Same,
    decreases a.len(),
{
    if a.len() > 0 {
        let c = a.skip(1);
        let d = b.skip(1);
        assert forall|m: int| 0 <= m < c.len() implies cell_side(#[trigger] c[m], d[m]) == Side::Same by {
            assert(c[m] == a[m + 1]);
            assert(cell_side(a[m + 1], b[m + 1]) == Side::Same);
        }
        assert(cell_side(a[0], b[0]) == Side::Same);
        lemma_cells_level(c, d);
    }
}

/// The groups of rows: the key of every row is one of them, each is the key of some
/// row, and none comes twice. A group's row is its key followed by its aggregates.
pub proof fn lemma_groups(s: Seq<Seq<Value>>, cols: Seq<usize>, aggs: Seq<AggSpec>)
    ensures
        group_keys(s, cols).no_duplicates(),
        forall|i: int| 0 <= i < s.len() ==> group_keys(s, cols).contains(group_key(#[trigger] s[i], cols)),
        forall|g: int|
            0 <= g < group_keys(s, cols).len() ==> exists|i: int|
                0 <= i < s.len() && group_key(#[trigger] s[i], cols) == #[trigger] group_keys(s, cols)[g],
        grouped(s, cols, aggs).len() == group_keys(s, cols).len(),
        forall|g: int, c: int|
            0 <= g < group_keys(s, cols).len() && 0 <= c < cols.len() ==> #[trigger] grouped(s, cols, aggs)[g][c] == Value::Int(
                group_keys(s, cols)[g][c],
            ),
        forall|g: int, a: int|
            0 <= g < group_keys(s, cols).len() && 0 <= a < aggs.len() ==> #[trigger] grouped(s, cols, aggs)[g][cols.len() + a]
                == aggregated(s, cols, group_keys(s, cols)[g], aggs[a]),
    decreases s.len(),
{
    let g = group_keys(s, cols);
    if s.len() > 0 {
        let d = s.drop_last();
        lemma_groups(d, cols, aggs);
        let h = group_keys(d, cols);
        let n = s.len() - 1;
        let k = group_key(s[n], cols);
        assert(g.no_duplicates()) by {
            if !h.contains(k) {
                assert forall|a: int, b: int| 0 <= a < g.len() && 0 <= b < g.len() && a != b implies g[a] != g[b] by {
                    if a < h.len() && b < h.len() {
                        assert(h[a] != h[b]);
                    } else if a < h.len() {
                        assert(h.contains(h[a]));
                    } else {
                        assert(h.contains(h[b]));
                    }
                }
            }
        }
        assert forall|i: int| 0 <= i < s.len() implies g.contains(group_key(#[trigger] s[i], cols)) by {
            if i < n {
                assert(d[i] == s[i]);
                let x = group_key(d[i], cols);
                assert(h.contains(x));
                assert(g[h.index_of(x)] == x);
            } else if !h.contains(k) {
                assert(g[h.len() as int] == k);
            }
        }
        assert forall|x: int| 0 <= x < g.len() implies exists|i: int|
            0 <= i < s.len() && group_key(#[trigger] s[i], cols) == #[trigger] g[x] by {
            if x < h.len() {
                let i = choose|i: int| 0 <= i < d.len() && group_key(#[trigger] d[i], cols) == h[x];
                assert(s[i] == d[i]);
            } else {
                assert(group_key(s[n], cols) == g[x]);
            }
        }
    }
    assert forall|x: int| 0 <= x < g.len() implies (#[trigger] g[x]).len() == cols.len() by {
        let i = choose|i: int| 0 <= i < s.len() && group_key(#[trigger] s[i], cols) == g[x];
    }
}

/// One more row: of its own group the count grows by one and, where it has an integer
/// in the column and the sum fits, the sum by that integer; another group's count and
/// sum stay. Without rows both are zero. An integer in a grouping column is that part
/// of the key.
pub proof fn lemma_group_totals(s: Seq<Seq<Value>>, row: Seq<Value>, cols: Seq<usize>, key: Seq<i64>, column: usize, c: int)
    requires
        column < row.len(),
        s.len() < i64::MAX,
    ensures
        ({
            let count = AggSpec { kind: AggKind::Count, column };
            let sum = AggSpec { kind: AggKind::Sum, column };
            let t = s.push(row);
            &&& aggregated(Seq::empty(), cols, key, count) == Value::Int(0)
            &&& aggregated(Seq::empty(), cols, key, sum) == Value::Int(0)
            &&& group_key(row, cols) != key ==> aggregated(t, cols, key, count) == aggregated(s, cols, key, count)
                && aggregated(t, cols, key, sum) == aggregated(s, cols, key, sum)
            &&& group_key(row, cols) == key ==> {
                &&& aggregated(s, cols, key, count) matches Value::Int(n) && n < i64::MAX && aggregated(t, cols, key, count)
                    == Value::Int((n + 1) as i64)
                &&& row[column as int] matches Value::Int(i) ==> (aggregated(s, cols, key, sum) matches Value::Int(n) && (i64::MIN
                    <= n + i <= i64::MAX ==> aggregated(t, cols, key, sum) == Value::Int((n + i) as i64)))
                &&& row[column as int] is Null ==> aggregated(t, cols, key, sum) == aggregated(s, cols, key, sum)
            }
            &&& 0 <= c < cols.len() && cols[c] < row.len() ==> (row[cols[c] as int] matches Value::Int(i) ==> group_key(
                row,
                cols,
            )[c] == i)
        }),
{
    let t = s.push(row);
    assert(t.drop_last() =~= s);
    assert(t.last() == row);
    lemma_members(s, cols, key);
    assert(members(t, cols, key) == members(s, cols, key) + if group_key(row, cols) == key {
        1nat
    } else {
        0
    });
    let d = ints(s, cols, key, column);
    if let Value::Int(i) = row[column as int] {
        assert(d.push(i).drop_last() =~= d);
        if group_key(row, cols) == key {
            assert(ints(t, cols, key, column) == d.push(i));
            assert(total(d.push(i)) == total(d).wrapping_add(i));
        }
    }
    let none = Seq::<Seq<Value>>::empty();
    assert(members(none, cols, key) == 0);
    assert(ints(none, cols, key, column).len() == 0);
}

/// The extremes of a group: where a row of it has an integer in the column, there are a
/// smallest and a greatest, no integer of the group is below or above them, and each is
/// some row's. Where none has, both are null.
pub proof fn lemma_group_extremes(s: Seq<Seq<Value>>, cols: Seq<usize>, key: Seq<i64>, column: usize)
    ensures
        ({
            let min = aggregated(s, cols, key, AggSpec { kind: AggKind::Min, column });
            let max = aggregated(s, cols, key, AggSpec { kind: AggKind::Max, column });
            &&& forall|i: int|
                0 <= i < s.len() && group_key(#[trigger] s[i], cols) == key ==> (join::cell(s[i], column as int) matches Value::Int(n)
                    ==> (min matches Value::Int(a) && a <= n) && (max matches Value::Int(b) && n <= b))
            &&& (forall|i: int|
                0 <= i < s.len() && group_key(#[trigger] s[i], cols) == key ==> join::cell(s[i], column as int).spec_as_int() is None)
                ==> min is Null && max is Null
            &&& min matches Value::Int(a) ==> exists|i: int|
                0 <= i < s.len() && group_key(#[trigger] s[i], cols) == key && join::cell(s[i], column as int).spec_as_int() == Some(a)
            &&& max matches Value::Int(b) ==> exists|i: int|
                0 <= i < s.len() && group_key(#[trigger] s[i], cols) == key && join::cell(s[i], column as int).spec_as_int() == Some(b)
        }),
{
    let v = ints(s, cols, key, column);
    lemma_ints(s, cols, key, column);
    if v.len() > 0 {
        lemma_extreme(v);
        let a = extreme(v, true);
        let b = extreme(v, false);
        assert(v.contains(a) && v.contains(b));
    }
    assert forall|i: int| 0 <= i < s.len() && group_key(#[trigger] s[i], cols) == key implies (join::cell(
        s[i],
        column as int,
    ) matches Value::Int(n) ==> v.contains(n)) by {}
}

/// A sum that fits is the sum: one more integer adds to it, and no integers sum to zero.
pub proof fn lemma_total(s: Seq<i64>, x: i64)
    ensures
        total(Seq::empty()) == 0,
        i64::MIN <= total(s) + x <= i64::MAX ==> total(s.push(x)) == total(s) + x,
{
    assert(s.push(x).drop_last() =~= s);
}

proof fn lemma_ints(s: Seq<Seq<Value>>, cols: Seq<usize>, key: Seq<i64>, column: usize)
    ensures
        forall|i: int|
            0 <= i < s.len() && group_key(#[trigger] s[i], cols) == key ==> (join::cell(s[i], column as int).spec_as_int()
                matches Some(n) ==> ints(s, cols, key, column).contains(n)),
        forall|n: i64| #[trigger]
            ints(s, cols, key, column).contains(n) ==> exists|i: int|
                0 <= i < s.len() && group_key(#[trigger] s[i], cols) == key && join::cell(s[i], column as int).spec_as_int() == Some(n),
    decreases s.len(),
{
    if s.len() > 0 {
        let d = s.drop_last();
        lemma_ints(d, cols, key, column);
        let v = ints(s, cols, key, column);
        let w = ints(d, cols, key, column);
        let last = s.len() - 1;
        assert forall|i: int| 0 <= i < s.len() && group_key(#[trigger] s[i], cols) == key implies (join::cell(
            s[i],
            column as int,
        ).spec_as_int() matches Some(n) ==> v.contains(n)) by {
            if let Some(n) = join::cell(s[i], column as int).spec_as_int() {
                if i < last {
                    assert(d[i] == s[i]);
                    assert(w.contains(n));
                    assert(v[w.index_of(n)] == n);
                } else {
                    assert(v[w.len() as int] == n);
                }
            }
        }
        assert forall|n: i64| #[trigger] v.contains(n) implies exists|i: int|
            0 <= i < s.len() && group_key(#[trigger] s[i], cols) == key && join::cell(s[i], column as int).spec_as_int() == Some(n) by {
            let k = v.index_of(n);
            if k < w.len() {
                assert(w[k] == n);
                assert(w.contains(n));
                let i = choose|i: int|
                    0 <= i < d.len() && group_key(#[trigger] d[i], cols) == key && join::cell(d[i], column as int).spec_as_int()
                        == Some(n);
                assert(s[i] == d[i]);
            } else {
                assert(group_key(s[last], cols) == key);
            }
        }
    }
}

/// The smallest and the greatest of integers are among them, and none is below or above.
pub proof fn lemma_extreme(s: Seq<i64>)
    requires
        s.len() > 0,
    ensures
        s.contains(extreme(s, true)),
        s.contains(extreme(s, false)),
        forall|n: i64| #[trigger] s.contains(n) ==> extreme(s, true) <= n <= extreme(s, false),
    decreases s.len(),
{
    if s.len() == 1 {
        assert(s[0] == extreme(s, true));
    } else {
        let d = s.drop_last();
        lemma_extreme(d);
        let a = extreme(d, true);
        let b = extreme(d, false);
        assert(s[d.index_of(a)] == a);
        assert(s[d.index_of(b)] == b);
        assert(s[s.len() - 1] == s.last());
        assert forall|n: i64| #[trigger] s.contains(n) implies extreme(s, true) <= n <= extreme(s, false) by {
            let k = s.index_of(n);
            if k < d.len() {
                assert(d[k] == n);
                assert(d.contains(n));
            }
        }
    }
}

} // verus!
