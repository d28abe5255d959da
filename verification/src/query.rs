//! Scans, index scans, merge join, and aggregation.
//!
//! The query layer reads rows back out of the database. Two materialization
//! paths matter for correctness:
//!
//! - The *safe* path iterates a page's slot directory directly and reads each
//!   live slot. Full scans use this.
//! - The *fast* path resolves a row through the row-id map and reads the cells
//!   that its slot entry names. Point lookups (`where id = ...`) and
//!   index-driven access use this.
//!
//! Index scans additionally probe the secondary index cache, which compares a
//! query value against each indexed value's cached byte string.

use crate::body;
use crate::bytes;
use crate::database;
use crate::database::Database;
use crate::dict;
use crate::error::Result;
use crate::fault;
use crate::fault::Fault;
use crate::index;
use crate::mutation;
use crate::pager;
use crate::pager::PageId;
use crate::sort;
use crate::value;
use crate::value::{CmpOp, Side, Value};
use vstd::prelude::*;

verus! {

/// A materialized row: its id and its column values (schema order).
#[derive(Debug, Clone, PartialEq)]
pub struct Row {
    pub id: u64,
    pub values: Vec<Value>,
}

/// The model of a row.
#[verifier::ext_equal]
pub struct RowModel {
    pub id: u64,
    pub values: Seq<Value>,
}

impl View for Row {
    type V = RowModel;

    open spec fn view(&self) -> RowModel {
        RowModel { id: self.id, values: self.values@ }
    }
}

pub open spec fn row_models(s: Seq<Row>) -> Seq<RowModel> {
    Seq::new(s.len(), |i: int| s[i]@)
}

/// Copy a row.
pub fn copy_row(r: &Row) -> (c: Row)
    ensures
        c@ == r@,
{
    let mut values: Vec<Value> = Vec::new();
    let mut i: usize = 0;
    while i < r.values.len()
        invariant
            i <= r.values@.len(),
            values@ == r.values@.take(i as int),
        decreases r.values@.len() - i,
    {
        values.push(r.values[i]);
        i += 1;
        assert(values@ =~= r.values@.take(i as int));
    }
    assert(values@ =~= r.values@);
    Row { id: r.id, values }
}

/// The first `n` cells of a row, where all are there.
pub open spec fn cells_of(m: database::DbModel, row_id: u64, n: nat, fast: bool) -> Option<Seq<Value>>
    decreases n,
{
    if n == 0 {
        Some(Seq::empty())
    } else {
        let v = if fast {
            mutation::slot_cell(m, row_id, n - 1)
        } else {
            mutation::cell_of(m, row_id, n - 1)
        };
        match (cells_of(m, row_id, (n - 1) as nat, fast), v) {
            (Some(s), Some(x)) => Some(s.push(x)),
            _ => None,
        }
    }
}

/// A row with all its cells.
pub open spec fn row_of(m: database::DbModel, row_id: u64, fast: bool) -> Option<RowModel> {
    match cells_of(m, row_id, m.schema.len(), fast) {
        Some(values) => Some(RowModel { id: row_id, values }),
        None => None,
    }
}

proof fn lemma_missing(m: database::DbModel, row_id: u64, a: nat, b: nat, fast: bool)
    requires
        a <= b,
        cells_of(m, row_id, a, fast) is None,
    ensures
        cells_of(m, row_id, b, fast) is None,
    decreases b - a,
{
    if a < b {
        lemma_missing(m, row_id, a, (b - 1) as nat, fast);
    }
}

fn materialize(db: &Database, row_id: u64, fast: bool) -> (r: Option<Row>)
    requires
        db.wf(),
    ensures
        match r {
            Some(x) => row_of(db@, row_id, fast) == Some(x@),
            None => row_of(db@, row_id, fast) is None,
        },
{
    let mut values: Vec<Value> = Vec::new();
    let n: usize = db.schema.arity();
    let mut i: usize = 0;
    assert(values@ =~= Seq::<Value>::empty());
    while i < n
        invariant
            i <= n,
            n == db@.schema.len(),
            db.wf(),
            cells_of(db@, row_id, i as nat, fast) == Some(values@),
        decreases n - i,
    {
        let v = if fast {
            mutation::read_row_cell_fast(db, row_id, i)
        } else {
            mutation::read_row_cell(db, row_id, i)
        };
        match v {
            Some(x) => {
                values.push(x);
            },
            None => {
                proof {
                    lemma_missing(db@, row_id, (i + 1) as nat, n as nat, fast);
                }
                return None;
            },
        }
        i += 1;
    }
    Some(Row { id: row_id, values })
}

/// Read every column of a row via the row-id fast path.
pub fn materialize_row_fast(db: &Database, row_id: u64) -> (r: Option<Row>)
    requires
        db.wf(),
    ensures
        match r {
            Some(x) => row_of(db@, row_id, true) == Some(x@),
            None => row_of(db@, row_id, true) is None,
        },
{
    materialize(db, row_id, true)
}

/// Read every column of a row via the safe path.
pub fn materialize_row_safe(db: &Database, row_id: u64) -> (r: Option<Row>)
    requires
        db.wf(),
    ensures
        match r {
            Some(x) => row_of(db@, row_id, false) == Some(x@),
            None => row_of(db@, row_id, false) is None,
        },
{
    materialize(db, row_id, false)
}

// Full scans

/// The row in a slot of a page.
pub open spec fn slot_row(b: body::BodyModel, dir: Seq<pager::SlotEntry>, slot: int) -> RowModel {
    RowModel {
        id: dir[slot].row_id,
        values: Seq::new(b.regions.len(), |ci: int| body::cell_at(b.regions[ci], slot)),
    }
}

/// The live rows in the first `n` slots of a page.
pub open spec fn slot_rows(b: body::BodyModel, dir: Seq<pager::SlotEntry>, n: nat) -> Seq<RowModel>
    decreases n,
{
    if n == 0 {
        Seq::empty()
    } else {
        let before = slot_rows(b, dir, (n - 1) as nat);
        if dir[n - 1].live {
            before.push(slot_row(b, dir, n - 1))
        } else {
            before
        }
    }
}

/// The live rows of a page; none where it has no slots or cannot be read.
pub open spec fn page_rows(p: pager::PageModel) -> Seq<RowModel> {
    match (body::body_of(p.buf), p.slots) {
        (Ok(b), Some(dir)) => slot_rows(b, dir, dir.len()),
        _ => Seq::empty(),
    }
}

/// The live rows of a list of pages.
pub open spec fn rows_on(m: pager::PagerModel, ids: Seq<PageId>) -> Seq<RowModel>
    decreases ids.len(),
{
    if ids.len() == 0 {
        Seq::empty()
    } else {
        rows_on(m, ids.drop_last()) + match m.page(ids.last()) {
            Some(p) => page_rows(p),
            None => Seq::empty(),
        }
    }
}

/// Every live row, page by page.
pub open spec fn all_rows(m: database::DbModel) -> Seq<RowModel> {
    rows_on(m.pager, m.pager.data_ids())
}

/// The database after a scan is counted.
pub open spec fn scan_counted(m: database::DbModel) -> database::DbModel {
    database::DbModel { stats: database::DbStats { scans: (m.stats.scans + 1) as u64, ..m.stats }, ..m }
}

fn scan_page(db: &Database, page: &pager::Page, out: &mut Vec<Row>)
    ensures
        row_models(final(out)@) == row_models(old(out)@) + page_rows(page@),
{
    let ghost start = row_models(out@);
    assert(start + Seq::<RowModel>::empty() =~= start);
    let b = match body::decode_body(page.buf.as_slice()) {
        Ok(b) => b,
        Err(_) => {
            return;
        },
    };
    let dir = match &page.slot_dir {
        Some(d) => d,
        None => {
            return;
        },
    };
    let mut slot: usize = 0;
    while slot < dir.len()
        invariant
            slot <= dir@.len(),
            row_models(out@) == start + slot_rows(b@, dir@, slot as nat),
        decreases dir@.len() - slot,
    {
        if dir[slot].live {
            let mut values: Vec<Value> = Vec::new();
            let mut ci: usize = 0;
            while ci < b.regions.len()
                invariant
                    ci <= b.regions@.len(),
                    values@ == Seq::new(ci as nat, |c: int| body::cell_at(b@.regions[c], slot as int)),
                decreases b.regions@.len() - ci,
            {
                assert(b@.regions[ci as int] == b.regions@[ci as int]@);
                values.push(body::read_cell(&b.regions[ci], slot, db.dict_for(ci), &db.pager));
                ci += 1;
                assert(values@ =~= Seq::new(ci as nat, |c: int| body::cell_at(b@.regions[c], slot as int)));
            }
            let ghost was = out@;
            let row = Row { id: dir[slot].row_id, values };
            let ghost r = row@;
            out.push(row);
            assert(r =~= slot_row(b@, dir@, slot as int));
            assert(row_models(out@) =~= row_models(was).push(r));
        }
        assert(row_models(out@) =~= start + slot_rows(b@, dir@, (slot + 1) as nat));
        slot += 1;
    }
}

/// A full scan over every live row, materialized via the safe path.
pub fn scan_all(db: &mut Database) -> (out: Vec<Row>)
    requires
        old(db).wf(),
        old(db)@.stats.scans < u64::MAX,
    ensures
        final(db).wf(),
        final(db)@ == scan_counted(old(db)@),
        row_models(out@) == all_rows(old(db)@),
{
    db.stats.scans = db.stats.scans + 1;
    assert(db@ =~= scan_counted(old(db)@));
    let mut out: Vec<Row> = Vec::new();
    let ids = db.pager.data_pages();
    let mut i: usize = 0;
    assert(ids@.take(0) =~= Seq::empty());
    assert(row_models(out@) =~= Seq::empty());
    while i < ids.len()
        invariant
            i <= ids@.len(),
            db.wf(),
            row_models(out@) == rows_on(db@.pager, ids@.take(i as int)),
        decreases ids@.len() - i,
    {
        let ghost was = row_models(out@);
        assert(ids@.take(i + 1).drop_last() =~= ids@.take(i as int));
        assert(was + Seq::<RowModel>::empty() =~= was);
        match db.pager.get(ids[i]) {
            Some(p) => {
                scan_page(db, p, &mut out);
            },
            None => {},
        }
        i += 1;
    }
    assert(ids@.take(i as int) =~= ids@);
    out
}

// Filtered scans

/// The rows of a list of ids, as far as they are there.
pub open spec fn found_rows(m: database::DbModel, ids: Seq<u64>, fast: bool) -> Seq<RowModel>
    decreases ids.len(),
{
    if ids.len() == 0 {
        Seq::empty()
    } else {
        let before = found_rows(m, ids.drop_last(), fast);
        match row_of(m, ids.last(), fast) {
            Some(r) => before.push(r),
            None => before,
        }
    }
}

fn materialize_all(db: &Database, ids: &Vec<u64>, fast: bool) -> (out: Vec<Row>)
    requires
        db.wf(),
    ensures
        row_models(out@) == found_rows(db@, ids@, fast),
{
    let mut out: Vec<Row> = Vec::new();
    let mut i: usize = 0;
    assert(ids@.take(0) =~= Seq::empty());
    assert(row_models(out@) =~= Seq::empty());
    while i < ids.len()
        invariant
            i <= ids@.len(),
            db.wf(),
            row_models(out@) == found_rows(db@, ids@.take(i as int), fast),
        decreases ids@.len() - i,
    {
        assert(ids@.take(i + 1).drop_last() =~= ids@.take(i as int));
        match materialize(db, ids[i], fast) {
            Some(row) => {
                let ghost was = out@;
                let ghost r = row@;
                out.push(row);
                assert(row_models(out@) =~= row_models(was).push(r));
            },
            None => {},
        }
        i += 1;
    }
    assert(ids@.take(i as int) =~= ids@);
    out
}

/// The bytes that an index scan looks for, or why there are none.
pub open spec fn query_bytes(m: database::DbModel, col: int, target: Value) -> std::result::Result<Seq<u8>, Fault> {
    match target {
        Value::Text(id) => match dict::word_of(m.dicts[col]->0, m.pager, id) {
            Some(w) => Ok(w),
            None => Err(Fault::NoWord(id as nat)),
        },
        other => Ok(body::cell_bytes(m.schema[col].kind, other)),
    }
}

/// The rows of an index scan, or why there are none.
pub open spec fn index_rows(m: database::DbModel, col: int, target: Value) -> std::result::Result<Seq<RowModel>, Fault> {
    if col >= m.schema.len() || m.indexes[col] is None {
        Err(Fault::NoIndex(col as nat))
    } else if m.dicts[col] is None {
        Err(Fault::NoDict(col as nat))
    } else {
        match query_bytes(m, col, target) {
            Err(f) => Err(f),
            Ok(q) => {
                let x = m.indexes[col]->0;
                let ids = match m.pager.page(x.dict_page) {
                    Some(p) => index::probed(x.entries, p.buf, q),
                    None => Seq::empty(),
                };
                Ok(found_rows(m, ids, true))
            },
        }
    }
}

/// The database after an index scan is counted.
pub open spec fn index_scan_counted(m: database::DbModel) -> database::DbModel {
    database::DbModel { stats: database::DbStats { index_scans: (m.stats.index_scans + 1) as u64, ..m.stats }, ..m }
}

/// A list of rows, or an error that reports a fault.
pub open spec fn answers(r: Result<Vec<Row>>, s: std::result::Result<Seq<RowModel>, Fault>) -> bool {
    match (r, s) {
        (Ok(v), Ok(rows)) => row_models(v@) == rows,
        (Err(e), Err(f)) => fault::reports(e, f),
        _ => false,
    }
}

/// An index scan: probe the index for rows whose indexed value equals `target`,
/// then materialize them via the fast path.
pub fn index_scan(db: &mut Database, col: usize, target: Value) -> (r: Result<Vec<Row>>)
    requires
        old(db).wf(),
        old(db)@.stats.index_scans < u64::MAX,
    ensures
        final(db).wf(),
        final(db)@ == index_scan_counted(old(db)@),
        answers(r, index_rows(old(db)@, col as int, target)),
{
    let ghost m = db@;
    db.stats.index_scans = db.stats.index_scans + 1;
    let ghost n = index_scan_counted(m);
    assert(db@ =~= n);
    proof {
        lemma_stats(m, n);
    }
    let idx = match db.index_of(col) {
        Some(x) => x,
        None => {
            return Err(fault::no_index(col));
        },
    };
    assert(database::dict_ok(n.dicts[col as int]));
    let d = match db.dict_for(col) {
        Some(d) => d,
        None => {
            return Err(fault::no_dict(col));
        },
    };
    let ids: Vec<u64> = match target {
        Value::Text(id) => match d.bytes_of(&db.pager, id) {
            Some(w) => idx.probe(&db.pager, w),
            None => {
                return Err(fault::no_word(id));
            },
        },
        other => {
            assert(n.schema[col as int] == db.schema.columns@[col as int]@);
            let q = body::encode_cell(db.schema.columns[col].kind, &other);
            idx.probe(&db.pager, q.as_slice())
        },
    };
    Ok(materialize_all(db, &ids, true))
}

/// Rows do not depend on the statistics.
proof fn lemma_stats(m: database::DbModel, n: database::DbModel)
    requires
        n == (database::DbModel { stats: n.stats, ..m }),
    ensures
        forall|r: u64, k: nat, fast: bool| #[trigger] cells_of(n, r, k, fast) == cells_of(m, r, k, fast),
        forall|r: u64, fast: bool| #[trigger] row_of(n, r, fast) == row_of(m, r, fast),
        forall|ids: Seq<u64>, fast: bool| #[trigger] found_rows(n, ids, fast) == found_rows(m, ids, fast),
        forall|col: int, t: Value| #[trigger] index_rows(n, col, t) == index_rows(m, col, t),
        forall|col: int, op: CmpOp, t: Value| #[trigger] mutation::matching(n, col, op, t) == mutation::matching(m, col, op, t),
{
    assert forall|r: u64, k: nat, fast: bool| #[trigger] cells_of(n, r, k, fast) == cells_of(m, r, k, fast) by {
        lemma_cells_stats(m, n, r, k, fast);
    }
    assert forall|ids: Seq<u64>, fast: bool| #[trigger] found_rows(n, ids, fast) == found_rows(m, ids, fast) by {
        lemma_found_stats(m, n, ids, fast);
    }
    assert forall|col: int, op: CmpOp, t: Value| #[trigger] mutation::matching(n, col, op, t) == mutation::matching(
        m,
        col,
        op,
        t,
    ) by {
        lemma_scanned_stats(m, n, crate::rowid::ids_of(m.rows), col, op, t);
    }
}

proof fn lemma_cells_stats(m: database::DbModel, n: database::DbModel, r: u64, k: nat, fast: bool)
    requires
        n == (database::DbModel { stats: n.stats, ..m }),
    ensures
        cells_of(n, r, k, fast) == cells_of(m, r, k, fast),
    decreases k,
{
    if k > 0 {
        lemma_cells_stats(m, n, r, (k - 1) as nat, fast);
        assert(mutation::slot_cell(n, r, k - 1) == mutation::slot_cell(m, r, k - 1));
        assert(mutation::cell_of(n, r, k - 1) == mutation::cell_of(m, r, k - 1));
    }
}

proof fn lemma_found_stats(m: database::DbModel, n: database::DbModel, ids: Seq<u64>, fast: bool)
    requires
        n == (database::DbModel { stats: n.stats, ..m }),
    ensures
        found_rows(n, ids, fast) == found_rows(m, ids, fast),
    decreases ids.len(),
{
    if ids.len() > 0 {
        lemma_found_stats(m, n, ids.drop_last(), fast);
        lemma_cells_stats(m, n, ids.last(), m.schema.len(), fast);
    }
}

proof fn lemma_scanned_stats(
    m: database::DbModel,
    n: database::DbModel,
    ids: Seq<u64>,
    col: int,
    op: CmpOp,
    t: Value,
)
    requires
        n == (database::DbModel { stats: n.stats, ..m }),
    ensures
        mutation::scanned(n, ids, col, op, t) == mutation::scanned(m, ids, col, op, t),
    decreases ids.len(),
{
    if ids.len() > 0 {
        lemma_scanned_stats(m, n, ids.drop_last(), col, op, t);
        assert(mutation::cell_of(n, ids.last(), col) == mutation::cell_of(m, ids.last(), col));
    }
}

/// The row that a point lookup finds.
pub open spec fn point_row(m: database::DbModel, row_id: u64) -> Seq<RowModel> {
    match row_of(m, row_id, true) {
        Some(r) if m.home(row_id) is Some => seq![r],
        _ => Seq::empty(),
    }
}

/// The answer of a filtered scan, and whether it goes through an index.
pub open spec fn filtered(m: database::DbModel, col: int, op: CmpOp, target: Value) -> (
    std::result::Result<Seq<RowModel>, Fault>,
    bool,
) {
    if col == 0 && op == CmpOp::Eq && target.spec_as_int() is Some {
        (Ok(point_row(m, bytes::twos(target.spec_as_int()->0))), false)
    } else if op == CmpOp::Eq && col < m.schema.len() && m.schema[col].index_page is Some {
        (index_rows(m, col, target), true)
    } else {
        (
            match mutation::matching(m, col, op, target) {
                Ok(ids) => Ok(found_rows(m, ids, false)),
                Err(f) => Err(f),
            },
            false,
        )
    }
}

/// A filtered scan. Point lookups on the id column and equality predicates on
/// indexed columns use the fast paths; everything else falls back to a full
/// scan with a safe predicate evaluation.
pub fn scan_where(db: &mut Database, col: usize, op: CmpOp, target: Value) -> (r: Result<Vec<Row>>)
    requires
        old(db).wf(),
        old(db)@.stats.scans < u64::MAX,
        old(db)@.stats.index_scans < u64::MAX,
    ensures
        final(db).wf(),
        answers(r, filtered(old(db)@, col as int, op, target).0),
        final(db)@ == (if filtered(old(db)@, col as int, op, target).1 {
            index_scan_counted(scan_counted(old(db)@))
        } else {
            scan_counted(old(db)@)
        }),
{
    let ghost m = db@;
    db.stats.scans = db.stats.scans + 1;
    let ghost n = scan_counted(m);
    assert(db@ =~= n);
    proof {
        lemma_stats(m, n);
    }
    if col == db.schema.row_id_index() && op == CmpOp::Eq {
        match target.as_int() {
            Some(i) => {
                let id: u64 = bytes::to_twos(i);
                let mut out: Vec<Row> = Vec::new();
                assert(row_models(out@) =~= Seq::empty());
                if db.rowid_map.contains(id) {
                    match materialize_row_fast(db, id) {
                        Some(row) => {
                            let ghost x = row@;
                            out.push(row);
                            assert(row_models(out@) =~= seq![x]);
                        },
                        None => {},
                    }
                }
                return Ok(out);
            },
            None => {},
        }
    }
    if op == CmpOp::Eq && col < db.schema.columns.len() {
        assert(n.schema[col as int] == db.schema.columns@[col as int]@);
        if db.schema.columns[col].index_page.is_some() {
            return index_scan(db, col, target);
        }
    }
    let ids = match mutation::collect_matching(db, col, op, target) {
        Ok(v) => v,
        Err(e) => {
            return Err(e);
        },
    };
    Ok(materialize_all(db, &ids, false))
}

// Joins and aggregates

/// Two rows have the same value in column 1, or neither has one.
pub open spec fn alike(a: RowModel, b: RowModel) -> bool {
    if a.values.len() > 1 && b.values.len() > 1 {
        value::equal(a.values[1], b.values[1])
    } else {
        a.values.len() <= 1 && b.values.len() <= 1
    }
}

/// The neighbours among the first `n` rows that have the same value in column 1.
pub open spec fn joined(s: Seq<RowModel>, n: nat) -> Seq<(RowModel, RowModel)>
    decreases n,
{
    if n < 2 {
        Seq::empty()
    } else {
        let before = joined(s, (n - 1) as nat);
        if alike(s[n - 2], s[n - 1]) {
            before.push((s[n - 2], s[n - 1]))
        } else {
            before
        }
    }
}

pub open spec fn ids_in(s: Seq<RowModel>) -> Seq<u64> {
    Seq::new(s.len(), |i: int| s[i].id)
}

pub open spec fn pair_models(s: Seq<(Row, Row)>) -> Seq<(RowModel, RowModel)> {
    Seq::new(s.len(), |i: int| (s[i].0@, s[i].1@))
}

fn is_alike(a: &Row, b: &Row) -> (r: bool)
    ensures
        r == alike(a@, b@),
{
    if a.values.len() > 1 && b.values.len() > 1 {
        value::is_equal(&a.values[1], &b.values[1])
    } else {
        a.values.len() <= 1 && b.values.len() <= 1
    }
}

/// A self merge-join on the id column (a demonstration of the join machinery):
/// the neighbours in id order that have the same value in column 1.
pub fn merge_join(db: &mut Database) -> (out: Vec<(Row, Row)>)
    requires
        old(db).wf(),
        old(db)@.stats.scans < u64::MAX,
    ensures
        final(db).wf(),
        final(db)@ == scan_counted(old(db)@),
        exists|p: Seq<usize>|
            #[trigger] sort::is_order(ids_in(all_rows(old(db)@)), p) && pair_models(out@) == joined(
                sort::arranged(all_rows(old(db)@), p),
                p.len(),
            ),
{
    let rows = scan_all(db);
    let ghost s = row_models(rows@);
    let mut ids: Vec<u64> = Vec::new();
    let mut i: usize = 0;
    while i < rows.len()
        invariant
            i <= rows@.len(),
            s == row_models(rows@),
            ids@ == ids_in(s.take(i as int)),
        decreases rows@.len() - i,
    {
        ids.push(rows[i].id);
        i += 1;
        assert(ids@ =~= ids_in(s.take(i as int)));
    }
    assert(s.take(i as int) =~= s);
    let order = sort::stable_order(&ids);
    let ghost t = sort::arranged(s, order@);
    let mut out: Vec<(Row, Row)> = Vec::new();
    let mut k: usize = 1;
    assert(pair_models(out@) =~= joined(t, 1));
    assert(joined(t, 0) =~= joined(t, 1));
    while k < order.len()
        invariant
            1 <= k,
            order@.len() == s.len(),
            s == row_models(rows@),
            s.len() == rows@.len(),
            t == sort::arranged(s, order@),
            forall|j: int| 0 <= j < order@.len() ==> (#[trigger] order@[j]) < s.len(),
            k <= order@.len() || (order@.len() == 0 && k == 1),
            pair_models(out@) == joined(t, k as nat),
        decreases order@.len() - k,
    {
        let a: usize = order[k - 1];
        let b: usize = order[k];
        assert(t[k - 1] == rows@[a as int]@);
        assert(t[k as int] == rows@[b as int]@);
        if is_alike(&rows[a], &rows[b]) {
            let ghost was = out@;
            let x = copy_row(&rows[a]);
            let y = copy_row(&rows[b]);
            let ghost p = (x@, y@);
            out.push((x, y));
            assert(pair_models(out@) =~= pair_models(was).push(p));
        }
        k += 1;
    }
    proof {
        if order@.len() == 0 {
            assert(joined(t, 0) =~= joined(t, 1));
        }
        assert(pair_models(out@) == joined(t, order@.len()));
        assert(sort::is_order(ids_in(all_rows(old(db)@)), order@));
    }
    out
}

/// An aggregate over a column: count, sum (ints), min, max.
#[derive(Debug, Clone, Copy)]
pub struct Agg {
    pub count: u64,
    pub sum: i128,
    pub min: Option<Value>,
    pub max: Option<Value>,
}

/// The value of a row in a column.
pub open spec fn value_in(r: RowModel, col: int) -> Value {
    if col < r.values.len() {
        r.values[col]
    } else {
        Value::Null
    }
}

/// The aggregate of rows over a column: how many values are not null, the sum of
/// the integers, and the first smallest and first largest value.
pub open spec fn aggregated(s: Seq<RowModel>, col: int) -> (nat, int, Option<Value>, Option<Value>)
    decreases s.len(),
{
    if s.len() == 0 {
        (0, 0, None, None)
    } else {
        let (count, sum, min, max) = aggregated(s.drop_last(), col);
        let v = value_in(s.last(), col);
        if v is Null {
            (count, sum, min, max)
        } else {
            (
                count + 1,
                sum + match v.spec_as_int() {
                    Some(i) => i as int,
                    None => 0,
                },
                match min {
                    Some(m) if value::value_side(v, m) != Side::Below => Some(m),
                    _ => Some(v),
                },
                match max {
                    Some(m) if value::value_side(v, m) != Side::Above => Some(m),
                    _ => Some(v),
                },
            )
        }
    }
}

pub fn aggregate(db: &mut Database, col: usize) -> (a: Agg)
    requires
        old(db).wf(),
        old(db)@.stats.scans < u64::MAX,
    ensures
        final(db).wf(),
        final(db)@ == scan_counted(old(db)@),
        (a.count as nat, a.sum as int, a.min, a.max) == aggregated(all_rows(old(db)@), col as int),
{
    let rows = scan_all(db);
    let ghost s = row_models(rows@);
    let mut a = Agg { count: 0, sum: 0, min: None, max: None };
    let mut i: usize = 0;
    assert(s.take(0) =~= Seq::empty());
    while i < rows.len()
        invariant
            i <= rows@.len(),
            s == row_models(rows@),
            a.count <= i,
            -(a.count as int) * 0x8000_0000_0000_0000 <= a.sum <= a.count * 0x8000_0000_0000_0000,
            (a.count as nat, a.sum as int, a.min, a.max) == aggregated(s.take(i as int), col as int),
        decreases rows@.len() - i,
    {
        proof {
            assert(s[i as int] == rows@[i as int]@);
            assert(s.take(i + 1).drop_last() =~= s.take(i as int));
        }
        let v: Value = if col < rows[i].values.len() {
            rows[i].values[col]
        } else {
            Value::Null
        };
        if !v.is_null() {
            a.count = a.count + 1;
            match v.as_int() {
                Some(x) => {
                    a.sum = a.sum + x as i128;
                },
                None => {},
            }
            a.min = match a.min {
                Some(m) => if value::compare(&v, &m) == Side::Below {
                    Some(v)
                } else {
                    Some(m)
                },
                None => Some(v),
            };
            a.max = match a.max {
                Some(m) => if value::compare(&v, &m) == Side::Above {
                    Some(v)
                } else {
                    Some(m)
                },
                None => Some(v),
            };
        }
        i += 1;
    }
    assert(s.take(i as int) =~= s);
    a
}

/// The extremes of a column: where a row has a value that is not null, there are a
/// smallest and a largest value, no value is below the one or above the other, and
/// each is the value of some row. Without such a row there is neither.
pub proof fn lemma_extremes(s: Seq<RowModel>, col: int)
    requires
        0 <= col,
        forall|i: int| 0 <= i < s.len() ==> col < (#[trigger] s[i]).values.len(),
    ensures
        ({
            let (count, sum, min, max) = aggregated(s, col);
            &&& forall|i: int|
                0 <= i < s.len() && !((#[trigger] s[i]).values[col] is Null) ==> {
                    &&& min matches Some(m) && value::value_side(s[i].values[col], m) != Side::Below
                    &&& max matches Some(m) && value::value_side(s[i].values[col], m) != Side::Above
                }
            &&& min matches Some(m) ==> exists|i: int|
                0 <= i < s.len() && (#[trigger] s[i]).values[col] == m && !(s[i].values[col] is Null)
            &&& max matches Some(m) ==> exists|i: int|
                0 <= i < s.len() && (#[trigger] s[i]).values[col] == m && !(s[i].values[col] is Null)
            &&& (count == 0) == (min is None) && (count == 0) == (max is None)
        }),
    decreases s.len(),
{
    if s.len() > 0 {
        let d = s.drop_last();
        assert forall|i: int| 0 <= i < d.len() implies col < (#[trigger] d[i]).values.len() by {
            assert(d[i] == s[i]);
        }
        lemma_extremes(d, col);
        let (count, sum, min, max) = aggregated(d, col);
        let (count1, sum1, min1, max1) = aggregated(s, col);
        let n = s.len() - 1;
        let v = s[n].values[col];
        assert(value_in(s.last(), col) == v);
        assert forall|i: int| 0 <= i < s.len() && !((#[trigger] s[i]).values[col] is Null) implies {
            &&& min1 matches Some(m) && value::value_side(s[i].values[col], m) != Side::Below
            &&& max1 matches Some(m) && value::value_side(s[i].values[col], m) != Side::Above
        } by {
            value::lemma_value_order(v, v, v);
            if i < n {
                assert(d[i] == s[i]);
                let w = s[i].values[col];
                value::lemma_value_order(v, min->0, w);
                value::lemma_value_order(w, max->0, v);
                value::lemma_value_order(w, min->0, v);
                value::lemma_value_order(v, max->0, w);
            }
        }
        if let Some(m) = min {
            let i = choose|i: int| 0 <= i < d.len() && (#[trigger] d[i]).values[col] == m && !(d[i].values[col] is Null);
            assert(s[i] == d[i]);
        }
        if let Some(m) = max {
            let i = choose|i: int| 0 <= i < d.len() && (#[trigger] d[i]).values[col] == m && !(d[i].values[col] is Null);
            assert(s[i] == d[i]);
        }
        assert(s[n].values[col] == v);
    }
}

/// Counts and sums: those of two lists of rows one after the other are the counts and
/// sums of both added; a row with an integer counts one and adds the integer, a row
/// with a null counts and adds nothing, and no row counts nothing.
pub proof fn lemma_totals(s: Seq<RowModel>, t: Seq<RowModel>, r: RowModel, col: int)
    requires
        0 <= col < r.values.len(),
    ensures
        aggregated(s + t, col).0 == aggregated(s, col).0 + aggregated(t, col).0,
        aggregated(s + t, col).1 == aggregated(s, col).1 + aggregated(t, col).1,
        r.values[col] matches Value::Int(i) ==> aggregated(seq![r], col) == (
            1nat,
            i as int,
            Some(r.values[col]),
            Some(r.values[col]),
        ),
        r.values[col] is Null ==> aggregated(seq![r], col).0 == 0 && aggregated(seq![r], col).1 == 0,
        !(r.values[col] is Null) ==> aggregated(seq![r], col).0 == 1,
        r.values[col] is Text ==> aggregated(seq![r], col).1 == 0,
        aggregated(Seq::empty(), col).0 == 0 && aggregated(Seq::empty(), col).1 == 0,
    decreases t.len(),
{
    let one = seq![r];
    assert(one.drop_last() =~= Seq::<RowModel>::empty());
    assert(one.last() == r);
    assert(aggregated(one.drop_last(), col) == (0nat, 0int, None::<Value>, None::<Value>));
    if t.len() == 0 {
        assert(s + t =~= s);
    } else {
        lemma_totals(s, t.drop_last(), r, col);
        assert((s + t).drop_last() =~= s + t.drop_last());
        assert((s + t).last() == t.last());
    }
}

/// The self join: its pairs are neighbours, of which the first stands right before
/// the second and both have one value in column 1 or none, and all such neighbours
/// are there, in order.
pub proof fn lemma_neighbours(s: Seq<RowModel>, n: nat) -> (at: Seq<int>)
    requires
        n <= s.len(),
    ensures
        at.len() == joined(s, n).len(),
        forall|k: int|
            0 <= k < at.len() ==> 0 <= #[trigger] at[k] && at[k] + 1 < n && joined(s, n)[k] == (s[at[k]], s[at[k] + 1]),
        forall|k: int, l: int| 0 <= k < l < at.len() ==> at[k] < at[l],
        forall|i: int|
            0 <= i && i + 1 < n ==> (#[trigger] at.contains(i) <==> if s[i].values.len() > 1 && s[i + 1].values.len() > 1 {
                value::equal(s[i].values[1], s[i + 1].values[1])
            } else {
                s[i].values.len() <= 1 && s[i + 1].values.len() <= 1
            }),
    decreases n,
{
    if n < 2 {
        Seq::empty()
    } else {
        let before = lemma_neighbours(s, (n - 1) as nat);
        let at = if alike(s[n - 2], s[n - 1]) {
            before.push(n - 2)
        } else {
            before
        };
        assert forall|i: int| 0 <= i && i + 1 < n implies (#[trigger] at.contains(i) <==> if s[i].values.len() > 1 && s[i
            + 1].values.len() > 1 {
            value::equal(s[i].values[1], s[i + 1].values[1])
        } else {
            s[i].values.len() <= 1 && s[i + 1].values.len() <= 1
        }) by {
            if before.contains(i) {
                let k = before.index_of(i);
                assert(before[k] == i);
                assert(at[k] == i);
            }
            if at.contains(i) && i < n - 2 {
                let k = at.index_of(i);
                assert(before[k] == i);
            }
            if i == n - 2 {
                if alike(s[n - 2], s[n - 1]) {
                    assert(at[before.len() as int] == i);
                } else if at.contains(i) {
                    let k = before.index_of(i);
                    assert(before[k] + 1 < n - 1);
                }
            }
        }
        at
    }
}

} // verus!
