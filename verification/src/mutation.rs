//! Insert / update / delete.
//!
//! The mutation layer appends rows to data pages, resolves text values through
//! dictionary pages, and keeps the row-id map and the secondary indexes in
//! sync with the data.

use crate::body;
use crate::body::{ColumnRegion, DataPageBody};
use crate::bytes;
use crate::database;
use crate::database::Database;
use crate::dict;
use crate::dict::Dict;
use crate::error::{DecodeError, Result};
use crate::fault;
use crate::fault::Fault;
use crate::fsm;
use crate::index;
use crate::keymap;
use crate::pager;
use crate::pager::{PageId, PageKind, SlotEntry};
use crate::rle;
use crate::rowid;
use crate::rowid::Home;
use crate::schema;
use crate::schema::{ColKind, Encoding};
use crate::value;
use crate::value::{CmpOp, Side, Value};
use crate::zonemap::Zone;
use vstd::prelude::*;

verus! {

/// A small data page, in bytes, before a new one is allocated.
pub const PAGE_DATA_CAPACITY: usize = 256;

// Reading

/// Cell `col` of a row: of the row's home page, at the row's slot.
pub open spec fn cell_of(m: database::DbModel, row_id: u64, col: int) -> Option<Value> {
    match m.home(row_id) {
        None => None,
        Some(h) => match m.pager.page(h.page) {
            None => None,
            Some(p) => match body::body_of(p.buf) {
                Err(_) => None,
                Ok(b) => if col < b.regions.len() {
                    Some(body::cell_at(b.regions[col], h.slot as int))
                } else {
                    None
                },
            },
        },
    }
}

/// Cell `col` of a row: of the row's home page, at the place that the row's slot
/// entry names.
pub open spec fn slot_cell(m: database::DbModel, row_id: u64, col: int) -> Option<Value> {
    match m.home(row_id) {
        None => None,
        Some(h) => match m.pager.page(h.page) {
            None => None,
            Some(p) => if h.slot >= p.dir().len() {
                None
            } else {
                match body::body_of(p.buf) {
                    Err(_) => None,
                    Ok(b) => if col < b.regions.len() {
                        Some(body::cell_at(b.regions[col], p.dir()[h.slot as int].off as int))
                    } else {
                        None
                    },
                }
            },
        },
    }
}

/// Read one cell of a row by id, going through the row-id map.
pub fn read_row_cell(db: &Database, row_id: u64, col: usize) -> (r: Option<Value>)
    requires
        db.wf(),
    ensures
        r == cell_of(db@, row_id, col as int),
{
    let (pid, slot) = match db.rowid_map.get(row_id) {
        Some(v) => v,
        None => return None,
    };
    let page = match db.pager.get(pid) {
        Some(p) => p,
        None => return None,
    };
    let b = match body::decode_body(page.buf.as_slice()) {
        Ok(b) => b,
        Err(_) => return None,
    };
    if col >= b.regions.len() {
        return None;
    }
    assert(b@.regions[col as int] == b.regions@[col as int]@);
    Some(body::read_cell(&b.regions[col], slot, db.dict_for(col), &db.pager))
}

/// Read a cell through the row's slot entry.
///
/// This is the path used by id-driven scans and lookups.
pub fn read_row_cell_fast(db: &Database, row_id: u64, col: usize) -> (r: Option<Value>)
    requires
        db.wf(),
    ensures
        r == slot_cell(db@, row_id, col as int),
{
    let (pid, slot) = match db.rowid_map.get(row_id) {
        Some(v) => v,
        None => return None,
    };
    let page = match db.pager.get(pid) {
        Some(p) => p,
        None => return None,
    };
    let entry = match page.slot_at(slot) {
        Some(e) => e,
        None => return None,
    };
    let b = match body::decode_body(page.buf.as_slice()) {
        Ok(b) => b,
        Err(_) => return None,
    };
    if col >= b.regions.len() {
        return None;
    }
    assert(b@.regions[col as int] == b.regions@[col as int]@);
    Some(body::read_cell(&b.regions[col], entry.off as usize, db.dict_for(col), &db.pager))
}

/// Total live rows.
pub fn live_rows(db: &Database) -> (r: usize)
    ensures
        r == db@.rows.len(),
{
    db.rowid_map.len()
}

// Interning

/// An index that reads its words in a page.
pub open spec fn index_over(x: Option<index::IndexModel>, page: PageId) -> Option<index::IndexModel> {
    match x {
        Some(x) => Some(index::IndexModel { dict_page: page, ..x }),
        None => None,
    }
}

/// A database in which a text column has a dictionary page, which its index reads.
pub open spec fn with_dict_page(m: database::DbModel, col: int) -> database::DbModel {
    if m.schema[col].dict_page is Some {
        m
    } else {
        let pid = m.pager.next_id();
        database::DbModel {
            pager: m.pager.allocated(PageKind::Dict, dict::slab(Seq::empty(), 64)),
            schema: m.schema.update(col, schema::ColumnModel { dict_page: Some(pid), ..m.schema[col] }),
            dicts: m.dicts.update(col, Some(dict::fresh_dict(pid))),
            indexes: m.indexes.update(col, index_over(m.indexes[col], pid)),
            ..m
        }
    }
}

/// What interning a text for a column makes of a database, and its id or why it
/// fails.
pub open spec fn text_interned(m: database::DbModel, col: int, word: Seq<u8>) -> (
    database::DbModel,
    std::result::Result<u32, Fault>,
) {
    if col >= m.schema.len() {
        (m, Err(Fault::NoColumn(col as nat)))
    } else if m.schema[col].kind != ColKind::Text {
        (m, Err(Fault::NotText(m.schema[col].name)))
    } else if m.schema[col].dict_page is None && !m.pager.has_room() {
        (m, Err(Fault::Decode(DecodeError::Oversized)))
    } else {
        let n = with_dict_page(m, col);
        match n.dicts[col] {
            None => (n, Err(Fault::NoMirror)),
            Some(d) => match (dict::id_in(d.by_bytes, word), n.pager.page(d.page_id)) {
                (Some(id), _) => (n, Ok(id)),
                (None, None) => (n, Err(Fault::Vanished)),
                (None, Some(p)) => if !d.admits(p.buf, word) {
                    (n, Err(Fault::Decode(DecodeError::Oversized)))
                } else {
                    let (e, q, id) = d.interned(p, word);
                    (
                        database::DbModel {
                            pager: n.pager.with_page(d.page_id, q),
                            dicts: n.dicts.update(col, Some(e)),
                            ..n
                        },
                        Ok(id),
                    )
                },
            },
        }
    }
}

fn ensure_dict_page(db: &mut Database, col: usize)
    requires
        old(db).wf(),
        col < old(db)@.schema.len(),
        old(db)@.schema[col as int].dict_page is Some || old(db)@.pager.has_room(),
    ensures
        final(db).wf(),
        final(db)@ == with_dict_page(old(db)@, col as int),
{
    let ghost m = db@;
    assert(m.schema[col as int] == db.schema.columns@[col as int]@);
    if db.schema.columns[col].dict_page.is_none() {
        let pid: PageId = Dict::allocate(&mut db.pager);
        let ghost was = db.schema.columns@;
        let mut column = db.schema.columns.remove(col);
        column.dict_page = Some(pid);
        let ghost c = column@;
        let ghost now = column;
        db.schema.columns.insert(col, column);
        let ghost dicts = db.dicts@;
        db.dicts.set(col, Some(Dict::new(pid)));
        let ghost indexes = db.indexes@;
        let mut index = db.indexes.remove(col);
        assert(m.indexes[col as int] == database::index_view(indexes[col as int]));
        if let Some(x) = &mut index {
            x.dict_page = pid;
        }
        let ghost over = index;
        db.indexes.insert(col, index);
        proof {
            assert(db.indexes@ =~= indexes.update(col as int, over));
            assert(database::index_view(over) =~= index_over(m.indexes[col as int], pid));
            assert(db@.indexes =~= m.indexes.update(col as int, index_over(m.indexes[col as int], pid)));
            assert(db.schema.columns@ =~= was.update(col as int, now));
            assert(db@.schema =~= m.schema.update(col as int, c));
            assert(db@.dicts =~= m.dicts.update(col as int, Some(dict::fresh_dict(pid))));
            assert(db@ =~= with_dict_page(m, col as int));
        }
    }
}

/// Intern a text byte string for a column, returning its dictionary id. The
/// column must be a text column; if its dictionary page has not been allocated
/// yet, it is allocated here.
pub fn intern_text(db: &mut Database, col: usize, word: &[u8]) -> (r: Result<u32>)
    requires
        old(db).wf(),
    ensures
        final(db).wf(),
        ({
            let (m, res) = text_interned(old(db)@, col as int, word@);
            &&& final(db)@ == m
            &&& match (r, res) {
                (Ok(a), Ok(b)) => a == b,
                (Err(e), Err(f)) => fault::reports(e, f),
                _ => false,
            }
        }),
{
    if col >= db.schema.columns.len() {
        return Err(fault::no_column(col));
    }
    assert(db@.schema[col as int] == db.schema.columns@[col as int]@);
    if db.schema.columns[col].kind != ColKind::Text {
        return Err(fault::not_text(db.schema.columns[col].name.as_str()));
    }
    if db.schema.columns[col].dict_page.is_none() && !db.pager.room() {
        return Err(fault::oversized());
    }
    ensure_dict_page(db, col);
    let ghost n = db@;
    assert(n.dicts[col as int] == database::dict_view(db.dicts@[col as int]));
    assert(database::dict_ok(n.dicts[col as int]));
    let ghost was = db.dicts@;
    let mut d: Dict = match db.dicts.remove(col) {
        Some(d) => d,
        None => {
            db.dicts.insert(col, None);
            proof {
                assert(db.dicts@ =~= was);
            }
            return Err(fault::no_mirror());
        },
    };
    let ghost model = d@;
    let room = admitted(&d, &db.pager, word);
    let r: Result<u32> = match room {
        Ok(_) => d.intern(&mut db.pager, word),
        Err(e) => Err(e),
    };
    let ghost after = d;
    db.dicts.insert(col, Some(d));
    proof {
        assert(db.dicts@ =~= was.update(col as int, Some(after)));
        assert(db@.dicts =~= n.dicts.update(col as int, Some(after@)));
        assert(n.dicts.update(col as int, Some(model)) =~= n.dicts);
        assert forall|i: int| 0 <= i < db@.dicts.len() implies database::dict_ok(#[trigger] db@.dicts[i]) by {
            if i != col {
                assert(db@.dicts[i] == n.dicts[i]);
            }
        }
        assert(db@ =~= text_interned(old(db)@, col as int, word@).0);
    }
    r
}

/// Whether a dictionary takes a word: its page is there, and the word is known or
/// the sizes fit.
fn admitted(d: &Dict, pager: &pager::Pager, word: &[u8]) -> (r: Result<()>)
    requires
        d.wf(),
        pager.wf(),
    ensures
        match (dict::id_in(d@.by_bytes, word@), pager@.page(d@.page_id)) {
            (Some(_), _) => r is Ok,
            (None, None) => r matches Err(e) && fault::reports(e, Fault::Vanished),
            (None, Some(p)) => if d@.admits(p.buf, word@) {
                r is Ok
            } else {
                r matches Err(e) && fault::reports(e, Fault::Decode(DecodeError::Oversized))
            },
        },
{
    if d.id_of(word).is_some() {
        return Ok(());
    }
    let page = match pager.get(d.page()) {
        Some(p) => p,
        None => return Err(fault::vanished()),
    };
    if d.admits_word(page.buf.as_slice(), word) {
        Ok(())
    } else {
        Err(fault::oversized())
    }
}

// Inserting

/// The value for a column, null where none is given.
pub open spec fn value_for(values: Seq<Value>, i: int) -> Value {
    if i < values.len() {
        values[i]
    } else {
        Value::Null
    }
}

/// The width of a row.
pub open spec fn row_width(c: Seq<schema::ColumnModel>) -> nat
    decreases c.len(),
{
    if c.len() == 0 {
        0
    } else {
        row_width(c.drop_last()) + body::width(c.last().kind)
    }
}

/// The body of a page; one without rows where the page is empty.
pub open spec fn body_in(p: pager::PageModel, c: Seq<schema::ColumnModel>) -> std::result::Result<
    body::BodyModel,
    DecodeError,
> {
    if p.buf.len() == 0 {
        Ok(body::blank_body(c))
    } else {
        body::body_of(p.buf)
    }
}

/// A body with one more row.
pub open spec fn grown(b: body::BodyModel, values: Seq<Value>) -> body::BodyModel {
    let regions = Seq::new(b.regions.len(), |i: int| body::appended(b.regions[i], value_for(values, i)));
    body::BodyModel {
        num_rows: if regions.len() == 0 {
            0
        } else {
            body::cell_count(regions[0]) as u32
        },
        regions,
    }
}

/// A grown body and a slot directory fit the stored form.
pub open spec fn row_fits(b: body::BodyModel, values: Seq<Value>, slots: nat) -> bool {
    &&& body::body_fits(b)
    &&& body::body_fits(grown(b, values))
    &&& b.regions.len() > 0 ==> body::cell_count(grown(b, values).regions[0]) <= u32::MAX
    &&& slots < u32::MAX
}

/// The rows noted for a page.
pub open spec fn noted(r: Seq<(u64, Seq<u64>)>, pid: PageId) -> Seq<u64> {
    match keymap::find(r, pid as u64) {
        Some(v) => v,
        None => Seq::empty(),
    }
}

/// A database with a row appended to a page, or why it cannot be.
pub open spec fn row_appended(
    m: database::DbModel,
    pid: PageId,
    row_id: u64,
    values: Seq<Value>,
    width: u32,
) -> std::result::Result<database::DbModel, Fault> {
    match m.pager.page(pid) {
        None => Err(Fault::Vanished),
        Some(p) => match body_in(p, m.schema) {
            Err(e) => Err(Fault::Decode(e)),
            Ok(b) => if !row_fits(b, values, p.dir().len()) {
                Err(Fault::Decode(DecodeError::Oversized))
            } else {
                let slot = p.dir().len() as u32;
                Ok(
                    database::DbModel {
                        pager: m.pager.with_page(
                            pid,
                            p.rewritten(
                                body::body_bytes(grown(b, values)),
                                p.dir().push(SlotEntry { row_id, off: slot, len: width, live: true }),
                            ),
                        ),
                        rows: keymap::put(m.rows, row_id, Home { page: pid, slot }),
                        page_rows: keymap::put(m.page_rows, pid as u64, noted(m.page_rows, pid).push(row_id)),
                        ..m
                    },
                )
            },
        },
    }
}

pub fn fresh_body(db: &Database) -> (b: DataPageBody)
    ensures
        b@ == body::blank_body(db@.schema),
{
    let mut regions: Vec<ColumnRegion> = Vec::new();
    let mut i: usize = 0;
    while i < db.schema.columns.len()
        invariant
            i <= db.schema.columns@.len(),
            regions@.len() == i,
            forall|j: int|
                0 <= j < i ==> (#[trigger] regions@[j])@ == body::blank_region(
                    db@.schema[j].kind,
                    db@.schema[j].encoding,
                ),
        decreases db.schema.columns@.len() - i,
    {
        let c = &db.schema.columns[i];
        assert(db@.schema[i as int] == c@);
        regions.push(ColumnRegion::new(c.kind, c.encoding));
        i += 1;
    }
    let b = DataPageBody { num_rows: 0, regions };
    assert(b@ =~= body::blank_body(db@.schema));
    b
}

/// Append a value to every region; fails where lengths do not fit.
fn grow_body(b: &mut DataPageBody, values: &[Value]) -> (r: bool)
    ensures
        r == (body::body_fits(old(b)@) && body::body_fits(grown(old(b)@, values@)) && (old(b)@.regions.len() > 0
            ==> body::cell_count(grown(old(b)@, values@).regions[0]) <= u32::MAX)),
        r ==> final(b)@ == grown(old(b)@, values@),
{
    let ghost was = b@;
    if !body::fits(b) {
        return false;
    }
    let mut i: usize = 0;
    while i < b.regions.len()
        invariant
            i <= b.regions@.len(),
            b.regions@.len() == was.regions.len(),
            b.num_rows == was.num_rows,
            body::body_fits(was),
            forall|j: int| 0 <= j < i ==> (#[trigger] b.regions@[j])@ == grown(was, values@).regions[j],
            forall|j: int| i <= j < was.regions.len() ==> (#[trigger] b.regions@[j])@ == was.regions[j],
        decreases b.regions@.len() - i,
    {
        let v: Value = if i < values.len() {
            values[i]
        } else {
            Value::Null
        };
        let ghost all = b.regions@;
        assert(all[i as int]@ == was.regions[i as int]);
        assert(was.regions[i as int].data.len() <= u32::MAX);
        let mut region = b.regions.remove(i);
        body::append_cell(&mut region, &v);
        let ghost now = region;
        b.regions.insert(i, region);
        assert(b.regions@ =~= all.update(i as int, now));
        i += 1;
    }
    let ghost g = grown(was, values@);
    assert(b@.regions =~= g.regions);
    if !body::fits(b) {
        return false;
    }
    if b.regions.len() == 0 {
        b.num_rows = 0;
    } else {
        assert(b@.regions[0] == b.regions@[0]@);
        let n: u64 = body::count_cells(&b.regions[0]);
        if n > 0xFFFF_FFFF {
            return false;
        }
        b.num_rows = n as u32;
    }
    assert(b@ =~= g);
    true
}

fn append_row(db: &mut Database, pid: PageId, row_id: u64, values: &[Value], width: u32) -> (r: Result<()>)
    requires
        old(db).wf(),
    ensures
        final(db).wf(),
        match row_appended(old(db)@, pid, row_id, values@, width) {
            Ok(m) => r is Ok && final(db)@ == m,
            Err(f) => final(db)@ == old(db)@ && (r matches Err(e) && fault::reports(e, f)),
        },
{
    let ghost m = db@;
    let (mut b, mut slots) = match db.pager.get(pid) {
        None => return Err(fault::vanished()),
        Some(page) => {
            let b = if page.buf.len() == 0 {
                fresh_body(db)
            } else {
                match body::decode_body(page.buf.as_slice()) {
                    Ok(b) => b,
                    Err(e) => return Err(e),
                }
            };
            (b, page.slots())
        },
    };
    let ghost p = m.pager.page(pid)->0;
    let ghost b0 = b@;
    assert(body_in(p, m.schema) == Ok::<body::BodyModel, DecodeError>(b0));
    let slot: usize = slots.len();
    if !grow_body(&mut b, values) || slot as u64 >= 0xFFFF_FFFF {
        return Err(fault::oversized());
    }
    slots.push(SlotEntry::new(row_id, slot as u32, width));
    let bytes = body::encode_body(&b);
    let _ = db.pager.rewrite(pid, bytes, slots);
    db.rowid_map.insert(row_id, pid, slot as u32);
    note_row(db, pid, row_id);
    assert(db@ =~= row_appended(m, pid, row_id, values@, width)->Ok_0);
    Ok(())
}

fn note_row(db: &mut Database, pid: PageId, row_id: u64)
    requires
        old(db).wf(),
    ensures
        final(db).wf(),
        final(db)@ == (database::DbModel {
            page_rows: keymap::put(old(db)@.page_rows, pid as u64, noted(old(db)@.page_rows, pid).push(row_id)),
            ..old(db)@
        }),
{
    let ghost was = db.page_rows@;
    let mut rows: Vec<u64> = match db.page_rows.remove(pid as u64) {
        Some(v) => v,
        None => {
            let v: Vec<u64> = Vec::new();
            assert(v@ =~= Seq::<u64>::empty());
            v
        },
    };
    assert(rows@ == noted(was, pid));
    rows.push(row_id);
    proof {
        keymap::lemma_put_cut(was, pid as u64, rows@);
    }
    db.page_rows.insert(pid as u64, rows);
    assert(db@ =~= (database::DbModel { page_rows: db.page_rows@, ..old(db)@ }));
}

/// The index of a column once a row carries a value there.
pub open spec fn index_noted(m: database::DbModel, ci: int, row_id: u64, v: Value) -> Option<index::IndexModel> {
    match (m.indexes[ci], m.schema[ci].index_page, v, m.schema[ci].dict_page, m.dicts[ci]) {
        (Some(x), Some(_), Value::Text(id), Some(dp), Some(d)) => match (
            keymap::find(d.entries, id as u64),
            m.pager.page(dp),
        ) {
            (Some(l), Some(p)) => Some(
                index::IndexModel { entries: index::with_row(x.entries, id, l.off, p.gen, row_id), ..x },
            ),
            _ => Some(x),
        },
        (x, _, _, _, _) => x,
    }
}

/// A database whose index of one column has noted a row's value.
fn note_index(db: &mut Database, ci: usize, row_id: u64, v: Value)
    requires
        old(db).wf(),
        ci < old(db)@.schema.len(),
    ensures
        final(db).wf(),
        final(db)@ == (database::DbModel {
            indexes: old(db)@.indexes.update(ci as int, index_noted(old(db)@, ci as int, row_id, v)),
            ..old(db)@
        }),
{
    let ghost m = db@;
    assert(m.schema[ci as int] == db.schema.columns@[ci as int]@);
    assert(m.indexes[ci as int] == database::index_view(db.indexes@[ci as int]));
    assert(m.dicts[ci as int] == database::dict_view(db.dicts@[ci as int]));
    assert(database::dict_ok(m.dicts[ci as int]));
    assert(m.indexes.update(ci as int, m.indexes[ci as int]) =~= m.indexes);
    let id: u32 = match v {
        Value::Text(id) => id,
        _ => {
            return;
        },
    };
    if db.schema.columns[ci].index_page.is_none() {
        return;
    }
    let dp: u32 = match db.schema.columns[ci].dict_page {
        Some(p) => p,
        None => {
            return;
        },
    };
    let off: u32 = match &db.dicts[ci] {
        Some(d) => match d.location_of(id) {
            Some((o, _)) => o,
            None => {
                return;
            },
        },
        None => {
            return;
        },
    };
    let gen: u64 = match db.pager.get(dp) {
        Some(p) => p.gen,
        None => {
            return;
        },
    };
    let ghost was = db.indexes@;
    match db.indexes.remove(ci) {
        Some(mut x) => {
            x.add_or_append(id, off, gen, row_id);
            let ghost now = x;
            db.indexes.insert(ci, Some(x));
            proof {
                assert(db.indexes@ =~= was.update(ci as int, Some(now)));
                assert(db@.indexes =~= m.indexes.update(ci as int, Some(now@)));
            }
        },
        None => {
            db.indexes.insert(ci, None);
            proof {
                assert(db.indexes@ =~= was);
            }
        },
    }
    assert(db@ =~= (database::DbModel {
        indexes: m.indexes.update(ci as int, index_noted(m, ci as int, row_id, v)),
        ..m
    }));
}

/// All indexes once a row carries its values.
pub open spec fn indexes_noted(m: database::DbModel, row_id: u64, values: Seq<Value>) -> Seq<
    Option<index::IndexModel>,
> {
    Seq::new(m.indexes.len(), |ci: int| index_noted(m, ci, row_id, value_for(values, ci)))
}

fn update_indexes_for_row(db: &mut Database, row_id: u64, values: &[Value])
    requires
        old(db).wf(),
    ensures
        final(db).wf(),
        final(db)@ == (database::DbModel { indexes: indexes_noted(old(db)@, row_id, values@), ..old(db)@ }),
{
    let ghost m = db@;
    let mut ci: usize = 0;
    while ci < db.schema.columns.len()
        invariant
            ci <= m.schema.len(),
            db.wf(),
            m == old(db)@,
            m.wf(),
            db@ == (database::DbModel { indexes: db@.indexes, ..m }),
            db@.indexes.len() == m.indexes.len(),
            forall|j: int| 0 <= j < ci ==> #[trigger] db@.indexes[j] == indexes_noted(m, row_id, values@)[j],
            forall|j: int| ci <= j < m.indexes.len() ==> #[trigger] db@.indexes[j] == m.indexes[j],
        decreases m.schema.len() - ci,
    {
        let v: Value = if ci < values.len() {
            values[ci]
        } else {
            Value::Null
        };
        note_index(db, ci, row_id, v);
        ci += 1;
    }
    assert(db@.indexes =~= indexes_noted(m, row_id, values@));
}

/// The smaller and the larger of a zone's bounds and a value.
pub open spec fn widened(z: Option<Zone>, page: PageId, v: Value) -> Zone {
    match z {
        Some(o) if !(o.min is Null) => Zone {
            page,
            min: if value::value_side(v, o.min) == Side::Below {
                v
            } else {
                o.min
            },
            max: if value::value_side(v, o.max) == Side::Above {
                v
            } else {
                o.max
            },
            live_rows: more_rows(z),
        },
        _ => Zone { page, min: v, max: v, live_rows: more_rows(z) },
    }
}

/// A value lies within a zone's bounds.
pub open spec fn within(z: Zone, v: Value) -> bool {
    value::value_side(v, z.min) != Side::Below && value::value_side(v, z.max) != Side::Above
}

/// A widened zone has the new value within its bounds, and all that it had, unless
/// its lower bound was null.
pub proof fn lemma_widened(z: Option<Zone>, page: PageId, v: Value, w: Value)
    requires
        z matches Some(o) ==> value::value_side(o.min, o.max) != Side::Above,
    ensures
        within(widened(z, page, v), v),
        value::value_side(widened(z, page, v).min, widened(z, page, v).max) != Side::Above,
        z matches Some(o) ==> !(o.min is Null) ==> within(o, w) ==> within(widened(z, page, v), w),
{
}

/// One row more than a zone counts, as far as it can count.
pub open spec fn more_rows(z: Option<Zone>) -> u64 {
    match z {
        None => 1,
        Some(o) => if o.live_rows == u64::MAX {
            u64::MAX
        } else {
            (o.live_rows + 1) as u64
        },
    }
}

/// All zone maps once a page has a row of values.
pub open spec fn zones_noted(m: database::DbModel, pid: PageId, values: Seq<Value>) -> Seq<Seq<(u64, Zone)>> {
    Seq::new(
        m.zones.len(),
        |ci: int|
            if ci < m.schema.len() {
                keymap::put(
                    m.zones[ci],
                    pid as u64,
                    widened(keymap::find(m.zones[ci], pid as u64), pid, value_for(values, ci)),
                )
            } else {
                m.zones[ci]
            },
    )
}

fn widen(z: Option<Zone>, page: PageId, v: Value) -> (r: Zone)
    ensures
        r == widened(z, page, v),
{
    let live_rows: u64 = match z {
        None => 1,
        Some(o) => if o.live_rows == u64::MAX {
            u64::MAX
        } else {
            o.live_rows + 1
        },
    };
    match z {
        Some(o) => if o.min.is_null() {
            Zone { page, min: v, max: v, live_rows }
        } else {
            let min: Value = if value::compare(&v, &o.min) == Side::Below {
                v
            } else {
                o.min
            };
            let max: Value = if value::compare(&v, &o.max) == Side::Above {
                v
            } else {
                o.max
            };
            Zone { page, min, max, live_rows }
        },
        None => Zone { page, min: v, max: v, live_rows },
    }
}

fn update_zone_maps_for_row(db: &mut Database, pid: PageId, values: &[Value])
    requires
        old(db).wf(),
    ensures
        final(db).wf(),
        final(db)@ == (database::DbModel { zones: zones_noted(old(db)@, pid, values@), ..old(db)@ }),
{
    let ghost m = db@;
    let mut ci: usize = 0;
    while ci < db.schema.columns.len()
        invariant
            ci <= m.schema.len(),
            db.wf(),
            m == old(db)@,
            m.wf(),
            db@ == (database::DbModel { zones: db@.zones, ..m }),
            db@.zones.len() == m.zones.len(),
            forall|j: int| 0 <= j < ci ==> #[trigger] db@.zones[j] == zones_noted(m, pid, values@)[j],
            forall|j: int| ci <= j < m.zones.len() ==> #[trigger] db@.zones[j] == m.zones[j],
        decreases m.schema.len() - ci,
    {
        let v: Value = if ci < values.len() {
            values[ci]
        } else {
            Value::Null
        };
        let ghost was = db.zone_maps@;
        let ghost zones = db@.zones;
        assert(zones[ci as int] == was[ci as int]@);
        assert(database::zones_ok(zones[ci as int]));
        let mut zm = db.zone_maps.remove(ci);
        let z = widen(zm.get(pid), pid, v);
        zm.set(z);
        let ghost now = zm;
        db.zone_maps.insert(ci, zm);
        proof {
            assert(db.zone_maps@ =~= was.update(ci as int, now));
            assert(db@.zones =~= zones.update(ci as int, now@));
            assert forall|i: int| 0 <= i < db@.zones.len() implies database::zones_ok(#[trigger] db@.zones[i]) by {
                if i != ci {
                    assert(db@.zones[i] == zones[i]);
                }
            }
        }
        ci += 1;
    }
    assert(db@.zones =~= zones_noted(m, pid, values@));
}

/// The id that an insert gives its row.
pub open spec fn row_id_for(m: database::DbModel, values: Seq<Value>) -> u64 {
    match values[0] {
        Value::Int(i) if i > 0 => i as u64,
        _ => m.next_row_id,
    }
}

/// The database before a row is placed: the id is taken, the insert counted.
pub open spec fn id_taken(m: database::DbModel, row_id: u64) -> database::DbModel {
    database::DbModel {
        next_row_id: if m.next_row_id > row_id {
            m.next_row_id
        } else {
            (row_id + 1) as u64
        },
        stats: database::DbStats { inserts: (m.stats.inserts + 1) as u64, ..m.stats },
        ..m
    }
}

/// A page with room, found or allocated.
pub open spec fn page_for(m: database::DbModel, need: u32) -> (database::DbModel, PageId) {
    match m.fsm.page_with_space(need) {
        Some(pid) => (m, pid),
        None => {
            let pid = m.pager.next_id();
            (
                database::DbModel {
                    pager: m.pager.allocated(PageKind::Data, Seq::empty()),
                    fsm: fsm::FsmModel { space: keymap::put(m.fsm.space, pid as u64, 256), ..m.fsm },
                    ..m
                },
                pid,
            )
        },
    }
}

/// The space that a row asks for.
pub open spec fn space_for(c: Seq<schema::ColumnModel>) -> nat {
    if row_width(c) == 0 {
        1
    } else {
        row_width(c)
    }
}

/// The database once a row is in a page: the page's space, the indexes and the
/// zone maps take note.
pub open spec fn row_noted(m: database::DbModel, pid: PageId, row_id: u64, cells: Seq<Value>, need: u32) -> database::DbModel {
    let a = database::DbModel { fsm: fsm::adjusted(m.fsm, pid, -(need as int) as i64), ..m };
    let b = database::DbModel { indexes: indexes_noted(a, row_id, cells), ..a };
    database::DbModel { zones: zones_noted(b, pid, cells), ..b }
}

/// What an insert makes of a database, and the row's id or why it fails.
pub open spec fn inserted(m: database::DbModel, values: Seq<Value>) -> (
    database::DbModel,
    std::result::Result<u64, Fault>,
) {
    if values.len() != m.schema.len() {
        (m, Err(Fault::Arity("insert"@, values.len())))
    } else {
        let row_id = row_id_for(m, values);
        let a = id_taken(m, row_id);
        let cells = values.update(0, Value::Int(bytes::untwos(row_id)));
        if space_for(m.schema) > u32::MAX {
            (a, Err(Fault::Decode(DecodeError::Oversized)))
        } else {
            let need = space_for(m.schema) as u32;
            if a.fsm.page_with_space(need) is None && !a.pager.has_room() {
                (a, Err(Fault::Decode(DecodeError::Oversized)))
            } else {
                let (b, pid) = page_for(a, need);
                match row_appended(b, pid, row_id, cells, row_width(m.schema) as u32) {
                    Err(f) => (b, Err(f)),
                    Ok(c) => (row_noted(c, pid, row_id, cells, need), Ok(row_id)),
                }
            }
        }
    }
}

fn width_of(db: &Database) -> (r: Option<u32>)
    ensures
        match r {
            Some(w) => w == row_width(db@.schema),
            None => row_width(db@.schema) > u32::MAX,
        },
{
    let ghost c = db@.schema;
    let mut total: u64 = 0;
    let mut i: usize = 0;
    assert(c.take(0) =~= Seq::empty());
    while i < db.schema.columns.len()
        invariant
            i <= c.len(),
            c == db@.schema,
            total == row_width(c.take(i as int)),
            total <= 0xFFFF_FFFF,
        decreases c.len() - i,
    {
        proof {
            assert(c[i as int] == db.schema.columns@[i as int]@);
            assert(c.take(i + 1).drop_last() =~= c.take(i as int));
            lemma_row_width(c, i + 1);
        }
        total = total + body::cell_width(db.schema.columns[i].kind) as u64;
        if total > 0xFFFF_FFFF {
            return None;
        }
        i += 1;
    }
    assert(c.take(i as int) =~= c);
    Some(total as u32)
}

proof fn lemma_row_width(c: Seq<schema::ColumnModel>, n: int)
    requires
        0 <= n <= c.len(),
    ensures
        row_width(c.take(n)) <= row_width(c),
    decreases c.len() - n,
{
    if n < c.len() {
        lemma_row_width(c, n + 1);
        assert(c.take(n + 1).drop_last() =~= c.take(n));
    } else {
        assert(c.take(n) =~= c);
    }
}

/// Insert a row. `values` must be in schema column order and already resolved
/// (text values are `Value::Text(dict_id)`). The first column is the row id:
/// if it is a positive integer, that id is used (and `next_row_id` is advanced
/// past it); otherwise the next auto id is assigned. Returns the new row id.
pub fn insert(db: &mut Database, values: &[Value]) -> (r: Result<u64>)
    requires
        old(db).wf(),
        old(db)@.schema.len() > 0,
        old(db)@.next_row_id < u64::MAX,
        old(db)@.stats.inserts < u64::MAX,
    ensures
        final(db).wf(),
        ({
            let (m, res) = inserted(old(db)@, values@);
            &&& final(db)@ == m
            &&& match (r, res) {
                (Ok(a), Ok(b)) => a == b,
                (Err(e), Err(f)) => fault::reports(e, f),
                _ => false,
            }
        }),
{
    let ghost m = db@;
    if values.len() != db.schema.arity() {
        return Err(fault::arity("insert", values.len()));
    }
    let row_id: u64 = match values[0] {
        Value::Int(i) => if i > 0 {
            i as u64
        } else {
            db.next_row_id
        },
        _ => db.next_row_id,
    };
    if db.next_row_id <= row_id {
        db.next_row_id = row_id + 1;
    }
    db.stats.inserts = db.stats.inserts + 1;
    let ghost a = id_taken(m, row_id);
    assert(db@ =~= a);
    let mut cells: Vec<Value> = Vec::new();
    cells.push(Value::Int(bytes::from_twos(row_id)));
    let mut i: usize = 1;
    while i < values.len()
        invariant
            1 <= i <= values@.len(),
            cells@ == values@.update(0, Value::Int(bytes::untwos(row_id))).take(i as int),
        decreases values@.len() - i,
    {
        cells.push(values[i]);
        i += 1;
        assert(cells@ =~= values@.update(0, Value::Int(bytes::untwos(row_id))).take(i as int));
    }
    assert(cells@ =~= values@.update(0, Value::Int(bytes::untwos(row_id))));
    let width: u32 = match width_of(db) {
        Some(w) => w,
        None => {
            return Err(fault::oversized());
        },
    };
    let need: u32 = if width == 0 {
        1
    } else {
        width
    };
    let pid: PageId = match db.fsm.page_with_space(need) {
        Some(p) => p,
        None => {
            if !db.pager.room() {
                return Err(fault::oversized());
            }
            let empty: Vec<u8> = Vec::new();
            assert(empty@ =~= Seq::<u8>::empty());
            let p: PageId = db.pager.allocate(PageKind::Data, empty);
            db.fsm.set_space(p, PAGE_DATA_CAPACITY as u32);
            p
        },
    };
    let ghost b = page_for(a, need).0;
    assert(db@ =~= b);
    match append_row(db, pid, row_id, cells.as_slice(), width) {
        Ok(_) => {},
        Err(e) => {
            return Err(e);
        },
    }
    let ghost c = db@;
    db.fsm.adjust_space(pid, -(need as i64));
    assert(db@ =~= (database::DbModel { fsm: fsm::adjusted(c.fsm, pid, -(need as int) as i64), ..c }));
    update_indexes_for_row(db, row_id, cells.as_slice());
    update_zone_maps_for_row(db, pid, cells.as_slice());
    Ok(row_id)
}

// Matching

/// The rows that an index answers an equality with, where it can.
pub open spec fn indexed_rows(m: database::DbModel, col: int, op: CmpOp, target: Value) -> Option<Seq<u64>> {
    if op == CmpOp::Eq && m.schema[col].index_page is Some {
        match (m.indexes[col], m.dicts[col], target) {
            (Some(x), Some(d), Value::Text(id)) => match dict::word_of(d, m.pager, id) {
                Some(w) => Some(
                    match m.pager.page(x.dict_page) {
                        Some(p) => index::probed(x.entries, p.buf, w),
                        None => Seq::empty(),
                    },
                ),
                None => None,
            },
            _ => None,
        }
    } else {
        None
    }
}

/// The rows of a list whose cell in a column meets a comparison.
pub open spec fn scanned(m: database::DbModel, ids: Seq<u64>, col: int, op: CmpOp, target: Value) -> Seq<u64>
    decreases ids.len(),
{
    if ids.len() == 0 {
        Seq::empty()
    } else {
        let before = scanned(m, ids.drop_last(), col, op, target);
        match cell_of(m, ids.last(), col) {
            Some(v) if value::holds(op, v, target) => before.push(ids.last()),
            _ => before,
        }
    }
}

/// The rows that meet a comparison on a column, or why there is no telling.
pub open spec fn matching(m: database::DbModel, col: int, op: CmpOp, target: Value) -> std::result::Result<
    Seq<u64>,
    Fault,
> {
    if col >= m.schema.len() {
        Err(Fault::NoColumn(col as nat))
    } else {
        match indexed_rows(m, col, op, target) {
            Some(rows) => Ok(rows),
            None => Ok(scanned(m, rowid::ids_of(m.rows), col, op, target)),
        }
    }
}

fn probe_index(db: &Database, col: usize, op: CmpOp, target: Value) -> (r: Option<Vec<u64>>)
    requires
        db.wf(),
        col < db@.schema.len(),
    ensures
        match r {
            Some(v) => indexed_rows(db@, col as int, op, target) == Some(v@),
            None => indexed_rows(db@, col as int, op, target) is None,
        },
{
    assert(db@.schema[col as int] == db.schema.columns@[col as int]@);
    assert(database::dict_ok(db@.dicts[col as int]));
    if op != CmpOp::Eq || db.schema.columns[col].index_page.is_none() {
        return None;
    }
    let idx = match db.index_of(col) {
        Some(x) => x,
        None => return None,
    };
    let d = match db.dict_for(col) {
        Some(d) => d,
        None => return None,
    };
    let id: u32 = match target {
        Value::Text(id) => id,
        _ => return None,
    };
    match d.bytes_of(&db.pager, id) {
        Some(w) => Some(idx.probe(&db.pager, w)),
        None => None,
    }
}

/// Collect row ids matching a predicate. Uses the index for equality on an
/// indexed column; otherwise falls back to a full scan.
pub fn collect_matching(db: &Database, col: usize, op: CmpOp, target: Value) -> (r: Result<Vec<u64>>)
    requires
        db.wf(),
    ensures
        match (r, matching(db@, col as int, op, target)) {
            (Ok(v), Ok(s)) => v@ == s,
            (Err(e), Err(f)) => fault::reports(e, f),
            _ => false,
        },
{
    if col >= db.schema.columns.len() {
        return Err(fault::no_column(col));
    }
    match probe_index(db, col, op, target) {
        Some(rows) => {
            return Ok(rows);
        },
        None => {},
    }
    let ids = db.rowid_map.row_ids();
    let mut out: Vec<u64> = Vec::new();
    let mut i: usize = 0;
    assert(ids@.take(0) =~= Seq::empty());
    while i < ids.len()
        invariant
            i <= ids@.len(),
            db.wf(),
            out@ == scanned(db@, ids@.take(i as int), col as int, op, target),
        decreases ids@.len() - i,
    {
        assert(ids@.take(i + 1).drop_last() =~= ids@.take(i as int));
        match read_row_cell(db, ids[i], col) {
            Some(v) => {
                if op.apply(&v, &target) {
                    out.push(ids[i]);
                }
            },
            None => {},
        }
        i += 1;
    }
    assert(ids@.take(i as int) =~= ids@);
    Ok(out)
}

// Deleting

/// Indexes without a row.
pub open spec fn indexes_without(x: Seq<Option<index::IndexModel>>, row_id: u64) -> Seq<Option<index::IndexModel>> {
    Seq::new(
        x.len(),
        |i: int|
            match x[i] {
                Some(m) => Some(index::IndexModel { entries: index::dropped(m.entries, row_id), ..m }),
                None => None,
            },
    )
}

/// A database without a row: tombstoned in its page, and gone from the row-id
/// map, the indexes and the page's row list.
pub open spec fn row_deleted(m: database::DbModel, row_id: u64) -> database::DbModel {
    match m.home(row_id) {
        None => m,
        Some(h) => database::DbModel {
            rows: keymap::cut(m.rows, row_id),
            pager: pager::buried(m.pager, h.page, h.slot as int),
            indexes: indexes_without(m.indexes, row_id),
            page_rows: match keymap::find(m.page_rows, h.page as u64) {
                Some(v) => keymap::put(m.page_rows, h.page as u64, index::without(v, row_id)),
                None => m.page_rows,
            },
            ..m
        },
    }
}

/// A database without a list of rows, and how many of them it had.
pub open spec fn rows_deleted(m: database::DbModel, ids: Seq<u64>) -> (database::DbModel, nat)
    decreases ids.len(),
{
    if ids.len() == 0 {
        (m, 0)
    } else {
        let (a, n) = rows_deleted(m, ids.drop_last());
        (
            row_deleted(a, ids.last()),
            n + if a.home(ids.last()) is Some {
                1nat
            } else {
                0nat
            },
        )
    }
}

fn delete_row(db: &mut Database, row_id: u64) -> (r: bool)
    requires
        old(db).wf(),
    ensures
        final(db).wf(),
        r == (old(db)@.home(row_id) is Some),
        final(db)@ == row_deleted(old(db)@, row_id),
{
    let ghost m = db@;
    let (pid, slot) = match db.rowid_map.remove(row_id) {
        Some(v) => v,
        None => {
            assert(db@ =~= m);
            return false;
        },
    };
    db.pager.bury(pid, slot);
    let mut i: usize = 0;
    let ghost x = m.indexes;
    while i < db.indexes.len()
        invariant
            i <= db.indexes@.len(),
            x == m.indexes,
            db@ == (database::DbModel {
                rows: keymap::cut(m.rows, row_id),
                pager: pager::buried(m.pager, pid, slot as int),
                indexes: db@.indexes,
                ..m
            }),
            db.wf(),
            db@.indexes.len() == x.len(),
            forall|j: int| 0 <= j < i ==> #[trigger] db@.indexes[j] == indexes_without(x, row_id)[j],
            forall|j: int| i <= j < x.len() ==> #[trigger] db@.indexes[j] == x[j],
        decreases db.indexes@.len() - i,
    {
        let ghost was = db.indexes@;
        let ghost now = db@.indexes;
        assert(now[i as int] == database::index_view(was[i as int]));
        match db.indexes.remove(i) {
            Some(mut idx) => {
                idx.drop_row(row_id);
                let ghost after = idx;
                db.indexes.insert(i, Some(idx));
                assert(db.indexes@ =~= was.update(i as int, Some(after)));
                assert(db@.indexes =~= now.update(i as int, Some(after@)));
            },
            None => {
                db.indexes.insert(i, None);
                assert(db.indexes@ =~= was);
            },
        }
        i += 1;
    }
    assert(db@.indexes =~= indexes_without(x, row_id));
    let ghost pr = db.page_rows@;
    match db.page_rows.remove(pid as u64) {
        Some(mut rows) => {
            index::remove_row(&mut rows, row_id);
            proof {
                keymap::lemma_put_cut(pr, pid as u64, rows@);
            }
            db.page_rows.insert(pid as u64, rows);
        },
        None => {},
    }
    assert(db@ =~= row_deleted(m, row_id));
    true
}

/// The database after a delete is counted.
pub open spec fn delete_counted(m: database::DbModel) -> database::DbModel {
    database::DbModel { stats: database::DbStats { deletes: (m.stats.deletes + 1) as u64, ..m.stats }, ..m }
}

/// Delete every row matching a predicate on a column. Matching rows are
/// tombstoned in their slot directory and removed from the row-id map and the
/// indexes. Returns how many rows there were.
pub fn delete_where(db: &mut Database, col: usize, op: CmpOp, target: Value) -> (r: Result<usize>)
    requires
        old(db).wf(),
        old(db)@.stats.deletes < u64::MAX,
    ensures
        final(db).wf(),
        ({
            let m = delete_counted(old(db)@);
            match matching(m, col as int, op, target) {
                Ok(ids) => final(db)@ == rows_deleted(m, ids).0 && (r matches Ok(n) && n == rows_deleted(m, ids).1),
                Err(f) => final(db)@ == m && (r matches Err(e) && fault::reports(e, f)),
            }
        }),
{
    db.stats.deletes = db.stats.deletes + 1;
    let ghost m = delete_counted(old(db)@);
    assert(db@ =~= m);
    let ids = match collect_matching(db, col, op, target) {
        Ok(v) => v,
        Err(e) => {
            return Err(e);
        },
    };
    let mut count: usize = 0;
    let mut i: usize = 0;
    assert(ids@.take(0) =~= Seq::empty());
    while i < ids.len()
        invariant
            i <= ids@.len(),
            db.wf(),
            count <= i,
            (db@, count as nat) == rows_deleted(m, ids@.take(i as int)),
        decreases ids@.len() - i,
    {
        assert(ids@.take(i + 1).drop_last() =~= ids@.take(i as int));
        if delete_row(db, ids[i]) {
            count += 1;
        }
        i += 1;
    }
    assert(ids@.take(i as int) =~= ids@);
    Ok(count)
}

/// A deleted row is in the row-id map no more, nor in any index; other rows stay
/// where they are.
pub proof fn lemma_deleted(m: database::DbModel, row_id: u64, other: u64)
    requires
        m.wf(),
    ensures
        row_deleted(m, row_id).home(row_id) is None,
        other != row_id ==> row_deleted(m, row_id).home(other) == m.home(other),
        m.home(row_id) is Some ==> forall|i: int, k: int|
            0 <= i < m.indexes.len() && (#[trigger] m.indexes[i] matches Some(x) && 0 <= k < x.entries.len())
                ==> !(#[trigger] row_deleted(m, row_id).indexes[i]->0.entries[k]).row_ids.contains(row_id),
{
    keymap::lemma_cut(m.rows, row_id, row_id);
    keymap::lemma_cut(m.rows, row_id, other);
    if m.home(row_id) is Some {
        assert forall|i: int, k: int|
            0 <= i < m.indexes.len() && (#[trigger] m.indexes[i] matches Some(x) && 0 <= k
                < x.entries.len()) implies !(#[trigger] row_deleted(m, row_id).indexes[i]->0.entries[k]).row_ids.contains(
            row_id,
        ) by {
            index::lemma_without(m.indexes[i]->0.entries[k].row_ids, row_id);
        }
    }
}

// Updating

/// A region with a value in a cell that it holds, or why it cannot be.
pub open spec fn cell_replaced(r: body::RegionModel, slot: int, v: Value) -> std::result::Result<
    body::RegionModel,
    Fault,
> {
    if r.encoding == Encoding::Rle {
        let vals = rle::values_of(r.data);
        if vals.len() > u32::MAX {
            Err(Fault::Decode(DecodeError::Oversized))
        } else {
            Ok(
                body::RegionModel {
                    data: rle::packed(
                        if slot < vals.len() {
                            vals.update(slot, v)
                        } else {
                            vals
                        },
                    ),
                    ..r
                },
            )
        }
    } else {
        let w = body::width(r.kind) as int;
        Ok(
            body::RegionModel {
                data: if (slot + 1) * w <= r.data.len() {
                    dict::written(r.data, slot * w, body::cell_bytes(r.kind, v))
                } else {
                    r.data
                },
                ..r
            },
        )
    }
}

/// A database with a value in a cell, or why it cannot be.
pub open spec fn cell_rewritten(m: database::DbModel, h: Home, col: int, v: Value) -> std::result::Result<
    database::DbModel,
    Fault,
> {
    match m.pager.page(h.page) {
        None => Err(Fault::Vanished),
        Some(p) => match body::body_of(p.buf) {
            Err(e) => Err(Fault::Decode(e)),
            Ok(b) => if col >= b.regions.len() {
                Ok(m)
            } else {
                match cell_replaced(b.regions[col], h.slot as int, v) {
                    Err(f) => Err(f),
                    Ok(r) => {
                        let c = body::BodyModel { regions: b.regions.update(col, r), ..b };
                        if body::body_fits(c) {
                            Ok(
                                database::DbModel {
                                    pager: m.pager.with_page(
                                        h.page,
                                        pager::PageModel { buf: body::body_bytes(c), ..p },
                                    ),
                                    ..m
                                },
                            )
                        } else {
                            Err(Fault::Decode(DecodeError::Oversized))
                        }
                    },
                }
            },
        },
    }
}

/// A database whose index of a column lists a row under its new value only.
pub open spec fn reindexed(m: database::DbModel, ci: int, row_id: u64, v: Value) -> database::DbModel {
    if ci < m.schema.len() {
        let a = database::DbModel {
            indexes: m.indexes.update(
                ci,
                match m.indexes[ci] {
                    Some(x) => Some(index::IndexModel { entries: index::dropped(x.entries, row_id), ..x }),
                    None => None,
                },
            ),
            ..m
        };
        database::DbModel { indexes: a.indexes.update(ci, index_noted(a, ci, row_id, v)), ..a }
    } else {
        m
    }
}

/// A database with a value in a column of a list of rows, or as far as it got
/// and why it stopped.
pub open spec fn rows_updated(m: database::DbModel, ids: Seq<u64>, col: int, v: Value) -> (
    database::DbModel,
    Option<Fault>,
)
    decreases ids.len(),
{
    if ids.len() == 0 {
        (m, None)
    } else {
        let (a, stop) = rows_updated(m, ids.drop_last(), col, v);
        if stop is Some {
            (a, stop)
        } else {
            match a.home(ids.last()) {
                None => (a, None),
                Some(h) => match cell_rewritten(a, h, col, v) {
                    Err(f) => (a, Some(f)),
                    Ok(b) => (reindexed(b, col, ids.last(), v), None),
                },
            }
        }
    }
}

fn replace_cell(region: &mut ColumnRegion, slot: usize, v: &Value) -> (r: Result<()>)
    requires
        old(region)@.data.len() <= u32::MAX,
    ensures
        match cell_replaced(old(region)@, slot as int, *v) {
            Ok(m) => r is Ok && final(region)@ == m,
            Err(f) => r matches Err(e) && fault::reports(e, f),
        },
{
    match region.encoding {
        Encoding::Plain | Encoding::Dictionary => {
            let w: usize = body::cell_width(region.kind);
            let n: usize = region.data.len();
            let cell = body::encode_cell(region.kind, v);
            proof {
                body::lemma_cell(Seq::empty(), region.kind, *v, Seq::empty());
                let a = slot as int;
                let b = w as int;
                let c = n as int;
                assert((a >= c / b ==> (a + 1) * b > c) && (a < c / b ==> (a + 1) * b <= c && a * b + b == (a + 1) * b
                    && a * b >= 0)) by (nonlinear_arith)
                    requires
                        a >= 0,
                        b > 0,
                        c >= 0,
                ;
            }
            if slot < n / w {
                let off: usize = slot * w;
                let ghost data = region.data@;
                let mut out: Vec<u8> = Vec::new();
                bytes::put_bytes(&mut out, vstd::slice::slice_subrange(region.data.as_slice(), 0, off));
                bytes::put_bytes(&mut out, cell.as_slice());
                bytes::put_bytes(&mut out, vstd::slice::slice_subrange(region.data.as_slice(), off + w, n));
                assert(out@ =~= dict::written(data, off as int, cell@));
                region.data = out;
            }
            Ok(())
        },
        Encoding::Rle => {
            let mut vals = rle::unpack(region.data.as_slice());
            if vals.len() as u64 > 0xFFFF_FFFF {
                return Err(fault::oversized());
            }
            if slot < vals.len() {
                vals.set(slot, *v);
            }
            region.data = rle::pack(&vals);
            Ok(())
        },
    }
}

fn rewrite_cell(db: &mut Database, pid: PageId, slot: usize, col: usize, v: &Value) -> (r: Result<()>)
    requires
        old(db).wf(),
        slot <= u32::MAX,
    ensures
        final(db).wf(),
        match cell_rewritten(old(db)@, Home { page: pid, slot: slot as u32 }, col as int, *v) {
            Ok(m) => r is Ok && final(db)@ == m,
            Err(f) => final(db)@ == old(db)@ && (r matches Err(e) && fault::reports(e, f)),
        },
{
    let ghost m = db@;
    let mut b = match db.pager.get(pid) {
        None => return Err(fault::vanished()),
        Some(page) => match body::decode_body(page.buf.as_slice()) {
            Ok(b) => b,
            Err(e) => return Err(e),
        },
    };
    let ghost p = m.pager.page(pid)->0;
    let ghost b0 = b@;
    if col >= b.regions.len() {
        return Ok(());
    }
    proof {
        body::lemma_read_fits(p.buf);
        assert(b0.regions[col as int] == b.regions@[col as int]@);
    }
    let ghost was = b.regions@;
    let mut region = b.regions.remove(col);
    match replace_cell(&mut region, slot, v) {
        Ok(_) => {},
        Err(e) => {
            return Err(e);
        },
    }
    let ghost now = region;
    b.regions.insert(col, region);
    assert(b.regions@ =~= was.update(col as int, now));
    assert(b@.regions =~= b0.regions.update(col as int, now@));
    if !body::fits(&b) {
        return Err(fault::oversized());
    }
    let bytes = body::encode_body(&b);
    let _ = db.pager.set_buf(pid, bytes);
    assert(db@ =~= cell_rewritten(m, Home { page: pid, slot: slot as u32 }, col as int, *v)->Ok_0);
    Ok(())
}

fn reindex(db: &mut Database, ci: usize, row_id: u64, v: Value)
    requires
        old(db).wf(),
    ensures
        final(db).wf(),
        final(db)@ == reindexed(old(db)@, ci as int, row_id, v),
{
    if ci >= db.schema.columns.len() {
        return;
    }
    let ghost m = db@;
    let ghost was = db.indexes@;
    assert(m.indexes[ci as int] == database::index_view(was[ci as int]));
    match db.indexes.remove(ci) {
        Some(mut x) => {
            x.drop_row(row_id);
            let ghost now = x;
            db.indexes.insert(ci, Some(x));
            assert(db.indexes@ =~= was.update(ci as int, Some(now)));
            assert(db@.indexes =~= m.indexes.update(ci as int, Some(now@)));
        },
        None => {
            db.indexes.insert(ci, None);
            assert(db.indexes@ =~= was);
            assert(db@.indexes =~= m.indexes.update(ci as int, None));
        },
    }
    note_index(db, ci, row_id, v);
}

/// The database after an update is counted.
pub open spec fn update_counted(m: database::DbModel) -> database::DbModel {
    database::DbModel { stats: database::DbStats { updates: (m.stats.updates + 1) as u64, ..m.stats }, ..m }
}

/// Update matching rows: set `set_col` to `set_value`. Returns how many rows
/// match.
pub fn update_where(
    db: &mut Database,
    set_col: usize,
    set_value: Value,
    pred_col: usize,
    op: CmpOp,
    target: Value,
) -> (r: Result<usize>)
    requires
        old(db).wf(),
        old(db)@.stats.updates < u64::MAX,
    ensures
        final(db).wf(),
        ({
            let m = update_counted(old(db)@);
            match matching(m, pred_col as int, op, target) {
                Ok(ids) => {
                    let (a, stop) = rows_updated(m, ids, set_col as int, set_value);
                    &&& final(db)@ == a
                    &&& match stop {
                        None => r matches Ok(n) && n == ids.len(),
                        Some(f) => r matches Err(e) && fault::reports(e, f),
                    }
                },
                Err(f) => final(db)@ == m && (r matches Err(e) && fault::reports(e, f)),
            }
        }),
{
    db.stats.updates = db.stats.updates + 1;
    let ghost m = update_counted(old(db)@);
    assert(db@ =~= m);
    let ids = match collect_matching(db, pred_col, op, target) {
        Ok(v) => v,
        Err(e) => {
            return Err(e);
        },
    };
    let mut i: usize = 0;
    assert(ids@.take(0) =~= Seq::empty());
    while i < ids.len()
        invariant
            i <= ids@.len(),
            db.wf(),
            m == update_counted(old(db)@),
            matching(m, pred_col as int, op, target) == Ok::<Seq<u64>, Fault>(ids@),
            (db@, None::<Fault>) == rows_updated(m, ids@.take(i as int), set_col as int, set_value),
        decreases ids@.len() - i,
    {
        proof {
            assert(ids@.take(i + 1).drop_last() =~= ids@.take(i as int));
        }
        match db.rowid_map.get(ids[i]) {
            None => {},
            Some((pid, slot)) => {
                match rewrite_cell(db, pid, slot, set_col, &set_value) {
                    Ok(_) => {},
                    Err(e) => {
                        proof {
                            lemma_update_stops(m, ids@, set_col as int, set_value, i + 1);
                        }
                        return Err(e);
                    },
                }
                reindex(db, set_col, ids[i], set_value);
            },
        }
        i += 1;
    }
    assert(ids@.take(i as int) =~= ids@);
    Ok(ids.len())
}

proof fn lemma_update_stops(m: database::DbModel, ids: Seq<u64>, col: int, v: Value, n: int)
    requires
        0 <= n <= ids.len(),
        rows_updated(m, ids.take(n), col, v).1 is Some,
    ensures
        rows_updated(m, ids, col, v) == rows_updated(m, ids.take(n), col, v),
    decreases ids.len() - n,
{
    if n < ids.len() {
        assert(ids.take(n + 1).drop_last() =~= ids.take(n));
        lemma_update_stops(m, ids, col, v, n + 1);
    } else {
        assert(ids.take(n) =~= ids);
    }
}

/// The id of a row: its first value where that is a positive integer, and otherwise the
/// next one. Ids that are handed out later are past it; nothing else changes but the
/// count of inserts.
pub proof fn lemma_row_ids(m: database::DbModel, values: Seq<Value>, i: i64, row_id: u64)
    requires
        values.len() > 0,
        row_id < u64::MAX,
        m.stats.inserts < u64::MAX,
    ensures
        i > 0 && values[0] == Value::Int(i) ==> row_id_for(m, values) == i,
        !(values[0] is Int) || values[0] == Value::Int(0) ==> row_id_for(m, values) == m.next_row_id,
        id_taken(m, row_id).next_row_id > row_id,
        id_taken(m, row_id).next_row_id >= m.next_row_id,
        id_taken(m, row_id).next_row_id == m.next_row_id || id_taken(m, row_id).next_row_id == row_id + 1,
        id_taken(m, row_id).stats.inserts == m.stats.inserts + 1,
        id_taken(m, row_id).rows == m.rows && id_taken(m, row_id).pager == m.pager,
{
}

/// The width of a row is what its columns take: one byte for a truth value, eight for a
/// number, four for a text.
pub proof fn lemma_column_widths(c: Seq<schema::ColumnModel>, x: schema::ColumnModel)
    ensures
        row_width(Seq::empty()) == 0,
        x.kind == ColKind::Bool ==> row_width(c.push(x)) == row_width(c) + 1,
        x.kind == ColKind::Int || x.kind == ColKind::Real ==> row_width(c.push(x)) == row_width(c) + 8,
        x.kind == ColKind::Text ==> row_width(c.push(x)) == row_width(c) + 4,
{
    assert(c.push(x).drop_last() =~= c);
}

} // verus!
