//! What every operation keeps of the rows: where each is at home, and its cells.

use crate::body;
use crate::checkpoint;
use crate::compact;
use crate::container;
use crate::database;
use crate::dict;
use crate::error::DecodeError;
use crate::fault::Fault;
use crate::fsm;
use crate::integrity;
use crate::keymap;
use crate::mutation;
use crate::pager;
use crate::pager::{PageId, PageKind, SlotEntry};
use crate::query;
use crate::rle;
use crate::rowid::Home;
use crate::schema;
use crate::schema::Encoding;
use crate::value::{CmpOp, Value};
use vstd::prelude::*;

verus! {

/// Every row's id is below the next one.
pub open spec fn numbered(m: database::DbModel) -> bool {
    forall|r: u64| #[trigger] m.home(r) is Some ==> r < m.next_row_id
}

/// A tidy database in which every live slot of a data page is its row's home, so
/// that no row is stored twice, and the next row id is a new one.
pub open spec fn housed(m: database::DbModel) -> bool {
    &&& integrity::tidy(m)
    &&& numbered(m)
    &&& forall|id: PageId| #[trigger] integrity::owns(m, id)
}

/// Two databases that hold the same rows with the same cells, and number the next
/// one alike.
pub open spec fn same_rows(m: database::DbModel, d: database::DbModel) -> bool {
    &&& d.schema == m.schema
    &&& d.next_row_id == m.next_row_id
    &&& forall|r: u64| (#[trigger] d.home(r) is Some) == (m.home(r) is Some)
    &&& forall|r: u64, col: int|
        0 <= col < m.schema.len() ==> #[trigger] mutation::cell_of(d, r, col) == mutation::cell_of(m, r, col)
}

/// A database that was just created is housed.
pub proof fn lemma_fresh(s: Seq<schema::ColumnModel>)
    requires
        0 < s.len() <= u32::MAX,
    ensures
        housed(database::empty_db(s)),
{
    let m = database::empty_db(s);
    assert forall|id: PageId| #[trigger] integrity::page_ok(m, id) by {
        assert(m.pager.page(id) is None);
    }
    assert forall|id: PageId| #[trigger] integrity::space_ok(m, id) by {
        assert(m.pager.page(id) is None);
    }
    assert forall|id: PageId| #[trigger] integrity::owns(m, id) by {
        assert(m.pager.page(id) is None);
    }
    assert forall|r: u64| #[trigger] m.home(r) is Some implies r < m.next_row_id by {
        assert(m.home(r) is None);
    }
}

/// The two ways to read a cell, at the row's slot and at the place that the
/// slot names, give the same.
pub proof fn lemma_slot_cell(m: database::DbModel, r: u64, col: int)
    requires
        integrity::tidy(m),
    ensures
        mutation::slot_cell(m, r, col) == mutation::cell_of(m, r, col),
{
    if let Some(h) = m.home(r) {
        assert(integrity::home_ok(m, r, h));
    }
}

/// A live page replaced by another one.
pub proof fn lemma_swapped(m: pager::PagerModel, id: PageId, q: pager::PageModel)
    requires
        m.wf(),
        m.page(id) is Some,
        q.id == id,
    ensures
        m.with_page(id, q).wf(),
        m.with_page(id, q).page(id) == Some(q),
        forall|o: PageId| o != id ==> #[trigger] m.with_page(id, q).page(o) == m.page(o),
{
    integrity::lemma_with_page(m, id, q);
    keymap::lemma_put(m.pages, id as u64, q, id as u64);
    assert forall|o: PageId| o != id implies #[trigger] m.with_page(id, q).page(o) == m.page(o) by {
        keymap::lemma_put(m.pages, id as u64, q, o as u64);
    }
}

/// A counter does not matter to the rows.
pub proof fn lemma_counted(m: database::DbModel, d: database::DbModel)
    requires
        integrity::tidy(m),
        d == (database::DbModel { stats: d.stats, ..m }),
    ensures
        integrity::tidy(d),
        housed(m) ==> housed(d),
        d.rows == m.rows,
        same_rows(m, d),
{
    assert forall|id: PageId| #[trigger] keymap::find(d.fsm.space, id as u64) is Some implies integrity::offered(
        m,
        id,
    ) by {
        assert(integrity::space_ok(m, id));
    }
    assert(d.wf());
    integrity::lemma_same_homes(m, d);
    if housed(m) {
        lemma_same_owners(m, d);
    }
    assert forall|r: u64| (#[trigger] d.home(r) is Some) == (m.home(r) is Some) by {
        assert(d.home(r) == m.home(r));
    }
}

// Deleting

/// One row deleted: it is at home nowhere, and the others stay where they are,
/// with their cells.
pub proof fn lemma_row_deleted(m: database::DbModel, row_id: u64)
    requires
        integrity::tidy(m),
    ensures
        ({
            let d = mutation::row_deleted(m, row_id);
            &&& integrity::tidy(d)
            &&& housed(m) ==> housed(d)
            &&& d.schema == m.schema
            &&& d.next_row_id == m.next_row_id
            &&& d.dicts == m.dicts
            &&& forall|id: PageId| #[trigger] stays(m, d, id)
            &&& d.home(row_id) is None
            &&& forall|r: u64| r != row_id ==> #[trigger] d.home(r) == m.home(r)
            &&& forall|r: u64, col: int|
                r != row_id ==> #[trigger] mutation::cell_of(d, r, col) == mutation::cell_of(m, r, col)
        }),
{
    if let Some(h) = m.home(row_id) {
        let d = mutation::row_deleted(m, row_id);
        assert(integrity::home_ok(m, row_id, h));
        let p = m.pager.page(h.page)->0;
        let dir = p.dir().update(h.slot as int, SlotEntry { live: false, ..p.dir()[h.slot as int] });
        let q = pager::PageModel { slots: Some(dir), ..p };
        integrity::lemma_page_id(m.pager, h.page);
        lemma_swapped(m.pager, h.page, q);
        assert(d.pager == m.pager.with_page(h.page, q));
        keymap::lemma_cut(m.rows, row_id, row_id);
        assert forall|r: u64| r != row_id implies #[trigger] d.home(r) == m.home(r) by {
            keymap::lemma_cut(m.rows, row_id, r);
        }
        if let Some(v) = keymap::find(m.page_rows, h.page as u64) {
            keymap::lemma_put(m.page_rows, h.page as u64, crate::index::without(v, row_id), 0);
        }
        assert(d.wf());
        assert forall|id: PageId| #[trigger] integrity::page_ok(d, id) by {
            assert(integrity::page_ok(m, id));
            if id != h.page {
                assert(d.pager.page(id) == m.pager.page(id));
            } else {
                assert(mutation::body_in(q, m.schema) == mutation::body_in(p, m.schema));
            }
        }
        assert forall|id: PageId| #[trigger] stays(m, d, id) by {
            if id != h.page {
                assert(d.pager.page(id) == m.pager.page(id));
            }
        }
        assert forall|id: PageId| #[trigger] integrity::space_ok(d, id) by {
            assert(integrity::space_ok(m, id));
            if id != h.page {
                assert(d.pager.page(id) == m.pager.page(id));
            }
        }
        assert forall|r: u64| #[trigger] d.home(r) matches Some(x) implies integrity::home_ok(d, r, d.home(r)->0) by {
            let x = m.home(r)->0;
            assert(d.home(r) == m.home(r));
            assert(integrity::home_ok(m, r, x));
            if x.page != h.page {
                assert(d.pager.page(x.page) == m.pager.page(x.page));
            } else {
                assert(x.slot != h.slot);
                assert(dir[x.slot as int] == p.dir()[x.slot as int]);
            }
        }
        assert forall|r: u64, col: int| r != row_id implies #[trigger] mutation::cell_of(d, r, col) == mutation::cell_of(
            m,
            r,
            col,
        ) by {
            assert(d.home(r) == m.home(r));
            if let Some(x) = m.home(r) {
                if x.page != h.page {
                    assert(d.pager.page(x.page) == m.pager.page(x.page));
                }
            }
        }
        if housed(m) {
            assert forall|r: u64| #[trigger] d.home(r) is Some implies r < d.next_row_id by {
                assert(m.home(r) is Some);
            }
            assert forall|id: PageId| #[trigger] integrity::owns(d, id) by {
                assert(integrity::owns(m, id));
                if id != h.page {
                    assert(d.pager.page(id) == m.pager.page(id));
                    if let Some(o) = d.pager.page(id) {
                        if o.kind == PageKind::Data {
                            assert forall|i: int| 0 <= i < o.dir().len() && (#[trigger] o.dir()[i]).live implies d.home(
                                o.dir()[i].row_id,
                            ) == Some(Home { page: id, slot: i as u32 }) by {
                                assert(m.home(o.dir()[i].row_id) == Some(Home { page: id, slot: i as u32 }));
                            }
                        }
                    }
                } else {
                    assert forall|i: int| 0 <= i < q.dir().len() && (#[trigger] q.dir()[i]).live implies d.home(
                        q.dir()[i].row_id,
                    ) == Some(Home { page: id, slot: i as u32 }) by {
                        assert(i != h.slot);
                        assert(q.dir()[i] == p.dir()[i]);
                        assert(m.home(p.dir()[i].row_id) == Some(Home { page: id, slot: i as u32 }));
                    }
                }
            }
        }
    }
}

/// Deleting a list of rows takes exactly these away; the others stay where they
/// are, with their cells.
pub proof fn lemma_rows_deleted(m: database::DbModel, ids: Seq<u64>)
    requires
        integrity::tidy(m),
    ensures
        ({
            let d = mutation::rows_deleted(m, ids).0;
            &&& integrity::tidy(d)
            &&& housed(m) ==> housed(d)
            &&& d.schema == m.schema
            &&& d.next_row_id == m.next_row_id
            &&& forall|r: u64|
                #[trigger] d.home(r) == (if ids.contains(r) {
                    None
                } else {
                    m.home(r)
                })
            &&& forall|r: u64, col: int|
                !ids.contains(r) ==> #[trigger] mutation::cell_of(d, r, col) == mutation::cell_of(m, r, col)
        }),
    decreases ids.len(),
{
    if ids.len() > 0 {
        let before = ids.drop_last();
        lemma_rows_deleted(m, before);
        let a = mutation::rows_deleted(m, before).0;
        let d = mutation::rows_deleted(m, ids).0;
        lemma_row_deleted(a, ids.last());
        assert forall|r: u64| ids.contains(r) == (before.contains(r) || r == ids.last()) by {
            if ids.contains(r) {
                let k = ids.index_of(r);
                if k < before.len() {
                    assert(before[k] == r);
                }
            }
            if before.contains(r) {
                assert(ids[before.index_of(r)] == r);
            }
            assert(ids[ids.len() - 1] == ids.last());
        }
        assert forall|r: u64|
            #[trigger] d.home(r) == (if ids.contains(r) {
                None
            } else {
                m.home(r)
            }) by {
            assert(a.home(r) == (if before.contains(r) {
                None
            } else {
                m.home(r)
            }));
        }
        assert forall|r: u64, col: int| !ids.contains(r) implies #[trigger] mutation::cell_of(d, r, col)
            == mutation::cell_of(m, r, col) by {
            assert(!before.contains(r) && r != ids.last());
            assert(mutation::cell_of(a, r, col) == mutation::cell_of(m, r, col));
        }
    }
}

/// A delete takes exactly the matching rows away; every other row stays where it
/// is, with its cells.
pub proof fn lemma_delete_where(m: database::DbModel, col: int, op: CmpOp, target: Value)
    requires
        integrity::tidy(m),
        mutation::matching(mutation::delete_counted(m), col, op, target) is Ok,
    ensures
        ({
            let a = mutation::delete_counted(m);
            let ids = mutation::matching(a, col, op, target)->Ok_0;
            let d = mutation::rows_deleted(a, ids).0;
            &&& integrity::tidy(d)
            &&& housed(m) ==> housed(d)
            &&& d.schema == m.schema
            &&& d.next_row_id == m.next_row_id
            &&& forall|r: u64|
                #[trigger] d.home(r) == (if ids.contains(r) {
                    None
                } else {
                    m.home(r)
                })
            &&& forall|r: u64, k: int|
                0 <= k < m.schema.len() && !ids.contains(r) ==> #[trigger] mutation::cell_of(d, r, k) == mutation::cell_of(
                    m,
                    r,
                    k,
                )
        }),
{
    let a = mutation::delete_counted(m);
    let ids = mutation::matching(a, col, op, target)->Ok_0;
    let d = mutation::rows_deleted(a, ids).0;
    lemma_counted(m, a);
    lemma_rows_deleted(a, ids);
    assert forall|r: u64|
        #[trigger] d.home(r) == (if ids.contains(r) {
            None
        } else {
            m.home(r)
        }) by {
        assert(a.home(r) == m.home(r));
    }
    assert forall|r: u64, k: int| 0 <= k < m.schema.len() && !ids.contains(r) implies #[trigger] mutation::cell_of(d, r, k)
        == mutation::cell_of(m, r, k) by {
        assert(mutation::cell_of(d, r, k) == mutation::cell_of(a, r, k));
        assert(mutation::cell_of(a, r, k) == mutation::cell_of(m, r, k));
    }
}

// Updating

/// A replaced cell reads back as what its column keeps of the value; the others
/// stay.
pub proof fn lemma_cell_replaced(r: body::RegionModel, c: schema::ColumnModel, n: nat, slot: int, v: Value)
    requires
        integrity::region_ok(r, c, n),
        0 <= slot < n,
        mutation::cell_replaced(r, slot, v) is Ok,
    ensures
        ({
            let q = mutation::cell_replaced(r, slot, v)->Ok_0;
            &&& integrity::region_ok(q, c, n)
            &&& body::cell_at(q, slot) == integrity::column_keeps(c, v)
            &&& forall|k: int| 0 <= k < n && k != slot ==> #[trigger] body::cell_at(q, k) == body::cell_at(r, k)
        }),
{
    let q = mutation::cell_replaced(r, slot, v)->Ok_0;
    if r.encoding == Encoding::Rle {
        let vals = rle::values_of(r.data);
        rle::lemma_packed(vals.update(slot, v));
    } else {
        let w = body::width(r.kind) as int;
        let size = r.data.len() as int;
        let at = slot * w;
        let cell = body::cell_bytes(r.kind, v);
        assert((slot + 1) * w <= size && at >= 0 && at + w == (slot + 1) * w) by (nonlinear_arith)
            requires
                0 <= slot < n,
                n == size / w,
                w > 0,
                size >= 0,
                at == slot * w,
        ;
        body::lemma_cell(r.data.take(at), r.kind, v, r.data.skip(at + w));
        assert(q.data =~= r.data.take(at) + cell + r.data.skip(at + w));
        assert(body::cell_at(q, slot) == integrity::column_keeps(c, v));
        assert forall|k: int| 0 <= k < n && k != slot implies #[trigger] body::cell_at(q, k) == body::cell_at(r, k) by {
            let b = k * w;
            assert((k + 1) * w <= size && b >= 0 && b + w == (k + 1) * w && (b + w <= at || at + w <= b))
                by (nonlinear_arith)
                requires
                    0 <= k < n,
                    0 <= slot,
                    k != slot,
                    n == size / w,
                    w > 0,
                    size >= 0,
                    at == slot * w,
                    b == k * w,
            ;
            assert(q.data.subrange(b, b + w) =~= r.data.subrange(b, b + w));
            integrity::lemma_cell_bytes(q, r, k, k);
        }
    }
}

/// A cell of a row written anew: it reads back as what its column keeps of the
/// value, and every other cell stays.
pub proof fn lemma_cell_rewritten(m: database::DbModel, row_id: u64, col: int, v: Value)
    requires
        integrity::tidy(m),
        m.home(row_id) is Some,
        0 <= col,
        mutation::cell_rewritten(m, m.home(row_id)->0, col, v) is Ok,
    ensures
        ({
            let d = mutation::cell_rewritten(m, m.home(row_id)->0, col, v)->Ok_0;
            &&& integrity::tidy(d)
            &&& housed(m) ==> housed(d)
            &&& d.schema == m.schema
            &&& d.rows == m.rows
            &&& d.dicts == m.dicts
            &&& d.indexes == m.indexes
            &&& forall|id: PageId| #[trigger] stays(m, d, id)
            &&& d.next_row_id == m.next_row_id
            &&& forall|r: u64, k: int|
                0 <= k < m.schema.len() ==> #[trigger] mutation::cell_of(d, r, k) == (if r == row_id && k == col {
                    Some(integrity::column_keeps(m.schema[col], v))
                } else {
                    mutation::cell_of(m, r, k)
                })
        }),
{
    let h = m.home(row_id)->0;
    let d = mutation::cell_rewritten(m, h, col, v)->Ok_0;
    assert(integrity::home_ok(m, row_id, h));
    assert(integrity::page_ok(m, h.page));
    let p = m.pager.page(h.page)->0;
    integrity::lemma_has_body(p, m.schema);
    let b = body::body_of(p.buf)->Ok_0;
    if col < b.regions.len() {
        let n = p.dir().len();
        assert(integrity::region_ok(b.regions[col], m.schema[col], n));
        lemma_cell_replaced(b.regions[col], m.schema[col], n, h.slot as int, v);
        let g = mutation::cell_replaced(b.regions[col], h.slot as int, v)->Ok_0;
        let c = body::BodyModel { regions: b.regions.update(col, g), ..b };
        let q = pager::PageModel { buf: body::body_bytes(c), ..p };
        body::lemma_body_round_trip(c);
        assert(q.buf.len() > 0) by {
            crate::bytes::lemma_u32_between(Seq::empty(), c.num_rows, Seq::empty());
        }
        integrity::lemma_page_id(m.pager, h.page);
        lemma_swapped(m.pager, h.page, q);
        assert(integrity::tidy_page(q, m.schema)) by {
            assert forall|i: int| 0 <= i < m.schema.len() implies integrity::region_ok(
                #[trigger] c.regions[i],
                m.schema[i],
                n,
            ) by {
                assert(integrity::region_ok(b.regions[i], m.schema[i], n));
            }
        }
        assert forall|id: PageId| #[trigger] integrity::page_ok(d, id) by {
            assert(integrity::page_ok(m, id));
            if id != h.page {
                assert(d.pager.page(id) == m.pager.page(id));
            }
        }
        assert forall|id: PageId| #[trigger] stays(m, d, id) by {
            if id != h.page {
                assert(d.pager.page(id) == m.pager.page(id));
            }
        }
        assert forall|id: PageId| #[trigger] integrity::space_ok(d, id) by {
            assert(integrity::space_ok(m, id));
            if id != h.page {
                assert(d.pager.page(id) == m.pager.page(id));
            }
        }
        assert forall|r: u64| #[trigger] d.home(r) matches Some(x) implies integrity::home_ok(d, r, d.home(r)->0) by {
            let x = m.home(r)->0;
            assert(integrity::home_ok(m, r, x));
            if x.page != h.page {
                assert(d.pager.page(x.page) == m.pager.page(x.page));
            }
        }
        assert forall|r: u64, k: int| 0 <= k < m.schema.len() implies #[trigger] mutation::cell_of(d, r, k) == (if r
            == row_id && k == col {
            Some(integrity::column_keeps(m.schema[col], v))
        } else {
            mutation::cell_of(m, r, k)
        }) by {
            if let Some(x) = m.home(r) {
                assert(integrity::home_ok(m, r, x));
                if x.page != h.page {
                    assert(d.pager.page(x.page) == m.pager.page(x.page));
                } else if r != row_id {
                    assert(x.slot != h.slot);
                    assert(body::cell_at(g, x.slot as int) == body::cell_at(b.regions[col], x.slot as int));
                }
            }
        }
        if housed(m) {
            assert forall|r: u64| #[trigger] d.home(r) is Some implies r < d.next_row_id by {
                assert(m.home(r) is Some);
            }
            assert forall|id: PageId| #[trigger] integrity::owns(d, id) by {
                assert(integrity::owns(m, id));
                if id != h.page {
                    assert(d.pager.page(id) == m.pager.page(id));
                }
            }
        }
    }
}

/// Counters, indexes and zone maps do not matter to whose home a slot is.
proof fn lemma_same_owners(m: database::DbModel, n: database::DbModel)
    requires
        housed(m),
        integrity::tidy(n),
        n.pager == m.pager,
        n.rows == m.rows,
        n.next_row_id == m.next_row_id,
    ensures
        housed(n),
{
    assert forall|r: u64| #[trigger] n.home(r) is Some implies r < n.next_row_id by {
        assert(m.home(r) is Some);
    }
    assert forall|id: PageId| #[trigger] integrity::owns(n, id) by {
        assert(integrity::owns(m, id));
        if let Some(o) = n.pager.page(id) {
            if o.kind == PageKind::Data {
                assert forall|i: int| 0 <= i < o.dir().len() && (#[trigger] o.dir()[i]).live implies n.home(
                    o.dir()[i].row_id,
                ) == Some(Home { page: id, slot: i as u32 }) by {
                    assert(m.home(o.dir()[i].row_id) == Some(Home { page: id, slot: i as u32 }));
                }
            }
        }
    }
}

/// An index that lists a row anew leaves the rows as they are.
pub proof fn lemma_reindexed(m: database::DbModel, ci: int, row_id: u64, v: Value)
    requires
        integrity::tidy(m),
        0 <= ci,
    ensures
        ({
            let d = mutation::reindexed(m, ci, row_id, v);
            &&& integrity::tidy(d)
            &&& housed(m) ==> housed(d)
            &&& d.schema == m.schema
            &&& d.rows == m.rows
            &&& d.next_row_id == m.next_row_id
            &&& forall|r: u64, k: int| #[trigger] mutation::cell_of(d, r, k) == mutation::cell_of(m, r, k)
        }),
{
    let d = mutation::reindexed(m, ci, row_id, v);
    assert(d.wf());
    assert forall|id: PageId| #[trigger] keymap::find(d.fsm.space, id as u64) is Some implies integrity::offered(
        m,
        id,
    ) by {
        assert(integrity::space_ok(m, id));
    }
    integrity::lemma_same_homes(m, d);
    if housed(m) {
        lemma_same_owners(m, d);
    }
}

/// A list of rows updated, as far as it goes. Every row stays at home. Where
/// nothing stops the update, each listed row that is at home reads back, in the
/// column, what the column keeps of the value; every other cell stays.
pub proof fn lemma_rows_updated(m: database::DbModel, ids: Seq<u64>, col: int, v: Value)
    requires
        integrity::tidy(m),
        0 <= col,
    ensures
        ({
            let (d, stop) = mutation::rows_updated(m, ids, col, v);
            &&& integrity::tidy(d)
            &&& housed(m) ==> housed(d)
            &&& d.schema == m.schema
            &&& d.rows == m.rows
            &&& d.next_row_id == m.next_row_id
            &&& stop is None ==> forall|r: u64, k: int|
                0 <= k < m.schema.len() ==> #[trigger] mutation::cell_of(d, r, k) == (if ids.contains(r) && m.home(r) is Some
                    && k == col {
                    Some(integrity::column_keeps(m.schema[col], v))
                } else {
                    mutation::cell_of(m, r, k)
                })
        }),
    decreases ids.len(),
{
    if ids.len() > 0 {
        let before = ids.drop_last();
        let row_id = ids.last();
        lemma_rows_updated(m, before, col, v);
        let (a, stopped) = mutation::rows_updated(m, before, col, v);
        let (d, stop) = mutation::rows_updated(m, ids, col, v);
        assert(a.home(row_id) == m.home(row_id));
        if stopped is None && stop is None {
            if let Some(h) = a.home(row_id) {
                lemma_cell_rewritten(a, row_id, col, v);
                let b = mutation::cell_rewritten(a, h, col, v)->Ok_0;
                lemma_reindexed(b, col, row_id, v);
            }
            assert forall|r: u64, k: int| 0 <= k < m.schema.len() implies #[trigger] mutation::cell_of(d, r, k) == (if ids.contains(
                r,
            ) && m.home(r) is Some && k == col {
                Some(integrity::column_keeps(m.schema[col], v))
            } else {
                mutation::cell_of(m, r, k)
            }) by {
                assert(ids.contains(r) == (before.contains(r) || r == row_id)) by {
                    if ids.contains(r) {
                        let i = ids.index_of(r);
                        if i < before.len() {
                            assert(before[i] == r);
                        }
                    }
                    if before.contains(r) {
                        assert(ids[before.index_of(r)] == r);
                    }
                    assert(ids[ids.len() - 1] == row_id);
                }
                assert(mutation::cell_of(a, r, k) == (if before.contains(r) && m.home(r) is Some && k == col {
                    Some(integrity::column_keeps(m.schema[col], v))
                } else {
                    mutation::cell_of(m, r, k)
                }));
                if let Some(h) = a.home(row_id) {
                    let b = mutation::cell_rewritten(a, h, col, v)->Ok_0;
                    assert(mutation::cell_of(d, r, k) == mutation::cell_of(b, r, k));
                }
            }
        }
    }
}

/// An update that nothing stops writes the set column of exactly the matching
/// rows: there each reads back what the column keeps of the value. Every other
/// cell, and every row's home, stays.
pub proof fn lemma_update_where(m: database::DbModel, set_col: int, v: Value, col: int, op: CmpOp, target: Value)
    requires
        integrity::tidy(m),
        0 <= set_col,
        mutation::matching(mutation::update_counted(m), col, op, target) is Ok,
    ensures
        ({
            let a = mutation::update_counted(m);
            let ids = mutation::matching(a, col, op, target)->Ok_0;
            let (d, stop) = mutation::rows_updated(a, ids, set_col, v);
            &&& integrity::tidy(d)
            &&& housed(m) ==> housed(d)
            &&& d.schema == m.schema
            &&& d.rows == m.rows
            &&& d.next_row_id == m.next_row_id
            &&& stop is None ==> forall|r: u64, k: int|
                0 <= k < m.schema.len() ==> #[trigger] mutation::cell_of(d, r, k) == (if ids.contains(r) && m.home(r) is Some
                    && k == set_col {
                    Some(integrity::column_keeps(m.schema[set_col], v))
                } else {
                    mutation::cell_of(m, r, k)
                })
        }),
{
    let a = mutation::update_counted(m);
    let ids = mutation::matching(a, col, op, target)->Ok_0;
    let (d, stop) = mutation::rows_updated(a, ids, set_col, v);
    lemma_counted(m, a);
    lemma_rows_updated(a, ids, set_col, v);
    if stop is None {
        assert forall|r: u64, k: int| 0 <= k < m.schema.len() implies #[trigger] mutation::cell_of(d, r, k) == (if ids.contains(
            r,
        ) && m.home(r) is Some && k == set_col {
            Some(integrity::column_keeps(m.schema[set_col], v))
        } else {
            mutation::cell_of(m, r, k)
        }) by {
            assert(mutation::cell_of(a, r, k) == mutation::cell_of(m, r, k));
            assert(a.home(r) == m.home(r));
        }
    }
}

// Inserting

/// An insert leaves a housed database housed, unless its row asks for an id that
/// another row has.
pub proof fn lemma_insert_housed(m: database::DbModel, values: Seq<Value>)
    requires
        housed(m),
        m.next_row_id < u64::MAX,
        mutation::inserted(m, values).1 is Ok,
        values[0] matches Value::Int(i) ==> i > 0 ==> m.home(i as u64) is None,
    ensures
        housed(mutation::inserted(m, values).0),
{
    let row_id = mutation::row_id_for(m, values);
    assert(m.home(row_id) is None) by {
        if m.home(row_id) is Some {
            assert(row_id < m.next_row_id);
        }
    }
    let cells = values.update(0, Value::Int(crate::bytes::untwos(row_id)));
    let need = mutation::space_for(m.schema) as u32;
    let width = mutation::row_width(m.schema) as u32;
    integrity::lemma_insert_reads(m, values);
    let a = mutation::id_taken(m, row_id);
    let (b, pid) = mutation::page_for(a, need);
    let c = mutation::row_appended(b, pid, row_id, cells, width)->Ok_0;
    let d = mutation::inserted(m, values).0;
    assert(d == mutation::row_noted(c, pid, row_id, cells, need));
    assert(d.pager == c.pager && d.rows == c.rows);
    let p = b.pager.page(pid)->0;
    let n = p.dir().len();
    let e = SlotEntry { row_id, off: n as u32, len: width, live: true };
    let q = p.rewritten(body::body_bytes(mutation::grown(mutation::body_in(p, m.schema)->Ok_0, cells)), p.dir().push(e));
    let h = Home { page: pid, slot: n as u32 };
    if a.fsm.page_with_space(need) is None {
        pager::lemma_alloc(a.pager, PageKind::Data, Seq::empty(), pid);
    }
    integrity::lemma_page_id(b.pager, pid);
    lemma_swapped(b.pager, pid, q);
    assert(d.pager == b.pager.with_page(pid, q));
    assert forall|r: u64| #[trigger] d.home(r) is Some implies r < d.next_row_id by {
        keymap::lemma_put(b.rows, row_id, h, r);
        if r != row_id {
            assert(m.home(r) is Some);
        }
    }
    assert forall|id: PageId| #[trigger] integrity::owns(d, id) by {
        assert(integrity::owns(m, id));
        if a.fsm.page_with_space(need) is None {
            pager::lemma_alloc(a.pager, PageKind::Data, Seq::empty(), id);
        }
        if id != pid {
            assert(d.pager.page(id) == b.pager.page(id));
        }
        if let Some(o) = d.pager.page(id) {
            if o.kind == PageKind::Data {
                assert forall|i: int| 0 <= i < o.dir().len() && (#[trigger] o.dir()[i]).live implies d.home(
                    o.dir()[i].row_id,
                ) == Some(Home { page: id, slot: i as u32 }) by {
                    keymap::lemma_put(b.rows, row_id, h, o.dir()[i].row_id);
                    if id != pid {
                        assert(m.home(o.dir()[i].row_id) == Some(Home { page: id, slot: i as u32 }));
                    } else if i < n {
                        assert(o.dir()[i] == p.dir()[i]);
                        assert(m.pager.page(pid) == Some(p));
                        assert(m.home(p.dir()[i].row_id) == Some(Home { page: id, slot: i as u32 }));
                    }
                }
            }
        }
    }
}

/// An insert that is refused leaves the database housed, and every row at its home
/// and with its cells.
pub proof fn lemma_insert_refused(m: database::DbModel, values: Seq<Value>)
    requires
        housed(m),
        m.next_row_id < u64::MAX,
        mutation::inserted(m, values).1 is Err,
    ensures
        ({
            let d = mutation::inserted(m, values).0;
            &&& housed(d)
            &&& d.schema == m.schema
            &&& d.rows == m.rows
            &&& forall|r: u64, col: int| #[trigger] mutation::cell_of(d, r, col) == mutation::cell_of(m, r, col)
        }),
{
    let d = mutation::inserted(m, values).0;
    if values.len() == m.schema.len() {
        let row_id = mutation::row_id_for(m, values);
        let a = mutation::id_taken(m, row_id);
        let need = mutation::space_for(m.schema) as u32;
        assert forall|id: PageId| #[trigger] keymap::find(a.fsm.space, id as u64) is Some implies integrity::offered(
            m,
            id,
        ) by {
            assert(integrity::space_ok(m, id));
        }
        assert(a.wf());
        integrity::lemma_same_homes(m, a);
        assert forall|r: u64| #[trigger] a.home(r) is Some implies r < a.next_row_id by {
            assert(m.home(r) is Some);
        }
        assert forall|id: PageId| #[trigger] integrity::owns(a, id) by {
            assert(integrity::owns(m, id));
            if let Some(o) = a.pager.page(id) {
                if o.kind == PageKind::Data {
                    assert forall|i: int| 0 <= i < o.dir().len() && (#[trigger] o.dir()[i]).live implies a.home(
                        o.dir()[i].row_id,
                    ) == Some(Home { page: id, slot: i as u32 }) by {
                        assert(m.home(o.dir()[i].row_id) == Some(Home { page: id, slot: i as u32 }));
                    }
                }
            }
        }
        if d != a {
            integrity::lemma_page_for(a, need);
            let pid = mutation::page_for(a, need).1;
            assert forall|r: u64| #[trigger] d.home(r) is Some implies r < d.next_row_id by {
                assert(a.home(r) is Some);
            }
            assert forall|id: PageId| #[trigger] integrity::owns(d, id) by {
                assert(integrity::owns(a, id));
                pager::lemma_alloc(a.pager, PageKind::Data, Seq::empty(), id);
                if let Some(o) = d.pager.page(id) {
                    if o.kind == PageKind::Data {
                        assert forall|i: int| 0 <= i < o.dir().len() && (#[trigger] o.dir()[i]).live implies d.home(
                            o.dir()[i].row_id,
                        ) == Some(Home { page: id, slot: i as u32 }) by {
                            assert(a.home(o.dir()[i].row_id) == Some(Home { page: id, slot: i as u32 }));
                        }
                    }
                }
            }
            assert forall|r: u64, col: int| #[trigger] mutation::cell_of(d, r, col) == mutation::cell_of(m, r, col) by {
                assert(mutation::cell_of(a, r, col) == mutation::cell_of(m, r, col));
                if a.home(r) is None {
                    assert(d.home(r) is None);
                }
            }
        }
    }
}

// Words

/// Two schemas that lay a page out alike.
pub open spec fn laid_alike(c: Seq<schema::ColumnModel>, e: Seq<schema::ColumnModel>) -> bool {
    &&& c.len() == e.len()
    &&& forall|i: int| 0 <= i < c.len() ==> (#[trigger] e[i]).kind == c[i].kind && e[i].encoding == c[i].encoding
}

/// A page of another kind than data, new or written anew, does not matter to the
/// rows.
pub proof fn lemma_other_page(m: database::DbModel, d: database::DbModel, dp: PageId)
    requires
        integrity::tidy(m),
        d.wf(),
        laid_alike(m.schema, d.schema),
        d.rows == m.rows,
        d.fsm == m.fsm,
        d.next_row_id == m.next_row_id,
        m.pager.page(dp) matches Some(p) ==> p.kind != PageKind::Data,
        d.pager.page(dp) matches Some(q) && q.kind != PageKind::Data,
        forall|id: PageId| id != dp ==> #[trigger] d.pager.page(id) == m.pager.page(id),
    ensures
        integrity::tidy(d),
        housed(m) ==> housed(d),
        forall|r: u64, col: int| #[trigger] mutation::cell_of(d, r, col) == mutation::cell_of(m, r, col),
{
    assert(body::blank_body(d.schema) =~= body::blank_body(m.schema)) by {
        assert(body::blank_body(d.schema).regions =~= body::blank_body(m.schema).regions);
    }
    assert forall|id: PageId| #[trigger] integrity::page_ok(d, id) by {
        assert(integrity::page_ok(m, id));
        if id != dp {
            assert(d.pager.page(id) == m.pager.page(id));
            if let Some(p) = d.pager.page(id) {
                if p.kind == PageKind::Data {
                    assert(mutation::body_in(p, d.schema) == mutation::body_in(p, m.schema));
                    let b = mutation::body_in(p, m.schema)->Ok_0;
                    assert forall|i: int| 0 <= i < d.schema.len() implies integrity::region_ok(
                        #[trigger] b.regions[i],
                        d.schema[i],
                        p.dir().len(),
                    ) by {
                        assert(integrity::region_ok(b.regions[i], m.schema[i], p.dir().len()));
                    }
                }
            }
        }
    }
    assert forall|id: PageId| #[trigger] integrity::space_ok(d, id) by {
        assert(integrity::space_ok(m, id));
    }
    assert forall|r: u64| #[trigger] d.home(r) matches Some(x) implies integrity::home_ok(d, r, d.home(r)->0) by {
        assert(m.home(r) == d.home(r));
        assert(integrity::home_ok(m, r, m.home(r)->0));
    }
    assert forall|r: u64, col: int| #[trigger] mutation::cell_of(d, r, col) == mutation::cell_of(m, r, col) by {
        assert(m.home(r) == d.home(r));
        if m.home(r) is Some {
            assert(integrity::home_ok(m, r, m.home(r)->0));
        }
    }
    if housed(m) {
        assert forall|r: u64| #[trigger] d.home(r) is Some implies r < d.next_row_id by {
            assert(m.home(r) is Some);
        }
        assert forall|id: PageId| #[trigger] integrity::owns(d, id) by {
            assert(integrity::owns(m, id));
            if let Some(o) = d.pager.page(id) {
                if o.kind == PageKind::Data {
                    assert(d.pager.page(id) == m.pager.page(id));
                    assert forall|i: int| 0 <= i < o.dir().len() && (#[trigger] o.dir()[i]).live implies d.home(
                        o.dir()[i].row_id,
                    ) == Some(Home { page: id, slot: i as u32 }) by {
                        assert(m.home(o.dir()[i].row_id) == Some(Home { page: id, slot: i as u32 }));
                    }
                }
            }
        }
    }
}

// Moving rows

/// The live slots of a housed data page: each names its own place and is its
/// row's home, no two name the same row, and every row at home on the page has
/// one.
#[verifier::spinoff_prover]
#[verifier::rlimit(40)]
proof fn lemma_live(m: database::DbModel, pid: PageId)
    requires
        housed(m),
        m.pager.page(pid) is Some,
        m.pager.page(pid)->0.kind == PageKind::Data,
    ensures
        ({
            let p = m.pager.page(pid)->0;
            let live = compact::live_slots(p.dir());
            let places = compact::live_places(p.dir());
            &&& live.len() == places.len() <= p.dir().len() <= u32::MAX
            &&& compact::offs(live) == places
            &&& forall|k: int|
                0 <= k < live.len() ==> 0 <= #[trigger] places[k] < p.dir().len() && live[k].off == places[k] && m.home(
                    live[k].row_id,
                ) == Some(Home { page: pid, slot: places[k] as u32 })
            &&& forall|a: int, b: int|
                0 <= a < b < live.len() ==> (#[trigger] live[a]).row_id != (#[trigger] live[b]).row_id
            &&& forall|r: u64|
                (#[trigger] m.home(r) matches Some(h) && h.page == pid) ==> integrity::last_of(live, r) >= 0
            &&& p.buf.len() == 0 ==> p.dir().len() == 0
        }),
{
    let p = m.pager.page(pid)->0;
    let live = compact::live_slots(p.dir());
    let places = compact::live_places(p.dir());
    compact::lemma_live_places(p.dir());
    assert(integrity::owns(m, pid));
    assert(integrity::page_ok(m, pid));
    assert forall|k: int| 0 <= k < live.len() implies 0 <= #[trigger] places[k] < p.dir().len() && live[k].off
        == places[k] && m.home(live[k].row_id) == Some(Home { page: pid, slot: places[k] as u32 }) by {
        assert(p.dir()[places[k]].live);
        let h = Home { page: pid, slot: places[k] as u32 };
        assert(m.home(live[k].row_id) == Some(h));
        assert(integrity::home_ok(m, live[k].row_id, h));
    }
    assert(compact::offs(live) =~= places);
    assert forall|a: int, b: int| 0 <= a < b < live.len() implies (#[trigger] live[a]).row_id != (
    #[trigger] live[b]).row_id by {
        assert(places[a] < places[b]);
    }
    assert forall|r: u64| (#[trigger] m.home(r) matches Some(h) && h.page == pid) implies integrity::last_of(live, r)
        >= 0 by {
        let h = m.home(r)->0;
        assert(integrity::home_ok(m, r, h));
        let k = compact::lemma_live_found(p.dir(), h.slot as int);
        assert(live[k].row_id == r);
        integrity::lemma_last_of(live, r);
    }
    if p.buf.len() == 0 && p.dir().len() > 0 {
        let c = m.schema[0];
        let r = body::blank_region(c.kind, c.encoding);
        assert(integrity::region_ok(body::blank_body(m.schema).regions[0], c, p.dir().len()));
        assert(body::cell_count(r) == 0);
    }
}

/// Where rows are once slots are at home in a page.
proof fn lemma_all_rehomed(rows: Seq<(u64, Home)>, s: Seq<SlotEntry>, page: PageId, start: nat)
    requires
        keymap::ascending(rows),
    ensures
        keymap::ascending(compact::rehomed(rows, s, page, start)),
        forall|r: u64|
            #[trigger] keymap::find(compact::rehomed(rows, s, page, start), r) == (if integrity::last_of(s, r) >= 0
                && keymap::find(rows, r) is Some {
                Some(Home { page, slot: (start + integrity::last_of(s, r)) as u32 })
            } else {
                keymap::find(rows, r)
            }),
{
    integrity::lemma_last_of(s, 0);
    integrity::lemma_rehomed(rows, s, page, start, 0, integrity::last_of(s, 0));
    assert forall|r: u64|
        #[trigger] keymap::find(compact::rehomed(rows, s, page, start), r) == (if integrity::last_of(s, r) >= 0
            && keymap::find(rows, r) is Some {
            Some(Home { page, slot: (start + integrity::last_of(s, r)) as u32 })
        } else {
            keymap::find(rows, r)
        }) by {
        integrity::lemma_last_of(s, r);
        integrity::lemma_rehomed(rows, s, page, start, r, integrity::last_of(s, r));
    }
}

/// Where the slots name different rows, the last slot that names a row is the
/// only one.
proof fn lemma_only(s: Seq<SlotEntry>, k: int)
    requires
        0 <= k < s.len(),
        forall|a: int, b: int| 0 <= a < b < s.len() ==> (#[trigger] s[a]).row_id != (#[trigger] s[b]).row_id,
    ensures
        integrity::last_of(s, s[k].row_id) == k,
{
    let j = integrity::last_of(s, s[k].row_id);
    integrity::lemma_last_of(s, s[k].row_id);
    if j < k {
        assert(s[k].row_id != s[k].row_id);
    } else if k < j {
        assert(s[k].row_id != s[j].row_id);
    }
}

/// The live slot at a place among the live ones is its row's home, and the only
/// one that names the row.
proof fn lemma_live_at(m: database::DbModel, pid: PageId, k: int)
    requires
        housed(m),
        m.pager.page(pid) is Some,
        m.pager.page(pid)->0.kind == PageKind::Data,
        0 <= k < compact::live_slots(m.pager.page(pid)->0.dir()).len(),
    ensures
        ({
            let live = compact::live_slots(m.pager.page(pid)->0.dir());
            &&& integrity::last_of(live, live[k].row_id) == k
            &&& m.home(live[k].row_id) is Some
            &&& m.home(live[k].row_id)->0.page == pid
            &&& live.len() <= u32::MAX
        }),
{
    let live = compact::live_slots(m.pager.page(pid)->0.dir());
    let places = compact::live_places(m.pager.page(pid)->0.dir());
    lemma_live(m, pid);
    assert(places[k] >= 0);
    lemma_only(live, k);
}

/// No live slot of a page names a row that is at home on another one.
proof fn lemma_not_live(m: database::DbModel, pid: PageId, r: u64)
    requires
        housed(m),
        m.pager.page(pid) is Some,
        m.pager.page(pid)->0.kind == PageKind::Data,
        m.home(r) matches Some(h) && h.page != pid,
    ensures
        integrity::last_of(compact::live_slots(m.pager.page(pid)->0.dir()), r) == -1,
{
    let live = compact::live_slots(m.pager.page(pid)->0.dir());
    integrity::lemma_last_of(live, r);
    let k = integrity::last_of(live, r);
    if k >= 0 {
        lemma_live_at(m, pid, k);
    }
}

/// The last slot that names a row does not depend on where the slots point.
proof fn lemma_renumbered(s: Seq<SlotEntry>, start: nat, r: u64)
    ensures
        integrity::last_of(compact::renumbered(s, start), r) == integrity::last_of(s, r),
    decreases s.len(),
{
    if s.len() > 0 {
        assert(compact::renumbered(s, start).drop_last() =~= compact::renumbered(s.drop_last(), start));
        lemma_renumbered(s.drop_last(), start, r);
    }
}

/// A page written anew, with one cell for each slot, is tidy.
proof fn lemma_page_written(p: pager::PageModel, c: Seq<schema::ColumnModel>, b: body::BodyModel, slots: Seq<SlotEntry>)
    requires
        body::body_fits(b),
        b.regions.len() == c.len(),
        forall|i: int| 0 <= i < c.len() ==> integrity::region_ok(#[trigger] b.regions[i], c[i], slots.len()),
    ensures
        integrity::tidy_page(p.rewritten(body::body_bytes(b), slots), c),
        body::body_of(body::body_bytes(b)) == Ok::<body::BodyModel, DecodeError>(b),
{
    body::lemma_body_round_trip(b);
    assert(body::body_bytes(b).len() > 0) by {
        crate::bytes::lemma_u32_between(Seq::empty(), b.num_rows, Seq::empty());
    }
}

/// A blank body holds no cells.
proof fn lemma_blank(c: Seq<schema::ColumnModel>)
    ensures
        forall|i: int|
            0 <= i < c.len() ==> integrity::region_ok(#[trigger] body::blank_body(c).regions[i], c[i], 0),
{
    assert forall|i: int| 0 <= i < c.len() implies integrity::region_ok(
        #[trigger] body::blank_body(c).regions[i],
        c[i],
        0,
    ) by {
        assert(body::blank_body(c).regions[i] == body::blank_region(c[i].kind, c[i].encoding));
    }
}

/// A page is a data page or not there.
pub open spec fn data_or_gone(m: database::DbModel, id: PageId) -> bool {
    m.pager.page(id) matches Some(p) ==> p.kind == PageKind::Data
}

/// A page of another kind than data stays.
pub open spec fn stays(m: database::DbModel, d: database::DbModel, id: PageId) -> bool {
    m.pager.page(id) matches Some(p) ==> p.kind != PageKind::Data ==> d.pager.page(id) == Some(p)
}

/// What a change to data pages owes: every row with its cells, every slot in
/// order, and the rest as it was.
pub open spec fn moved_well(m: database::DbModel, d: database::DbModel) -> bool {
    &&& housed(d)
    &&& same_rows(m, d)
    &&& d.dicts == m.dicts
    &&& d.indexes == m.indexes
    &&& forall|id: PageId| #[trigger] stays(m, d, id)
    &&& forall|id: PageId| data_or_gone(m, id) ==> #[trigger] data_or_gone(d, id)
}

/// Repacking a page leaves the database housed and every row with its cells.
#[verifier::spinoff_prover]
#[verifier::rlimit(80)]
pub proof fn lemma_repacked(m: database::DbModel, pid: PageId)
    requires
        housed(m),
        data_or_gone(m, pid),
        compact::repacked(m, pid) is Ok,
    ensures
        moved_well(m, compact::repacked(m, pid)->Ok_0),
{
    let d = compact::repacked(m, pid)->Ok_0;
    let p = m.pager.page(pid)->0;
    lemma_live(m, pid);
    assert(integrity::page_ok(m, pid));
    if p.buf.len() > 0 {
        let live = compact::live_slots(p.dir());
        let places = compact::live_places(p.dir());
        let b = body::body_of(p.buf)->Ok_0;
        let slots = compact::renumbered(live, 0);
        let c = if places.len() == 0 {
            body::blank_body(m.schema)
        } else {
            body::BodyModel { num_rows: places.len() as u32, regions: compact::all_picked(b.regions, places, true) }
        };
        let q = p.rewritten(body::body_bytes(c), slots);
        assert(places.len() == 0 ==> slots =~= Seq::<SlotEntry>::empty());
        assert(d.pager == m.pager.with_page(pid, q));
        assert(d.rows == compact::rehomed(m.rows, slots, pid, 0));
        integrity::lemma_page_id(m.pager, pid);
        lemma_swapped(m.pager, pid, q);
        lemma_all_rehomed(m.rows, slots, pid, 0);
        fsm::lemma_put_pages(m.fsm.space, pid, 256u32);
        keymap::lemma_put(m.page_rows, pid as u64, compact::rows_in(slots), 0);
        keymap::lemma_cut(m.page_rows, pid as u64, 0);
        assert(d.wf());
        lemma_blank(m.schema);
        assert forall|i: int| 0 <= i < m.schema.len() implies integrity::region_ok(
            #[trigger] c.regions[i],
            m.schema[i],
            slots.len(),
        ) by {
            assert(integrity::region_ok(b.regions[i], m.schema[i], p.dir().len()));
            integrity::lemma_picked(b.regions[i], places, true);
        }
        lemma_page_written(p, m.schema, c, slots);
        lemma_repacked_homes(m, d, pid, q, c);
    }
}

#[verifier::spinoff_prover]
#[verifier::rlimit(40)]
proof fn lemma_repacked_homes(
    m: database::DbModel,
    d: database::DbModel,
    pid: PageId,
    q: pager::PageModel,
    c: body::BodyModel,
)
    requires
        housed(m),
        d.wf(),
        d.schema == m.schema,
        d.dicts == m.dicts,
        d.indexes == m.indexes,
        d.next_row_id == m.next_row_id,
        m.pager.page(pid) is Some,
        m.pager.page(pid)->0.kind == PageKind::Data,
        m.pager.page(pid)->0.buf.len() > 0,
        q.kind == PageKind::Data,
        q.dir() == compact::renumbered(compact::live_slots(m.pager.page(pid)->0.dir()), 0),
        body::body_of(q.buf) == Ok::<body::BodyModel, DecodeError>(c),
        c.regions.len() == m.schema.len(),
        q.dir().len() > 0 ==> c.regions == compact::all_picked(
            body::body_of(m.pager.page(pid)->0.buf)->Ok_0.regions,
            compact::live_places(m.pager.page(pid)->0.dir()),
            true,
        ),
        integrity::tidy_page(q, m.schema),
        d.pager.page(pid) == Some(q),
        forall|o: PageId| o != pid ==> #[trigger] d.pager.page(o) == m.pager.page(o),
        d.fsm.space == keymap::put(m.fsm.space, pid as u64, 256u32),
        forall|r: u64|
            #[trigger] d.home(r) == (if integrity::last_of(q.dir(), r) >= 0 && m.home(r) is Some {
                Some(Home { page: pid, slot: integrity::last_of(q.dir(), r) as u32 })
            } else {
                m.home(r)
            }),
    ensures
        moved_well(m, d),
{
    let p = m.pager.page(pid)->0;
    let live = compact::live_slots(p.dir());
    let places = compact::live_places(p.dir());
    let slots = q.dir();
    let b = body::body_of(p.buf)->Ok_0;
    lemma_live(m, pid);
    assert(integrity::page_ok(m, pid));
    assert forall|r: u64| integrity::last_of(slots, r) == #[trigger] integrity::last_of(live, r) by {
        lemma_renumbered(live, 0, r);
    }
    assert forall|id: PageId| #[trigger] integrity::page_ok(d, id) by {
        assert(integrity::page_ok(m, id));
        if id != pid {
            assert(d.pager.page(id) == m.pager.page(id));
        }
    }
    assert forall|id: PageId| #[trigger] integrity::space_ok(d, id) by {
        assert(integrity::space_ok(m, id));
        keymap::lemma_put(m.fsm.space, pid as u64, 256u32, id as u64);
        if id != pid {
            assert(d.pager.page(id) == m.pager.page(id));
        }
    }
    assert forall|r: u64| #[trigger] d.home(r) matches Some(x) implies integrity::home_ok(d, r, d.home(r)->0) by {
        let h = m.home(r)->0;
        assert(integrity::home_ok(m, r, h));
        integrity::lemma_last_of(live, r);
        if integrity::last_of(live, r) < 0 {
            assert(d.pager.page(h.page) == m.pager.page(h.page));
        }
    }
    assert forall|r: u64, col: int| 0 <= col < m.schema.len() implies #[trigger] mutation::cell_of(d, r, col)
        == mutation::cell_of(m, r, col) by {
        if let Some(h) = m.home(r) {
            let k = integrity::last_of(live, r);
            integrity::lemma_last_of(live, r);
            assert(d.home(r) is Some);
            if k < 0 {
                assert(h.page != pid);
                assert(d.pager.page(h.page) == m.pager.page(h.page));
            } else {
                assert(h == Home { page: pid, slot: places[k] as u32 });
                assert(integrity::region_ok(b.regions[col], m.schema[col], p.dir().len()));
                integrity::lemma_picked(b.regions[col], places, true);
                assert(body::cell_at(c.regions[col], k) == body::cell_at(b.regions[col], places[k]));
            }
        } else {
            assert(d.home(r) is None);
        }
    }
    assert forall|id: PageId| #[trigger] integrity::owns(d, id) by {
        assert(integrity::owns(m, id));
        if id != pid {
            assert(d.pager.page(id) == m.pager.page(id));
        }
        if let Some(o) = d.pager.page(id) {
            if o.kind == PageKind::Data {
                assert forall|i: int| 0 <= i < o.dir().len() && (#[trigger] o.dir()[i]).live implies d.home(
                    o.dir()[i].row_id,
                ) == Some(Home { page: id, slot: i as u32 }) by {
                    let r = o.dir()[i].row_id;
                    if id != pid {
                        assert(m.home(r) == Some(Home { page: id, slot: i as u32 }));
                        integrity::lemma_last_of(live, r);
                    } else {
                        lemma_only(live, i);
                        assert(live[i].row_id == r);
                        assert(places[i] >= 0);
                        assert(m.home(r) is Some);
                    }
                }
            }
        }
    }
    assert forall|id: PageId| data_or_gone(m, id) implies #[trigger] data_or_gone(d, id) by {
        if id != pid {
            assert(d.pager.page(id) == m.pager.page(id));
        }
    }
    assert forall|id: PageId| #[trigger] stays(m, d, id) by {
        if id != pid {
            assert(d.pager.page(id) == m.pager.page(id));
        }
    }
}

// Splitting

/// Where a list of slots that name different rows is cut in two, a row is named
/// in the part that its place falls in.
proof fn lemma_cut_in_two(live: Seq<SlotEntry>, mid: int, r: u64)
    requires
        0 <= mid <= live.len(),
        forall|a: int, b: int| 0 <= a < b < live.len() ==> (#[trigger] live[a]).row_id != (#[trigger] live[b]).row_id,
    ensures
        ({
            let k = integrity::last_of(live, r);
            let left = integrity::last_of(live.subrange(0, mid), r);
            let right = integrity::last_of(live.subrange(mid, live.len() as int), r);
            &&& -1 <= k < live.len()
            &&& k < 0 ==> left == -1 && right == -1
            &&& 0 <= k < mid ==> left == k && right == -1
            &&& mid <= k ==> left == -1 && right == k - mid
        }),
{
    let a = live.subrange(0, mid);
    let b = live.subrange(mid, live.len() as int);
    let k = integrity::last_of(live, r);
    let left = integrity::last_of(a, r);
    let right = integrity::last_of(b, r);
    integrity::lemma_last_of(live, r);
    integrity::lemma_last_of(a, r);
    integrity::lemma_last_of(b, r);
    if left >= 0 {
        assert(live[left].row_id == r);
        lemma_only(live, left);
    }
    if right >= 0 {
        assert(live[mid + right].row_id == r);
        lemma_only(live, mid + right);
    }
    if 0 <= k < mid {
        assert(a[k].row_id == r);
    }
    if mid <= k {
        assert(b[k - mid].row_id == r);
    }
}

/// A split leaves the database housed and every row with its cells. A page with
/// fewer than four live rows is left alone. Otherwise the page keeps the first
/// half of its live rows, in order, a new data page gets the others, and no slot
/// of the two is dead; other pages stay.
#[verifier::spinoff_prover]
#[verifier::rlimit(80)]
pub proof fn lemma_split(m: database::DbModel, pid: PageId)
    requires
        housed(m),
        data_or_gone(m, pid),
        compact::halved(m, pid) is Ok,
    ensures
        moved_well(m, compact::halved(m, pid)->Ok_0),
        ({
            let d = compact::halved(m, pid)->Ok_0;
            let live = compact::live_slots(m.pager.page(pid)->0.dir());
            let mid = live.len() as int / 2;
            let new_pid = m.pager.next_id();
            &&& live.len() < 4 ==> d == m
            &&& live.len() >= 4 ==> {
                &&& m.pager.page(new_pid) is None
                &&& d.pager.page(pid) is Some
                &&& d.pager.page(new_pid) is Some
                &&& d.pager.page(new_pid)->0.kind == PageKind::Data
                &&& d.pager.page(pid)->0.dir() == compact::renumbered(live.subrange(0, mid), 0)
                &&& d.pager.page(new_pid)->0.dir() == compact::renumbered(live.subrange(mid, live.len() as int), 0)
                &&& forall|o: PageId| o != pid && o != new_pid ==> #[trigger] d.pager.page(o) == m.pager.page(o)
            }
        }),
{
    let p = m.pager.page(pid)->0;
    let live = compact::live_slots(p.dir());
    if live.len() >= 4 {
        let d = compact::halved(m, pid)->Ok_0;
        let b = body::body_of(p.buf)->Ok_0;
        let mid = live.len() as int / 2;
        let new_pid = m.pager.next_id();
        let left = live.subrange(0, mid);
        let right = live.subrange(mid, live.len() as int);
        let lb = body::BodyModel {
            num_rows: left.len() as u32,
            regions: compact::all_picked(b.regions, compact::offs(left), false),
        };
        let rb = body::BodyModel {
            num_rows: right.len() as u32,
            regions: compact::all_picked(b.regions, compact::offs(right), false),
        };
        let ls = compact::renumbered(left, 0);
        let rs = compact::renumbered(right, 0);
        let fresh = pager::fresh_page(new_pid, PageKind::Data, Seq::empty());
        let rq = fresh.rewritten(body::body_bytes(rb), rs);
        let lq = p.rewritten(body::body_bytes(lb), ls);
        let a = m.pager.allocated(PageKind::Data, Seq::empty());
        pager::lemma_alloc(m.pager, PageKind::Data, Seq::empty(), pid);
        lemma_live(m, pid);
        integrity::lemma_page_id(m.pager, pid);
        lemma_swapped(a, new_pid, rq);
        let a2 = a.with_page(new_pid, rq);
        assert(a2.page(pid) == m.pager.page(pid));
        lemma_swapped(a2, pid, lq);
        assert(d.pager == a2.with_page(pid, lq));
        assert forall|o: PageId| o != pid && o != new_pid implies #[trigger] d.pager.page(o) == m.pager.page(o) by {
            pager::lemma_alloc(m.pager, PageKind::Data, Seq::empty(), o);
            assert(a2.page(o) == a.page(o));
        }
        assert(d.pager.page(new_pid) == a2.page(new_pid));
        lemma_all_rehomed(m.rows, ls, pid, 0);
        lemma_all_rehomed(compact::rehomed(m.rows, ls, pid, 0), rs, new_pid, 0);
        fsm::lemma_put_pages(m.fsm.space, new_pid, 256u32);
        let space = keymap::put(m.fsm.space, new_pid as u64, 256u32);
        fsm::lemma_put_pages(space, pid, 256u32);
        keymap::lemma_put(m.page_rows, pid as u64, compact::rows_in(ls), 0);
        keymap::lemma_put(
            keymap::put(m.page_rows, pid as u64, compact::rows_in(ls)),
            new_pid as u64,
            compact::rows_in(rs),
            0,
        );
        assert(d.wf());
        assert(integrity::page_ok(m, pid));
        assert forall|i: int| 0 <= i < m.schema.len() implies integrity::region_ok(
            #[trigger] lb.regions[i],
            m.schema[i],
            ls.len(),
        ) by {
            assert(integrity::region_ok(b.regions[i], m.schema[i], p.dir().len()));
            lemma_half_picked(m, pid, 0, mid, i);
        }
        assert forall|i: int| 0 <= i < m.schema.len() implies integrity::region_ok(
            #[trigger] rb.regions[i],
            m.schema[i],
            rs.len(),
        ) by {
            assert(integrity::region_ok(b.regions[i], m.schema[i], p.dir().len()));
            lemma_half_picked(m, pid, mid, live.len() as int, i);
        }
        lemma_page_written(p, m.schema, lb, ls);
        lemma_page_written(fresh, m.schema, rb, rs);
        assert forall|r: u64|
            #[trigger] d.home(r) == halved_home(m, pid, r) by {
            lemma_cut_in_two(live, mid, r);
            lemma_renumbered(left, 0, r);
            lemma_renumbered(right, 0, r);
            assert(keymap::find(compact::rehomed(m.rows, ls, pid, 0), r) is Some == m.home(r) is Some);
        }
        assert forall|id: PageId| #[trigger] integrity::space_ok(d, id) by {
            assert(integrity::space_ok(m, id));
            keymap::lemma_put(m.fsm.space, new_pid as u64, 256u32, id as u64);
            keymap::lemma_put(space, pid as u64, 256u32, id as u64);
            if id != pid && id != new_pid {
                assert(d.pager.page(id) == m.pager.page(id));
            }
        }
        lemma_split_homes(m, d, pid, lb, rb);
    }
}

/// A picked part of a page's live rows.
proof fn lemma_half_picked(m: database::DbModel, pid: PageId, lo: int, hi: int, i: int)
    requires
        housed(m),
        m.pager.page(pid) is Some,
        m.pager.page(pid)->0.kind == PageKind::Data,
        m.pager.page(pid)->0.buf.len() > 0,
        0 <= lo <= hi <= compact::live_slots(m.pager.page(pid)->0.dir()).len(),
        0 <= i < m.schema.len(),
    ensures
        ({
            let p = m.pager.page(pid)->0;
            let b = body::body_of(p.buf)->Ok_0;
            let live = compact::live_slots(p.dir());
            let q = compact::picked(b.regions[i], compact::offs(live.subrange(lo, hi)), false);
            &&& body::whole(q)
            &&& body::cell_count(q) == hi - lo
            &&& forall|k: int|
                0 <= k < hi - lo ==> #[trigger] body::cell_at(q, k) == body::cell_at(
                    b.regions[i],
                    compact::live_places(p.dir())[lo + k],
                )
        }),
{
    let p = m.pager.page(pid)->0;
    let b = body::body_of(p.buf)->Ok_0;
    let live = compact::live_slots(p.dir());
    let places = compact::live_places(p.dir());
    lemma_live(m, pid);
    assert(integrity::page_ok(m, pid));
    assert(integrity::region_ok(b.regions[i], m.schema[i], p.dir().len()));
    let part = compact::offs(live.subrange(lo, hi));
    assert(part =~= places.subrange(lo, hi));
    assert forall|j: int| 0 <= j < part.len() implies 0 <= #[trigger] part[j] < body::cell_count(b.regions[i]) by {
        assert(part[j] == places[lo + j]);
    }
    integrity::lemma_picked(b.regions[i], part, false);
    let q = compact::picked(b.regions[i], part, false);
    assert forall|k: int| 0 <= k < hi - lo implies #[trigger] body::cell_at(q, k) == body::cell_at(
        b.regions[i],
        places[lo + k],
    ) by {
        assert(part[k] == places[lo + k]);
    }
}

/// Where a row is once its page is split.
spec fn halved_home(m: database::DbModel, pid: PageId, r: u64) -> Option<Home> {
    let live = compact::live_slots(m.pager.page(pid)->0.dir());
    let k = integrity::last_of(live, r);
    let mid = live.len() as int / 2;
    if k < 0 || m.home(r) is None {
        m.home(r)
    } else if k < mid {
        Some(Home { page: pid, slot: k as u32 })
    } else {
        Some(Home { page: m.pager.next_id(), slot: (k - mid) as u32 })
    }
}

/// A page and its split: the two halves in place, and the rows at home in them.
spec fn split_shape(
    m: database::DbModel,
    d: database::DbModel,
    pid: PageId,
    lb: body::BodyModel,
    rb: body::BodyModel,
) -> bool {
    let p = m.pager.page(pid)->0;
    let live = compact::live_slots(p.dir());
    let mid = live.len() as int / 2;
    let left = live.subrange(0, mid);
    let right = live.subrange(mid, live.len() as int);
    let new_pid = m.pager.next_id();
    let b = body::body_of(p.buf)->Ok_0;
    &&& housed(m)
    &&& d.wf()
    &&& d.schema == m.schema
    &&& d.dicts == m.dicts
    &&& d.indexes == m.indexes
    &&& d.next_row_id == m.next_row_id
    &&& m.pager.page(pid) is Some
    &&& p.kind == PageKind::Data
    &&& p.buf.len() > 0
    &&& m.pager.page(new_pid) is None
    &&& d.pager.page(pid) == Some(p.rewritten(body::body_bytes(lb), compact::renumbered(left, 0)))
    &&& d.pager.page(new_pid) == Some(
        pager::fresh_page(new_pid, PageKind::Data, Seq::empty()).rewritten(
            body::body_bytes(rb),
            compact::renumbered(right, 0),
        ),
    )
    &&& forall|o: PageId| o != pid && o != new_pid ==> #[trigger] d.pager.page(o) == m.pager.page(o)
    &&& lb.regions == compact::all_picked(b.regions, compact::offs(left), false)
    &&& rb.regions == compact::all_picked(b.regions, compact::offs(right), false)
    &&& integrity::tidy_page(d.pager.page(pid)->0, m.schema)
    &&& integrity::tidy_page(d.pager.page(new_pid)->0, m.schema)
    &&& body::body_of(body::body_bytes(lb)) == Ok::<body::BodyModel, DecodeError>(lb)
    &&& body::body_of(body::body_bytes(rb)) == Ok::<body::BodyModel, DecodeError>(rb)
    &&& forall|r: u64| #[trigger] d.home(r) == halved_home(m, pid, r)
    &&& forall|id: PageId| #[trigger] integrity::space_ok(d, id)
}

#[verifier::spinoff_prover]
#[verifier::rlimit(40)]
proof fn lemma_split_home(
    m: database::DbModel,
    d: database::DbModel,
    pid: PageId,
    lb: body::BodyModel,
    rb: body::BodyModel,
    r: u64,
)
    requires
        split_shape(m, d, pid, lb, rb),
        m.home(r) is Some,
    ensures
        d.home(r) is Some,
        integrity::home_ok(d, r, d.home(r)->0),
{
    let p = m.pager.page(pid)->0;
    let live = compact::live_slots(p.dir());
    let places = compact::live_places(p.dir());
    let mid = live.len() as int / 2;
    let new_pid = m.pager.next_id();
    lemma_live(m, pid);
    let h = m.home(r)->0;
    assert(d.home(r) == halved_home(m, pid, r));
    assert(integrity::home_ok(m, r, h));
    integrity::lemma_last_of(live, r);
    let k = integrity::last_of(live, r);
    if k < 0 {
        assert(h.page != pid && h.page != new_pid);
        assert(d.pager.page(h.page) == m.pager.page(h.page));
    } else if k < mid {
        assert(live.subrange(0, mid)[k] == live[k]);
    } else {
        assert(live.subrange(mid, live.len() as int)[k - mid] == live[k]);
    }
}

#[verifier::spinoff_prover]
#[verifier::rlimit(40)]
proof fn lemma_split_cell(
    m: database::DbModel,
    d: database::DbModel,
    pid: PageId,
    lb: body::BodyModel,
    rb: body::BodyModel,
    r: u64,
    col: int,
)
    requires
        split_shape(m, d, pid, lb, rb),
        m.home(r) is Some,
        0 <= col < m.schema.len(),
    ensures
        mutation::cell_of(d, r, col) == mutation::cell_of(m, r, col),
{
    let p = m.pager.page(pid)->0;
    let live = compact::live_slots(p.dir());
    let places = compact::live_places(p.dir());
    let mid = live.len() as int / 2;
    let new_pid = m.pager.next_id();
    let b = body::body_of(p.buf)->Ok_0;
    let h = m.home(r)->0;
    let k = integrity::last_of(live, r);
    lemma_live(m, pid);
    assert(integrity::page_ok(m, pid));
    assert(d.home(r) == halved_home(m, pid, r));
    assert(integrity::home_ok(m, r, h));
    integrity::lemma_last_of(live, r);
    if k < 0 {
        assert(h.page != pid && h.page != new_pid);
        assert(d.pager.page(h.page) == m.pager.page(h.page));
    } else {
        assert(places[k] >= 0);
        assert(h == Home { page: pid, slot: places[k] as u32 });
        lemma_half_picked(m, pid, 0, mid, col);
        lemma_half_picked(m, pid, mid, live.len() as int, col);
        if k < mid {
            assert(body::cell_at(lb.regions[col], k) == body::cell_at(b.regions[col], places[k]));
        } else {
            assert(body::cell_at(rb.regions[col], k - mid) == body::cell_at(b.regions[col], places[mid + (k - mid)]));
        }
    }
}

/// A slot of the two halves is its row's home.
proof fn lemma_half_slot(m: database::DbModel, pid: PageId, lo: int, hi: int, i: int)
    requires
        housed(m),
        m.pager.page(pid) is Some,
        m.pager.page(pid)->0.kind == PageKind::Data,
        0 <= lo <= hi <= compact::live_slots(m.pager.page(pid)->0.dir()).len(),
        0 <= i < hi - lo,
    ensures
        ({
            let live = compact::live_slots(m.pager.page(pid)->0.dir());
            let r = compact::renumbered(live.subrange(lo, hi), 0)[i].row_id;
            &&& integrity::last_of(live, r) == lo + i
            &&& m.home(r) is Some
            &&& live.len() <= u32::MAX
        }),
{
    let live = compact::live_slots(m.pager.page(pid)->0.dir());
    assert(live.subrange(lo, hi)[i] == live[lo + i]);
    lemma_live_at(m, pid, lo + i);
}

proof fn lemma_split_slot(
    m: database::DbModel,
    d: database::DbModel,
    pid: PageId,
    id: PageId,
    dir: Seq<SlotEntry>,
    i: int,
)
    requires
        housed(m),
        m.pager.page(pid) is Some,
        m.pager.page(pid)->0.kind == PageKind::Data,
        pid != m.pager.next_id(),
        0 <= i < dir.len(),
        dir[i].live,
        d.home(dir[i].row_id) == halved_home(m, pid, dir[i].row_id),
        ({
            let live = compact::live_slots(m.pager.page(pid)->0.dir());
            let mid = live.len() as int / 2;
            if id == pid {
                dir == compact::renumbered(live.subrange(0, mid), 0)
            } else if id == m.pager.next_id() {
                dir == compact::renumbered(live.subrange(mid, live.len() as int), 0)
            } else {
                m.home(dir[i].row_id) == Some(Home { page: id, slot: i as u32 })
            }
        }),
    ensures
        d.home(dir[i].row_id) == Some(Home { page: id, slot: i as u32 }),
{
    let live = compact::live_slots(m.pager.page(pid)->0.dir());
    let mid = live.len() as int / 2;
    if id == pid {
        lemma_half_slot(m, pid, 0, mid, i);
    } else if id == m.pager.next_id() {
        lemma_half_slot(m, pid, mid, live.len() as int, i);
    } else {
        lemma_not_live(m, pid, dir[i].row_id);
    }
}

#[verifier::spinoff_prover]
#[verifier::rlimit(80)]
proof fn lemma_split_homes(
    m: database::DbModel,
    d: database::DbModel,
    pid: PageId,
    lb: body::BodyModel,
    rb: body::BodyModel,
)
    requires
        split_shape(m, d, pid, lb, rb),
    ensures
        moved_well(m, d),
{
    let p = m.pager.page(pid)->0;
    let live = compact::live_slots(p.dir());
    let new_pid = m.pager.next_id();
    lemma_live(m, pid);
    assert forall|id: PageId| #[trigger] integrity::page_ok(d, id) by {
        assert(integrity::page_ok(m, id));
        if id != pid && id != new_pid {
            assert(d.pager.page(id) == m.pager.page(id));
        }
    }
    assert forall|r: u64| (#[trigger] d.home(r) is Some) == (m.home(r) is Some) by {
        assert(d.home(r) == halved_home(m, pid, r));
    }
    assert forall|r: u64| #[trigger] d.home(r) matches Some(x) implies integrity::home_ok(d, r, d.home(r)->0) by {
        lemma_split_home(m, d, pid, lb, rb, r);
    }
    assert forall|r: u64, col: int| 0 <= col < m.schema.len() implies #[trigger] mutation::cell_of(d, r, col)
        == mutation::cell_of(m, r, col) by {
        if m.home(r) is Some {
            lemma_split_cell(m, d, pid, lb, rb, r, col);
        } else {
            assert(d.home(r) is None);
        }
    }
    assert forall|id: PageId| #[trigger] integrity::owns(d, id) by {
        assert(integrity::owns(m, id));
        if id != pid && id != new_pid {
            assert(d.pager.page(id) == m.pager.page(id));
        }
        if let Some(o) = d.pager.page(id) {
            if o.kind == PageKind::Data {
                assert forall|i: int| 0 <= i < o.dir().len() && (#[trigger] o.dir()[i]).live implies d.home(
                    o.dir()[i].row_id,
                ) == Some(Home { page: id, slot: i as u32 }) by {
                    assert(d.home(o.dir()[i].row_id) == halved_home(m, pid, o.dir()[i].row_id));
                    if id != pid && id != new_pid {
                        assert(m.home(o.dir()[i].row_id) == Some(Home { page: id, slot: i as u32 }));
                    }
                    lemma_split_slot(m, d, pid, id, o.dir(), i);
                }
            }
        }
    }
    assert forall|id: PageId| data_or_gone(m, id) implies #[trigger] data_or_gone(d, id) by {
        if id != pid && id != new_pid {
            assert(d.pager.page(id) == m.pager.page(id));
        }
    }
    assert forall|id: PageId| #[trigger] stays(m, d, id) by {
        if id != pid && id != new_pid {
            assert(d.pager.page(id) == m.pager.page(id));
        }
    }
}

// Merging

/// Cells picked from another region are read back behind a region's own.
proof fn lemma_extended(t: body::RegionModel, r: body::RegionModel, places: Seq<int>)
    requires
        t.kind == r.kind,
        t.encoding == r.encoding,
        body::whole(t),
        forall|j: int| 0 <= j < places.len() ==> 0 <= #[trigger] places[j] < body::cell_count(r),
        body::cell_count(t) + places.len() <= u32::MAX,
    ensures
        ({
            let q = compact::extended(t, r, places);
            let n = body::cell_count(t);
            &&& body::whole(q)
            &&& body::cell_count(q) == n + places.len()
            &&& forall|k: int| 0 <= k < n ==> #[trigger] body::cell_at(q, k) == body::cell_at(t, k)
            &&& forall|k: int|
                n <= k < n + places.len() ==> #[trigger] body::cell_at(q, k) == body::cell_at(r, places[k - n])
        }),
{
    let q = compact::extended(t, r, places);
    let n = body::cell_count(t) as int;
    if r.encoding == Encoding::Rle {
        rle::lemma_packed(rle::values_of(t.data) + compact::cells(r, places));
    } else {
        let w = body::width(r.kind) as int;
        let size = t.data.len() as int;
        let more = places.len() as int;
        integrity::lemma_raw_cells(r, places, false, 0);
        vstd::arithmetic::div_mod::lemma_fundamental_div_mod(size, w);
        assert(size == n * w && size + more * w == (n + more) * w) by (nonlinear_arith)
            requires
                size == w * n,
        ;
        vstd::arithmetic::div_mod::lemma_mod_multiples_basic(n + more, w);
        vstd::arithmetic::div_mod::lemma_div_by_multiple(n + more, w);
        let raw = compact::raw_cells(r, places, false);
        assert forall|k: int| 0 <= k < n implies #[trigger] body::cell_at(q, k) == body::cell_at(t, k) by {
            assert(k * w >= 0 && k * w + w == (k + 1) * w && (k + 1) * w <= size) by (nonlinear_arith)
                requires
                    0 <= k < n,
                    w > 0,
                    size == n * w,
            ;
            assert(q.data.subrange(k * w, k * w + w) =~= t.data.subrange(k * w, k * w + w));
            integrity::lemma_cell_bytes(q, t, k, k);
        }
        assert forall|k: int| n <= k < n + more implies #[trigger] body::cell_at(q, k) == body::cell_at(
            r,
            places[k - n],
        ) by {
            let j = k - n;
            integrity::lemma_raw_cells(r, places, false, j);
            assert(j * w >= 0 && k * w == size + j * w && j * w + w <= more * w && (k + 1) * w <= (n + more) * w)
                by (nonlinear_arith)
                requires
                    0 <= j < more,
                    k == n + j,
                    w > 0,
                    size == n * w,
            ;
            assert(q.data.subrange(k * w, k * w + w) =~= raw.subrange(j * w, j * w + w));
            integrity::lemma_cell_bytes(q, r, k, places[j]);
        }
    }
}

/// The ids listed for a kind are those of pages of that kind.
pub proof fn lemma_ids_of_kind(m: pager::PagerModel, kind: PageKind, n: nat)
    requires
        m.wf(),
        n <= m.pages.len(),
    ensures
        forall|i: int|
            0 <= i < m.ids_of_kind(kind, n).len() ==> m.page(#[trigger] m.ids_of_kind(kind, n)[i]) is Some && m.page(
                m.ids_of_kind(kind, n)[i],
            )->0.kind == kind,
    decreases n,
{
    if n > 0 {
        lemma_ids_of_kind(m, kind, (n - 1) as nat);
        let before = m.ids_of_kind(kind, (n - 1) as nat);
        keymap::lemma_listed(m.pages, n - 1);
        assert(m.pages[n - 1].0 < m.high_water);
        assert forall|i: int| 0 <= i < m.ids_of_kind(kind, n).len() implies m.page(#[trigger] m.ids_of_kind(kind, n)[i]) is Some
            && m.page(m.ids_of_kind(kind, n)[i])->0.kind == kind by {
            if i < before.len() {
                assert(m.ids_of_kind(kind, n)[i] == before[i]);
            }
        }
    }
}

/// A neighbor is listed, and another page.
pub proof fn lemma_neighbor(ids: Seq<PageId>, pid: PageId)
    ensures
        compact::neighbor(ids, pid) matches Some(n) ==> n != pid && ids.contains(n),
    decreases ids.len(),
{
    if ids.len() > 0 {
        if ids[0] != pid {
            assert(ids.contains(ids[0]));
        } else {
            let rest = ids.skip(1);
            lemma_neighbor(rest, pid);
            if let Some(n) = compact::neighbor(rest, pid) {
                let k = rest.index_of(n);
                assert(ids[k + 1] == n);
            }
        }
    }
}

/// Where a row is once its page is folded into page `n`.
spec fn folded_home(m: database::DbModel, pid: PageId, n: PageId, r: u64) -> Option<Home> {
    let k = integrity::last_of(compact::live_slots(m.pager.page(pid)->0.dir()), r);
    if k < 0 || m.home(r) is None {
        m.home(r)
    } else {
        Some(Home { page: n, slot: (m.pager.page(n)->0.dir().len() + k) as u32 })
    }
}

/// A page and its merge: the rows behind those of page `n`.
spec fn merge_shape(m: database::DbModel, d: database::DbModel, pid: PageId, n: PageId, c: body::BodyModel) -> bool {
    let p = m.pager.page(pid)->0;
    let q = m.pager.page(n)->0;
    let live = compact::live_slots(p.dir());
    let b = body::body_of(p.buf)->Ok_0;
    let t = body::body_of(q.buf)->Ok_0;
    &&& housed(m)
    &&& d.wf()
    &&& d.schema == m.schema
    &&& d.dicts == m.dicts
    &&& d.indexes == m.indexes
    &&& d.next_row_id == m.next_row_id
    &&& n != pid
    &&& m.pager.page(pid) is Some
    &&& p.kind == PageKind::Data
    &&& p.buf.len() > 0
    &&& m.pager.page(n) is Some
    &&& q.kind == PageKind::Data
    &&& q.buf.len() > 0
    &&& q.dir().len() + live.len() <= u32::MAX
    &&& d.pager.page(pid) is None
    &&& d.pager.page(n) == Some(
        q.rewritten(body::body_bytes(c), q.dir() + compact::renumbered(live, q.dir().len())),
    )
    &&& forall|o: PageId| o != pid && o != n ==> #[trigger] d.pager.page(o) == m.pager.page(o)
    &&& c.regions == compact::all_extended(t.regions, b.regions, compact::offs(live))
    &&& integrity::tidy_page(d.pager.page(n)->0, m.schema)
    &&& body::body_of(body::body_bytes(c)) == Ok::<body::BodyModel, DecodeError>(c)
    &&& forall|r: u64| #[trigger] d.home(r) == folded_home(m, pid, n, r)
    &&& forall|id: PageId| #[trigger] integrity::space_ok(d, id)
}

/// A column of page `n` with the live cells of page `pid` behind its own.
#[verifier::spinoff_prover]
#[verifier::rlimit(40)]
proof fn lemma_fold_region(m: database::DbModel, pid: PageId, n: PageId, i: int)
    requires
        housed(m),
        m.pager.page(pid) is Some,
        m.pager.page(pid)->0.kind == PageKind::Data,
        m.pager.page(pid)->0.buf.len() > 0,
        m.pager.page(n) is Some,
        m.pager.page(n)->0.kind == PageKind::Data,
        m.pager.page(n)->0.buf.len() > 0,
        m.pager.page(n)->0.dir().len() + compact::live_slots(m.pager.page(pid)->0.dir()).len() <= u32::MAX,
        0 <= i < m.schema.len(),
    ensures
        ({
            let p = m.pager.page(pid)->0;
            let q = m.pager.page(n)->0;
            let live = compact::live_slots(p.dir());
            let places = compact::live_places(p.dir());
            let b = body::body_of(p.buf)->Ok_0;
            let t = body::body_of(q.buf)->Ok_0;
            let start = q.dir().len();
            let e = compact::extended(t.regions[i], b.regions[i], compact::offs(live));
            &&& b.regions.len() == m.schema.len()
            &&& t.regions.len() == m.schema.len()
            &&& integrity::region_ok(e, m.schema[i], start + live.len())
            &&& forall|k: int| 0 <= k < start ==> #[trigger] body::cell_at(e, k) == body::cell_at(t.regions[i], k)
            &&& forall|k: int|
                start <= k < start + live.len() ==> #[trigger] body::cell_at(e, k) == body::cell_at(
                    b.regions[i],
                    places[k - start],
                )
        }),
{
    let p = m.pager.page(pid)->0;
    let q = m.pager.page(n)->0;
    let b = body::body_of(p.buf)->Ok_0;
    let t = body::body_of(q.buf)->Ok_0;
    lemma_live(m, pid);
    assert(integrity::page_ok(m, pid));
    assert(integrity::page_ok(m, n));
    assert(integrity::region_ok(b.regions[i], m.schema[i], p.dir().len()));
    assert(integrity::region_ok(t.regions[i], m.schema[i], q.dir().len()));
    lemma_extended(t.regions[i], b.regions[i], compact::live_places(p.dir()));
}

#[verifier::spinoff_prover]
#[verifier::rlimit(40)]
proof fn lemma_merge_home(m: database::DbModel, d: database::DbModel, pid: PageId, n: PageId, c: body::BodyModel, r: u64)
    requires
        merge_shape(m, d, pid, n, c),
        m.home(r) is Some,
    ensures
        d.home(r) is Some,
        integrity::home_ok(d, r, d.home(r)->0),
{
    let p = m.pager.page(pid)->0;
    let q = m.pager.page(n)->0;
    let live = compact::live_slots(p.dir());
    lemma_live(m, pid);
    let h = m.home(r)->0;
    assert(d.home(r) == folded_home(m, pid, n, r));
    assert(integrity::home_ok(m, r, h));
    integrity::lemma_last_of(live, r);
    let k = integrity::last_of(live, r);
    let dir = d.pager.page(n)->0.dir();
    if k < 0 {
        assert(h.page != pid);
        if h.page == n {
            assert(dir[h.slot as int] == q.dir()[h.slot as int]);
        } else {
            assert(d.pager.page(h.page) == m.pager.page(h.page));
        }
    } else {
        assert(dir[q.dir().len() + k] == compact::renumbered(live, q.dir().len())[k]);
    }
}

#[verifier::spinoff_prover]
#[verifier::rlimit(40)]
proof fn lemma_merge_cell(
    m: database::DbModel,
    d: database::DbModel,
    pid: PageId,
    n: PageId,
    c: body::BodyModel,
    r: u64,
    col: int,
)
    requires
        merge_shape(m, d, pid, n, c),
        m.home(r) is Some,
        0 <= col < m.schema.len(),
    ensures
        mutation::cell_of(d, r, col) == mutation::cell_of(m, r, col),
{
    let live = compact::live_slots(m.pager.page(pid)->0.dir());
    let places = compact::live_places(m.pager.page(pid)->0.dir());
    let h = m.home(r)->0;
    let k = integrity::last_of(live, r);
    assert(d.home(r) == folded_home(m, pid, n, r));
    assert(integrity::home_ok(m, r, h));
    assert(-1 <= k < live.len() && (k < 0 ==> h.page != pid) && (k >= 0 ==> h == Home {
        page: pid,
        slot: places[k] as u32,
    } && 0 <= places[k] <= u32::MAX)) by {
        lemma_live(m, pid);
        integrity::lemma_last_of(live, r);
        if k >= 0 {
            assert(0 <= places[k]);
        }
    }
    if k >= 0 {
        lemma_merge_moved(m, d, pid, n, c, k, col);
    } else if h.page == n {
        lemma_merge_stayed(m, d, pid, n, c, h.slot as int, col);
    } else {
        assert(d.pager.page(h.page) == m.pager.page(h.page));
    }
}

/// A live cell of the folded page.
#[verifier::spinoff_prover]
#[verifier::rlimit(40)]
proof fn lemma_merge_moved(
    m: database::DbModel,
    d: database::DbModel,
    pid: PageId,
    n: PageId,
    c: body::BodyModel,
    k: int,
    col: int,
)
    requires
        merge_shape(m, d, pid, n, c),
        0 <= k < compact::live_slots(m.pager.page(pid)->0.dir()).len(),
        0 <= col < m.schema.len(),
    ensures
        c.regions.len() == m.schema.len(),
        body::body_of(m.pager.page(pid)->0.buf) is Ok,
        body::body_of(m.pager.page(pid)->0.buf)->Ok_0.regions.len() == m.schema.len(),
        body::cell_at(c.regions[col], m.pager.page(n)->0.dir().len() + k) == body::cell_at(
            body::body_of(m.pager.page(pid)->0.buf)->Ok_0.regions[col],
            compact::live_places(m.pager.page(pid)->0.dir())[k],
        ),
{
    let start = m.pager.page(n)->0.dir().len() as int;
    lemma_fold_region(m, pid, n, col);
    assert(integrity::page_ok(m, pid));
    let b = body::body_of(m.pager.page(pid)->0.buf)->Ok_0;
    let t = body::body_of(m.pager.page(n)->0.buf)->Ok_0;
    let live = compact::live_slots(m.pager.page(pid)->0.dir());
    let e = compact::extended(t.regions[col], b.regions[col], compact::offs(live));
    assert(c.regions[col] == e);
    assert(body::cell_at(e, start + k) == body::cell_at(
        b.regions[col],
        compact::live_places(m.pager.page(pid)->0.dir())[(start + k) - start],
    ));
}

/// A cell of the page that another one is folded into.
proof fn lemma_merge_stayed(
    m: database::DbModel,
    d: database::DbModel,
    pid: PageId,
    n: PageId,
    c: body::BodyModel,
    k: int,
    col: int,
)
    requires
        merge_shape(m, d, pid, n, c),
        0 <= k < m.pager.page(n)->0.dir().len(),
        0 <= col < m.schema.len(),
    ensures
        c.regions.len() == m.schema.len(),
        body::body_of(m.pager.page(n)->0.buf) is Ok,
        body::body_of(m.pager.page(n)->0.buf)->Ok_0.regions.len() == m.schema.len(),
        body::cell_at(c.regions[col], k) == body::cell_at(
            body::body_of(m.pager.page(n)->0.buf)->Ok_0.regions[col],
            k,
        ),
{
    lemma_fold_region(m, pid, n, col);
    assert(integrity::page_ok(m, n));
    let b = body::body_of(m.pager.page(pid)->0.buf)->Ok_0;
    let t = body::body_of(m.pager.page(n)->0.buf)->Ok_0;
    let live = compact::live_slots(m.pager.page(pid)->0.dir());
    let e = compact::extended(t.regions[col], b.regions[col], compact::offs(live));
    assert(c.regions[col] == e);
    assert(body::cell_at(e, k) == body::cell_at(t.regions[col], k));
}

#[verifier::spinoff_prover]
#[verifier::rlimit(40)]
proof fn lemma_merge_slot(
    m: database::DbModel,
    d: database::DbModel,
    pid: PageId,
    n: PageId,
    c: body::BodyModel,
    id: PageId,
    i: int,
)
    requires
        merge_shape(m, d, pid, n, c),
        d.pager.page(id) is Some,
        d.pager.page(id)->0.kind == PageKind::Data,
        0 <= i < d.pager.page(id)->0.dir().len(),
        d.pager.page(id)->0.dir()[i].live,
    ensures
        d.home(d.pager.page(id)->0.dir()[i].row_id) == Some(Home { page: id, slot: i as u32 }),
{
    let live = compact::live_slots(m.pager.page(pid)->0.dir());
    let q = m.pager.page(n)->0;
    let start = q.dir().len();
    assert(integrity::owns(m, id));
    let dir = d.pager.page(id)->0.dir();
    let r = dir[i].row_id;
    assert(d.home(r) == folded_home(m, pid, n, r));
    if id == n && i >= start {
        assert(dir[i] == compact::renumbered(live, start)[i - start]);
        assert(live[i - start].row_id == r);
        lemma_live_at(m, pid, i - start);
    } else {
        if id == n {
            assert(dir[i] == q.dir()[i]);
            assert(q.dir()[i].live);
        } else {
            assert(d.pager.page(id) == m.pager.page(id));
        }
        assert(m.home(r) == Some(Home { page: id, slot: i as u32 }));
        lemma_not_live(m, pid, r);
    }
}

#[verifier::spinoff_prover]
#[verifier::rlimit(80)]
proof fn lemma_merge_homes(m: database::DbModel, d: database::DbModel, pid: PageId, n: PageId, c: body::BodyModel)
    requires
        merge_shape(m, d, pid, n, c),
    ensures
        moved_well(m, d),
{
    assert forall|id: PageId| #[trigger] integrity::page_ok(d, id) by {
        assert(integrity::page_ok(m, id));
        if id != pid && id != n {
            assert(d.pager.page(id) == m.pager.page(id));
        }
    }
    assert forall|r: u64| (#[trigger] d.home(r) is Some) == (m.home(r) is Some) by {
        assert(d.home(r) == folded_home(m, pid, n, r));
    }
    assert forall|r: u64| #[trigger] d.home(r) matches Some(x) implies integrity::home_ok(d, r, d.home(r)->0) by {
        lemma_merge_home(m, d, pid, n, c, r);
    }
    assert forall|r: u64, col: int| 0 <= col < m.schema.len() implies #[trigger] mutation::cell_of(d, r, col)
        == mutation::cell_of(m, r, col) by {
        if m.home(r) is Some {
            lemma_merge_cell(m, d, pid, n, c, r, col);
        } else {
            assert(d.home(r) is None);
        }
    }
    assert forall|id: PageId| #[trigger] integrity::owns(d, id) by {
        assert(integrity::owns(m, id));
        if id != pid && id != n {
            assert(d.pager.page(id) == m.pager.page(id));
        }
        if let Some(o) = d.pager.page(id) {
            if o.kind == PageKind::Data {
                assert forall|i: int| 0 <= i < o.dir().len() && (#[trigger] o.dir()[i]).live implies d.home(
                    o.dir()[i].row_id,
                ) == Some(Home { page: id, slot: i as u32 }) by {
                    lemma_merge_slot(m, d, pid, n, c, id, i);
                }
            }
        }
    }
    assert forall|id: PageId| data_or_gone(m, id) implies #[trigger] data_or_gone(d, id) by {
        if id != pid && id != n {
            assert(d.pager.page(id) == m.pager.page(id));
        }
    }
    assert forall|id: PageId| #[trigger] stays(m, d, id) by {
        if id != pid && id != n {
            assert(d.pager.page(id) == m.pager.page(id));
        }
    }
}

/// A merge leaves the database housed and every row with its cells. Without
/// another data page nothing changes. Otherwise the page is gone, its live rows
/// stand, in order, behind the slots of the first other data page, and other
/// pages stay.
#[verifier::spinoff_prover]
#[verifier::rlimit(80)]
pub proof fn lemma_merge(m: database::DbModel, pid: PageId)
    requires
        housed(m),
        data_or_gone(m, pid),
        compact::merged(m, pid) is Ok,
    ensures
        moved_well(m, compact::merged(m, pid)->Ok_0),
        ({
            let d = compact::merged(m, pid)->Ok_0;
            let live = compact::live_slots(m.pager.page(pid)->0.dir());
            match compact::neighbor(m.pager.data_ids(), pid) {
                None => d == m,
                Some(n) => {
                    &&& d.pager.page(pid) is None
                    &&& m.pager.page(n) is Some
                    &&& d.pager.page(n) is Some
                    &&& d.pager.page(n)->0.dir() == m.pager.page(n)->0.dir() + compact::renumbered(
                        live,
                        m.pager.page(n)->0.dir().len(),
                    )
                    &&& forall|o: PageId| o != pid && o != n ==> #[trigger] d.pager.page(o) == m.pager.page(o)
                },
            }
        }),
{
    if let Some(n) = compact::neighbor(m.pager.data_ids(), pid) {
        let d = compact::merged(m, pid)->Ok_0;
        let p = m.pager.page(pid)->0;
        let q = m.pager.page(n)->0;
        let live = compact::live_slots(p.dir());
        let start = q.dir().len();
        let moved = compact::renumbered(live, start);
        let b = body::body_of(p.buf)->Ok_0;
        let t = body::body_of(q.buf)->Ok_0;
        let c = body::BodyModel {
            num_rows: (start + live.len()) as u32,
            regions: compact::all_extended(t.regions, b.regions, compact::offs(live)),
        };
        lemma_neighbor(m.pager.data_ids(), pid);
        lemma_ids_of_kind(m.pager, PageKind::Data, m.pager.pages.len());
        lemma_live(m, pid);
        let e = q.rewritten(body::body_bytes(c), q.dir() + moved);
        let a = m.pager.with_page(n, e);
        integrity::lemma_page_id(m.pager, n);
        lemma_swapped(m.pager, n, e);
        pager::lemma_recycled(a, pid);
        assert forall|o: PageId| o != pid && o != n implies #[trigger] d.pager.page(o) == m.pager.page(o) by {
            keymap::lemma_cut(a.pages, pid as u64, o as u64);
            assert(a.page(o) == m.pager.page(o));
        }
        keymap::lemma_cut(a.pages, pid as u64, n as u64);
        assert(d.pager.page(n) == Some(e));
        lemma_all_rehomed(m.rows, moved, n, start);
        let space = keymap::put(m.fsm.space, n as u64, 256u32);
        fsm::lemma_put_pages(m.fsm.space, n, 256u32);
        fsm::lemma_put_pages(space, pid, 256u32);
        fsm::lemma_put_pages(keymap::cut(space, pid as u64), pid, 256u32);
        fsm::lemma_put_pages(m.fsm.free, pid, fsm::Mark);
        fsm::lemma_put_pages(keymap::cut(m.fsm.free, pid as u64), pid, fsm::Mark);
        let noted = mutation::noted(m.page_rows, n) + compact::rows_in(moved);
        keymap::lemma_put(m.page_rows, n as u64, noted, 0);
        keymap::lemma_cut(keymap::put(m.page_rows, n as u64, noted), pid as u64, 0);
        assert(d.wf());
        assert(integrity::page_ok(m, n));
        assert(integrity::page_ok(m, pid));
        assert forall|i: int| 0 <= i < m.schema.len() implies integrity::region_ok(
            #[trigger] c.regions[i],
            m.schema[i],
            (q.dir() + moved).len(),
        ) by {
            lemma_fold_region(m, pid, n, i);
        }
        lemma_page_written(q, m.schema, c, q.dir() + moved);
        assert forall|r: u64| #[trigger] d.home(r) == folded_home(m, pid, n, r) by {
            lemma_renumbered(live, start, r);
        }
        assert forall|id: PageId| #[trigger] integrity::space_ok(d, id) by {
            assert(integrity::space_ok(m, id));
            keymap::lemma_put(m.fsm.space, n as u64, 256u32, id as u64);
            keymap::lemma_cut(space, pid as u64, id as u64);
            keymap::lemma_cut(keymap::cut(space, pid as u64), pid as u64, id as u64);
            if id != pid && id != n {
                assert(d.pager.page(id) == m.pager.page(id));
            }
        }
        lemma_merge_homes(m, d, pid, n, c);
    }
}

// Compacting

/// A compaction pass over a list of data pages leaves the database housed and
/// every row with its cells, whether it gets through or is stopped, and works on
/// each page at most once.
pub proof fn lemma_compacted(m: database::DbModel, ids: Seq<PageId>)
    requires
        housed(m),
        forall|i: int| 0 <= i < ids.len() ==> data_or_gone(m, #[trigger] ids[i]),
    ensures
        moved_well(m, compact::compacted(m, ids).0),
        compact::compacted(m, ids).1 <= ids.len(),
    decreases ids.len(),
{
    if ids.len() > 0 {
        let before = ids.drop_last();
        assert forall|i: int| 0 <= i < before.len() implies data_or_gone(m, #[trigger] before[i]) by {
            assert(before[i] == ids[i]);
        }
        lemma_compacted(m, before);
        let (a, n, stop) = compact::compacted(m, before);
        if stop is None {
            let pid = ids.last();
            assert(data_or_gone(m, ids[ids.len() - 1]));
            assert(data_or_gone(a, pid));
            let (b, k, f) = compact::compact_step(a, pid);
            if compact::halved(a, pid) is Ok {
                lemma_split(a, pid);
            }
            if compact::merged(a, pid) is Ok {
                lemma_merge(a, pid);
            }
            if compact::repacked(a, pid) is Ok {
                lemma_repacked(a, pid);
            }
            assert(moved_well(a, b));
            assert forall|r: u64, col: int| 0 <= col < m.schema.len() implies #[trigger] mutation::cell_of(b, r, col)
                == mutation::cell_of(m, r, col) by {
                assert(mutation::cell_of(a, r, col) == mutation::cell_of(m, r, col));
            }
            assert forall|r: u64| (#[trigger] b.home(r) is Some) == (m.home(r) is Some) by {
                assert((a.home(r) is Some) == (m.home(r) is Some));
            }
            assert forall|id: PageId| data_or_gone(m, id) implies #[trigger] data_or_gone(b, id) by {
                assert(data_or_gone(a, id));
            }
            assert forall|id: PageId| #[trigger] stays(m, b, id) by {
                assert(stays(m, a, id));
                assert(stays(a, b, id));
            }
        }
    }
}

/// Where the pages can be read, nothing but a size stops a page from being
/// repacked, split or merged.
pub proof fn lemma_compaction_stops(m: database::DbModel, pid: PageId)
    requires
        housed(m),
        m.pager.page(pid) is Some,
        m.pager.page(pid)->0.kind == PageKind::Data,
        forall|id: PageId|
            (#[trigger] m.pager.page(id) matches Some(p) && p.kind == PageKind::Data) ==> m.pager.page(id)->0.buf.len() > 0,
    ensures
        compact::repacked(m, pid) matches Err(f) ==> f == Fault::Decode(DecodeError::Oversized),
        compact::halved(m, pid) matches Err(f) ==> f == Fault::Decode(DecodeError::Oversized),
        compact::merged(m, pid) matches Err(f) ==> f == Fault::Decode(DecodeError::Oversized),
{
    assert(integrity::page_ok(m, pid));
    lemma_neighbor(m.pager.data_ids(), pid);
    lemma_ids_of_kind(m.pager, PageKind::Data, m.pager.pages.len());
    if let Some(n) = compact::neighbor(m.pager.data_ids(), pid) {
        assert(m.pager.page(n) is Some);
        assert(integrity::page_ok(m, n));
    }
}

// Scanning

/// A row as its home has it.
pub open spec fn row_at_home(m: database::DbModel, r: u64) -> query::RowModel {
    query::RowModel { id: r, values: Seq::new(m.schema.len(), |c: int| mutation::cell_of(m, r, c)->0) }
}

/// The live rows in the first slots of a page, by the places of the live slots.
proof fn lemma_slot_rows(b: body::BodyModel, dir: Seq<SlotEntry>, n: nat)
    requires
        n <= dir.len(),
    ensures
        query::slot_rows(b, dir, n).len() == compact::live_places(dir.take(n as int)).len(),
        forall|k: int|
            0 <= k < query::slot_rows(b, dir, n).len() ==> #[trigger] query::slot_rows(b, dir, n)[k] == query::slot_row(
                b,
                dir,
                compact::live_places(dir.take(n as int))[k],
            ),
    decreases n,
{
    if n > 0 {
        lemma_slot_rows(b, dir, (n - 1) as nat);
        assert(dir.take(n as int).drop_last() =~= dir.take(n - 1));
        assert(dir.take(n as int).last() == dir[n - 1]);
    }
}

/// The rows of a housed data page, in the order of its live slots.
proof fn lemma_page_rows(m: database::DbModel, pid: PageId)
    requires
        housed(m),
        m.pager.page(pid) is Some,
        m.pager.page(pid)->0.kind == PageKind::Data,
    ensures
        ({
            let p = m.pager.page(pid)->0;
            let live = compact::live_slots(p.dir());
            &&& query::page_rows(p).len() == live.len()
            &&& forall|k: int|
                0 <= k < live.len() ==> #[trigger] query::page_rows(p)[k] == row_at_home(m, live[k].row_id)
        }),
{
    let p = m.pager.page(pid)->0;
    let live = compact::live_slots(p.dir());
    let places = compact::live_places(p.dir());
    lemma_live(m, pid);
    assert(integrity::page_ok(m, pid));
    if p.dir().len() == 0 {
        assert(live.len() == 0);
    } else {
        let b = body::body_of(p.buf)->Ok_0;
        integrity::lemma_has_body(p, m.schema);
        lemma_slot_rows(b, p.dir(), p.dir().len());
        assert(p.dir().take(p.dir().len() as int) =~= p.dir());
        assert forall|k: int| 0 <= k < live.len() implies #[trigger] query::page_rows(p)[k] == row_at_home(
            m,
            live[k].row_id,
        ) by {
            assert(0 <= places[k]);
            let r = live[k].row_id;
            assert(m.home(r) == Some(Home { page: pid, slot: places[k] as u32 }));
            let x = query::slot_row(b, p.dir(), places[k]);
            assert forall|c: int| 0 <= c < m.schema.len() implies x.values[c] == mutation::cell_of(m, r, c)->0 by {}
            assert(x.values =~= row_at_home(m, r).values);
        }
    }
}

/// Every page of a kind is listed, once.
proof fn lemma_kind_listed(m: pager::PagerModel, kind: PageKind, n: nat)
    requires
        m.wf(),
        n <= m.pages.len(),
    ensures
        forall|i: int|
            0 <= i < n && (#[trigger] m.pages[i]).1.kind == kind ==> m.ids_of_kind(kind, n).contains(m.pages[i].0 as u32),
        forall|i: int| 0 <= i < m.ids_of_kind(kind, n).len() ==> exists|j: int|
            0 <= j < n && m.pages[j].0 == #[trigger] m.ids_of_kind(kind, n)[i],
        pager::distinct(m.ids_of_kind(kind, n)),
    decreases n,
{
    if n > 0 {
        let before = m.ids_of_kind(kind, (n - 1) as nat);
        let ids = m.ids_of_kind(kind, n);
        lemma_kind_listed(m, kind, (n - 1) as nat);
        assert(m.pages[n - 1].0 < m.high_water);
        assert forall|i: int| 0 <= i < n && (#[trigger] m.pages[i]).1.kind == kind implies ids.contains(
            m.pages[i].0 as u32,
        ) by {
            if i < n - 1 {
                let k = before.index_of(m.pages[i].0 as u32);
                assert(ids[k] == before[k]);
            } else {
                assert(ids[ids.len() - 1] == m.pages[n - 1].0 as u32);
            }
        }
        assert forall|i: int| 0 <= i < ids.len() implies exists|j: int|
            0 <= j < n && m.pages[j].0 == #[trigger] ids[i] by {
            if i < before.len() {
                assert(ids[i] == before[i]);
                let j = choose|j: int| 0 <= j < n - 1 && m.pages[j].0 == before[i];
                assert(m.pages[j].0 == ids[i]);
            } else {
                assert(m.pages[n - 1].0 == ids[i]);
            }
        }
        assert forall|i: int, j: int| 0 <= i < j < ids.len() implies #[trigger] ids[i] != #[trigger] ids[j] by {
            assert(ids[i] == before[i]);
            if j < before.len() {
                assert(ids[j] == before[j]);
            } else {
                let a = choose|a: int| 0 <= a < n - 1 && m.pages[a].0 == before[i];
                assert(m.pages[a].0 < m.pages[n - 1].0);
            }
        }
    }
}

/// The rows on a list of data pages: each row at home there, once, with its
/// cells.
proof fn lemma_rows_on(m: database::DbModel, ids: Seq<PageId>)
    requires
        housed(m),
        pager::distinct(ids),
        forall|i: int|
            0 <= i < ids.len() ==> m.pager.page(#[trigger] ids[i]) is Some && m.pager.page(ids[i])->0.kind == PageKind::Data,
    ensures
        ({
            let rows = query::rows_on(m.pager, ids);
            &&& forall|i: int|
                0 <= i < rows.len() ==> m.home((#[trigger] rows[i]).id) is Some && ids.contains(m.home(rows[i].id)->0.page)
                    && rows[i] == row_at_home(m, rows[i].id)
            &&& forall|i: int, j: int| 0 <= i < j < rows.len() ==> (#[trigger] rows[i]).id != (#[trigger] rows[j]).id
            &&& forall|r: u64|
                (#[trigger] m.home(r) matches Some(h) && ids.contains(h.page)) ==> rows.contains(row_at_home(m, r))
        }),
    decreases ids.len(),
{
    if ids.len() > 0 {
        let before = ids.drop_last();
        let pid = ids.last();
        assert forall|i: int| 0 <= i < before.len() implies m.pager.page(#[trigger] before[i]) is Some && m.pager.page(
            before[i],
        )->0.kind == PageKind::Data by {
            assert(before[i] == ids[i]);
        }
        assert(ids[ids.len() - 1] == pid);
        assert(m.pager.page(ids[ids.len() - 1]) is Some);
        lemma_rows_on(m, before);
        lemma_page_rows(m, pid);
        lemma_live(m, pid);
        let p = m.pager.page(pid)->0;
        let live = compact::live_slots(p.dir());
        let places = compact::live_places(p.dir());
        let a = query::rows_on(m.pager, before);
        let b = query::page_rows(p);
        let rows = query::rows_on(m.pager, ids);
        assert(rows == a + b);
        assert forall|i: int| 0 <= i < rows.len() implies m.home((#[trigger] rows[i]).id) is Some && ids.contains(
            m.home(rows[i].id)->0.page,
        ) && rows[i] == row_at_home(m, rows[i].id) && (i < a.len() <==> m.home(rows[i].id)->0.page != pid) by {
            if i < a.len() {
                assert(rows[i] == a[i]);
                let k = before.index_of(m.home(a[i].id)->0.page);
                assert(ids[k] == before[k]);
                assert(ids[k] != ids[ids.len() - 1]);
            } else {
                let k = i - a.len();
                assert(rows[i] == b[k]);
                assert(places[k] >= 0);
                assert(m.home(live[k].row_id) == Some(Home { page: pid, slot: places[k] as u32 }));
            }
        }
        assert forall|i: int, j: int| 0 <= i < j < rows.len() implies (#[trigger] rows[i]).id != (
        #[trigger] rows[j]).id by {
            if j < a.len() {
                assert(rows[i] == a[i] && rows[j] == a[j]);
            } else if i >= a.len() {
                assert(rows[i] == b[i - a.len()] && rows[j] == b[j - a.len()]);
                assert(live[i - a.len()].row_id != live[j - a.len()].row_id);
            }
        }
        assert forall|r: u64| (#[trigger] m.home(r) matches Some(h) && ids.contains(h.page)) implies rows.contains(
            row_at_home(m, r),
        ) by {
            let h = m.home(r)->0;
            if h.page == pid {
                integrity::lemma_last_of(live, r);
                let k = integrity::last_of(live, r);
                assert(b[k] == row_at_home(m, r));
                assert(rows[a.len() + k] == b[k]);
            } else {
                let k = ids.index_of(h.page);
                assert(before[k] == h.page);
                let i = a.index_of(row_at_home(m, r));
                assert(rows[i] == a[i]);
            }
        }
    }
}

/// A full scan of a housed database lists every row once, as its home has it.
pub proof fn lemma_scanned(m: database::DbModel)
    requires
        housed(m),
    ensures
        query::all_rows(m).no_duplicates(),
        forall|x: query::RowModel|
            #[trigger] query::all_rows(m).contains(x) <==> m.home(x.id) is Some && x == row_at_home(m, x.id),
{
    let ids = m.pager.data_ids();
    let rows = query::all_rows(m);
    lemma_ids_of_kind(m.pager, PageKind::Data, m.pager.pages.len());
    lemma_kind_listed(m.pager, PageKind::Data, m.pager.pages.len());
    lemma_rows_on(m, ids);
    assert forall|i: int, j: int| 0 <= i < rows.len() && 0 <= j < rows.len() && i != j implies rows[i] != rows[j] by {
        if i < j {
            assert(rows[i].id != rows[j].id);
        } else {
            assert(rows[j].id != rows[i].id);
        }
    }
    assert forall|x: query::RowModel|
        #[trigger] rows.contains(x) <==> m.home(x.id) is Some && x == row_at_home(m, x.id) by {
        if rows.contains(x) {
            let i = rows.index_of(x);
            assert(rows[i] == x);
        }
        if m.home(x.id) is Some {
            let h = m.home(x.id)->0;
            assert(integrity::home_ok(m, x.id, h));
            keymap::lemma_rank(m.pager.pages, h.page as u64);
            let k = keymap::rank(m.pager.pages, h.page as u64);
            assert(m.pager.pages[k].1.kind == PageKind::Data);
            assert(ids.contains(m.pager.pages[k].0 as u32));
        }
    }
}

/// Two housed databases with the same rows give the same rows on a full scan,
/// whatever the order.
pub proof fn lemma_same_scan(m: database::DbModel, d: database::DbModel)
    requires
        housed(m),
        housed(d),
        same_rows(m, d),
    ensures
        query::all_rows(d).to_multiset() == query::all_rows(m).to_multiset(),
{
    let a = query::all_rows(m);
    let b = query::all_rows(d);
    lemma_scanned(m);
    lemma_scanned(d);
    a.to_multiset_ensures();
    b.to_multiset_ensures();
    a.lemma_multiset_has_no_duplicates();
    b.lemma_multiset_has_no_duplicates();
    assert forall|x: query::RowModel| a.contains(x) == b.contains(x) by {
        assert((d.home(x.id) is Some) == (m.home(x.id) is Some));
        if m.home(x.id) is Some {
            assert(row_at_home(d, x.id).values =~= row_at_home(m, x.id).values) by {
                assert forall|c: int| 0 <= c < m.schema.len() implies mutation::cell_of(d, x.id, c)
                    == mutation::cell_of(m, x.id, c) by {}
            }
        }
    }
    assert forall|x: query::RowModel| a.to_multiset().count(x) == b.to_multiset().count(x) by {
        assert(a.contains(x) == b.contains(x));
    }
    assert(b.to_multiset() =~= a.to_multiset());
}

/// A full compaction leaves the database housed and every row with its cells,
/// counts itself once, works on each data page at most once, and a full scan
/// gives the same rows as before.
pub proof fn lemma_compact(m: database::DbModel)
    requires
        housed(m),
    ensures
        ({
            let a = compact::compaction_counted(m);
            let (d, n, stop) = compact::compacted(a, a.pager.data_ids());
            &&& housed(d)
            &&& same_rows(m, d)
            &&& n <= m.pager.data_ids().len()
            &&& query::all_rows(d).to_multiset() == query::all_rows(m).to_multiset()
        }),
{
    let a = compact::compaction_counted(m);
    let ids = a.pager.data_ids();
    lemma_counted(m, a);
    lemma_ids_of_kind(a.pager, PageKind::Data, a.pager.pages.len());
    assert forall|i: int| 0 <= i < ids.len() implies data_or_gone(a, #[trigger] ids[i]) by {
        assert(a.pager.page(ids[i]) is Some);
    }
    lemma_compacted(a, ids);
    let d = compact::compacted(a, ids).0;
    assert forall|r: u64, col: int| 0 <= col < m.schema.len() implies #[trigger] mutation::cell_of(d, r, col)
        == mutation::cell_of(m, r, col) by {
        assert(mutation::cell_of(a, r, col) == mutation::cell_of(m, r, col));
    }
    assert forall|r: u64| (#[trigger] d.home(r) is Some) == (m.home(r) is Some) by {
        assert((a.home(r) is Some) == (m.home(r) is Some));
    }
    lemma_same_scan(m, d);
}

// Storing

/// A tidy database that is stored and read again is tidy, with every row at its
/// home and with its cells; a housed one is housed.
pub proof fn lemma_reopened(m: database::DbModel)
    requires
        integrity::tidy(m),
        crate::format::storable(m),
        checkpoint::settled(m),
        crate::format::database_of(container::container_bytes(crate::format::records(m))) matches Ok(d) ==> d.wf(),
    ensures
        ({
            let d = crate::format::database_of(container::container_bytes(crate::format::records(m)))->Ok_0;
            &&& crate::format::database_of(container::container_bytes(crate::format::records(m))) is Ok
            &&& integrity::tidy(d)
            &&& housed(m) ==> housed(d)
            &&& d.rows == m.rows
            &&& same_rows(m, d)
        }),
{
    checkpoint::lemma_checkpoint(m);
    let d = crate::format::database_of(container::container_bytes(crate::format::records(m)))->Ok_0;
    assert forall|id: PageId| #[trigger] integrity::page_ok(d, id) by {
        assert(integrity::page_ok(m, id));
        assert(checkpoint::comes_back(m, d, id));
        if let Some(p) = m.pager.page(id) {
            if p.kind == PageKind::Data {
                let q = d.pager.page(id)->0;
                assert(mutation::body_in(q, m.schema) == mutation::body_in(p, m.schema));
                assert(q.dir() == p.dir());
            }
        }
    }
    assert forall|id: PageId| #[trigger] integrity::space_ok(d, id) by {
        assert(integrity::space_ok(m, id));
        assert(checkpoint::comes_back(m, d, id));
    }
    assert forall|r: u64| #[trigger] d.home(r) matches Some(x) implies integrity::home_ok(d, r, d.home(r)->0) by {
        let h = m.home(r)->0;
        assert(d.home(r) == m.home(r));
        assert(integrity::home_ok(m, r, h));
        assert(checkpoint::comes_back(m, d, h.page));
    }
    assert forall|r: u64, col: int| 0 <= col < m.schema.len() implies #[trigger] mutation::cell_of(d, r, col)
        == mutation::cell_of(m, r, col) by {
        assert(d.home(r) == m.home(r));
        if let Some(h) = m.home(r) {
            assert(integrity::home_ok(m, r, h));
            assert(checkpoint::comes_back(m, d, h.page));
        }
    }
    assert forall|r: u64| (#[trigger] d.home(r) is Some) == (m.home(r) is Some) by {
        assert(d.home(r) == m.home(r));
    }
    if housed(m) {
        assert forall|r: u64| #[trigger] d.home(r) is Some implies r < d.next_row_id by {
            assert(m.home(r) is Some);
        }
        assert forall|id: PageId| #[trigger] integrity::owns(d, id) by {
            assert(integrity::owns(m, id));
            assert(checkpoint::comes_back(m, d, id));
            if let Some(o) = d.pager.page(id) {
                if o.kind == PageKind::Data {
                    let p = m.pager.page(id)->0;
                    assert(o.dir() == p.dir());
                    assert forall|i: int| 0 <= i < o.dir().len() && (#[trigger] o.dir()[i]).live implies d.home(
                        o.dir()[i].row_id,
                    ) == Some(Home { page: id, slot: i as u32 }) by {
                        assert(p.dir()[i].live);
                        assert(m.home(p.dir()[i].row_id) == Some(Home { page: id, slot: i as u32 }));
                    }
                }
            }
        }
    }
}

} // verus!
