//! What an index owes: a row stands under a value exactly where its cell holds
//! it, so that an index scan finds the rows that a full scan would.

use crate::checkpoint;
use crate::compact;
use crate::container;
use crate::database;
use crate::dict;
use crate::index;
use crate::integrity;
use crate::keymap;
use crate::mutation;
use crate::pager;
use crate::pager::{PageId, PageKind};
use crate::query;
use crate::residence;
use crate::rowid;
use crate::schema;
use crate::value;
use crate::value::{CmpOp, Value};
use vstd::prelude::*;

verus! {

/// Where the word under an id stands in a column's dictionary page.
pub open spec fn spot(m: database::DbModel, ci: int, id: u32) -> Option<dict::Loc> {
    match m.dicts[ci] {
        Some(d) => keymap::find(d.entries, id as u64),
        None => None,
    }
}

/// A column that names a dictionary page has it, its mirror shows it, and its
/// index reads it.
pub open spec fn worded(m: database::DbModel, ci: int) -> bool {
    m.schema[ci].dict_page matches Some(p) ==> {
        &&& checkpoint::mirrored(m, ci)
        &&& m.pager.page(p) matches Some(q)
        &&& q.kind == PageKind::Dict
        &&& m.indexes[ci] matches Some(x) ==> x.dict_page == p
    }
}

/// An entry of a column's index: a word that the column's dictionary has, the
/// place where it stands there, and its rows in order.
pub open spec fn entry_ok(m: database::DbModel, ci: int, e: index::EntryModel) -> bool {
    &&& m.schema[ci].dict_page is Some
    &&& spot(m, ci, e.value_id) matches Some(l)
    &&& e.off == l.off
    &&& index::rising(e.row_ids)
}

/// A column's index has one entry for a value, and lists a row there exactly
/// where the row's cell holds the value.
pub open spec fn column_indexed(m: database::DbModel, ci: int) -> bool {
    &&& m.indexes[ci] matches Some(x)
    &&& index::apart(x.entries)
    &&& forall|k: int| 0 <= k < x.entries.len() ==> entry_ok(m, ci, #[trigger] x.entries[k])
    &&& forall|v: u32, r: u64|
        #[trigger] index::listed(x.entries, v, r) <==> mutation::cell_of(m, r, ci) == Some(Value::Text(v))
}

/// Every column has its words, no two columns share a dictionary page, and every
/// indexed column's index lists its rows.
pub open spec fn indexed(m: database::DbModel) -> bool {
    &&& forall|ci: int| 0 <= ci < m.schema.len() ==> #[trigger] worded(m, ci)
    &&& forall|i: int, j: int|
        0 <= i < j < m.schema.len() && (#[trigger] m.schema[i]).dict_page is Some ==> m.schema[i].dict_page != (
        #[trigger] m.schema[j]).dict_page
    &&& forall|ci: int|
        0 <= ci < m.schema.len() && m.schema[ci].index_page is Some ==> #[trigger] column_indexed(m, ci)
}

/// A value is a text that an indexed column's dictionary has.
pub open spec fn known(m: database::DbModel, ci: int, v: Value) -> bool {
    v matches Value::Text(id) && m.schema[ci].dict_page is Some && spot(m, ci, id) is Some
}

/// A value that an indexed column can take: it keeps a text exactly where the
/// value is one that its dictionary has.
pub open spec fn takes(m: database::DbModel, ci: int, v: Value) -> bool {
    m.schema[ci].index_page is Some ==> match integrity::column_keeps(m.schema[ci], v) {
        Value::Text(id) => v == Value::Text(id) && known(m, ci, v),
        _ => !known(m, ci, v),
    }
}

/// The words and the pages that hold them stay.
pub open spec fn words_stay(m: database::DbModel, d: database::DbModel) -> bool {
    &&& d.schema == m.schema
    &&& d.dicts == m.dicts
    &&& forall|id: PageId| #[trigger] residence::stays(m, d, id)
}

/// A database that was just created, of columns without a dictionary page yet,
/// is indexed.
pub proof fn lemma_fresh_indexed(s: Seq<schema::ColumnModel>)
    requires
        forall|i: int| 0 <= i < s.len() ==> (#[trigger] s[i]).dict_page is None,
    ensures
        indexed(database::empty_db(s)),
{
    let m = database::empty_db(s);
    assert forall|ci: int| 0 <= ci < m.schema.len() && m.schema[ci].index_page is Some implies #[trigger] column_indexed(
        m,
        ci,
    ) by {
        let x = m.indexes[ci]->0;
        assert forall|v: u32, r: u64|
            #[trigger] index::listed(x.entries, v, r) <==> mutation::cell_of(m, r, ci) == Some(Value::Text(v)) by {
            assert(m.home(r) is None);
        }
    }
}

/// Where the words stay and each index keeps its page, every column keeps its
/// words.
proof fn lemma_words(m: database::DbModel, d: database::DbModel, ci: int)
    requires
        0 <= ci < m.schema.len(),
        worded(m, ci),
        words_stay(m, d),
        d.indexes[ci] matches Some(x) ==> m.indexes[ci] matches Some(y) && x.dict_page == y.dict_page,
    ensures
        worded(d, ci),
{
    if let Some(p) = m.schema[ci].dict_page {
        assert(residence::stays(m, d, p));
    }
}

/// An index that did not change, on a column that did not change, lists its rows.
proof fn lemma_column_kept(m: database::DbModel, d: database::DbModel, ci: int)
    requires
        column_indexed(m, ci),
        d.schema[ci].dict_page is Some || m.schema[ci].dict_page is None,
        m.schema[ci].dict_page is Some ==> forall|id: u32|
            spot(m, ci, id) is Some ==> #[trigger] spot(d, ci, id) == spot(m, ci, id),
        d.indexes[ci] is Some,
        d.indexes[ci]->0.entries == m.indexes[ci]->0.entries,
        forall|r: u64| #[trigger] mutation::cell_of(d, r, ci) == mutation::cell_of(m, r, ci),
    ensures
        column_indexed(d, ci),
{
    let x = m.indexes[ci]->0;
    assert forall|k: int| 0 <= k < x.entries.len() implies entry_ok(d, ci, #[trigger] x.entries[k]) by {
        assert(entry_ok(m, ci, x.entries[k]));
        assert(spot(d, ci, x.entries[k].value_id) == spot(m, ci, x.entries[k].value_id));
    }
}

/// A database with the same rows, words and indexes is indexed as well.
pub proof fn lemma_same_indexed(m: database::DbModel, d: database::DbModel)
    requires
        m.wf(),
        indexed(m),
        words_stay(m, d),
        d.indexes == m.indexes,
        forall|r: u64, col: int|
            0 <= col < m.schema.len() ==> #[trigger] mutation::cell_of(d, r, col) == mutation::cell_of(m, r, col),
    ensures
        indexed(d),
{
    assert forall|ci: int| 0 <= ci < d.schema.len() implies #[trigger] worded(d, ci) by {
        assert(worded(m, ci));
        lemma_words(m, d, ci);
    }
    assert forall|ci: int| 0 <= ci < d.schema.len() && d.schema[ci].index_page is Some implies #[trigger] column_indexed(
        d,
        ci,
    ) by {
        assert(column_indexed(m, ci));
        lemma_column_kept(m, d, ci);
    }
}

/// An index that lists every row but one, and then takes note of that row's value.
proof fn lemma_noted(a: database::DbModel, d: database::DbModel, ci: int, row_id: u64, v: Value)
    requires
        worded(a, ci),
        a.schema[ci].index_page is Some,
        a.indexes[ci] is Some,
        index::apart(a.indexes[ci]->0.entries),
        forall|k: int|
            0 <= k < a.indexes[ci]->0.entries.len() ==> entry_ok(a, ci, #[trigger] a.indexes[ci]->0.entries[k]),
        forall|w: u32, r: u64|
            #[trigger] index::listed(a.indexes[ci]->0.entries, w, r) <==> r != row_id && mutation::cell_of(d, r, ci)
                == Some(Value::Text(w)),
        mutation::cell_of(d, row_id, ci) == Some(integrity::column_keeps(a.schema[ci], v)),
        takes(a, ci, v),
        d.schema == a.schema,
        d.dicts == a.dicts,
        d.indexes[ci] == mutation::index_noted(a, ci, row_id, v),
    ensures
        column_indexed(d, ci),
        d.indexes[ci]->0.dict_page == a.indexes[ci]->0.dict_page,
{
    let x = a.indexes[ci]->0;
    let y = d.indexes[ci]->0;
    if known(a, ci, v) {
        let id = v->Text_0;
        let dp = a.schema[ci].dict_page->0;
        let l = spot(a, ci, id)->0;
        let gen = a.pager.page(dp)->0.gen;
        assert(!index::listed(x.entries, id, row_id));
        assert(y.entries == index::with_row(x.entries, id, l.off, gen, row_id));
        assert forall|k: int| 0 <= k < x.entries.len() implies index::rising((#[trigger] x.entries[k]).row_ids) by {
            assert(entry_ok(a, ci, x.entries[k]));
        }
        index::lemma_with_row(x.entries, id, l.off, gen, row_id);
        assert forall|k: int| 0 <= k < y.entries.len() implies entry_ok(d, ci, #[trigger] y.entries[k]) by {
            if k < x.entries.len() {
                assert(entry_ok(a, ci, x.entries[k]));
            }
        }
        assert forall|w: u32, r: u64|
            #[trigger] index::listed(y.entries, w, r) <==> mutation::cell_of(d, r, ci) == Some(Value::Text(w)) by {
            assert(index::listed(x.entries, w, r) <==> r != row_id && mutation::cell_of(d, r, ci) == Some(
                Value::Text(w),
            ));
        }
    } else {
        assert(y == x);
        assert forall|k: int| 0 <= k < y.entries.len() implies entry_ok(d, ci, #[trigger] y.entries[k]) by {
            assert(entry_ok(a, ci, x.entries[k]));
        }
        assert forall|w: u32, r: u64|
            #[trigger] index::listed(y.entries, w, r) <==> mutation::cell_of(d, r, ci) == Some(Value::Text(w)) by {
            assert(index::listed(x.entries, w, r) <==> r != row_id && mutation::cell_of(d, r, ci) == Some(
                Value::Text(w),
            ));
        }
    }
}

// Deleting

/// Deleting a row takes it out of every index.
pub proof fn lemma_row_deleted(m: database::DbModel, row_id: u64)
    requires
        integrity::tidy(m),
        indexed(m),
    ensures
        indexed(mutation::row_deleted(m, row_id)),
        words_stay(m, mutation::row_deleted(m, row_id)),
{
    let d = mutation::row_deleted(m, row_id);
    residence::lemma_row_deleted(m, row_id);
    if m.home(row_id) is Some {
        assert forall|ci: int| 0 <= ci < d.schema.len() implies #[trigger] worded(d, ci) by {
            assert(worded(m, ci));
            lemma_words(m, d, ci);
        }
        assert forall|ci: int|
            0 <= ci < d.schema.len() && d.schema[ci].index_page is Some implies #[trigger] column_indexed(d, ci) by {
            assert(column_indexed(m, ci));
            let x = m.indexes[ci]->0;
            let y = d.indexes[ci]->0;
            assert forall|k: int| 0 <= k < x.entries.len() implies index::rising((#[trigger] x.entries[k]).row_ids) by {
                assert(entry_ok(m, ci, x.entries[k]));
            }
            index::lemma_dropped(x.entries, row_id);
            assert forall|k: int| 0 <= k < y.entries.len() implies entry_ok(d, ci, #[trigger] y.entries[k]) by {
                assert(entry_ok(m, ci, x.entries[k]));
            }
            assert forall|w: u32, r: u64|
                #[trigger] index::listed(y.entries, w, r) <==> mutation::cell_of(d, r, ci) == Some(Value::Text(w)) by {
                assert(index::listed(x.entries, w, r) <==> mutation::cell_of(m, r, ci) == Some(Value::Text(w)));
                if r != row_id {
                    assert(mutation::cell_of(d, r, ci) == mutation::cell_of(m, r, ci));
                } else {
                    assert(mutation::cell_of(d, r, ci) is None);
                }
            }
        }
    }
}

/// Deleting a list of rows takes them out of every index.
pub proof fn lemma_rows_deleted(m: database::DbModel, ids: Seq<u64>)
    requires
        integrity::tidy(m),
        indexed(m),
    ensures
        indexed(mutation::rows_deleted(m, ids).0),
    decreases ids.len(),
{
    if ids.len() > 0 {
        lemma_rows_deleted(m, ids.drop_last());
        residence::lemma_rows_deleted(m, ids.drop_last());
        lemma_row_deleted(mutation::rows_deleted(m, ids.drop_last()).0, ids.last());
    }
}

/// A delete leaves every index in order.
pub proof fn lemma_delete_where(m: database::DbModel, col: int, op: CmpOp, target: Value)
    requires
        integrity::tidy(m),
        indexed(m),
        mutation::matching(mutation::delete_counted(m), col, op, target) is Ok,
    ensures
        ({
            let a = mutation::delete_counted(m);
            indexed(mutation::rows_deleted(a, mutation::matching(a, col, op, target)->Ok_0).0)
        }),
{
    let a = mutation::delete_counted(m);
    residence::lemma_counted(m, a);
    lemma_same_indexed(m, a);
    lemma_rows_deleted(a, mutation::matching(a, col, op, target)->Ok_0);
}

// Updating

/// A cell written anew, and its index brought up to date.
proof fn lemma_cell_updated(m: database::DbModel, row_id: u64, col: int, v: Value)
    requires
        integrity::tidy(m),
        indexed(m),
        m.home(row_id) is Some,
        0 <= col,
        col < m.schema.len() ==> takes(m, col, v),
        mutation::cell_rewritten(m, m.home(row_id)->0, col, v) is Ok,
    ensures
        ({
            let b = mutation::cell_rewritten(m, m.home(row_id)->0, col, v)->Ok_0;
            let d = mutation::reindexed(b, col, row_id, v);
            &&& indexed(d)
            &&& words_stay(m, d)
        }),
{
    let b = mutation::cell_rewritten(m, m.home(row_id)->0, col, v)->Ok_0;
    let d = mutation::reindexed(b, col, row_id, v);
    residence::lemma_cell_rewritten(m, row_id, col, v);
    residence::lemma_reindexed(b, col, row_id, v);
    assert forall|id: PageId| #[trigger] residence::stays(m, d, id) by {
        assert(residence::stays(m, b, id));
    }
    assert forall|ci: int| 0 <= ci < d.schema.len() implies #[trigger] worded(d, ci) by {
        assert(worded(m, ci));
        lemma_words(m, d, ci);
    }
    assert forall|ci: int| 0 <= ci < d.schema.len() && d.schema[ci].index_page is Some implies #[trigger] column_indexed(
        d,
        ci,
    ) by {
        assert(column_indexed(m, ci));
        assert(worded(m, ci));
        if ci == col {
            let x = m.indexes[ci]->0;
            let y = index::IndexModel { entries: index::dropped(x.entries, row_id), ..x };
            let a = database::DbModel { indexes: b.indexes.update(ci, Some(y)), ..b };
            assert forall|k: int| 0 <= k < x.entries.len() implies index::rising((#[trigger] x.entries[k]).row_ids) by {
                assert(entry_ok(m, ci, x.entries[k]));
            }
            index::lemma_dropped(x.entries, row_id);
            assert forall|k: int| 0 <= k < y.entries.len() implies entry_ok(a, ci, #[trigger] y.entries[k]) by {
                assert(entry_ok(m, ci, x.entries[k]));
            }
            assert forall|w: u32, r: u64|
                #[trigger] index::listed(y.entries, w, r) <==> r != row_id && mutation::cell_of(d, r, ci) == Some(
                    Value::Text(w),
                ) by {
                assert(index::listed(x.entries, w, r) <==> mutation::cell_of(m, r, ci) == Some(Value::Text(w)));
                assert(mutation::cell_of(d, r, ci) == mutation::cell_of(b, r, ci));
            }
            assert(mutation::cell_of(d, row_id, ci) == mutation::cell_of(b, row_id, ci));
            assert forall|id: PageId| #[trigger] residence::stays(m, a, id) by {
                assert(residence::stays(m, b, id));
            }
            lemma_words(m, a, ci);
            assert(takes(a, ci, v));
            lemma_noted(a, d, ci, row_id, v);
        } else {
            assert(d.indexes[ci] == m.indexes[ci]);
            assert forall|r: u64| #[trigger] mutation::cell_of(d, r, ci) == mutation::cell_of(m, r, ci) by {
                assert(mutation::cell_of(d, r, ci) == mutation::cell_of(b, r, ci));
            }
            lemma_column_kept(m, d, ci);
        }
    }
}

/// A list of rows updated with a value that the column can take, as far as it
/// goes, leaves every index in order.
pub proof fn lemma_rows_updated(m: database::DbModel, ids: Seq<u64>, col: int, v: Value)
    requires
        integrity::tidy(m),
        indexed(m),
        0 <= col,
        col < m.schema.len() ==> takes(m, col, v),
    ensures
        indexed(mutation::rows_updated(m, ids, col, v).0),
        words_stay(m, mutation::rows_updated(m, ids, col, v).0),
    decreases ids.len(),
{
    if ids.len() > 0 {
        lemma_rows_updated(m, ids.drop_last(), col, v);
        residence::lemma_rows_updated(m, ids.drop_last(), col, v);
        let (a, stop) = mutation::rows_updated(m, ids.drop_last(), col, v);
        if stop is None {
            if let Some(h) = a.home(ids.last()) {
                if mutation::cell_rewritten(a, h, col, v) is Ok {
                    lemma_cell_updated(a, ids.last(), col, v);
                    let d = mutation::rows_updated(m, ids, col, v).0;
                    assert forall|id: PageId| #[trigger] residence::stays(m, d, id) by {
                        assert(residence::stays(m, a, id));
                        assert(residence::stays(a, d, id));
                    }
                }
            }
        }
    }
}

/// An update to a value that the set column can take leaves every index in order.
pub proof fn lemma_update_where(m: database::DbModel, set_col: int, v: Value, col: int, op: CmpOp, target: Value)
    requires
        integrity::tidy(m),
        indexed(m),
        0 <= set_col,
        set_col < m.schema.len() ==> takes(m, set_col, v),
        mutation::matching(mutation::update_counted(m), col, op, target) is Ok,
    ensures
        ({
            let a = mutation::update_counted(m);
            indexed(mutation::rows_updated(a, mutation::matching(a, col, op, target)->Ok_0, set_col, v).0)
        }),
{
    let a = mutation::update_counted(m);
    residence::lemma_counted(m, a);
    lemma_same_indexed(m, a);
    lemma_rows_updated(a, mutation::matching(a, col, op, target)->Ok_0, set_col, v);
}

// Inserting

/// An insert touches data pages only.
proof fn lemma_insert_stays(m: database::DbModel, values: Seq<Value>)
    requires
        integrity::tidy(m),
    ensures
        ({
            let (d, r) = mutation::inserted(m, values);
            &&& words_stay(m, d)
            &&& r is Ok ==> forall|o: u64| o != r->Ok_0 ==> #[trigger] d.home(o) == m.home(o)
        }),
{
    let (d, r) = mutation::inserted(m, values);
    if values.len() == m.schema.len() {
        let row_id = mutation::row_id_for(m, values);
        let a = mutation::id_taken(m, row_id);
        let cells = values.update(0, Value::Int(crate::bytes::untwos(row_id)));
        let need = mutation::space_for(m.schema) as u32;
        let width = mutation::row_width(m.schema) as u32;
        if mutation::space_for(m.schema) <= u32::MAX && (a.fsm.page_with_space(need) is Some || a.pager.has_room()) {
            assert forall|id: PageId| #[trigger] keymap::find(a.fsm.space, id as u64) is Some implies integrity::offered(
                m,
                id,
            ) by {
                assert(integrity::space_ok(m, id));
            }
            integrity::lemma_same_homes(m, a);
            integrity::lemma_page_for(a, need);
            let (b, pid) = mutation::page_for(a, need);
            assert forall|id: PageId| #[trigger] residence::stays(m, b, id) by {
                if a.fsm.page_with_space(need) is None {
                    pager::lemma_alloc(a.pager, PageKind::Data, Seq::empty(), id);
                }
            }
            if mutation::row_appended(b, pid, row_id, cells, width) is Ok {
                let p = b.pager.page(pid)->0;
                let slot = p.dir().len() as u32;
                let q = p.rewritten(
                    crate::body::body_bytes(mutation::grown(mutation::body_in(p, b.schema)->Ok_0, cells)),
                    p.dir().push(crate::pager::SlotEntry { row_id, off: slot, len: width, live: true }),
                );
                assert(d.pager == b.pager.with_page(pid, q));
                assert forall|id: PageId| #[trigger] residence::stays(m, d, id) by {
                    assert(residence::stays(m, b, id));
                    integrity::lemma_page_id(b.pager, pid);
                    residence::lemma_swapped(b.pager, pid, q);
                    if id != pid {
                        assert(d.pager.page(id) == b.pager.page(id));
                    }
                }
                assert forall|o: u64| o != row_id implies #[trigger] d.home(o) == m.home(o) by {
                    keymap::lemma_put(b.rows, row_id, crate::rowid::Home { page: pid, slot }, o);
                }
            }
        }
    }
}

/// An insert of values that the indexed columns can take, under an id that no
/// other row has, leaves every index in order; so does one that is refused.
pub proof fn lemma_inserted(m: database::DbModel, values: Seq<Value>)
    requires
        residence::housed(m),
        indexed(m),
        m.next_row_id < u64::MAX,
        values[0] matches Value::Int(i) ==> i > 0 ==> m.home(i as u64) is None,
        mutation::inserted(m, values).1 is Ok ==> forall|ci: int|
            0 <= ci < m.schema.len() ==> #[trigger] takes(
                m,
                ci,
                values.update(0, Value::Int(crate::bytes::untwos(mutation::row_id_for(m, values))))[ci],
            ),
    ensures
        indexed(mutation::inserted(m, values).0),
{
    let (d, res) = mutation::inserted(m, values);
    lemma_insert_stays(m, values);
    if res is Err {
        residence::lemma_insert_refused(m, values);
        lemma_same_indexed(m, d);
    } else {
        let row_id = mutation::row_id_for(m, values);
        let cells = values.update(0, Value::Int(crate::bytes::untwos(row_id)));
        let need = mutation::space_for(m.schema) as u32;
        let width = mutation::row_width(m.schema) as u32;
        assert(m.home(row_id) is None) by {
            if m.home(row_id) is Some {
                assert(row_id < m.next_row_id);
            }
        }
        integrity::lemma_insert_reads(m, values);
        let a = mutation::id_taken(m, row_id);
        let (b, pid) = mutation::page_for(a, need);
        let c = mutation::row_appended(b, pid, row_id, cells, width)->Ok_0;
        let e = database::DbModel { fsm: crate::fsm::adjusted(c.fsm, pid, -(need as int) as i64), ..c };
        assert(d == mutation::row_noted(c, pid, row_id, cells, need));
        assert forall|id: PageId| #[trigger] residence::stays(m, e, id) by {
            assert(residence::stays(m, d, id));
        }
        assert forall|ci: int| 0 <= ci < d.schema.len() implies #[trigger] worded(d, ci) by {
            assert(worded(m, ci));
            lemma_words(m, d, ci);
        }
        assert forall|ci: int|
            0 <= ci < d.schema.len() && d.schema[ci].index_page is Some implies #[trigger] column_indexed(d, ci) by {
            assert(column_indexed(m, ci));
            assert(worded(m, ci));
            let x = m.indexes[ci]->0;
            assert(takes(m, ci, cells[ci]));
            lemma_words(m, e, ci);
            assert(mutation::value_for(cells, ci) == cells[ci]);
            assert(d.indexes[ci] == mutation::index_noted(e, ci, row_id, cells[ci]));
            assert forall|k: int| 0 <= k < x.entries.len() implies entry_ok(e, ci, #[trigger] x.entries[k]) by {
                assert(entry_ok(m, ci, x.entries[k]));
            }
            assert forall|w: u32, r: u64|
                #[trigger] index::listed(x.entries, w, r) <==> r != row_id && mutation::cell_of(d, r, ci) == Some(
                    Value::Text(w),
                ) by {
                assert(index::listed(x.entries, w, r) <==> mutation::cell_of(m, r, ci) == Some(Value::Text(w)));
                if r != row_id {
                    assert(d.home(r) == m.home(r));
                    if m.home(r) is Some {
                        assert(mutation::cell_of(d, r, ci) == mutation::cell_of(m, r, ci));
                    }
                }
            }
            lemma_noted(e, d, ci, row_id, cells[ci]);
        }
    }
}

// Interning

/// A column gets its dictionary page.
proof fn lemma_with_dict_page(m: database::DbModel, col: int)
    requires
        integrity::tidy(m),
        indexed(m),
        0 <= col < m.schema.len(),
        m.schema[col].dict_page is None,
        m.pager.has_room(),
    ensures
        ({
            let d = mutation::with_dict_page(m, col);
            &&& integrity::tidy(d)
            &&& residence::housed(m) ==> residence::housed(d)
            &&& indexed(d)
            &&& d.rows == m.rows
            &&& d.next_row_id == m.next_row_id
            &&& forall|r: u64, k: int| #[trigger] mutation::cell_of(d, r, k) == mutation::cell_of(m, r, k)
            &&& forall|ci: int| 0 <= ci < m.schema.len() && ci != col ==> #[trigger] d.dicts[ci] == m.dicts[ci]
        }),
{
    let d = mutation::with_dict_page(m, col);
    let pid = m.pager.next_id();
    let buf = dict::slab(Seq::empty(), 64);
    pager::lemma_alloc(m.pager, PageKind::Dict, buf, pid);
    assert forall|id: PageId| id != pid implies #[trigger] d.pager.page(id) == m.pager.page(id) by {
        pager::lemma_alloc(m.pager, PageKind::Dict, buf, id);
    }
    dict::lemma_fresh_mirrors(pid);
    assert forall|i: int| 0 <= i < d.dicts.len() implies database::dict_ok(#[trigger] d.dicts[i]) by {
        assert(database::dict_ok(m.dicts[i]));
    }
    residence::lemma_other_page(m, d, pid);
    assert forall|ci: int| 0 <= ci < d.schema.len() implies #[trigger] worded(d, ci) by {
        assert(worded(m, ci));
        if ci == col {
            assert(checkpoint::mirrored(d, ci));
        } else if let Some(p) = m.schema[ci].dict_page {
            assert(d.pager.page(p) == m.pager.page(p));
        }
    }
    assert forall|i: int, j: int| 0 <= i < j < d.schema.len() && (#[trigger] d.schema[i]).dict_page is Some implies d.schema[i].dict_page
        != (#[trigger] d.schema[j]).dict_page by {
        assert(worded(m, i));
        assert(worded(m, j));
        assert(m.schema[i].dict_page is Some ==> m.schema[i].dict_page != m.schema[j].dict_page);
    }
    assert forall|ci: int| 0 <= ci < d.schema.len() && d.schema[ci].index_page is Some implies #[trigger] column_indexed(
        d,
        ci,
    ) by {
        assert(column_indexed(m, ci));
        if ci == col {
            let x = m.indexes[ci]->0;
            assert(x.entries.len() == 0) by {
                if x.entries.len() > 0 {
                    assert(entry_ok(m, ci, x.entries[0]));
                }
            }
        } else {
            lemma_column_kept(m, d, ci);
        }
    }
}

/// Interning a text for a column leaves every row at home and with its cells, and
/// every index in order. A word keeps its id and its place; the id that is handed
/// out stands for the text.
pub proof fn lemma_text_interned(m: database::DbModel, col: int, word: Seq<u8>)
    requires
        integrity::tidy(m),
        indexed(m),
        0 <= col,
    ensures
        ({
            let (d, r) = mutation::text_interned(m, col, word);
            &&& integrity::tidy(d)
            &&& residence::housed(m) ==> residence::housed(d)
            &&& indexed(d)
            &&& d.rows == m.rows
            &&& d.next_row_id == m.next_row_id
            &&& forall|o: u64, k: int| #[trigger] mutation::cell_of(d, o, k) == mutation::cell_of(m, o, k)
            &&& forall|ci: int, v: Value| 0 <= ci < m.schema.len() && known(m, ci, v) ==> #[trigger] known(d, ci, v)
            &&& r matches Ok(id) ==> known(d, col, Value::Text(id)) && dict::word_of(d.dicts[col]->0, d.pager, id) == Some(
                word,
            )
        }),
{
    let (d, r) = mutation::text_interned(m, col, word);
    if col < m.schema.len() && m.schema[col].kind == schema::ColKind::Text && (m.schema[col].dict_page is Some
        || m.pager.has_room()) {
        let n = mutation::with_dict_page(m, col);
        if m.schema[col].dict_page is None {
            lemma_with_dict_page(m, col);
        }
        assert(worded(n, col));
        let x = n.dicts[col]->0;
        let dp = x.page_id;
        let p = n.pager.page(dp)->0;
        if dict::id_in(x.by_bytes, word) is Some {
            lemma_id_known(n, col, word);
        } else if x.admits(p.buf, word) {
            lemma_word_added(n, col, word);
            lemma_id_known(d, col, word);
        }
    }
}

/// The id of a text in a column's dictionary stands for the text.
proof fn lemma_id_known(m: database::DbModel, col: int, word: Seq<u8>)
    requires
        checkpoint::mirrored(m, col),
        dict::id_in(m.dicts[col]->0.by_bytes, word) is Some,
    ensures
        ({
            let id = dict::id_in(m.dicts[col]->0.by_bytes, word)->0;
            known(m, col, Value::Text(id)) && dict::word_of(m.dicts[col]->0, m.pager, id) == Some(word)
        }),
{
    let x = m.dicts[col]->0;
    let buf = m.pager.page(x.page_id)->0.buf;
    dict::lemma_place(x.by_bytes, word);
    let i = dict::place_of(x.by_bytes, word)->0;
    let w = x.words(buf);
    assert(w[i].0 < x.next_id);
    assert(x.by_bytes[i] == (w[i].1, w[i].0 as u32));
    assert(x.entries[i].0 == w[i].0);
    keymap::lemma_listed(x.entries, i);
    dict::lemma_word_of(x, m.pager, i);
}

/// A new word in a column's dictionary.
proof fn lemma_word_added(n: database::DbModel, col: int, word: Seq<u8>)
    requires
        integrity::tidy(n),
        indexed(n),
        0 <= col < n.schema.len(),
        n.schema[col].dict_page is Some,
        dict::id_in(n.dicts[col]->0.by_bytes, word) is None,
        n.dicts[col]->0.admits(n.pager.page(n.dicts[col]->0.page_id)->0.buf, word),
    ensures
        ({
            let x = n.dicts[col]->0;
            let (e, q, id) = x.interned(n.pager.page(x.page_id)->0, word);
            let d = database::DbModel {
                pager: n.pager.with_page(x.page_id, q),
                dicts: n.dicts.update(col, Some(e)),
                ..n
            };
            &&& integrity::tidy(d)
            &&& residence::housed(n) ==> residence::housed(d)
            &&& indexed(d)
            &&& checkpoint::mirrored(d, col)
            &&& dict::id_in(e.by_bytes, word) == Some(id)
            &&& forall|o: u64, k: int| #[trigger] mutation::cell_of(d, o, k) == mutation::cell_of(n, o, k)
            &&& forall|ci: int, v: Value| 0 <= ci < n.schema.len() && known(n, ci, v) ==> #[trigger] known(d, ci, v)
        }),
{
    assert(worded(n, col));
    let x = n.dicts[col]->0;
    let dp = x.page_id;
    let p = n.pager.page(dp)->0;
    let (e, q, id) = x.interned(p, word);
    let d = database::DbModel { pager: n.pager.with_page(dp, q), dicts: n.dicts.update(col, Some(e)), ..n };
    dict::lemma_interned(x, p, word);
    dict::lemma_interned_order(x, p, word);
    integrity::lemma_page_id(n.pager, dp);
    residence::lemma_swapped(n.pager, dp, q);
    assert forall|i: int| 0 <= i < d.dicts.len() implies database::dict_ok(#[trigger] d.dicts[i]) by {
        assert(database::dict_ok(n.dicts[i]));
    }
    residence::lemma_other_page(n, d, dp);
    assert forall|ci: int, k: u32| 0 <= ci < n.schema.len() && spot(n, ci, k) is Some implies #[trigger] spot(d, ci, k)
        == spot(n, ci, k) by {
        if ci == col {
            assert(keymap::find(e.entries, k as u64) == keymap::find(x.entries, k as u64));
        }
    }
    assert forall|ci: int| 0 <= ci < d.schema.len() implies #[trigger] worded(d, ci) by {
        assert(worded(n, ci));
        if ci == col {
            assert(checkpoint::mirrored(d, ci));
        } else if let Some(o) = n.schema[ci].dict_page {
            assert(o != dp) by {
                if ci < col {
                    assert(n.schema[ci].dict_page != n.schema[col].dict_page);
                } else {
                    assert(n.schema[col].dict_page != n.schema[ci].dict_page);
                }
            }
            assert(d.pager.page(o) == n.pager.page(o));
        }
    }
    assert forall|ci: int| 0 <= ci < d.schema.len() && d.schema[ci].index_page is Some implies #[trigger] column_indexed(
        d,
        ci,
    ) by {
        assert(column_indexed(n, ci));
        lemma_column_kept(n, d, ci);
    }
    assert forall|ci: int, v: Value| 0 <= ci < n.schema.len() && known(n, ci, v) implies #[trigger] known(d, ci, v) by {
        assert(spot(d, ci, v->Text_0) == spot(n, ci, v->Text_0));
    }
}

// Moving rows

/// What moves rows between data pages leaves every index in order.
pub proof fn lemma_moved(m: database::DbModel, d: database::DbModel)
    requires
        m.wf(),
        indexed(m),
        residence::moved_well(m, d),
    ensures
        indexed(d),
{
    lemma_same_indexed(m, d);
}

/// A full compaction leaves every index in order.
pub proof fn lemma_compact(m: database::DbModel)
    requires
        residence::housed(m),
        indexed(m),
    ensures
        ({
            let a = compact::compaction_counted(m);
            indexed(compact::compacted(a, a.pager.data_ids()).0)
        }),
{
    let a = compact::compaction_counted(m);
    let ids = a.pager.data_ids();
    residence::lemma_counted(m, a);
    lemma_same_indexed(m, a);
    assert forall|i: int| 0 <= i < ids.len() implies residence::data_or_gone(a, #[trigger] ids[i]) by {
        residence::lemma_ids_of_kind(a.pager, PageKind::Data, a.pager.pages.len());
    }
    residence::lemma_compacted(a, ids);
    lemma_moved(a, compact::compacted(a, ids).0);
}

// Reopening

/// An indexed database that is stored and read again is indexed.
pub proof fn lemma_reopened(m: database::DbModel)
    requires
        integrity::tidy(m),
        indexed(m),
        crate::format::storable(m),
        checkpoint::settled(m),
        crate::format::database_of(container::container_bytes(crate::format::records(m))) matches Ok(d) ==> d.wf(),
    ensures
        indexed(crate::format::database_of(container::container_bytes(crate::format::records(m)))->Ok_0),
{
    let d = crate::format::database_of(container::container_bytes(crate::format::records(m)))->Ok_0;
    checkpoint::lemma_checkpoint(m);
    residence::lemma_reopened(m);
    assert forall|ci: int| 0 <= ci < d.schema.len() implies #[trigger] worded(d, ci) by {
        assert(worded(m, ci));
        if let Some(p) = m.schema[ci].dict_page {
            assert(checkpoint::mirrored(m, ci));
            assert(checkpoint::named(m, m.schema.len(), p));
            assert(checkpoint::comes_back(m, d, p));
            let x = m.dicts[ci]->0;
            let y = d.dicts[ci]->0;
            let buf = m.pager.page(p)->0.buf;
            assert(y.words(buf) == x.words(buf));
            assert(checkpoint::mirrored(d, ci));
            assert(d.indexes[ci] is Some ==> d.indexes[ci]->0.dict_page == p);
        }
    }
    assert forall|ci: int| 0 <= ci < d.schema.len() && d.schema[ci].index_page is Some implies #[trigger] column_indexed(
        d,
        ci,
    ) by {
        assert(column_indexed(m, ci));
        assert(worded(m, ci));
        assert(d.indexes[ci] is Some);
        lemma_column_kept(m, d, ci);
    }
}

// Looking up

/// In a column's dictionary page, the byte string at an entry's place is the
/// entry's word; no other word of the column is the same.
proof fn lemma_entry_word(m: database::DbModel, ci: int, e: index::EntryModel, id: u32)
    requires
        checkpoint::mirrored(m, ci),
        entry_ok(m, ci, e),
        dict::word_of(m.dicts[ci]->0, m.pager, id) is Some,
    ensures
        ({
            let buf = m.pager.page(m.dicts[ci]->0.page_id)->0.buf;
            (index::cached(buf, e.off) == dict::word_of(m.dicts[ci]->0, m.pager, id)) == (e.value_id == id)
        }),
{
    let d = m.dicts[ci]->0;
    let buf = m.pager.page(d.page_id)->0.buf;
    let w = d.words(buf);
    let i = keymap::rank(d.entries, e.value_id as u64);
    let j = keymap::rank(d.entries, id as u64);
    keymap::lemma_rank(d.entries, e.value_id as u64);
    keymap::lemma_rank(d.entries, id as u64);
    assert(d.entries[i].0 == e.value_id && d.entries[j].0 == id);
    dict::lemma_slab_entry(w, d.capacity, i);
    dict::lemma_word_of(d, m.pager, j);
    dict::lemma_slab_len(w, i + 1);
    assert(w.take(i + 1).drop_last() =~= w.take(i));
    assert(e.off == dict::locs(w)[i].1.off);
    let at = dict::slab_len(w.take(i)) as int;
    assert(e.off == at + 8);
    assert(index::cached(buf, e.off) == Some(w[i].1));
    assert(d.by_bytes[i].0 == w[i].1 && d.by_bytes[j].0 == w[j].1);
}

/// The rows that a column's index gives for the word under an id.
pub open spec fn looked_up(m: database::DbModel, col: int, id: u32) -> Seq<u64> {
    let x = m.indexes[col]->0;
    match m.pager.page(x.dict_page) {
        Some(p) => index::probed(x.entries, p.buf, dict::word_of(m.dicts[col]->0, m.pager, id)->0),
        None => Seq::empty(),
    }
}

/// The rows that an index gives for a word are those whose cell holds it, in
/// ascending order.
proof fn lemma_probe(m: database::DbModel, col: int, id: u32)
    requires
        indexed(m),
        0 <= col < m.schema.len(),
        m.schema[col].index_page is Some,
        m.dicts[col] is Some,
        dict::word_of(m.dicts[col]->0, m.pager, id) is Some,
    ensures
        ({
            let rows = looked_up(m, col, id);
            &&& index::rising(rows)
            &&& forall|r: u64| #[trigger] rows.contains(r) <==> mutation::cell_of(m, r, col) == Some(Value::Text(id))
        }),
{
    assert(column_indexed(m, col));
    assert(worded(m, col));
    let x = m.indexes[col]->0;
    let word = dict::word_of(m.dicts[col]->0, m.pager, id)->0;
    if m.schema[col].dict_page is None {
        assert(x.entries.len() == 0) by {
            if x.entries.len() > 0 {
                assert(entry_ok(m, col, x.entries[0]));
            }
        }
        assert forall|r: u64| mutation::cell_of(m, r, col) != Some(Value::Text(id)) by {
            assert(!index::listed(x.entries, id, r));
        }
    } else {
        let buf = m.pager.page(x.dict_page)->0.buf;
        assert forall|k: int| 0 <= k < x.entries.len() implies (index::cached(buf, (#[trigger] x.entries[k]).off) == Some(
            word,
        )) == (x.entries[k].value_id == id) by {
            assert(entry_ok(m, col, x.entries[k]));
            lemma_entry_word(m, col, x.entries[k], id);
        }
        assert forall|k: int| 0 <= k < x.entries.len() implies index::rising((#[trigger] x.entries[k]).row_ids) by {
            assert(entry_ok(m, col, x.entries[k]));
        }
        index::lemma_probed_value(x.entries, buf, word, id);
        assert(looked_up(m, col, id) == index::probed(x.entries, buf, word));
        assert forall|r: u64| #[trigger] looked_up(m, col, id).contains(r) <==> mutation::cell_of(m, r, col) == Some(
            Value::Text(id),
        ) by {
            assert(index::listed(x.entries, id, r) <==> mutation::cell_of(m, r, col) == Some(Value::Text(id)));
        }
    }
}

/// A row at home is read with all its cells.
proof fn lemma_cells(m: database::DbModel, r: u64, n: nat, fast: bool)
    requires
        integrity::tidy(m),
        m.home(r) is Some,
        n <= m.schema.len(),
    ensures
        query::cells_of(m, r, n, fast) == Some(residence::row_at_home(m, r).values.take(n as int)),
    decreases n,
{
    if n > 0 {
        lemma_cells(m, r, (n - 1) as nat, fast);
        let h = m.home(r)->0;
        assert(integrity::home_ok(m, r, h));
        assert(integrity::page_ok(m, h.page));
        integrity::lemma_has_body(m.pager.page(h.page)->0, m.schema);
        residence::lemma_slot_cell(m, r, n - 1);
        assert(mutation::cell_of(m, r, n - 1) is Some);
        let v = residence::row_at_home(m, r).values;
        assert(v.take(n as int) =~= v.take(n - 1).push(v[n - 1]));
    } else {
        assert(residence::row_at_home(m, r).values.take(0) =~= Seq::empty());
    }
}

/// Rows at home are found, each as its home has it.
pub proof fn lemma_found(m: database::DbModel, ids: Seq<u64>, fast: bool)
    requires
        integrity::tidy(m),
        forall|i: int| 0 <= i < ids.len() ==> m.home(#[trigger] ids[i]) is Some,
    ensures
        query::found_rows(m, ids, fast) == Seq::new(ids.len(), |i: int| residence::row_at_home(m, ids[i])),
    decreases ids.len(),
{
    if ids.len() > 0 {
        let before = ids.drop_last();
        assert forall|i: int| 0 <= i < before.len() implies m.home(#[trigger] before[i]) is Some by {
            assert(before[i] == ids[i]);
        }
        lemma_found(m, before, fast);
        assert(m.home(ids[ids.len() - 1]) is Some);
        lemma_cells(m, ids.last(), m.schema.len(), fast);
        let v = residence::row_at_home(m, ids.last()).values;
        assert(v.take(m.schema.len() as int) =~= v);
        assert(query::row_of(m, ids.last(), fast) == Some(residence::row_at_home(m, ids.last())));
    }
    assert(query::found_rows(m, ids, fast) =~= Seq::new(ids.len(), |i: int| residence::row_at_home(m, ids[i])));
}

/// An index scan for a word gives exactly the rows whose cell holds it, each once,
/// as its home has it, in ascending order of their ids.
pub proof fn lemma_index_scan(m: database::DbModel, col: int, id: u32)
    requires
        residence::housed(m),
        indexed(m),
        0 <= col < m.schema.len(),
        m.schema[col].index_page is Some,
        m.dicts[col] is Some,
        dict::word_of(m.dicts[col]->0, m.pager, id) is Some,
    ensures
        query::index_rows(m, col, Value::Text(id)) is Ok,
        ({
            let rows = query::index_rows(m, col, Value::Text(id))->Ok_0;
            &&& forall|i: int, j: int| 0 <= i < j < rows.len() ==> (#[trigger] rows[i]).id < (#[trigger] rows[j]).id
            &&& forall|x: query::RowModel|
                #[trigger] rows.contains(x) <==> m.home(x.id) is Some && x == residence::row_at_home(m, x.id)
                    && mutation::cell_of(m, x.id, col) == Some(Value::Text(id))
        }),
{
    lemma_probe(m, col, id);
    assert(column_indexed(m, col));
    let ids = looked_up(m, col, id);
    assert forall|i: int| 0 <= i < ids.len() implies m.home(#[trigger] ids[i]) is Some by {
        assert(ids.contains(ids[i]));
    }
    lemma_found(m, ids, true);
    let rows = query::index_rows(m, col, Value::Text(id))->Ok_0;
    assert(rows == query::found_rows(m, ids, true));
    assert forall|y: query::RowModel|
        #[trigger] rows.contains(y) <==> m.home(y.id) is Some && y == residence::row_at_home(m, y.id) && mutation::cell_of(
            m,
            y.id,
            col,
        ) == Some(Value::Text(id)) by {
        if rows.contains(y) {
            let i = choose|i: int| 0 <= i < rows.len() && rows[i] == y;
            assert(ids.contains(ids[i]));
        }
        if y == residence::row_at_home(m, y.id) && mutation::cell_of(m, y.id, col) == Some(Value::Text(id)) {
            assert(ids.contains(y.id));
            let i = choose|i: int| 0 <= i < ids.len() && ids[i] == y.id;
            assert(rows[i] == y);
        }
    }
}

/// An index scan gives the rows that a full scan has with that value, whatever the
/// order.
pub proof fn lemma_index_scan_full(m: database::DbModel, col: int, id: u32)
    requires
        residence::housed(m),
        indexed(m),
        0 <= col < m.schema.len(),
        m.schema[col].index_page is Some,
        m.dicts[col] is Some,
        dict::word_of(m.dicts[col]->0, m.pager, id) is Some,
    ensures
        query::index_rows(m, col, Value::Text(id))->Ok_0.to_multiset() == query::all_rows(m).to_multiset().filter(
            |x: query::RowModel| x.values[col] == Value::Text(id),
        ),
{
    let p = |x: query::RowModel| x.values[col] == Value::Text(id);
    let a = query::all_rows(m);
    let rows = query::index_rows(m, col, Value::Text(id))->Ok_0;
    lemma_index_scan(m, col, id);
    residence::lemma_scanned(m);
    assert(rows.no_duplicates());
    a.to_multiset_ensures();
    rows.to_multiset_ensures();
    a.lemma_multiset_has_no_duplicates();
    rows.lemma_multiset_has_no_duplicates();
    assert forall|x: query::RowModel| rows.to_multiset().count(x) == #[trigger] a.to_multiset().filter(p).count(x) by {
        assert(a.to_multiset().contains(x) <==> a.contains(x));
        assert(rows.to_multiset().contains(x) <==> rows.contains(x));
        if m.home(x.id) is Some {
            lemma_cell_there(m, x.id, col);
        }
    }
    assert(rows.to_multiset() =~= a.to_multiset().filter(p));
}

/// A row at home has every cell.
proof fn lemma_cell_there(m: database::DbModel, r: u64, col: int)
    requires
        integrity::tidy(m),
        m.home(r) is Some,
        0 <= col < m.schema.len(),
    ensures
        mutation::cell_of(m, r, col) is Some,
{
    let h = m.home(r)->0;
    assert(integrity::home_ok(m, r, h));
    assert(integrity::page_ok(m, h.page));
    integrity::lemma_has_body(m.pager.page(h.page)->0, m.schema);
}

// Matching

proof fn lemma_rows_scanned(m: database::DbModel, ids: Seq<u64>, col: int, op: CmpOp, target: Value)
    requires
        index::rising(ids),
    ensures
        ({
            let rows = mutation::scanned(m, ids, col, op, target);
            &&& index::rising(rows)
            &&& forall|r: u64|
                #[trigger] rows.contains(r) <==> ids.contains(r) && (mutation::cell_of(m, r, col) matches Some(v)
                    && value::holds(op, v, target))
        }),
    decreases ids.len(),
{
    if ids.len() > 0 {
        let d = ids.drop_last();
        lemma_rows_scanned(m, d, col, op, target);
        let before = mutation::scanned(m, d, col, op, target);
        let rows = mutation::scanned(m, ids, col, op, target);
        let n = ids.len() - 1;
        assert forall|r: u64| ids.contains(r) <==> d.contains(r) || r == ids[n] by {
            if ids.contains(r) {
                let i = choose|i: int| 0 <= i < ids.len() && ids[i] == r;
                if i < n {
                    assert(d[i] == r);
                }
            }
            if d.contains(r) {
                let i = choose|i: int| 0 <= i < d.len() && d[i] == r;
                assert(ids[i] == r);
            }
        }
        if rows != before {
            assert(rows =~= before.push(ids[n]));
            assert forall|i: int, j: int| 0 <= i < j < rows.len() implies #[trigger] rows[i] < #[trigger] rows[j] by {
                if j == before.len() {
                    assert(before.contains(before[i]));
                    let k = choose|k: int| 0 <= k < d.len() && d[k] == before[i];
                    assert(ids[k] < ids[n]);
                }
            }
            assert forall|r: u64| #[trigger] rows.contains(r) <==> before.contains(r) || r == ids[n] by {
                if rows.contains(r) {
                    let i = choose|i: int| 0 <= i < rows.len() && rows[i] == r;
                    if i < before.len() {
                        assert(before[i] == r);
                    }
                }
                if before.contains(r) {
                    let i = choose|i: int| 0 <= i < before.len() && before[i] == r;
                    assert(rows[i] == r);
                }
                assert(rows[before.len() as int] == ids[n]);
            }
        }
    }
}

/// The rows that an update or a delete works on are exactly those whose cell meets
/// the comparison, each once, whether an index answers or every row is looked at.
pub proof fn lemma_matching(m: database::DbModel, col: int, op: CmpOp, target: Value)
    requires
        m.wf(),
        indexed(m),
        0 <= col < m.schema.len(),
    ensures
        mutation::matching(m, col, op, target) is Ok,
        ({
            let rows = mutation::matching(m, col, op, target)->Ok_0;
            &&& index::rising(rows)
            &&& forall|r: u64|
                #[trigger] rows.contains(r) <==> (mutation::cell_of(m, r, col) matches Some(v) && value::holds(op, v, target))
        }),
{
    let rows = mutation::matching(m, col, op, target)->Ok_0;
    if mutation::indexed_rows(m, col, op, target) is Some {
        let id = target->Text_0;
        lemma_probe(m, col, id);
        assert(rows == looked_up(m, col, id));
        assert forall|r: u64|
            #[trigger] rows.contains(r) <==> (mutation::cell_of(m, r, col) matches Some(v) && value::holds(op, v, target)) by {
            assert(looked_up(m, col, id).contains(r) <==> mutation::cell_of(m, r, col) == Some(Value::Text(id)));
            if let Some(v) = mutation::cell_of(m, r, col) {
                assert(value::holds(op, v, target) == (v == Value::Text(id)));
            }
        }
    } else {
        let ids = rowid::ids_of(m.rows);
        assert forall|i: int, j: int| 0 <= i < j < ids.len() implies #[trigger] ids[i] < #[trigger] ids[j] by {
            assert(m.rows[i].0 < m.rows[j].0);
        }
        lemma_rows_scanned(m, ids, col, op, target);
        assert forall|r: u64| mutation::cell_of(m, r, col) is Some implies #[trigger] ids.contains(r) by {
            keymap::lemma_rank(m.rows, r);
            assert(ids[keymap::rank(m.rows, r)] == r);
        }
    }
}

/// A delete leaves exactly the rows whose cell does not meet the comparison, where
/// they are and with their cells.
pub proof fn lemma_deleted_rows(m: database::DbModel, col: int, op: CmpOp, target: Value)
    requires
        integrity::tidy(m),
        indexed(m),
        0 <= col < m.schema.len(),
    ensures
        ({
            let a = mutation::delete_counted(m);
            let d = mutation::rows_deleted(a, mutation::matching(a, col, op, target)->Ok_0).0;
            &&& forall|r: u64|
                #[trigger] d.home(r) == (if mutation::cell_of(m, r, col) matches Some(v) && value::holds(op, v, target) {
                    None
                } else {
                    m.home(r)
                })
            &&& forall|r: u64, k: int|
                0 <= k < m.schema.len() && d.home(r) is Some ==> #[trigger] mutation::cell_of(d, r, k)
                    == mutation::cell_of(m, r, k)
        }),
{
    let a = mutation::delete_counted(m);
    residence::lemma_counted(m, a);
    lemma_same_indexed(m, a);
    lemma_matching(a, col, op, target);
    residence::lemma_delete_where(m, col, op, target);
    let ids = mutation::matching(a, col, op, target)->Ok_0;
    let d = mutation::rows_deleted(a, ids).0;
    assert forall|r: u64|
        ids.contains(r) == (mutation::cell_of(m, r, col) matches Some(v) && value::holds(op, v, target)) by {
        assert(mutation::cell_of(a, r, col) == mutation::cell_of(m, r, col));
    }
    assert forall|r: u64, k: int| 0 <= k < m.schema.len() && d.home(r) is Some implies #[trigger] mutation::cell_of(d, r, k)
        == mutation::cell_of(m, r, k) by {
        assert(!ids.contains(r));
    }
}

/// A filtered scan gives exactly the rows whose cell meets the comparison, each
/// once, as its home has it, in ascending order of their ids. It goes by id where
/// it asks the first column for a number, and fails on an indexed column where it
/// asks for what the dictionary lacks.
pub proof fn lemma_filtered(m: database::DbModel, col: int, op: CmpOp, target: Value)
    requires
        residence::housed(m),
        indexed(m),
        0 <= col < m.schema.len(),
        !(col == 0 && op == CmpOp::Eq && target.spec_as_int() is Some),
        op == CmpOp::Eq && m.schema[col].index_page is Some ==> m.dicts[col] is Some && (target matches Value::Text(id)
            && dict::word_of(m.dicts[col]->0, m.pager, id) is Some),
    ensures
        query::filtered(m, col, op, target).0 is Ok,
        ({
            let rows = query::filtered(m, col, op, target).0->Ok_0;
            &&& forall|i: int, j: int| 0 <= i < j < rows.len() ==> (#[trigger] rows[i]).id < (#[trigger] rows[j]).id
            &&& forall|x: query::RowModel|
                #[trigger] rows.contains(x) <==> m.home(x.id) is Some && x == residence::row_at_home(m, x.id) && (
                mutation::cell_of(m, x.id, col) matches Some(v) && value::holds(op, v, target))
        }),
{
    let rows = query::filtered(m, col, op, target).0->Ok_0;
    if op == CmpOp::Eq && m.schema[col].index_page is Some {
        let id = target->Text_0;
        lemma_index_scan(m, col, id);
        assert forall|x: query::RowModel|
            #[trigger] rows.contains(x) <==> m.home(x.id) is Some && x == residence::row_at_home(m, x.id) && (
            mutation::cell_of(m, x.id, col) matches Some(v) && value::holds(op, v, target)) by {
            if let Some(v) = mutation::cell_of(m, x.id, col) {
                assert(value::holds(op, v, target) == (v == Value::Text(id)));
            }
        }
    } else {
        lemma_matching(m, col, op, target);
        let ids = mutation::matching(m, col, op, target)->Ok_0;
        assert forall|i: int| 0 <= i < ids.len() implies m.home(#[trigger] ids[i]) is Some by {
            assert(ids.contains(ids[i]));
        }
        lemma_found(m, ids, false);
        assert(rows == query::found_rows(m, ids, false));
        assert forall|x: query::RowModel|
            #[trigger] rows.contains(x) <==> m.home(x.id) is Some && x == residence::row_at_home(m, x.id) && (
            mutation::cell_of(m, x.id, col) matches Some(v) && value::holds(op, v, target)) by {
            if rows.contains(x) {
                let i = choose|i: int| 0 <= i < rows.len() && rows[i] == x;
                assert(ids.contains(ids[i]));
            }
            if ids.contains(x.id) && x == residence::row_at_home(m, x.id) {
                let i = choose|i: int| 0 <= i < ids.len() && ids[i] == x.id;
                assert(rows[i] == x);
            }
        }
    }
}

/// A point lookup gives the row with the id, as its home has it, or nothing.
pub proof fn lemma_point(m: database::DbModel, id: u64)
    requires
        integrity::tidy(m),
    ensures
        query::point_row(m, id) == if m.home(id) is Some {
            seq![residence::row_at_home(m, id)]
        } else {
            Seq::empty()
        },
{
    if m.home(id) is Some {
        lemma_cells(m, id, m.schema.len(), true);
        let v = residence::row_at_home(m, id).values;
        assert(v.take(m.schema.len() as int) =~= v);
    }
}

} // verus!
