//! Secondary indexes.
//!
//! A secondary index over a column maps each distinct value to the list of row
//! ids that carry it. To answer `col = V` without first resolving `V` to a
//! dictionary id and then back to bytes, the index caches, for each distinct
//! value, where in the column's dictionary page that value's byte string
//! stands. Probing the index then reads the cached place directly and compares
//! it to the query value: a fast path that avoids two extra indirections per
//! probe.
//!
//! An index is stored as a header followed by its entries:
//!
//! ```text
//!   [u32 dict_page][u32 num_entries]
//!   for each entry: [u32 value_id][u64 gen][u32 off][u32 num_rows][num_rows x u64]
//! ```

use crate::bytes;
use crate::fsm;
use crate::pager;
use crate::pager::{Page, PageId, Pager};
use vstd::prelude::*;

verus! {

/// One indexed distinct value.
#[derive(Debug, Clone)]
pub struct IndexEntry {
    /// The dictionary id of this value.
    pub value_id: u32,
    /// Where this value's byte string starts in the dictionary page, captured
    /// when the entry was built.
    pub off: u32,
    /// The dictionary page generation observed when `off` was captured.
    pub gen: u64,
    /// The row ids carrying this value, ascending.
    pub row_ids: Vec<u64>,
}

/// The model of an index entry.
#[verifier::ext_equal]
pub struct EntryModel {
    pub value_id: u32,
    pub off: u32,
    pub gen: u64,
    pub row_ids: Seq<u64>,
}

impl View for IndexEntry {
    type V = EntryModel;

    open spec fn view(&self) -> EntryModel {
        EntryModel { value_id: self.value_id, off: self.off, gen: self.gen, row_ids: self.row_ids@ }
    }
}

/// The index cache for one column.
#[derive(Debug, Clone)]
pub struct IndexCache {
    pub column: String,
    pub dict_page: PageId,
    pub entries: Vec<IndexEntry>,
}

/// The model of an index cache.
#[verifier::ext_equal]
pub struct IndexModel {
    pub column: Seq<char>,
    pub dict_page: PageId,
    pub entries: Seq<EntryModel>,
}

pub open spec fn entry_models(s: Seq<IndexEntry>) -> Seq<EntryModel> {
    Seq::new(s.len(), |i: int| s[i]@)
}

impl View for IndexCache {
    type V = IndexModel;

    open spec fn view(&self) -> IndexModel {
        IndexModel { column: self.column@, dict_page: self.dict_page, entries: entry_models(self.entries@) }
    }
}

/// The byte string at an offset: its length stands in the four bytes before it.
pub open spec fn cached(buf: Seq<u8>, off: u32) -> Option<Seq<u8>> {
    if off < 4 || off > buf.len() || off + bytes::u32_at(buf, off - 4) > buf.len() {
        None
    } else {
        Some(buf.subrange(off as int, off + bytes::u32_at(buf, off - 4)))
    }
}

/// The rows of the entries whose byte string in the page is the query.
pub open spec fn probed(e: Seq<EntryModel>, buf: Seq<u8>, query: Seq<u8>) -> Seq<u64>
    decreases e.len(),
{
    if e.len() == 0 {
        Seq::empty()
    } else {
        probed(e.drop_last(), buf, query) + if cached(buf, e.last().off) == Some(query) {
            e.last().row_ids
        } else {
            Seq::empty()
        }
    }
}

/// The rows of all entries.
pub open spec fn rows_of(e: Seq<EntryModel>) -> Seq<u64>
    decreases e.len(),
{
    if e.len() == 0 {
        Seq::empty()
    } else {
        rows_of(e.drop_last()) + e.last().row_ids
    }
}

/// The place of the entry for a value id.
pub open spec fn entry_for(e: Seq<EntryModel>, value_id: u32) -> Option<int>
    decreases e.len(),
{
    if e.len() == 0 {
        None
    } else if e[0].value_id == value_id {
        Some(0)
    } else {
        match entry_for(e.skip(1), value_id) {
            Some(i) => Some(i + 1),
            None => None,
        }
    }
}

/// How many rows at the front of a list lie below a row: in an ascending list,
/// the row's place.
pub open spec fn place(rows: Seq<u64>, row_id: u64) -> int
    decreases rows.len(),
{
    if rows.len() == 0 || rows[0] >= row_id {
        0
    } else {
        1 + place(rows.skip(1), row_id)
    }
}

proof fn lemma_place(rows: Seq<u64>, row_id: u64, k: int)
    requires
        0 <= k <= rows.len(),
        forall|j: int| 0 <= j < k ==> rows[j] < row_id,
        k == rows.len() || rows[k] >= row_id,
    ensures
        place(rows, row_id) == k,
    decreases rows.len(),
{
    if k > 0 {
        assert(rows[0] < row_id);
        lemma_place(rows.skip(1), row_id, k - 1);
    }
}

/// Entries with a row under a value id, in its place among the rows.
pub open spec fn with_row(e: Seq<EntryModel>, value_id: u32, off: u32, gen: u64, row_id: u64) -> Seq<EntryModel> {
    match entry_for(e, value_id) {
        Some(i) => if e[i].row_ids.contains(row_id) {
            e
        } else {
            e.update(i, EntryModel { row_ids: e[i].row_ids.insert(place(e[i].row_ids, row_id), row_id), ..e[i] })
        },
        None => e.push(EntryModel { value_id, off, gen, row_ids: seq![row_id] }),
    }
}

/// Rows in ascending order, each once.
pub open spec fn rising(rows: Seq<u64>) -> bool {
    forall|i: int, j: int| 0 <= i < j < rows.len() ==> #[trigger] rows[i] < #[trigger] rows[j]
}

/// A row stands under a value id.
pub open spec fn listed(e: Seq<EntryModel>, value_id: u32, row_id: u64) -> bool {
    exists|k: int| 0 <= k < e.len() && (#[trigger] e[k]).value_id == value_id && e[k].row_ids.contains(row_id)
}

/// No value id has two entries.
pub open spec fn apart(e: Seq<EntryModel>) -> bool {
    forall|i: int, j: int| 0 <= i < j < e.len() ==> (#[trigger] e[i]).value_id != (#[trigger] e[j]).value_id
}

/// A list of rows without one row.
pub open spec fn without(rows: Seq<u64>, row_id: u64) -> Seq<u64>
    decreases rows.len(),
{
    if rows.len() == 0 {
        Seq::empty()
    } else {
        let d = without(rows.drop_last(), row_id);
        if rows.last() == row_id {
            d
        } else {
            d.push(rows.last())
        }
    }
}

/// Entries without a row.
pub open spec fn dropped(e: Seq<EntryModel>, row_id: u64) -> Seq<EntryModel> {
    Seq::new(e.len(), |i: int| EntryModel { row_ids: without(e[i].row_ids, row_id), ..e[i] })
}

/// Entries bound to the offsets of their values.
pub open spec fn rebound(e: Seq<EntryModel>, offsets: Seq<(u32, u32)>, gen: u64) -> Seq<EntryModel> {
    Seq::new(
        e.len(),
        |i: int|
            if e[i].value_id < offsets.len() {
                EntryModel { off: offsets[e[i].value_id as int].0, gen, ..e[i] }
            } else {
                e[i]
            },
    )
}

/// The largest generation of the entries.
pub open spec fn last_gen(e: Seq<EntryModel>) -> u64
    decreases e.len(),
{
    if e.len() == 0 {
        0
    } else {
        let g = last_gen(e.drop_last());
        if e.last().gen > g {
            e.last().gen
        } else {
            g
        }
    }
}

pub proof fn lemma_entry_for(e: Seq<EntryModel>, value_id: u32)
    ensures
        match entry_for(e, value_id) {
            Some(i) => 0 <= i < e.len() && e[i].value_id == value_id && forall|j: int|
                0 <= j < i ==> (#[trigger] e[j]).value_id != value_id,
            None => forall|j: int| 0 <= j < e.len() ==> (#[trigger] e[j]).value_id != value_id,
        },
    decreases e.len(),
{
    if e.len() > 0 && e[0].value_id != value_id {
        let t = e.skip(1);
        lemma_entry_for(t, value_id);
        match entry_for(t, value_id) {
            Some(i) => {
                assert(e[i + 1] == t[i]);
                assert forall|j: int| 0 <= j < i + 1 implies (#[trigger] e[j]).value_id != value_id by {
                    if j > 0 {
                        assert(e[j] == t[j - 1]);
                    }
                }
            },
            None => {
                assert forall|j: int| 0 <= j < e.len() implies (#[trigger] e[j]).value_id != value_id by {
                    if j > 0 {
                        assert(e[j] == t[j - 1]);
                    }
                }
            },
        }
    }
}

/// A dropped row is listed nowhere.
pub proof fn lemma_without(rows: Seq<u64>, row_id: u64)
    ensures
        !without(rows, row_id).contains(row_id),
        forall|r: u64| r != row_id ==> rows.contains(r) == #[trigger] without(rows, row_id).contains(r),
    decreases rows.len(),
{
    if rows.len() > 0 {
        let d = rows.drop_last();
        lemma_without(d, row_id);
        let w = without(rows, row_id);
        let x = without(d, row_id);
        assert forall|r: u64| r != row_id implies rows.contains(r) == #[trigger] w.contains(r) by {
            assert(x.contains(r) == d.contains(r));
            if rows.contains(r) {
                let k = choose|k: int| 0 <= k < rows.len() && rows[k] == r;
                if k < d.len() {
                    assert(d[k] == r);
                    let l = choose|l: int| 0 <= l < x.len() && x[l] == r;
                    assert(w[l] == r);
                } else {
                    assert(w[w.len() - 1] == r);
                }
            }
            if w.contains(r) {
                let l = choose|l: int| 0 <= l < w.len() && w[l] == r;
                if l < x.len() {
                    assert(x[l] == r);
                    let k = choose|k: int| 0 <= k < d.len() && d[k] == r;
                    assert(rows[k] == r);
                } else {
                    assert(rows[rows.len() - 1] == r);
                }
            }
        }
        if w.contains(row_id) {
            let l = choose|l: int| 0 <= l < w.len() && w[l] == row_id;
            if l < x.len() {
                assert(x[l] == row_id);
                assert(x.contains(row_id));
            }
        }
    }
}

/// A row put in its place among ascending rows leaves them ascending, and is there.
pub proof fn lemma_placed(rows: Seq<u64>, row_id: u64)
    requires
        rising(rows),
        !rows.contains(row_id),
    ensures
        ({
            let k = place(rows, row_id);
            let w = rows.insert(k, row_id);
            &&& 0 <= k <= rows.len()
            &&& rising(w)
            &&& forall|r: u64| #[trigger] w.contains(r) <==> rows.contains(r) || r == row_id
        }),
    decreases rows.len(),
{
    let k = place(rows, row_id);
    if rows.len() > 0 && rows[0] < row_id {
        let t = rows.skip(1);
        assert(!t.contains(row_id)) by {
            if t.contains(row_id) {
                let i = choose|i: int| 0 <= i < t.len() && t[i] == row_id;
                assert(rows[i + 1] == row_id);
            }
        }
        lemma_placed(t, row_id);
        let w = rows.insert(k, row_id);
        let u = t.insert(k - 1, row_id);
        assert(w.skip(1) =~= u);
        assert(w[0] == rows[0]);
        assert forall|i: int, j: int| 0 <= i < j < w.len() implies #[trigger] w[i] < #[trigger] w[j] by {
            assert(w[j] == u[j - 1]);
            if i > 0 {
                assert(w[i] == u[i - 1]);
            } else if w[j] != row_id {
                assert(u.contains(w[j]));
                assert(t.contains(w[j]));
                let x = choose|x: int| 0 <= x < t.len() && t[x] == w[j];
                assert(rows[x + 1] == w[j]);
            }
        }
    } else {
        let w = rows.insert(0, row_id);
        assert(rows.len() > 0 ==> rows[0] != row_id);
        assert forall|i: int, j: int| 0 <= i < j < w.len() implies #[trigger] w[i] < #[trigger] w[j] by {
            assert(w[j] == rows[j - 1]);
            if i > 0 {
                assert(w[i] == rows[i - 1]);
            } else if j > 1 {
                assert(rows[0] < rows[j - 1]);
            }
        }
    }
    let w = rows.insert(k, row_id);
    assert forall|r: u64| #[trigger] w.contains(r) <==> rows.contains(r) || r == row_id by {
        if w.contains(r) {
            let i = choose|i: int| 0 <= i < w.len() && w[i] == r;
            if i < k {
                assert(rows[i] == r);
            } else if i > k {
                assert(rows[i - 1] == r);
            }
        }
        if rows.contains(r) {
            let i = choose|i: int| 0 <= i < rows.len() && rows[i] == r;
            if i < k {
                assert(w[i] == r);
            } else {
                assert(w[i + 1] == r);
            }
        }
        if r == row_id {
            assert(w[k] == r);
        }
    }
}

/// Ascending rows without one row ascend.
pub proof fn lemma_without_rising(rows: Seq<u64>, row_id: u64)
    requires
        rising(rows),
    ensures
        rising(without(rows, row_id)),
    decreases rows.len(),
{
    if rows.len() > 0 {
        let d = rows.drop_last();
        lemma_without_rising(d, row_id);
        lemma_without(d, row_id);
        let x = without(d, row_id);
        let w = without(rows, row_id);
        if rows.last() != row_id {
            assert forall|i: int, j: int| 0 <= i < j < w.len() implies #[trigger] w[i] < #[trigger] w[j] by {
                assert(w[i] == x[i]);
                if j == x.len() {
                    assert(x.contains(x[i]));
                    assert(d.contains(x[i]));
                    let k = choose|k: int| 0 <= k < d.len() && d[k] == x[i];
                    assert(rows[k] < rows[rows.len() - 1]);
                }
            }
        }
    }
}

/// An index that adds a row under a value id lists it there, and the others as
/// before. Each entry keeps its rows ascending.
pub proof fn lemma_with_row(e: Seq<EntryModel>, value_id: u32, off: u32, gen: u64, row_id: u64)
    requires
        apart(e),
        !listed(e, value_id, row_id),
        forall|k: int| 0 <= k < e.len() ==> rising((#[trigger] e[k]).row_ids),
    ensures
        ({
            let w = with_row(e, value_id, off, gen, row_id);
            &&& apart(w)
            &&& forall|v: u32, r: u64|
                #[trigger] listed(w, v, r) <==> listed(e, v, r) || (v == value_id && r == row_id)
            &&& forall|k: int| 0 <= k < w.len() ==> rising((#[trigger] w[k]).row_ids)
            &&& forall|k: int|
                0 <= k < w.len() ==> (k < e.len() && (#[trigger] w[k]).value_id == e[k].value_id && w[k].off == e[k].off)
                    || (w[k].value_id == value_id && w[k].off == off)
        }),
{
    let w = with_row(e, value_id, off, gen, row_id);
    lemma_entry_for(e, value_id);
    match entry_for(e, value_id) {
        Some(i) => {
            let rows = e[i].row_ids;
            assert(!rows.contains(row_id));
            lemma_placed(rows, row_id);
            assert forall|v: u32, r: u64|
                #[trigger] listed(w, v, r) <==> listed(e, v, r) || (v == value_id && r == row_id) by {
                assert(w[i].row_ids.contains(r) <==> rows.contains(r) || r == row_id);
                if listed(w, v, r) {
                    let k = choose|k: int| 0 <= k < w.len() && (#[trigger] w[k]).value_id == v && w[k].row_ids.contains(r);
                    assert(e[k].value_id == v);
                    if k != i {
                        assert(e[k].row_ids.contains(r));
                    }
                }
                if listed(e, v, r) {
                    let k = choose|k: int| 0 <= k < e.len() && (#[trigger] e[k]).value_id == v && e[k].row_ids.contains(r);
                    assert(w[k].value_id == v && w[k].row_ids.contains(r));
                }
                if v == value_id && r == row_id {
                    assert(w[i].value_id == v && w[i].row_ids.contains(r));
                }
            }
        },
        None => {
            let n = e.len() as int;
            assert(w[n].row_ids =~= seq![row_id]);
            assert forall|v: u32, r: u64|
                #[trigger] listed(w, v, r) <==> listed(e, v, r) || (v == value_id && r == row_id) by {
                if listed(w, v, r) {
                    let k = choose|k: int| 0 <= k < w.len() && (#[trigger] w[k]).value_id == v && w[k].row_ids.contains(r);
                    if k < n {
                        assert(e[k].value_id == v && e[k].row_ids.contains(r));
                    }
                }
                if listed(e, v, r) {
                    let k = choose|k: int| 0 <= k < e.len() && (#[trigger] e[k]).value_id == v && e[k].row_ids.contains(r);
                    assert(w[k].value_id == v && w[k].row_ids.contains(r));
                }
                if v == value_id && r == row_id {
                    assert(w[n].row_ids[0] == r);
                    assert(w[n].value_id == v && w[n].row_ids.contains(r));
                }
            }
        },
    }
}

/// An index that drops a row lists it nowhere, and the others as before.
pub proof fn lemma_dropped(e: Seq<EntryModel>, row_id: u64)
    requires
        apart(e),
        forall|k: int| 0 <= k < e.len() ==> rising((#[trigger] e[k]).row_ids),
    ensures
        ({
            let w = dropped(e, row_id);
            &&& apart(w)
            &&& w.len() == e.len()
            &&& forall|v: u32, r: u64| #[trigger] listed(w, v, r) <==> listed(e, v, r) && r != row_id
            &&& forall|k: int|
                0 <= k < w.len() ==> rising((#[trigger] w[k]).row_ids) && w[k].value_id == e[k].value_id && w[k].off == e[k].off
        }),
{
    let w = dropped(e, row_id);
    assert forall|k: int| 0 <= k < w.len() implies rising((#[trigger] w[k]).row_ids) && w[k].value_id == e[k].value_id
        && w[k].off == e[k].off by {
        lemma_without_rising(e[k].row_ids, row_id);
    }
    assert forall|v: u32, r: u64| #[trigger] listed(w, v, r) <==> listed(e, v, r) && r != row_id by {
        if listed(w, v, r) {
            let k = choose|k: int| 0 <= k < w.len() && (#[trigger] w[k]).value_id == v && w[k].row_ids.contains(r);
            lemma_without(e[k].row_ids, row_id);
            assert(e[k].value_id == v && e[k].row_ids.contains(r));
        }
        if listed(e, v, r) && r != row_id {
            let k = choose|k: int| 0 <= k < e.len() && (#[trigger] e[k]).value_id == v && e[k].row_ids.contains(r);
            lemma_without(e[k].row_ids, row_id);
            assert(w[k].value_id == v && w[k].row_ids.contains(r));
        }
    }
}

/// Where just one entry's byte string is the query, a probe gives its rows.
pub proof fn lemma_probed(e: Seq<EntryModel>, buf: Seq<u8>, query: Seq<u8>, i: int)
    requires
        0 <= i < e.len(),
        cached(buf, e[i].off) == Some(query),
        forall|k: int| 0 <= k < e.len() && k != i ==> cached(buf, (#[trigger] e[k]).off) != Some(query),
    ensures
        probed(e, buf, query) == e[i].row_ids,
    decreases e.len(),
{
    let d = e.drop_last();
    if i == e.len() - 1 {
        lemma_probed_none(d, buf, query);
        assert(probed(e, buf, query) =~= e[i].row_ids);
    } else {
        lemma_probed(d, buf, query, i);
        assert(cached(buf, e[e.len() - 1].off) != Some(query));
        assert(probed(e, buf, query) =~= e[i].row_ids);
    }
}

/// Where the query is the byte string of just one value, a probe gives the rows that
/// stand under that value, in order.
pub proof fn lemma_probed_value(e: Seq<EntryModel>, buf: Seq<u8>, query: Seq<u8>, value_id: u32)
    requires
        apart(e),
        forall|k: int| 0 <= k < e.len() ==> rising((#[trigger] e[k]).row_ids),
        forall|k: int|
            0 <= k < e.len() ==> (cached(buf, (#[trigger] e[k]).off) == Some(query)) == (e[k].value_id == value_id),
    ensures
        rising(probed(e, buf, query)),
        forall|r: u64| #[trigger] probed(e, buf, query).contains(r) <==> listed(e, value_id, r),
{
    if exists|k: int| 0 <= k < e.len() && (#[trigger] e[k]).value_id == value_id {
        let k = choose|k: int| 0 <= k < e.len() && (#[trigger] e[k]).value_id == value_id;
        assert forall|j: int| 0 <= j < e.len() && j != k implies cached(buf, (#[trigger] e[j]).off) != Some(query) by {
            if j < k {
                assert(e[j].value_id != e[k].value_id);
            } else {
                assert(e[k].value_id != e[j].value_id);
            }
        }
        lemma_probed(e, buf, query, k);
        assert forall|r: u64| e[k].row_ids.contains(r) <==> #[trigger] listed(e, value_id, r) by {
            if listed(e, value_id, r) {
                let j = choose|j: int| 0 <= j < e.len() && (#[trigger] e[j]).value_id == value_id && e[j].row_ids.contains(r);
                if j < k {
                    assert(e[j].value_id != e[k].value_id);
                } else if k < j {
                    assert(e[k].value_id != e[j].value_id);
                }
            }
        }
    } else {
        lemma_probed_none(e, buf, query);
    }
}

/// Where no entry's byte string is the query, a probe gives nothing.
pub proof fn lemma_probed_none(e: Seq<EntryModel>, buf: Seq<u8>, query: Seq<u8>)
    requires
        forall|k: int| 0 <= k < e.len() ==> cached(buf, (#[trigger] e[k]).off) != Some(query),
    ensures
        probed(e, buf, query) == Seq::<u64>::empty(),
    decreases e.len(),
{
    if e.len() > 0 {
        lemma_probed_none(e.drop_last(), buf, query);
        assert(cached(buf, e[e.len() - 1].off) != Some(query));
        assert(probed(e, buf, query) =~= Seq::empty());
    }
}

/// Remove a row from a list.
pub fn remove_row(rows: &mut Vec<u64>, row_id: u64)
    ensures
        final(rows)@ == without(old(rows)@, row_id),
{
    let mut kept: Vec<u64> = Vec::new();
    let mut i: usize = 0;
    assert(rows@.take(0) =~= Seq::empty());
    while i < rows.len()
        invariant
            i <= rows@.len(),
            kept@ == without(rows@.take(i as int), row_id),
        decreases rows@.len() - i,
    {
        assert(rows@.take(i + 1).drop_last() =~= rows@.take(i as int));
        if rows[i] != row_id {
            kept.push(rows[i]);
        }
        i += 1;
    }
    assert(rows@.take(i as int) =~= rows@);
    *rows = kept;
}

// Storage

pub open spec fn entry_bytes(e: EntryModel) -> Seq<u8> {
    bytes::le32(e.value_id) + bytes::le64(e.gen) + bytes::le32(e.off) + bytes::le32(e.row_ids.len() as u32)
        + bytes::u64s(e.row_ids)
}

pub open spec fn entries_bytes(e: Seq<EntryModel>) -> Seq<u8>
    decreases e.len(),
{
    if e.len() == 0 {
        Seq::empty()
    } else {
        entry_bytes(e[0]) + entries_bytes(e.skip(1))
    }
}

/// The stored form of an index.
pub open spec fn index_bytes(m: IndexModel) -> Seq<u8> {
    bytes::le32(m.dict_page) + bytes::le32(m.entries.len() as u32) + entries_bytes(m.entries)
}

/// An index whose lengths fit the stored form.
pub open spec fn storable(e: Seq<EntryModel>) -> bool {
    &&& e.len() <= u32::MAX
    &&& forall|i: int| 0 <= i < e.len() ==> (#[trigger] e[i]).row_ids.len() <= u32::MAX
}

/// How many rows the entry at the front of `s` has.
pub open spec fn row_count(s: Seq<u8>) -> nat {
    fsm::present(bytes::u32_at(s, 16) as int, s.len() - 20, 8) as nat
}

/// The next `n` entries of `s`, as far as they are there.
pub open spec fn entries_of(s: Seq<u8>, n: nat) -> Seq<EntryModel>
    decreases n,
{
    if n == 0 || s.len() < 20 {
        Seq::empty()
    } else {
        let c = row_count(s);
        seq![
            EntryModel {
                value_id: bytes::u32_at(s, 0),
                gen: bytes::u64_at(s, 4),
                off: bytes::u32_at(s, 12),
                row_ids: bytes::u64s_up_to(s.skip(20), c),
            },
        ] + entries_of(s.skip(20 + 8 * c as int), (n - 1) as nat)
    }
}

/// The index stored in `s`.
pub open spec fn index_of(s: Seq<u8>, column: Seq<char>) -> IndexModel {
    if s.len() < 8 {
        IndexModel { column: Seq::empty(), dict_page: 0, entries: Seq::empty() }
    } else {
        IndexModel {
            column,
            dict_page: bytes::u32_at(s, 0),
            entries: entries_of(s.skip(8), bytes::u32_at(s, 4) as nat),
        }
    }
}

proof fn lemma_entry(e: EntryModel, rest: Seq<u8>)
    requires
        e.row_ids.len() <= u32::MAX,
    ensures
        ({
            let s = entry_bytes(e) + rest;
            &&& s.len() >= 20
            &&& bytes::u32_at(s, 0) == e.value_id
            &&& bytes::u64_at(s, 4) == e.gen
            &&& bytes::u32_at(s, 12) == e.off
            &&& row_count(s) == e.row_ids.len()
            &&& bytes::u64s_up_to(s.skip(20), e.row_ids.len()) == e.row_ids
            &&& s.skip(20 + 8 * e.row_ids.len() as int) == rest
        }),
{
    let s = entry_bytes(e) + rest;
    let a = bytes::le32(e.value_id);
    let b = bytes::le64(e.gen);
    let c = bytes::le32(e.off);
    let d = bytes::le32(e.row_ids.len() as u32);
    let r = bytes::u64s(e.row_ids);
    bytes::lemma_u64s(e.row_ids, rest);
    bytes::lemma_u32_between(Seq::empty(), e.value_id, b + c + d + r + rest);
    assert(s =~= Seq::<u8>::empty() + a + (b + c + d + r + rest));
    bytes::lemma_u64_between(a, e.gen, c + d + r + rest);
    assert(s =~= a + b + (c + d + r + rest));
    bytes::lemma_u32_between(a + b, e.off, d + r + rest);
    assert(s =~= (a + b) + c + (d + r + rest));
    bytes::lemma_u32_between(a + b + c, e.row_ids.len() as u32, r + rest);
    assert(s =~= (a + b + c) + d + (r + rest));
    assert(s.skip(20) =~= r + rest);
    assert(s.skip(20 + 8 * e.row_ids.len() as int) =~= rest);
}

proof fn lemma_entries(e: Seq<EntryModel>, rest: Seq<u8>)
    requires
        storable(e),
    ensures
        entries_of(entries_bytes(e) + rest, e.len()) == e,
    decreases e.len(),
{
    if e.len() > 0 {
        let t = e.skip(1);
        assert(storable(t)) by {
            assert forall|i: int| 0 <= i < t.len() implies (#[trigger] t[i]).row_ids.len() <= u32::MAX by {
                assert(t[i] == e[i + 1]);
            }
        }
        assert(e[0].row_ids.len() <= u32::MAX);
        lemma_entries(t, rest);
        lemma_entry(e[0], entries_bytes(t) + rest);
        let s = entries_bytes(e) + rest;
        assert(s =~= entry_bytes(e[0]) + (entries_bytes(t) + rest));
        assert(entries_of(s, e.len()) =~= e);
    } else {
        assert(e =~= Seq::empty());
    }
}

/// Reading a stored index gives it back.
pub proof fn lemma_index_round_trip(m: IndexModel)
    requires
        storable(m.entries),
    ensures
        index_of(index_bytes(m), m.column) == m,
{
    let s = index_bytes(m);
    let e = entries_bytes(m.entries);
    bytes::lemma_u32_between(Seq::empty(), m.dict_page, bytes::le32(m.entries.len() as u32) + e);
    assert(s =~= Seq::<u8>::empty() + bytes::le32(m.dict_page) + (bytes::le32(m.entries.len() as u32) + e));
    bytes::lemma_u32_between(bytes::le32(m.dict_page), m.entries.len() as u32, e);
    lemma_entries(m.entries, Seq::empty());
    assert(s.skip(8) =~= e + Seq::empty());
    assert(index_of(s, m.column) =~= m);
}

proof fn lemma_entries_split(e: Seq<EntryModel>, i: int)
    requires
        0 <= i < e.len(),
    ensures
        entries_bytes(e.take(i + 1)) == entries_bytes(e.take(i)) + entry_bytes(e[i]),
    decreases i,
{
    let a = e.take(i + 1);
    let b = e.take(i);
    if i == 0 {
        assert(a.skip(1) =~= Seq::empty());
        assert(b =~= Seq::empty());
        assert(entries_bytes(a) =~= entries_bytes(b) + entry_bytes(e[0]));
    } else {
        lemma_entries_split(e.skip(1), i - 1);
        assert(a.skip(1) =~= e.skip(1).take(i));
        assert(b.skip(1) =~= e.skip(1).take(i - 1));
        assert(entries_bytes(a) =~= entries_bytes(b) + entry_bytes(e[i]));
    }
}

impl IndexCache {
    pub fn empty(column: String) -> (r: IndexCache)
        ensures
            r@ == (IndexModel { column: column@, dict_page: 0, entries: Seq::empty() }),
    {
        let r = IndexCache { column, dict_page: 0, entries: Vec::new() };
        assert(r@.entries =~= Seq::empty());
        r
    }

    pub fn with_dict(column: String, dict_page: PageId) -> (r: IndexCache)
        ensures
            r@ == (IndexModel { column: column@, dict_page, entries: Seq::empty() }),
    {
        let r = IndexCache { column, dict_page, entries: Vec::new() };
        assert(r@.entries =~= Seq::empty());
        r
    }

    pub fn len(&self) -> (r: usize)
        ensures
            r == self@.entries.len(),
    {
        self.entries.len()
    }

    pub fn is_empty(&self) -> (r: bool)
        ensures
            r == (self@.entries.len() == 0),
    {
        self.entries.len() == 0
    }

    /// Add a row to an existing entry for `value_id`, or create a new entry
    /// capturing `off`/`gen` from the current dictionary page.
    pub fn add_or_append(&mut self, value_id: u32, off: u32, gen: u64, row_id: u64)
        ensures
            final(self)@ == (IndexModel {
                entries: with_row(old(self)@.entries, value_id, off, gen, row_id),
                ..old(self)@
            }),
    {
        let ghost e = self@.entries;
        let mut i: usize = 0;
        proof {
            lemma_entry_for(e, value_id);
        }
        while i < self.entries.len()
            invariant
                i <= self.entries@.len(),
                self@ == old(self)@,
                e == self@.entries,
                forall|j: int| 0 <= j < i ==> (#[trigger] e[j]).value_id != value_id,
            decreases self.entries@.len() - i,
        {
            assert(e[i as int] == self.entries@[i as int]@);
            if self.entries[i].value_id == value_id {
                proof {
                    lemma_entry_for(e, value_id);
                    assert(entry_for(e, value_id) == Some(i as int));
                }
                let mut k: usize = 0;
                while k < self.entries[i].row_ids.len()
                    invariant
                        i < self.entries@.len(),
                        self@ == old(self)@,
                        e == self@.entries,
                        e[i as int] == self.entries@[i as int]@,
                        entry_for(e, value_id) == Some(i as int),
                        k <= self.entries@[i as int].row_ids@.len(),
                        forall|j: int| 0 <= j < k ==> self.entries@[i as int].row_ids@[j] != row_id,
                    decreases self.entries@[i as int].row_ids@.len() - k,
                {
                    if self.entries[i].row_ids[k] == row_id {
                        assert(e[i as int].row_ids[k as int] == row_id);
                        return;
                    }
                    k += 1;
                }
                let mut entry = self.entries.remove(i);
                let ghost had = entry.row_ids@;
                let mut at: usize = 0;
                while at < entry.row_ids.len() && entry.row_ids[at] < row_id
                    invariant
                        at <= entry.row_ids@.len(),
                        forall|j: int| 0 <= j < at ==> entry.row_ids@[j] < row_id,
                    decreases entry.row_ids@.len() - at,
                {
                    at += 1;
                }
                proof {
                    lemma_place(had, row_id, at as int);
                }
                entry.row_ids.insert(at, row_id);
                self.entries.insert(i, entry);
                proof {
                    let now = EntryModel { row_ids: had.insert(at as int, row_id), ..e[i as int] };
                    assert(!e[i as int].row_ids.contains(row_id));
                    assert(entry_models(self.entries@) =~= e.update(i as int, now));
                }
                return;
            }
            i += 1;
        }
        let mut row_ids: Vec<u64> = Vec::new();
        row_ids.push(row_id);
        assert(row_ids@ =~= seq![row_id]);
        let entry = IndexEntry { value_id, off, gen, row_ids };
        let ghost m = entry@;
        self.entries.push(entry);
        assert(entry_models(self.entries@) =~= e.push(m));
    }

    /// The rows of the entries whose byte string is the query.
    pub fn probe(&self, pager: &Pager, query: &[u8]) -> (out: Vec<u64>)
        requires
            pager.wf(),
        ensures
            out@ == (match pager@.page(self@.dict_page) {
                Some(p) => probed(self@.entries, p.buf, query@),
                None => Seq::empty(),
            }),
    {
        let mut out: Vec<u64> = Vec::new();
        assert(out@ =~= Seq::<u64>::empty());
        let page = match pager.get(self.dict_page) {
            Some(p) => p,
            None => {
                return out;
            },
        };
        let ghost e = self@.entries;
        let mut i: usize = 0;
        assert(e.take(0) =~= Seq::empty());
        while i < self.entries.len()
            invariant
                i <= self.entries@.len(),
                e == self@.entries,
                out@ == probed(e.take(i as int), page@.buf, query@),
            decreases self.entries@.len() - i,
        {
            let entry = &self.entries[i];
            proof {
                assert(e[i as int] == entry@);
                assert(e.take(i + 1).drop_last() =~= e.take(i as int));
            }
            let ghost was = out@;
            if is_cached(page, entry.off, query) {
                push_rows(&mut out, &entry.row_ids);
            }
            assert(out@ =~= probed(e.take(i + 1), page@.buf, query@));
            i += 1;
        }
        assert(e.take(i as int) =~= e);
        out
    }

    /// All row ids in the index, concatenated.
    pub fn all_rows(&self) -> (out: Vec<u64>)
        ensures
            out@ == rows_of(self@.entries),
    {
        let mut out: Vec<u64> = Vec::new();
        let ghost e = self@.entries;
        let mut i: usize = 0;
        assert(e.take(0) =~= Seq::empty());
        while i < self.entries.len()
            invariant
                i <= self.entries@.len(),
                e == self@.entries,
                out@ == rows_of(e.take(i as int)),
            decreases self.entries@.len() - i,
        {
            proof {
                assert(e[i as int] == self.entries@[i as int]@);
                assert(e.take(i + 1).drop_last() =~= e.take(i as int));
            }
            push_rows(&mut out, &self.entries[i].row_ids);
            i += 1;
        }
        assert(e.take(i as int) =~= e);
        out
    }

    /// Drop a row from every entry.
    pub fn drop_row(&mut self, row_id: u64)
        ensures
            final(self)@ == (IndexModel { entries: dropped(old(self)@.entries, row_id), ..old(self)@ }),
    {
        let ghost e = self@.entries;
        let mut i: usize = 0;
        while i < self.entries.len()
            invariant
                i <= self.entries@.len(),
                self.column == old(self).column,
                self.dict_page == old(self).dict_page,
                self.entries@.len() == e.len(),
                forall|j: int| 0 <= j < i ==> (#[trigger] self.entries@[j])@ == dropped(e, row_id)[j],
                forall|j: int| i <= j < e.len() ==> (#[trigger] self.entries@[j])@ == e[j],
            decreases self.entries@.len() - i,
        {
            let ghost was = self.entries@;
            assert(was[i as int]@ == e[i as int]);
            let mut entry = self.entries.remove(i);
            remove_row(&mut entry.row_ids, row_id);
            let ghost now = entry;
            self.entries.insert(i, entry);
            assert(self.entries@ =~= was.update(i as int, now));
            i += 1;
        }
        assert(self@.entries =~= dropped(e, row_id));
    }

    /// Re-bind every entry to the current dictionary page buffer, using the
    /// byte-data offsets recorded in the dictionary mirror.
    pub fn rebind(&mut self, pager: &Pager, offsets: &Vec<(u32, u32)>, gen: u64)
        requires
            pager.wf(),
        ensures
            final(self)@ == (IndexModel {
                entries: if pager@.page(old(self)@.dict_page) is Some {
                    rebound(old(self)@.entries, offsets@, gen)
                } else {
                    old(self)@.entries
                },
                ..old(self)@
            }),
    {
        if pager.get(self.dict_page).is_none() {
            return;
        }
        let ghost e = self@.entries;
        let mut i: usize = 0;
        while i < self.entries.len()
            invariant
                i <= self.entries@.len(),
                self.column == old(self).column,
                self.dict_page == old(self).dict_page,
                self.entries@.len() == e.len(),
                forall|j: int| 0 <= j < i ==> (#[trigger] self.entries@[j])@ == rebound(e, offsets@, gen)[j],
                forall|j: int| i <= j < e.len() ==> (#[trigger] self.entries@[j])@ == e[j],
            decreases self.entries@.len() - i,
        {
            let v: u32 = self.entries[i].value_id;
            let ghost was = self.entries@;
            assert(was[i as int]@ == e[i as int]);
            if (v as usize) < offsets.len() {
                let mut entry = self.entries.remove(i);
                entry.off = offsets[v as usize].0;
                entry.gen = gen;
                let ghost now = entry;
                self.entries.insert(i, entry);
                assert(self.entries@ =~= was.update(i as int, now));
            }
            i += 1;
        }
        assert(self@.entries =~= rebound(e, offsets@, gen));
    }

    /// The generation the cache was last bound at (the max across entries, or
    /// 0 if empty).
    pub fn bound_gen(&self) -> (r: u64)
        ensures
            r == last_gen(self@.entries),
    {
        let ghost e = self@.entries;
        let mut g: u64 = 0;
        let mut i: usize = 0;
        assert(e.take(0) =~= Seq::empty());
        while i < self.entries.len()
            invariant
                i <= self.entries@.len(),
                e == self@.entries,
                g == last_gen(e.take(i as int)),
            decreases self.entries@.len() - i,
        {
            proof {
                assert(e[i as int] == self.entries@[i as int]@);
                assert(e.take(i + 1).drop_last() =~= e.take(i as int));
            }
            if self.entries[i].gen > g {
                g = self.entries[i].gen;
            }
            i += 1;
        }
        assert(e.take(i as int) =~= e);
        g
    }

    /// The place of a byte string in a dict page, for an entry to hold.
    pub fn capture_ptr(page: &Page, byte_off: usize) -> (r: u32)
        requires
            byte_off <= u32::MAX,
            byte_off <= page@.buf.len(),
        ensures
            r == byte_off,
    {
        byte_off as u32
    }

    /// Store the index.
    pub fn encode(&self) -> (out: Vec<u8>)
        requires
            storable(self@.entries),
        ensures
            out@ == index_bytes(self@),
    {
        let mut out: Vec<u8> = Vec::new();
        let ghost e = self@.entries;
        bytes::put_u32(&mut out, self.dict_page);
        bytes::put_u32(&mut out, self.entries.len() as u32);
        let ghost head = out@;
        let mut i: usize = 0;
        assert(e.take(0) =~= Seq::empty());
        while i < self.entries.len()
            invariant
                i <= self.entries@.len(),
                e == self@.entries,
                storable(e),
                out@ == head + entries_bytes(e.take(i as int)),
            decreases self.entries@.len() - i,
        {
            let entry = &self.entries[i];
            let ghost was = out@;
            proof {
                assert(e[i as int] == entry@);
                lemma_entries_split(e, i as int);
            }
            bytes::put_u32(&mut out, entry.value_id);
            bytes::put_u64(&mut out, entry.gen);
            bytes::put_u32(&mut out, entry.off);
            bytes::put_u32(&mut out, entry.row_ids.len() as u32);
            bytes::put_u64s(&mut out, &entry.row_ids);
            assert(out@ =~= was + entry_bytes(e[i as int]));
            assert(out@ =~= head + entries_bytes(e.take(i + 1)));
            i += 1;
        }
        assert(e.take(i as int) =~= e);
        assert(out@ =~= index_bytes(self@));
        out
    }

    /// Read a stored index of a column.
    pub fn decode(buf: &[u8], column: &str) -> (r: IndexCache)
        ensures
            r@ == index_of(buf@, column@),
    {
        if buf.len() < 8 {
            return IndexCache::empty(String::new());
        }
        let dict_page: u32 = bytes::get_u32(buf, 0);
        let n: u32 = bytes::get_u32(buf, 4);
        let mut idx = IndexCache::with_dict(column.to_owned(), dict_page);
        let mut pos: usize = 8;
        let mut i: u32 = 0;
        assert(idx@.entries + entries_of(buf@.skip(8), n as nat) =~= entries_of(buf@.skip(8), n as nat));
        while i < n && buf.len() - pos >= 20
            invariant
                i <= n,
                8 <= pos <= buf@.len(),
                idx@.column == column@,
                idx@.dict_page == dict_page,
                idx@.entries + entries_of(buf@.skip(pos as int), (n - i) as nat) == entries_of(buf@.skip(8), n as nat),
            decreases n - i,
        {
            let ghost s = buf@.skip(pos as int);
            let ghost was = idx@.entries;
            proof {
                bytes::lemma_at_skip(buf@, pos as int, 0);
                bytes::lemma_at_skip(buf@, pos as int, 4);
                bytes::lemma_at_skip(buf@, pos as int, 12);
                bytes::lemma_at_skip(buf@, pos as int, 16);
            }
            let value_id: u32 = bytes::get_u32(buf, pos);
            let gen: u64 = bytes::get_u64(buf, pos + 4);
            let off: u32 = bytes::get_u32(buf, pos + 12);
            let stated: u32 = bytes::get_u32(buf, pos + 16);
            let room: usize = (buf.len() - pos - 20) / 8;
            let c: u32 = if stated as usize <= room {
                stated
            } else {
                room as u32
            };
            assert(c == row_count(s));
            let row_ids = bytes::get_u64s(buf, pos + 20, c);
            assert(s.skip(20) =~= buf@.skip(pos + 20));
            let entry = IndexEntry { value_id, off, gen, row_ids };
            let ghost m = entry@;
            let ghost had = idx.entries@;
            idx.entries.push(entry);
            proof {
                assert(idx@.entries =~= was.push(m));
                let next = pos + 20 + 8 * c;
                assert(s.skip(20 + 8 * c) =~= buf@.skip(next));
                let rest = entries_of(buf@.skip(next), (n - i - 1) as nat);
                assert(was.push(m) + rest =~= was + (seq![m] + rest));
            }
            pos = pos + 20 + 8 * (c as usize);
            i += 1;
        }
        assert(entries_of(buf@.skip(pos as int), (n - i) as nat) =~= Seq::empty());
        assert(idx@.entries + Seq::<EntryModel>::empty() =~= idx@.entries);
        idx
    }
}

fn push_rows(out: &mut Vec<u64>, rows: &Vec<u64>)
    ensures
        final(out)@ == old(out)@ + rows@,
{
    let mut k: usize = 0;
    assert(rows@.take(0) =~= Seq::empty());
    while k < rows.len()
        invariant
            k <= rows@.len(),
            out@ == old(out)@ + rows@.take(k as int),
        decreases rows@.len() - k,
    {
        out.push(rows[k]);
        k += 1;
        assert(out@ =~= old(out)@ + rows@.take(k as int));
    }
    assert(rows@.take(k as int) =~= rows@);
}

fn is_cached(page: &Page, off: u32, query: &[u8]) -> (r: bool)
    ensures
        r == (cached(page@.buf, off) == Some(query@)),
{
    let at: usize = off as usize;
    if at < 4 || at > page.buf.len() {
        return false;
    }
    let len: usize = bytes::get_u32(page.buf.as_slice(), at - 4) as usize;
    if len > page.buf.len() - at {
        return false;
    }
    bytes::bytes_eq(vstd::slice::slice_subrange(page.buf.as_slice(), at, at + len), query)
}

} // verus!
