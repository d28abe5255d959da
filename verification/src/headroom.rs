//! When inserting, splitting, merging, repacking and compacting get through.

use crate::body;
use crate::compact;
use crate::database;
use crate::fault::Fault;
use crate::integrity;
use crate::keymap;
use crate::mutation;
use crate::pager;
use crate::pager::{PageId, PageKind, SlotEntry};
use crate::residence;
use crate::rle;
use crate::schema;
use crate::schema::Encoding;
use crate::value::Value;
use vstd::prelude::*;

verus! {

/// A column of so many cells can be stored, however it is encoded.
pub open spec fn storable(n: nat) -> bool {
    4 + 13 * n <= u32::MAX
}

/// A data page that can be read.
pub open spec fn readable(p: pager::PageModel) -> bool {
    p.kind == PageKind::Data && p.buf.len() > 0
}

// Inserting

/// The first insert into a fresh database succeeds, for a row with a value for each
/// column of a schema whose row width can be stored.
pub proof fn lemma_first_insert(s: Seq<schema::ColumnModel>, values: Seq<Value>)
    requires
        0 < s.len() <= u32::MAX,
        values.len() == s.len(),
        mutation::space_for(s) <= u32::MAX,
    ensures
        mutation::inserted(database::empty_db(s), values).1 == Ok::<u64, Fault>(
            mutation::row_id_for(database::empty_db(s), values),
        ),
{
    let m = database::empty_db(s);
    residence::lemma_fresh(s);
    let a = mutation::id_taken(m, mutation::row_id_for(m, values));
    let pid = a.pager.next_id();
    assert(m.fsm.space.len() == 0);
    assert(m.fsm.page_with_space(mutation::space_for(s) as u32) is None);
    pager::lemma_alloc(a.pager, PageKind::Data, Seq::empty(), pid);
    let p = integrity::page_taken(m, values);
    assert(p == pager::fresh_page(pid, PageKind::Data, Seq::empty()));
    assert forall|i: int| 0 <= i < s.len() implies (#[trigger] mutation::body_in(p, m.schema)->Ok_0.regions[i]).data.len()
        + 17 <= u32::MAX by {
        assert(body::blank_body(s).regions[i] == body::blank_region(s[i].kind, s[i].encoding));
    }
    integrity::lemma_insert_fits(m, values);
}

// Lengths

proof fn lemma_raw_len(r: body::RegionModel, places: Seq<int>, fill: bool)
    requires
        forall|k: int| 0 <= k < places.len() ==> 0 <= #[trigger] places[k],
    ensures
        compact::raw_cells(r, places, fill).len() <= 8 * places.len(),
    decreases places.len(),
{
    if places.len() > 0 {
        let before = places.drop_last();
        assert forall|k: int| 0 <= k < before.len() implies 0 <= #[trigger] before[k] by {
            assert(before[k] == places[k]);
        }
        lemma_raw_len(r, before, fill);
        let i = places.last();
        assert(0 <= places[places.len() - 1]);
        let w = body::width(r.kind) as int;
        body::lemma_cell(Seq::empty(), r.kind, Value::Null, Seq::empty());
        assert(0 <= i * w && (i + 1) * w == i * w + w) by (nonlinear_arith)
            requires
                0 <= i,
                0 <= w,
        ;
        assert(compact::raw_cell(r, i, fill).len() <= 8);
    }
}

proof fn lemma_packed_len(v: Seq<Value>)
    ensures
        rle::packed(v).len() <= 4 + 13 * v.len(),
{
    rle::lemma_coalesced(rle::singles(v));
    rle::lemma_runs_len(rle::coalesced(rle::singles(v)));
}

proof fn lemma_picked_fits(num_rows: u32, r: Seq<body::RegionModel>, places: Seq<int>, fill: bool)
    requires
        r.len() <= u32::MAX,
        storable(places.len()),
        forall|k: int| 0 <= k < places.len() ==> 0 <= #[trigger] places[k],
    ensures
        body::body_fits((body::BodyModel { num_rows, regions: compact::all_picked(r, places, fill) })),
{
    let c = compact::all_picked(r, places, fill);
    assert forall|i: int| 0 <= i < c.len() implies (#[trigger] c[i]).data.len() <= u32::MAX by {
        lemma_raw_len(r[i], places, fill);
        lemma_packed_len(compact::cells(r[i], places));
    }
}

// One page

/// A data page whose slots can be stored is repacked.
pub proof fn lemma_repack_owed(m: database::DbModel, pid: PageId)
    requires
        residence::housed(m),
        m.pager.page(pid) is Some,
        m.pager.page(pid)->0.kind == PageKind::Data,
        storable(m.pager.page(pid)->0.dir().len()),
    ensures
        compact::repacked(m, pid) is Ok,
{
    let p = m.pager.page(pid)->0;
    assert(integrity::page_ok(m, pid));
    compact::lemma_live_places(p.dir());
    let places = compact::live_places(p.dir());
    if p.buf.len() > 0 {
        let b = body::body_of(p.buf)->Ok_0;
        lemma_picked_fits(places.len() as u32, b.regions, places, true);
        let blank = body::blank_body(m.schema);
        assert(body::body_fits(blank));
    }
}

/// A data page that can be read, and whose slots can be stored, is split where
/// there is a page id for the second half, or nothing to split.
pub proof fn lemma_split_owed(m: database::DbModel, pid: PageId)
    requires
        residence::housed(m),
        m.pager.page(pid) is Some,
        readable(m.pager.page(pid)->0),
        storable(m.pager.page(pid)->0.dir().len()),
        m.pager.has_room() || compact::live_slots(m.pager.page(pid)->0.dir()).len() < 4,
    ensures
        compact::halved(m, pid) is Ok,
{
    let p = m.pager.page(pid)->0;
    assert(integrity::page_ok(m, pid));
    compact::lemma_live_places(p.dir());
    let b = body::body_of(p.buf)->Ok_0;
    let live = compact::live_slots(p.dir());
    let mid = live.len() as int / 2;
    let left = live.subrange(0, mid);
    let right = live.subrange(mid, live.len() as int);
    lemma_picked_fits(left.len() as u32, b.regions, compact::offs(left), false);
    lemma_picked_fits(right.len() as u32, b.regions, compact::offs(right), false);
}

/// A data page that can be read is merged into the first other data page, where
/// that one can be read too and the slots of both can be stored. Without another
/// data page there is nothing to do.
pub proof fn lemma_merge_owed(m: database::DbModel, pid: PageId)
    requires
        residence::housed(m),
        m.pager.page(pid) is Some,
        readable(m.pager.page(pid)->0),
        compact::neighbor(m.pager.data_ids(), pid) matches Some(n) ==> readable(m.pager.page(n)->0) && storable(
            m.pager.page(pid)->0.dir().len() + m.pager.page(n)->0.dir().len(),
        ),
    ensures
        compact::merged(m, pid) is Ok,
{
    let p = m.pager.page(pid)->0;
    assert(integrity::page_ok(m, pid));
    compact::lemma_live_places(p.dir());
    residence::lemma_neighbor(m.pager.data_ids(), pid);
    residence::lemma_ids_of_kind(m.pager, PageKind::Data, m.pager.pages.len());
    if let Some(n) = compact::neighbor(m.pager.data_ids(), pid) {
        let ids = m.pager.data_ids();
        assert(m.pager.page(ids[ids.index_of(n)]) is Some);
        assert(integrity::page_ok(m, n));
        let q = m.pager.page(n)->0;
        let b = body::body_of(p.buf)->Ok_0;
        let t = body::body_of(q.buf)->Ok_0;
        let live = compact::live_slots(p.dir());
        let places = compact::offs(live);
        let c = compact::all_extended(t.regions, b.regions, places);
        assert forall|i: int| 0 <= i < c.len() implies (#[trigger] c[i]).data.len() <= u32::MAX by {
            assert(integrity::region_ok(t.regions[i], m.schema[i], q.dir().len()));
            assert(integrity::region_ok(b.regions[i], m.schema[i], p.dir().len()));
            lemma_raw_len(b.regions[i], places, false);
            lemma_packed_len(rle::values_of(t.regions[i].data) + compact::cells(b.regions[i], places));
            let w = body::width(t.regions[i].kind) as int;
            let len = t.regions[i].data.len() as int;
            if t.regions[i].encoding != Encoding::Rle {
                assert(len <= 8 * (len / w)) by (nonlinear_arith)
                    requires
                        len % w == 0,
                        0 < w <= 8,
                        0 <= len,
                ;
            }
        }
        assert forall|i: int|
            0 <= i < t.regions.len() && i < b.regions.len() && (#[trigger] b.regions[i]).encoding == Encoding::Rle implies rle::values_of(
            t.regions[i].data,
        ).len() + live.len() <= u32::MAX by {
            assert(integrity::region_ok(t.regions[i], m.schema[i], q.dir().len()));
            assert(integrity::region_ok(b.regions[i], m.schema[i], p.dir().len()));
        }
    }
}

// Every page

/// The slots of a page that count: those of a data page.
pub open spec fn weight(p: pager::PageModel) -> nat {
    if p.kind == PageKind::Data {
        p.dir().len()
    } else {
        0
    }
}

/// The slots of all data pages together.
pub open spec fn slots_in(s: Seq<(u64, pager::PageModel)>) -> nat
    decreases s.len(),
{
    if s.len() == 0 {
        0
    } else {
        slots_in(s.drop_last()) + weight(s.last().1)
    }
}

proof fn lemma_slots_remove(s: Seq<(u64, pager::PageModel)>, i: int)
    requires
        0 <= i < s.len(),
    ensures
        slots_in(s) == slots_in(s.remove(i)) + weight(s[i].1),
    decreases s.len(),
{
    let d = s.drop_last();
    if i == s.len() - 1 {
        assert(s.remove(i) =~= d);
    } else {
        lemma_slots_remove(d, i);
        assert(s.remove(i).drop_last() =~= d.remove(i));
        assert(s.remove(i).last() == s.last());
    }
}

/// A page put under an id takes the place of the one that was there.
proof fn lemma_slots_put(s: Seq<(u64, pager::PageModel)>, k: u64, p: pager::PageModel)
    requires
        keymap::ascending(s),
    ensures
        slots_in(keymap::put(s, k, p)) == slots_in(keymap::cut(s, k)) + weight(p),
        slots_in(s) == slots_in(keymap::cut(s, k)) + (match keymap::find(s, k) {
            Some(o) => weight(o),
            None => 0,
        }),
{
    keymap::lemma_rank(s, k);
    let r = keymap::rank(s, k);
    let t = keymap::put(s, k, p);
    lemma_slots_remove(t, r);
    assert(t.remove(r) =~= keymap::cut(s, k));
    if keymap::held(s, k) {
        lemma_slots_remove(s, r);
    }
}

/// How many page ids can still be handed out.
pub open spec fn ids_left(p: pager::PagerModel) -> int {
    p.free_ids.len() + (u32::MAX - p.high_water)
}

/// A page, where it is a data page, can be read.
pub open spec fn reads(m: database::DbModel, id: PageId) -> bool {
    m.pager.page(id) matches Some(p) ==> p.kind == PageKind::Data ==> p.buf.len() > 0
}

/// A database that can be compacted: the slots of all its data pages could stand
/// in one page, each can be read, and there are `k` page ids left.
pub open spec fn roomy(m: database::DbModel, k: nat) -> bool {
    &&& storable(slots_in(m.pager.pages))
    &&& forall|id: PageId| #[trigger] reads(m, id)
    &&& k <= ids_left(m.pager)
}

/// A data page's slots are among all of them.
proof fn lemma_among(m: pager::PagerModel, id: PageId)
    requires
        m.wf(),
        m.page(id) is Some,
    ensures
        weight(m.page(id)->0) <= slots_in(m.pages),
{
    lemma_slots_put(m.pages, id as u64, m.page(id)->0);
}

/// So are those of two.
proof fn lemma_both_among(m: pager::PagerModel, a: PageId, b: PageId)
    requires
        m.wf(),
        a != b,
        m.page(a) is Some,
        m.page(b) is Some,
    ensures
        weight(m.page(a)->0) + weight(m.page(b)->0) <= slots_in(m.pages),
{
    lemma_slots_put(m.pages, a as u64, m.page(a)->0);
    keymap::lemma_cut(m.pages, a as u64, b as u64);
    lemma_slots_put(keymap::cut(m.pages, a as u64), b as u64, m.page(b)->0);
}

/// A page written anew with no more slots leaves room.
proof fn lemma_set_roomy(m: database::DbModel, d: database::DbModel, pid: PageId, b: body::BodyModel, slots: Seq<SlotEntry>, k: nat)
    requires
        m.pager.wf(),
        m.pager.page(pid) is Some,
        d.pager == compact::page_set(m, pid, b, slots).pager,
        m.pager.page(pid)->0.kind == PageKind::Data,
        forall|id: PageId| id != pid ==> #[trigger] reads(m, id),
        k <= ids_left(m.pager),
    ensures
        slots_in(d.pager.pages) + m.pager.page(pid)->0.dir().len() == slots_in(m.pager.pages) + slots.len(),
        forall|id: PageId| #[trigger] reads(d, id),
        k <= ids_left(d.pager),
        d.pager.page(pid) == Some(m.pager.page(pid)->0.rewritten(body::body_bytes(b), slots)),
        forall|id: PageId| id != pid ==> #[trigger] d.pager.page(id) == m.pager.page(id),
        d.pager.wf(),
{
    let p = m.pager.page(pid)->0;
    let q = p.rewritten(body::body_bytes(b), slots);
    lemma_slots_put(m.pager.pages, pid as u64, q);
    crate::bytes::lemma_le32_len(b.num_rows);
    assert(body::body_bytes(b).len() > 0);
    integrity::lemma_page_id(m.pager, pid);
    residence::lemma_swapped(m.pager, pid, q);
    assert forall|id: PageId| #[trigger] reads(d, id) by {
        if id != pid {
            assert(reads(m, id));
            assert(d.pager.page(id) == m.pager.page(id));
        }
    }
}

/// Repacking leaves room.
proof fn lemma_repack_roomy(m: database::DbModel, pid: PageId, k: nat)
    requires
        residence::housed(m),
        roomy(m, k),
        m.pager.page(pid) is Some,
        m.pager.page(pid)->0.kind == PageKind::Data,
    ensures
        compact::repacked(m, pid) is Ok,
        roomy(compact::repacked(m, pid)->Ok_0, k),
{
    let p = m.pager.page(pid)->0;
    let d = compact::repacked(m, pid)->Ok_0;
    lemma_among(m.pager, pid);
    lemma_repack_owed(m, pid);
    compact::lemma_live_places(p.dir());
    let places = compact::live_places(p.dir());
    if p.buf.len() > 0 {
        let b = body::body_of(p.buf)->Ok_0;
        if places.len() == 0 {
            lemma_set_roomy(m, d, pid, body::blank_body(m.schema), Seq::empty(), k);
        } else {
            let c = body::BodyModel { num_rows: places.len() as u32, regions: compact::all_picked(b.regions, places, true) };
            lemma_set_roomy(m, d, pid, c, compact::renumbered(compact::live_slots(p.dir()), 0), k);
        }
    }
}

/// Splitting leaves room, with one page id fewer.
#[verifier::spinoff_prover]
#[verifier::rlimit(40)]
proof fn lemma_split_roomy(m: database::DbModel, pid: PageId, k: nat)
    requires
        residence::housed(m),
        roomy(m, k),
        k > 0,
        m.pager.page(pid) is Some,
        m.pager.page(pid)->0.kind == PageKind::Data,
    ensures
        compact::halved(m, pid) is Ok,
        roomy(compact::halved(m, pid)->Ok_0, (k - 1) as nat),
{
    let p = m.pager.page(pid)->0;
    assert(reads(m, pid));
    lemma_among(m.pager, pid);
    lemma_split_owed(m, pid);
    compact::lemma_live_places(p.dir());
    let live = compact::live_slots(p.dir());
    if live.len() >= 4 {
        let d = compact::halved(m, pid)->Ok_0;
        let w = body::body_of(p.buf)->Ok_0;
        let mid = live.len() as int / 2;
        let left = live.subrange(0, mid);
        let right = live.subrange(mid, live.len() as int);
        let lb = body::BodyModel { num_rows: left.len() as u32, regions: compact::all_picked(w.regions, compact::offs(left), false) };
        let rb = body::BodyModel {
            num_rows: right.len() as u32,
            regions: compact::all_picked(w.regions, compact::offs(right), false),
        };
        let ls = compact::renumbered(left, 0);
        let rs = compact::renumbered(right, 0);
        let new_pid = m.pager.next_id();
        let a = database::DbModel { pager: m.pager.allocated(PageKind::Data, Seq::empty()), ..m };
        pager::lemma_alloc(m.pager, PageKind::Data, Seq::empty(), pid);
        lemma_slots_put(m.pager.pages, new_pid as u64, pager::fresh_page(new_pid, PageKind::Data, Seq::empty()));
        assert forall|id: PageId| id != new_pid implies #[trigger] reads(a, id) by {
            pager::lemma_alloc(m.pager, PageKind::Data, Seq::empty(), id);
            assert(reads(m, id));
        }
        let b = compact::page_set(a, new_pid, rb, rs);
        lemma_set_roomy(a, b, new_pid, rb, rs, (k - 1) as nat);
        assert(b.pager.page(pid) == a.pager.page(pid));
        lemma_set_roomy(b, d, pid, lb, ls, (k - 1) as nat);
    }
}

/// Merging leaves room.
#[verifier::spinoff_prover]
#[verifier::rlimit(40)]
proof fn lemma_merge_roomy(m: database::DbModel, pid: PageId, k: nat)
    requires
        residence::housed(m),
        roomy(m, k),
        m.pager.page(pid) is Some,
        m.pager.page(pid)->0.kind == PageKind::Data,
    ensures
        compact::merged(m, pid) is Ok,
        roomy(compact::merged(m, pid)->Ok_0, k),
{
    let p = m.pager.page(pid)->0;
    assert(reads(m, pid));
    let ids = m.pager.data_ids();
    residence::lemma_neighbor(ids, pid);
    residence::lemma_ids_of_kind(m.pager, PageKind::Data, m.pager.pages.len());
    match compact::neighbor(ids, pid) {
        None => {
            lemma_merge_owed(m, pid);
        },
        Some(n) => {
            assert(m.pager.page(ids[ids.index_of(n)]) is Some);
            assert(reads(m, n));
            lemma_both_among(m.pager, pid, n);
            lemma_merge_owed(m, pid);
            let q = m.pager.page(n)->0;
            let b = body::body_of(p.buf)->Ok_0;
            let t = body::body_of(q.buf)->Ok_0;
            let live = compact::live_slots(p.dir());
            compact::lemma_live_places(p.dir());
            let start = q.dir().len();
            let moved = compact::renumbered(live, start);
            let c = body::BodyModel {
                num_rows: (start + live.len()) as u32,
                regions: compact::all_extended(t.regions, b.regions, compact::offs(live)),
            };
            let d = compact::merged(m, pid)->Ok_0;
            let a = compact::page_set(m, n, c, q.dir() + moved);
            lemma_set_roomy(m, a, n, c, q.dir() + moved, k);
            assert(a.pager.page(pid) == m.pager.page(pid));
            lemma_slots_put(a.pager.pages, pid as u64, p);
            assert(d.pager == a.pager.freed(pid));
            assert forall|id: PageId| #[trigger] reads(d, id) by {
                assert(reads(a, id));
                keymap::lemma_cut(a.pager.pages, pid as u64, id as u64);
            }
        },
    }
}

/// Compaction works on a page of a roomy database, and leaves room.
proof fn lemma_step_roomy(m: database::DbModel, pid: PageId, k: nat)
    requires
        residence::housed(m),
        residence::data_or_gone(m, pid),
        roomy(m, k),
        k > 0,
    ensures
        compact::compact_step(m, pid).2 is None,
        roomy(compact::compact_step(m, pid).0, (k - 1) as nat),
{
    if m.pager.page(pid) is Some {
        lemma_repack_roomy(m, pid, k);
        lemma_split_roomy(m, pid, k);
        lemma_merge_roomy(m, pid, k);
    }
}

/// A compaction pass over data pages of a roomy database gets through.
pub proof fn lemma_pass_owed(m: database::DbModel, ids: Seq<PageId>, k: nat)
    requires
        residence::housed(m),
        roomy(m, k),
        ids.len() <= k,
        forall|i: int| 0 <= i < ids.len() ==> residence::data_or_gone(m, #[trigger] ids[i]),
    ensures
        compact::compacted(m, ids).2 is None,
        roomy(compact::compacted(m, ids).0, (k - ids.len()) as nat),
    decreases ids.len(),
{
    if ids.len() > 0 {
        let before = ids.drop_last();
        assert forall|i: int| 0 <= i < before.len() implies residence::data_or_gone(m, #[trigger] before[i]) by {
            assert(before[i] == ids[i]);
        }
        lemma_pass_owed(m, before, k);
        residence::lemma_compacted(m, before);
        let a = compact::compacted(m, before).0;
        assert(residence::data_or_gone(m, ids[ids.len() - 1]));
        assert(residence::data_or_gone(a, ids.last()));
        lemma_step_roomy(a, ids.last(), (k - before.len()) as nat);
    }
}

/// A full compaction gets through where every data page can be read, the slots of
/// all of them could stand in one page, and there is a page id left for each.
pub proof fn lemma_compact_owed(m: database::DbModel)
    requires
        residence::housed(m),
        roomy(m, m.pager.data_ids().len()),
    ensures
        ({
            let a = compact::compaction_counted(m);
            compact::compacted(a, a.pager.data_ids()).2 is None
        }),
{
    let a = compact::compaction_counted(m);
    let ids = a.pager.data_ids();
    residence::lemma_counted(m, a);
    residence::lemma_ids_of_kind(a.pager, PageKind::Data, a.pager.pages.len());
    assert forall|i: int| 0 <= i < ids.len() implies residence::data_or_gone(a, #[trigger] ids[i]) by {
        assert(a.pager.page(ids[i]) is Some);
    }
    assert forall|id: PageId| #[trigger] reads(a, id) by {
        assert(reads(m, id));
    }
    lemma_pass_owed(a, ids, ids.len());
}

} // verus!
