//! Compaction: page split, underfull-page merge, and in-place RLE repack.
//!
//! Compaction reclaims space. Three operations live here:
//!
//! - [`repack`] removes tombstoned slots from a data page, compacting the live
//!   rows to the front and rebuilding the page's slot directory over only the
//!   live rows. For RLE columns it also coalesces the surviving runs.
//! - [`split`] divides an overfull page into two.
//! - [`merge`] folds an underfull page into a neighbor and frees the emptied
//!   page.
//!
//! [`compact`] walks the data pages and applies whichever operation each page
//! needs. Every operation leaves the row-id map naming where each live row is.

use crate::body;
use crate::body::{ColumnRegion, DataPageBody};
use crate::bytes;
use crate::database;
use crate::database::Database;
use crate::error::{DecodeError, Result};
use crate::fault;
use crate::fault::Fault;
use crate::fsm;
use crate::keymap;
use crate::mutation;
use crate::pager;
use crate::pager::{PageId, PageKind, SlotEntry};
use crate::rle;
use crate::rowid;
use crate::rowid::Home;
use crate::schema::Encoding;
use crate::value::Value;
use vstd::prelude::*;

verus! {

/// A page is considered overfull above this many bytes of body data.
pub const SPLIT_THRESHOLD: usize = 512;

/// A page is considered underfull below this many live rows.
pub const MERGE_THRESHOLD: usize = 2;

// Slots

/// The places of the live slots.
pub open spec fn live_places(s: Seq<SlotEntry>) -> Seq<int>
    decreases s.len(),
{
    if s.len() == 0 {
        Seq::empty()
    } else {
        let before = live_places(s.drop_last());
        if s.last().live {
            before.push(s.len() - 1)
        } else {
            before
        }
    }
}

/// The live slots.
pub open spec fn live_slots(s: Seq<SlotEntry>) -> Seq<SlotEntry> {
    Seq::new(live_places(s).len(), |k: int| s[live_places(s)[k]])
}

/// The places in the columns that slots name.
pub open spec fn offs(s: Seq<SlotEntry>) -> Seq<int> {
    Seq::new(s.len(), |k: int| s[k].off as int)
}

/// Slots numbered from a place on, all live.
pub open spec fn renumbered(s: Seq<SlotEntry>, start: nat) -> Seq<SlotEntry> {
    Seq::new(
        s.len(),
        |k: int| SlotEntry { row_id: s[k].row_id, off: (start + k) as u32, len: s[k].len, live: true },
    )
}

/// The rows of slots.
pub open spec fn rows_in(s: Seq<SlotEntry>) -> Seq<u64> {
    Seq::new(s.len(), |k: int| s[k].row_id)
}

/// A row-id map with the rows of slots at home in a page, from a slot on.
pub open spec fn rehomed(r: Seq<(u64, Home)>, s: Seq<SlotEntry>, page: PageId, start: nat) -> Seq<(u64, Home)>
    decreases s.len(),
{
    if s.len() == 0 {
        r
    } else {
        rowid::relocated(
            rehomed(r, s.drop_last(), page, start),
            s.last().row_id,
            Home { page, slot: (start + s.len() - 1) as u32 },
        )
    }
}

pub open spec fn ints(v: Seq<usize>) -> Seq<int> {
    Seq::new(v.len(), |k: int| v[k] as int)
}

pub proof fn lemma_live_places(s: Seq<SlotEntry>)
    ensures
        live_places(s).len() <= s.len(),
        forall|k: int|
            0 <= k < live_places(s).len() ==> 0 <= #[trigger] live_places(s)[k] < s.len() && s[live_places(s)[k]].live,
        forall|a: int, b: int| 0 <= a < b < live_places(s).len() ==> live_places(s)[a] < live_places(s)[b],
    decreases s.len(),
{
    if s.len() > 0 {
        let d = s.drop_last();
        lemma_live_places(d);
        let p = live_places(s);
        let q = live_places(d);
        assert forall|k: int| 0 <= k < p.len() implies 0 <= #[trigger] p[k] < s.len() && s[p[k]].live by {
            if k < q.len() {
                assert(p[k] == q[k]);
                assert(d[q[k]] == s[q[k]]);
            }
        }
        assert forall|a: int, b: int| 0 <= a < b < p.len() implies p[a] < p[b] by {
            assert(p[a] == q[a]);
            if b < q.len() {
                assert(p[b] == q[b]);
            }
        }
    }
}

/// Every live slot is among the live places.
pub proof fn lemma_live_found(s: Seq<SlotEntry>, i: int) -> (k: int)
    requires
        0 <= i < s.len(),
        s[i].live,
    ensures
        0 <= k < live_places(s).len(),
        live_places(s)[k] == i,
    decreases s.len(),
{
    let d = s.drop_last();
    if i < d.len() {
        assert(d[i] == s[i]);
        lemma_live_found(d, i)
    } else {
        live_places(s).len() - 1
    }
}

fn find_live(slots: &Vec<SlotEntry>) -> (r: Vec<usize>)
    ensures
        ints(r@) == live_places(slots@),
{
    let mut out: Vec<usize> = Vec::new();
    let mut i: usize = 0;
    assert(slots@.take(0) =~= Seq::empty());
    assert(ints(out@) =~= Seq::empty());
    while i < slots.len()
        invariant
            i <= slots@.len(),
            ints(out@) == live_places(slots@.take(i as int)),
        decreases slots@.len() - i,
    {
        assert(slots@.take(i + 1).drop_last() =~= slots@.take(i as int));
        let ghost was = out@;
        if slots[i].live {
            out.push(i);
            assert(ints(out@) =~= ints(was).push(i as int));
        }
        i += 1;
    }
    assert(slots@.take(i as int) =~= slots@);
    out
}

fn keep_live(slots: &Vec<SlotEntry>) -> (r: Vec<SlotEntry>)
    ensures
        r@ == live_slots(slots@),
{
    let places = find_live(slots);
    let mut out: Vec<SlotEntry> = Vec::new();
    let mut k: usize = 0;
    while k < places.len()
        invariant
            k <= places@.len(),
            ints(places@) == live_places(slots@),
            out@ == live_slots(slots@).take(k as int),
        decreases places@.len() - k,
    {
        proof {
            lemma_live_places(slots@);
            assert(live_places(slots@)[k as int] == places@[k as int]);
        }
        out.push(slots[places[k]]);
        k += 1;
        assert(out@ =~= live_slots(slots@).take(k as int));
    }
    assert(out@ =~= live_slots(slots@));
    out
}

fn off_places(slots: &Vec<SlotEntry>, from: usize, to: usize) -> (r: Vec<usize>)
    requires
        from <= to <= slots@.len(),
    ensures
        ints(r@) == offs(slots@.subrange(from as int, to as int)),
{
    let mut out: Vec<usize> = Vec::new();
    let mut k: usize = from;
    while k < to
        invariant
            from <= k <= to <= slots@.len(),
            out@.len() == k - from,
            forall|j: int| 0 <= j < k - from ==> (#[trigger] out@[j]) as int == slots@[from + j].off,
        decreases to - k,
    {
        out.push(slots[k].off as usize);
        k += 1;
    }
    assert(ints(out@) =~= offs(slots@.subrange(from as int, to as int)));
    out
}

fn renumber(slots: &Vec<SlotEntry>, from: usize, to: usize, start: u32) -> (r: Vec<SlotEntry>)
    requires
        from <= to <= slots@.len(),
        start + (to - from) <= u32::MAX,
    ensures
        r@ == renumbered(slots@.subrange(from as int, to as int), start as nat),
{
    let mut out: Vec<SlotEntry> = Vec::new();
    let mut k: usize = from;
    let ghost s = slots@.subrange(from as int, to as int);
    while k < to
        invariant
            from <= k <= to <= slots@.len(),
            start + (to - from) <= u32::MAX,
            s == slots@.subrange(from as int, to as int),
            out@ == renumbered(s, start as nat).take(k - from),
        decreases to - k,
    {
        let e: SlotEntry = slots[k];
        out.push(SlotEntry { row_id: e.row_id, off: start + (k - from) as u32, len: e.len, live: true });
        k += 1;
        assert(out@ =~= renumbered(s, start as nat).take(k - from));
    }
    assert(out@ =~= renumbered(s, start as nat));
    out
}

fn list_rows(slots: &Vec<SlotEntry>) -> (r: Vec<u64>)
    ensures
        r@ == rows_in(slots@),
{
    let mut out: Vec<u64> = Vec::new();
    let mut k: usize = 0;
    while k < slots.len()
        invariant
            k <= slots@.len(),
            out@ == rows_in(slots@.take(k as int)),
        decreases slots@.len() - k,
    {
        out.push(slots[k].row_id);
        k += 1;
        assert(out@ =~= rows_in(slots@.take(k as int)));
    }
    assert(slots@.take(k as int) =~= slots@);
    out
}

fn rehome(db: &mut Database, slots: &Vec<SlotEntry>, page: PageId, start: u32)
    requires
        old(db).wf(),
        start + slots@.len() <= u32::MAX,
    ensures
        final(db).wf(),
        final(db)@ == (database::DbModel {
            rows: rehomed(old(db)@.rows, slots@, page, start as nat),
            ..old(db)@
        }),
{
    let ghost m = db@;
    let mut k: usize = 0;
    assert(slots@.take(0) =~= Seq::empty());
    while k < slots.len()
        invariant
            k <= slots@.len(),
            start + slots@.len() <= u32::MAX,
            db.wf(),
            db@ == (database::DbModel { rows: rehomed(m.rows, slots@.take(k as int), page, start as nat), ..m }),
        decreases slots@.len() - k,
    {
        assert(slots@.take(k + 1).drop_last() =~= slots@.take(k as int));
        db.rowid_map.relocate(slots[k].row_id, page, start + k as u32);
        k += 1;
        assert(db@ =~= (database::DbModel {
            rows: rehomed(m.rows, slots@.take(k as int), page, start as nat),
            ..m
        }));
    }
    assert(slots@.take(k as int) =~= slots@);
}

// Regions

/// The bytes of a cell; of a null where there is no such cell and gaps are
/// filled, and none where they are not.
pub open spec fn raw_cell(r: body::RegionModel, i: int, fill: bool) -> Seq<u8> {
    let w = body::width(r.kind) as int;
    if (i + 1) * w <= r.data.len() {
        r.data.subrange(i * w, i * w + w)
    } else if fill {
        body::cell_bytes(r.kind, Value::Null)
    } else {
        Seq::empty()
    }
}

/// The bytes of cells, one after another.
pub open spec fn raw_cells(r: body::RegionModel, places: Seq<int>, fill: bool) -> Seq<u8>
    decreases places.len(),
{
    if places.len() == 0 {
        Seq::empty()
    } else {
        raw_cells(r, places.drop_last(), fill) + raw_cell(r, places.last(), fill)
    }
}

/// The values of cells.
pub open spec fn cells(r: body::RegionModel, places: Seq<int>) -> Seq<Value> {
    Seq::new(places.len(), |k: int| body::cell_at(r, places[k]))
}

/// A region of picked cells.
pub open spec fn picked(r: body::RegionModel, places: Seq<int>, fill: bool) -> body::RegionModel {
    body::RegionModel {
        data: if r.encoding == Encoding::Rle {
            rle::packed(cells(r, places))
        } else {
            raw_cells(r, places, fill)
        },
        ..r
    }
}

/// Regions of picked cells.
pub open spec fn all_picked(r: Seq<body::RegionModel>, places: Seq<int>, fill: bool) -> Seq<body::RegionModel> {
    Seq::new(r.len(), |i: int| picked(r[i], places, fill))
}

/// The region `t` with picked cells of `r` at its end.
pub open spec fn extended(t: body::RegionModel, r: body::RegionModel, places: Seq<int>) -> body::RegionModel {
    body::RegionModel {
        data: if r.encoding == Encoding::Rle {
            rle::packed(rle::values_of(t.data) + cells(r, places))
        } else {
            t.data + raw_cells(r, places, false)
        },
        ..t
    }
}

/// Regions with picked cells of others at their ends.
pub open spec fn all_extended(t: Seq<body::RegionModel>, r: Seq<body::RegionModel>, places: Seq<int>) -> Seq<
    body::RegionModel,
> {
    Seq::new(
        t.len(),
        |i: int|
            if i < r.len() {
                extended(t[i], r[i], places)
            } else {
                t[i]
            },
    )
}

fn put_raw_cells(out: &mut Vec<u8>, region: &ColumnRegion, places: &Vec<usize>, fill: bool)
    ensures
        final(out)@ == old(out)@ + raw_cells(region@, ints(places@), fill),
{
    let w: usize = body::cell_width(region.kind);
    let n: usize = region.data.len();
    let ghost p = ints(places@);
    let mut k: usize = 0;
    assert(p.take(0) =~= Seq::empty());
    assert(out@ =~= old(out)@ + raw_cells(region@, p.take(0), fill));
    while k < places.len()
        invariant
            k <= places@.len(),
            p == ints(places@),
            w == body::width(region.kind),
            n == region.data@.len(),
            out@ == old(out)@ + raw_cells(region@, p.take(k as int), fill),
        decreases places@.len() - k,
    {
        let i: usize = places[k];
        let ghost was = out@;
        proof {
            assert(p[k as int] == i);
            assert(p.take(k + 1).drop_last() =~= p.take(k as int));
            let a = i as int;
            let b = w as int;
            let c = n as int;
            assert((a >= c / b ==> (a + 1) * b > c) && (a < c / b ==> (a + 1) * b <= c && a * b + b == (a + 1) * b && a
                * b >= 0)) by (nonlinear_arith)
                requires
                    a >= 0,
                    b > 0,
                    c >= 0,
            ;
        }
        if i < n / w {
            let off: usize = i * w;
            bytes::put_bytes(out, vstd::slice::slice_subrange(region.data.as_slice(), off, off + w));
        } else if fill {
            let cell = body::encode_cell(region.kind, &Value::Null);
            bytes::put_bytes(out, cell.as_slice());
        }
        assert(out@ =~= was + raw_cell(region@, i as int, fill));
        assert(out@ =~= old(out)@ + raw_cells(region@, p.take(k + 1), fill));
        k += 1;
    }
    assert(p.take(k as int) =~= p);
}

/// The values of cells of a run-length encoded region.
fn run_cells(out: &mut Vec<Value>, region: &ColumnRegion, places: &Vec<usize>)
    requires
        region.encoding == Encoding::Rle,
    ensures
        final(out)@ == old(out)@ + cells(region@, ints(places@)),
{
    let flat = rle::unpack(region.data.as_slice());
    let ghost p = ints(places@);
    let mut k: usize = 0;
    assert(out@ =~= old(out)@ + cells(region@, p.take(0)));
    while k < places.len()
        invariant
            k <= places@.len(),
            p == ints(places@),
            region.encoding == Encoding::Rle,
            flat@ == rle::values_of(region@.data),
            out@ == old(out)@ + cells(region@, p.take(k as int)),
        decreases places@.len() - k,
    {
        let i: usize = places[k];
        assert(p[k as int] == i);
        let v: Value = if i < flat.len() {
            flat[i]
        } else {
            Value::Null
        };
        out.push(v);
        k += 1;
        assert(out@ =~= old(out)@ + cells(region@, p.take(k as int)));
    }
    assert(p.take(k as int) =~= p);
}

fn pick(region: &ColumnRegion, places: &Vec<usize>, fill: bool) -> (r: ColumnRegion)
    requires
        places@.len() <= u32::MAX,
    ensures
        r@ == picked(region@, ints(places@), fill),
{
    let mut out = ColumnRegion::new(region.kind, region.encoding);
    match region.encoding {
        Encoding::Plain | Encoding::Dictionary => {
            put_raw_cells(&mut out.data, region, places, fill);
            assert(out.data@ =~= raw_cells(region@, ints(places@), fill));
        },
        Encoding::Rle => {
            let mut kept: Vec<Value> = Vec::new();
            run_cells(&mut kept, region, places);
            assert(kept@ =~= cells(region@, ints(places@)));
            out.data = rle::pack(&kept);
        },
    }
    out
}

fn pick_all(regions: &Vec<ColumnRegion>, places: &Vec<usize>, fill: bool) -> (r: Vec<ColumnRegion>)
    requires
        places@.len() <= u32::MAX,
    ensures
        body::region_models(r@) == all_picked(body::region_models(regions@), ints(places@), fill),
{
    let mut out: Vec<ColumnRegion> = Vec::new();
    let mut i: usize = 0;
    while i < regions.len()
        invariant
            i <= regions@.len(),
            places@.len() <= u32::MAX,
            out@.len() == i,
            forall|j: int| 0 <= j < i ==> (#[trigger] out@[j])@ == picked(regions@[j]@, ints(places@), fill),
        decreases regions@.len() - i,
    {
        out.push(pick(&regions[i], places, fill));
        i += 1;
    }
    assert(body::region_models(out@) =~= all_picked(body::region_models(regions@), ints(places@), fill));
    out
}

// Repack

/// A database with a page's contents, and its free space, set anew.
pub open spec fn page_set(m: database::DbModel, pid: PageId, b: body::BodyModel, slots: Seq<SlotEntry>) -> database::DbModel {
    database::DbModel {
        pager: m.pager.with_page(pid, m.pager.page(pid)->0.rewritten(body::body_bytes(b), slots)),
        fsm: fsm::FsmModel { space: keymap::put(m.fsm.space, pid as u64, 256), ..m.fsm },
        ..m
    }
}

fn set_page(db: &mut Database, pid: PageId, b: &DataPageBody, slots: Vec<SlotEntry>)
    requires
        old(db).wf(),
        old(db)@.pager.page(pid) is Some,
        body::body_fits(b@),
    ensures
        final(db).wf(),
        final(db)@ == page_set(old(db)@, pid, b@, slots@),
{
    let ghost m = db@;
    let ghost s = slots@;
    let _ = db.pager.rewrite(pid, body::encode_body(b), slots);
    db.fsm.set_space(pid, mutation::PAGE_DATA_CAPACITY as u32);
    assert(db@ =~= page_set(m, pid, b@, s));
}

/// A database with a page's tombstones gone, or why it cannot be.
pub open spec fn repacked(m: database::DbModel, pid: PageId) -> std::result::Result<database::DbModel, Fault> {
    match m.pager.page(pid) {
        None => Err(Fault::Vanished),
        Some(p) => if p.buf.len() == 0 {
            Ok(m)
        } else {
            match body::body_of(p.buf) {
                Err(e) => Err(Fault::Decode(e)),
                Ok(b) => {
                    let places = live_places(p.dir());
                    if places.len() == 0 {
                        let blank = body::blank_body(m.schema);
                        if body::body_fits(blank) {
                            let a = page_set(m, pid, blank, Seq::empty());
                            Ok(database::DbModel { page_rows: keymap::cut(a.page_rows, pid as u64), ..a })
                        } else {
                            Err(Fault::Decode(DecodeError::Oversized))
                        }
                    } else {
                        let c = body::BodyModel {
                            num_rows: places.len() as u32,
                            regions: all_picked(b.regions, places, true),
                        };
                        let slots = renumbered(live_slots(p.dir()), 0);
                        if places.len() <= u32::MAX && body::body_fits(c) {
                            let a = page_set(m, pid, c, slots);
                            Ok(
                                database::DbModel {
                                    page_rows: keymap::put(a.page_rows, pid as u64, rows_in(slots)),
                                    rows: rehomed(a.rows, slots, pid, 0),
                                    ..a
                                },
                            )
                        } else {
                            Err(Fault::Decode(DecodeError::Oversized))
                        }
                    }
                },
            }
        },
    }
}

/// Remove tombstoned slots from a page, compacting live rows to the front and
/// rebuilding the slot directory over only the live rows. The row-id map is
/// updated for the moved rows.
pub fn repack(db: &mut Database, pid: PageId) -> (r: Result<()>)
    requires
        old(db).wf(),
    ensures
        final(db).wf(),
        match repacked(old(db)@, pid) {
            Ok(m) => r is Ok && final(db)@ == m,
            Err(f) => final(db)@ == old(db)@ && (r matches Err(e) && fault::reports(e, f)),
        },
{
    let ghost m = db@;
    let (b, slots) = match db.pager.get(pid) {
        None => return Err(fault::vanished()),
        Some(page) => {
            if page.buf.len() == 0 {
                return Ok(());
            }
            let b = match body::decode_body(page.buf.as_slice()) {
                Ok(b) => b,
                Err(e) => return Err(e),
            };
            (b, page.slots())
        },
    };
    let places = find_live(&slots);
    assert(places@.len() == live_places(slots@).len());
    if places.len() == 0 {
        let blank = mutation::fresh_body(db);
        if !body::fits(&blank) {
            return Err(fault::oversized());
        }
        let none: Vec<SlotEntry> = Vec::new();
        assert(none@ =~= Seq::<SlotEntry>::empty());
        set_page(db, pid, &blank, none);
        let _ = db.page_rows.remove(pid as u64);
        assert(db@ =~= repacked(m, pid)->Ok_0);
        return Ok(());
    }
    if places.len() as u64 > 0xFFFF_FFFF {
        return Err(fault::oversized());
    }
    let regions = pick_all(&b.regions, &places, true);
    let c = DataPageBody { num_rows: places.len() as u32, regions };
    if !body::fits(&c) {
        return Err(fault::oversized());
    }
    let live = keep_live(&slots);
    assert(live@.subrange(0, live@.len() as int) =~= live@);
    let new_slots = renumber(&live, 0, live.len(), 0);
    let rows = list_rows(&new_slots);
    let copy = pager::copy_slots(&new_slots);
    set_page(db, pid, &c, copy);
    db.page_rows.insert(pid as u64, rows);
    rehome(db, &new_slots, pid, 0);
    assert(db@ =~= repacked(m, pid)->Ok_0);
    Ok(())
}

// Split

/// A database with half of a page's live rows on a new page, or why it cannot be.
pub open spec fn halved(m: database::DbModel, pid: PageId) -> std::result::Result<database::DbModel, Fault> {
    match m.pager.page(pid) {
        None => Err(Fault::Vanished),
        Some(p) => match body::body_of(p.buf) {
            Err(e) => Err(Fault::Decode(e)),
            Ok(b) => {
                let live = live_slots(p.dir());
                let mid = live.len() as int / 2;
                let left = live.subrange(0, mid);
                let right = live.subrange(mid, live.len() as int);
                let lb = body::BodyModel { num_rows: left.len() as u32, regions: all_picked(b.regions, offs(left), false) };
                let rb = body::BodyModel {
                    num_rows: right.len() as u32,
                    regions: all_picked(b.regions, offs(right), false),
                };
                if live.len() < 4 {
                    Ok(m)
                } else if live.len() > u32::MAX || !body::body_fits(lb) || !body::body_fits(rb) || !m.pager.has_room() {
                    Err(Fault::Decode(DecodeError::Oversized))
                } else {
                    Ok(halves(m, pid, lb, rb, renumbered(left, 0), renumbered(right, 0)))
                }
            },
        },
    }
}

/// A database with the two halves of a page in place.
pub open spec fn halves(
    m: database::DbModel,
    pid: PageId,
    lb: body::BodyModel,
    rb: body::BodyModel,
    ls: Seq<SlotEntry>,
    rs: Seq<SlotEntry>,
) -> database::DbModel {
    let new_pid = m.pager.next_id();
    let a = database::DbModel { pager: m.pager.allocated(PageKind::Data, Seq::empty()), ..m };
    let b = page_set(a, new_pid, rb, rs);
    let c = page_set(b, pid, lb, ls);
    database::DbModel {
        rows: rehomed(rehomed(c.rows, ls, pid, 0), rs, new_pid, 0),
        page_rows: keymap::put(
            keymap::put(c.page_rows, pid as u64, rows_in(ls)),
            new_pid as u64,
            rows_in(rs),
        ),
        ..c
    }
}

fn put_halves(
    db: &mut Database,
    pid: PageId,
    lb: &DataPageBody,
    rb: &DataPageBody,
    ls: Vec<SlotEntry>,
    rs: Vec<SlotEntry>,
)
    requires
        old(db).wf(),
        old(db)@.pager.page(pid) is Some,
        old(db)@.pager.has_room(),
        body::body_fits(lb@),
        body::body_fits(rb@),
        ls@.len() <= u32::MAX,
        rs@.len() <= u32::MAX,
    ensures
        final(db).wf(),
        final(db)@ == halves(old(db)@, pid, lb@, rb@, ls@, rs@),
{
    let ghost m = db@;
    let empty: Vec<u8> = Vec::new();
    assert(empty@ =~= Seq::<u8>::empty());
    proof {
        pager::lemma_alloc(m.pager, PageKind::Data, Seq::empty(), pid);
    }
    let new_pid: PageId = db.pager.allocate(PageKind::Data, empty);
    assert(db@ =~= (database::DbModel { pager: m.pager.allocated(PageKind::Data, Seq::empty()), ..m }));
    let ghost a = db@;
    proof {
        keymap::lemma_put(
            a.pager.pages,
            new_pid as u64,
            a.pager.page(new_pid)->0.rewritten(body::body_bytes(rb@), rs@),
            pid as u64,
        );
    }
    let right_rows = list_rows(&rs);
    let left_rows = list_rows(&ls);
    set_page(db, new_pid, rb, pager::copy_slots(&rs));
    set_page(db, pid, lb, pager::copy_slots(&ls));
    rehome(db, &ls, pid, 0);
    rehome(db, &rs, new_pid, 0);
    db.page_rows.insert(pid as u64, left_rows);
    db.page_rows.insert(new_pid as u64, right_rows);
    assert(db@ =~= halves(m, pid, lb@, rb@, ls@, rs@));
}

/// Split an overfull page into two, moving roughly half the live rows to a new
/// page. The row-id map is updated for the moved rows.
pub fn split(db: &mut Database, pid: PageId) -> (r: Result<()>)
    requires
        old(db).wf(),
    ensures
        final(db).wf(),
        match halved(old(db)@, pid) {
            Ok(m) => r is Ok && final(db)@ == m,
            Err(f) => final(db)@ == old(db)@ && (r matches Err(e) && fault::reports(e, f)),
        },
{
    let ghost m = db@;
    let (b, slots) = match db.pager.get(pid) {
        None => return Err(fault::vanished()),
        Some(page) => match body::decode_body(page.buf.as_slice()) {
            Ok(b) => (b, page.slots()),
            Err(e) => return Err(e),
        },
    };
    let live = keep_live(&slots);
    if live.len() < 4 {
        return Ok(());
    }
    if live.len() as u64 > 0xFFFF_FFFF {
        return Err(fault::oversized());
    }
    let mid: usize = live.len() / 2;
    let left = off_places(&live, 0, mid);
    let right = off_places(&live, mid, live.len());
    assert(left@.len() == ints(left@).len() && right@.len() == ints(right@).len());
    let lb = DataPageBody { num_rows: mid as u32, regions: pick_all(&b.regions, &left, false) };
    let rb = DataPageBody { num_rows: (live.len() - mid) as u32, regions: pick_all(&b.regions, &right, false) };
    if !body::fits(&lb) || !body::fits(&rb) || !db.pager.room() {
        return Err(fault::oversized());
    }
    let ls = renumber(&live, 0, mid, 0);
    let rs = renumber(&live, mid, live.len(), 0);
    put_halves(db, pid, &lb, &rb, ls, rs);
    Ok(())
}

// Merge

/// The first data page but one.
pub open spec fn neighbor(ids: Seq<PageId>, pid: PageId) -> Option<PageId>
    decreases ids.len(),
{
    if ids.len() == 0 {
        None
    } else if ids[0] != pid {
        Some(ids[0])
    } else {
        neighbor(ids.skip(1), pid)
    }
}

/// Every run-length encoded region that takes part stays countable.
pub open spec fn runs_fit(t: Seq<body::RegionModel>, r: Seq<body::RegionModel>, n: nat) -> bool {
    forall|i: int|
        0 <= i < t.len() && i < r.len() && (#[trigger] r[i]).encoding == Encoding::Rle ==> rle::values_of(t[i].data).len()
            + n <= u32::MAX
}

/// A database with a page's live rows moved to a neighbor, or why it cannot be.
pub open spec fn merged(m: database::DbModel, pid: PageId) -> std::result::Result<database::DbModel, Fault> {
    match neighbor(m.pager.data_ids(), pid) {
        None => Ok(m),
        Some(n) => match m.pager.page(pid) {
            None => Err(Fault::Vanished),
            Some(p) => match body::body_of(p.buf) {
                Err(e) => Err(Fault::Decode(e)),
                Ok(b) => match m.pager.page(n) {
                    None => Err(Fault::Vanished),
                    Some(q) => match body::body_of(q.buf) {
                        Err(e) => Err(Fault::Decode(e)),
                        Ok(t) => {
                            let live = live_slots(p.dir());
                            let start = q.dir().len();
                            let moved = renumbered(live, start);
                            let c = body::BodyModel {
                                num_rows: (start + live.len()) as u32,
                                regions: all_extended(t.regions, b.regions, offs(live)),
                            };
                            if start + live.len() > u32::MAX || !runs_fit(t.regions, b.regions, live.len())
                                || !body::body_fits(c) {
                                Err(Fault::Decode(DecodeError::Oversized))
                            } else {
                                Ok(folded(m, pid, n, c, q.dir() + moved, moved, start))
                            }
                        },
                    },
                },
            },
        },
    }
}

/// A database with a page folded into another.
pub open spec fn folded(
    m: database::DbModel,
    pid: PageId,
    n: PageId,
    c: body::BodyModel,
    slots: Seq<SlotEntry>,
    moved: Seq<SlotEntry>,
    start: nat,
) -> database::DbModel {
    let a = page_set(m, n, c, slots);
    let f = fsm::FsmModel {
        free: keymap::put(keymap::cut(a.fsm.free, pid as u64), pid as u64, fsm::Mark),
        space: keymap::cut(keymap::cut(a.fsm.space, pid as u64), pid as u64),
    };
    database::DbModel {
        rows: rehomed(a.rows, moved, n, start),
        pager: a.pager.freed(pid),
        fsm: f,
        page_rows: keymap::cut(
            keymap::put(a.page_rows, n as u64, mutation::noted(a.page_rows, n) + rows_in(moved)),
            pid as u64,
        ),
        ..a
    }
}

fn find_neighbor(db: &Database, pid: PageId) -> (r: Option<PageId>)
    requires
        db.wf(),
    ensures
        r == neighbor(db@.pager.data_ids(), pid),
{
    let ids = db.pager.data_pages();
    let mut i: usize = 0;
    assert(ids@.skip(0) =~= ids@);
    while i < ids.len()
        invariant
            i <= ids@.len(),
            ids@ == db@.pager.data_ids(),
            neighbor(ids@.skip(i as int), pid) == neighbor(ids@, pid),
        decreases ids@.len() - i,
    {
        let ghost t = ids@.skip(i as int);
        assert(t[0] == ids@[i as int]);
        assert(t.skip(1) =~= ids@.skip(i + 1));
        if ids[i] != pid {
            return Some(ids[i]);
        }
        i += 1;
    }
    assert(ids@.skip(i as int).len() == 0);
    None
}

fn extend(t: &mut ColumnRegion, region: &ColumnRegion, places: &Vec<usize>) -> (r: bool)
    requires
        old(t)@.data.len() <= u32::MAX,
    ensures
        r == (region@.encoding == Encoding::Rle ==> rle::values_of(old(t)@.data).len() + places@.len() <= u32::MAX),
        r ==> final(t)@ == extended(old(t)@, region@, ints(places@)),
{
    let ghost was = t@;
    match region.encoding {
        Encoding::Plain | Encoding::Dictionary => {
            put_raw_cells(&mut t.data, region, places, false);
            true
        },
        Encoding::Rle => {
            let mut vals = rle::unpack(t.data.as_slice());
            let n: usize = places.len();
            if n as u64 > 0xFFFF_FFFF || vals.len() as u64 > 0xFFFF_FFFF - n as u64 {
                return false;
            }
            run_cells(&mut vals, region, places);
            t.data = rle::pack(&vals);
            true
        },
    }
}

fn extend_all(t: &mut Vec<ColumnRegion>, regions: &Vec<ColumnRegion>, places: &Vec<usize>) -> (r: bool)
    requires
        forall|i: int| 0 <= i < old(t)@.len() ==> (#[trigger] old(t)@[i])@.data.len() <= u32::MAX,
    ensures
        r == runs_fit(body::region_models(old(t)@), body::region_models(regions@), places@.len()),
        r ==> body::region_models(final(t)@) == all_extended(
            body::region_models(old(t)@),
            body::region_models(regions@),
            ints(places@),
        ),
{
    let ghost was = body::region_models(t@);
    let ghost src = body::region_models(regions@);
    let mut i: usize = 0;
    while i < t.len() && i < regions.len()
        invariant
            i <= t@.len(),
            i <= regions@.len(),
            t@.len() == was.len(),
            src == body::region_models(regions@),
            was == body::region_models(old(t)@),
            forall|j: int| 0 <= j < old(t)@.len() ==> (#[trigger] old(t)@[j])@.data.len() <= u32::MAX,
            forall|j: int|
                0 <= j < i && (#[trigger] src[j]).encoding == Encoding::Rle ==> rle::values_of(was[j].data).len()
                    + places@.len() <= u32::MAX,
            forall|j: int| 0 <= j < i ==> (#[trigger] t@[j])@ == extended(was[j], src[j], ints(places@)),
            forall|j: int| i <= j < was.len() ==> (#[trigger] t@[j])@ == was[j],
        decreases t@.len() - i,
    {
        let ghost all = t@;
        assert(all[i as int]@ == was[i as int]);
        assert(was[i as int] == old(t)@[i as int]@);
        assert(src[i as int] == regions@[i as int]@);
        let mut region = t.remove(i);
        if !extend(&mut region, &regions[i], places) {
            assert(src[i as int].encoding == Encoding::Rle);
            return false;
        }
        let ghost now = region;
        t.insert(i, region);
        assert(t@ =~= all.update(i as int, now));
        i += 1;
    }
    assert(body::region_models(t@) =~= all_extended(was, src, ints(places@)));
    true
}

fn fold(
    db: &mut Database,
    pid: PageId,
    n: PageId,
    c: &DataPageBody,
    slots: Vec<SlotEntry>,
    moved: Vec<SlotEntry>,
    start: u32,
)
    requires
        old(db).wf(),
        old(db)@.pager.page(n) is Some,
        body::body_fits(c@),
        start + moved@.len() <= u32::MAX,
    ensures
        final(db).wf(),
        final(db)@ == folded(old(db)@, pid, n, c@, slots@, moved@, start as nat),
{
    let ghost m = db@;
    let ghost s = slots@;
    set_page(db, n, c, slots);
    rehome(db, &moved, n, start);
    db.pager.free(pid);
    db.fsm.forget(pid);
    db.fsm.return_page(pid);
    let ghost pr = db.page_rows@;
    let mut rows: Vec<u64> = match db.page_rows.remove(n as u64) {
        Some(v) => v,
        None => {
            let v: Vec<u64> = Vec::new();
            assert(v@ =~= Seq::<u64>::empty());
            v
        },
    };
    let mut more = list_rows(&moved);
    rows.append(&mut more);
    proof {
        keymap::lemma_put_cut(pr, n as u64, rows@);
    }
    db.page_rows.insert(n as u64, rows);
    let _ = db.page_rows.remove(pid as u64);
    assert(db@ =~= folded(m, pid, n, c@, s, moved@, start as nat));
}

/// Merge an underfull page into a neighbor and free the emptied page.
pub fn merge(db: &mut Database, pid: PageId) -> (r: Result<()>)
    requires
        old(db).wf(),
    ensures
        final(db).wf(),
        match merged(old(db)@, pid) {
            Ok(m) => r is Ok && final(db)@ == m,
            Err(f) => final(db)@ == old(db)@ && (r matches Err(e) && fault::reports(e, f)),
        },
{
    let ghost m = db@;
    let n: PageId = match find_neighbor(db, pid) {
        Some(n) => n,
        None => {
            return Ok(());
        },
    };
    let (b, slots) = match db.pager.get(pid) {
        None => return Err(fault::vanished()),
        Some(page) => match body::decode_body(page.buf.as_slice()) {
            Ok(b) => (b, page.slots()),
            Err(e) => return Err(e),
        },
    };
    let (mut t, mut nslots) = match db.pager.get(n) {
        None => return Err(fault::vanished()),
        Some(page) => match body::decode_body(page.buf.as_slice()) {
            Ok(b) => {
                proof {
                    body::lemma_read_fits(page@.buf);
                    assert forall|i: int| 0 <= i < b.regions@.len() implies (#[trigger] b.regions@[i])@.data.len()
                        <= u32::MAX by {
                        assert(b@.regions[i] == b.regions@[i]@);
                    }
                }
                (b, page.slots())
            },
            Err(e) => return Err(e),
        },
    };
    let ghost t0 = t@;
    let ghost dir = nslots@;
    let live = keep_live(&slots);
    let start: usize = nslots.len();
    if start as u64 > 0xFFFF_FFFF || live.len() as u64 > 0xFFFF_FFFF - start as u64 {
        return Err(fault::oversized());
    }
    assert(live@.subrange(0, live@.len() as int) =~= live@);
    let places = off_places(&live, 0, live.len());
    assert(places@.len() == ints(places@).len());
    if !extend_all(&mut t.regions, &b.regions, &places) {
        return Err(fault::oversized());
    }
    t.num_rows = (start + live.len()) as u32;
    if !body::fits(&t) {
        return Err(fault::oversized());
    }
    let moved = renumber(&live, 0, live.len(), start as u32);
    let mut tail = pager::copy_slots(&moved);
    nslots.append(&mut tail);
    assert(nslots@ =~= dir + moved@);
    fold(db, pid, n, &t, nslots, moved, start as u32);
    Ok(())
}

// Compact

/// What compaction does to one page: the database after it, whether it did
/// anything, and what stopped it.
pub open spec fn compact_step(m: database::DbModel, pid: PageId) -> (database::DbModel, nat, Option<Fault>) {
    match m.pager.page(pid) {
        None => (m, 0, None),
        Some(p) => {
            let live = pager::live_among(p.dir());
            let r = if p.buf.len() > SPLIT_THRESHOLD {
                Some(halved(m, pid))
            } else if live < MERGE_THRESHOLD && m.pager.data_ids().len() > 1 {
                Some(merged(m, pid))
            } else if p.dir().len() != live {
                Some(repacked(m, pid))
            } else {
                None
            };
            match r {
                None => (m, 0, None),
                Some(Ok(a)) => (a, 1, None),
                Some(Err(f)) => (m, 0, Some(f)),
            }
        },
    }
}

/// What compaction does to a list of pages, in order.
pub open spec fn compacted(m: database::DbModel, ids: Seq<PageId>) -> (database::DbModel, nat, Option<Fault>)
    decreases ids.len(),
{
    if ids.len() == 0 {
        (m, 0, None)
    } else {
        let (a, n, stop) = compacted(m, ids.drop_last());
        if stop is Some {
            (a, n, stop)
        } else {
            let (b, k, f) = compact_step(a, ids.last());
            (b, n + k, f)
        }
    }
}

/// The database after a compaction is counted.
pub open spec fn compaction_counted(m: database::DbModel) -> database::DbModel {
    database::DbModel { stats: database::DbStats { compactions: (m.stats.compactions + 1) as u64, ..m.stats }, ..m }
}

fn compact_page(db: &mut Database, pid: PageId) -> (r: Result<usize>)
    requires
        old(db).wf(),
    ensures
        final(db).wf(),
        ({
            let (a, n, stop) = compact_step(old(db)@, pid);
            &&& final(db)@ == a
            &&& match stop {
                None => r matches Ok(k) && k == n && k <= 1,
                Some(f) => r matches Err(e) && fault::reports(e, f),
            }
        }),
{
    let (body_len, slots, live) = match db.pager.get(pid) {
        None => {
            return Ok(0);
        },
        Some(p) => (p.buf.len(), p.slot_count(), p.live_count()),
    };
    let done: Result<()> = if body_len > SPLIT_THRESHOLD {
        split(db, pid)
    } else if live < MERGE_THRESHOLD && db.pager.data_pages().len() > 1 {
        merge(db, pid)
    } else if slots != live {
        repack(db, pid)
    } else {
        return Ok(0);
    };
    match done {
        Ok(_) => Ok(1),
        Err(e) => Err(e),
    }
}

/// Run a full compaction pass over every data page. Returns how many pages were
/// worked on.
pub fn compact(db: &mut Database) -> (r: Result<usize>)
    requires
        old(db).wf(),
        old(db)@.stats.compactions < u64::MAX,
    ensures
        final(db).wf(),
        ({
            let m = compaction_counted(old(db)@);
            let (a, n, stop) = compacted(m, m.pager.data_ids());
            &&& final(db)@ == a
            &&& match stop {
                None => r matches Ok(k) && k == n,
                Some(f) => r matches Err(e) && fault::reports(e, f),
            }
        }),
{
    db.stats.compactions = db.stats.compactions + 1;
    let ghost m = compaction_counted(old(db)@);
    assert(db@ =~= m);
    let ids = db.pager.data_pages();
    let mut ops: usize = 0;
    let mut i: usize = 0;
    assert(ids@.take(0) =~= Seq::empty());
    while i < ids.len()
        invariant
            i <= ids@.len(),
            db.wf(),
            m == compaction_counted(old(db)@),
            ids@ == m.pager.data_ids(),
            ops <= i,
            (db@, ops as nat, None::<Fault>) == compacted(m, ids@.take(i as int)),
        decreases ids@.len() - i,
    {
        assert(ids@.take(i + 1).drop_last() =~= ids@.take(i as int));
        match compact_page(db, ids[i]) {
            Ok(k) => {
                ops = ops + k;
            },
            Err(e) => {
                proof {
                    lemma_compact_stops(m, ids@, i + 1);
                }
                return Err(e);
            },
        }
        i += 1;
    }
    assert(ids@.take(i as int) =~= ids@);
    Ok(ops)
}

proof fn lemma_compact_stops(m: database::DbModel, ids: Seq<PageId>, n: int)
    requires
        0 <= n <= ids.len(),
        compacted(m, ids.take(n)).2 is Some,
    ensures
        compacted(m, ids) == compacted(m, ids.take(n)),
    decreases ids.len() - n,
{
    if n < ids.len() {
        assert(ids.take(n + 1).drop_last() =~= ids.take(n));
        lemma_compact_stops(m, ids, n + 1);
    } else {
        assert(ids.take(n) =~= ids);
    }
}

/// Which pages compaction changes: none that is no longer than 512 bytes, has two live
/// rows or more, and no dead slot; one that is longer is split or left with a fault.
pub proof fn lemma_step_chosen(m: database::DbModel, pid: PageId)
    requires
        m.pager.page(pid) is Some,
    ensures
        ({
            let p = m.pager.page(pid)->0;
            let live = pager::live_among(p.dir());
            let step = compact_step(m, pid);
            &&& p.buf.len() <= 512 && live >= 2 && live == p.dir().len() ==> step == (m, 0nat, None::<Fault>)
            &&& p.buf.len() > 512 ==> match halved(m, pid) {
                Ok(a) => step == (a, 1nat, None::<Fault>),
                Err(f) => step == (m, 0nat, Some(f)),
            }
            &&& p.buf.len() <= 512 && live < 2 && m.pager.data_ids().len() > 1 ==> match merged(m, pid) {
                Ok(a) => step == (a, 1nat, None::<Fault>),
                Err(f) => step == (m, 0nat, Some(f)),
            }
            &&& p.buf.len() <= 512 && live >= 2 && live != p.dir().len() ==> match repacked(m, pid) {
                Ok(a) => step == (a, 1nat, None::<Fault>),
                Err(f) => step == (m, 0nat, Some(f)),
            }
            &&& step.1 == 0 ==> step.0 == m
        }),
{
}

} // verus!
