//! What makes rows readable under their ids, and what an insert keeps of it.

use crate::body;
use crate::compact;
use crate::database;
use crate::error::DecodeError;
use crate::fault::Fault;
use crate::fsm;
use crate::keymap;
use crate::mutation;
use crate::pager;
use crate::pager::{PageId, PageKind, SlotEntry};
use crate::rle;
use crate::rowid;
use crate::rowid::Home;
use crate::schema;
use crate::schema::Encoding;
use crate::value::Value;
use vstd::prelude::*;

verus! {

/// A region of a column's kind and encoding that holds `n` cells.
pub open spec fn region_ok(r: body::RegionModel, c: schema::ColumnModel, n: nat) -> bool {
    r.kind == c.kind && r.encoding == c.encoding && body::whole(r) && body::cell_count(r) == n
}

/// A data page whose columns hold one cell for each slot.
pub open spec fn tidy_page(p: pager::PageModel, c: Seq<schema::ColumnModel>) -> bool {
    match mutation::body_in(p, c) {
        Err(_) => false,
        Ok(b) => {
            &&& body::body_fits(b)
            &&& b.regions.len() == c.len()
            &&& forall|i: int| 0 <= i < c.len() ==> region_ok(#[trigger] b.regions[i], c[i], p.dir().len())
        },
    }
}

/// A row is at home in a live slot of a data page that names it.
pub open spec fn home_ok(m: database::DbModel, row_id: u64, h: Home) -> bool {
    match m.pager.page(h.page) {
        None => false,
        Some(p) => {
            &&& p.kind == PageKind::Data
            &&& h.slot < p.dir().len()
            &&& p.dir()[h.slot as int] == (SlotEntry {
                row_id,
                off: h.slot,
                len: p.dir()[h.slot as int].len,
                live: true,
            })
        },
    }
}

/// A page, where it is a data page, is tidy.
pub open spec fn page_ok(m: database::DbModel, id: PageId) -> bool {
    m.pager.page(id) matches Some(p) ==> p.kind == PageKind::Data ==> tidy_page(p, m.schema)
}

/// A data page is there.
pub open spec fn offered(m: database::DbModel, id: PageId) -> bool {
    m.pager.page(id) matches Some(p) && p.kind == PageKind::Data
}

/// A page with a space entry is a data page.
pub open spec fn space_ok(m: database::DbModel, id: PageId) -> bool {
    keymap::find(m.fsm.space, id as u64) is Some ==> offered(m, id)
}

/// Every data page is tidy, the free-space map offers data pages only, and every
/// row is at home.
pub open spec fn tidy(m: database::DbModel) -> bool {
    &&& m.wf()
    &&& 0 < m.schema.len() <= u32::MAX
    &&& forall|id: PageId| #[trigger] page_ok(m, id)
    &&& forall|id: PageId| #[trigger] space_ok(m, id)
    &&& forall|r: u64| #[trigger] m.home(r) matches Some(h) ==> home_ok(m, r, h)
}

/// What a column keeps of a value.
pub open spec fn column_keeps(c: schema::ColumnModel, v: Value) -> Value {
    if c.encoding == Encoding::Rle {
        v
    } else {
        body::kept(c.kind, v)
    }
}

/// A tidy page that has slots has a body to read.
pub proof fn lemma_has_body(p: pager::PageModel, c: Seq<schema::ColumnModel>)
    requires
        tidy_page(p, c),
        c.len() > 0,
        p.dir().len() > 0,
    ensures
        body::body_of(p.buf) == mutation::body_in(p, c),
{
    let b = mutation::body_in(p, c)->Ok_0;
    assert(region_ok(b.regions[0], c[0], p.dir().len()));
    if p.buf.len() == 0 {
        let r = body::blank_region(c[0].kind, c[0].encoding);
        assert(b.regions[0] == r);
        assert(body::cell_count(r) == 0);
    }
}

/// A page stays tidy when a row is appended, and its cells read back.
proof fn lemma_page_grown(p: pager::PageModel, c: Seq<schema::ColumnModel>, values: Seq<Value>, e: SlotEntry)
    requires
        tidy_page(p, c),
        c.len() > 0,
        mutation::row_fits(mutation::body_in(p, c)->Ok_0, values, p.dir().len()),
    ensures
        ({
            let b = mutation::body_in(p, c)->Ok_0;
            let g = mutation::grown(b, values);
            let q = p.rewritten(body::body_bytes(g), p.dir().push(e));
            &&& tidy_page(q, c)
            &&& body::body_of(q.buf) == Ok::<body::BodyModel, DecodeError>(g)
            &&& forall|i: int|
                0 <= i < c.len() ==> body::cell_at(#[trigger] g.regions[i], p.dir().len() as int) == column_keeps(
                    c[i],
                    mutation::value_for(values, i),
                )
            &&& forall|i: int, k: int|
                0 <= i < c.len() && 0 <= k < p.dir().len() ==> #[trigger] body::cell_at(g.regions[i], k)
                    == body::cell_at(b.regions[i], k)
        }),
{
    let b = mutation::body_in(p, c)->Ok_0;
    let g = mutation::grown(b, values);
    let q = p.rewritten(body::body_bytes(g), p.dir().push(e));
    body::lemma_body_round_trip(g);
    assert(body::body_bytes(g).len() > 0) by {
        crate::bytes::lemma_u32_between(Seq::empty(), g.num_rows, Seq::empty());
    }
    assert forall|i: int| 0 <= i < c.len() implies region_ok(#[trigger] g.regions[i], c[i], q.dir().len())
        && body::cell_at(g.regions[i], p.dir().len() as int) == column_keeps(c[i], mutation::value_for(values, i)) by {
        assert(region_ok(b.regions[i], c[i], p.dir().len()));
        assert(b.regions[i].data.len() <= u32::MAX);
        body::lemma_appended(b.regions[i], mutation::value_for(values, i));
    }
    assert forall|i: int, k: int| 0 <= i < c.len() && 0 <= k < p.dir().len() implies #[trigger] body::cell_at(
        g.regions[i],
        k,
    ) == body::cell_at(b.regions[i], k) by {
        assert(region_ok(b.regions[i], c[i], p.dir().len()));
        assert(b.regions[i].data.len() <= u32::MAX);
        body::lemma_appended(b.regions[i], mutation::value_for(values, i));
    }
}

/// The page that an insert goes to is tidy.
pub proof fn lemma_page_for(m: database::DbModel, need: u32)
    requires
        tidy(m),
        m.fsm.page_with_space(need) is Some || m.pager.has_room(),
    ensures
        ({
            let (b, pid) = mutation::page_for(m, need);
            &&& tidy(b)
            &&& b.rows == m.rows
            &&& b.schema == m.schema
            &&& b.pager.page(pid) matches Some(p) ==> p.kind == PageKind::Data && tidy_page(p, m.schema)
            &&& forall|r: u64, col: int| m.home(r) is Some ==> #[trigger] mutation::cell_of(b, r, col) == mutation::cell_of(m, r, col)
        }),
{
    let (b, pid) = mutation::page_for(m, need);
    match m.fsm.page_with_space(need) {
        Some(id) => {
            fsm::lemma_roomiest(m.fsm, need, m.fsm.space.len());
            let k = m.fsm.roomiest(need, m.fsm.space.len())->0;
            keymap::lemma_listed(m.fsm.space, k);
            assert(m.fsm.space[k].0 <= u32::MAX);
            assert(space_ok(m, id));
            assert(page_ok(m, id));
        },
        None => {
            let empty = Seq::<u8>::empty();
            let fresh = pager::fresh_page(pid, PageKind::Data, empty);
            pager::lemma_alloc(m.pager, PageKind::Data, empty, pid);
            fsm::lemma_put_pages(m.fsm.space, pid, 256u32);
            assert(tidy_page(fresh, m.schema)) by {
                let blank = body::blank_body(m.schema);
                assert(mutation::body_in(fresh, m.schema) == Ok::<body::BodyModel, DecodeError>(blank));
                assert forall|i: int| 0 <= i < m.schema.len() implies region_ok(
                    #[trigger] blank.regions[i],
                    m.schema[i],
                    0,
                ) by {
                    assert(blank.regions[i] == body::blank_region(m.schema[i].kind, m.schema[i].encoding));
                }
            }
            assert forall|id: PageId| #[trigger] page_ok(b, id) by {
                pager::lemma_alloc(m.pager, PageKind::Data, empty, id);
                assert(page_ok(m, id));
            }
            assert forall|id: PageId| #[trigger] space_ok(b, id) by {
                pager::lemma_alloc(m.pager, PageKind::Data, empty, id);
                keymap::lemma_put(m.fsm.space, pid as u64, 256u32, id as u64);
                assert(space_ok(m, id));
            }
            assert forall|r: u64| #[trigger] b.home(r) matches Some(h) implies home_ok(b, r, b.home(r)->0) by {
                assert(b.home(r) == m.home(r));
                let h = m.home(r)->0;
                assert(home_ok(m, r, h));
                pager::lemma_alloc(m.pager, PageKind::Data, empty, h.page);
            }
            assert forall|r: u64, col: int| m.home(r) is Some implies #[trigger] mutation::cell_of(b, r, col)
                == mutation::cell_of(m, r, col) by {
                let h = m.home(r)->0;
                assert(home_ok(m, r, h));
                pager::lemma_alloc(m.pager, PageKind::Data, empty, h.page);
            }
        },
    }
}

/// A pager stays well-formed when a live page is replaced.
pub proof fn lemma_with_page(m: pager::PagerModel, id: PageId, q: pager::PageModel)
    requires
        m.wf(),
        m.page(id) is Some,
        q.id == id,
    ensures
        m.with_page(id, q).wf(),
{
    keymap::lemma_rank(m.pages, id as u64);
    let k = keymap::rank(m.pages, id as u64);
    assert(m.pages[k].0 < m.high_water);
    assert forall|i: int| 0 <= i < m.free_ids.len() implies m.free_ids[i] != id by {
        assert(!keymap::held(m.pages, m.free_ids[i] as u64));
    }
    pager::lemma_put_page(m, id, q);
}

/// A page found under an id has that id.
pub proof fn lemma_page_id(m: pager::PagerModel, id: PageId)
    requires
        m.wf(),
        m.page(id) is Some,
    ensures
        m.page(id)->0.id == id,
{
    keymap::lemma_rank(m.pages, id as u64);
    let k = keymap::rank(m.pages, id as u64);
    assert(m.pages[k].0 == m.pages[k].1.id);
}

/// The database once a row is appended to a tidy page.
proof fn lemma_row_appended(m: database::DbModel, pid: PageId, row_id: u64, values: Seq<Value>, width: u32)
    requires
        tidy(m),
        mutation::row_appended(m, pid, row_id, values, width) is Ok,
        m.pager.page(pid) matches Some(p) ==> p.kind == PageKind::Data && tidy_page(p, m.schema),
    ensures
        ({
            let d = mutation::row_appended(m, pid, row_id, values, width)->Ok_0;
            &&& tidy(d)
            &&& forall|col: int|
                0 <= col < m.schema.len() ==> #[trigger] mutation::cell_of(d, row_id, col) == Some(
                    column_keeps(m.schema[col], mutation::value_for(values, col)),
                )
            &&& forall|r: u64, col: int|
                0 <= col && r != row_id && m.home(r) is Some ==> #[trigger] mutation::cell_of(d, r, col) == mutation::cell_of(
                    m,
                    r,
                    col,
                )
            &&& forall|r: u64| r != row_id ==> #[trigger] d.home(r) == m.home(r)
        }),
{
    let d = mutation::row_appended(m, pid, row_id, values, width)->Ok_0;
    let p = m.pager.page(pid)->0;
    let b = mutation::body_in(p, m.schema)->Ok_0;
    let g = mutation::grown(b, values);
    let n = p.dir().len();
    let e = SlotEntry { row_id, off: n as u32, len: width, live: true };
    let q = p.rewritten(body::body_bytes(g), p.dir().push(e));
    let h = Home { page: pid, slot: n as u32 };
    lemma_page_grown(p, m.schema, values, e);
    lemma_page_id(m.pager, pid);
    lemma_with_page(m.pager, pid, q);
    keymap::lemma_put(m.rows, row_id, h, row_id);
    keymap::lemma_put(m.page_rows, pid as u64, mutation::noted(m.page_rows, pid).push(row_id), 0);
    assert(d.pager.page(pid) == Some(q)) by {
        keymap::lemma_put(m.pager.pages, pid as u64, q, pid as u64);
    }
    assert forall|id: PageId| id != pid implies #[trigger] d.pager.page(id) == m.pager.page(id) by {
        keymap::lemma_put(m.pager.pages, pid as u64, q, id as u64);
    }
    assert forall|r: u64| r != row_id implies #[trigger] d.home(r) == m.home(r) by {
        keymap::lemma_put(m.rows, row_id, h, r);
    }
    assert forall|id: PageId| #[trigger] page_ok(d, id) by {
        assert(page_ok(m, id));
        if id != pid {
            assert(d.pager.page(id) == m.pager.page(id));
        }
    }
    assert forall|id: PageId| #[trigger] space_ok(d, id) by {
        assert(space_ok(m, id));
        if id != pid {
            assert(d.pager.page(id) == m.pager.page(id));
        }
    }
    assert forall|r: u64| #[trigger] d.home(r) matches Some(x) implies home_ok(d, r, d.home(r)->0) by {
        if r == row_id {
            assert(d.home(r) == Some(h));
            assert(q.dir()[n as int] == e);
        } else {
            assert(d.home(r) == m.home(r));
            let x = m.home(r)->0;
            assert(home_ok(m, r, x));
            if x.page == pid {
                assert(q.dir()[x.slot as int] == p.dir()[x.slot as int]);
            } else {
                assert(d.pager.page(x.page) == m.pager.page(x.page));
            }
        }
    }
    assert forall|col: int| 0 <= col < m.schema.len() implies #[trigger] mutation::cell_of(d, row_id, col) == Some(
        column_keeps(m.schema[col], mutation::value_for(values, col)),
    ) by {
        assert(d.home(row_id) == Some(h));
        assert(g.regions.len() == m.schema.len());
        assert(body::cell_at(g.regions[col], n as int) == column_keeps(
            m.schema[col],
            mutation::value_for(values, col),
        ));
    }
    assert forall|r: u64, col: int| 0 <= col && r != row_id && m.home(r) is Some implies #[trigger] mutation::cell_of(d, r, col)
        == mutation::cell_of(m, r, col) by {
        assert(d.home(r) == m.home(r));
        let x = m.home(r)->0;
        assert(home_ok(m, r, x));
        if x.page == pid {
            lemma_has_body(p, m.schema);
            if col < m.schema.len() {
                assert(body::cell_at(g.regions[col], x.slot as int) == body::cell_at(b.regions[col], x.slot as int));
            }
        } else {
            assert(d.pager.page(x.page) == m.pager.page(x.page));
        }
    }
}

/// Counters, indexes and zone maps do not matter to where rows are.
pub proof fn lemma_same_homes(m: database::DbModel, n: database::DbModel)
    requires
        tidy(m),
        n.wf(),
        n.schema == m.schema,
        n.pager == m.pager,
        n.rows == m.rows,
        forall|id: PageId| #[trigger] keymap::find(n.fsm.space, id as u64) is Some ==> offered(m, id),
    ensures
        tidy(n),
        forall|r: u64, col: int| #[trigger] mutation::cell_of(n, r, col) == mutation::cell_of(m, r, col),
        forall|r: u64, col: int| #[trigger] mutation::slot_cell(n, r, col) == mutation::slot_cell(m, r, col),
{
    assert forall|id: PageId| #[trigger] page_ok(n, id) by {
        assert(page_ok(m, id));
    }
    assert forall|id: PageId| #[trigger] space_ok(n, id) by {
        assert(space_ok(m, id));
        if keymap::find(n.fsm.space, id as u64) is Some {
            assert(offered(m, id));
        }
    }
    assert forall|r: u64| #[trigger] n.home(r) matches Some(h) implies home_ok(n, r, n.home(r)->0) by {
        assert(m.home(r) == n.home(r));
        assert(home_ok(m, r, m.home(r)->0));
    }
}


proof fn lemma_row_noted(m: database::DbModel, pid: PageId, row_id: u64, cells: Seq<Value>, need: u32)
    requires
        tidy(m),
        offered(m, pid),
    ensures
        ({
            let d = mutation::row_noted(m, pid, row_id, cells, need);
            &&& tidy(d)
            &&& d.rows == m.rows
            &&& forall|r: u64, col: int| #[trigger] mutation::cell_of(d, r, col) == mutation::cell_of(m, r, col)
            &&& forall|r: u64, col: int| #[trigger] mutation::slot_cell(d, r, col) == mutation::slot_cell(m, r, col)
        }),
{
    let d = mutation::row_noted(m, pid, row_id, cells, need);
    let free = fsm::left_after(m.fsm, pid, -(need as int) as i64);
    fsm::lemma_put_pages(m.fsm.space, pid, free);
    assert forall|id: PageId| #[trigger] keymap::find(d.fsm.space, id as u64) is Some implies offered(m, id) by {
        keymap::lemma_put(m.fsm.space, pid as u64, free, id as u64);
        assert(space_ok(m, id));
    }
    assert forall|i: int| 0 <= i < d.zones.len() implies database::zones_ok(#[trigger] d.zones[i]) by {
        assert(database::zones_ok(m.zones[i]));
        if i < m.schema.len() {
            let z = mutation::widened(
                keymap::find(m.zones[i], pid as u64),
                pid,
                mutation::value_for(cells, i),
            );
            crate::zonemap::lemma_put_keyed(m.zones[i], z);
        }
    }
    assert(d.wf());
    lemma_same_homes(m, d);
}

/// An inserted row reads back: each cell as what its column keeps of the value,
/// the first being the row's id. The other rows read as before.
pub proof fn lemma_insert_reads(m: database::DbModel, values: Seq<Value>)
    requires
        tidy(m),
        mutation::inserted(m, values).1 is Ok,
    ensures
        ({
            let (d, r) = mutation::inserted(m, values);
            let row_id = r->Ok_0;
            let cells = values.update(0, Value::Int(crate::bytes::untwos(row_id)));
            &&& tidy(d)
            &&& row_id == mutation::row_id_for(m, values)
            &&& forall|col: int|
                0 <= col < m.schema.len() ==> #[trigger] mutation::cell_of(d, row_id, col) == Some(
                    column_keeps(m.schema[col], cells[col]),
                )
            &&& forall|o: u64, col: int|
                0 <= col && o != row_id && m.home(o) is Some ==> #[trigger] mutation::cell_of(d, o, col)
                    == mutation::cell_of(m, o, col)
        }),
{
    let row_id = mutation::row_id_for(m, values);
    let a = mutation::id_taken(m, row_id);
    let cells = values.update(0, Value::Int(crate::bytes::untwos(row_id)));
    let need = mutation::space_for(m.schema) as u32;
    assert forall|id: PageId| #[trigger] keymap::find(a.fsm.space, id as u64) is Some implies offered(m, id) by {
        assert(space_ok(m, id));
    }
    lemma_same_homes(m, a);
    lemma_page_for(a, need);
    let (b, pid) = mutation::page_for(a, need);
    let width = mutation::row_width(m.schema) as u32;
    lemma_row_appended(b, pid, row_id, cells, width);
    let c = mutation::row_appended(b, pid, row_id, cells, width)->Ok_0;
    assert(offered(c, pid)) by {
        keymap::lemma_put(
            b.pager.pages,
            pid as u64,
            c.pager.page(pid)->0,
            pid as u64,
        );
        assert(b.pager.page(pid) is Some);
        lemma_appended_kind(b, pid, row_id, cells, width);
    }
    lemma_row_noted(c, pid, row_id, cells, need);
    let d = mutation::inserted(m, values).0;
    assert(d == mutation::row_noted(c, pid, row_id, cells, need));
    assert forall|o: u64, col: int| 0 <= col && o != row_id && m.home(o) is Some implies #[trigger] mutation::cell_of(
        d,
        o,
        col,
    ) == mutation::cell_of(m, o, col) by {
        assert(mutation::cell_of(d, o, col) == mutation::cell_of(c, o, col));
        assert(b.home(o) == m.home(o));
        assert(mutation::cell_of(c, o, col) == mutation::cell_of(b, o, col));
        assert(a.home(o) == m.home(o));
        assert(mutation::cell_of(b, o, col) == mutation::cell_of(a, o, col));
    }
    assert forall|col: int| 0 <= col < m.schema.len() implies #[trigger] mutation::cell_of(d, row_id, col) == Some(
        column_keeps(m.schema[col], cells[col]),
    ) by {
        assert(mutation::cell_of(d, row_id, col) == mutation::cell_of(c, row_id, col));
        assert(mutation::value_for(cells, col) == cells[col]);
    }
}

/// The page that an insert puts its row in, where it finds or makes one.
pub open spec fn page_taken(m: database::DbModel, values: Seq<Value>) -> pager::PageModel {
    let a = mutation::id_taken(m, mutation::row_id_for(m, values));
    let (b, pid) = mutation::page_for(a, mutation::space_for(m.schema) as u32);
    b.pager.page(pid)->0
}

/// There is room for a row: the space it asks for can be told, a page offers it or
/// can be made, and the page can count one more slot and store each column with
/// one more cell.
pub open spec fn row_has_room(m: database::DbModel, values: Seq<Value>) -> bool {
    let cells = values.update(0, Value::Int(crate::bytes::untwos(mutation::row_id_for(m, values))));
    let p = page_taken(m, values);
    &&& mutation::space_for(m.schema) <= u32::MAX
    &&& m.fsm.page_with_space(mutation::space_for(m.schema) as u32) is Some || m.pager.has_room()
    &&& p.dir().len() < u32::MAX
    &&& forall|i: int|
        0 <= i < m.schema.len() ==> body::appended(
            (#[trigger] mutation::body_in(p, m.schema)->Ok_0.regions[i]),
            cells[i],
        ).data.len() <= u32::MAX
}

/// When an insert succeeds: on a tidy database, if and only if the row has a value
/// for each column and there is room for it. A row of another length changes
/// nothing, and otherwise only a size is in the way.
#[verifier::spinoff_prover]
#[verifier::rlimit(40)]
pub proof fn lemma_insert_owed(m: database::DbModel, values: Seq<Value>)
    requires
        tidy(m),
    ensures
        mutation::inserted(m, values).1 is Ok <==> values.len() == m.schema.len() && row_has_room(m, values),
        mutation::inserted(m, values).1 is Ok ==> mutation::inserted(m, values).1 == Ok::<u64, Fault>(
            mutation::row_id_for(m, values),
        ),
        values.len() != m.schema.len() ==> mutation::inserted(m, values) == (
            m,
            Err::<u64, Fault>(Fault::Arity("insert"@, values.len())),
        ),
        values.len() == m.schema.len() && !row_has_room(m, values) ==> mutation::inserted(m, values).1 == Err::<u64, Fault>(
            Fault::Decode(DecodeError::Oversized),
        ),
{
    if values.len() == m.schema.len() {
        let row_id = mutation::row_id_for(m, values);
        let a = mutation::id_taken(m, row_id);
        let cells = values.update(0, Value::Int(crate::bytes::untwos(row_id)));
        let need = mutation::space_for(m.schema) as u32;
        if mutation::space_for(m.schema) <= u32::MAX && (a.fsm.page_with_space(need) is Some || a.pager.has_room()) {
            assert forall|id: PageId| #[trigger] keymap::find(a.fsm.space, id as u64) is Some implies offered(m, id) by {
                assert(space_ok(m, id));
            }
            lemma_same_homes(m, a);
            lemma_page_for(a, need);
            let (b, pid) = mutation::page_for(a, need);
            assert(b.pager.page(pid) is Some) by {
                match a.fsm.page_with_space(need) {
                    Some(id) => {
                        fsm::lemma_roomiest(a.fsm, need, a.fsm.space.len());
                        let k = a.fsm.roomiest(need, a.fsm.space.len())->0;
                        keymap::lemma_listed(a.fsm.space, k);
                        assert(a.fsm.space[k].0 <= u32::MAX);
                        assert(space_ok(a, id));
                    },
                    None => {
                        pager::lemma_alloc(a.pager, PageKind::Data, Seq::<u8>::empty(), pid);
                    },
                }
            }
            let p = b.pager.page(pid)->0;
            assert(p == page_taken(m, values));
            let o = mutation::body_in(p, m.schema)->Ok_0;
            let g = mutation::grown(o, cells);
            assert forall|i: int| 0 <= i < m.schema.len() implies #[trigger] g.regions[i] == body::appended(
                o.regions[i],
                cells[i],
            ) by {
                assert(mutation::value_for(cells, i) == cells[i]);
            }
            assert(region_ok(o.regions[0], m.schema[0], p.dir().len()));
            body::lemma_appended(o.regions[0], cells[0]);
            assert(g.regions[0] == body::appended(o.regions[0], cells[0]));
            if row_has_room(m, values) {
                assert forall|i: int| 0 <= i < g.regions.len() implies (#[trigger] g.regions[i]).data.len() <= u32::MAX by {
                    assert(g.regions[i] == body::appended(o.regions[i], cells[i]));
                }
                assert(mutation::row_fits(o, cells, p.dir().len()));
            }
            if mutation::row_fits(o, cells, p.dir().len()) {
                assert forall|i: int| 0 <= i < m.schema.len() implies body::appended(
                    (#[trigger] mutation::body_in(p, m.schema)->Ok_0.regions[i]),
                    cells[i],
                ).data.len() <= u32::MAX by {
                    assert(g.regions[i].data.len() <= u32::MAX);
                }
                assert(row_has_room(m, values));
            }
        }
    }
}

/// A row fits a page that is short of the largest stored lengths by 17 bytes in
/// each column and by a slot, so an insert of a row of the right length succeeds
/// where its page is such.
pub proof fn lemma_insert_fits(m: database::DbModel, values: Seq<Value>)
    requires
        tidy(m),
        values.len() == m.schema.len(),
        mutation::space_for(m.schema) <= u32::MAX,
        m.fsm.page_with_space(mutation::space_for(m.schema) as u32) is Some || m.pager.has_room(),
        page_taken(m, values).dir().len() < u32::MAX,
        forall|i: int|
            0 <= i < m.schema.len() ==> (#[trigger] mutation::body_in(page_taken(m, values), m.schema)->Ok_0.regions[i]).data.len()
                + 17 <= u32::MAX,
    ensures
        mutation::inserted(m, values).1 == Ok::<u64, Fault>(mutation::row_id_for(m, values)),
{
    let p = page_taken(m, values);
    let cells = values.update(0, Value::Int(crate::bytes::untwos(mutation::row_id_for(m, values))));
    assert forall|i: int| 0 <= i < m.schema.len() implies body::appended(
        (#[trigger] mutation::body_in(p, m.schema)->Ok_0.regions[i]),
        cells[i],
    ).data.len() <= u32::MAX by {
        body::lemma_appended_len(mutation::body_in(p, m.schema)->Ok_0.regions[i], cells[i]);
    }
    assert(row_has_room(m, values));
    lemma_insert_owed(m, values);
}

proof fn lemma_appended_kind(m: database::DbModel, pid: PageId, row_id: u64, values: Seq<Value>, width: u32)
    requires
        m.wf(),
        mutation::row_appended(m, pid, row_id, values, width) is Ok,
    ensures
        ({
            let d = mutation::row_appended(m, pid, row_id, values, width)->Ok_0;
            d.pager.page(pid) is Some && d.pager.page(pid)->0.kind == m.pager.page(pid)->0.kind
        }),
{
    let p = m.pager.page(pid)->0;
    let b = mutation::body_in(p, m.schema)->Ok_0;
    let e = SlotEntry { row_id, off: p.dir().len() as u32, len: width, live: true };
    let q = p.rewritten(body::body_bytes(mutation::grown(b, values)), p.dir().push(e));
    keymap::lemma_put(m.pager.pages, pid as u64, q, pid as u64);
}

// Compaction

/// A cell's value depends on its bytes only.
pub proof fn lemma_cell_bytes(r: body::RegionModel, s: body::RegionModel, i: int, k: int)
    requires
        r.kind == s.kind,
        r.encoding != Encoding::Rle,
        s.encoding != Encoding::Rle,
        0 <= i,
        0 <= k,
        (i + 1) * body::width(r.kind) <= r.data.len(),
        (k + 1) * body::width(r.kind) <= s.data.len(),
        r.data.subrange(i * body::width(r.kind), i * body::width(r.kind) + body::width(r.kind)) == s.data.subrange(
            k * body::width(r.kind),
            k * body::width(r.kind) + body::width(r.kind),
        ),
    ensures
        body::cell_at(r, i) == body::cell_at(s, k),
{
    let w = body::width(r.kind) as int;
    let a = i * w;
    let b = k * w;
    assert(a >= 0 && b >= 0 && a + w == (i + 1) * w && b + w == (k + 1) * w) by (nonlinear_arith)
        requires
            i >= 0,
            k >= 0,
            w > 0,
            a == i * w,
            b == k * w,
    ;
    let x = r.data.subrange(a, a + w);
    let y = s.data.subrange(b, b + w);
    assert(x[0] == r.data[a] && y[0] == s.data[b]);
}

pub proof fn lemma_raw_cells(r: body::RegionModel, places: Seq<int>, fill: bool, k: int)
    requires
        forall|j: int| 0 <= j < places.len() ==> 0 <= #[trigger] places[j] < r.data.len() / body::width(r.kind),
        0 <= k <= places.len(),
    ensures
        compact::raw_cells(r, places, fill).len() == places.len() * body::width(r.kind),
        k < places.len() ==> compact::raw_cells(r, places, fill).subrange(
            k * body::width(r.kind),
            k * body::width(r.kind) + body::width(r.kind),
        ) == r.data.subrange(
            places[k] * body::width(r.kind),
            places[k] * body::width(r.kind) + body::width(r.kind),
        ),
        k < places.len() ==> (places[k] + 1) * body::width(r.kind) <= r.data.len(),
    decreases places.len(),
{
    let w = body::width(r.kind) as int;
    if places.len() > 0 {
        let d = places.drop_last();
        assert forall|j: int| 0 <= j < d.len() implies 0 <= #[trigger] d[j] < r.data.len() / body::width(r.kind) by {
            assert(d[j] == places[j]);
        }
        let n = d.len() as int;
        lemma_raw_cells(
            r,
            d,
            fill,
            if k < n {
                k
            } else {
                0
            },
        );
        let last = places.last();
        assert(places[n] == last);
        let c = r.data.len() as int;
        assert((last + 1) * w <= c && last * w >= 0 && last * w + w == (last + 1) * w) by (nonlinear_arith)
            requires
                0 <= last < c / w,
                w > 0,
                c >= 0,
        ;
        assert((n + 1) * w == n * w + w && n * w >= 0) by (nonlinear_arith)
            requires
                n >= 0,
                w > 0,
        ;
        let s = compact::raw_cells(r, places, fill);
        let u = compact::raw_cells(r, d, fill);
        assert(u.len() == n * w);
        if k < n {
            assert(k * w + w <= n * w && k * w >= 0) by (nonlinear_arith)
                requires
                    0 <= k < n,
                    w > 0,
            ;
            assert(s.subrange(k * w, k * w + w) =~= u.subrange(k * w, k * w + w));
            assert(d[k] == places[k]);
        } else if k == n {
            assert(s.subrange(k * w, k * w + w) =~= r.data.subrange(last * w, last * w + w));
        }
    } else {
        assert(0 * w == 0) by (nonlinear_arith);
    }
}

/// Picked cells are read back, one after another.
pub proof fn lemma_picked(r: body::RegionModel, places: Seq<int>, fill: bool)
    requires
        forall|j: int| 0 <= j < places.len() ==> 0 <= #[trigger] places[j] < body::cell_count(r),
        places.len() <= u32::MAX,
    ensures
        body::whole(compact::picked(r, places, fill)),
        body::cell_count(compact::picked(r, places, fill)) == places.len(),
        forall|k: int|
            0 <= k < places.len() ==> #[trigger] body::cell_at(compact::picked(r, places, fill), k) == body::cell_at(
                r,
                places[k],
            ),
{
    let q = compact::picked(r, places, fill);
    if r.encoding == Encoding::Rle {
        rle::lemma_packed(compact::cells(r, places));
    } else {
        let w = body::width(r.kind) as int;
        let n = places.len() as int;
        lemma_raw_cells(r, places, fill, 0);
        vstd::arithmetic::div_mod::lemma_mod_multiples_basic(n, w);
        vstd::arithmetic::div_mod::lemma_div_by_multiple(n, w);
        assert forall|k: int| 0 <= k < n implies #[trigger] body::cell_at(q, k) == body::cell_at(r, places[k]) by {
            lemma_raw_cells(r, places, fill, k);
            assert((k + 1) * w <= n * w) by (nonlinear_arith)
                requires
                    0 <= k < n,
                    w > 0,
            ;
            lemma_cell_bytes(q, r, k, places[k]);
        }
    }
}

/// Rows that slots do not name stay at home; one that the last such slot names
/// moves there.
pub proof fn lemma_rehomed(rows: Seq<(u64, Home)>, s: Seq<SlotEntry>, page: PageId, start: nat, r: u64, k: int)
    requires
        keymap::ascending(rows),
        -1 <= k < s.len(),
        k >= 0 ==> s[k].row_id == r,
        forall|j: int| k < j < s.len() ==> (#[trigger] s[j]).row_id != r,
    ensures
        keymap::ascending(compact::rehomed(rows, s, page, start)),
        keymap::held(compact::rehomed(rows, s, page, start), r) == keymap::held(rows, r),
        keymap::find(compact::rehomed(rows, s, page, start), r) == (if k >= 0 && keymap::held(rows, r) {
            Some(Home { page, slot: (start + k) as u32 })
        } else {
            keymap::find(rows, r)
        }),
    decreases s.len(),
{
    if s.len() > 0 {
        let d = s.drop_last();
        let n = d.len() as int;
        let before = compact::rehomed(rows, d, page, start);
        let h = Home { page, slot: (start + n) as u32 };
        if k == n {
            let j = last_of(d, r);
            lemma_last_of(d, r);
            lemma_rehomed(rows, d, page, start, r, j);
            if keymap::held(before, r) {
                keymap::lemma_put(before, r, h, r);
            }
        } else {
            assert forall|j: int| k < j < d.len() implies (#[trigger] d[j]).row_id != r by {
                assert(d[j] == s[j]);
            }
            assert(s[n].row_id != r);
            lemma_rehomed(rows, d, page, start, r, k);
            if keymap::held(before, s.last().row_id) {
                keymap::lemma_put(before, s.last().row_id, h, r);
            }
        }
    }
}

/// The last slot that names a row, or -1.
pub open spec fn last_of(s: Seq<SlotEntry>, r: u64) -> int
    decreases s.len(),
{
    if s.len() == 0 {
        -1
    } else if s.last().row_id == r {
        s.len() - 1
    } else {
        last_of(s.drop_last(), r)
    }
}

pub proof fn lemma_last_of(s: Seq<SlotEntry>, r: u64)
    ensures
        -1 <= last_of(s, r) < s.len(),
        last_of(s, r) >= 0 ==> s[last_of(s, r)].row_id == r,
        forall|j: int| last_of(s, r) < j < s.len() ==> (#[trigger] s[j]).row_id != r,
    decreases s.len(),
{
    if s.len() > 0 && s.last().row_id != r {
        let d = s.drop_last();
        lemma_last_of(d, r);
        assert forall|j: int| last_of(s, r) < j < s.len() implies (#[trigger] s[j]).row_id != r by {
            if j < d.len() {
                assert(d[j] == s[j]);
            }
        }
    }
}

/// Every live slot of a data page, whose slots a row's home can number, is its
/// row's home.
pub open spec fn owns(m: database::DbModel, pid: PageId) -> bool {
    m.pager.page(pid) matches Some(p) ==> p.kind == PageKind::Data ==> p.dir().len() <= u32::MAX && forall|i: int|
        0 <= i < p.dir().len() && (#[trigger] p.dir()[i]).live ==> m.home(p.dir()[i].row_id) == Some(
            Home { page: pid, slot: i as u32 },
        )
}

} // verus!
