//! What decoding gives back of a checkpoint.

use crate::body;
use crate::bytes;
use crate::container;
use crate::database;
use crate::dict;
use crate::error::DecodeError;
use crate::fsm;
use crate::index;
use crate::keymap;
use crate::pager;
use crate::pager::PageKind;
use crate::rowid;
use crate::schema;
use crate::zonemap;
use crate::zonemap::Zone;
use vstd::prelude::*;

verus! {

/// Every data page has its slots, and the dictionary pages that the columns name
/// are dictionary pages.
pub open spec fn settled(m: database::DbModel) -> bool {
    &&& forall|i: int|
        0 <= i < m.pager.pages.len() && (#[trigger] m.pager.pages[i]).1.kind == PageKind::Data
            ==> m.pager.pages[i].1.slots is Some
    &&& forall|i: int, id: pager::PageId|
        0 <= i < m.schema.len() && (#[trigger] m.schema[i]).dict_page == Some(id) && #[trigger] m.pager.page(id) is Some
            ==> m.pager.page(id)->0.kind == PageKind::Dict
}

proof fn lemma_concat(l: crate::format::LoadModel, a: Seq<container::RecordModel>, b: Seq<container::RecordModel>)
    ensures
        crate::format::load(l, a + b) == (match crate::format::load(l, a) {
            Ok(k) => crate::format::load(k, b),
            Err(e) => Err(e),
        }),
    decreases b.len(),
{
    if b.len() == 0 {
        assert(a + b =~= a);
    } else {
        lemma_concat(l, a, b.drop_last());
        assert((a + b).drop_last() =~= a + b.drop_last());
        assert((a + b).last() == b.last());
    }
}

// Pages

/// The dictionary pages of the first `n` columns, placed.
spec fn dict_pager(m: database::DbModel, p: pager::PagerModel, n: nat) -> pager::PagerModel
    decreases n,
{
    if n == 0 {
        p
    } else {
        let before = dict_pager(m, p, (n - 1) as nat);
        match m.schema[n - 1].dict_page {
            Some(id) => match m.pager.page(id) {
                Some(q) => pager::placed(before, id, pager::loaded_page(id, PageKind::Dict, q.buf, None)),
                None => before,
            },
            None => before,
        }
    }
}

/// The data pages among the first `n` pages, placed.
spec fn data_pager(m: database::DbModel, p: pager::PagerModel, n: nat) -> pager::PagerModel
    decreases n,
{
    if n == 0 {
        p
    } else {
        let before = data_pager(m, p, (n - 1) as nat);
        let q = m.pager.pages[n - 1].1;
        if q.kind == PageKind::Data {
            pager::placed(before, q.id, pager::loaded_page(q.id, PageKind::Data, q.buf, q.slots))
        } else {
            before
        }
    }
}

proof fn lemma_dicts(m: database::DbModel, l: crate::format::LoadModel, n: nat)
    requires
        m.wf(),
        n <= m.schema.len(),
    ensures
        crate::format::load(l, crate::format::dict_records(m, n)) == Ok::<crate::format::LoadModel, DecodeError>(
            crate::format::LoadModel { pager: dict_pager(m, l.pager, n), ..l },
        ),
    decreases n,
{
    if n > 0 {
        lemma_dicts(m, l, (n - 1) as nat);
        let before = crate::format::dict_records(m, (n - 1) as nat);
        match m.schema[n - 1].dict_page {
            Some(id) => match m.pager.page(id) {
                Some(q) => {
                    let r = container::RecordModel { kind: 2, id, body: q.buf };
                    assert(before.push(r).drop_last() =~= before);
                    keymap::lemma_rank(m.pager.pages, id as u64);
                    assert(id < m.pager.high_water) by {
                        let k = keymap::rank(m.pager.pages, id as u64);
                        assert(m.pager.pages[k].0 < m.pager.high_water);
                    }
                },
                None => {},
            },
            None => {},
        }
    } else {
        assert(crate::format::load(l, Seq::empty()) == Ok::<crate::format::LoadModel, DecodeError>(l));
    }
}

proof fn lemma_data_record(q: pager::PageModel)
    requires
        crate::format::page_fits(q),
        q.slots is Some,
    ensures
        crate::format::data_of(crate::format::data_bytes(q)) == Some((q.buf, q.slots->0)),
{
    let s = crate::format::data_bytes(q);
    let d = body::slots_bytes(q.slots->0);
    bytes::lemma_u32_between(Seq::empty(), q.buf.len() as u32, q.buf + d);
    assert(s =~= Seq::<u8>::empty() + bytes::le32(q.buf.len() as u32) + (q.buf + d));
    assert(s.subrange(4, 4 + q.buf.len() as int) =~= q.buf);
    assert(s.skip(4 + q.buf.len() as int) =~= d);
    body::lemma_slots_round_trip(q.slots->0);
}

proof fn lemma_data(m: database::DbModel, l: crate::format::LoadModel, n: nat)
    requires
        m.wf(),
        crate::format::storable(m),
        settled(m),
        n <= m.pager.pages.len(),
    ensures
        crate::format::load(l, crate::format::data_records(m, n)) == Ok::<crate::format::LoadModel, DecodeError>(
            crate::format::LoadModel { pager: data_pager(m, l.pager, n), ..l },
        ),
    decreases n,
{
    if n > 0 {
        lemma_data(m, l, (n - 1) as nat);
        let before = crate::format::data_records(m, (n - 1) as nat);
        let q = m.pager.pages[n - 1].1;
        assert(m.pager.pages[n - 1].0 == q.id && m.pager.pages[n - 1].0 < m.pager.high_water);
        if q.kind == PageKind::Data {
            let r = container::RecordModel { kind: 1, id: q.id, body: crate::format::data_bytes(q) };
            assert(before.push(r).drop_last() =~= before);
            assert(crate::format::page_fits(m.pager.pages[n - 1].1));
            lemma_data_record(q);
        }
    } else {
        assert(crate::format::load(l, Seq::empty()) == Ok::<crate::format::LoadModel, DecodeError>(l));
    }
}

/// A page of the first `n` columns' dictionaries.
pub open spec fn named(m: database::DbModel, n: nat, id: pager::PageId) -> bool {
    exists|i: int| 0 <= i < n && (#[trigger] m.schema[i]).dict_page == Some(id)
}

proof fn lemma_dict_pager(m: database::DbModel, n: nat, id: pager::PageId)
    requires
        n <= m.schema.len(),
    ensures
        keymap::ascending(dict_pager(m, pager::no_pages(), n).pages),
        dict_pager(m, pager::no_pages(), n).page(id) == (if named(m, n, id) && m.pager.page(id) is Some {
            Some(pager::loaded_page(id, PageKind::Dict, m.pager.page(id)->0.buf, None))
        } else {
            None
        }),
    decreases n,
{
    if n > 0 {
        lemma_dict_pager(m, (n - 1) as nat, id);
        let before = dict_pager(m, pager::no_pages(), (n - 1) as nat);
        let c = m.schema[n - 1];
        assert(named(m, n, id) == (named(m, (n - 1) as nat, id) || c.dict_page == Some(id))) by {
            if named(m, n, id) {
                let i = choose|i: int| 0 <= i < n && (#[trigger] m.schema[i]).dict_page == Some(id);
                assert(m.schema[i].dict_page == Some(id));
            }
            if named(m, (n - 1) as nat, id) {
                let i = choose|i: int| 0 <= i < n - 1 && (#[trigger] m.schema[i]).dict_page == Some(id);
                assert(m.schema[i].dict_page == Some(id));
            }
        }
        match c.dict_page {
            Some(k) => match m.pager.page(k) {
                Some(q) => {
                    keymap::lemma_put(
                        before.pages,
                        k as u64,
                        pager::loaded_page(k, PageKind::Dict, q.buf, None),
                        id as u64,
                    );
                },
                None => {},
            },
            None => {},
        }
    } else {
        assert(!named(m, 0, id));
    }
}

/// One of the first `n` pages, a data page.
spec fn listed(m: database::DbModel, n: nat, id: pager::PageId) -> bool {
    exists|i: int|
        0 <= i < n && (#[trigger] m.pager.pages[i]).0 == id && m.pager.pages[i].1.kind == PageKind::Data
}

proof fn lemma_data_pager(m: database::DbModel, p: pager::PagerModel, n: nat, id: pager::PageId)
    requires
        m.wf(),
        n <= m.pager.pages.len(),
        keymap::ascending(p.pages),
    ensures
        keymap::ascending(data_pager(m, p, n).pages),
        data_pager(m, p, n).page(id) == (if listed(m, n, id) {
            Some(
                pager::loaded_page(id, PageKind::Data, m.pager.page(id)->0.buf, m.pager.page(id)->0.slots),
            )
        } else {
            p.page(id)
        }),
        listed(m, n, id) ==> m.pager.page(id) is Some,
    decreases n,
{
    if n > 0 {
        lemma_data_pager(m, p, (n - 1) as nat, id);
        let before = data_pager(m, p, (n - 1) as nat);
        let q = m.pager.pages[n - 1].1;
        assert(m.pager.pages[n - 1].0 == q.id);
        keymap::lemma_listed(m.pager.pages, n - 1);
        assert(listed(m, n, id) == (listed(m, (n - 1) as nat, id) || (q.id == id && q.kind == PageKind::Data))) by {
            if listed(m, n, id) {
                let i = choose|i: int|
                    0 <= i < n && (#[trigger] m.pager.pages[i]).0 == id && m.pager.pages[i].1.kind == PageKind::Data;
                assert(m.pager.pages[i].0 == id);
            }
            if listed(m, (n - 1) as nat, id) {
                let i = choose|i: int|
                    0 <= i < n - 1 && (#[trigger] m.pager.pages[i]).0 == id && m.pager.pages[i].1.kind
                        == PageKind::Data;
                assert(m.pager.pages[i].0 == id);
            }
        }
        if q.kind == PageKind::Data {
            keymap::lemma_put(
                before.pages,
                q.id as u64,
                pager::loaded_page(q.id, PageKind::Data, q.buf, q.slots),
                id as u64,
            );
        }
    } else {
        assert(!listed(m, 0, id));
    }
}

// Indexes

/// The stored indexes of the first `n` columns.
spec fn index_list(m: database::DbModel, n: nat) -> Seq<(u32, Seq<u8>)>
    decreases n,
{
    if n == 0 {
        Seq::empty()
    } else {
        let before = index_list(m, (n - 1) as nat);
        match m.indexes[n - 1] {
            Some(x) => before.push(((n - 1) as u32, index::index_bytes(x))),
            None => before,
        }
    }
}

proof fn lemma_indexes(m: database::DbModel, l: crate::format::LoadModel, n: nat)
    requires
        n <= m.indexes.len(),
        l.indexes.len() == 0,
    ensures
        crate::format::load(l, crate::format::index_records(m, n)) == Ok::<crate::format::LoadModel, DecodeError>(
            crate::format::LoadModel { indexes: index_list(m, n), ..l },
        ),
    decreases n,
{
    if n > 0 {
        lemma_indexes(m, l, (n - 1) as nat);
        let before = crate::format::index_records(m, (n - 1) as nat);
        match m.indexes[n - 1] {
            Some(x) => {
                let r = container::RecordModel { kind: 3, id: (n - 1) as u32, body: index::index_bytes(x) };
                assert(before.push(r).drop_last() =~= before);
            },
            None => {},
        }
    } else {
        assert(l.indexes =~= Seq::empty());
        assert(crate::format::load(l, Seq::empty()) == Ok::<crate::format::LoadModel, DecodeError>(l));
    }
}

proof fn lemma_index_list(m: database::DbModel, n: nat, i: int)
    requires
        m.wf(),
        m.schema.len() <= u32::MAX,
        n <= m.schema.len(),
        0 <= i < m.schema.len(),
        forall|j: int| 0 <= j < m.indexes.len() ==> crate::format::index_fits(#[trigger] m.indexes[j]),
    ensures
        ({
            let w = crate::format::with_indexes(m.schema, database::empty_db(m.schema).indexes, index_list(m, n));
            &&& w.len() == m.schema.len()
            &&& w[i] == if i < n && m.indexes[i] is Some {
                Some(index::IndexModel { column: m.schema[i].name, ..m.indexes[i]->0 })
            } else {
                database::first_index(m.schema[i])
            }
        }),
    decreases n,
{
    if n > 0 {
        lemma_index_list(m, (n - 1) as nat, i);
        let before = index_list(m, (n - 1) as nat);
        match m.indexes[n - 1] {
            Some(x) => {
                let r = ((n - 1) as u32, index::index_bytes(x));
                assert(before.push(r).drop_last() =~= before);
                let y = index::IndexModel { column: m.schema[n - 1].name, ..x };
                assert(crate::format::index_fits(m.indexes[n - 1]));
                index::lemma_index_round_trip(y);
                assert(index::index_bytes(y) == index::index_bytes(x));
            },
            None => {},
        }
    }
}

// Zone maps

/// A length, so many bytes, and what follows.
proof fn lemma_framed(e: Seq<u8>, tail: Seq<u8>)
    requires
        e.len() <= u32::MAX,
    ensures
        ({
            let s = bytes::le32(e.len() as u32) + e + tail;
            &&& s.len() == 4 + e.len() + tail.len()
            &&& bytes::u32_at(s, 0) == e.len()
            &&& s.subrange(4, 4 + e.len() as int) == e
            &&& s.skip(4 + e.len() as int) == tail
        }),
{
    let s = bytes::le32(e.len() as u32) + e + tail;
    bytes::lemma_u32_between(Seq::empty(), e.len() as u32, e + tail);
    assert(s =~= Seq::<u8>::empty() + bytes::le32(e.len() as u32) + (e + tail));
    assert(s.subrange(4, 4 + e.len() as int) =~= e);
    assert(s.skip(4 + e.len() as int) =~= tail);
}

/// Reading a list of zone maps: the first, then the others.
#[verifier::spinoff_prover]
proof fn lemma_zone_first(first: Seq<(u64, Zone)>, tail: Seq<u8>, n: nat)
    requires
        database::zones_ok(first),
        crate::format::zone_fits(first),
    ensures
        ({
            let e = zonemap::zonemap_bytes(first);
            crate::format::zones_of(bytes::le32(e.len() as u32) + e + tail, n + 1) == seq![first]
                + crate::format::zones_of(tail, n)
        }),
{
    let e = zonemap::zonemap_bytes(first);
    let s = bytes::le32(e.len() as u32) + e + tail;
    lemma_framed(e, tail);
    zonemap::lemma_zonemap_round_trip(first);
    assert(crate::format::zones_of(s, n + 1) =~= seq![first] + crate::format::zones_of(tail, n));
}

proof fn lemma_zones(z: Seq<Seq<(u64, Zone)>>, rest: Seq<u8>)
    requires
        forall|i: int| 0 <= i < z.len() ==> database::zones_ok(#[trigger] z[i]),
        forall|i: int| 0 <= i < z.len() ==> crate::format::zone_fits(#[trigger] z[i]),
    ensures
        crate::format::zones_of(crate::format::zones_bytes(z) + rest, z.len()) == z,
    decreases z.len(),
{
    if z.len() > 0 {
        let t = z.skip(1);
        assert forall|i: int| 0 <= i < t.len() implies database::zones_ok(#[trigger] t[i]) by {
            assert(t[i] == z[i + 1]);
        }
        assert forall|i: int| 0 <= i < t.len() implies crate::format::zone_fits(#[trigger] t[i]) by {
            assert(t[i] == z[i + 1]);
        }
        lemma_zones(t, rest);
        assert(database::zones_ok(z[0]) && crate::format::zone_fits(z[0]));
        let e = zonemap::zonemap_bytes(z[0]);
        let tail = crate::format::zones_bytes(t) + rest;
        assert(crate::format::zones_bytes(z) + rest =~= bytes::le32(e.len() as u32) + e + tail);
        lemma_zone_first(z[0], tail, t.len());
        assert(seq![z[0]] + t =~= z);
    } else {
        assert(z =~= Seq::empty());
    }
}

proof fn lemma_last(m: database::DbModel, l: crate::format::LoadModel)
    requires
        m.wf(),
        crate::format::storable(m),
        l.schema is Some,
        l.zones.len() == 0,
    ensures
        crate::format::load(l, crate::format::last_records(m)) == Ok::<crate::format::LoadModel, DecodeError>(
            crate::format::LoadModel { fsm: m.fsm, rows: m.rows, zones: m.zones, next_row_id: m.next_row_id, ..l },
        ),
{
    let r = crate::format::last_records(m);
    let a = r.take(1);
    let b = r.take(2);
    let c = r.take(3);
    assert(r.drop_last() =~= c);
    assert(c.drop_last() =~= b);
    assert(b.drop_last() =~= a);
    assert(a.drop_last() =~= Seq::empty());
    fsm::lemma_fsm_round_trip(m.fsm);
    rowid::lemma_rowid_round_trip(m.rows);
    let z = bytes::le32(m.zones.len() as u32) + crate::format::zones_bytes(m.zones);
    bytes::lemma_u32_between(Seq::empty(), m.zones.len() as u32, crate::format::zones_bytes(m.zones));
    assert(z =~= Seq::<u8>::empty() + bytes::le32(m.zones.len() as u32) + crate::format::zones_bytes(m.zones));
    assert(z.skip(4) =~= crate::format::zones_bytes(m.zones) + Seq::empty());
    lemma_zones(m.zones, Seq::empty());
    assert(crate::format::zone_record(z) == m.zones);
    let n = bytes::le64(m.next_row_id);
    bytes::lemma_u64_between(Seq::empty(), m.next_row_id, Seq::empty());
    assert(n =~= Seq::<u8>::empty() + n + Seq::empty());
    assert(crate::format::load(l, Seq::empty()) == Ok::<crate::format::LoadModel, DecodeError>(l));
    let l1 = crate::format::LoadModel { fsm: m.fsm, ..l };
    assert(a.last() == r[0]);
    assert(crate::format::load(l, a) == Ok::<crate::format::LoadModel, DecodeError>(l1));
    let l2 = crate::format::LoadModel { rows: m.rows, ..l1 };
    assert(b.last() == r[1]);
    assert(crate::format::load(l, b) == Ok::<crate::format::LoadModel, DecodeError>(l2));
    let l3 = crate::format::LoadModel { zones: m.zones, ..l2 };
    assert(c.last() == r[2]);
    assert(l2.zones + m.zones =~= m.zones);
    assert(crate::format::load(l, c) == Ok::<crate::format::LoadModel, DecodeError>(l3));
    assert(r.last() == r[3]);
}

/// A data page, and a dictionary page that a column names, comes back as it was,
/// at the first generation; no other page does.
pub open spec fn comes_back(m: database::DbModel, d: database::DbModel, id: pager::PageId) -> bool {
    d.pager.page(id) == match m.pager.page(id) {
        Some(p) => if p.kind == PageKind::Data {
            Some(pager::loaded_page(id, PageKind::Data, p.buf, p.slots))
        } else if named(m, m.schema.len(), id) {
            Some(pager::loaded_page(id, PageKind::Dict, p.buf, None))
        } else {
            None
        },
        None => None,
    }
}

/// A column's mirror shows its dictionary page: the words in the order of their
/// ids, each once, and the next id behind the last.
pub open spec fn mirrored(m: database::DbModel, i: int) -> bool {
    &&& m.dicts[i] matches Some(x)
    &&& m.schema[i].dict_page == Some(x.page_id)
    &&& m.pager.page(x.page_id) matches Some(p)
    &&& x.mirrors(p.buf)
    &&& dict::in_order(x)
}

/// Decoding a checkpoint gives back the schema, the free-space map, the row-id
/// map, the zone maps, the next row id, every index, every data page and every
/// dictionary page that a column names, under its id, and every mirror that shows
/// its page, at the first generation.
pub proof fn lemma_checkpoint(m: database::DbModel)
    requires
        m.wf(),
        crate::format::storable(m),
        settled(m),
    ensures
        crate::format::database_of(container::container_bytes(crate::format::records(m))) is Ok,
        ({
            let d = crate::format::database_of(container::container_bytes(crate::format::records(m)))->Ok_0;
            &&& d.schema == m.schema
            &&& d.fsm == m.fsm
            &&& d.rows == m.rows
            &&& d.zones == m.zones
            &&& d.next_row_id == m.next_row_id
            &&& d.indexes.len() == m.indexes.len()
            &&& forall|i: int|
                0 <= i < m.indexes.len() ==> #[trigger] d.indexes[i] == (match m.indexes[i] {
                    Some(x) => Some(index::IndexModel { column: m.schema[i].name, ..x }),
                    None => database::first_index(m.schema[i]),
                })
            &&& forall|id: pager::PageId| #[trigger] comes_back(m, d, id)
            &&& d.dicts.len() == m.schema.len()
            &&& forall|i: int|
                0 <= i < m.schema.len() && #[trigger] mirrored(m, i) ==> d.dicts[i] == Some(
                    dict::DictModel { gen: 0, ..m.dicts[i]->0 },
                )
        }),
{
    let r = crate::format::records(m);
    container::lemma_container_round_trip(r);
    let l0 = crate::format::nothing_read();
    let first = container::RecordModel { kind: 0, id: 0, body: schema::schema_bytes(m.schema) };
    let a = seq![first];
    schema::lemma_schema_round_trip(m.schema);
    let l1 = crate::format::LoadModel { schema: Some(m.schema), ..l0 };
    assert(a.drop_last() =~= Seq::empty());
    assert(crate::format::load(l0, Seq::empty()) == Ok::<crate::format::LoadModel, DecodeError>(l0));
    assert(crate::format::load(l0, a) == Ok::<crate::format::LoadModel, DecodeError>(l1));
    let dicts = crate::format::dict_records(m, m.schema.len());
    let data = crate::format::data_records(m, m.pager.pages.len());
    let idx = crate::format::index_records(m, m.indexes.len());
    let last = crate::format::last_records(m);
    lemma_concat(l0, a, dicts);
    lemma_dicts(m, l1, m.schema.len());
    let p2 = dict_pager(m, pager::no_pages(), m.schema.len());
    let l2 = crate::format::LoadModel { pager: p2, ..l1 };
    lemma_concat(l0, a + dicts, data);
    lemma_data(m, l2, m.pager.pages.len());
    let p3 = data_pager(m, p2, m.pager.pages.len());
    let l3 = crate::format::LoadModel { pager: p3, ..l2 };
    lemma_concat(l0, a + dicts + data, idx);
    lemma_indexes(m, l3, m.indexes.len());
    let l4 = crate::format::LoadModel { indexes: index_list(m, m.indexes.len()), ..l3 };
    lemma_concat(l0, a + dicts + data + idx, last);
    lemma_last(m, l4);
    let l5 = crate::format::LoadModel { fsm: m.fsm, rows: m.rows, zones: m.zones, next_row_id: m.next_row_id, ..l4 };
    assert(crate::format::load(l0, r) == Ok::<crate::format::LoadModel, DecodeError>(l5));
    let d = crate::format::finished(l5)->Ok_0;
    if m.schema.len() > 0 {
        lemma_index_list(m, m.indexes.len(), 0);
    } else {
        assert(index_list(m, 0) =~= Seq::empty());
    }
    assert forall|i: int| 0 <= i < m.indexes.len() implies #[trigger] d.indexes[i] == (match m.indexes[i] {
        Some(x) => Some(index::IndexModel { column: m.schema[i].name, ..x }),
        None => database::first_index(m.schema[i]),
    }) by {
        lemma_index_list(m, m.indexes.len(), i);
    }
    assert forall|id: pager::PageId| #[trigger] comes_back(m, d, id) by {
        lemma_page_back(m, d, id);
    }
    assert forall|i: int| 0 <= i < m.schema.len() && #[trigger] mirrored(m, i) implies d.dicts[i] == Some(
        dict::DictModel { gen: 0, ..m.dicts[i]->0 },
    ) by {
        let x = dict::DictModel { gen: 0, ..m.dicts[i]->0 };
        let id = x.page_id;
        let p = m.pager.page(id)->0;
        assert(m.schema[i].dict_page == Some(id));
        assert(named(m, m.schema.len(), id));
        assert(comes_back(m, d, id));
        assert(x.words(p.buf) == m.dicts[i]->0.words(p.buf));
        dict::lemma_dict_round_trip(x, p.buf);
    }
}

proof fn lemma_page_back(m: database::DbModel, d: database::DbModel, id: pager::PageId)
    requires
        m.wf(),
        settled(m),
        d.pager == data_pager(m, dict_pager(m, pager::no_pages(), m.schema.len()), m.pager.pages.len()),
    ensures
        comes_back(m, d, id),
{
    let p2 = dict_pager(m, pager::no_pages(), m.schema.len());
    lemma_dict_pager(m, m.schema.len(), id);
    lemma_data_pager(m, p2, m.pager.pages.len(), id);
    keymap::lemma_rank(m.pager.pages, id as u64);
    let k = keymap::rank(m.pager.pages, id as u64);
    if m.pager.page(id) is Some {
        let p = m.pager.page(id)->0;
        assert(m.pager.pages[k].0 == id && m.pager.pages[k].1 == p);
        if p.kind == PageKind::Data {
            assert(listed(m, m.pager.pages.len(), id));
        } else {
            assert(!listed(m, m.pager.pages.len(), id)) by {
                if listed(m, m.pager.pages.len(), id) {
                    let i = choose|i: int|
                        0 <= i < m.pager.pages.len() && (#[trigger] m.pager.pages[i]).0 == id
                            && m.pager.pages[i].1.kind == PageKind::Data;
                    keymap::lemma_listed(m.pager.pages, i);
                }
            }
        }
    }
}

} // verus!
