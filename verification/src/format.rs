//! The `.sht` format: the checkpoint serializer and the decoder.
//!
//! A checkpoint is a container of records. Record kinds: 0 schema, 1 data,
//! 2 dict, 3 index, 4 fsm, 5 rowid, 6 zonemap, 0xfe the next row id. The `id` is
//! the page id for page records, the column for index records, and 0 for the
//! others.
//!
//! A *data record* body is itself structured:
//!
//! ```text
//!   [u32 body_len][body bytes][u32 slot_count][slot entries]
//! ```
//!
//! and the zonemap record is `[u32 num_cols]` followed by `[u32 len][len bytes]`
//! for each column.

use crate::body;
use crate::bytes;
use crate::container;
use crate::container::Record;
use crate::database;
use crate::database::Database;
use crate::dict;
use crate::dict::Dict;
use crate::error::{DecodeError, Error, Result};
use crate::fsm;
use crate::fsm::Fsm;
use crate::index;
use crate::index::IndexCache;
use crate::pager;
use crate::pager::{PageKind, Pager};
use crate::rowid;
use crate::rowid::{Home, RowIdMap};
use crate::schema;
use crate::schema::Schema;
use crate::zonemap;
use crate::zonemap::{Zone, ZoneMap};
use vstd::prelude::*;

verus! {

// What a database is stored as

/// The stored form of a data page.
pub open spec fn data_bytes(p: pager::PageModel) -> Seq<u8> {
    bytes::le32(p.buf.len() as u32) + p.buf + match p.slots {
        Some(s) => body::slots_bytes(s),
        None => Seq::empty(),
    }
}

/// The dictionary pages that the first `n` columns name.
pub open spec fn dict_records(m: database::DbModel, n: nat) -> Seq<container::RecordModel>
    decreases n,
{
    if n == 0 {
        Seq::empty()
    } else {
        let before = dict_records(m, (n - 1) as nat);
        match m.schema[n - 1].dict_page {
            Some(id) => match m.pager.page(id) {
                Some(p) => before.push(container::RecordModel { kind: 2, id, body: p.buf }),
                None => before,
            },
            None => before,
        }
    }
}

/// The data pages among the first `n` pages.
pub open spec fn data_records(m: database::DbModel, n: nat) -> Seq<container::RecordModel>
    decreases n,
{
    if n == 0 {
        Seq::empty()
    } else {
        let before = data_records(m, (n - 1) as nat);
        let p = m.pager.pages[n - 1].1;
        if p.kind == PageKind::Data {
            before.push(container::RecordModel { kind: 1, id: p.id, body: data_bytes(p) })
        } else {
            before
        }
    }
}

/// The indexes of the first `n` columns.
pub open spec fn index_records(m: database::DbModel, n: nat) -> Seq<container::RecordModel>
    decreases n,
{
    if n == 0 {
        Seq::empty()
    } else {
        let before = index_records(m, (n - 1) as nat);
        match m.indexes[n - 1] {
            Some(x) => before.push(
                container::RecordModel { kind: 3, id: (n - 1) as u32, body: index::index_bytes(x) },
            ),
            None => before,
        }
    }
}

/// Zone maps one after another, each behind its length.
pub open spec fn zones_bytes(z: Seq<Seq<(u64, Zone)>>) -> Seq<u8>
    decreases z.len(),
{
    if z.len() == 0 {
        Seq::empty()
    } else {
        let e = zonemap::zonemap_bytes(z[0]);
        bytes::le32(e.len() as u32) + e + zones_bytes(z.skip(1))
    }
}

/// The records of a database.
pub open spec fn records(m: database::DbModel) -> Seq<container::RecordModel> {
    seq![container::RecordModel { kind: 0, id: 0, body: schema::schema_bytes(m.schema) }] + dict_records(
        m,
        m.schema.len(),
    ) + data_records(m, m.pager.pages.len()) + index_records(m, m.indexes.len()) + last_records(m)
}

/// The records at the end.
pub open spec fn last_records(m: database::DbModel) -> Seq<container::RecordModel> {
    seq![
        container::RecordModel { kind: 4, id: 0, body: fsm::fsm_bytes(m.fsm) },
        container::RecordModel { kind: 5, id: 0, body: rowid::rowid_bytes(m.rows) },
        container::RecordModel { kind: 6, id: 0, body: bytes::le32(m.zones.len() as u32) + zones_bytes(m.zones) },
        container::RecordModel { kind: 0xfe, id: 0, body: bytes::le64(m.next_row_id) },
    ]
}

pub open spec fn zone_fits(z: Seq<(u64, Zone)>) -> bool {
    z.len() <= u32::MAX && zonemap::zonemap_bytes(z).len() <= u32::MAX
}

pub open spec fn page_fits(p: pager::PageModel) -> bool {
    p.buf.len() <= u32::MAX && p.dir().len() <= u32::MAX
}

pub open spec fn index_fits(x: Option<index::IndexModel>) -> bool {
    x matches Some(i) ==> index::storable(i.entries)
}

/// A database whose lengths fit the format.
pub open spec fn storable(m: database::DbModel) -> bool {
    &&& schema::storable(m.schema)
    &&& m.fsm.free.len() <= u32::MAX
    &&& m.fsm.space.len() <= u32::MAX
    &&& m.rows.len() <= u32::MAX
    &&& m.zones.len() <= u32::MAX
    &&& forall|i: int| 0 <= i < m.zones.len() ==> zone_fits(#[trigger] m.zones[i])
    &&& forall|i: int| 0 <= i < m.pager.pages.len() ==> page_fits((#[trigger] m.pager.pages[i]).1)
    &&& forall|i: int| 0 <= i < m.indexes.len() ==> index_fits(#[trigger] m.indexes[i])
    &&& records(m).len() <= u32::MAX
    &&& container::bodies(records(m)).len() <= u32::MAX
}

// What records are read as

/// A database as far as it is read.
#[verifier::ext_equal]
pub struct LoadModel {
    pub schema: Option<Seq<schema::ColumnModel>>,
    pub next_row_id: u64,
    pub fsm: fsm::FsmModel,
    pub rows: Seq<(u64, Home)>,
    pub zones: Seq<Seq<(u64, Zone)>>,
    pub pager: pager::PagerModel,
    pub indexes: Seq<(u32, Seq<u8>)>,
}

/// Before anything is read.
pub open spec fn nothing_read() -> LoadModel {
    LoadModel {
        schema: None,
        next_row_id: 1,
        fsm: fsm::no_space(),
        rows: Seq::empty(),
        zones: Seq::empty(),
        pager: pager::no_pages(),
        indexes: Seq::empty(),
    }
}

/// The next `n` length-prefixed zone maps of `s`, as far as they are there.
pub open spec fn zones_of(s: Seq<u8>, n: nat) -> Seq<Seq<(u64, Zone)>>
    decreases n,
{
    if n == 0 || s.len() < 4 || 4 + bytes::u32_at(s, 0) > s.len() {
        Seq::empty()
    } else {
        let l = bytes::u32_at(s, 0) as int;
        seq![zonemap::zonemap_of(s.subrange(4, 4 + l))] + zones_of(s.skip(4 + l), (n - 1) as nat)
    }
}

/// The zone maps of a record.
pub open spec fn zone_record(s: Seq<u8>) -> Seq<Seq<(u64, Zone)>> {
    if s.len() < 4 {
        Seq::empty()
    } else {
        zones_of(s.skip(4), bytes::u32_at(s, 0) as nat)
    }
}

/// The page of a data record: its bytes and its slots.
pub open spec fn data_of(s: Seq<u8>) -> Option<(Seq<u8>, Seq<pager::SlotEntry>)> {
    if s.len() < 4 || 4 + bytes::u32_at(s, 0) > s.len() {
        None
    } else {
        let n = bytes::u32_at(s, 0) as int;
        match body::slots_of(s.skip(4 + n)) {
            Some(slots) => Some((s.subrange(4, 4 + n), slots)),
            None => None,
        }
    }
}

/// The id that a page record is read under: its own, or the next one where no
/// page can have that.
pub open spec fn page_id_for(p: pager::PagerModel, id: u32) -> u32 {
    if id == u32::MAX {
        p.high_water
    } else {
        id
    }
}

/// What a record adds, or why it cannot be read. A record of another kind adds
/// nothing.
pub open spec fn step(l: LoadModel, r: container::RecordModel) -> std::result::Result<LoadModel, DecodeError> {
    if r.kind == 0 {
        match schema::schema_of(r.body) {
            Some(s) => Ok(LoadModel { schema: Some(s), ..l }),
            None => Err(DecodeError::BadSchema),
        }
    } else if r.kind == 0xfe {
        Ok(
            LoadModel {
                next_row_id: if r.body.len() >= 8 {
                    bytes::u64_at(r.body, 0)
                } else {
                    l.next_row_id
                },
                ..l
            },
        )
    } else if r.kind == 2 {
        let id = page_id_for(l.pager, r.id);
        if id == u32::MAX {
            Err(DecodeError::BadDirectory)
        } else {
            Ok(
                LoadModel {
                    pager: pager::placed(l.pager, id, pager::loaded_page(id, PageKind::Dict, r.body, None)),
                    ..l
                },
            )
        }
    } else if r.kind == 1 {
        match data_of(r.body) {
            None => Err(DecodeError::Truncated),
            Some((buf, slots)) => {
                let id = page_id_for(l.pager, r.id);
                if id == u32::MAX {
                    Err(DecodeError::BadDirectory)
                } else {
                    Ok(
                        LoadModel {
                            pager: pager::placed(
                                l.pager,
                                id,
                                pager::loaded_page(id, PageKind::Data, buf, Some(slots)),
                            ),
                            ..l
                        },
                    )
                }
            },
        }
    } else if r.kind == 3 {
        Ok(LoadModel { indexes: l.indexes.push((r.id, r.body)), ..l })
    } else if r.kind == 4 {
        Ok(LoadModel { fsm: fsm::fsm_of(r.body), ..l })
    } else if r.kind == 5 {
        Ok(LoadModel { rows: rowid::rowid_of(r.body), ..l })
    } else if r.kind == 6 && l.schema is Some {
        Ok(LoadModel { zones: l.zones + zone_record(r.body), ..l })
    } else {
        Ok(l)
    }
}

/// What records add, one after another.
pub open spec fn load(l: LoadModel, r: Seq<container::RecordModel>) -> std::result::Result<LoadModel, DecodeError>
    decreases r.len(),
{
    if r.len() == 0 {
        Ok(l)
    } else {
        match load(l, r.drop_last()) {
            Ok(k) => step(k, r.last()),
            Err(e) => Err(e),
        }
    }
}

/// Zone maps, with empty ones added up to one per column.
pub open spec fn padded(z: Seq<Seq<(u64, Zone)>>, n: nat) -> Seq<Seq<(u64, Zone)>> {
    if z.len() >= n {
        z
    } else {
        z + Seq::new((n - z.len()) as nat, |i: int| Seq::empty())
    }
}

/// Indexes with stored ones read in.
pub open spec fn with_indexes(
    s: Seq<schema::ColumnModel>,
    x: Seq<Option<index::IndexModel>>,
    r: Seq<(u32, Seq<u8>)>,
) -> Seq<Option<index::IndexModel>>
    decreases r.len(),
{
    if r.len() == 0 {
        x
    } else {
        let before = with_indexes(s, x, r.drop_last());
        let (ci, b) = r.last();
        if ci < before.len() {
            before.update(ci as int, Some(index::index_of(b, s[ci as int].name)))
        } else {
            before
        }
    }
}

/// The mirror of a column's dictionary page; a fresh one where the page is not
/// there or cannot be mirrored.
pub open spec fn mirror(c: schema::ColumnModel, p: pager::PagerModel) -> Option<dict::DictModel> {
    match c.dict_page {
        None => None,
        Some(id) => match p.page(id) {
            None => Some(dict::fresh_dict(id)),
            Some(page) => match dict::dict_of(id, page.buf, page.gen) {
                Some(d) => Some(d),
                None => Some(dict::fresh_dict(id)),
            },
        },
    }
}

/// The database once all records are read.
pub open spec fn finished(l: LoadModel) -> std::result::Result<database::DbModel, DecodeError> {
    match l.schema {
        None => Err(DecodeError::BadSchema),
        Some(s) => Ok(
            database::DbModel {
                schema: s,
                pager: l.pager,
                fsm: l.fsm,
                rows: l.rows,
                indexes: with_indexes(s, database::empty_db(s).indexes, l.indexes),
                dicts: Seq::new(s.len(), |i: int| mirror(s[i], l.pager)),
                zones: padded(l.zones, s.len()),
                next_row_id: l.next_row_id,
                stats: database::no_stats(),
                page_rows: Seq::empty(),
            },
        ),
    }
}

/// The database stored in `s`, or why it cannot be read.
pub open spec fn database_of(s: Seq<u8>) -> std::result::Result<database::DbModel, DecodeError> {
    match container::container_of(s) {
        Err(e) => Err(e),
        Ok(r) => match load(nothing_read(), r) {
            Err(e) => Err(e),
            Ok(l) => finished(l),
        },
    }
}

// Writing

fn record(kind: u8, id: u32, body: Vec<u8>) -> (r: Record)
    ensures
        r@ == (container::RecordModel { kind, id, body: body@ }),
{
    Record { kind, id, body }
}

fn push_record(out: &mut Vec<Record>, r: Record)
    ensures
        container::record_models(final(out)@) == container::record_models(old(out)@).push(r@),
{
    let ghost m = r@;
    out.push(r);
    assert(container::record_models(out@) =~= container::record_models(old(out)@).push(m));
}

fn put_dicts(db: &Database, out: &mut Vec<Record>)
    requires
        db.wf(),
    ensures
        container::record_models(final(out)@) == container::record_models(old(out)@) + dict_records(
            db@,
            db@.schema.len(),
        ),
{
    let ghost m = db@;
    let ghost start = container::record_models(out@);
    let mut i: usize = 0;
    assert(start + dict_records(m, 0) =~= start);
    while i < db.schema.columns.len()
        invariant
            i <= db.schema.columns@.len(),
            m == db@,
            db.wf(),
            container::record_models(out@) == start + dict_records(m, i as nat),
        decreases db.schema.columns@.len() - i,
    {
        let ghost was = container::record_models(out@);
        assert(m.schema[i as int] == db.schema.columns@[i as int]@);
        match db.schema.columns[i].dict_page {
            Some(id) => {
                match db.pager.get(id) {
                    Some(page) => {
                        let copy = bytes::copy_range(page.buf.as_slice(), 0, page.buf.len());
                        assert(copy@ =~= page@.buf);
                        push_record(out, record(2, id, copy));
                    },
                    None => {},
                }
            },
            None => {},
        }
        assert(container::record_models(out@) =~= start + dict_records(m, (i + 1) as nat));
        i += 1;
    }
}

fn put_data(db: &Database, out: &mut Vec<Record>)
    requires
        db.wf(),
        storable(db@),
    ensures
        container::record_models(final(out)@) == container::record_models(old(out)@) + data_records(
            db@,
            db@.pager.pages.len(),
        ),
{
    let ghost m = db@;
    let ghost start = container::record_models(out@);
    let mut i: usize = 0;
    assert(start + data_records(m, 0) =~= start);
    while i < db.pager.count()
        invariant
            i <= m.pager.pages.len(),
            m == db@,
            db.wf(),
            storable(m),
            container::record_models(out@) == start + data_records(m, i as nat),
        decreases m.pager.pages.len() - i,
    {
        let page = db.pager.page_at(i);
        let ghost p = m.pager.pages[i as int].1;
        assert(page_fits(p));
        if page.kind == PageKind::Data {
            let mut b: Vec<u8> = Vec::new();
            bytes::put_u32(&mut b, page.buf.len() as u32);
            bytes::put_bytes(&mut b, page.buf.as_slice());
            match &page.slot_dir {
                Some(d) => {
                    let s = body::encode_slots(d);
                    bytes::put_bytes(&mut b, s.as_slice());
                },
                None => {},
            }
            assert(b@ =~= data_bytes(p));
            push_record(out, record(1, page.id, b));
        }
        assert(container::record_models(out@) =~= start + data_records(m, (i + 1) as nat));
        i += 1;
    }
}

fn put_indexes(db: &Database, out: &mut Vec<Record>)
    requires
        storable(db@),
        db@.indexes.len() <= u32::MAX,
    ensures
        container::record_models(final(out)@) == container::record_models(old(out)@) + index_records(
            db@,
            db@.indexes.len(),
        ),
{
    let ghost m = db@;
    let ghost start = container::record_models(out@);
    let mut i: usize = 0;
    assert(start + index_records(m, 0) =~= start);
    while i < db.indexes.len()
        invariant
            i <= db.indexes@.len(),
            m == db@,
            storable(m),
            m.indexes.len() <= u32::MAX,
            container::record_models(out@) == start + index_records(m, i as nat),
        decreases db.indexes@.len() - i,
    {
        assert(m.indexes[i as int] == database::index_view(db.indexes@[i as int]));
        assert(index_fits(m.indexes[i as int]));
        match &db.indexes[i] {
            Some(x) => {
                push_record(out, record(3, i as u32, x.encode()));
            },
            None => {},
        }
        assert(container::record_models(out@) =~= start + index_records(m, (i + 1) as nat));
        i += 1;
    }
}

fn put_zones(db: &Database, out: &mut Vec<u8>)
    requires
        storable(db@),
    ensures
        final(out)@ == old(out)@ + zones_bytes(db@.zones),
{
    let ghost z = db@.zones;
    let mut i: usize = 0;
    assert(z.skip(0) =~= z);
    while i < db.zone_maps.len()
        invariant
            i <= db.zone_maps@.len(),
            z == db@.zones,
            storable(db@),
            out@ + zones_bytes(z.skip(i as int)) == old(out)@ + zones_bytes(z),
        decreases db.zone_maps@.len() - i,
    {
        assert(z[i as int] == db.zone_maps@[i as int]@);
        assert(zone_fits(z[i as int]));
        let ghost was = out@;
        let e = db.zone_maps[i].encode();
        bytes::put_u32(out, e.len() as u32);
        bytes::put_bytes(out, e.as_slice());
        proof {
            let t = z.skip(i as int);
            assert(t[0] == z[i as int]);
            assert(t.skip(1) =~= z.skip(i + 1));
            assert(out@ + zones_bytes(z.skip(i + 1)) =~= was + zones_bytes(t));
        }
        i += 1;
    }
    assert(z.skip(i as int).len() == 0);
    assert(out@ =~= old(out)@ + zones_bytes(z));
}

/// Serialize a whole database (used by `checkpoint`).
pub fn encode_database(db: &Database) -> (out: Vec<u8>)
    requires
        db.wf(),
        storable(db@),
    ensures
        out@ == container::container_bytes(records(db@)),
{
    let ghost m = db@;
    let mut entries: Vec<Record> = Vec::new();
    push_record(&mut entries, record(0, 0, db.schema.encode()));
    let ghost first = container::RecordModel { kind: 0, id: 0, body: schema::schema_bytes(m.schema) };
    assert(container::record_models(entries@) =~= seq![first]);
    put_dicts(db, &mut entries);
    put_data(db, &mut entries);
    put_indexes(db, &mut entries);
    let ghost before = container::record_models(entries@);
    push_record(&mut entries, record(4, 0, db.fsm.encode()));
    push_record(&mut entries, record(5, 0, db.rowid_map.encode()));
    let mut zm: Vec<u8> = Vec::new();
    bytes::put_u32(&mut zm, db.zone_maps.len() as u32);
    put_zones(db, &mut zm);
    assert(zm@ =~= bytes::le32(m.zones.len() as u32) + zones_bytes(m.zones));
    push_record(&mut entries, record(6, 0, zm));
    let mut next: Vec<u8> = Vec::new();
    bytes::put_u64(&mut next, db.next_row_id);
    assert(next@ =~= bytes::le64(m.next_row_id));
    push_record(&mut entries, record(0xfe, 0, next));
    assert(container::record_models(entries@) =~= before + last_records(m));
    assert(container::record_models(entries@) == records(m));
    container::encode_container(&entries)
}

// Reading

struct Load {
    schema: Option<Schema>,
    next_row_id: u64,
    fsm: Fsm,
    rows: RowIdMap,
    zones: Vec<ZoneMap>,
    pager: Pager,
    indexes: Vec<(u32, Vec<u8>)>,
}

spec fn index_bodies(s: Seq<(u32, Vec<u8>)>) -> Seq<(u32, Seq<u8>)> {
    Seq::new(s.len(), |i: int| (s[i].0, s[i].1@))
}

impl Load {
    spec fn model(self) -> LoadModel {
        LoadModel {
            schema: match self.schema {
                Some(s) => Some(s@),
                None => None,
            },
            next_row_id: self.next_row_id,
            fsm: self.fsm@,
            rows: self.rows@,
            zones: database::zone_views(self.zones@),
            pager: self.pager@,
            indexes: index_bodies(self.indexes@),
        }
    }

    spec fn wf(self) -> bool {
        &&& self.fsm.wf()
        &&& self.rows.wf()
        &&& self.pager.wf()
        &&& self.pager@.free_ids.len() == 0
        &&& forall|i: int| 0 <= i < self.zones@.len() ==> (#[trigger] self.zones@[i]).wf()
    }

    fn new() -> (r: Load)
        ensures
            r.wf(),
            r.model() == nothing_read(),
    {
        let r = Load {
            schema: None,
            next_row_id: 1,
            fsm: Fsm::new(),
            rows: RowIdMap::new(),
            zones: Vec::new(),
            pager: Pager::new(),
            indexes: Vec::new(),
        };
        assert(r.model() =~= nothing_read());
        r
    }

    fn place_for(&self, id: u32) -> (r: u32)
        ensures
            r == page_id_for(self.model().pager, id),
    {
        if id == u32::MAX {
            self.pager.high_water()
        } else {
            id
        }
    }

    fn read_data(&mut self, id: u32, s: &[u8]) -> (r: std::result::Result<(), DecodeError>)
        requires
            old(self).wf(),
        ensures
            final(self).wf(),
            match step(old(self).model(), (container::RecordModel { kind: 1, id, body: s@ })) {
                Ok(l) => r is Ok && final(self).model() == l,
                Err(e) => r == Err::<(), DecodeError>(e),
            },
    {
        if s.len() < 4 {
            return Err(DecodeError::Truncated);
        }
        let n: usize = bytes::get_u32(s, 0) as usize;
        if n > s.len() - 4 {
            return Err(DecodeError::Truncated);
        }
        let rest = vstd::slice::slice_subrange(s, 4 + n, s.len());
        assert(rest@ =~= s@.skip(4 + n));
        let slots = match body::decode_slots(rest) {
            Ok(v) => v,
            Err(_) => return Err(DecodeError::Truncated),
        };
        let buf = bytes::copy_range(s, 4, 4 + n);
        let pid = self.place_for(id);
        if self.pager.place(pid, PageKind::Data, buf, Some(slots)) {
            Ok(())
        } else {
            Err(DecodeError::BadDirectory)
        }
    }

    fn read_zones(&mut self, s: &[u8])
        requires
            old(self).wf(),
        ensures
            final(self).wf(),
            final(self).model() == (LoadModel {
                zones: old(self).model().zones + zone_record(s@),
                ..old(self).model()
            }),
    {
        let ghost was = self.model().zones;
        if s.len() < 4 {
            assert(was + zone_record(s@) =~= was);
            return;
        }
        let n: u32 = bytes::get_u32(s, 0);
        let mut pos: usize = 4;
        let mut i: u32 = 0;
        let mut on: bool = true;
        while on && i < n
            invariant
                i <= n,
                4 <= pos <= s@.len(),
                self.wf(),
                self.model() == (LoadModel { zones: self.model().zones, ..old(self).model() }),
                on ==> self.model().zones + zones_of(s@.skip(pos as int), (n - i) as nat) == was + zones_of(
                    s@.skip(4),
                    n as nat,
                ),
                !on ==> self.model().zones == was + zones_of(s@.skip(4), n as nat),
            decreases n - i,
        {
            let ghost t = s@.skip(pos as int);
            let ghost now = self.model().zones;
            if s.len() - pos < 4 {
                on = false;
                assert(now + Seq::<Seq<(u64, Zone)>>::empty() =~= now);
            } else {
                proof {
                    bytes::lemma_at_skip(s@, pos as int, 0);
                }
                let l: usize = bytes::get_u32(s, pos) as usize;
                if l > s.len() - pos - 4 {
                    on = false;
                    assert(now + Seq::<Seq<(u64, Zone)>>::empty() =~= now);
                } else {
                    let part = vstd::slice::slice_subrange(s, pos + 4, pos + 4 + l);
                    assert(part@ =~= t.subrange(4, 4 + l as int));
                    let z = ZoneMap::decode(part);
                    let ghost m = z@;
                    self.zones.push(z);
                    proof {
                        assert(self.model().zones =~= now.push(m));
                        let next = pos + 4 + l;
                        assert(t.skip(4 + l as int) =~= s@.skip(next));
                        let rest = zones_of(s@.skip(next), (n - i - 1) as nat);
                        assert(now.push(m) + rest =~= now + (seq![m] + rest));
                    }
                    pos = pos + 4 + l;
                }
            }
            i += 1;
        }
        proof {
            if on {
                assert(zones_of(s@.skip(pos as int), 0) =~= Seq::empty());
                assert(self.model().zones + Seq::<Seq<(u64, Zone)>>::empty() =~= self.model().zones);
            }
        }
    }

    fn read(&mut self, r: &Record) -> (res: std::result::Result<(), DecodeError>)
        requires
            old(self).wf(),
        ensures
            final(self).wf(),
            match step(old(self).model(), r@) {
                Ok(l) => res is Ok && final(self).model() == l,
                Err(e) => res == Err::<(), DecodeError>(e),
            },
    {
        let s = r.body.as_slice();
        match r.kind {
            0 => match Schema::decode(s) {
                Ok(x) => {
                    self.schema = Some(x);
                },
                Err(e) => {
                    return Err(e);
                },
            },
            0xfe => if s.len() >= 8 {
                self.next_row_id = bytes::get_u64(s, 0);
            },
            2 => {
                let buf = bytes::copy_range(s, 0, s.len());
                assert(buf@ =~= s@);
                let pid = self.place_for(r.id);
                if !self.pager.place(pid, PageKind::Dict, buf, None) {
                    return Err(DecodeError::BadDirectory);
                }
            },
            1 => {
                return self.read_data(r.id, s);
            },
            3 => {
                let copy = bytes::copy_range(s, 0, s.len());
                assert(copy@ =~= s@);
                let ghost was = self.indexes@;
                self.indexes.push((r.id, copy));
                assert(index_bodies(self.indexes@) =~= index_bodies(was).push((r.id, s@)));
            },
            4 => {
                self.fsm = Fsm::decode(s);
            },
            5 => {
                self.rows = RowIdMap::decode(s);
            },
            6 => if self.schema.is_some() {
                self.read_zones(s);
            },
            _ => {},
        }
        Ok(())
    }

    fn finish(self) -> (r: std::result::Result<Database, DecodeError>)
        requires
            self.wf(),
        ensures
            match r {
                Ok(db) => db.wf() && finished(self.model()) == Ok::<database::DbModel, DecodeError>(db@),
                Err(e) => finished(self.model()) == Err::<database::DbModel, DecodeError>(e),
            },
    {
        let ghost l = self.model();
        let schema = match self.schema {
            Some(s) => s,
            None => return Err(DecodeError::BadSchema),
        };
        let ghost s = schema@;
        let mut zones: Vec<ZoneMap> = self.zones;
        while zones.len() < schema.arity()
            invariant
                s == schema@,
                l.zones.len() <= zones@.len(),
                zones@.len() <= s.len() || zones@.len() == l.zones.len(),
                forall|i: int| 0 <= i < zones@.len() ==> (#[trigger] zones@[i]).wf(),
                forall|i: int| 0 <= i < l.zones.len() ==> (#[trigger] zones@[i])@ == l.zones[i],
                forall|i: int| l.zones.len() <= i < zones@.len() ==> (#[trigger] zones@[i])@ == Seq::<(u64, Zone)>::empty(),
            decreases s.len() - zones@.len(),
        {
            zones.push(ZoneMap::new());
        }
        assert(database::zone_views(zones@) =~= padded(l.zones, s.len()));
        let mut db = Database::new(schema);
        db.pager = self.pager;
        db.fsm = self.fsm;
        db.rowid_map = self.rows;
        db.zone_maps = zones;
        db.next_row_id = self.next_row_id;
        let ghost first = database::empty_db(s).indexes;
        let mut i: usize = 0;
        let ghost x = l.indexes;
        assert(x.take(0) =~= Seq::empty());
        while i < self.indexes.len()
            invariant
                i <= self.indexes@.len(),
                x == index_bodies(self.indexes@),
                db.schema@ == s,
                db.pager == self.pager,
                db.fsm == self.fsm,
                db.rowid_map == self.rows,
                db.zone_maps == zones,
                db.next_row_id == self.next_row_id,
                db.stats == database::no_stats(),
                db.page_rows@ == Seq::<(u64, Seq<u64>)>::empty(),
                db@.dicts == database::empty_db(s).dicts,
                db@.indexes == with_indexes(s, first, x.take(i as int)),
                db@.indexes.len() == s.len(),
            decreases self.indexes@.len() - i,
        {
            let ci: usize = self.indexes[i].0 as usize;
            let ghost was = db.indexes@;
            proof {
                assert(x.take(i + 1).drop_last() =~= x.take(i as int));
                assert(x[i as int] == (self.indexes@[i as int].0, self.indexes@[i as int].1@));
            }
            if ci < db.indexes.len() {
                let name = db.schema.columns[ci].name.as_str();
                assert(s[ci as int] == db.schema.columns@[ci as int]@);
                let idx = IndexCache::decode(self.indexes[i].1.as_slice(), name);
                let ghost m = idx@;
                db.indexes.set(ci, Some(idx));
                assert(database::index_views(db.indexes@) =~= database::index_views(was).update(ci as int, Some(m)));
            }
            i += 1;
        }
        assert(x.take(i as int) =~= x);
        let mut ci: usize = 0;
        assert forall|j: int| 0 <= j < s.len() implies database::dict_view(#[trigger] db.dicts@[j])
            == database::first_dict(s[j]) by {
            assert(db@.dicts[j] == database::empty_db(s).dicts[j]);
        }
        while ci < db.schema.columns.len()
            invariant
                ci <= db.schema.columns@.len(),
                self.pager.wf(),
                db.schema@ == s,
                db.pager == self.pager,
                db.fsm == self.fsm,
                db.rowid_map == self.rows,
                db.zone_maps == zones,
                db.next_row_id == self.next_row_id,
                db.stats == database::no_stats(),
                db.page_rows@ == Seq::<(u64, Seq<u64>)>::empty(),
                db@.indexes == with_indexes(s, first, x),
                db@.indexes.len() == s.len(),
                l.pager == self.pager@,
                db.dicts@.len() == s.len(),
                forall|j: int|
                    0 <= j < ci ==> database::dict_view(#[trigger] db.dicts@[j]) == mirror(s[j], l.pager)
                        && database::dict_ok(database::dict_view(db.dicts@[j])),
                forall|j: int|
                    ci <= j < s.len() ==> database::dict_view(#[trigger] db.dicts@[j]) == database::first_dict(s[j]),
            decreases db.schema.columns@.len() - ci,
        {
            assert(s[ci as int] == db.schema.columns@[ci as int]@);
            assert(database::dict_view(db.dicts@[ci as int]) == database::first_dict(s[ci as int]));
            match db.schema.columns[ci].dict_page {
                Some(id) => {
                    let found = match db.pager.get(id) {
                        Some(page) => match Dict::from_page(id, page.buf.as_slice(), page.gen) {
                            Ok(d) => Some(d),
                            Err(_) => None,
                        },
                        None => None,
                    };
                    match found {
                        Some(d) => {
                            db.dicts.set(ci, Some(d));
                        },
                        None => {},
                    }
                },
                None => {},
            }
            ci += 1;
        }
        proof {
            assert(db@.dicts =~= Seq::new(s.len(), |i: int| mirror(s[i], l.pager)));
            assert(finished(l)->Ok_0 =~= db@);
            assert forall|i: int| 0 <= i < db@.dicts.len() implies database::dict_ok(#[trigger] db@.dicts[i]) by {
                assert(db@.dicts[i] == database::dict_view(db.dicts@[i]));
            }
            assert forall|i: int| 0 <= i < db@.zones.len() implies database::zones_ok(#[trigger] db@.zones[i]) by {
                assert(db@.zones[i] == zones@[i]@);
                assert(zones@[i].wf());
            }
        }
        Ok(db)
    }
}

/// Decode a `.sht` blob into a database.
pub fn decode(data: &[u8]) -> (r: Result<Database>)
    ensures
        match r {
            Ok(db) => db.wf() && database_of(data@) == Ok::<database::DbModel, DecodeError>(db@),
            Err(Error::Decode(e)) => database_of(data@) == Err::<database::DbModel, DecodeError>(e),
            Err(_) => false,
        },
{
    let entries = match container::decode_container(data) {
        Ok(v) => v,
        Err(e) => return Err(Error::Decode(e)),
    };
    let ghost r = container::record_models(entries@);
    let mut l = Load::new();
    let mut i: usize = 0;
    assert(r.take(0) =~= Seq::empty());
    while i < entries.len()
        invariant
            i <= entries@.len(),
            r == container::record_models(entries@),
            container::container_of(data@) == Ok::<Seq<container::RecordModel>, DecodeError>(r),
            l.wf(),
            load(nothing_read(), r.take(i as int)) == Ok::<LoadModel, DecodeError>(l.model()),
        decreases entries@.len() - i,
    {
        proof {
            assert(r.take(i + 1).drop_last() =~= r.take(i as int));
            assert(r[i as int] == entries@[i as int]@);
        }
        match l.read(&entries[i]) {
            Ok(_) => {},
            Err(e) => {
                proof {
                    lemma_load_error(nothing_read(), r, i + 1);
                }
                return Err(Error::Decode(e));
            },
        }
        i += 1;
    }
    assert(r.take(i as int) =~= r);
    match l.finish() {
        Ok(db) => Ok(db),
        Err(e) => Err(Error::Decode(e)),
    }
}

proof fn lemma_load_error(l: LoadModel, r: Seq<container::RecordModel>, n: int)
    requires
        0 <= n <= r.len(),
        load(l, r.take(n)) is Err,
    ensures
        load(l, r) == load(l, r.take(n)),
    decreases r.len() - n,
{
    if n < r.len() {
        assert(r.take(n + 1).drop_last() =~= r.take(n));
        lemma_load_error(l, r, n + 1);
    } else {
        assert(r.take(n) =~= r);
    }
}

} // verus!
