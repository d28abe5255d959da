//! The `Database` aggregate.
//!
//! A database owns the pager plus the in-memory bookkeeping structures
//! (free-space map, row-id map, secondary index caches, zone maps) that the
//! format layer serializes into pages on checkpoint.

use crate::dict;
use crate::dict::Dict;
use crate::fsm;
use crate::fsm::Fsm;
use crate::index;
use crate::index::IndexCache;
use crate::keymap;
use crate::keymap::KeyMap;
use crate::pager;
use crate::pager::{PageId, Pager};
use crate::rowid::{Home, RowIdMap};
use crate::schema;
use crate::schema::Schema;
use crate::zonemap;
use crate::zonemap::{Zone, ZoneMap};
use vstd::prelude::*;

verus! {

/// Lightweight statistics maintained alongside the database.
#[derive(Debug, Clone, Copy, PartialEq, Eq, Structural)]
pub struct DbStats {
    pub inserts: u64,
    pub updates: u64,
    pub deletes: u64,
    pub compactions: u64,
    pub checkpoints: u64,
    pub scans: u64,
    pub index_scans: u64,
}

/// Statistics before anything happened.
pub open spec fn no_stats() -> DbStats {
    DbStats { inserts: 0, updates: 0, deletes: 0, compactions: 0, checkpoints: 0, scans: 0, index_scans: 0 }
}

impl Default for DbStats {
    fn default() -> (r: DbStats)
        ensures
            r == no_stats(),
    {
        DbStats { inserts: 0, updates: 0, deletes: 0, compactions: 0, checkpoints: 0, scans: 0, index_scans: 0 }
    }
}

/// The aggregate database.
#[derive(Debug, Clone)]
pub struct Database {
    pub schema: Schema,
    pub pager: Pager,
    pub fsm: Fsm,
    pub rowid_map: RowIdMap,
    /// One index cache per indexed column, in schema column order. Unindexed
    /// columns have `None` here; the entry is present iff the column declares
    /// an `index_page` in the schema.
    pub indexes: Vec<Option<IndexCache>>,
    /// One dictionary mirror per text column with a `dict_page`, in column
    /// order. `None` for non-text or `Plain` columns.
    pub dicts: Vec<Option<Dict>>,
    pub zone_maps: Vec<ZoneMap>,
    pub next_row_id: u64,
    pub stats: DbStats,
    /// Per data page, the row-id column values present in that page. This is a
    /// convenience mirror; the authoritative location of a row is the row-id
    /// map.
    pub page_rows: KeyMap<Vec<u64>>,
}

/// The model of a database.
#[verifier::ext_equal]
pub struct DbModel {
    pub schema: Seq<schema::ColumnModel>,
    pub pager: pager::PagerModel,
    pub fsm: fsm::FsmModel,
    pub rows: Seq<(u64, Home)>,
    pub indexes: Seq<Option<index::IndexModel>>,
    pub dicts: Seq<Option<dict::DictModel>>,
    pub zones: Seq<Seq<(u64, Zone)>>,
    pub next_row_id: u64,
    pub stats: DbStats,
    pub page_rows: Seq<(u64, Seq<u64>)>,
}

pub open spec fn index_view(o: Option<IndexCache>) -> Option<index::IndexModel> {
    match o {
        Some(x) => Some(x@),
        None => None,
    }
}

pub open spec fn dict_view(o: Option<Dict>) -> Option<dict::DictModel> {
    match o {
        Some(x) => Some(x@),
        None => None,
    }
}

pub open spec fn index_views(s: Seq<Option<IndexCache>>) -> Seq<Option<index::IndexModel>> {
    Seq::new(s.len(), |i: int| index_view(s[i]))
}

pub open spec fn dict_views(s: Seq<Option<Dict>>) -> Seq<Option<dict::DictModel>> {
    Seq::new(s.len(), |i: int| dict_view(s[i]))
}

pub open spec fn zone_views(s: Seq<ZoneMap>) -> Seq<Seq<(u64, Zone)>> {
    Seq::new(s.len(), |i: int| s[i]@)
}

impl View for Database {
    type V = DbModel;

    open spec fn view(&self) -> DbModel {
        DbModel {
            schema: self.schema@,
            pager: self.pager@,
            fsm: self.fsm@,
            rows: self.rowid_map@,
            indexes: index_views(self.indexes@),
            dicts: dict_views(self.dicts@),
            zones: zone_views(self.zone_maps@),
            next_row_id: self.next_row_id,
            stats: self.stats,
            page_rows: self.page_rows@,
        }
    }
}

/// A mirror that is there is well-formed.
pub open spec fn dict_ok(d: Option<dict::DictModel>) -> bool {
    d matches Some(m) ==> m.wf()
}

/// A zone map is a map by page.
pub open spec fn zones_ok(z: Seq<(u64, Zone)>) -> bool {
    keymap::ascending(z) && zonemap::keyed(z)
}

impl DbModel {
    /// The parts are well-formed, and every column has its index, mirror and
    /// zone map.
    pub open spec fn wf(self) -> bool {
        &&& self.pager.wf()
        &&& self.fsm.wf()
        &&& keymap::ascending(self.rows)
        &&& keymap::ascending(self.page_rows)
        &&& self.indexes.len() == self.schema.len()
        &&& self.dicts.len() == self.schema.len()
        &&& self.zones.len() >= self.schema.len()
        &&& forall|i: int| 0 <= i < self.dicts.len() ==> dict_ok(#[trigger] self.dicts[i])
        &&& forall|i: int| 0 <= i < self.zones.len() ==> zones_ok(#[trigger] self.zones[i])
    }

    /// Where a row lives.
    pub open spec fn home(self, row_id: u64) -> Option<Home> {
        keymap::find(self.rows, row_id)
    }
}

/// The index that a column starts with: over its dictionary page, once it has one.
pub open spec fn first_index(c: schema::ColumnModel) -> Option<index::IndexModel> {
    if c.index_page is Some {
        Some(
            index::IndexModel {
                column: c.name,
                dict_page: match c.dict_page {
                    Some(p) => p,
                    None => 0,
                },
                entries: Seq::empty(),
            },
        )
    } else {
        None
    }
}

/// The mirror that a column starts with.
pub open spec fn first_dict(c: schema::ColumnModel) -> Option<dict::DictModel> {
    match c.dict_page {
        Some(p) => Some(dict::fresh_dict(p)),
        None => None,
    }
}

/// An empty database.
pub open spec fn empty_db(s: Seq<schema::ColumnModel>) -> DbModel {
    DbModel {
        schema: s,
        pager: pager::no_pages(),
        fsm: fsm::no_space(),
        rows: Seq::empty(),
        indexes: Seq::new(s.len(), |i: int| first_index(s[i])),
        dicts: Seq::new(s.len(), |i: int| first_dict(s[i])),
        zones: Seq::new(s.len(), |i: int| Seq::empty()),
        next_row_id: 1,
        stats: no_stats(),
        page_rows: Seq::empty(),
    }
}

impl Database {
    pub open spec fn wf(self) -> bool {
        self@.wf()
    }

    pub fn new(schema: Schema) -> (r: Database)
        ensures
            r.wf(),
            r@ == empty_db(schema@),
    {
        let ghost s = schema@;
        let mut indexes: Vec<Option<IndexCache>> = Vec::new();
        let mut dicts: Vec<Option<Dict>> = Vec::new();
        let mut zone_maps: Vec<ZoneMap> = Vec::new();
        let mut i: usize = 0;
        while i < schema.columns.len()
            invariant
                i <= schema.columns@.len(),
                s == schema@,
                indexes@.len() == i,
                dicts@.len() == i,
                zone_maps@.len() == i,
                forall|j: int| 0 <= j < i ==> index_view(#[trigger] indexes@[j]) == first_index(s[j]),
                forall|j: int| 0 <= j < i ==> dict_view(#[trigger] dicts@[j]) == first_dict(s[j]),
                forall|j: int| 0 <= j < i ==> (#[trigger] zone_maps@[j])@ == Seq::<(u64, Zone)>::empty(),
            decreases schema.columns@.len() - i,
        {
            let col = &schema.columns[i];
            assert(s[i as int] == col@);
            indexes.push(
                match col.index_page {
                    Some(_) => Some(
                        match col.dict_page {
                            Some(p) => IndexCache::with_dict(col.name.clone(), p),
                            None => IndexCache::empty(col.name.clone()),
                        },
                    ),
                    None => None,
                },
            );
            dicts.push(
                match col.dict_page {
                    Some(p) => Some(Dict::new(p)),
                    None => None,
                },
            );
            zone_maps.push(ZoneMap::new());
            i += 1;
        }
        let r = Database {
            schema,
            pager: Pager::new(),
            fsm: Fsm::new(),
            rowid_map: RowIdMap::new(),
            indexes,
            dicts,
            zone_maps,
            next_row_id: 1,
            stats: DbStats::default(),
            page_rows: KeyMap::new(),
        };
        proof {
            assert(r@.indexes =~= empty_db(s).indexes);
            assert(r@.dicts =~= empty_db(s).dicts);
            assert(r@.zones =~= empty_db(s).zones);
            assert forall|i: int| 0 <= i < r@.dicts.len() implies dict_ok(#[trigger] r@.dicts[i]) by {
                assert(r@.dicts[i] == first_dict(s[i]));
            }
            assert forall|i: int| 0 <= i < r@.zones.len() implies zones_ok(#[trigger] r@.zones[i]) by {
                assert(r@.zones[i] == Seq::<(u64, Zone)>::empty());
            }
        }
        r
    }

    /// The index of a column, if any.
    pub fn index_of(&self, col: usize) -> (r: Option<&IndexCache>)
        ensures
            match r {
                Some(x) => col < self@.indexes.len() && self@.indexes[col as int] == Some(x@),
                None => col >= self@.indexes.len() || self@.indexes[col as int] is None,
            },
    {
        if col >= self.indexes.len() {
            return None;
        }
        match &self.indexes[col] {
            Some(x) => Some(x),
            None => None,
        }
    }

    /// The index of a column, if any, to change it.
    pub fn index_of_mut(&mut self, col: usize) -> (r: Option<&mut IndexCache>)
        ensures
            match r {
                Some(x) => {
                    &&& col < old(self)@.indexes.len()
                    &&& old(self)@.indexes[col as int] == Some(x@)
                    &&& final(self)@ == (DbModel {
                        indexes: old(self)@.indexes.update(col as int, Some(final(x)@)),
                        ..old(self)@
                    })
                },
                None => {
                    &&& final(self)@ == old(self)@
                    &&& col >= old(self)@.indexes.len() || old(self)@.indexes[col as int] is None
                },
            },
    {
        if col >= self.indexes.len() {
            return None;
        }
        let ghost all = self.indexes@;
        let ghost m = self@;
        proof {
            assert forall|g: Option<IndexCache>| index_views(#[trigger] all.update(col as int, g)) == m.indexes.update(
                col as int,
                index_view(g),
            ) by {
                assert(index_views(all.update(col as int, g)) =~= m.indexes.update(col as int, index_view(g)));
            }
        }
        match &mut self.indexes[col] {
            Some(x) => Some(x),
            None => None,
        }
    }

    /// The dictionary mirror of a column, if any.
    pub fn dict_for(&self, col: usize) -> (r: Option<&Dict>)
        ensures
            match r {
                Some(x) => col < self@.dicts.len() && self@.dicts[col as int] == Some(x@),
                None => col >= self@.dicts.len() || self@.dicts[col as int] is None,
            },
    {
        if col >= self.dicts.len() {
            return None;
        }
        match &self.dicts[col] {
            Some(x) => Some(x),
            None => None,
        }
    }

    /// Resolve a row id to its home page and slot via the row-id map.
    pub fn locate(&self, row_id: u64) -> (r: Option<(PageId, usize)>)
        requires
            self.wf(),
        ensures
            match r {
                Some((page, slot)) => self@.home(row_id) == Some(Home { page, slot: slot as u32 }) && slot <= u32::MAX,
                None => self@.home(row_id) is None,
            },
    {
        self.rowid_map.get(row_id)
    }
}

} // verus!
