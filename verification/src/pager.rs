//! The page buffer manager.
//!
//! The pager is the only subsystem that holds page memory. Every page is a
//! [`Page`]: a typed blob (`buf`) plus, for data pages, a separate slot
//! directory (`slot_dir`) that maps slot indices to rows. The pager hands out
//! [`PageId`]s, recycles freed ids, and owns the pages for the lifetime of the
//! database.

use crate::bytes;
use crate::keymap;
use crate::keymap::KeyMap;
use vstd::prelude::*;

verus! {

/// A page identifier. Ids are recycled: a freed id may be handed out again by a
/// later allocation, but a live id is unique at any instant.
pub type PageId = u32;

/// The kind of a page. The pager is type-agnostic (it just stores bytes), but
/// every page carries its kind so the verifier and the serializer can walk the
/// page set without an external directory.
#[derive(Debug, Clone, Copy, PartialEq, Eq, Structural)]
pub enum PageKind {
    Schema,
    Data,
    Dict,
    Index,
    Fsm,
    RowId,
    ZoneMap,
    Free,
}

/// The number of a page kind.
pub open spec fn page_code(k: PageKind) -> u8 {
    match k {
        PageKind::Schema => 0,
        PageKind::Data => 1,
        PageKind::Dict => 2,
        PageKind::Index => 3,
        PageKind::Fsm => 4,
        PageKind::RowId => 5,
        PageKind::ZoneMap => 6,
        PageKind::Free => 7,
    }
}

impl PageKind {
    pub fn as_u8(self) -> (r: u8)
        ensures
            r == page_code(self),
    {
        match self {
            PageKind::Schema => 0,
            PageKind::Data => 1,
            PageKind::Dict => 2,
            PageKind::Index => 3,
            PageKind::Fsm => 4,
            PageKind::RowId => 5,
            PageKind::ZoneMap => 6,
            PageKind::Free => 7,
        }
    }

    pub fn from_u8(b: u8) -> (r: Option<PageKind>)
        ensures
            match r {
                Some(k) => page_code(k) == b,
                None => b > 7,
            },
    {
        match b {
            0 => Some(PageKind::Schema),
            1 => Some(PageKind::Data),
            2 => Some(PageKind::Dict),
            3 => Some(PageKind::Index),
            4 => Some(PageKind::Fsm),
            5 => Some(PageKind::RowId),
            6 => Some(PageKind::ZoneMap),
            7 => Some(PageKind::Free),
            _ => None,
        }
    }

    pub open spec fn spec_name(self) -> Seq<char> {
        match self {
            PageKind::Schema => "schema"@,
            PageKind::Data => "data"@,
            PageKind::Dict => "dict"@,
            PageKind::Index => "index"@,
            PageKind::Fsm => "fsm"@,
            PageKind::RowId => "rowid"@,
            PageKind::ZoneMap => "zonemap"@,
            PageKind::Free => "free"@,
        }
    }

    pub fn name(self) -> (r: &'static str)
        ensures
            r@ == self.spec_name(),
    {
        match self {
            PageKind::Schema => "schema",
            PageKind::Data => "data",
            PageKind::Dict => "dict",
            PageKind::Index => "index",
            PageKind::Fsm => "fsm",
            PageKind::RowId => "rowid",
            PageKind::ZoneMap => "zonemap",
            PageKind::Free => "free",
        }
    }
}

/// One entry in a data page's slot directory.
///
/// A data page stores its encoded columnar bytes in `buf` and a slot directory
/// in `slot_dir`. Slot `i` corresponds to the row whose cells stand at place
/// `off` of the page's columns. `live` is `false` for tombstoned (deleted)
/// slots; a tombstoned slot is retained until compaction reclaims it.
#[derive(Debug, Clone, Copy, PartialEq, Eq, Structural)]
pub struct SlotEntry {
    pub row_id: u64,
    pub off: u32,
    pub len: u32,
    pub live: bool,
}

impl SlotEntry {
    pub fn new(row_id: u64, off: u32, len: u32) -> (r: SlotEntry)
        ensures
            r == (SlotEntry { row_id, off, len, live: true }),
    {
        SlotEntry { row_id, off, len, live: true }
    }
}

/// How many of the slots are live.
pub open spec fn live_among(s: Seq<SlotEntry>) -> nat
    decreases s.len(),
{
    if s.len() == 0 {
        0
    } else {
        live_among(s.drop_last()) + if s.last().live {
            1nat
        } else {
            0nat
        }
    }
}

/// A single page.
#[derive(Debug, Clone)]
pub struct Page {
    pub id: PageId,
    pub kind: PageKind,
    /// Generation. Bumped every time the page's buffer is replaced (a
    /// dictionary page that is rewritten, for example).
    pub gen: u64,
    pub buf: Vec<u8>,
    /// Present only on data pages: the slot directory.
    pub slot_dir: Option<Vec<SlotEntry>>,
}

/// The model of a page.
#[verifier::ext_equal]
pub struct PageModel {
    pub id: PageId,
    pub kind: PageKind,
    pub gen: u64,
    pub buf: Seq<u8>,
    pub slots: Option<Seq<SlotEntry>>,
}

impl PageModel {
    /// The slot directory; empty where there is none.
    pub open spec fn dir(self) -> Seq<SlotEntry> {
        match self.slots {
            Some(s) => s,
            None => Seq::empty(),
        }
    }

    /// The page with new contents, a generation on.
    pub open spec fn rewritten(self, buf: Seq<u8>, slots: Seq<SlotEntry>) -> PageModel {
        PageModel { buf, slots: Some(slots), gen: next_gen(self.gen), ..self }
    }
}

/// A fresh page.
pub open spec fn fresh_page(id: PageId, kind: PageKind, buf: Seq<u8>) -> PageModel {
    PageModel { id, kind, gen: 0, buf, slots: None }
}

/// The next generation.
pub open spec fn next_gen(g: u64) -> u64 {
    if g == u64::MAX {
        0
    } else {
        (g + 1) as u64
    }
}

impl View for Page {
    type V = PageModel;

    open spec fn view(&self) -> PageModel {
        PageModel {
            id: self.id,
            kind: self.kind,
            gen: self.gen,
            buf: self.buf@,
            slots: match self.slot_dir {
                Some(d) => Some(d@),
                None => None,
            },
        }
    }
}

/// Copy a slot directory.
pub fn copy_slots(s: &Vec<SlotEntry>) -> (r: Vec<SlotEntry>)
    ensures
        r@ == s@,
{
    let mut r: Vec<SlotEntry> = Vec::new();
    let mut i: usize = 0;
    while i < s.len()
        invariant
            i <= s@.len(),
            r@ == s@.take(i as int),
        decreases s@.len() - i,
    {
        r.push(s[i]);
        i += 1;
        assert(r@ =~= s@.take(i as int));
    }
    assert(s@.take(i as int) =~= s@);
    r
}

impl Page {
    pub fn new(id: PageId, kind: PageKind, buf: Vec<u8>) -> (r: Page)
        ensures
            r@ == fresh_page(id, kind, buf@),
    {
        Page { id, kind, gen: 0, buf, slot_dir: None }
    }

    pub fn with_slots(self, slots: Vec<SlotEntry>) -> (r: Page)
        ensures
            r@ == (PageModel { slots: Some(slots@), ..self@ }),
    {
        Page { slot_dir: Some(slots), id: self.id, kind: self.kind, gen: self.gen, buf: self.buf }
    }

    /// The number of slots in this page's directory (0 for non-data pages).
    pub fn slot_count(&self) -> (r: usize)
        ensures
            r == self@.dir().len(),
    {
        match &self.slot_dir {
            Some(d) => d.len(),
            None => 0,
        }
    }

    /// The number of *live* (non-tombstoned) slots.
    pub fn live_count(&self) -> (r: usize)
        ensures
            r == live_among(self@.dir()),
            r <= self@.dir().len(),
    {
        match &self.slot_dir {
            Some(d) => {
                let mut c: usize = 0;
                let mut i: usize = 0;
                assert(d@.take(0) =~= Seq::empty());
                while i < d.len()
                    invariant
                        i <= d@.len(),
                        c <= i,
                        c == live_among(d@.take(i as int)),
                    decreases d@.len() - i,
                {
                    assert(d@.take(i + 1).drop_last() =~= d@.take(i as int));
                    if d[i].live {
                        c += 1;
                    }
                    i += 1;
                }
                assert(d@.take(i as int) =~= d@);
                c
            },
            None => 0,
        }
    }

    /// The slot directory, copied; empty where there is none.
    pub fn slots(&self) -> (r: Vec<SlotEntry>)
        ensures
            r@ == self@.dir(),
    {
        match &self.slot_dir {
            Some(d) => copy_slots(d),
            None => {
                let r: Vec<SlotEntry> = Vec::new();
                assert(r@ =~= Seq::<SlotEntry>::empty());
                r
            },
        }
    }

    /// A checked 4-byte little-endian read at `off`.
    pub fn read_u32_at(&self, off: usize) -> (r: Option<u32>)
        ensures
            r == (if off + 4 <= self@.buf.len() {
                Some(bytes::u32_at(self@.buf, off as int))
            } else {
                None
            }),
    {
        if self.buf.len() < 4 || off > self.buf.len() - 4 {
            return None;
        }
        Some(bytes::get_u32(self.buf.as_slice(), off))
    }

    /// A checked 8-byte little-endian read at `off`.
    pub fn read_u64_at(&self, off: usize) -> (r: Option<u64>)
        ensures
            r == (if off + 8 <= self@.buf.len() {
                Some(bytes::u64_at(self@.buf, off as int))
            } else {
                None
            }),
    {
        if self.buf.len() < 8 || off > self.buf.len() - 8 {
            return None;
        }
        Some(bytes::get_u64(self.buf.as_slice(), off))
    }

    /// A checked 1-byte read at `off`.
    pub fn read_u8_at(&self, off: usize) -> (r: Option<u8>)
        ensures
            r == (if off < self@.buf.len() {
                Some(self@.buf[off as int])
            } else {
                None
            }),
    {
        if off < self.buf.len() {
            Some(self.buf[off])
        } else {
            None
        }
    }

    /// A checked slot lookup.
    pub fn slot_at(&self, idx: usize) -> (r: Option<SlotEntry>)
        ensures
            r == (if idx < self@.dir().len() {
                Some(self@.dir()[idx as int])
            } else {
                None
            }),
    {
        match &self.slot_dir {
            Some(d) => if idx < d.len() {
                Some(d[idx])
            } else {
                None
            },
            None => None,
        }
    }

    /// A slot lookup where the index is known to be in range.
    pub fn slot_at_unchecked(&self, idx: usize) -> (r: SlotEntry)
        requires
            idx < self@.dir().len(),
        ensures
            r == self@.dir()[idx as int],
    {
        match &self.slot_dir {
            Some(d) => d[idx],
            None => SlotEntry::new(0, 0, 0),
        }
    }

    /// Replace this page's buffer and bump its generation. Used when a
    /// dictionary page is rewritten in place.
    pub fn replace_buf(&mut self, new_buf: Vec<u8>)
        ensures
            final(self)@ == (PageModel { buf: new_buf@, gen: next_gen(old(self)@.gen), ..old(self)@ }),
    {
        self.buf = new_buf;
        self.gen = if self.gen == u64::MAX {
            0
        } else {
            self.gen + 1
        };
    }

    /// Replace this page's slot directory and bump its generation.
    pub fn replace_slots(&mut self, slots: Vec<SlotEntry>)
        ensures
            final(self)@ == (PageModel { slots: Some(slots@), gen: next_gen(old(self)@.gen), ..old(self)@ }),
    {
        self.slot_dir = Some(slots);
        self.gen = if self.gen == u64::MAX {
            0
        } else {
            self.gen + 1
        };
    }
}

/// The page buffer manager. Freed ids are recycled.
#[derive(Debug, Clone)]
pub struct Pager {
    pages: KeyMap<Page>,
    free_ids: Vec<PageId>,
    high_water: PageId,
}

/// The model of a pager.
#[verifier::ext_equal]
pub struct PagerModel {
    pub pages: Seq<(u64, PageModel)>,
    pub free_ids: Seq<PageId>,
    pub high_water: PageId,
}

/// A list of ids names none twice.
pub open spec fn distinct(s: Seq<PageId>) -> bool {
    forall|i: int, j: int| 0 <= i < j < s.len() ==> #[trigger] s[i] != #[trigger] s[j]
}

impl PagerModel {
    /// Each page stands under its id, below the high-water mark; the free ids
    /// are other ids below it, each listed once.
    pub open spec fn wf(self) -> bool {
        &&& keymap::ascending(self.pages)
        &&& forall|i: int|
            0 <= i < self.pages.len() ==> (#[trigger] self.pages[i]).0 == self.pages[i].1.id && self.pages[i].0
                < self.high_water
        &&& distinct(self.free_ids)
        &&& forall|i: int|
            0 <= i < self.free_ids.len() ==> (#[trigger] self.free_ids[i]) < self.high_water && !keymap::held(
                self.pages,
                self.free_ids[i] as u64,
            )
    }

    pub open spec fn page(self, id: PageId) -> Option<PageModel> {
        keymap::find(self.pages, id as u64)
    }

    /// There is an id to hand out.
    pub open spec fn has_room(self) -> bool {
        self.free_ids.len() > 0 || self.high_water < u32::MAX
    }

    /// The id that the next allocation hands out.
    pub open spec fn next_id(self) -> PageId {
        if self.free_ids.len() > 0 {
            self.free_ids.last()
        } else {
            self.high_water
        }
    }

    /// The pager after an allocation.
    pub open spec fn allocated(self, kind: PageKind, buf: Seq<u8>) -> PagerModel {
        let id = self.next_id();
        PagerModel {
            pages: keymap::put(self.pages, id as u64, fresh_page(id, kind, buf)),
            free_ids: if self.free_ids.len() > 0 {
                self.free_ids.drop_last()
            } else {
                self.free_ids
            },
            high_water: if self.free_ids.len() > 0 {
                self.high_water
            } else {
                (self.high_water + 1) as u32
            },
        }
    }

    /// The pager after a page is freed.
    pub open spec fn freed(self, id: PageId) -> PagerModel {
        if keymap::held(self.pages, id as u64) {
            PagerModel {
                pages: keymap::cut(self.pages, id as u64),
                free_ids: self.free_ids.push(id),
                high_water: self.high_water,
            }
        } else {
            self
        }
    }

    /// The pager with another page under an id that it holds.
    pub open spec fn with_page(self, id: PageId, p: PageModel) -> PagerModel {
        PagerModel { pages: keymap::put(self.pages, id as u64, p), ..self }
    }

    /// The ids of the pages of a kind among the first `n`, ascending.
    pub open spec fn ids_of_kind(self, kind: PageKind, n: nat) -> Seq<PageId>
        decreases n,
    {
        if n == 0 {
            Seq::empty()
        } else {
            let before = self.ids_of_kind(kind, (n - 1) as nat);
            if self.pages[n - 1].1.kind == kind {
                before.push(self.pages[n - 1].0 as u32)
            } else {
                before
            }
        }
    }

    /// The ids of the data pages, ascending.
    pub open spec fn data_ids(self) -> Seq<PageId> {
        self.ids_of_kind(PageKind::Data, self.pages.len())
    }
}

/// A pager without pages.
pub open spec fn no_pages() -> PagerModel {
    PagerModel { pages: Seq::empty(), free_ids: Seq::empty(), high_water: 0 }
}

/// What a page table keeps under changes.
pub proof fn lemma_put_page(m: PagerModel, id: PageId, p: PageModel)
    requires
        m.wf(),
        p.id == id,
        id < m.high_water,
        forall|i: int| 0 <= i < m.free_ids.len() ==> m.free_ids[i] != id,
    ensures
        m.with_page(id, p).wf(),
{
    let k = id as u64;
    let t = keymap::put(m.pages, k, p);
    keymap::lemma_rank(m.pages, k);
    keymap::lemma_put(m.pages, k, p, k);
    let r = keymap::rank(m.pages, k);
    assert forall|i: int| 0 <= i < t.len() implies (#[trigger] t[i]).0 == t[i].1.id && t[i].0 < m.high_water by {
        if i < r {
            assert(t[i] == m.pages[i]);
        } else if i > r {
            if keymap::held(m.pages, k) {
                assert(t[i] == m.pages[i]);
            } else {
                assert(t[i] == m.pages[i - 1]);
            }
        }
    }
    assert forall|i: int| 0 <= i < m.free_ids.len() implies (#[trigger] m.free_ids[i]) < m.high_water && !keymap::held(
        t,
        m.free_ids[i] as u64,
    ) by {
        keymap::lemma_put(m.pages, k, p, m.free_ids[i] as u64);
        assert(keymap::find(m.pages, m.free_ids[i] as u64) is None);
    }
}

proof fn lemma_allocated(m: PagerModel, kind: PageKind, buf: Seq<u8>)
    requires
        m.wf(),
        m.has_room(),
    ensures
        m.allocated(kind, buf).wf(),
        !keymap::held(m.pages, m.next_id() as u64),
{
    let id = m.next_id();
    let r = m.allocated(kind, buf);
    let base = PagerModel { pages: m.pages, free_ids: r.free_ids, high_water: r.high_water };
    keymap::lemma_rank(m.pages, id as u64);
    if m.free_ids.len() > 0 {
        assert(m.free_ids[m.free_ids.len() - 1] == id);
        assert forall|i: int| 0 <= i < r.free_ids.len() implies r.free_ids[i] != id by {
            assert(m.free_ids[i] != m.free_ids[m.free_ids.len() - 1]);
        }
        assert forall|i: int, j: int| 0 <= i < j < r.free_ids.len() implies #[trigger] r.free_ids[i]
            != #[trigger] r.free_ids[j] by {
            assert(m.free_ids[i] != m.free_ids[j]);
        }
        assert forall|i: int| 0 <= i < r.free_ids.len() implies (#[trigger] r.free_ids[i]) < m.high_water
            && !keymap::held(m.pages, r.free_ids[i] as u64) by {
            assert(m.free_ids[i] == r.free_ids[i]);
        }
        assert(base.wf());
    } else {
        assert(base.wf());
    }
    lemma_put_page(base, id, fresh_page(id, kind, buf));
    assert(r =~= base.with_page(id, fresh_page(id, kind, buf)));
}

proof fn lemma_freed(m: PagerModel, id: PageId)
    requires
        m.wf(),
        keymap::held(m.pages, id as u64),
    ensures
        m.freed(id).wf(),
{
    let k = id as u64;
    let r = m.freed(id);
    let t = r.pages;
    keymap::lemma_rank(m.pages, k);
    keymap::lemma_cut(m.pages, k, k);
    let at = keymap::rank(m.pages, k);
    assert forall|i: int| 0 <= i < t.len() implies (#[trigger] t[i]).0 == t[i].1.id && t[i].0 < m.high_water by {
        if i < at {
            assert(t[i] == m.pages[i]);
        } else {
            assert(t[i] == m.pages[i + 1]);
        }
    }
    assert(m.pages[at].0 < m.high_water);
    assert forall|i: int| 0 <= i < r.free_ids.len() implies (#[trigger] r.free_ids[i]) < m.high_water && !keymap::held(
        t,
        r.free_ids[i] as u64,
    ) by {
        keymap::lemma_cut(m.pages, k, r.free_ids[i] as u64);
        if i < m.free_ids.len() {
            assert(m.free_ids[i] == r.free_ids[i]);
            assert(keymap::find(m.pages, m.free_ids[i] as u64) is None);
        }
    }
    assert forall|i: int, j: int| 0 <= i < j < r.free_ids.len() implies #[trigger] r.free_ids[i]
        != #[trigger] r.free_ids[j] by {
        if j < m.free_ids.len() {
            assert(m.free_ids[i] != m.free_ids[j]);
        } else {
            assert(!keymap::held(m.pages, m.free_ids[i] as u64));
        }
    }
}

/// An allocation hands out an id that no live page has, and gives the page back
/// under it; other pages stay.
pub proof fn lemma_alloc(m: PagerModel, kind: PageKind, buf: Seq<u8>, other: PageId)
    requires
        m.wf(),
        m.has_room(),
    ensures
        m.page(m.next_id()) is None,
        m.allocated(kind, buf).wf(),
        m.allocated(kind, buf).page(m.next_id()) == Some(fresh_page(m.next_id(), kind, buf)),
        other != m.next_id() ==> m.allocated(kind, buf).page(other) == m.page(other),
{
    lemma_allocated(m, kind, buf);
    keymap::lemma_put(m.pages, m.next_id() as u64, fresh_page(m.next_id(), kind, buf), m.next_id() as u64);
    keymap::lemma_put(m.pages, m.next_id() as u64, fresh_page(m.next_id(), kind, buf), other as u64);
}

/// A freed id is the next to be handed out.
pub proof fn lemma_recycled(m: PagerModel, id: PageId)
    requires
        m.wf(),
        m.page(id) is Some,
    ensures
        m.freed(id).wf(),
        m.freed(id).page(id) is None,
        m.freed(id).next_id() == id,
{
    lemma_freed(m, id);
    keymap::lemma_cut(m.pages, id as u64, id as u64);
}

impl View for Pager {
    type V = PagerModel;

    closed spec fn view(&self) -> PagerModel {
        PagerModel { pages: self.pages@, free_ids: self.free_ids@, high_water: self.high_water }
    }
}

impl Default for Pager {
    fn default() -> (r: Pager)
        ensures
            r.wf(),
            r@ == no_pages(),
    {
        Pager::new()
    }
}

impl Pager {
    pub open spec fn wf(self) -> bool {
        self@.wf()
    }

    pub fn new() -> (r: Pager)
        ensures
            r.wf(),
            r@ == no_pages(),
    {
        let r = Pager { pages: KeyMap::new(), free_ids: Vec::new(), high_water: 0 };
        assert(r@ =~= no_pages());
        r
    }

    /// Whether there is an id to hand out.
    pub fn room(&self) -> (r: bool)
        ensures
            r == self@.has_room(),
    {
        self.free_ids.len() > 0 || self.high_water < u32::MAX
    }

    /// Allocate a new page and return its id.
    pub fn allocate(&mut self, kind: PageKind, buf: Vec<u8>) -> (id: PageId)
        requires
            old(self).wf(),
            old(self)@.has_room(),
        ensures
            final(self).wf(),
            id == old(self)@.next_id(),
            final(self)@ == old(self)@.allocated(kind, buf@),
    {
        let ghost was = self@;
        let ghost b = buf@;
        proof {
            lemma_allocated(was, kind, b);
        }
        let id: PageId = match self.free_ids.pop() {
            Some(id) => id,
            None => {
                let id: PageId = self.high_water;
                self.high_water = self.high_water + 1;
                id
            },
        };
        self.pages.insert(id as u64, Page::new(id, kind, buf));
        assert(self@ =~= was.allocated(kind, b));
        id
    }

    /// Above every id handed out so far.
    pub fn high_water(&self) -> (r: PageId)
        ensures
            r == self@.high_water,
    {
        self.high_water
    }

    /// Put a page under a given id. Fails on the one id that leaves none to hand
    /// out.
    pub fn place(&mut self, id: PageId, kind: PageKind, buf: Vec<u8>, slots: Option<Vec<SlotEntry>>) -> (r: bool)
        requires
            old(self).wf(),
            old(self)@.free_ids.len() == 0,
        ensures
            final(self).wf(),
            final(self)@.free_ids.len() == 0,
            r == (id < u32::MAX),
            final(self)@ == (if r {
                placed(old(self)@, id, loaded_page(id, kind, buf@, optional(slots)))
            } else {
                old(self)@
            }),
    {
        if id == u32::MAX {
            return false;
        }
        let page = Page { id, kind, gen: 0, buf, slot_dir: slots };
        let ghost model = page@;
        let ghost was = self@;
        if self.high_water <= id {
            self.high_water = id + 1;
        }
        proof {
            let base = PagerModel { high_water: self.high_water, ..was };
            assert(base.wf());
            lemma_put_page(base, id, model);
            assert(placed(was, id, model) =~= base.with_page(id, model));
        }
        self.pages.insert(id as u64, page);
        assert(self@ =~= placed(was, id, model));
        true
    }

    /// Look up a page by id.
    pub fn get(&self, id: PageId) -> (r: Option<&Page>)
        requires
            self.wf(),
        ensures
            match r {
                Some(p) => self@.page(id) == Some(p@) && p.id == id,
                None => self@.page(id) is None,
            },
    {
        proof {
            keymap::lemma_rank(self@.pages, id as u64);
        }
        self.pages.get(id as u64)
    }

    /// Give a live page new contents, leaving its generation.
    pub fn set_buf(&mut self, id: PageId, buf: Vec<u8>) -> (r: bool)
        requires
            old(self).wf(),
        ensures
            final(self).wf(),
            match old(self)@.page(id) {
                Some(p) => r && final(self)@ == old(self)@.with_page(id, (PageModel { buf: buf@, ..p })),
                None => !r && final(self)@ == old(self)@,
            },
    {
        let ghost was = self@;
        let ghost b = buf@;
        proof {
            keymap::lemma_rank(was.pages, id as u64);
        }
        match self.pages.remove(id as u64) {
            Some(mut p) => {
                let ghost m = p@;
                p.buf = buf;
                self.put_back(id, p, Ghost(was), Ghost(PageModel { buf: b, ..m }));
                true
            },
            None => false,
        }
    }

    /// Give a live page a new buffer, and bump its generation.
    pub fn replace_buf(&mut self, id: PageId, buf: Vec<u8>) -> (r: bool)
        requires
            old(self).wf(),
        ensures
            final(self).wf(),
            match old(self)@.page(id) {
                Some(p) => r && final(self)@ == old(self)@.with_page(
                    id,
                    (PageModel { buf: buf@, gen: next_gen(p.gen), ..p }),
                ),
                None => !r && final(self)@ == old(self)@,
            },
    {
        let ghost was = self@;
        let ghost b = buf@;
        proof {
            keymap::lemma_rank(was.pages, id as u64);
        }
        match self.pages.remove(id as u64) {
            Some(mut p) => {
                let ghost m = p@;
                p.replace_buf(buf);
                self.put_back(id, p, Ghost(was), Ghost(PageModel { buf: b, gen: next_gen(m.gen), ..m }));
                true
            },
            None => false,
        }
    }

    /// Give a live page new contents and slots, and bump its generation.
    pub fn rewrite(&mut self, id: PageId, buf: Vec<u8>, slots: Vec<SlotEntry>) -> (r: bool)
        requires
            old(self).wf(),
        ensures
            final(self).wf(),
            match old(self)@.page(id) {
                Some(p) => r && final(self)@ == old(self)@.with_page(id, p.rewritten(buf@, slots@)),
                None => !r && final(self)@ == old(self)@,
            },
    {
        let ghost was = self@;
        let ghost b = buf@;
        let ghost s = slots@;
        proof {
            keymap::lemma_rank(was.pages, id as u64);
        }
        match self.pages.remove(id as u64) {
            Some(mut p) => {
                let ghost m = p@;
                p.buf = buf;
                p.replace_slots(slots);
                self.put_back(id, p, Ghost(was), Ghost(m.rewritten(b, s)));
                true
            },
            None => false,
        }
    }

    /// Tombstone a slot of a live page.
    pub fn bury(&mut self, id: PageId, slot: usize)
        requires
            old(self).wf(),
        ensures
            final(self).wf(),
            final(self)@ == buried(old(self)@, id, slot as int),
    {
        let ghost was = self@;
        proof {
            keymap::lemma_rank(was.pages, id as u64);
        }
        match self.pages.remove(id as u64) {
            Some(mut p) => {
                let ghost m = p@;
                let mut slots = p.slots();
                if slot < slots.len() {
                    let e: SlotEntry = slots[slot];
                    slots.set(slot, SlotEntry { live: false, ..e });
                    p.slot_dir = Some(slots);
                }
                self.put_back(id, p, Ghost(was), Ghost(p@));
            },
            None => {},
        }
    }

    fn put_back(&mut self, id: PageId, p: Page, Ghost(was): Ghost<PagerModel>, Ghost(m): Ghost<PageModel>)
        requires
            was.wf(),
            keymap::held(was.pages, id as u64),
            old(self)@ == (PagerModel { pages: keymap::cut(was.pages, id as u64), ..was }),
            p@ == m,
            p.id == id,
        ensures
            final(self)@ == was.with_page(id, m),
            final(self).wf(),
    {
        proof {
            let k = id as u64;
            keymap::lemma_rank(was.pages, k);
            keymap::lemma_cut(was.pages, k, k);
            keymap::lemma_put_cut(was.pages, k, m);
            let r = keymap::rank(was.pages, k);
            assert(was.pages[r].0 < was.high_water);
            assert forall|i: int| 0 <= i < was.free_ids.len() implies was.free_ids[i] != id by {
                assert(!keymap::held(was.pages, was.free_ids[i] as u64));
            }
            lemma_put_page(was, id, m);
        }
        self.pages.insert(id as u64, p);
        assert(self@ =~= was.with_page(id, m));
    }

    /// Free a page. Its buffer and slot directory are dropped immediately, and
    /// its id is recycled.
    pub fn free(&mut self, id: PageId)
        requires
            old(self).wf(),
        ensures
            final(self).wf(),
            final(self)@ == old(self)@.freed(id),
    {
        let ghost was = self@;
        proof {
            if keymap::held(was.pages, id as u64) {
                lemma_freed(was, id);
            }
        }
        match self.pages.remove(id as u64) {
            Some(_) => {
                self.free_ids.push(id);
            },
            None => {},
        }
        assert(self@ =~= was.freed(id));
    }

    pub fn count(&self) -> (r: usize)
        ensures
            r == self@.pages.len(),
    {
        self.pages.len()
    }

    /// How many ids were ever handed out.
    pub fn capacity(&self) -> (r: usize)
        ensures
            r == self@.high_water,
    {
        self.high_water as usize
    }

    /// All live page ids, in ascending order.
    pub fn ids(&self) -> (r: Vec<PageId>)
        requires
            self.wf(),
        ensures
            r@ == Seq::new(self@.pages.len(), |i: int| self@.pages[i].1.id),
    {
        let mut out: Vec<PageId> = Vec::new();
        let mut i: usize = 0;
        while i < self.pages.len()
            invariant
                i <= self@.pages.len(),
                self.pages@ == self@.pages,
                out@ == Seq::new(i as nat, |i: int| self@.pages[i].1.id),
            decreases self@.pages.len() - i,
        {
            out.push(self.pages.value_at(i).id);
            i += 1;
            assert(out@ =~= Seq::new(i as nat, |i: int| self@.pages[i].1.id));
        }
        out
    }

    /// The page at a place of the ascending list of live pages.
    pub fn page_at(&self, i: usize) -> (p: &Page)
        requires
            i < self@.pages.len(),
        ensures
            p@ == self@.pages[i as int].1,
    {
        self.pages.value_at(i)
    }

    fn ids_with(&self, kind: PageKind) -> (r: Vec<PageId>)
        requires
            self.wf(),
        ensures
            r@ == self@.ids_of_kind(kind, self@.pages.len()),
    {
        let mut out: Vec<PageId> = Vec::new();
        let mut i: usize = 0;
        while i < self.pages.len()
            invariant
                i <= self@.pages.len(),
                self.wf(),
                self.pages@ == self@.pages,
                out@ == self@.ids_of_kind(kind, i as nat),
            decreases self@.pages.len() - i,
        {
            let p = self.pages.value_at(i);
            assert(self@.pages[i as int].0 == self@.pages[i as int].1.id);
            if p.kind == kind {
                out.push(p.id);
            }
            i += 1;
        }
        out
    }

    /// The ids of the data pages, in ascending order.
    pub fn data_pages(&self) -> (r: Vec<PageId>)
        requires
            self.wf(),
        ensures
            r@ == self@.data_ids(),
    {
        self.ids_with(PageKind::Data)
    }

    /// The ids of the dict pages, in ascending order.
    pub fn dict_pages(&self) -> (r: Vec<PageId>)
        requires
            self.wf(),
        ensures
            r@ == self@.ids_of_kind(PageKind::Dict, self@.pages.len()),
    {
        self.ids_with(PageKind::Dict)
    }
}

/// The contents of an optional list.
pub open spec fn optional<T>(v: Option<Vec<T>>) -> Option<Seq<T>> {
    match v {
        Some(x) => Some(x@),
        None => None,
    }
}

/// A page as it comes out of storage.
pub open spec fn loaded_page(id: PageId, kind: PageKind, buf: Seq<u8>, slots: Option<Seq<SlotEntry>>) -> PageModel {
    PageModel { slots, ..fresh_page(id, kind, buf) }
}

/// A pager with a page put under a given id.
pub open spec fn placed(m: PagerModel, id: PageId, p: PageModel) -> PagerModel {
    PagerModel {
        pages: keymap::put(m.pages, id as u64, p),
        high_water: if m.high_water <= id {
            (id + 1) as u32
        } else {
            m.high_water
        },
        ..m
    }
}

/// A pager with a slot tombstoned.
pub open spec fn buried(m: PagerModel, id: PageId, slot: int) -> PagerModel {
    match m.page(id) {
        Some(p) if slot < p.dir().len() => m.with_page(
            id,
            PageModel {
                slots: Some(p.dir().update(slot, SlotEntry { live: false, ..p.dir()[slot] })),
                ..p
            },
        ),
        _ => m,
    }
}

} // verus!
