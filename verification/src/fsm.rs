//! The free-space map.
//!
//! The FSM tracks two things:
//!
//! - which *page ids* are currently free (the free-page list), and
//! - how much free space each live data page has (so the insert path can pick a
//!   page with room, or decide to allocate a new one).
//!
//! The FSM is an in-memory structure serialized into an `Fsm` page on
//! checkpoint. The compaction layer returns freed page ids to the FSM and
//! updates per-page free-space counters when pages are split or merged.

use crate::bytes;
use crate::keymap;
use crate::keymap::KeyMap;
use vstd::prelude::*;

verus! {

/// A member of a set of page ids.
#[derive(Debug, Clone, Copy, PartialEq, Eq, Structural)]
pub struct Mark;

impl View for Mark {
    type V = Mark;

    open spec fn view(&self) -> Mark {
        Mark
    }
}

/// The free-space map.
#[derive(Debug, Clone)]
pub struct Fsm {
    /// Free page ids, kept sorted for deterministic allocation.
    free_pages: KeyMap<Mark>,
    /// `page_id -> bytes of free space remaining`.
    space: KeyMap<u32>,
}

/// The model of a free-space map.
#[verifier::ext_equal]
pub struct FsmModel {
    pub free: Seq<(u64, Mark)>,
    pub space: Seq<(u64, u32)>,
}

/// All keys are page ids.
pub open spec fn page_keys<T>(s: Seq<(u64, T)>) -> bool {
    forall|i: int| 0 <= i < s.len() ==> (#[trigger] s[i]).0 <= u32::MAX
}

impl FsmModel {
    /// Both parts are maps from page ids.
    pub open spec fn wf(self) -> bool {
        &&& keymap::ascending(self.free)
        &&& keymap::ascending(self.space)
        &&& page_keys(self.free)
        &&& page_keys(self.space)
    }

    pub open spec fn space_of(self, id: u32) -> u32 {
        match keymap::find(self.space, id as u64) {
            Some(f) => f,
            None => 0,
        }
    }

    /// The place of the page with the most space among the first `n`, of those
    /// with `need` bytes; the lower id of two.
    pub open spec fn roomiest(self, need: u32, n: nat) -> Option<int>
        decreases n,
    {
        if n == 0 {
            None
        } else {
            let best = self.roomiest(need, (n - 1) as nat);
            let free = self.space[n - 1].1;
            if free < need || (best is Some && self.space[best->0].1 >= free) {
                best
            } else {
                Some(n - 1)
            }
        }
    }

    /// The page to insert into.
    pub open spec fn page_with_space(self, need: u32) -> Option<u32> {
        match self.roomiest(need, self.space.len()) {
            Some(i) => Some(self.space[i].0 as u32),
            None => None,
        }
    }
}

pub open spec fn no_space() -> FsmModel {
    FsmModel { free: Seq::empty(), space: Seq::empty() }
}

pub proof fn lemma_put_pages<T>(s: Seq<(u64, T)>, k: u32, v: T)
    requires
        keymap::ascending(s),
        page_keys(s),
    ensures
        page_keys(keymap::put(s, k as u64, v)),
        page_keys(keymap::cut(s, k as u64)),
        keymap::ascending(keymap::put(s, k as u64, v)),
        keymap::ascending(keymap::cut(s, k as u64)),
{
    keymap::lemma_rank(s, k as u64);
    keymap::lemma_put(s, k as u64, v, 0);
    keymap::lemma_cut(s, k as u64, 0);
    let r = keymap::rank(s, k as u64);
    let t = keymap::put(s, k as u64, v);
    assert forall|i: int| 0 <= i < t.len() implies (#[trigger] t[i]).0 <= u32::MAX by {
        if i < r {
            assert(t[i] == s[i]);
        } else if i > r {
            if keymap::held(s, k as u64) {
                assert(t[i] == s[i]);
            } else {
                assert(t[i] == s[i - 1]);
            }
        }
    }
    let t = keymap::cut(s, k as u64);
    assert forall|i: int| 0 <= i < t.len() implies (#[trigger] t[i]).0 <= u32::MAX by {
        if keymap::held(s, k as u64) && i >= r {
            assert(t[i] == s[i + 1]);
        } else {
            assert(t[i] == s[i]);
        }
    }
}

/// The page to insert into has the room, and no page has more.
pub proof fn lemma_roomiest(m: FsmModel, need: u32, n: nat)
    requires
        n <= m.space.len(),
    ensures
        match m.roomiest(need, n) {
            Some(b) => 0 <= b < n && m.space[b].1 >= need && forall|i: int|
                0 <= i < n ==> (#[trigger] m.space[i]).1 <= m.space[b].1,
            None => forall|i: int| 0 <= i < n ==> (#[trigger] m.space[i]).1 < need,
        },
    decreases n,
{
    if n > 0 {
        lemma_roomiest(m, need, (n - 1) as nat);
    }
}

// Storage

pub open spec fn ids_bytes(s: Seq<(u64, Mark)>) -> Seq<u8>
    decreases s.len(),
{
    if s.len() == 0 {
        Seq::empty()
    } else {
        ids_bytes(s.drop_last()) + bytes::le32(s.last().0 as u32)
    }
}

pub open spec fn spaces_bytes(s: Seq<(u64, u32)>) -> Seq<u8>
    decreases s.len(),
{
    if s.len() == 0 {
        Seq::empty()
    } else {
        spaces_bytes(s.drop_last()) + bytes::le32(s.last().0 as u32) + bytes::le32(s.last().1)
    }
}

/// The stored form: a count of free pages, their ids, a count of space entries,
/// and the `(page_id, free)` pairs.
pub open spec fn fsm_bytes(m: FsmModel) -> Seq<u8> {
    bytes::le32(m.free.len() as u32) + ids_bytes(m.free) + bytes::le32(m.space.len() as u32) + spaces_bytes(m.space)
}

/// How many of `n` records of a width are there.
pub open spec fn present(n: int, room: int, width: int) -> int {
    if n <= room / width {
        n
    } else {
        room / width
    }
}

/// The first `n` free ids.
pub open spec fn ids_of(s: Seq<u8>, n: nat) -> Seq<(u64, Mark)>
    decreases n,
{
    if n == 0 {
        Seq::empty()
    } else {
        keymap::put(ids_of(s, (n - 1) as nat), bytes::u32_at(s, 4 * n as int) as u64, Mark)
    }
}

/// The first `n` space entries, which start at `at`.
pub open spec fn spaces_of(s: Seq<u8>, at: int, n: nat) -> Seq<(u64, u32)>
    decreases n,
{
    if n == 0 {
        Seq::empty()
    } else {
        keymap::put(
            spaces_of(s, at, (n - 1) as nat),
            bytes::u32_at(s, at + 8 * (n - 1)) as u64,
            bytes::u32_at(s, at + 8 * (n - 1) + 4),
        )
    }
}

/// The map stored in `s`. What is cut off is left out.
pub open spec fn fsm_of(s: Seq<u8>) -> FsmModel {
    if s.len() < 4 {
        no_space()
    } else {
        let n = present(bytes::u32_at(s, 0) as int, s.len() - 4, 4);
        let free = ids_of(s, n as nat);
        let at = 4 + 4 * n;
        if at + 4 > s.len() {
            FsmModel { free, space: Seq::empty() }
        } else {
            let m = present(bytes::u32_at(s, at) as int, s.len() - at - 4, 8);
            FsmModel { free, space: spaces_of(s, at + 4, m as nat) }
        }
    }
}

proof fn lemma_ids_bytes(s: Seq<(u64, Mark)>, i: int)
    requires
        0 <= i <= s.len(),
    ensures
        ids_bytes(s).len() == 4 * s.len(),
        i < s.len() ==> ids_bytes(s).subrange(4 * i, 4 * i + 4) == bytes::le32(s[i].0 as u32),
    decreases s.len(),
{
    if s.len() > 0 {
        let d = s.drop_last();
        lemma_ids_bytes(
            d,
            if i < d.len() {
                i
            } else {
                0
            },
        );
        bytes::lemma_u32_between(Seq::empty(), s.last().0 as u32, Seq::empty());
        if i < d.len() {
            assert(ids_bytes(s).subrange(4 * i, 4 * i + 4) =~= ids_bytes(d).subrange(4 * i, 4 * i + 4));
        } else if i < s.len() {
            assert(ids_bytes(s).subrange(4 * i, 4 * i + 4) =~= bytes::le32(s[i].0 as u32));
        }
    }
}

proof fn lemma_spaces_bytes(s: Seq<(u64, u32)>, i: int)
    requires
        0 <= i <= s.len(),
    ensures
        spaces_bytes(s).len() == 8 * s.len(),
        i < s.len() ==> spaces_bytes(s).subrange(8 * i, 8 * i + 4) == bytes::le32(s[i].0 as u32),
        i < s.len() ==> spaces_bytes(s).subrange(8 * i + 4, 8 * i + 8) == bytes::le32(s[i].1),
    decreases s.len(),
{
    if s.len() > 0 {
        let d = s.drop_last();
        lemma_spaces_bytes(
            d,
            if i < d.len() {
                i
            } else {
                0
            },
        );
        bytes::lemma_u32_between(Seq::empty(), s.last().0 as u32, Seq::empty());
        bytes::lemma_u32_between(Seq::empty(), s.last().1, Seq::empty());
        let t = spaces_bytes(s);
        if i < d.len() {
            assert(t.subrange(8 * i, 8 * i + 4) =~= spaces_bytes(d).subrange(8 * i, 8 * i + 4));
            assert(t.subrange(8 * i + 4, 8 * i + 8) =~= spaces_bytes(d).subrange(8 * i + 4, 8 * i + 8));
        } else if i < s.len() {
            assert(t.subrange(8 * i, 8 * i + 4) =~= bytes::le32(s[i].0 as u32));
            assert(t.subrange(8 * i + 4, 8 * i + 8) =~= bytes::le32(s[i].1));
        }
    }
}

/// Reading a stored map gives it back.
pub proof fn lemma_fsm_round_trip(m: FsmModel)
    requires
        m.wf(),
        m.free.len() <= u32::MAX,
        m.space.len() <= u32::MAX,
    ensures
        fsm_of(fsm_bytes(m)) == m,
{
    let s = fsm_bytes(m);
    let n = m.free.len() as int;
    let k = m.space.len() as int;
    let ids = ids_bytes(m.free);
    let sp = spaces_bytes(m.space);
    lemma_ids_bytes(m.free, 0);
    lemma_spaces_bytes(m.space, 0);
    bytes::lemma_u32_between(Seq::empty(), n as u32, ids + bytes::le32(k as u32) + sp);
    assert(s =~= Seq::<u8>::empty() + bytes::le32(n as u32) + (ids + bytes::le32(k as u32) + sp));
    let a = bytes::le32(n as u32) + ids;
    bytes::lemma_u32_between(a, k as u32, sp);
    assert(s =~= a + bytes::le32(k as u32) + sp);
    let at = 4 + 4 * n;
    assert(a.len() == at);
    assert forall|i: int| 0 <= i < n implies bytes::u32_at(s, 4 * (i + 1)) == #[trigger] m.free[i].0 by {
        lemma_ids_bytes(m.free, i);
        assert(s.subrange(4 * (i + 1), 4 * (i + 1) + 4) =~= ids.subrange(4 * i, 4 * i + 4));
        bytes::lemma_u32_at(s, 4 * (i + 1), m.free[i].0 as u32);
    }
    assert forall|i: int| 0 <= i < k implies bytes::u32_at(s, at + 4 + 8 * i) == (#[trigger] m.space[i]).0
        && bytes::u32_at(s, at + 4 + 8 * i + 4) == m.space[i].1 by {
        lemma_spaces_bytes(m.space, i);
        assert(s.subrange(at + 4 + 8 * i, at + 4 + 8 * i + 4) =~= sp.subrange(8 * i, 8 * i + 4));
        assert(s.subrange(at + 4 + 8 * i + 4, at + 4 + 8 * i + 8) =~= sp.subrange(8 * i + 4, 8 * i + 8));
        bytes::lemma_u32_at(s, at + 4 + 8 * i, m.space[i].0 as u32);
        bytes::lemma_u32_at(s, at + 4 + 8 * i + 4, m.space[i].1);
    }
    lemma_ids_of(s, m.free, n as nat);
    lemma_spaces_of(s, at + 4, m.space, k as nat);
    assert(m.free.take(n) =~= m.free);
    assert(m.space.take(k) =~= m.space);
    assert(n <= (s.len() - 4) / 4);
    assert(k <= (s.len() - at - 4) / 8);
}

proof fn lemma_ids_of(s: Seq<u8>, f: Seq<(u64, Mark)>, n: nat)
    requires
        keymap::ascending(f),
        n <= f.len(),
        forall|i: int| 0 <= i < f.len() ==> bytes::u32_at(s, 4 * (i + 1)) == #[trigger] f[i].0,
    ensures
        ids_of(s, n) == f.take(n as int),
    decreases n,
{
    if n > 0 {
        lemma_ids_of(s, f, (n - 1) as nat);
        keymap::lemma_take_ascending(f, n - 1);
        assert(f[n - 1].0 == bytes::u32_at(s, 4 * n as int));
        assert(f[n - 1].1 == Mark);
    } else {
        assert(f.take(0) =~= Seq::empty());
    }
}

proof fn lemma_spaces_of(s: Seq<u8>, at: int, f: Seq<(u64, u32)>, n: nat)
    requires
        keymap::ascending(f),
        n <= f.len(),
        forall|i: int| 0 <= i < f.len() ==> bytes::u32_at(s, at + 8 * i) == (#[trigger] f[i]).0 && bytes::u32_at(
            s,
            at + 8 * i + 4,
        ) == f[i].1,
    ensures
        spaces_of(s, at, n) == f.take(n as int),
    decreases n,
{
    if n > 0 {
        lemma_spaces_of(s, at, f, (n - 1) as nat);
        keymap::lemma_take_ascending(f, n - 1);
        assert(f[n - 1].0 == bytes::u32_at(s, at + 8 * (n - 1)));
    } else {
        assert(f.take(0) =~= Seq::empty());
    }
}

impl View for Fsm {
    type V = FsmModel;

    closed spec fn view(&self) -> FsmModel {
        FsmModel { free: self.free_pages@, space: self.space@ }
    }
}

impl Default for Fsm {
    fn default() -> (r: Fsm)
        ensures
            r@ == no_space(),
    {
        Fsm::new()
    }
}

impl Fsm {
    /// Both parts are maps from page ids.
    pub open spec fn wf(self) -> bool {
        self@.wf()
    }

    pub fn new() -> (r: Fsm)
        ensures
            r.wf(),
            r@ == no_space(),
    {
        let r = Fsm { free_pages: KeyMap::new(), space: KeyMap::new() };
        assert(r@ =~= no_space());
        r
    }

    /// Record a free page id (returned by compaction or delete of an entire
    /// page).
    pub fn return_page(&mut self, id: u32)
        requires
            old(self).wf(),
        ensures
            final(self).wf(),
            final(self)@ == (FsmModel {
                free: keymap::put(old(self)@.free, id as u64, Mark),
                space: keymap::cut(old(self)@.space, id as u64),
            }),
    {
        proof {
            lemma_put_pages(self@.free, id, Mark);
            lemma_put_pages(self@.space, id, 0);
        }
        self.free_pages.insert(id as u64, Mark);
        let _ = self.space.remove(id as u64);
    }

    /// Take a free page id, if any. Returns the smallest, for determinism.
    pub fn take_free_page(&mut self) -> (r: Option<u32>)
        requires
            old(self).wf(),
        ensures
            final(self).wf(),
            match r {
                Some(id) => old(self)@.free.len() > 0 && id == old(self)@.free[0].0 && final(self)@ == (FsmModel {
                    free: old(self)@.free.skip(1),
                    ..old(self)@
                }),
                None => old(self)@.free.len() == 0 && final(self)@ == old(self)@,
            },
    {
        if self.free_pages.len() == 0 {
            return None;
        }
        let id: u64 = self.free_pages.key_at(0);
        let ghost was = self@.free;
        proof {
            keymap::lemma_listed(was, 0);
            lemma_put_pages(was, id as u32, Mark);
            assert(was[0].0 <= u32::MAX);
            assert(was.remove(0) =~= was.skip(1));
        }
        let _ = self.free_pages.remove(id);
        Some(id as u32)
    }

    pub fn has_free_page(&self) -> (r: bool)
        ensures
            r == (self@.free.len() > 0),
    {
        self.free_pages.len() > 0
    }

    pub fn free_page_count(&self) -> (r: usize)
        ensures
            r == self@.free.len(),
    {
        self.free_pages.len()
    }

    /// Declare a page's current free space.
    pub fn set_space(&mut self, id: u32, free: u32)
        requires
            old(self).wf(),
        ensures
            final(self).wf(),
            final(self)@ == (FsmModel { space: keymap::put(old(self)@.space, id as u64, free), ..old(self)@ }),
    {
        proof {
            lemma_put_pages(self@.space, id, free);
        }
        self.space.insert(id as u64, free);
    }

    /// Adjust a page's free space by a delta, keeping it from going below 0.
    pub fn adjust_space(&mut self, id: u32, delta: i64)
        requires
            old(self).wf(),
        ensures
            final(self).wf(),
            final(self)@ == adjusted(old(self)@, id, delta),
    {
        let cur: u32 = self.space_of(id);
        let sum: i128 = cur as i128 + delta as i128;
        let next: u32 = if sum < 0 {
            0
        } else {
            (sum % 0x1_0000_0000) as u32
        };
        self.set_space(id, next);
    }

    pub fn space_of(&self, id: u32) -> (r: u32)
        requires
            self.wf(),
        ensures
            r == self@.space_of(id),
    {
        match self.space.get(id as u64) {
            Some(f) => *f,
            None => 0,
        }
    }

    /// Find a data page with at least `need` bytes free. Returns the id of the
    /// page with the most free space among the candidates, to delay splits.
    pub fn page_with_space(&self, need: u32) -> (r: Option<u32>)
        requires
            self.wf(),
        ensures
            r == self@.page_with_space(need),
    {
        let mut best: Option<usize> = None;
        let mut i: usize = 0;
        while i < self.space.len()
            invariant
                i <= self@.space.len(),
                self.space@ == self@.space,
                match best {
                    Some(b) => b < i && self@.roomiest(need, i as nat) == Some(b as int),
                    None => self@.roomiest(need, i as nat) is None,
                },
            decreases self@.space.len() - i,
        {
            let free: u32 = *self.space.value_at(i);
            let better: bool = match best {
                Some(b) => *self.space.value_at(b) < free,
                None => true,
            };
            if free >= need && better {
                best = Some(i);
            }
            i += 1;
        }
        match best {
            Some(b) => {
                assert(self@.space[b as int].0 <= u32::MAX);
                Some(self.space.key_at(b) as u32)
            },
            None => None,
        }
    }

    pub fn forget(&mut self, id: u32)
        requires
            old(self).wf(),
        ensures
            final(self).wf(),
            final(self)@ == (FsmModel {
                free: keymap::cut(old(self)@.free, id as u64),
                space: keymap::cut(old(self)@.space, id as u64),
            }),
    {
        proof {
            lemma_put_pages(self@.free, id, Mark);
            lemma_put_pages(self@.space, id, 0);
        }
        let _ = self.free_pages.remove(id as u64);
        let _ = self.space.remove(id as u64);
    }

    pub fn total_free_space(&self) -> (r: u64)
        requires
            self.wf(),
            total(self@.space) <= u64::MAX,
        ensures
            r == total(self@.space),
    {
        let mut sum: u64 = 0;
        let mut i: usize = 0;
        assert(self@.space.take(0) =~= Seq::empty());
        while i < self.space.len()
            invariant
                i <= self@.space.len(),
                self.space@ == self@.space,
                sum == total(self@.space.take(i as int)),
                total(self@.space) <= u64::MAX,
            decreases self@.space.len() - i,
        {
            proof {
                assert(self@.space.take(i + 1).drop_last() =~= self@.space.take(i as int));
                lemma_total(self@.space, i + 1);
            }
            sum = sum + *self.space.value_at(i) as u64;
            i += 1;
        }
        assert(self@.space.take(i as int) =~= self@.space);
        sum
    }

    /// The pages with a space entry, in ascending order, and their free space.
    pub fn iter_space(&self) -> (r: Vec<(u32, u32)>)
        requires
            self.wf(),
        ensures
            r@.len() == self@.space.len(),
            forall|i: int| 0 <= i < r@.len() ==> (#[trigger] r@[i]).0 == self@.space[i].0 && r@[i].1 == self@.space[i].1,
    {
        let mut out: Vec<(u32, u32)> = Vec::new();
        let mut i: usize = 0;
        while i < self.space.len()
            invariant
                i <= self@.space.len(),
                self.space@ == self@.space,
                page_keys(self@.space),
                out@.len() == i,
                forall|j: int|
                    0 <= j < i ==> (#[trigger] out@[j]).0 == self@.space[j].0 && out@[j].1 == self@.space[j].1,
            decreases self@.space.len() - i,
        {
            assert(self@.space[i as int].0 <= u32::MAX);
            out.push((self.space.key_at(i) as u32, *self.space.value_at(i)));
            i += 1;
        }
        out
    }

    /// Encode the FSM for the `.sht` container: a u32 count of free pages,
    /// then the free page ids, then a u32 count of space entries, then
    /// `(page_id, free)` pairs.
    pub fn encode(&self) -> (out: Vec<u8>)
        requires
            self.wf(),
            self@.free.len() <= u32::MAX,
            self@.space.len() <= u32::MAX,
        ensures
            out@ == fsm_bytes(self@),
    {
        let mut out: Vec<u8> = Vec::new();
        let ghost m = self@;
        bytes::put_u32(&mut out, self.free_pages.len() as u32);
        let ghost head = out@;
        let mut i: usize = 0;
        assert(m.free.take(0) =~= Seq::empty());
        while i < self.free_pages.len()
            invariant
                i <= m.free.len(),
                m == self@,
                m.wf(),
                out@ == head + ids_bytes(m.free.take(i as int)),
            decreases m.free.len() - i,
        {
            assert(m.free[i as int].0 <= u32::MAX);
            bytes::put_u32(&mut out, self.free_pages.key_at(i) as u32);
            assert(m.free.take(i + 1).drop_last() =~= m.free.take(i as int));
            assert(out@ =~= head + ids_bytes(m.free.take(i + 1)));
            i += 1;
        }
        assert(m.free.take(i as int) =~= m.free);
        bytes::put_u32(&mut out, self.space.len() as u32);
        let ghost head = out@;
        let mut i: usize = 0;
        assert(m.space.take(0) =~= Seq::empty());
        while i < self.space.len()
            invariant
                i <= m.space.len(),
                m == self@,
                m.wf(),
                out@ == head + spaces_bytes(m.space.take(i as int)),
            decreases m.space.len() - i,
        {
            assert(m.space[i as int].0 <= u32::MAX);
            bytes::put_u32(&mut out, self.space.key_at(i) as u32);
            bytes::put_u32(&mut out, *self.space.value_at(i));
            assert(m.space.take(i + 1).drop_last() =~= m.space.take(i as int));
            assert(out@ =~= head + spaces_bytes(m.space.take(i + 1)));
            i += 1;
        }
        assert(m.space.take(i as int) =~= m.space);
        assert(out@ =~= fsm_bytes(m));
        out
    }

    pub fn decode(buf: &[u8]) -> (r: Fsm)
        ensures
            r.wf(),
            r@ == fsm_of(buf@),
    {
        let mut fsm = Fsm::new();
        if buf.len() < 4 {
            return fsm;
        }
        let stated: u32 = bytes::get_u32(buf, 0);
        let room: usize = (buf.len() - 4) / 4;
        let n: usize = if stated as usize <= room {
            stated as usize
        } else {
            room
        };
        let mut i: usize = 0;
        assert(fsm@.free =~= ids_of(buf@, 0));
        while i < n
            invariant
                i <= n,
                n <= (buf@.len() - 4) / 4,
                buf@.len() >= 4,
                fsm.wf(),
                fsm@ == (FsmModel { free: ids_of(buf@, i as nat), space: Seq::empty() }),
            decreases n - i,
        {
            assert(4 + 4 * n <= buf.len());
            let id: u32 = bytes::get_u32(buf, 4 + 4 * i);
            proof {
                lemma_put_pages(fsm@.free, id, Mark);
            }
            fsm.free_pages.insert(id as u64, Mark);
            i += 1;
            assert(fsm@ =~= (FsmModel { free: ids_of(buf@, i as nat), space: Seq::empty() }));
        }
        assert(4 + 4 * n <= buf.len());
        let at: usize = 4 + 4 * n;
        if buf.len() - at < 4 {
            return fsm;
        }
        let stated: u32 = bytes::get_u32(buf, at);
        let room: usize = (buf.len() - at - 4) / 8;
        let m: usize = if stated as usize <= room {
            stated as usize
        } else {
            room
        };
        let mut i: usize = 0;
        let ghost free = fsm@.free;
        assert(fsm@.space =~= spaces_of(buf@, at + 4, 0));
        while i < m
            invariant
                i <= m,
                m <= (buf@.len() - at - 4) / 8,
                at + 4 <= buf@.len(),
                fsm.wf(),
                fsm@ == (FsmModel { free, space: spaces_of(buf@, at + 4, i as nat) }),
            decreases m - i,
        {
            assert(at + 4 + 8 * m <= buf.len());
            let id: u32 = bytes::get_u32(buf, at + 4 + 8 * i);
            let f: u32 = bytes::get_u32(buf, at + 4 + 8 * i + 4);
            fsm.set_space(id, f);
            i += 1;
            assert(fsm@ =~= (FsmModel { free, space: spaces_of(buf@, at + 4, i as nat) }));
        }
        fsm
    }
}

/// The free space of all pages together.
pub open spec fn total(s: Seq<(u64, u32)>) -> int
    decreases s.len(),
{
    if s.len() == 0 {
        0
    } else {
        total(s.drop_last()) + s.last().1
    }
}

proof fn lemma_total(s: Seq<(u64, u32)>, n: int)
    requires
        0 <= n <= s.len(),
    ensures
        total(s.take(n)) <= total(s),
    decreases s.len() - n,
{
    if n < s.len() {
        lemma_total(s, n + 1);
        assert(s.take(n + 1).drop_last() =~= s.take(n));
    } else {
        assert(s.take(n) =~= s);
    }
}

/// A page's free space changed by a delta, kept from going below 0.
pub open spec fn left_after(m: FsmModel, id: u32, delta: i64) -> u32 {
    let sum = m.space_of(id) + delta;
    if sum < 0 {
        0
    } else {
        (sum % 0x1_0000_0000) as u32
    }
}

/// A map with a page's free space changed by a delta.
pub open spec fn adjusted(m: FsmModel, id: u32, delta: i64) -> FsmModel {
    FsmModel { space: keymap::put(m.space, id as u64, left_after(m, id, delta)), ..m }
}

} // verus!
