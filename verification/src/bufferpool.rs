//! A fixed-capacity buffer pool with clock (second-chance) eviction.
//!
//! The pager owns page memory for a decoded database; this buffer pool is the
//! caching layer that sits in front of a backing store, tracking which frames
//! are resident, pinned, dirty, and referenced. It is a standard textbook
//! design: a frame table, a page table mapping page ids to frames, a free list,
//! and a clock hand that sweeps reference bits to choose a victim. Pinned frames
//! are never evicted; dirty victims are reported to the caller so they can be
//! flushed.

use vstd::prelude::*;
use crate::bytes;
use crate::numeric;
use crate::numeric::{RealNeed, Reals};
use std::collections::HashMap;

verus! {

broadcast use vstd::std_specs::hash::group_hash_axioms;

/// Identifies a logical page in the backing store.
pub type PageId = u32;

/// A frame holds one page's bytes plus its bookkeeping bits.
#[derive(Debug, Clone)]
struct Frame {
    page_id: Option<PageId>,
    data: Vec<u8>,
    pin_count: u32,
    dirty: bool,
    referenced: bool,
}

/// What a frame holds.
#[verifier::ext_equal]
pub struct FrameModel {
    pub page_id: Option<PageId>,
    pub data: Seq<u8>,
    pub pins: u32,
    pub dirty: bool,
    pub referenced: bool,
}

/// `n` bytes: those given, cut off or followed by zeros.
pub open spec fn resized(s: Seq<u8>, n: nat) -> Seq<u8> {
    Seq::new(
        n,
        |i: int|
            if i < s.len() {
                s[i]
            } else {
                0
            },
    )
}

/// A frame without a page.
pub open spec fn empty_frame(page_size: nat) -> FrameModel {
    FrameModel { page_id: None, data: resized(Seq::empty(), page_size), pins: 0, dirty: false, referenced: false }
}

impl Frame {
    closed spec fn model(self) -> FrameModel {
        FrameModel {
            page_id: self.page_id,
            data: self.data@,
            pins: self.pin_count,
            dirty: self.dirty,
            referenced: self.referenced,
        }
    }

    fn empty(page_size: usize) -> (f: Frame)
        ensures
            f.model() == empty_frame(page_size as nat),
    {
        let data = vec![0u8; page_size];
        assert(data@ =~= resized(Seq::empty(), page_size as nat));
        Frame { page_id: None, data, pin_count: 0, dirty: false, referenced: false }
    }
}

/// Statistics tracked by the pool over its lifetime.
#[derive(Debug, Clone, Copy, PartialEq, Eq, Structural)]
pub struct PoolStats {
    pub hits: u64,
    pub misses: u64,
    pub evictions: u64,
    pub flushes: u64,
}

impl PoolStats {
    /// Hit ratio in `[0, 1]`, as the bits of a real.
    pub fn hit_ratio(&self, reals: &Reals) -> (r: Result<u64, RealNeed>)
        requires
            self.hits + self.misses <= u64::MAX,
        ensures
            numeric::asked(r) == (if self.hits + self.misses == 0 {
                Ok(0u64)
            } else {
                numeric::ratio_of(self.hits as nat, (self.hits + self.misses) as nat, reals@)
            }),
    {
        let total = self.hits + self.misses;
        if total == 0 {
            Ok(0)
        } else {
            numeric::ratio(self.hits, total, reals)
        }
    }
}

impl Default for PoolStats {
    fn default() -> (r: Self)
        ensures
            r == (PoolStats { hits: 0, misses: 0, evictions: 0, flushes: 0 }),
    {
        PoolStats { hits: 0, misses: 0, evictions: 0, flushes: 0 }
    }
}

/// The error returned when the pool cannot satisfy a request.
#[derive(Debug, Clone, PartialEq, Eq)]
pub enum PoolError {
    /// Every frame is pinned; no victim can be chosen.
    AllFramesPinned,
    /// The requested page is not resident and cannot be faulted in without a
    /// loader.
    NotResident(PageId),
}

/// A page that was evicted and needs to be written back.
#[derive(Debug, Clone, PartialEq, Eq)]
pub struct Writeback {
    pub page_id: PageId,
    pub data: Vec<u8>,
}

impl Writeback {
    pub open spec fn model(self) -> (PageId, Seq<u8>) {
        (self.page_id, self.data@)
    }
}

/// A pool: frames, page table, free list, clock hand, page size, statistics.
#[verifier::ext_equal]
pub struct PoolParts {
    pub frames: Seq<FrameModel>,
    pub table: Map<PageId, usize>,
    pub free: Seq<usize>,
    pub hand: int,
    pub page_size: nat,
    pub stats: PoolStats,
}

/// Every frame without a page, but perhaps one, is on the free list.
pub open spec fn listed_but(t: PoolParts, hole: int) -> bool {
    forall|f: int|
        0 <= f < t.frames.len() && f != hole && (#[trigger] t.frames[f]).page_id is None ==> t.free.contains(f as usize)
}

/// The page table and the frames agree, the free frames are those without a page,
/// and every frame has a page of bytes.
pub open spec fn pool_ok(t: PoolParts) -> bool {
    pool_fit(t) && listed_but(t, -1)
}

/// The page table and the frames agree, free frames are empty, and every frame
/// has a page of bytes.
pub open spec fn pool_fit(t: PoolParts) -> bool {
    &&& 0 < t.frames.len() <= usize::MAX
    &&& 0 <= t.hand < t.frames.len()
    &&& t.free.no_duplicates()
    &&& forall|i: int|
        0 <= i < t.free.len() ==> (#[trigger] t.free[i]) < t.frames.len() && t.frames[t.free[i] as int].page_id is None
    &&& forall|p: PageId| #[trigger]
        t.table.contains_key(p) ==> t.table[p] < t.frames.len() && t.frames[t.table[p] as int].page_id == Some(p)
    &&& forall|f: int|
        0 <= f < t.frames.len() ==> (#[trigger] t.frames[f]).data.len() == t.page_size && (t.frames[f].page_id matches Some(
            p,
        ) ==> t.table.contains_key(p) && t.table[p] == f)
    &&& forall|f: int|
        0 <= f < t.frames.len() ==> ((#[trigger] t.frames[f]).page_id is None ==> !t.frames[f].dirty)
}

/// The place behind the hand.
pub open spec fn clock_next(hand: int, n: int) -> int {
    if hand + 1 < n {
        hand + 1
    } else {
        0
    }
}

/// The clock: from `hand` on, pinned frames are passed over and reference bits
/// cleared, until an unpinned frame with a clear bit is found or `left` frames
/// were visited. Gives the frame found, the frames, and the hand.
pub open spec fn sweep(frames: Seq<FrameModel>, hand: int, left: nat) -> (Option<int>, Seq<FrameModel>, int)
    decreases left,
{
    if left == 0 {
        (None, frames, hand)
    } else {
        let f = frames[hand];
        let next = clock_next(hand, frames.len() as int);
        if f.pins > 0 {
            sweep(frames, next, (left - 1) as nat)
        } else if f.referenced {
            sweep(frames.update(hand, FrameModel { referenced: false, ..f }), next, (left - 1) as nat)
        } else {
            (Some(hand), frames, next)
        }
    }
}

/// The frame for a new page, the page that has to be written back for it, and
/// the pool after making room: a free frame, else the clock's victim.
pub open spec fn acquired(t: PoolParts) -> (Option<(int, Option<(PageId, Seq<u8>)>)>, PoolParts) {
    if t.free.len() > 0 {
        (Some((t.free.last() as int, None)), PoolParts { free: t.free.drop_last(), ..t })
    } else {
        let (v, frames, hand) = sweep(t.frames, t.hand, 2 * t.frames.len());
        match v {
            None => (None, PoolParts { frames, hand, ..t }),
            Some(i) => {
                let f = frames[i];
                let wb = match f.page_id {
                    Some(p) => if f.dirty {
                        Some((p, f.data))
                    } else {
                        None
                    },
                    None => None,
                };
                let table = match f.page_id {
                    Some(p) => t.table.remove(p),
                    None => t.table,
                };
                let stats = PoolStats {
                    evictions: (t.stats.evictions + 1) as u64,
                    flushes: if wb is Some {
                        (t.stats.flushes + 1) as u64
                    } else {
                        t.stats.flushes
                    },
                    ..t.stats
                };
                (
                    Some((i, wb)),
                    PoolParts { frames: frames.update(i, empty_frame(t.page_size)), hand, table, stats, ..t },
                )
            },
        }
    }
}

/// The outcome of an installation: what is displaced, or that every frame is
/// pinned; and the pool afterwards.
pub open spec fn installed(t: PoolParts, page: PageId, data: Seq<u8>) -> (
    Option<Option<(PageId, Seq<u8>)>>,
    PoolParts,
) {
    let bytes = resized(data, t.page_size);
    if t.table.contains_key(page) {
        let i = t.table[page] as int;
        let f = FrameModel { data: bytes, dirty: true, referenced: true, ..t.frames[i] };
        (Some(None), PoolParts { frames: t.frames.update(i, f), ..t })
    } else {
        let (a, u) = acquired(t);
        match a {
            None => (None, u),
            Some((i, wb)) => {
                let f = FrameModel { page_id: Some(page), data: bytes, pins: 1, dirty: true, referenced: true };
                (
                    Some(wb),
                    PoolParts { frames: u.frames.update(i, f), table: u.table.insert(page, i as usize), ..u },
                )
            },
        }
    }
}

/// Frames that differ at most in their reference bits.
pub open spec fn same_but_bits(a: Seq<FrameModel>, b: Seq<FrameModel>) -> bool {
    &&& a.len() == b.len()
    &&& forall|i: int|
        0 <= i < a.len() ==> (#[trigger] b[i]) == (FrameModel { referenced: b[i].referenced, ..a[i] })
}

/// The clock changes only reference bits, and finds an unpinned frame.
pub proof fn lemma_sweep(frames: Seq<FrameModel>, hand: int, left: nat)
    requires
        0 <= hand < frames.len(),
    ensures
        ({
            let (v, fs, h) = sweep(frames, hand, left);
            &&& same_but_bits(frames, fs)
            &&& 0 <= h < frames.len()
            &&& (v matches Some(i) ==> 0 <= i < frames.len() && fs[i].pins == 0 && !fs[i].referenced)
        }),
    decreases left,
{
    if left > 0 {
        let f = frames[hand];
        let n = frames.len() as int;
        let next = clock_next(hand, n);
        assert(0 <= next < n);
        if f.pins > 0 {
            lemma_sweep(frames, next, (left - 1) as nat);
        } else if f.referenced {
            let g = frames.update(hand, FrameModel { referenced: false, ..f });
            lemma_sweep(g, next, (left - 1) as nat);
            let fs = sweep(g, next, (left - 1) as nat).1;
            assert(same_but_bits(frames, fs)) by {
                assert forall|i: int| 0 <= i < frames.len() implies (#[trigger] fs[i]) == (FrameModel {
                    referenced: fs[i].referenced,
                    ..frames[i]
                }) by {
                    assert(fs[i] == (FrameModel { referenced: fs[i].referenced, ..g[i] }));
                }
            }
        }
    }
}

/// Frame `k` places behind the hand.
spec fn clock_place(hand: int, k: int, n: int) -> int {
    if hand + k < n {
        hand + k
    } else {
        hand + k - n
    }
}

/// Where some frame is unpinned, two rounds find one. `done` frames before the
/// hand have been passed: they are pinned or have a clear bit.
proof fn lemma_sweep_finds(frames: Seq<FrameModel>, start: int, done: int, left: nat)
    requires
        0 <= start < frames.len(),
        0 <= done <= frames.len(),
        forall|k: int|
            0 <= k < done ==> frames[#[trigger] clock_place(start, k, frames.len() as int)].pins > 0
                || !frames[clock_place(start, k, frames.len() as int)].referenced,
        left >= 2 * frames.len() - done,
        exists|i: int| 0 <= i < frames.len() && (#[trigger] frames[i]).pins == 0,
    ensures
        sweep(
            frames,
            if done < frames.len() {
                clock_place(start, done, frames.len() as int)
            } else {
                start
            },
            left,
        ).0 is Some,
    decreases 2 * frames.len() - done,
{
    let n = frames.len() as int;
    if done == n {
        assert forall|i: int| 0 <= i < n implies (#[trigger] frames[i]).pins > 0 || !frames[i].referenced by {
            let k = if i >= start {
                i - start
            } else {
                i - start + n
            };
            assert(clock_place(start, k, n) == i);
        }
        let i = choose|i: int| 0 <= i < n && (#[trigger] frames[i]).pins == 0;
        lemma_sweep_clear(frames, start, i, left);
    } else {
        let hand = clock_place(start, done, n);
        let f = frames[hand];
        let next = clock_next(hand, n);
        let next2 = if done + 1 < n {
            clock_place(start, done + 1, n)
        } else {
            start
        };
        assert(next == next2);
        if f.pins > 0 {
            lemma_sweep_finds(frames, start, done + 1, (left - 1) as nat);
        } else if f.referenced {
            let g = frames.update(hand, FrameModel { referenced: false, ..f });
            assert forall|k: int| 0 <= k < done + 1 implies g[#[trigger] clock_place(start, k, n)].pins > 0
                || !g[clock_place(start, k, n)].referenced by {}
            assert(exists|i: int| 0 <= i < g.len() && (#[trigger] g[i]).pins == 0) by {
                let i = choose|i: int| 0 <= i < n && (#[trigger] frames[i]).pins == 0;
                assert(g[i].pins == 0);
            }
            lemma_sweep_finds(g, start, done + 1, (left - 1) as nat);
        }
    }
}

/// Where all bits are clear, one round finds an unpinned frame.
proof fn lemma_sweep_clear(frames: Seq<FrameModel>, hand: int, i: int, left: nat)
    requires
        0 <= hand < frames.len(),
        0 <= i < frames.len(),
        frames[i].pins == 0,
        forall|j: int| 0 <= j < frames.len() ==> (#[trigger] frames[j]).pins > 0 || !frames[j].referenced,
        left > (if i >= hand {
            i - hand
        } else {
            i - hand + frames.len()
        }),
    ensures
        sweep(frames, hand, left).0 is Some,
    decreases left,
{
    let n = frames.len() as int;
    let f = frames[hand];
    if f.pins > 0 {
        let next = clock_next(hand, n);
        lemma_sweep_clear(frames, next, i, (left - 1) as nat);
    }
}

/// Installing fails only where no frame is free and every frame is pinned.
pub proof fn lemma_install_fails(t: PoolParts, page: PageId, data: Seq<u8>)
    requires
        pool_ok(t),
    ensures
        installed(t, page, data).0 is None <==> !t.table.contains_key(page) && t.free.len() == 0 && (forall|i: int|
            0 <= i < t.frames.len() ==> (#[trigger] t.frames[i]).pins > 0),
{
    let n = 2 * t.frames.len();
    if !t.table.contains_key(page) && t.free.len() == 0 {
        if exists|i: int| 0 <= i < t.frames.len() && (#[trigger] t.frames[i]).pins == 0 {
            lemma_sweep_finds(t.frames, t.hand, 0, n);
            assert(clock_place(t.hand, 0, t.frames.len() as int) == t.hand);
        } else {
            lemma_sweep(t.frames, t.hand, n);
        }
    }
}

/// How many of the first `n` frames hold a page.
pub open spec fn occupied(frames: Seq<FrameModel>, n: nat) -> nat
    decreases n,
{
    if n == 0 {
        0
    } else {
        occupied(frames, (n - 1) as nat) + if frames[n - 1].page_id is Some {
            1nat
        } else {
            0
        }
    }
}

proof fn lemma_occupied(t: PoolParts, n: nat)
    requires
        pool_ok(t),
        n <= t.frames.len(),
    ensures
        Set::new(|p: PageId| t.table.contains_key(p) && t.table[p] < n).finite(),
        Set::new(|p: PageId| t.table.contains_key(p) && t.table[p] < n).len() == occupied(t.frames, n),
        Set::new(|f: usize| t.free.contains(f) && f < n).finite(),
        Set::new(|f: usize| t.free.contains(f) && f < n).len() + occupied(t.frames, n) == n,
    decreases n,
{
    let d = Set::new(|p: PageId| t.table.contains_key(p) && t.table[p] < n);
    let e = Set::new(|f: usize| t.free.contains(f) && f < n);
    if n == 0 {
        assert(d =~= Set::empty());
        assert(e =~= Set::empty());
    } else {
        let m = (n - 1) as nat;
        let d0 = Set::new(|p: PageId| t.table.contains_key(p) && t.table[p] < m);
        let e0 = Set::new(|f: usize| t.free.contains(f) && f < m);
        lemma_occupied(t, m);
        match t.frames[n - 1].page_id {
            Some(p) => {
                assert(d =~= d0.insert(p)) by {
                    assert forall|q: PageId| d.contains(q) == d0.insert(p).contains(q) by {
                        if t.table.contains_key(q) && t.table[q] == m {
                            assert(t.frames[t.table[q] as int].page_id == Some(q));
                        }
                    }
                }
                assert(e =~= e0) by {
                    assert forall|f: usize| e.contains(f) == e0.contains(f) by {
                        if t.free.contains(f) && f == m {
                            let j = t.free.index_of(f);
                            assert(t.frames[t.free[j] as int].page_id is None);
                        }
                    }
                }
            },
            None => {
                assert(d =~= d0) by {
                    assert forall|q: PageId| d.contains(q) == d0.contains(q) by {
                        if t.table.contains_key(q) && t.table[q] == m {
                            assert(t.frames[t.table[q] as int].page_id == Some(q));
                        }
                    }
                }
                assert(t.free.contains(m as usize));
                assert(e =~= e0.insert(m as usize));
            },
        }
    }
}

/// The resident pages and the free frames make up the pool.
pub proof fn lemma_resident(t: PoolParts)
    requires
        pool_ok(t),
    ensures
        t.table.dom().finite(),
        t.table.dom().len() + t.free.len() == t.frames.len(),
{
    let n = t.frames.len();
    lemma_occupied(t, n);
    assert(Set::new(|p: PageId| t.table.contains_key(p) && t.table[p] < n) =~= t.table.dom());
    t.free.unique_seq_to_set();
    assert(Set::new(|f: usize| t.free.contains(f) && f < n) =~= t.free.to_set()) by {
        assert forall|f: usize| t.free.contains(f) implies f < n by {
            let j = t.free.index_of(f);
            assert(t.free[j] < n);
        }
    }
}

/// Installing a page that is not resident fails if and only if the pool is full
/// and every resident page is pinned.
pub proof fn lemma_install_full(t: PoolParts, page: PageId, data: Seq<u8>)
    requires
        pool_ok(t),
    ensures
        installed(t, page, data).0 is None <==> !t.table.contains_key(page) && t.table.dom().len() == t.frames.len() && (
        forall|p: PageId| #[trigger] t.table.contains_key(p) ==> t.frames[t.table[p] as int].pins > 0),
{
    lemma_install_fails(t, page, data);
    lemma_resident(t);
    if t.free.len() == 0 {
        assert forall|i: int| 0 <= i < t.frames.len() implies (#[trigger] t.frames[i]).page_id is Some by {
            if t.frames[i].page_id is None {
                assert(t.free.contains(i as usize));
            }
        }
        if forall|p: PageId| #[trigger] t.table.contains_key(p) ==> t.frames[t.table[p] as int].pins > 0 {
            assert forall|i: int| 0 <= i < t.frames.len() implies (#[trigger] t.frames[i]).pins > 0 by {
                assert(t.table.contains_key(t.frames[i].page_id->0));
            }
        }
    }
}

/// Making room keeps the pool sound, and no pinned page leaves.
proof fn lemma_acquired(t: PoolParts)
    requires
        pool_ok(t),
    ensures
        ({
            let (a, u) = acquired(t);
            &&& pool_fit(u)
            &&& a is None ==> pool_ok(u)
            &&& u.page_size == t.page_size
            &&& (a matches Some((i, wb)) ==> {
                &&& listed_but(u, i)
                &&& 0 <= i < u.frames.len()
                &&& u.frames[i].page_id is None
                &&& !u.free.contains(i as usize)
                &&& u.frames.len() == t.frames.len()
            })
            &&& forall|p: PageId| #[trigger] u.table.contains_key(p) ==> t.table.contains_key(p)
            &&& forall|p: PageId| #[trigger]
                t.table.contains_key(p) && t.frames[t.table[p] as int].pins > 0 ==> u.table.contains_key(p)
                    && u.table[p] == t.table[p] && u.frames[u.table[p] as int].data == t.frames[t.table[p] as int].data
                    && u.frames[u.table[p] as int].pins == t.frames[t.table[p] as int].pins
        }),
{
    let (a, u) = acquired(t);
    if t.free.len() > 0 {
        let i = t.free.last();
        assert(t.free[t.free.len() - 1] == i);
        assert forall|j: int| 0 <= j < u.free.len() implies (#[trigger] u.free[j]) < u.frames.len()
            && u.frames[u.free[j] as int].page_id is None by {
            assert(u.free[j] == t.free[j]);
        }
        assert(!u.free.contains(i)) by {
            if u.free.contains(i) {
                let j = choose|j: int| 0 <= j < u.free.len() && u.free[j] == i;
                assert(t.free[j] == t.free[t.free.len() - 1]);
            }
        }
        assert forall|f: int|
            0 <= f < u.frames.len() && f != i && (#[trigger] u.frames[f]).page_id is None implies u.free.contains(
            f as usize,
        ) by {
            let j = t.free.index_of(f as usize);
            assert(t.free[j] == f);
            assert(u.free[j] == f);
        }
    } else {
        let (v, frames, hand) = sweep(t.frames, t.hand, 2 * t.frames.len());
        lemma_sweep(t.frames, t.hand, 2 * t.frames.len());
        assert forall|f: int| 0 <= f < t.frames.len() implies (#[trigger] frames[f]).page_id == t.frames[f].page_id
            && frames[f].data == t.frames[f].data && frames[f].pins == t.frames[f].pins && frames[f].dirty
            == t.frames[f].dirty by {}
        match v {
            None => {
                assert(pool_fit(u));
                assert(listed_but(u, -1)) by {
                    assert forall|f: int|
                        0 <= f < u.frames.len() && (#[trigger] u.frames[f]).page_id is None implies u.free.contains(
                        f as usize,
                    ) by {
                        assert(t.frames[f].page_id is None);
                    }
                }
            },
            Some(i) => {
                assert forall|f: int|
                    0 <= f < u.frames.len() && f != i && (#[trigger] u.frames[f]).page_id is None implies u.free.contains(
                    f as usize,
                ) by {
                    assert(u.frames[f] == frames[f]);
                    assert(t.frames[f].page_id is None);
                }
                assert(pool_fit(u)) by {
                    assert forall|p: PageId| #[trigger] u.table.contains_key(p) implies u.table[p] < u.frames.len()
                        && u.frames[u.table[p] as int].page_id == Some(p) by {
                        assert(t.table.contains_key(p));
                    }
                    assert forall|f: int| 0 <= f < u.frames.len() implies (#[trigger] u.frames[f]).data.len()
                        == u.page_size && (u.frames[f].page_id matches Some(p) ==> u.table.contains_key(p)
                        && u.table[p] == f) by {
                        if f != i {
                            assert(u.frames[f] == frames[f]);
                        }
                    }
                    assert forall|f: int| 0 <= f < u.frames.len() implies ((#[trigger] u.frames[f]).page_id is None
                        ==> !u.frames[f].dirty) by {
                        if f != i {
                            assert(u.frames[f] == frames[f]);
                            assert(t.frames[f].page_id == frames[f].page_id);
                        }
                    }
                }
            },
        }
    }
}

/// Installing keeps the pool sound, makes the page resident, and evicts no
/// pinned page.
pub proof fn lemma_installed(t: PoolParts, page: PageId, data: Seq<u8>)
    requires
        pool_ok(t),
    ensures
        ({
            let (r, u) = installed(t, page, data);
            &&& pool_ok(u)
            &&& r is Some ==> u.table.contains_key(page) && u.frames[u.table[page] as int].data == resized(
                data,
                t.page_size,
            )
            &&& forall|p: PageId|
                p != page && #[trigger] t.table.contains_key(p) && t.frames[t.table[p] as int].pins > 0
                    ==> u.table.contains_key(p) && u.frames[u.table[p] as int].data == t.frames[t.table[p] as int].data
                    && u.frames[u.table[p] as int].pins == t.frames[t.table[p] as int].pins
        }),
{
    let (r, u) = installed(t, page, data);
    if t.table.contains_key(page) {
        let i = t.table[page] as int;
        assert(t.frames[i].page_id == Some(page));
        lemma_frame_change(t, u, i);
        assert forall|p: PageId|
            p != page && #[trigger] t.table.contains_key(p) && t.frames[t.table[p] as int].pins > 0 implies u.table.contains_key(
            p,
        ) && u.frames[u.table[p] as int].data == t.frames[t.table[p] as int].data && u.frames[u.table[p] as int].pins
            == t.frames[t.table[p] as int].pins by {
            assert(t.frames[t.table[p] as int].page_id == Some(p));
        }
    } else {
        lemma_acquired(t);
        let (a, w) = acquired(t);
        if let Some((i, wb)) = a {
            assert(!w.table.contains_key(page));
            assert forall|f: int|
                0 <= f < u.frames.len() && (#[trigger] u.frames[f]).page_id is None implies u.free.contains(f as usize) by {
                assert(u.frames[f] == w.frames[f]);
            }
            assert forall|j: int| 0 <= j < u.free.len() implies (#[trigger] u.free[j]) < u.frames.len()
                && u.frames[u.free[j] as int].page_id is None by {
                assert(w.free[j] != i) by {
                    assert(w.free.contains(w.free[j]));
                }
            }
            assert forall|p: PageId| #[trigger] u.table.contains_key(p) implies u.table[p] < u.frames.len()
                && u.frames[u.table[p] as int].page_id == Some(p) by {
                if p != page {
                    assert(w.table.contains_key(p));
                    assert(w.frames[w.table[p] as int].page_id == Some(p));
                }
            }
            assert forall|f: int| 0 <= f < u.frames.len() implies (#[trigger] u.frames[f]).data.len() == u.page_size && (
            u.frames[f].page_id matches Some(p) ==> u.table.contains_key(p) && u.table[p] == f) by {
                if f != i {
                    assert(u.frames[f] == w.frames[f]);
                }
            }
            assert forall|p: PageId|
                p != page && #[trigger] t.table.contains_key(p) && t.frames[t.table[p] as int].pins > 0 implies u.table.contains_key(
                p,
            ) && u.frames[u.table[p] as int].data == t.frames[t.table[p] as int].data
                && u.frames[u.table[p] as int].pins == t.frames[t.table[p] as int].pins by {
                assert(w.table.contains_key(p));
                assert(w.frames[w.table[p] as int].page_id == Some(p));
            }
        }
    }
}

/// Just one page leaves the pool: an unpinned one, handed out if it is dirty.
pub open spec fn displaces(t: PoolParts, u: PoolParts, wb: Option<(PageId, Seq<u8>)>, page: PageId, p: PageId) -> bool {
    &&& p != page
    &&& t.table.contains_key(p)
    &&& t.frames[t.table[p] as int].pins == 0
    &&& !u.table.contains_key(p)
    &&& forall|q: PageId| q != p && q != page ==> #[trigger] u.table.contains_key(q) == t.table.contains_key(q)
    &&& wb == if t.frames[t.table[p] as int].dirty {
        Some((p, t.frames[t.table[p] as int].data))
    } else {
        None
    }
}

/// What installing a page does to the other pages. Where the page is resident, or
/// a frame is free, none leaves. Where all frames are taken, just one leaves, which
/// is not pinned. A refusal leaves every page and every pin as it was. A page that
/// was not resident comes in pinned once.
pub proof fn lemma_displaced(t: PoolParts, page: PageId, data: Seq<u8>)
    requires
        pool_ok(t),
    ensures
        ({
            let (r, u) = installed(t, page, data);
            &&& t.table.contains_key(page) ==> r == Some(None::<(PageId, Seq<u8>)>) && u.table == t.table
            &&& !t.table.contains_key(page) && r is Some ==> u.table.contains_key(page)
                && u.frames[u.table[page] as int].pins == 1
            &&& !t.table.contains_key(page) && t.free.len() > 0 ==> r == Some(None::<(PageId, Seq<u8>)>) && forall|q: PageId|
                q != page ==> #[trigger] u.table.contains_key(q) == t.table.contains_key(q)
            &&& !t.table.contains_key(page) && t.free.len() == 0 ==> match r {
                Some(wb) => exists|p: PageId| displaces(t, u, wb, page, p),
                None => u.table == t.table && same_but_bits(t.frames, u.frames),
            }
        }),
{
    let (r, u) = installed(t, page, data);
    if !t.table.contains_key(page) && t.free.len() == 0 {
        let (v, frames, hand) = sweep(t.frames, t.hand, 2 * t.frames.len());
        lemma_sweep(t.frames, t.hand, 2 * t.frames.len());
        if let Some(i) = v {
            assert(frames[i] == (FrameModel { referenced: frames[i].referenced, ..t.frames[i] }));
            assert(t.frames[i].page_id is Some) by {
                if t.frames[i].page_id is None {
                    assert(t.free.contains(i as usize));
                }
            }
            let p = t.frames[i].page_id->0;
            assert(t.table.contains_key(p) && t.table[p] == i);
            assert(displaces(t, u, r->0, page, p));
        }
    }
}

/// A dirty page that leaves the pool is handed out for writing back.
pub proof fn lemma_dirty_written_back(t: PoolParts, page: PageId, data: Seq<u8>, p: PageId)
    requires
        pool_ok(t),
        t.table.contains_key(p),
        t.frames[t.table[p] as int].dirty,
        !installed(t, page, data).1.table.contains_key(p),
    ensures
        installed(t, page, data).0 == Some(Some((p, t.frames[t.table[p] as int].data))),
{
    if !t.table.contains_key(page) {
        if t.free.len() == 0 {
            let (v, frames, hand) = sweep(t.frames, t.hand, 2 * t.frames.len());
            lemma_sweep(t.frames, t.hand, 2 * t.frames.len());
            if let Some(i) = v {
                assert(frames[i].page_id == t.frames[i].page_id);
            }
        }
    }
}

/// The dirty pages of the first `n` frames, in frame order.
pub open spec fn dirty_pages(frames: Seq<FrameModel>, n: nat) -> Seq<(PageId, Seq<u8>)>
    decreases n,
{
    if n == 0 {
        Seq::empty()
    } else {
        let d = dirty_pages(frames, (n - 1) as nat);
        let f = frames[n - 1];
        match f.page_id {
            Some(p) => if f.dirty {
                d.push((p, f.data))
            } else {
                d
            },
            None => d,
        }
    }
}

/// The models of write-backs.
pub open spec fn writeback_models(s: Seq<Writeback>) -> Seq<(PageId, Seq<u8>)> {
    s.map_values(|w: Writeback| w.model())
}

/// The buffer pool.
pub struct BufferPool {
    frames: Vec<Frame>,
    page_table: HashMap<PageId, usize>,
    free_list: Vec<usize>,
    clock_hand: usize,
    page_size: usize,
    stats: PoolStats,
}

spec fn frame_models(s: Seq<Frame>) -> Seq<FrameModel> {
    s.map_values(|f: Frame| f.model())
}

impl BufferPool {
    pub closed spec fn parts(&self) -> PoolParts {
        PoolParts {
            frames: frame_models(self.frames@),
            table: self.page_table@,
            free: self.free_list@,
            hand: self.clock_hand as int,
            page_size: self.page_size as nat,
            stats: self.stats,
        }
    }

    pub open spec fn wf(&self) -> bool {
        pool_ok(self.parts())
    }

    /// A pool of `capacity` frames, each `page_size` bytes.
    pub fn new(capacity: usize, page_size: usize) -> (r: BufferPool)
        ensures
            r.wf(),
            r.parts().frames.len() == (if capacity == 0 {
                1
            } else {
                capacity as nat
            }),
            forall|i: int|
                0 <= i < r.parts().frames.len() ==> #[trigger] r.parts().frames[i] == empty_frame(page_size as nat),
            r.parts().table == Map::<PageId, usize>::empty(),
            r.parts().free == Seq::new(
                r.parts().frames.len(),
                |i: int| (r.parts().frames.len() - 1 - i) as usize,
            ),
            r.parts().hand == 0,
            r.parts().page_size == page_size,
            r.parts().stats == (PoolStats { hits: 0, misses: 0, evictions: 0, flushes: 0 }),
    {
        let n: usize = if capacity == 0 {
            1
        } else {
            capacity
        };
        let mut frames: Vec<Frame> = Vec::new();
        let mut free_list: Vec<usize> = Vec::new();
        let mut i: usize = 0;
        while i < n
            invariant
                i <= n,
                frames@.len() == i,
                free_list@.len() == i,
                forall|j: int| 0 <= j < i ==> (#[trigger] frames@[j]).model() == empty_frame(page_size as nat),
                forall|j: int| 0 <= j < i ==> #[trigger] free_list@[j] == n - 1 - j,
            decreases n - i,
        {
            frames.push(Frame::empty(page_size));
            free_list.push(n - 1 - i);
            i += 1;
        }
        let r = BufferPool {
            frames,
            page_table: HashMap::new(),
            free_list,
            clock_hand: 0,
            page_size,
            stats: PoolStats::default(),
        };
        proof {
            let t = r.parts();
            assert forall|j: int| 0 <= j < t.frames.len() implies #[trigger] t.frames[j] == empty_frame(
                page_size as nat,
            ) by {
                assert(t.frames[j] == r.frames@[j].model());
            }
            assert(t.free =~= Seq::new(t.frames.len(), |i: int| (t.frames.len() - 1 - i) as usize));
            assert forall|f: int| 0 <= f < t.frames.len() && (#[trigger] t.frames[f]).page_id is None implies t.free.contains(
                f as usize,
            ) by {
                assert(t.free[t.frames.len() - 1 - f] == f);
            }
        }
        r
    }

    /// Number of frames.
    pub fn capacity(&self) -> (r: usize)
        ensures
            r == self.parts().frames.len(),
    {
        self.frames.len()
    }

    /// Number of resident pages.
    pub fn resident(&self) -> (r: usize)
        ensures
            r == self.parts().table.len(),
    {
        self.page_table.len()
    }

    /// Cumulative statistics.
    pub fn stats(&self) -> (r: PoolStats)
        ensures
            r == self.parts().stats,
    {
        self.stats
    }

    /// `true` if `page_id` currently occupies a frame.
    pub fn is_resident(&self, page_id: PageId) -> (r: bool)
        ensures
            r == self.parts().table.contains_key(page_id),
    {
        self.page_table.contains_key(&page_id)
    }

    /// Install a fresh page into the pool, evicting if necessary. Returns any
    /// dirty page displaced so the caller can flush it. The new page starts
    /// pinned with a reference bit set.
    pub fn install(&mut self, page_id: PageId, data: Vec<u8>) -> (r: Result<Option<Writeback>, PoolError>)
        requires
            old(self).wf(),
            old(self).parts().stats.evictions < u64::MAX,
            old(self).parts().stats.flushes < u64::MAX,
            2 * old(self).parts().frames.len() <= usize::MAX,
        ensures
            final(self).wf(),
            final(self).parts() == installed(old(self).parts(), page_id, data@).1,
            match r {
                Ok(None) => installed(old(self).parts(), page_id, data@).0 == Some(None::<(PageId, Seq<u8>)>),
                Ok(Some(w)) => installed(old(self).parts(), page_id, data@).0 == Some(Some(w.model())),
                Err(e) => installed(old(self).parts(), page_id, data@).0 is None && e == PoolError::AllFramesPinned,
            },
    {
        let ghost t0 = self.parts();
        proof {
            lemma_installed(t0, page_id, data@);
            lemma_acquired(t0);
        }
        let bytes = sized(data, self.page_size);
        if let Some(frame) = self.page_table.get(&page_id) {
            let i: usize = *frame;
            let ghost f0 = self.frames@[i as int];
            assert(t0.table.contains_key(page_id));
            assert(t0.frames[i as int] == f0.model());
            let pins: u32 = self.frames[i].pin_count;
            let f = Frame { page_id: Some(page_id), data: bytes, pin_count: pins, dirty: true, referenced: true };
            let ghost m = f.model();
            self.frames.set(i, f);
            proof {
                assert(self.parts().frames =~= t0.frames.update(i as int, m));
                assert(self.parts() =~= installed(t0, page_id, data@).1);
            }
            return Ok(None);
        }
        match self.acquire_frame() {
            Err(e) => Err(e),
            Ok((i, writeback)) => {
                let ghost u = self.parts();
                let f = Frame { page_id: Some(page_id), data: bytes, pin_count: 1, dirty: true, referenced: true };
                let ghost m = f.model();
                self.frames.set(i, f);
                self.page_table.insert(page_id, i);
                proof {
                    assert(self.parts().frames =~= u.frames.update(i as int, m));
                    assert(self.parts() =~= installed(t0, page_id, data@).1);
                }
                Ok(writeback)
            },
        }
    }

    /// Pin a resident page and return a shared view of its bytes. A miss is
    /// reported as [`PoolError::NotResident`]: this pool has no loader.
    pub fn pin(&mut self, page_id: PageId) -> (r: Result<&[u8], PoolError>)
        requires
            old(self).wf(),
            old(self).parts().stats.hits < u64::MAX,
            old(self).parts().stats.misses < u64::MAX,
            old(self).parts().table.contains_key(page_id) ==> old(self).parts().frames[old(
                self,
            ).parts().table[page_id] as int].pins < u32::MAX,
        ensures
            final(self).wf(),
            final(self).parts() == touched(old(self).parts(), page_id, false),
            match r {
                Ok(b) => old(self).parts().table.contains_key(page_id) && b@ == old(self).parts().frames[old(
                    self,
                ).parts().table[page_id] as int].data,
                Err(e) => !old(self).parts().table.contains_key(page_id) && e == PoolError::NotResident(page_id),
            },
    {
        let ghost t0 = self.parts();
        match self.touch(page_id, false) {
            Some(i) => Ok(self.frames[i].data.as_slice()),
            None => Err(PoolError::NotResident(page_id)),
        }
    }

    /// Get a mutable view of a resident, pinned page and mark it dirty.
    pub fn pin_mut(&mut self, page_id: PageId) -> (r: Result<&mut [u8], PoolError>)
        requires
            old(self).wf(),
            old(self).parts().stats.hits < u64::MAX,
            old(self).parts().stats.misses < u64::MAX,
            old(self).parts().table.contains_key(page_id) ==> old(self).parts().frames[old(
                self,
            ).parts().table[page_id] as int].pins < u32::MAX,
        ensures
            match r {
                Ok(b) => {
                    let t = touched(old(self).parts(), page_id, true);
                    let i = t.table[page_id] as int;
                    &&& old(self).parts().table.contains_key(page_id)
                    &&& b@ == old(self).parts().frames[i].data
                    &&& final(self).parts() == rebound(t, i, final(b)@)
                    &&& final(b)@.len() == b@.len() ==> final(self).wf()
                },
                Err(e) => final(self).wf() && !old(self).parts().table.contains_key(page_id) && e
                    == PoolError::NotResident(page_id) && final(self).parts() == touched(old(self).parts(), page_id, true),
            },
    {
        match self.touch(page_id, true) {
            Some(i) => {
                let ghost fs = self.frames@;
                let ghost t = self.parts();
                proof {
                    assert(t.frames[i as int] == fs[i as int].model());
                    assert forall|g: Frame| frame_models(#[trigger] fs.update(i as int, g)) == t.frames.update(
                        i as int,
                        g.model(),
                    ) by {
                        assert(frame_models(fs.update(i as int, g)) =~= t.frames.update(i as int, g.model()));
                    }
                    assert(t.table.contains_key(page_id));
                    assert forall|d: Seq<u8>|
                        d.len() == t.page_size implies pool_ok(#[trigger] rebound(t, i as int, d)) by {
                        lemma_frame_change(t, rebound(t, i as int, d), i as int);
                    }
                }
                let frame = &mut self.frames[i];
                Ok(frame.data.as_mut_slice())
            },
            None => Err(PoolError::NotResident(page_id)),
        }
    }

    /// Count a hit or a miss; pin and reference a resident page.
    fn touch(&mut self, page_id: PageId, write: bool) -> (r: Option<usize>)
        requires
            old(self).wf(),
            old(self).parts().stats.hits < u64::MAX,
            old(self).parts().stats.misses < u64::MAX,
            old(self).parts().table.contains_key(page_id) ==> old(self).parts().frames[old(
                self,
            ).parts().table[page_id] as int].pins < u32::MAX,
        ensures
            final(self).wf(),
            final(self).parts() == touched(old(self).parts(), page_id, write),
            match r {
                Some(i) => old(self).parts().table.contains_key(page_id) && i == old(self).parts().table[page_id] && i
                    < final(self).frames@.len() && final(self).frames@[i as int].data@ == old(self).parts().frames[i as int].data,
                None => !old(self).parts().table.contains_key(page_id),
            },
    {
        let ghost t0 = self.parts();
        match self.page_table.get(&page_id) {
            Some(frame) => {
                let i: usize = *frame;
                assert(t0.table.contains_key(page_id));
                assert(t0.frames[i as int] == self.frames@[i as int].model());
                let mut f = self.frames.remove(i);
                f.pin_count = f.pin_count + 1;
                f.referenced = true;
                if write {
                    f.dirty = true;
                }
                let ghost m = f.model();
                self.frames.insert(i, f);
                self.stats.hits = self.stats.hits + 1;
                proof {
                    assert(self.parts().frames =~= t0.frames.update(i as int, m));
                    assert(self.parts() =~= touched(t0, page_id, write));
                    assert(self.frames@[i as int].model() == m);
                    lemma_frame_change(t0, self.parts(), i as int);
                }
                Some(i)
            },
            None => {
                self.stats.misses = self.stats.misses + 1;
                assert(self.parts() =~= touched(t0, page_id, write));
                None
            },
        }
    }

    /// Release one pin on a page. Unpinning an unpinned page is a no-op.
    pub fn unpin(&mut self, page_id: PageId)
        requires
            old(self).wf(),
        ensures
            final(self).wf(),
            final(self).parts() == ({
                let t = old(self).parts();
                let i = t.table[page_id] as int;
                if t.table.contains_key(page_id) && t.frames[i].pins > 0 {
                    PoolParts {
                        frames: t.frames.update(i, FrameModel { pins: (t.frames[i].pins - 1) as u32, ..t.frames[i] }),
                        ..t
                    }
                } else {
                    t
                }
            }),
    {
        let ghost t0 = self.parts();
        if let Some(frame) = self.page_table.get(&page_id) {
            let i: usize = *frame;
            assert(t0.table.contains_key(page_id));
            assert(t0.frames[i as int] == self.frames@[i as int].model());
            if self.frames[i].pin_count > 0 {
                let mut f = self.frames.remove(i);
                f.pin_count = f.pin_count - 1;
                let ghost m = f.model();
                self.frames.insert(i, f);
                proof {
                    assert(self.parts().frames =~= t0.frames.update(i as int, m));
                    lemma_frame_change(t0, self.parts(), i as int);
                }
            }
        }
    }

    /// Mark a resident page dirty.
    pub fn mark_dirty(&mut self, page_id: PageId)
        requires
            old(self).wf(),
        ensures
            final(self).wf(),
            final(self).parts() == ({
                let t = old(self).parts();
                let i = t.table[page_id] as int;
                if t.table.contains_key(page_id) {
                    PoolParts { frames: t.frames.update(i, FrameModel { dirty: true, ..t.frames[i] }), ..t }
                } else {
                    t
                }
            }),
    {
        let ghost t0 = self.parts();
        if let Some(frame) = self.page_table.get(&page_id) {
            let i: usize = *frame;
            assert(t0.table.contains_key(page_id));
            assert(t0.frames[i as int] == self.frames@[i as int].model());
            let mut f = self.frames.remove(i);
            f.dirty = true;
            let ghost m = f.model();
            self.frames.insert(i, f);
            proof {
                assert(self.parts().frames =~= t0.frames.update(i as int, m));
                lemma_frame_change(t0, self.parts(), i as int);
            }
        }
    }

    /// The pin count of a resident page (0 if not resident).
    pub fn pin_count(&self, page_id: PageId) -> (r: u32)
        requires
            self.wf(),
        ensures
            r == (if self.parts().table.contains_key(page_id) {
                self.parts().frames[self.parts().table[page_id] as int].pins
            } else {
                0
            }),
    {
        let ghost t0 = self.parts();
        match self.page_table.get(&page_id) {
            Some(frame) => {
                let i: usize = *frame;
                assert(t0.table.contains_key(page_id));
                assert(t0.frames[i as int] == self.frames@[i as int].model());
                self.frames[i].pin_count
            },
            None => 0,
        }
    }

    /// Flush a single dirty page, returning its bytes and clearing the dirty
    /// bit. Returns `None` if the page is clean or not resident.
    pub fn flush(&mut self, page_id: PageId) -> (r: Option<Writeback>)
        requires
            old(self).wf(),
            old(self).parts().stats.flushes < u64::MAX,
        ensures
            final(self).wf(),
            ({
                let t = old(self).parts();
                let i = t.table[page_id] as int;
                if t.table.contains_key(page_id) && t.frames[i].dirty {
                    &&& r matches Some(w) && w.model() == (page_id, t.frames[i].data)
                    &&& final(self).parts() == (PoolParts {
                        frames: t.frames.update(i, FrameModel { dirty: false, ..t.frames[i] }),
                        stats: PoolStats { flushes: (t.stats.flushes + 1) as u64, ..t.stats },
                        ..t
                    })
                } else {
                    r is None && final(self).parts() == t
                }
            }),
    {
        let ghost t0 = self.parts();
        let i: usize = match self.page_table.get(&page_id) {
            Some(frame) => *frame,
            None => {
                return None;
            },
        };
        assert(t0.table.contains_key(page_id));
        assert(t0.frames[i as int] == self.frames@[i as int].model());
        if !self.frames[i].dirty {
            return None;
        }
        let mut f = self.frames.remove(i);
        f.dirty = false;
        let data = copied(&f.data);
        let ghost m = f.model();
        self.frames.insert(i, f);
        self.stats.flushes = self.stats.flushes + 1;
        proof {
            assert(self.parts().frames =~= t0.frames.update(i as int, m));
            lemma_frame_change(t0, self.parts(), i as int);
        }
        Some(Writeback { page_id, data })
    }

    /// Flush every dirty page, returning the writebacks in frame order.
    pub fn flush_all(&mut self) -> (out: Vec<Writeback>)
        requires
            old(self).wf(),
            old(self).parts().stats.flushes + old(self).parts().frames.len() <= u64::MAX,
        ensures
            final(self).wf(),
            writeback_models(out@) == dirty_pages(old(self).parts().frames, old(self).parts().frames.len()),
            final(self).parts() == (PoolParts {
                frames: old(self).parts().frames.map_values(|f: FrameModel| FrameModel { dirty: false, ..f }),
                stats: PoolStats {
                    flushes: (old(self).parts().stats.flushes + out@.len()) as u64,
                    ..old(self).parts().stats
                },
                ..old(self).parts()
            }),
    {
        let ghost t0 = self.parts();
        let n: usize = self.frames.len();
        let mut out: Vec<Writeback> = Vec::new();
        let mut i: usize = 0;
        assert(writeback_models(out@) =~= Seq::<(PageId, Seq<u8>)>::empty());
        while i < n
            invariant
                i <= n,
                n == self.frames@.len(),
                t0.frames.len() == n,
                t0.stats.flushes + n <= u64::MAX,
                pool_ok(t0),
                out@.len() <= i,
                writeback_models(out@) == dirty_pages(t0.frames, i as nat),
                self.page_table@ == t0.table,
                self.free_list@ == t0.free,
                self.clock_hand == t0.hand,
                self.page_size == t0.page_size,
                self.stats == (PoolStats { flushes: (t0.stats.flushes + out@.len()) as u64, ..t0.stats }),
                forall|j: int| i <= j < n ==> (#[trigger] self.frames@[j]).model() == t0.frames[j],
                forall|j: int|
                    0 <= j < i ==> (#[trigger] self.frames@[j]).model() == (FrameModel {
                        dirty: false,
                        ..t0.frames[j]
                    }),
            decreases n - i,
        {
            let ghost fs = self.frames@;
            assert(fs[i as int].model() == t0.frames[i as int]);
            if let Some(page_id) = self.frames[i].page_id {
                if self.frames[i].dirty {
                    let mut f = self.frames.remove(i);
                    f.dirty = false;
                    let data = copied(&f.data);
                    let ghost g = f;
                    self.frames.insert(i, f);
                    assert(self.frames@ =~= fs.update(i as int, g));
                    self.stats.flushes = self.stats.flushes + 1;
                    let ghost o = out@;
                    out.push(Writeback { page_id, data });
                    assert(writeback_models(out@) =~= writeback_models(o).push((page_id, t0.frames[i as int].data)));
                }
            }
            i += 1;
        }
        proof {
            let t1 = self.parts();
            assert forall|j: int| 0 <= j < n implies #[trigger] t1.frames[j] == (FrameModel {
                dirty: false,
                ..t0.frames[j]
            }) by {
                assert(t1.frames[j] == self.frames@[j].model());
            }
            assert(t1.frames =~= t0.frames.map_values(|f: FrameModel| FrameModel { dirty: false, ..f }));
            assert(t1.free == t0.free && t1.table == t0.table);
            assert(pool_ok(t1)) by {
                assert forall|p: PageId| #[trigger] t1.table.contains_key(p) implies t1.table[p] < t1.frames.len()
                    && t1.frames[t1.table[p] as int].page_id == Some(p) by {
                    assert(t0.table.contains_key(p));
                }
            }
        }
        out
    }

    /// Acquire a free frame, evicting a clock victim if the free list is empty.
    fn acquire_frame(&mut self) -> (r: Result<(usize, Option<Writeback>), PoolError>)
        requires
            old(self).wf(),
            old(self).parts().stats.evictions < u64::MAX,
            old(self).parts().stats.flushes < u64::MAX,
            2 * old(self).parts().frames.len() <= usize::MAX,
        ensures
            final(self).parts() == acquired(old(self).parts()).1,
            match r {
                Ok((i, None)) => acquired(old(self).parts()).0 == Some((i as int, None::<(PageId, Seq<u8>)>)),
                Ok((i, Some(w))) => acquired(old(self).parts()).0 == Some((i as int, Some(w.model()))),
                Err(e) => acquired(old(self).parts()).0 is None && e == PoolError::AllFramesPinned,
            },
    {
        let ghost t0 = self.parts();
        if self.free_list.len() > 0 {
            if let Some(idx) = self.free_list.pop() {
                assert(self.parts() =~= acquired(t0).1);
                return Ok((idx, None));
            }
        }
        proof {
            lemma_sweep(t0.frames, t0.hand, 2 * t0.frames.len());
        }
        let victim: usize = match self.choose_victim() {
            Some(v) => v,
            None => {
                assert(self.parts() =~= acquired(t0).1);
                return Err(PoolError::AllFramesPinned);
            },
        };
        let ghost t1 = self.parts();
        assert(t1.frames[victim as int] == self.frames@[victim as int].model());
        let mut writeback: Option<Writeback> = None;
        if let Some(pid) = self.frames[victim].page_id {
            if self.frames[victim].dirty {
                writeback = Some(Writeback { page_id: pid, data: copied(&self.frames[victim].data) });
                self.stats.flushes = self.stats.flushes + 1;
            }
            self.page_table.remove(&pid);
        }
        let f = Frame::empty(self.page_size);
        let ghost m = f.model();
        self.frames.set(victim, f);
        self.stats.evictions = self.stats.evictions + 1;
        proof {
            assert(self.parts().frames =~= t1.frames.update(victim as int, m));
            assert(self.parts() =~= acquired(t0).1);
        }
        Ok((victim, writeback))
    }

    /// Run the clock hand until it finds an unpinned frame with a clear
    /// reference bit, clearing reference bits as it sweeps.
    fn choose_victim(&mut self) -> (r: Option<usize>)
        requires
            old(self).wf(),
            2 * old(self).parts().frames.len() <= usize::MAX,
        ensures
            ({
                let t = old(self).parts();
                let (v, frames, hand) = sweep(t.frames, t.hand, 2 * t.frames.len());
                &&& final(self).parts() == (PoolParts { frames, hand, ..t })
                &&& match r {
                    Some(i) => v == Some(i as int) && i < final(self).frames@.len(),
                    None => v is None,
                }
            }),
    {
        let ghost t0 = self.parts();
        let n: usize = self.frames.len();
        let ghost goal = sweep(t0.frames, t0.hand, 2 * t0.frames.len());
        let mut left: usize = 2 * n;
        // At most two full sweeps: one to clear reference bits, one to pick.
        while left > 0
            invariant
                n == self.frames@.len(),
                n == t0.frames.len(),
                n > 0,
                left <= 2 * n,
                self.clock_hand < n,
                sweep(frame_models(self.frames@), self.clock_hand as int, left as nat) == goal,
                self.page_table@ == t0.table,
                self.free_list@ == t0.free,
                self.page_size == t0.page_size,
                self.stats == t0.stats,
                goal == sweep(t0.frames, t0.hand, 2 * t0.frames.len()),
                t0 == old(self).parts(),
            decreases left,
        {
            let idx: usize = self.clock_hand;
            let ghost fs = frame_models(self.frames@);
            assert(fs[idx as int] == self.frames@[idx as int].model());
            self.clock_hand = if idx + 1 == n {
                0
            } else {
                idx + 1
            };
            left -= 1;
            if self.frames[idx].pin_count > 0 {
                continue;
            }
            if self.frames[idx].referenced {
                let mut f = self.frames.remove(idx);
                f.referenced = false;
                let ghost m = f.model();
                self.frames.insert(idx, f);
                assert(frame_models(self.frames@) =~= fs.update(idx as int, m));
                continue;
            }
            assert(self.parts() =~= (PoolParts { frames: goal.1, hand: goal.2, ..t0 }));
            return Some(idx);
        }
        assert(self.parts() =~= (PoolParts { frames: goal.1, hand: goal.2, ..t0 }));
        None
    }
}

/// The pool after a page is asked for: a resident page is pinned and
/// referenced, and dirty if it is asked for to write; a hit or a miss is
/// counted.
pub open spec fn touched(t: PoolParts, page: PageId, write: bool) -> PoolParts {
    if t.table.contains_key(page) {
        let i = t.table[page] as int;
        let f = t.frames[i];
        PoolParts {
            frames: t.frames.update(
                i,
                FrameModel { pins: (f.pins + 1) as u32, referenced: true, dirty: f.dirty || write, ..f },
            ),
            stats: PoolStats { hits: (t.stats.hits + 1) as u64, ..t.stats },
            ..t
        }
    } else {
        PoolParts { stats: PoolStats { misses: (t.stats.misses + 1) as u64, ..t.stats }, ..t }
    }
}

/// A pool with other bytes in a frame.
pub open spec fn rebound(t: PoolParts, i: int, d: Seq<u8>) -> PoolParts {
    PoolParts { frames: t.frames.update(i, FrameModel { data: d, ..t.frames[i] }), ..t }
}

/// A change of the bits or the bytes of an occupied frame keeps the pool sound.
proof fn lemma_frame_change(t: PoolParts, u: PoolParts, i: int)
    requires
        pool_ok(t),
        0 <= i < t.frames.len(),
        t.frames[i].page_id is Some,
        u.frames.len() == t.frames.len(),
        forall|j: int| 0 <= j < t.frames.len() && j != i ==> u.frames[j] == t.frames[j],
        u.frames[i].page_id == t.frames[i].page_id,
        u.frames[i].data.len() == t.page_size,
        u.table == t.table,
        u.free == t.free,
        u.hand == t.hand,
        u.page_size == t.page_size,
    ensures
        pool_ok(u),
{
    assert forall|j: int| 0 <= j < u.free.len() implies (#[trigger] u.free[j]) < u.frames.len()
        && u.frames[u.free[j] as int].page_id is None by {
        assert(t.frames[t.free[j] as int].page_id is None);
    }
    assert forall|p: PageId| #[trigger] u.table.contains_key(p) implies u.table[p] < u.frames.len()
        && u.frames[u.table[p] as int].page_id == Some(p) by {
        assert(t.table.contains_key(p));
    }
    assert forall|f: int| 0 <= f < u.frames.len() && (#[trigger] u.frames[f]).page_id is None implies u.free.contains(
        f as usize,
    ) by {
        assert(u.frames[f] == t.frames[f]);
    }
}

/// The bytes of a page, resized.
fn sized(data: Vec<u8>, n: usize) -> (r: Vec<u8>)
    ensures
        r@ == resized(data@, n as nat),
{
    let mut r: Vec<u8> = data;
    let ghost d = r@;
    r.truncate(n);
    while r.len() < n
        invariant
            r@.len() <= n,
            forall|j: int|
                0 <= j < r@.len() ==> #[trigger] r@[j] == (if j < d.len() {
                    d[j]
                } else {
                    0
                }),
            d.len() < n ==> r@.len() >= d.len(),
            d.len() >= n ==> r@.len() == n,
        decreases n - r@.len(),
    {
        r.push(0);
    }
    assert(r@ =~= resized(d, n as nat));
    r
}

fn copied(data: &Vec<u8>) -> (r: Vec<u8>)
    ensures
        r@ == data@,
{
    let mut r: Vec<u8> = Vec::new();
    bytes::put_bytes(&mut r, data.as_slice());
    assert(r@ =~= data@);
    r
}

} // verus!
