//! A binary min-heap priority queue with keyed decrease-key.
//!
//! The external merge sort and the top-N operator both want a priority queue,
//! and the deadlock/scheduler code wants one that supports lowering an entry's
//! priority in place (decrease-key), which a plain `BinaryHeap` cannot do. This
//! is a binary heap over `(priority, key)` pairs with a side table mapping each
//! key to its current heap position, so `decrease_key` and `contains` are
//! supported without a linear scan.

use std::collections::HashMap;
use vstd::prelude::*;

verus! {

broadcast use vstd::std_specs::hash::group_hash_axioms;

/// A min-priority queue keyed by `u32`, ordered by `i64` priority.
#[derive(Debug)]
pub struct PriorityQueue {
    heap: Vec<(i64, u32)>,
    /// key -> index in `heap`.
    pos: HashMap<u32, usize>,
}

spec fn parent(i: int) -> int {
    (i - 1) / 2
}

/// Entry `i` is no smaller than its parent.
spec fn above(h: Seq<(i64, u32)>, i: int) -> bool {
    h[parent(i)].0 <= h[i].0
}

/// Entry `i` is no smaller than the parent of its parent.
spec fn over(h: Seq<(i64, u32)>, i: int) -> bool {
    h[parent(parent(i))].0 <= h[i].0
}

spec fn is_heap(h: Seq<(i64, u32)>) -> bool {
    forall|i: int| 0 < i < h.len() ==> #[trigger] above(h, i)
}

/// A heap but for entry `x`, which may be too small for its place.
spec fn heap_but_up(h: Seq<(i64, u32)>, x: int) -> bool {
    &&& forall|i: int| 0 < i < h.len() && i != x ==> #[trigger] above(h, i)
    &&& forall|i: int| 0 < i < h.len() && parent(i) == x && x > 0 ==> #[trigger] over(h, i)
}

/// A heap but for entry `x`, which may be too large for its place.
spec fn heap_but_down(h: Seq<(i64, u32)>, x: int) -> bool {
    &&& forall|i: int| 0 < i < h.len() && parent(i) != x ==> #[trigger] above(h, i)
    &&& forall|i: int| 0 < i < h.len() && parent(i) == x && x > 0 ==> #[trigger] over(h, i)
}

/// The side table tells where each key stands.
spec fn synced(h: Seq<(i64, u32)>, pos: Map<u32, usize>) -> bool {
    &&& forall|i: int| 0 <= i < h.len() ==> pos.contains_key((#[trigger] h[i]).1) && pos[h[i].1] == i
    &&& forall|k: u32| #[trigger] pos.contains_key(k) ==> pos[k] < h.len() && h[pos[k] as int].1 == k
}

/// The priority of each key.
spec fn entries(h: Seq<(i64, u32)>, pos: Map<u32, usize>) -> Map<u32, i64> {
    Map::new(|k: u32| pos.contains_key(k), |k: u32| h[pos[k] as int].0)
}

/// Two entries of a heap exchanged.
pub open spec fn swapped(h: Seq<(i64, u32)>, a: int, b: int) -> Seq<(i64, u32)> {
    h.update(a, h[b]).update(b, h[a])
}

/// Entry `i` moved up past the parents that are larger.
pub open spec fn raised(h: Seq<(i64, u32)>, i: int) -> Seq<(i64, u32)>
    decreases i,
{
    let p = (i - 1) / 2;
    if i > 0 && h[i].0 < h[p].0 {
        raised(swapped(h, i, p), p)
    } else {
        h
    }
}

/// The smallest of an entry and its two children: the entry before them, and the
/// left one before the right one, where they are equal.
pub open spec fn smallest(h: Seq<(i64, u32)>, i: int) -> int {
    let l = 2 * i + 1;
    let r = 2 * i + 2;
    let a = if l < h.len() && h[l].0 < h[i].0 {
        l
    } else {
        i
    };
    if r < h.len() && h[r].0 < h[a].0 {
        r
    } else {
        a
    }
}

/// Entry `i` moved down past the smaller child, as long as one is smaller.
pub open spec fn lowered(h: Seq<(i64, u32)>, i: int) -> Seq<(i64, u32)>
    decreases h.len() - i,
{
    let s = smallest(h, i);
    if 0 <= i < s < h.len() {
        lowered(swapped(h, i, s), s)
    } else {
        h
    }
}

/// A heap without entry `i`: the last one takes its place and moves from there.
pub open spec fn cut_out(h: Seq<(i64, u32)>, i: int) -> Seq<(i64, u32)> {
    let t = swapped(h, i, h.len() - 1).drop_last();
    if i >= t.len() {
        t
    } else if i > 0 && t[i].0 < t[(i - 1) / 2].0 {
        raised(t, i)
    } else {
        lowered(t, i)
    }
}

/// The place of a key in a heap.
pub open spec fn place_in(h: Seq<(i64, u32)>, key: u32) -> int {
    choose|i: int| 0 <= i < h.len() && (#[trigger] h[i]).1 == key
}

/// The first `n` entries to leave a heap.
pub open spec fn drained(h: Seq<(i64, u32)>, n: nat) -> Seq<(i64, u32)>
    decreases n,
{
    if n == 0 {
        Seq::empty()
    } else {
        seq![h[0]] + drained(cut_out(h, 0), (n - 1) as nat)
    }
}

/// No priority is less.
pub open spec fn is_least(m: Map<u32, i64>, p: i64) -> bool {
    forall|k: u32| #[trigger] m.contains_key(k) ==> p <= m[k]
}

proof fn lemma_root_least(h: Seq<(i64, u32)>, i: int)
    requires
        is_heap(h),
        0 <= i < h.len(),
    ensures
        h[0].0 <= h[i].0,
    decreases i,
{
    if i > 0 {
        lemma_root_least(h, parent(i));
        assert(above(h, i));
    }
}

impl Default for PriorityQueue {
    fn default() -> (r: PriorityQueue)
        ensures
            r.wf(),
            r@ == Map::<u32, i64>::empty(),
            r.order().len() == 0,
    {
        PriorityQueue::new()
    }
}

impl View for PriorityQueue {
    type V = Map<u32, i64>;

    /// The priority of each key.
    closed spec fn view(&self) -> Map<u32, i64> {
        entries(self.heap@, self.pos@)
    }
}

impl PriorityQueue {
    /// A heap with a side table that matches.
    pub closed spec fn wf(&self) -> bool {
        is_heap(self.heap@) && synced(self.heap@, self.pos@)
    }

    /// The entries in the order of the heap.
    pub closed spec fn order(&self) -> Seq<(i64, u32)> {
        self.heap@
    }

    /// The order has each key once, with its priority.
    pub proof fn lemma_order(&self)
        requires
            self.wf(),
        ensures
            self.order().len() == self@.len(),
            forall|i: int, j: int|
                0 <= i < j < self.order().len() ==> (#[trigger] self.order()[i]).1 != (#[trigger] self.order()[j]).1,
            forall|i: int|
                0 <= i < self.order().len() ==> self@.contains_key((#[trigger] self.order()[i]).1)
                    && self@[self.order()[i].1] == self.order()[i].0,
            forall|k: u32|
                #[trigger] self@.contains_key(k) ==> 0 <= place_in(self.order(), k) < self.order().len()
                    && self.order()[place_in(self.order(), k)] == (self@[k], k),
    {
        self.lemma_len();
        let h = self.heap@;
        assert forall|i: int, j: int| 0 <= i < j < h.len() implies (#[trigger] h[i]).1 != (#[trigger] h[j]).1 by {
            assert(self.pos@[h[i].1] == i && self.pos@[h[j].1] == j);
        }
        assert forall|k: u32| #[trigger] self@.contains_key(k) implies 0 <= place_in(h, k) < h.len() && h[place_in(
            h,
            k,
        )] == (self@[k], k) by {
            self.lemma_place(k);
        }
    }

    proof fn lemma_place(&self, k: u32)
        requires
            synced(self.heap@, self.pos@),
            self.pos@.contains_key(k),
        ensures
            place_in(self.heap@, k) == self.pos@[k],
            0 <= self.pos@[k] < self.heap@.len(),
    {
        let h = self.heap@;
        assert(h[self.pos@[k] as int].1 == k);
        let i = place_in(h, k);
        assert(0 <= i < h.len() && h[i].1 == k);
        assert(self.pos@[h[i].1] == i);
    }

    /// An empty queue.
    pub fn new() -> (r: PriorityQueue)
        ensures
            r.wf(),
            r@ == Map::<u32, i64>::empty(),
            r.order().len() == 0,
    {
        let r = PriorityQueue { heap: Vec::new(), pos: HashMap::new() };
        assert(r@ =~= Map::<u32, i64>::empty());
        r
    }

    proof fn lemma_len(&self)
        requires
            synced(self.heap@, self.pos@),
        ensures
            self@.dom().finite(),
            self@.len() == self.heap@.len(),
    {
        let h = self.heap@;
        let keys = h.map_values(|e: (i64, u32)| e.1);
        assert(keys.no_duplicates()) by {
            assert forall|i: int, j: int| 0 <= i < keys.len() && 0 <= j < keys.len() && i != j implies keys[i] != keys[j] by {
                assert(self.pos@[h[i].1] == i && self.pos@[h[j].1] == j);
            }
        }
        keys.unique_seq_to_set();
        assert(keys.to_set() =~= self@.dom()) by {
            assert forall|k: u32| keys.to_set().contains(k) <==> self@.dom().contains(k) by {
                if keys.to_set().contains(k) {
                    let i = choose|i: int| 0 <= i < keys.len() && keys[i] == k;
                    assert(self.pos@.contains_key(h[i].1));
                }
                if self@.dom().contains(k) {
                    assert(keys[self.pos@[k] as int] == k);
                }
            }
        }
    }

    proof fn lemma_empty(&self)
        requires
            self.wf(),
        ensures
            self.heap@.len() == 0 <==> self@ == Map::<u32, i64>::empty(),
    {
        if self.heap@.len() == 0 {
            assert(self@ =~= Map::<u32, i64>::empty());
        } else {
            assert(self.pos@.contains_key(self.heap@[0].1));
            assert(self@.contains_key(self.heap@[0].1));
        }
    }

    /// A queue has finitely many keys.
    pub proof fn lemma_finite(&self)
        requires
            self.wf(),
        ensures
            self@.dom().finite(),
    {
        self.lemma_len();
    }

    /// Number of entries.
    pub fn len(&self) -> (r: usize)
        requires
            self.wf(),
        ensures
            self@.dom().finite(),
            r == self@.len(),
    {
        proof {
            self.lemma_len();
        }
        self.heap.len()
    }

    /// `true` if empty.
    pub fn is_empty(&self) -> (r: bool)
        requires
            self.wf(),
        ensures
            r == (self@ == Map::<u32, i64>::empty()),
    {
        proof {
            self.lemma_empty();
        }
        self.heap.len() == 0
    }

    /// `true` if the key is present.
    pub fn contains(&self, key: u32) -> (r: bool)
        requires
            self.wf(),
        ensures
            r == self@.contains_key(key),
    {
        self.pos.contains_key(&key)
    }

    /// The current priority of a key, if present.
    pub fn priority_of(&self, key: u32) -> (r: Option<i64>)
        requires
            self.wf(),
        ensures
            r == (if self@.contains_key(key) {
                Some(self@[key])
            } else {
                None
            }),
    {
        match self.pos.get(&key) {
            None => None,
            Some(i) => Some(self.heap[*i].0),
        }
    }

    /// Insert a key with a priority, or update it (taking the lower priority if
    /// already present).
    pub fn push(&mut self, key: u32, priority: i64)
        requires
            old(self).wf(),
        ensures
            final(self).wf(),
            final(self)@ == (if old(self)@.contains_key(key) && old(self)@[key] <= priority {
                old(self)@
            } else {
                old(self)@.insert(key, priority)
            }),
            final(self).order() == (if !old(self)@.contains_key(key) {
                raised(old(self).order().push((priority, key)), old(self).order().len() as int)
            } else if priority < old(self)@[key] {
                let i = place_in(old(self).order(), key);
                raised(old(self).order().update(i, (priority, key)), i)
            } else {
                old(self).order()
            }),
    {
        if self.pos.contains_key(&key) {
            self.decrease_key(key, priority);
            return;
        }
        let i: usize = self.heap.len();
        self.heap.push((priority, key));
        self.pos.insert(key, i);
        proof {
            let h = self.heap@;
            let h0 = old(self).heap@;
            assert(synced(h, self.pos@));
            assert forall|j: int| 0 < j < h.len() && j != i implies #[trigger] above(h, j) by {
                assert(above(h0, j));
            }
            assert(self@ =~= old(self)@.insert(key, priority));
        }
        self.sift_up(i);
    }

    /// Lower a key's priority; ignored if the new priority is not lower or the
    /// key is absent.
    pub fn decrease_key(&mut self, key: u32, priority: i64) -> (r: bool)
        requires
            old(self).wf(),
        ensures
            final(self).wf(),
            r == (old(self)@.contains_key(key) && priority < old(self)@[key]),
            final(self)@ == (if r {
                old(self)@.insert(key, priority)
            } else {
                old(self)@
            }),
            final(self).order() == (if r {
                let i = place_in(old(self).order(), key);
                raised(old(self).order().update(i, (priority, key)), i)
            } else {
                old(self).order()
            }),
    {
        let at: Option<usize> = match self.pos.get(&key) {
            None => None,
            Some(i) => Some(*i),
        };
        proof {
            if self.pos@.contains_key(key) {
                self.lemma_place(key);
            }
        }
        if let Some(i) = at {
            if priority < self.heap[i].0 {
                self.heap.set(i, (priority, key));
                proof {
                    let h = self.heap@;
                    let h0 = old(self).heap@;
                    assert forall|j: int| 0 < j < h.len() && j != i implies #[trigger] above(h, j) by {
                        assert(above(h0, j));
                    }
                    assert forall|j: int| 0 < j < h.len() && parent(j) == i && i > 0 implies #[trigger] over(h, j) by {
                        assert(above(h0, j));
                        assert(above(h0, i as int));
                    }
                    assert(synced(h, self.pos@)) by {
                        assert forall|j: int| 0 <= j < h.len() implies self.pos@.contains_key((#[trigger] h[j]).1)
                            && self.pos@[h[j].1] == j by {
                            assert(self.pos@.contains_key(h0[j].1));
                        }
                    }
                    assert(self@ =~= old(self)@.insert(key, priority));
                }
                self.sift_up(i);
                return true;
            }
        }
        false
    }

    /// Peek the minimum `(priority, key)`.
    pub fn peek(&self) -> (r: Option<(i64, u32)>)
        requires
            self.wf(),
        ensures
            r is None <==> self@ == Map::<u32, i64>::empty(),
            r matches Some((p, k)) ==> self@.contains_key(k) && self@[k] == p && is_least(self@, p),
            r == (if self.order().len() == 0 {
                None
            } else {
                Some(self.order()[0])
            }),
    {
        proof {
            self.lemma_empty();
        }
        if self.is_empty() {
            return None;
        }
        proof {
            self.lemma_least();
        }
        Some(self.heap[0])
    }

    proof fn lemma_least(&self)
        requires
            self.wf(),
            self.heap@.len() > 0,
        ensures
            self@.contains_key(self.heap@[0].1),
            self@[self.heap@[0].1] == self.heap@[0].0,
            is_least(self@, self.heap@[0].0),
    {
        assert(self.pos@.contains_key(self.heap@[0].1));
        assert forall|k: u32| #[trigger] self@.contains_key(k) implies self.heap@[0].0 <= self@[k] by {
            lemma_root_least(self.heap@, self.pos@[k] as int);
        }
    }

    /// Remove and return the minimum `(priority, key)`.
    pub fn pop(&mut self) -> (r: Option<(i64, u32)>)
        requires
            old(self).wf(),
        ensures
            final(self).wf(),
            r is None <==> old(self)@ == Map::<u32, i64>::empty(),
            match r {
                None => final(self)@ == old(self)@,
                Some((p, k)) => old(self)@.contains_key(k) && old(self)@[k] == p && is_least(old(self)@, p)
                    && final(self)@ == old(self)@.remove(k),
            },
            r == (if old(self).order().len() == 0 {
                None
            } else {
                Some(old(self).order()[0])
            }),
            final(self).order() == (if old(self).order().len() == 0 {
                old(self).order()
            } else {
                cut_out(old(self).order(), 0)
            }),
    {
        proof {
            self.lemma_empty();
        }
        if self.is_empty() {
            return None;
        }
        proof {
            self.lemma_least();
            self.lemma_place(self.heap@[0].1);
        }
        let (prio, key) = self.heap[0];
        self.remove(key);
        Some((prio, key))
    }

    /// Remove a specific key regardless of position.
    pub fn remove(&mut self, key: u32) -> (r: Option<i64>)
        requires
            old(self).wf(),
        ensures
            final(self).wf(),
            r == (if old(self)@.contains_key(key) {
                Some(old(self)@[key])
            } else {
                None
            }),
            final(self)@ == old(self)@.remove(key),
            final(self).order() == (if old(self)@.contains_key(key) {
                cut_out(old(self).order(), place_in(old(self).order(), key))
            } else {
                old(self).order()
            }),
    {
        proof {
            if self.pos@.contains_key(key) {
                self.lemma_place(key);
            }
        }
        let at: Option<usize> = match self.pos.get(&key) {
            None => None,
            Some(i) => Some(*i),
        };
        if at.is_none() {
            assert(self@ =~= old(self)@.remove(key));
            return None;
        }
        let i: usize = at.unwrap();
        let last: usize = self.heap.len() - 1;
        let prio: i64 = self.heap[i].0;
        self.swap(i, last);
        let ghost mid = *self;
        self.heap.pop();
        self.pos.remove(&key);
        proof {
            let h0 = old(self).heap@;
            let h1 = mid.heap@;
            let h = self.heap@;
            assert(h =~= h1.drop_last());
            assert(h =~= h0.update(i as int, h0.last()).drop_last());
            assert(h1[last as int].1 == key);
            assert(synced(h, self.pos@)) by {
                assert forall|j: int| 0 <= j < h.len() implies self.pos@.contains_key((#[trigger] h[j]).1)
                    && self.pos@[h[j].1] == j by {
                    assert(h1[j] == h[j]);
                    assert(mid.pos@[h1[j].1] == j);
                    assert(mid.pos@[h1[last as int].1] == last);
                }
                assert forall|k: u32| #[trigger] self.pos@.contains_key(k) implies self.pos@[k] < h.len()
                    && h[self.pos@[k] as int].1 == k by {
                    assert(mid.pos@.contains_key(k));
                    assert(mid.pos@[key] == last);
                    assert(h1[mid.pos@[k] as int].1 == k);
                }
            }
            assert(self@ =~= old(self)@.remove(key)) by {
                assert forall|k: u32| self@.contains_key(k) implies self@[k] == old(self)@.remove(key)[k] by {
                    assert(mid@.contains_key(k));
                    assert(mid@[k] == old(self)@[k]);
                }
            }
            if i < h.len() {
                if i > 0 && h[i as int].0 < h[parent(i as int)].0 {
                    lemma_fill_up(h0, h, i as int);
                } else {
                    lemma_fill_down(h0, h, i as int);
                }
            } else {
                assert forall|j: int| 0 < j < h.len() implies #[trigger] above(h, j) by {
                    assert(above(h0, j));
                    assert(h[j] == h0[j] && h[parent(j)] == h0[parent(j)]);
                }
            }
        }
        if i < self.heap.len() {
            if i > 0 && self.heap[i].0 < self.heap[(i - 1) / 2].0 {
                self.sift_up(i);
            } else {
                self.sift_down(i);
            }
        }
        Some(prio)
    }

    fn sift_up(&mut self, from: usize)
        requires
            synced(old(self).heap@, old(self).pos@),
            from < old(self).heap@.len(),
            heap_but_up(old(self).heap@, from as int),
        ensures
            final(self).wf(),
            final(self)@ == old(self)@,
            final(self).heap@ == raised(old(self).heap@, from as int),
    {
        let mut i: usize = from;
        while i > 0 && self.heap[i].0 < self.heap[(i - 1) / 2].0
            invariant
                synced(self.heap@, self.pos@),
                i < self.heap@.len(),
                heap_but_up(self.heap@, i as int),
                self@ == old(self)@,
                raised(self.heap@, i as int) == raised(old(self).heap@, from as int),
            decreases i,
        {
            let p: usize = (i - 1) / 2;
            let ghost h0 = self.heap@;
            self.swap(i, p);
            proof {
                let h = self.heap@;
                assert forall|j: int| 0 < j < h.len() && j != p implies #[trigger] above(h, j) by {
                    if j != i {
                        assert(above(h0, j));
                        if parent(j) == i {
                            assert(over(h0, j));
                        }
                    }
                }
                assert forall|j: int| 0 < j < h.len() && parent(j) == p && p > 0 implies #[trigger] over(h, j) by {
                    assert(above(h0, p as int));
                    if j != i {
                        assert(above(h0, j));
                    }
                }
            }
            i = p;
        }
        proof {
            let h = self.heap@;
            assert forall|j: int| 0 < j < h.len() implies #[trigger] above(h, j) by {
                if j == i {
                    assert(h[parent(i as int)].0 <= h[i as int].0);
                }
            }
        }
    }

    fn sift_down(&mut self, from: usize)
        requires
            synced(old(self).heap@, old(self).pos@),
            from < old(self).heap@.len(),
            heap_but_down(old(self).heap@, from as int),
        ensures
            final(self).wf(),
            final(self)@ == old(self)@,
            final(self).heap@ == lowered(old(self).heap@, from as int),
    {
        let mut i: usize = from;
        let n: usize = self.heap.len();
        loop
            invariant
                n == self.heap@.len(),
                synced(self.heap@, self.pos@),
                i < n,
                heap_but_down(self.heap@, i as int),
                self@ == old(self)@,
                lowered(self.heap@, i as int) == lowered(old(self).heap@, from as int),
            ensures
                self.wf(),
                self@ == old(self)@,
                self.heap@ == lowered(old(self).heap@, from as int),
            decreases n - i,
        {
            let ghost h0 = self.heap@;
            let mut smallest: usize = i;
            if i < n / 2 {
                let l: usize = 2 * i + 1;
                if self.heap[l].0 < self.heap[smallest].0 {
                    smallest = l;
                }
            }
            if i < (n - 1) / 2 {
                let r: usize = 2 * i + 2;
                if self.heap[r].0 < self.heap[smallest].0 {
                    smallest = r;
                }
            }
            if smallest == i {
                proof {
                    assert forall|j: int| 0 < j < h0.len() implies #[trigger] above(h0, j) by {
                        if parent(j) == i {
                            assert(j == 2 * i + 1 || j == 2 * i + 2);
                        }
                    }
                }
                break;
            }
            self.swap(i, smallest);
            proof {
                let h = self.heap@;
                let s = smallest as int;
                assert(parent(s) == i);
                assert forall|j: int| 0 < j < h.len() && parent(j) != s implies #[trigger] above(h, j) by {
                    if parent(j) == i {
                        assert(j == 2 * i + 1 || j == 2 * i + 2);
                    } else {
                        assert(above(h0, j));
                        if j == i {
                            assert(over(h0, s));
                        }
                    }
                }
                assert forall|j: int| 0 < j < h.len() && parent(j) == s && s > 0 implies #[trigger] over(h, j) by {
                    assert(above(h0, j));
                }
            }
            i = smallest;
        }
    }

    fn swap(&mut self, a: usize, b: usize)
        requires
            synced(old(self).heap@, old(self).pos@),
            a < old(self).heap@.len(),
            b < old(self).heap@.len(),
        ensures
            synced(final(self).heap@, final(self).pos@),
            final(self).heap@ == old(self).heap@.update(a as int, old(self).heap@[b as int]).update(
                b as int,
                old(self).heap@[a as int],
            ),
            final(self)@ == old(self)@,
    {
        let x = self.heap[a];
        let y = self.heap[b];
        self.heap.set(a, y);
        self.heap.set(b, x);
        self.pos.insert(y.1, a);
        self.pos.insert(x.1, b);
        proof {
            let h0 = old(self).heap@;
            let h = self.heap@;
            let p0 = old(self).pos@;
            let p = self.pos@;
            assert(p0[h0[a as int].1] == a && p0[h0[b as int].1] == b);
            assert forall|j: int| 0 <= j < h.len() implies p.contains_key((#[trigger] h[j]).1) && p[h[j].1] == j by {
                if j != a && j != b {
                    assert(h[j] == h0[j]);
                    assert(p0[h0[j].1] == j);
                }
            }
            assert forall|k: u32| #[trigger] p.contains_key(k) implies p[k] < h.len() && h[p[k] as int].1 == k by {
                assert(p0.contains_key(k));
            }
            assert(self@ =~= old(self)@) by {
                assert forall|k: u32| self@.contains_key(k) implies self@[k] == old(self)@[k] by {
                    assert(p0.contains_key(k));
                    assert(h0[p0[k] as int].1 == k);
                }
            }
        }
    }

    /// Drain the queue in ascending priority order.
    pub fn into_sorted(self) -> (r: Vec<(i64, u32)>)
        requires
            self.wf(),
        ensures
            r@.len() == self@.len(),
            forall|i: int| 0 <= i < r@.len() ==> self@.contains_key((#[trigger] r@[i]).1) && self@[r@[i].1]
                == r@[i].0,
            forall|i: int, j: int| 0 <= i < j < r@.len() ==> r@[i].0 <= r@[j].0 && r@[i].1 != r@[j].1,
            r@ == drained(self.order(), self.order().len()),
    {
        let mut q = self;
        let mut out: Vec<(i64, u32)> = Vec::new();
        proof {
            q.lemma_len();
            q.lemma_empty();
            assert(out@ + drained(q.order(), q.order().len()) =~= drained(self.order(), self.order().len()));
        }
        while !q.is_empty()
            invariant
                self.wf(),
                q.wf(),
                q@.dom().finite(),
                out@.len() + q@.len() == self@.len(),
                q.order().len() == q@.len(),
                out@ + drained(q.order(), q.order().len()) == drained(self.order(), self.order().len()),
                forall|k: u32| #[trigger] q@.contains_key(k) ==> self@.contains_key(k) && self@[k] == q@[k],
                forall|i: int| 0 <= i < out@.len() ==> self@.contains_key((#[trigger] out@[i]).1)
                    && self@[out@[i].1] == out@[i].0 && !q@.contains_key(out@[i].1) && is_least(q@, out@[i].0),
                forall|i: int, j: int|
                    0 <= i < j < out@.len() ==> out@[i].0 <= out@[j].0 && out@[i].1 != out@[j].1,
            decreases q@.len(),
        {
            let ghost was = q@;
            let ghost o = out@;
            let ghost h = q.order();
            let x = q.pop();
            let e: (i64, u32) = x.unwrap();
            out.push(e);
            proof {
                q.lemma_len();
                assert(o + (seq![h[0]] + drained(cut_out(h, 0), (h.len() - 1) as nat)) =~= out@ + drained(
                    q.order(),
                    q.order().len(),
                ));
                assert(was.contains_key(e.1));
                assert forall|i: int| 0 <= i < out@.len() implies self@.contains_key((#[trigger] out@[i]).1)
                    && self@[out@[i].1] == out@[i].0 && !q@.contains_key(out@[i].1) && is_least(q@, out@[i].0) by {
                    if i < o.len() {
                        assert(out@[i] == o[i]);
                    }
                    assert forall|k: u32| #[trigger] q@.contains_key(k) implies out@[i].0 <= q@[k] by {
                        assert(was.contains_key(k));
                    }
                }
                assert forall|i: int, j: int| 0 <= i < j < out@.len() implies out@[i].0 <= out@[j].0 && out@[i].1
                    != out@[j].1 by {
                    if j == o.len() {
                        assert(o[i] == out@[i]);
                        assert(is_least(was, o[i].0));
                    } else {
                        assert(o[i] == out@[i] && o[j] == out@[j]);
                    }
                }
            }
        }
        proof {
            q.lemma_empty();
            q.lemma_len();
            assert(out@ + drained(q.order(), 0) =~= out@);
        }
        out
    }
}

/// Filling a place with the last entry, where that is too small for it.
proof fn lemma_fill_up(h0: Seq<(i64, u32)>, h: Seq<(i64, u32)>, i: int)
    requires
        is_heap(h0),
        h.len() == h0.len() - 1,
        0 < i < h.len(),
        h == h0.update(i, h0.last()).drop_last(),
        h[i].0 < h[parent(i)].0,
    ensures
        heap_but_up(h, i),
{
    assert(above(h0, i));
    assert forall|j: int| 0 < j < h.len() && j != i implies #[trigger] above(h, j) by {
        assert(above(h0, j));
    }
    assert forall|j: int| 0 < j < h.len() && parent(j) == i && i > 0 implies #[trigger] over(h, j) by {
        assert(above(h0, j));
    }
}

/// Filling a place with the last entry, where that is not too small for it.
proof fn lemma_fill_down(h0: Seq<(i64, u32)>, h: Seq<(i64, u32)>, i: int)
    requires
        is_heap(h0),
        h.len() == h0.len() - 1,
        0 <= i < h.len(),
        h == h0.update(i, h0.last()).drop_last(),
        i == 0 || h[i].0 >= h[parent(i)].0,
    ensures
        heap_but_down(h, i),
{
    assert forall|j: int| 0 < j < h.len() && parent(j) != i implies #[trigger] above(h, j) by {
        assert(above(h0, j));
    }
    assert forall|j: int| 0 < j < h.len() && parent(j) == i && i > 0 implies #[trigger] over(h, j) by {
        assert(above(h0, j));
        assert(above(h0, i));
    }
}

} // verus!
