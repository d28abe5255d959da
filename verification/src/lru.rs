//! A generic LRU cache with a capacity bound.
//!
//! Beyond the page buffer pool, several places want a small bounded cache keyed
//! by something other than a page id — resolved dictionary lookups, compiled
//! predicate programs, plan fragments. This is a straightforward
//! hash-map-plus-intrusive-order LRU: O(1) get/put, evicting the
//! least-recently-used entry when the capacity is exceeded. The recency order
//! is kept as a doubly linked list threaded through a slab of optional entries
//! so no per-entry heap allocation is needed and freed slots hold no value.

use std::collections::HashMap;
use std::hash::Hash;
use vstd::prelude::*;

verus! {

broadcast use vstd::std_specs::hash::group_hash_axioms;

const NIL: usize = usize::MAX;

/// A bounded least-recently-used cache.
pub struct LruCache<K: Eq + Hash + Clone, V> {
    map: HashMap<K, usize>,
    items: Vec<Option<(K, V)>>,
    prev: Vec<usize>,
    next: Vec<usize>,
    free: Vec<usize>,
    head: usize,  // most recently used
    tail: usize,  // least recently used
    capacity: usize,
    hits: u64,
    misses: u64,
    /// The slots from most to least recently used.
    order: Ghost<Seq<usize>>,
}

/// Hashing and cloning keep a key what it is.
pub open spec fn plain_keys<K: Eq + Hash + Clone>() -> bool {
    &&& vstd::std_specs::hash::obeys_key_model::<K>()
    &&& forall|a: K, b: K| #[trigger] cloned(a, b) ==> a == b
}

/// The keys of a list of entries.
pub open spec fn keys_of<K, V>(s: Seq<(K, V)>) -> Seq<K> {
    s.map_values(|e: (K, V)| e.0)
}

/// Where a key stands.
pub open spec fn at<K, V>(s: Seq<(K, V)>, k: K) -> int {
    keys_of(s).index_of(k)
}

pub open spec fn holds<K, V>(s: Seq<(K, V)>, k: K) -> bool {
    keys_of(s).contains(k)
}

/// Entry `i` moved to the front.
pub open spec fn touched<K, V>(s: Seq<(K, V)>, i: int) -> Seq<(K, V)> {
    seq![s[i]] + s.remove(i)
}

/// The entry before or after position `i`, or none.
spec fn link(order: Seq<usize>, i: int) -> usize {
    if 0 <= i < order.len() {
        order[i]
    } else {
        NIL
    }
}

/// The list threaded through the slab is `order`.
spec fn threaded(prev: Seq<usize>, next: Seq<usize>, head: usize, tail: usize, order: Seq<usize>) -> bool {
    &&& prev.len() == next.len()
    &&& order.no_duplicates()
    &&& forall|i: int| 0 <= i < order.len() ==> linked(prev, next, order, i)
    &&& head == link(order, 0)
    &&& tail == link(order, order.len() - 1)
}

spec fn linked(prev: Seq<usize>, next: Seq<usize>, order: Seq<usize>, i: int) -> bool {
    &&& order[i] < prev.len()
    &&& prev[order[i] as int] == link(order, i - 1)
    &&& next[order[i] as int] == link(order, i + 1)
}

/// The entries in the slots of `order`.
spec fn listed<K, V>(items: Seq<Option<(K, V)>>, order: Seq<usize>) -> Seq<(K, V)> {
    order.map_values(|i: usize| items[i as int]->0)
}

/// The slots of `order` and of `free` are apart, and free slots hold nothing.
spec fn stored<K, V>(items: Seq<Option<(K, V)>>, order: Seq<usize>, free: Seq<usize>) -> bool {
    &&& items.len() == order.len() + free.len()
    &&& forall|i: int| 0 <= i < order.len() ==> (#[trigger] order[i]) < items.len() && items[order[i] as int] is Some
    &&& forall|i: int| 0 <= i < free.len() ==> (#[trigger] free[i]) < items.len() && items[free[i] as int] is None
    &&& free.no_duplicates()
}

/// The table finds the slot of every entry.
spec fn indexed<K, V>(map: Map<K, usize>, items: Seq<Option<(K, V)>>, order: Seq<usize>) -> bool {
    &&& forall|i: int|
        0 <= i < order.len() ==> map.contains_key((#[trigger] items[order[i] as int]).unwrap().0)
            && map[items[order[i] as int].unwrap().0] == order[i]
    &&& forall|k: K| #[trigger] map.contains_key(k) ==> order.contains(map[k]) && items[map[k] as int].unwrap().0 == k
}

impl<K: Eq + Hash + Clone, V> LruCache<K, V> {
    /// The entries from most to least recently used.
    pub closed spec fn entries(self) -> Seq<(K, V)> {
        listed(self.items@, self.order@)
    }

    /// The most entries held.
    pub closed spec fn limit(self) -> nat {
        self.capacity as nat
    }

    /// Hits and misses so far.
    pub closed spec fn counts(self) -> (nat, nat) {
        (self.hits as nat, self.misses as nat)
    }

    pub closed spec fn wf(self) -> bool {
        &&& plain_keys::<K>()
        &&& self.items@.len() == self.prev@.len()
        &&& threaded(self.prev@, self.next@, self.head, self.tail, self.order@)
        &&& stored(self.items@, self.order@, self.free@)
        &&& indexed(self.map@, self.items@, self.order@)
        &&& self.order@.len() <= self.capacity
        &&& self.capacity >= 1
    }

    /// A key occurs once, and there are no more entries than the limit.
    pub proof fn lemma_bounded(self)
        requires
            self.wf(),
        ensures
            keys_of(self.entries()).no_duplicates(),
            self.entries().len() <= self.limit(),
            self.limit() >= 1,
    {
        let s = keys_of(self.entries());
        let o = self.order@;
        assert forall|i: int, j: int| 0 <= i < s.len() && 0 <= j < s.len() && i != j implies s[i] != s[j] by {
            assert(self.map@[self.items@[o[i] as int].unwrap().0] == o[i]);
            assert(self.map@[self.items@[o[j] as int].unwrap().0] == o[j]);
        }
    }

    proof fn lemma_len(self)
        requires
            self.wf(),
        ensures
            self.map@.dom().finite(),
            self.map@.len() == self.order@.len(),
            self.entries().len() == self.order@.len(),
    {
        let s = keys_of(self.entries());
        self.lemma_bounded();
        s.unique_seq_to_set();
        let o = self.order@;
        assert(s.to_set() =~= self.map@.dom()) by {
            assert forall|k: K| s.to_set().contains(k) <==> self.map@.dom().contains(k) by {
                if s.to_set().contains(k) {
                    let i = choose|i: int| 0 <= i < s.len() && s[i] == k;
                    assert(self.map@.contains_key(self.items@[o[i] as int].unwrap().0));
                }
                if self.map@.contains_key(k) {
                    let i = choose|i: int| 0 <= i < o.len() && o[i] == self.map@[k];
                    assert(s[i] == k);
                }
            }
        }
    }

    /// The table finds exactly the keys listed.
    proof fn lemma_find(self, k: K)
        requires
            self.wf(),
        ensures
            self.map@.contains_key(k) <==> holds(self.entries(), k),
            self.map@.contains_key(k) ==> {
                let i = at(self.entries(), k);
                0 <= i < self.order@.len() && self.order@[i] == self.map@[k] && self.items@[self.map@[k] as int]
                    == Some(self.entries()[i]) && self.entries()[i].0 == k
            },
    {
        let s = keys_of(self.entries());
        let o = self.order@;
        self.lemma_bounded();
        if self.map@.contains_key(k) {
            let i = choose|i: int| 0 <= i < o.len() && o[i] == self.map@[k];
            assert(s[i] == k);
        }
        if s.contains(k) {
            let i = s.index_of(k);
            assert(0 <= i < s.len() && s[i] == k);
            assert(self.map@.contains_key(self.items@[o[i] as int].unwrap().0));
            assert(self.items@[o[i] as int] is Some);
        }
    }

    /// A cache holding at most `capacity` entries (min 1).
    pub fn new(capacity: usize) -> (r: LruCache<K, V>)
        requires
            plain_keys::<K>(),
        ensures
            r.wf(),
            r.entries() == Seq::<(K, V)>::empty(),
            r.limit() == (if capacity == 0 {
                1
            } else {
                capacity as nat
            }),
            r.counts() == (0nat, 0nat),
    {
        let r = LruCache {
            map: HashMap::new(),
            items: Vec::new(),
            prev: Vec::new(),
            next: Vec::new(),
            free: Vec::new(),
            head: NIL,
            tail: NIL,
            capacity: if capacity == 0 {
                1
            } else {
                capacity
            },
            hits: 0,
            misses: 0,
            order: Ghost(Seq::empty()),
        };
        assert(r.entries() =~= Seq::<(K, V)>::empty());
        r
    }

    /// Number of resident entries.
    pub fn len(&self) -> (r: usize)
        requires
            self.wf(),
        ensures
            r == self.entries().len(),
    {
        proof {
            self.lemma_len();
        }
        self.map.len()
    }

    /// `true` if empty.
    pub fn is_empty(&self) -> (r: bool)
        requires
            self.wf(),
        ensures
            r == (self.entries().len() == 0),
    {
        self.len() == 0
    }

    /// The capacity bound.
    pub fn capacity(&self) -> (r: usize)
        ensures
            r == self.limit(),
    {
        self.capacity
    }

    /// `(hits, misses)` since creation.
    pub fn stats(&self) -> (r: (u64, u64))
        ensures
            r.0 == self.counts().0,
            r.1 == self.counts().1,
    {
        (self.hits, self.misses)
    }

    /// Unlink the slot at position `p` of the list.
    fn detach(&mut self, idx: usize, Ghost(p): Ghost<int>)
        requires
            threaded(old(self).prev@, old(self).next@, old(self).head, old(self).tail, old(self).order@),
            0 <= p < old(self).order@.len(),
            old(self).order@[p] == idx,
            forall|i: int| 0 <= i < old(self).order@.len() ==> (#[trigger] old(self).order@[i]) < NIL,
        ensures
            threaded(final(self).prev@, final(self).next@, final(self).head, final(self).tail, final(self).order@),
            final(self).order@ == old(self).order@.remove(p),
            final(self).prev@.len() == old(self).prev@.len(),
            final(self).map == old(self).map,
            final(self).items == old(self).items,
            final(self).free == old(self).free,
            final(self).capacity == old(self).capacity,
            final(self).counts() == old(self).counts(),
    {
        let ghost o = self.order@;
        assert(linked(self.prev@, self.next@, o, p));
        let before: usize = self.prev[idx];
        let after: usize = self.next[idx];
        proof {
            if p > 0 {
                assert(linked(self.prev@, self.next@, o, p - 1));
                assert(o[p - 1] < NIL);
            }
            if p < o.len() - 1 {
                assert(linked(self.prev@, self.next@, o, p + 1));
                assert(o[p + 1] < NIL);
            }
        }
        if before != NIL {
            self.next.set(before, after);
        } else {
            self.head = after;
        }
        if after != NIL {
            self.prev.set(after, before);
        } else {
            self.tail = before;
        }
        proof {
            let n = o.remove(p);
            self.order@ = n;
            assert forall|i: int| 0 <= i < n.len() implies linked(self.prev@, self.next@, n, i) by {
                let j = if i < p {
                    i
                } else {
                    i + 1
                };
                assert(n[i] == o[j]);
                assert(linked(old(self).prev@, old(self).next@, o, j));
                assert(o[j] != idx);
            }
            assert forall|i: int, j: int| 0 <= i < n.len() && 0 <= j < n.len() && i != j implies n[i] != n[j] by {
                let a = if i < p {
                    i
                } else {
                    i + 1
                };
                let b = if j < p {
                    j
                } else {
                    j + 1
                };
                assert(o[a] != o[b]);
            }
        }
    }

    /// Link a slot in front of the list.
    fn push_front(&mut self, idx: usize)
        requires
            threaded(old(self).prev@, old(self).next@, old(self).head, old(self).tail, old(self).order@),
            idx < old(self).prev@.len(),
            idx < NIL,
            !old(self).order@.contains(idx),
            forall|i: int| 0 <= i < old(self).order@.len() ==> (#[trigger] old(self).order@[i]) < NIL,
        ensures
            threaded(final(self).prev@, final(self).next@, final(self).head, final(self).tail, final(self).order@),
            final(self).order@ == seq![idx] + old(self).order@,
            final(self).prev@.len() == old(self).prev@.len(),
            final(self).map == old(self).map,
            final(self).items == old(self).items,
            final(self).free == old(self).free,
            final(self).capacity == old(self).capacity,
            final(self).counts() == old(self).counts(),
    {
        let ghost o = self.order@;
        let was: usize = self.head;
        proof {
            if o.len() > 0 {
                assert(linked(self.prev@, self.next@, o, 0));
                assert(o[0] < NIL);
                assert(o.contains(o[0]));
            }
        }
        self.prev.set(idx, NIL);
        self.next.set(idx, was);
        if was != NIL {
            self.prev.set(was, idx);
        }
        self.head = idx;
        if self.tail == NIL {
            self.tail = idx;
        }
        proof {
            let n = seq![idx] + o;
            self.order@ = n;
            if o.len() > 0 {
                assert(o[o.len() - 1] < NIL);
            }
            assert forall|i: int| 0 <= i < n.len() implies linked(self.prev@, self.next@, n, i) by {
                if i > 0 {
                    assert(n[i] == o[i - 1]);
                    assert(linked(old(self).prev@, old(self).next@, o, i - 1));
                    assert(o.contains(o[i - 1]));
                    if i > 1 {
                        assert(o[i - 1] != o[0]);
                    }
                }
            }
            assert forall|i: int, j: int| 0 <= i < n.len() && 0 <= j < n.len() && i != j implies n[i] != n[j] by {
                if i > 0 && j > 0 {
                    assert(o[i - 1] != o[j - 1]);
                } else if i > 0 {
                    assert(o.contains(o[i - 1]));
                } else {
                    assert(o.contains(o[j - 1]));
                }
            }
        }
    }

    proof fn lemma_below(self)
        requires
            self.wf(),
        ensures
            forall|i: int| 0 <= i < self.order@.len() ==> (#[trigger] self.order@[i]) < NIL,
    {
        assert forall|i: int| 0 <= i < self.order@.len() implies (#[trigger] self.order@[i]) < NIL by {
            assert(self.order@[i] < self.items@.len());
            assert(self.items@.len() == self.items.len());
        }
    }

    /// Bring the slot at position `p` to the front.
    fn touch(&mut self, idx: usize, Ghost(p): Ghost<int>)
        requires
            old(self).wf(),
            0 <= p < old(self).order@.len(),
            old(self).order@[p] == idx,
        ensures
            final(self).wf(),
            final(self).entries() == touched(old(self).entries(), p),
            final(self).order@ == seq![idx] + old(self).order@.remove(p),
            final(self).items == old(self).items,
            final(self).map == old(self).map,
            final(self).capacity == old(self).capacity,
            final(self).counts() == old(self).counts(),
    {
        proof {
            self.lemma_below();
        }
        let ghost o = self.order@;
        let ghost cut = o.remove(p);
        assert(o[p] < self.items@.len());
        self.detach(idx, Ghost(p));
        proof {
            assert(!cut.contains(idx)) by {
                if cut.contains(idx) {
                    let i = choose|i: int| 0 <= i < cut.len() && cut[i] == idx;
                    let j = if i < p {
                        i
                    } else {
                        i + 1
                    };
                    assert(o[j] == o[p]);
                }
            }
            assert forall|i: int| 0 <= i < cut.len() implies (#[trigger] cut[i]) < NIL by {
                let j = if i < p {
                    i
                } else {
                    i + 1
                };
                assert(o[j] == cut[i]);
            }
        }
        self.push_front(idx);
        proof {
            let n = self.order@;
            assert forall|i: int| 0 <= i < n.len() implies o.contains(#[trigger] n[i]) by {
                if i == 0 {
                    assert(o[p] == n[0]);
                } else if i - 1 < p {
                    assert(o[i - 1] == n[i]);
                } else {
                    assert(o[i] == n[i]);
                }
            }
            assert forall|x: usize| o.contains(x) implies #[trigger] n.contains(x) by {
                let i = choose|i: int| 0 <= i < o.len() && o[i] == x;
                if i == p {
                    assert(n[0] == x);
                } else if i < p {
                    assert(n[i + 1] == x);
                } else {
                    assert(n[i] == x);
                }
            }
            assert forall|i: int| 0 <= i < n.len() implies (#[trigger] n[i]) < self.items@.len()
                && self.items@[n[i] as int] is Some by {
                assert(o.contains(n[i]));
                let j = choose|j: int| 0 <= j < o.len() && o[j] == n[i];
                assert(o[j] < self.items@.len());
            }
            assert forall|i: int| 0 <= i < n.len() implies self.map@.contains_key(
                (#[trigger] self.items@[n[i] as int]).unwrap().0,
            ) && self.map@[self.items@[n[i] as int].unwrap().0] == n[i] by {
                assert(o.contains(n[i]));
                let j = choose|j: int| 0 <= j < o.len() && o[j] == n[i];
                assert(self.map@.contains_key(self.items@[o[j] as int].unwrap().0));
            }
            assert(self.entries() =~= touched(old(self).entries(), p));
        }
    }

    /// Look up a key, marking it most-recently-used.
    pub fn get(&mut self, key: &K) -> (r: Option<&V>)
        requires
            old(self).wf(),
            old(self).counts().0 < u64::MAX,
            old(self).counts().1 < u64::MAX,
        ensures
            final(self).wf(),
            final(self).limit() == old(self).limit(),
            r is Some <==> holds(old(self).entries(), *key),
            match r {
                Some(v) => {
                    let i = at(old(self).entries(), *key);
                    &&& *v == old(self).entries()[i].1
                    &&& final(self).entries() == touched(old(self).entries(), i)
                    &&& final(self).counts() == (old(self).counts().0 + 1, old(self).counts().1)
                },
                None => {
                    &&& final(self).entries() == old(self).entries()
                    &&& final(self).counts() == (old(self).counts().0, old(self).counts().1 + 1)
                },
            },
    {
        proof {
            self.lemma_find(*key);
        }
        let found: Option<usize> = match self.map.get(key) {
            Some(i) => Some(*i),
            None => None,
        };
        if found.is_none() {
            self.misses += 1;
            return None;
        }
        let idx: usize = found.unwrap();
        let ghost p = at(self.entries(), *key);
        self.hits += 1;
        assert(self.entries() == old(self).entries());
        self.touch(idx, Ghost(p));
        match &self.items[idx] {
            Some(e) => Some(&e.1),
            None => None,
        }
    }

    /// `true` if a key is present (does not affect recency).
    pub fn contains(&self, key: &K) -> (r: bool)
        requires
            self.wf(),
        ensures
            r == holds(self.entries(), *key),
    {
        proof {
            self.lemma_find(*key);
        }
        self.map.contains_key(key)
    }

    /// Peek without changing recency.
    pub fn peek(&self, key: &K) -> (r: Option<&V>)
        requires
            self.wf(),
        ensures
            r is Some <==> holds(self.entries(), *key),
            r matches Some(v) ==> *v == self.entries()[at(self.entries(), *key)].1,
    {
        proof {
            self.lemma_find(*key);
        }
        match self.map.get(key) {
            Some(i) => match &self.items[*i] {
                Some(e) => Some(&e.1),
                None => None,
            },
            None => None,
        }
    }

    /// Insert or update a key. Returns the evicted `(key, value)` if the
    /// insertion pushed the cache over capacity.
    pub fn put(&mut self, key: K, value: V) -> (r: Option<(K, V)>)
        requires
            old(self).wf(),
        ensures
            final(self).wf(),
            final(self).limit() == old(self).limit(),
            final(self).counts() == old(self).counts(),
            ({
                let s = old(self).entries();
                if holds(s, key) {
                    r is None && final(self).entries() == seq![(key, value)] + s.remove(at(s, key))
                } else if s.len() < old(self).limit() {
                    r is None && final(self).entries() == seq![(key, value)] + s
                } else {
                    r == Some(s.last()) && final(self).entries() == seq![(key, value)] + s.drop_last()
                }
            }),
    {
        proof {
            self.lemma_find(key);
            self.lemma_len();
            self.lemma_bounded();
        }
        let ghost s = self.entries();
        let found: Option<usize> = match self.map.get(&key) {
            Some(i) => Some(*i),
            None => None,
        };
        if found.is_some() {
            let idx: usize = found.unwrap();
            let ghost p = at(s, key);
            self.touch(idx, Ghost(p));
            let ghost was = *self;
            self.items.set(idx, Some((key, value)));
            proof {
                let o = self.order@;
                assert(o[0] == idx);
                assert forall|i: int| 0 <= i < o.len() implies self.map@.contains_key(
                    (#[trigger] self.items@[o[i] as int]).unwrap().0,
                ) && self.map@[self.items@[o[i] as int].unwrap().0] == o[i] by {
                    assert(self.map@.contains_key(was.items@[o[i] as int].unwrap().0));
                    if i > 0 {
                        assert(o[i] != o[0]);
                    }
                }
                assert forall|i: int| 0 <= i < self.free@.len() implies (#[trigger] self.free@[i]) < self.items@.len()
                    && self.items@[self.free@[i] as int] is None by {
                    assert(was.items@[self.free@[i] as int] is None);
                    assert(was.items@[o[0] as int] is Some);
                }
                assert forall|i: int| 0 <= i < o.len() implies (#[trigger] o[i]) < self.items@.len()
                    && self.items@[o[i] as int] is Some by {
                    assert(was.items@[o[i] as int] is Some);
                }
                assert(self.entries() =~= seq![(key, value)] + s.remove(p)) by {
                    let e = self.entries();
                    let f = was.entries();
                    assert forall|i: int| 0 <= i < e.len() implies e[i] == (seq![(key, value)] + s.remove(p))[i] by {
                        if i > 0 {
                            assert(o[i] != o[0]);
                            assert(e[i] == f[i]);
                        }
                    }
                }
            }
            return None;
        }
        let mut evicted: Option<(K, V)> = None;
        if self.map.len() >= self.capacity {
            let last: usize = self.tail;
            evicted = Some(self.drop_slot(last, Ghost(self.order@.len() - 1)));
            assert(s.remove(s.len() - 1) =~= s.drop_last());
        }
        let ghost t = self.entries();
        proof {
            assert(!holds(t, key)) by {
                if holds(t, key) {
                    let i = choose|i: int| 0 <= i < keys_of(t).len() && keys_of(t)[i] == key;
                    assert(keys_of(s)[i] == key);
                    assert(keys_of(s).contains(key));
                }
            }
        }
        self.add(key, value);
        evicted
    }

    /// Put a new entry in front.
    fn add(&mut self, key: K, value: V)
        requires
            old(self).wf(),
            !holds(old(self).entries(), key),
            old(self).entries().len() < old(self).limit(),
        ensures
            final(self).wf(),
            final(self).limit() == old(self).limit(),
            final(self).counts() == old(self).counts(),
            final(self).entries() == seq![(key, value)] + old(self).entries(),
    {
        let ghost t = self.entries();
        proof {
            self.lemma_below();
            self.lemma_find(key);
            self.lemma_len();
            assert(self.items@.len() == self.items.len());
        }
        let ghost was = *self;
        let kept: K = key.clone();
        proof {
            assert(cloned(key, kept));
        }
        let idx: usize;
        if self.free.len() > 0 {
            idx = self.free.pop().unwrap();
            assert(was.free@[was.free@.len() - 1] == idx);
            self.items.set(idx, Some((kept, value)));
        } else {
            idx = self.items.len();
            self.items.push(Some((kept, value)));
            self.prev.push(NIL);
            self.next.push(NIL);
        }
        let ghost o = self.order@;
        proof {
            assert(idx < NIL);
            assert(!o.contains(idx)) by {
                if o.contains(idx) {
                    let i = choose|i: int| 0 <= i < o.len() && o[i] == idx;
                    assert(o[i] < was.items@.len() && was.items@[o[i] as int] is Some);
                }
            }
            assert forall|i: int| 0 <= i < o.len() implies linked(self.prev@, self.next@, o, i) by {
                assert(linked(was.prev@, was.next@, o, i));
            }
        }
        self.map.insert(key, idx);
        self.push_front(idx);
        proof {
            let n = self.order@;
            assert forall|i: int| 0 <= i < n.len() implies (#[trigger] n[i]) < self.items@.len()
                && self.items@[n[i] as int] is Some by {
                if i > 0 {
                    assert(n[i] == o[i - 1]);
                    assert(was.items@[o[i - 1] as int] is Some);
                    assert(o.contains(o[i - 1]));
                }
            }
            assert forall|i: int| 0 <= i < self.free@.len() implies (#[trigger] self.free@[i]) < self.items@.len()
                && self.items@[self.free@[i] as int] is None by {
                assert(was.free@[i] == self.free@[i]);
                assert(was.items@[was.free@[i] as int] is None);
            }
            assert forall|i: int| 0 <= i < n.len() implies self.map@.contains_key(
                (#[trigger] self.items@[n[i] as int]).unwrap().0,
            ) && self.map@[self.items@[n[i] as int].unwrap().0] == n[i] by {
                if i > 0 {
                    assert(n[i] == o[i - 1]);
                    assert(o.contains(o[i - 1]));
                    assert(self.items@[n[i] as int] == was.items@[o[i - 1] as int]);
                    assert(was.map@.contains_key(was.items@[o[i - 1] as int].unwrap().0));
                }
            }
            assert forall|k: K| #[trigger] self.map@.contains_key(k) implies n.contains(self.map@[k])
                && self.items@[self.map@[k] as int].unwrap().0 == k by {
                if k == key {
                    assert(n[0] == idx);
                } else {
                    assert(was.map@.contains_key(k));
                    let i = choose|i: int| 0 <= i < o.len() && o[i] == was.map@[k];
                    assert(n[i + 1] == o[i]);
                    assert(o.contains(o[i]));
                }
            }
            assert(self.entries() =~= seq![(key, value)] + t) by {
                let e = self.entries();
                assert forall|i: int| 0 <= i < e.len() implies e[i] == (seq![(key, value)] + t)[i] by {
                    if i > 0 {
                        assert(o.contains(o[i - 1]));
                        assert(e[i] == was.entries()[i - 1]);
                    }
                }
            }
        }
    }

    /// Take out the entry in the slot at position `p` of the list.
    fn drop_slot(&mut self, idx: usize, Ghost(p): Ghost<int>) -> (r: (K, V))
        requires
            old(self).wf(),
            0 <= p < old(self).order@.len(),
            old(self).order@[p] == idx,
        ensures
            final(self).wf(),
            r == old(self).entries()[p],
            final(self).entries() == old(self).entries().remove(p),
            final(self).capacity == old(self).capacity,
            final(self).counts() == old(self).counts(),
    {
        proof {
            self.lemma_below();
        }
        let ghost was = *self;
        let ghost o = self.order@;
        assert(o[p] < self.items@.len() && self.items@[o[p] as int] is Some);
        self.detach(idx, Ghost(p));
        self.items.push(None);
        let slot: Option<(K, V)> = self.items.swap_remove(idx);
        assert(self.items@ =~= was.items@.update(idx as int, None));
        let e: (K, V) = slot.unwrap();
        self.map.remove(&e.0);
        self.free.push(idx);
        proof {
            let n = self.order@;
            assert forall|i: int| 0 <= i < n.len() implies o.contains(#[trigger] n[i]) && n[i] != idx by {
                let j = if i < p {
                    i
                } else {
                    i + 1
                };
                assert(o[j] == n[i]);
                assert(o[j] != o[p]);
            }
            assert(was.map@[was.items@[o[p] as int].unwrap().0] == o[p]);
            assert forall|i: int| 0 <= i < n.len() implies (#[trigger] n[i]) < self.items@.len()
                && self.items@[n[i] as int] is Some by {
                assert(o.contains(n[i]));
                let j = choose|j: int| 0 <= j < o.len() && o[j] == n[i];
                assert(was.items@[o[j] as int] is Some);
            }
            assert forall|i: int| 0 <= i < self.free@.len() implies (#[trigger] self.free@[i]) < self.items@.len()
                && self.items@[self.free@[i] as int] is None by {
                if i < was.free@.len() {
                    assert(was.items@[was.free@[i] as int] is None);
                }
            }
            assert(self.free@.no_duplicates()) by {
                assert forall|i: int| 0 <= i < was.free@.len() implies was.free@[i] != idx by {
                    assert(was.items@[was.free@[i] as int] is None);
                }
            }
            assert forall|i: int| 0 <= i < n.len() implies self.map@.contains_key(
                (#[trigger] self.items@[n[i] as int]).unwrap().0,
            ) && self.map@[self.items@[n[i] as int].unwrap().0] == n[i] by {
                assert(o.contains(n[i]));
                let j = choose|j: int| 0 <= j < o.len() && o[j] == n[i];
                assert(was.map@.contains_key(was.items@[o[j] as int].unwrap().0));
            }
            assert forall|k: K| #[trigger] self.map@.contains_key(k) implies n.contains(self.map@[k])
                && self.items@[self.map@[k] as int].unwrap().0 == k by {
                assert(was.map@.contains_key(k));
                let i = choose|i: int| 0 <= i < o.len() && o[i] == was.map@[k];
                assert(i != p);
                let j = if i < p {
                    i
                } else {
                    i - 1
                };
                assert(n[j] == o[i]);
            }
            assert(self.entries() =~= was.entries().remove(p)) by {
                let x = self.entries();
                assert forall|i: int| 0 <= i < x.len() implies x[i] == was.entries().remove(p)[i] by {
                    assert(n[i] != idx);
                }
            }
        }
        e
    }

    /// Remove a key, returning its value.
    pub fn remove(&mut self, key: &K) -> (r: Option<V>)
        requires
            old(self).wf(),
        ensures
            final(self).wf(),
            final(self).limit() == old(self).limit(),
            final(self).counts() == old(self).counts(),
            r is Some <==> holds(old(self).entries(), *key),
            match r {
                Some(v) => {
                    let i = at(old(self).entries(), *key);
                    v == old(self).entries()[i].1 && final(self).entries() == old(self).entries().remove(i)
                },
                None => final(self).entries() == old(self).entries(),
            },
    {
        proof {
            self.lemma_find(*key);
        }
        let found: Option<usize> = match self.map.get(key) {
            Some(i) => Some(*i),
            None => None,
        };
        if found.is_none() {
            return None;
        }
        let idx: usize = found.unwrap();
        let e = self.drop_slot(idx, Ghost(at(self.entries(), *key)));
        Some(e.1)
    }

    /// Keys from most- to least-recently used.
    pub fn keys_mru(&self) -> (r: Vec<K>)
        requires
            self.wf(),
        ensures
            r@ == keys_of(self.entries()),
    {
        let mut out: Vec<K> = Vec::new();
        let mut cur: usize = self.head;
        let ghost o = self.order@;
        let ghost mut i: int = 0;
        proof {
            self.lemma_below();
        }
        while cur != NIL
            invariant
                self.wf(),
                o == self.order@,
                0 <= i <= o.len(),
                cur == link(o, i),
                out@ == keys_of(self.entries()).subrange(0, i),
                forall|i: int| 0 <= i < o.len() ==> (#[trigger] o[i]) < NIL,
            decreases o.len() - i,
        {
            assert(i < o.len());
            assert(linked(self.prev@, self.next@, o, i));
            assert(o[i] < self.items@.len() && self.items@[o[i] as int] is Some);
            match &self.items[cur] {
                Some(e) => {
                    let k: K = e.0.clone();
                    assert(cloned(e.0, k));
                    out.push(k);
                },
                None => {},
            }
            proof {
                assert(keys_of(self.entries())[i] == self.items@[o[i] as int].unwrap().0);
                assert(keys_of(self.entries()).subrange(0, i + 1) =~= keys_of(self.entries()).subrange(0, i).push(
                    keys_of(self.entries())[i],
                ));
                i = i + 1;
            }
            cur = self.next[cur];
        }
        proof {
            if i < o.len() {
                assert(o[i] < NIL);
            }
            assert(keys_of(self.entries()).subrange(0, i) =~= keys_of(self.entries()));
        }
        out
    }
}

} // verus!
