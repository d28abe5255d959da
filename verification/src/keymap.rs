//! A map from integers, kept as a vector in key order.
//!
//! The bookkeeping structures of the database (the row-id map, the free-space
//! map, the zone maps, the page table) are all walked in key order. Their model
//! is the sequence of pairs, ascending by key.

use vstd::prelude::*;

verus! {

/// A map from `u64` keys.
#[derive(Debug, Clone)]
pub struct KeyMap<V> {
    items: Vec<(u64, V)>,
}

/// Every key is below the ones that follow.
pub open spec fn ascending<T>(s: Seq<(u64, T)>) -> bool {
    forall|i: int, j: int| 0 <= i < j < s.len() ==> (#[trigger] s[i]).0 < (#[trigger] s[j]).0
}

/// How many keys are below `k`.
pub open spec fn rank<T>(s: Seq<(u64, T)>, k: u64) -> int
    decreases s.len(),
{
    if s.len() == 0 {
        0
    } else if s.last().0 < k {
        s.len() as int
    } else {
        rank(s.drop_last(), k)
    }
}

/// The map holds `k`.
pub open spec fn held<T>(s: Seq<(u64, T)>, k: u64) -> bool {
    rank(s, k) < s.len() && s[rank(s, k)].0 == k
}

/// What the map holds under `k`.
pub open spec fn find<T>(s: Seq<(u64, T)>, k: u64) -> Option<T> {
    if held(s, k) {
        Some(s[rank(s, k)].1)
    } else {
        None
    }
}

/// The map with `v` under `k`.
pub open spec fn put<T>(s: Seq<(u64, T)>, k: u64, v: T) -> Seq<(u64, T)> {
    if held(s, k) {
        s.update(rank(s, k), (k, v))
    } else {
        s.insert(rank(s, k), (k, v))
    }
}

/// The map with nothing under `k`.
pub open spec fn cut<T>(s: Seq<(u64, T)>, k: u64) -> Seq<(u64, T)> {
    if held(s, k) {
        s.remove(rank(s, k))
    } else {
        s
    }
}

/// The rank splits the keys.
pub proof fn lemma_rank<T>(s: Seq<(u64, T)>, k: u64)
    requires
        ascending(s),
    ensures
        0 <= rank(s, k) <= s.len(),
        forall|i: int| 0 <= i < rank(s, k) ==> (#[trigger] s[i]).0 < k,
        forall|i: int| rank(s, k) <= i < s.len() ==> (#[trigger] s[i]).0 >= k,
    decreases s.len(),
{
    if s.len() > 0 && s.last().0 >= k {
        let d = s.drop_last();
        assert forall|i: int, j: int| 0 <= i < j < d.len() implies (#[trigger] d[i]).0 < (#[trigger] d[j]).0 by {
            assert(s[i].0 < s[j].0);
        }
        lemma_rank(d, k);
        assert forall|i: int| 0 <= i < rank(s, k) implies (#[trigger] s[i]).0 < k by {
            assert(d[i].0 < k);
        }
        assert forall|i: int| rank(s, k) <= i < s.len() implies (#[trigger] s[i]).0 >= k by {
            if i < d.len() {
                assert(d[i].0 >= k);
            }
        }
    }
}

/// A place that splits the keys is the rank.
pub proof fn lemma_rank_is<T>(s: Seq<(u64, T)>, k: u64, r: int)
    requires
        ascending(s),
        0 <= r <= s.len(),
        forall|i: int| 0 <= i < r ==> (#[trigger] s[i]).0 < k,
        forall|i: int| r <= i < s.len() ==> (#[trigger] s[i]).0 >= k,
    ensures
        rank(s, k) == r,
{
    lemma_rank(s, k);
    if rank(s, k) < r {
        assert(s[rank(s, k)].0 < k);
    } else if rank(s, k) > r {
        assert(s[r].0 < k);
    }
}

/// A map holds each key that it lists.
pub proof fn lemma_listed<T>(s: Seq<(u64, T)>, i: int)
    requires
        ascending(s),
        0 <= i < s.len(),
    ensures
        rank(s, s[i].0) == i,
        find(s, s[i].0) == Some(s[i].1),
{
    lemma_rank_is(s, s[i].0, i);
}

/// What was put is found, and what stands under other keys stays.
pub proof fn lemma_put<T>(s: Seq<(u64, T)>, k: u64, v: T, j: u64)
    requires
        ascending(s),
    ensures
        ascending(put(s, k, v)),
        find(put(s, k, v), j) == if j == k {
            Some(v)
        } else {
            find(s, j)
        },
{
    lemma_rank(s, k);
    lemma_rank(s, j);
    let r = rank(s, k);
    let t = put(s, k, v);
    if held(s, k) {
        assert forall|a: int, b: int| 0 <= a < b < t.len() implies (#[trigger] t[a]).0 < (#[trigger] t[b]).0 by {
            assert(s[a].0 < s[b].0);
        }
        assert forall|i: int| 0 <= i < t.len() implies (#[trigger] t[i]).0 == s[i].0 by {
        }
        lemma_rank_is(t, j, rank(s, j));
    } else {
        assert forall|i: int| 0 <= i < t.len() implies #[trigger] t[i] == (if i < r {
            s[i]
        } else if i == r {
            (k, v)
        } else {
            s[i - 1]
        }) by {
        }
        assert forall|i: int| r <= i < s.len() implies (#[trigger] s[i]).0 > k by {
            if s[r].0 == k {
                assert(held(s, k));
            }
            if i > r {
                assert(s[r].0 < s[i].0);
            }
        }
        assert forall|a: int, b: int| 0 <= a < b < t.len() implies (#[trigger] t[a]).0 < (#[trigger] t[b]).0 by {
            if b < r {
                assert(s[a].0 < s[b].0);
            } else if a > r {
                assert(s[a - 1].0 < s[b - 1].0);
            } else if a < r && b > r {
                assert(s[a].0 < s[b - 1].0);
            }
        }
        let q = if j <= k {
            rank(s, j)
        } else {
            rank(s, j) + 1
        };
        if j <= k {
            assert(rank(s, j) <= r) by {
                if rank(s, j) > r {
                    assert(s[r].0 < j);
                }
            }
        } else {
            assert(rank(s, j) >= r) by {
                if rank(s, j) < r {
                    assert(s[rank(s, j)].0 < k);
                }
            }
        }
        lemma_rank_is(t, j, q);
    }
}

/// What was cut is gone, and what stands under other keys stays.
pub proof fn lemma_cut<T>(s: Seq<(u64, T)>, k: u64, j: u64)
    requires
        ascending(s),
    ensures
        ascending(cut(s, k)),
        find(cut(s, k), j) == if j == k {
            None
        } else {
            find(s, j)
        },
{
    lemma_rank(s, k);
    lemma_rank(s, j);
    let r = rank(s, k);
    let t = cut(s, k);
    if held(s, k) {
        assert forall|i: int| 0 <= i < t.len() implies #[trigger] t[i] == (if i < r {
            s[i]
        } else {
            s[i + 1]
        }) by {
        }
        assert forall|a: int, b: int| 0 <= a < b < t.len() implies (#[trigger] t[a]).0 < (#[trigger] t[b]).0 by {
            if b < r {
                assert(s[a].0 < s[b].0);
            } else if a >= r {
                assert(s[a + 1].0 < s[b + 1].0);
            } else {
                assert(s[a].0 < s[b + 1].0);
            }
        }
        assert forall|i: int| r < i < s.len() implies (#[trigger] s[i]).0 > k by {
            assert(s[r].0 < s[i].0);
        }
        let q = if j <= k {
            rank(s, j)
        } else {
            rank(s, j) - 1
        };
        if j <= k {
            assert(rank(s, j) <= r) by {
                if rank(s, j) > r {
                    assert(s[r].0 < j);
                }
            }
        } else {
            assert(rank(s, j) > r) by {
                if rank(s, j) <= r {
                    assert(s[r].0 >= j);
                }
            }
        }
        lemma_rank_is(t, j, q);
    }
}

/// Taking a key out and putting it back is putting it.
pub proof fn lemma_put_cut<T>(s: Seq<(u64, T)>, k: u64, v: T)
    requires
        ascending(s),
    ensures
        put(cut(s, k), k, v) == put(s, k, v),
{
    lemma_rank(s, k);
    lemma_cut(s, k, k);
    if held(s, k) {
        let c = cut(s, k);
        let r = rank(s, k);
        assert forall|i: int| 0 <= i < r implies (#[trigger] c[i]).0 < k by {
            assert(c[i] == s[i]);
        }
        assert forall|i: int| r <= i < c.len() implies (#[trigger] c[i]).0 >= k by {
            assert(c[i] == s[i + 1]);
        }
        lemma_rank_is(c, k, r);
        assert(put(c, k, v) =~= put(s, k, v));
    }
}

/// Putting a key above all others appends it.
pub proof fn lemma_put_last<T>(s: Seq<(u64, T)>, k: u64, v: T)
    requires
        ascending(s),
        forall|i: int| 0 <= i < s.len() ==> (#[trigger] s[i]).0 < k,
    ensures
        put(s, k, v) == s.push((k, v)),
{
    lemma_rank_is(s, k, s.len() as int);
    assert(put(s, k, v) =~= s.push((k, v)));
}

/// A prefix of a map is a map.
pub proof fn lemma_take_ascending<T>(s: Seq<(u64, T)>, n: int)
    requires
        ascending(s),
        0 <= n <= s.len(),
    ensures
        ascending(s.take(n)),
        n < s.len() ==> put(s.take(n), s[n].0, s[n].1) == s.take(n + 1),
{
    let t = s.take(n);
    assert forall|i: int, j: int| 0 <= i < j < t.len() implies (#[trigger] t[i]).0 < (#[trigger] t[j]).0 by {
        assert(s[i].0 < s[j].0);
    }
    if n < s.len() {
        assert forall|i: int| 0 <= i < t.len() implies (#[trigger] t[i]).0 < s[n].0 by {
            assert(s[i].0 < s[n].0);
        }
        lemma_put_last(t, s[n].0, s[n].1);
        assert(t.push((s[n].0, s[n].1)) =~= s.take(n + 1));
    }
}

/// The pairs of a list, each value by its view.
pub open spec fn pairs<V: View>(s: Seq<(u64, V)>) -> Seq<(u64, V::V)> {
    Seq::new(s.len(), |i: int| (s[i].0, s[i].1@))
}

impl<V: View> View for KeyMap<V> {
    type V = Seq<(u64, V::V)>;

    closed spec fn view(&self) -> Seq<(u64, V::V)> {
        pairs(self.items@)
    }
}

impl<V: View> KeyMap<V> {
    /// The keys ascend.
    pub open spec fn wf(self) -> bool {
        ascending(self@)
    }

    /// An empty map.
    pub fn new() -> (r: KeyMap<V>)
        ensures
            r.wf(),
            r@ == Seq::<(u64, V::V)>::empty(),
    {
        let r = KeyMap { items: Vec::new() };
        assert(r@ =~= Seq::<(u64, V::V)>::empty());
        r
    }

    /// Number of keys.
    pub fn len(&self) -> (n: usize)
        ensures
            n == self@.len(),
    {
        self.items.len()
    }

    /// The key at a place.
    pub fn key_at(&self, i: usize) -> (k: u64)
        requires
            i < self@.len(),
        ensures
            k == self@[i as int].0,
    {
        self.items[i].0
    }

    /// The value at a place.
    pub fn value_at(&self, i: usize) -> (v: &V)
        requires
            i < self@.len(),
        ensures
            v@ == self@[i as int].1,
    {
        &self.items[i].1
    }

    fn seek(&self, k: u64) -> (r: usize)
        requires
            self.wf(),
        ensures
            r == rank(self@, k),
            r <= self@.len(),
    {
        let mut lo: usize = 0;
        let mut hi: usize = self.items.len();
        while lo < hi
            invariant
                lo <= hi <= self@.len(),
                self@.len() == self.items@.len(),
                self.wf(),
                forall|i: int| 0 <= i < lo ==> (#[trigger] self@[i]).0 < k,
                forall|i: int| hi <= i < self@.len() ==> (#[trigger] self@[i]).0 >= k,
            decreases hi - lo,
        {
            let mid: usize = lo + (hi - lo) / 2;
            assert(self@[mid as int].0 == self.items@[mid as int].0);
            if self.items[mid].0 < k {
                lo = mid + 1;
            } else {
                hi = mid;
            }
        }
        proof {
            lemma_rank_is(self@, k, lo as int);
        }
        lo
    }

    /// What stands under a key.
    pub fn get(&self, k: u64) -> (r: Option<&V>)
        requires
            self.wf(),
        ensures
            match r {
                Some(v) => find(self@, k) == Some(v@),
                None => find(self@, k) is None,
            },
    {
        let i: usize = self.seek(k);
        if i < self.items.len() && self.items[i].0 == k {
            Some(&self.items[i].1)
        } else {
            None
        }
    }

    /// Whether the map holds a key.
    pub fn contains(&self, k: u64) -> (r: bool)
        requires
            self.wf(),
        ensures
            r == (find(self@, k) is Some),
    {
        self.get(k).is_some()
    }

    /// Put a value under a key.
    pub fn insert(&mut self, k: u64, v: V)
        requires
            old(self).wf(),
        ensures
            final(self).wf(),
            final(self)@ == put(old(self)@, k, v@),
    {
        let i: usize = self.seek(k);
        let ghost was = self@;
        let ghost x = v@;
        if i < self.items.len() && self.items[i].0 == k {
            self.items.set(i, (k, v));
            assert(self@ =~= was.update(i as int, (k, x)));
        } else {
            self.items.insert(i, (k, v));
            assert(self@ =~= was.insert(i as int, (k, x)));
        }
        proof {
            lemma_put(was, k, x, k);
        }
    }

    /// Take a key out.
    pub fn remove(&mut self, k: u64) -> (r: Option<V>)
        requires
            old(self).wf(),
        ensures
            final(self).wf(),
            final(self)@ == cut(old(self)@, k),
            match r {
                Some(v) => find(old(self)@, k) == Some(v@),
                None => find(old(self)@, k) is None,
            },
    {
        let i: usize = self.seek(k);
        let ghost was = self@;
        proof {
            lemma_cut(was, k, k);
        }
        if i < self.items.len() && self.items[i].0 == k {
            let (_, v) = self.items.remove(i);
            assert(self@ =~= was.remove(i as int));
            Some(v)
        } else {
            None
        }
    }
}

} // verus!
