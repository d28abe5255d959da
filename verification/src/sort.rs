//! Stable sorting of anything with a strict weak order.
//!
//! [`stable_order`] is a merge sort on indices: it tells in which order the
//! items come, equal ones in the order given.

use vstd::prelude::*;

verus! {

/// Items that can be put in order.
pub trait Ranked: Sized {
    /// `self` comes strictly before `other`.
    spec fn before(self, other: Self) -> bool;

    /// [`Ranked::before`] is a strict weak order.
    proof fn lemma_weak_order(a: Self, b: Self, c: Self)
        ensures
            !a.before(a),
            a.before(b) && b.before(c) ==> a.before(c),
            !a.before(b) && !b.before(c) ==> !a.before(c),
    ;

    /// Whether `self` comes strictly before `other`.
    fn is_before(&self, other: &Self) -> (r: bool)
        ensures
            r == self.before(*other),
    ;
}

/// Item `a` of `s` comes before item `b`: it is smaller, or equal and earlier.
pub open spec fn precedes<K: Ranked>(s: Seq<K>, a: int, b: int) -> bool {
    s[a].before(s[b]) || (!s[b].before(s[a]) && a < b)
}

/// `p` lists indices from `lo` to `hi`, each before all that follow.
pub open spec fn ordered<K: Ranked>(s: Seq<K>, p: Seq<usize>) -> bool {
    forall|i: int, j: int| 0 <= i < j < p.len() ==> #[trigger] precedes(s, p[i] as int, p[j] as int)
}

/// `p` is the stable order of `s`.
pub open spec fn is_order<K: Ranked>(s: Seq<K>, p: Seq<usize>) -> bool {
    &&& p.len() == s.len()
    &&& forall|i: int| 0 <= i < p.len() ==> (#[trigger] p[i]) < s.len()
    &&& ordered(s, p)
}

/// The items of `s` in the order `p`.
pub open spec fn arranged<T>(s: Seq<T>, p: Seq<usize>) -> Seq<T> {
    Seq::new(p.len(), |i: int| s[p[i] as int])
}

/// `t` is `s` sorted stably.
pub open spec fn stable_sorted<K: Ranked>(s: Seq<K>, t: Seq<K>) -> bool {
    exists|p: Seq<usize>| #[trigger] is_order(s, p) && t == arranged(s, p)
}

pub proof fn lemma_precedes<K: Ranked>(s: Seq<K>, a: int, b: int, c: int)
    ensures
        !precedes(s, a, a),
        precedes(s, a, b) && precedes(s, b, c) ==> precedes(s, a, c),
        precedes(s, a, b) ==> !precedes(s, b, a),
        a != b ==> precedes(s, a, b) || precedes(s, b, a),
{
    K::lemma_weak_order(s[a], s[b], s[c]);
    K::lemma_weak_order(s[a], s[b], s[a]);
    K::lemma_weak_order(s[b], s[a], s[b]);
    K::lemma_weak_order(s[a], s[c], s[b]);
    K::lemma_weak_order(s[c], s[a], s[b]);
    K::lemma_weak_order(s[b], s[c], s[a]);
    K::lemma_weak_order(s[c], s[b], s[a]);
    K::lemma_weak_order(s[b], s[a], s[c]);
}

/// An order names every index once.
pub proof fn lemma_order_covers<K: Ranked>(s: Seq<K>, p: Seq<usize>)
    requires
        is_order(s, p),
    ensures
        p.no_duplicates(),
        forall|x: usize| 0 <= x < s.len() ==> #[trigger] p.contains(x),
{
    assert forall|i: int, j: int| 0 <= i < p.len() && 0 <= j < p.len() && i != j implies p[i] != p[j] by {
        if i < j {
            assert(precedes(s, p[i] as int, p[j] as int));
            lemma_precedes(s, p[i] as int, p[j] as int, 0);
        } else {
            assert(precedes(s, p[j] as int, p[i] as int));
            lemma_precedes(s, p[j] as int, p[i] as int, 0);
        }
    }
    p.unique_seq_to_set();
    let all = vstd::set_lib::set_int_range(0, s.len() as int);
    vstd::set_lib::lemma_int_range(0, s.len() as int);
    let q = p.map_values(|x: usize| x as int);
    assert(q.no_duplicates());
    q.unique_seq_to_set();
    assert(q.to_set().subset_of(all)) by {
        assert forall|x: int| q.to_set().contains(x) implies all.contains(x) by {
            let i = choose|i: int| 0 <= i < q.len() && q[i] == x;
            assert(p[i] < s.len());
        }
    }
    vstd::set_lib::lemma_subset_equality(q.to_set(), all);
    assert forall|x: usize| 0 <= x < s.len() implies #[trigger] p.contains(x) by {
        assert(q.to_set().contains(x as int));
        let i = choose|i: int| 0 <= i < q.len() && q[i] == x as int;
        assert(p[i] == x);
    }
}

/// There is one stable order.
pub proof fn lemma_order_unique<K: Ranked>(s: Seq<K>, p: Seq<usize>, q: Seq<usize>)
    requires
        is_order(s, p),
        is_order(s, q),
    ensures
        p == q,
{
    lemma_order_prefix(s, p, q, p.len());
    assert(p =~= q);
}

proof fn lemma_order_prefix<K: Ranked>(s: Seq<K>, p: Seq<usize>, q: Seq<usize>, n: nat)
    requires
        is_order(s, p),
        is_order(s, q),
        n <= p.len(),
    ensures
        forall|i: int| 0 <= i < n ==> p[i] == q[i],
    decreases n,
{
    if n > 0 {
        let k = n - 1;
        lemma_order_prefix(s, p, q, k as nat);
        lemma_order_covers(s, p);
        lemma_order_covers(s, q);
        if p[k] != q[k] {
            let a = p.index_of(q[k]);
            let b = q.index_of(p[k]);
            assert(p.contains(q[k]) && q.contains(p[k]));
            assert(0 <= a < p.len() && p[a] == q[k]);
            assert(0 <= b < q.len() && q[b] == p[k]);
            assert(a > k) by {
                if a < k {
                    assert(q[a] == p[a]);
                }
            }
            assert(b > k) by {
                if b < k {
                    assert(q[b] == p[b]);
                }
            }
            assert(precedes(s, p[k] as int, p[a] as int));
            assert(precedes(s, q[k] as int, q[b] as int));
            lemma_precedes(s, p[k] as int, q[k] as int, 0);
        }
    }
}

/// Merge two ordered lists of indices, those of `a` before those of `b`.
fn merge<K: Ranked>(keys: &Vec<K>, a: &Vec<usize>, b: &Vec<usize>, Ghost(lo): Ghost<int>, Ghost(mid): Ghost<int>, Ghost(hi): Ghost<int>) -> (out: Vec<usize>)
    requires
        0 <= lo <= mid <= hi <= keys@.len(),
        a@.len() == mid - lo,
        b@.len() == hi - mid,
        forall|i: int| 0 <= i < a@.len() ==> lo <= #[trigger] a@[i] < mid,
        forall|i: int| 0 <= i < b@.len() ==> mid <= #[trigger] b@[i] < hi,
        ordered(keys@, a@),
        ordered(keys@, b@),
    ensures
        out@.len() == hi - lo,
        forall|i: int| 0 <= i < out@.len() ==> lo <= #[trigger] out@[i] < hi,
        ordered(keys@, out@),
{
    let mut out: Vec<usize> = Vec::new();
    let mut i: usize = 0;
    let mut j: usize = 0;
    while i < a.len() || j < b.len()
        invariant
            0 <= lo <= mid <= hi <= keys@.len(),
            a@.len() == mid - lo,
            b@.len() == hi - mid,
            forall|i: int| 0 <= i < a@.len() ==> lo <= #[trigger] a@[i] < mid,
            forall|i: int| 0 <= i < b@.len() ==> mid <= #[trigger] b@[i] < hi,
            ordered(keys@, a@),
            ordered(keys@, b@),
            i <= a@.len(),
            j <= b@.len(),
            out@.len() == i + j,
            forall|k: int| 0 <= k < out@.len() ==> lo <= #[trigger] out@[k] < hi,
            ordered(keys@, out@),
            forall|k: int, l: int|
                0 <= k < out@.len() && i <= l < a@.len() ==> #[trigger] precedes(
                    keys@,
                    out@[k] as int,
                    a@[l] as int,
                ),
            forall|k: int, l: int|
                0 <= k < out@.len() && j <= l < b@.len() ==> #[trigger] precedes(
                    keys@,
                    out@[k] as int,
                    b@[l] as int,
                ),
        decreases a@.len() - i + b@.len() - j,
    {
        let left = if i >= a.len() {
            false
        } else if j >= b.len() {
            true
        } else {
            !keys[b[j]].is_before(&keys[a[i]])
        };
        let ghost o = out@;
        if left {
            out.push(a[i]);
            proof {
                let x = a@[i as int] as int;
                if j < b@.len() {
                    let y = b@[j as int] as int;
                    assert(precedes(keys@, x, y));
                    assert forall|l: int| j <= l < b@.len() implies #[trigger] precedes(keys@, x, b@[l] as int) by {
                        if l > j {
                            assert(precedes(keys@, b@[j as int] as int, b@[l] as int));
                            lemma_precedes(keys@, x, y, b@[l] as int);
                        }
                    }
                }
                assert forall|k: int, l: int| 0 <= k < l < out@.len() implies #[trigger] precedes(
                    keys@,
                    out@[k] as int,
                    out@[l] as int,
                ) by {
                    if l == o.len() {
                        assert(precedes(keys@, o[k] as int, a@[i as int] as int));
                    } else {
                        assert(precedes(keys@, o[k] as int, o[l] as int));
                    }
                }
                assert forall|k: int, l: int| 0 <= k < out@.len() && i + 1 <= l < a@.len() implies #[trigger] precedes(
                    keys@,
                    out@[k] as int,
                    a@[l] as int,
                ) by {
                    if k == o.len() {
                        assert(precedes(keys@, a@[i as int] as int, a@[l] as int));
                    } else {
                        assert(precedes(keys@, o[k] as int, a@[l] as int));
                    }
                }
                assert forall|k: int, l: int| 0 <= k < out@.len() && j <= l < b@.len() implies #[trigger] precedes(
                    keys@,
                    out@[k] as int,
                    b@[l] as int,
                ) by {
                    if k < o.len() {
                        assert(precedes(keys@, o[k] as int, b@[l] as int));
                    }
                }
            }
            i += 1;
        } else {
            out.push(b[j]);
            proof {
                let y = b@[j as int] as int;
                if i < a@.len() {
                    let x = a@[i as int] as int;
                    assert(precedes(keys@, y, x));
                    assert forall|l: int| i <= l < a@.len() implies #[trigger] precedes(keys@, y, a@[l] as int) by {
                        if l > i {
                            assert(precedes(keys@, a@[i as int] as int, a@[l] as int));
                            lemma_precedes(keys@, y, x, a@[l] as int);
                        }
                    }
                }
                assert forall|k: int, l: int| 0 <= k < l < out@.len() implies #[trigger] precedes(
                    keys@,
                    out@[k] as int,
                    out@[l] as int,
                ) by {
                    if l == o.len() {
                        assert(precedes(keys@, o[k] as int, b@[j as int] as int));
                    } else {
                        assert(precedes(keys@, o[k] as int, o[l] as int));
                    }
                }
                assert forall|k: int, l: int| 0 <= k < out@.len() && j + 1 <= l < b@.len() implies #[trigger] precedes(
                    keys@,
                    out@[k] as int,
                    b@[l] as int,
                ) by {
                    if k == o.len() {
                        assert(precedes(keys@, b@[j as int] as int, b@[l] as int));
                    } else {
                        assert(precedes(keys@, o[k] as int, b@[l] as int));
                    }
                }
                assert forall|k: int, l: int| 0 <= k < out@.len() && i <= l < a@.len() implies #[trigger] precedes(
                    keys@,
                    out@[k] as int,
                    a@[l] as int,
                ) by {
                    if k < o.len() {
                        assert(precedes(keys@, o[k] as int, a@[l] as int));
                    }
                }
            }
            j += 1;
        }
    }
    out
}

/// The stable order of the items from `lo` to `hi`.
fn order_range<K: Ranked>(keys: &Vec<K>, lo: usize, hi: usize) -> (out: Vec<usize>)
    requires
        lo <= hi <= keys@.len(),
    ensures
        out@.len() == hi - lo,
        forall|i: int| 0 <= i < out@.len() ==> lo <= #[trigger] out@[i] < hi,
        ordered(keys@, out@),
    decreases hi - lo,
{
    let mut out: Vec<usize> = Vec::new();
    if hi - lo == 0 {
        return out;
    }
    if hi - lo == 1 {
        out.push(lo);
        return out;
    }
    let mid: usize = lo + (hi - lo) / 2;
    let a = order_range(keys, lo, mid);
    let b = order_range(keys, mid, hi);
    merge(keys, &a, &b, Ghost(lo as int), Ghost(mid as int), Ghost(hi as int))
}

/// The stable order of a list.
pub fn stable_order<K: Ranked>(keys: &Vec<K>) -> (p: Vec<usize>)
    ensures
        is_order(keys@, p@),
{
    order_range(keys, 0, keys.len())
}

/// A list sorted stably.
pub fn stable_sort<K: Ranked + Copy>(keys: &Vec<K>) -> (t: Vec<K>)
    ensures
        stable_sorted(keys@, t@),
        t@.len() == keys@.len(),
{
    let p = stable_order(keys);
    let mut t: Vec<K> = Vec::new();
    let mut i: usize = 0;
    while i < p.len()
        invariant
            i <= p@.len(),
            is_order(keys@, p@),
            t@.len() == i,
            forall|k: int| 0 <= k < i ==> t@[k] == keys@[p@[k] as int],
        decreases p@.len() - i,
    {
        t.push(keys[p[i]]);
        i += 1;
    }
    assert(t@ =~= arranged(keys@, p@));
    t
}

/// Items in another order are the same items.
proof fn lemma_arranged<T>(s: Seq<T>, p: Seq<usize>)
    requires
        p.len() == s.len(),
        p.no_duplicates(),
        forall|i: int| 0 <= i < p.len() ==> (#[trigger] p[i]) < s.len(),
        forall|x: usize| 0 <= x < s.len() ==> #[trigger] p.contains(x),
        s.len() <= usize::MAX,
    ensures
        arranged(s, p).to_multiset() == s.to_multiset(),
    decreases s.len(),
{
    broadcast use vstd::seq_lib::group_to_multiset_ensures;

    let t = arranged(s, p);
    if s.len() == 0 {
        assert(t =~= s);
    } else {
        let last = (s.len() - 1) as usize;
        assert(p.contains(last));
        let k = p.index_of(last);
        let q = p.remove(k);
        let d = s.drop_last();
        assert forall|i: int| 0 <= i < q.len() implies (#[trigger] q[i]) < d.len() by {
            if i < k {
                assert(q[i] == p[i]);
            } else {
                assert(q[i] == p[i + 1]);
            }
        }
        assert forall|x: usize| 0 <= x < d.len() implies #[trigger] q.contains(x) by {
            assert(p.contains(x));
            let j = p.index_of(x);
            if j < k {
                assert(q[j] == x);
            } else {
                assert(q[j - 1] == x);
            }
        }
        lemma_arranged(d, q);
        assert(arranged(d, q) =~= t.remove(k));
        assert(s =~= d.push(s.last()));
        assert(t.contains(t[k]));
        assert(t.to_multiset().count(t[k]) > 0);
        assert(t.to_multiset() =~= t.remove(k).to_multiset().insert(t[k]));
    }
}

/// Sorting keeps every item, as often as it occurs.
pub proof fn lemma_sorted_items<K: Ranked>(s: Seq<K>, t: Seq<K>)
    requires
        stable_sorted(s, t),
        s.len() <= usize::MAX,
    ensures
        t.to_multiset() == s.to_multiset(),
{
    let p = choose|p: Seq<usize>| #[trigger] is_order(s, p) && t == arranged(s, p);
    lemma_order_covers(s, p);
    lemma_arranged(s, p);
}

/// A sorted list has the items of the original, and none before an earlier one.
pub proof fn lemma_stable_sorted<K: Ranked>(s: Seq<K>, t: Seq<K>)
    requires
        stable_sorted(s, t),
        s.len() <= usize::MAX,
    ensures
        t.len() == s.len(),
        forall|i: int, j: int| 0 <= i < j < t.len() ==> !(#[trigger] t[j]).before(#[trigger] t[i]),
        forall|x: K| s.contains(x) <==> #[trigger] t.contains(x),
{
    let p = choose|p: Seq<usize>| #[trigger] is_order(s, p) && t == arranged(s, p);
    lemma_order_covers(s, p);
    assert forall|i: int, j: int| 0 <= i < j < t.len() implies !(#[trigger] t[j]).before(#[trigger] t[i]) by {
        assert(precedes(s, p[i] as int, p[j] as int));
        K::lemma_weak_order(t[i], t[j], t[i]);
    }
    assert forall|x: K| s.contains(x) <==> #[trigger] t.contains(x) by {
        if s.contains(x) {
            let i = choose|i: int| 0 <= i < s.len() && s[i] == x;
            assert(p.contains(i as usize));
            let j = choose|j: int| 0 <= j < p.len() && p[j] == i as usize;
            assert(t[j] == x);
        }
        if t.contains(x) {
            let j = choose|j: int| 0 <= j < t.len() && t[j] == x;
            assert(p[j] < s.len());
            assert(s[p[j] as int] == x);
        }
    }
}

} // verus!
