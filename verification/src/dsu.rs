//! A disjoint-set (union-find) structure.
//!
//! The optimizer groups columns into equivalence classes when it sees equality
//! predicates (`a = b AND b = c` implies `a`, `b`, `c` are interchangeable),
//! and the join planner uses the same idea to find connected components of a
//! join graph. Union-find answers "are these in the same class?" and "merge
//! these classes" in near-constant amortized time via path compression and
//! union by rank.

use vstd::prelude::*;
use crate::bits;

verus! {

/// A union-find over `0..n` elements.
#[derive(Debug, Clone)]
pub struct DisjointSet {
    parent: Vec<usize>,
    rank: Vec<u8>,
    size: Vec<u32>,
    sets: usize,
}

/// The representative of `x`: where the parent links lead. Ranks grow along the
/// links.
spec fn root(p: Seq<usize>, k: Seq<u8>, x: int) -> int
    decreases 256 - k[x],
{
    if p[x] == x || k[p[x] as int] <= k[x] {
        x
    } else {
        root(p, k, p[x] as int)
    }
}

/// The representatives of all elements.
spec fn roots(p: Seq<usize>, k: Seq<u8>) -> Seq<int> {
    Seq::new(p.len(), |x: int| root(p, k, x))
}

/// How many elements have the representative `r`.
pub open spec fn tally(reps: Seq<int>, r: int) -> nat
    decreases reps.len(),
{
    if reps.len() == 0 {
        0
    } else {
        tally(reps.drop_last(), r) + if reps.last() == r {
            1nat
        } else {
            0nat
        }
    }
}

/// How many of the first `n` elements are their own representative.
pub open spec fn heads(reps: Seq<int>, n: nat) -> nat
    decreases n,
{
    if n == 0 {
        0
    } else {
        heads(reps, (n - 1) as nat) + if reps[n - 1] == n - 1 {
            1nat
        } else {
            0nat
        }
    }
}

/// The elements with the representative `r`, in ascending order.
pub open spec fn class_of(reps: Seq<int>, r: int) -> Seq<usize>
    decreases reps.len(),
{
    if reps.len() == 0 {
        Seq::empty()
    } else if reps.last() == r {
        class_of(reps.drop_last(), r).push((reps.len() - 1) as usize)
    } else {
        class_of(reps.drop_last(), r)
    }
}

/// The representatives in the order of the smallest elements of their classes.
pub open spec fn leaders(reps: Seq<int>) -> Seq<int>
    decreases reps.len(),
{
    if reps.len() == 0 {
        Seq::empty()
    } else {
        let before = leaders(reps.drop_last());
        if before.contains(reps.last()) {
            before
        } else {
            before.push(reps.last())
        }
    }
}

/// The representatives after `small` has been put under `big`.
pub open spec fn merged(reps: Seq<int>, big: int, small: int) -> Seq<int> {
    reps.map_values(|r: int| if r == small { big } else { r })
}

/// Of two representatives, the one that stays and the one that gives way: the one
/// of higher rank stays, the first where the ranks are equal.
pub open spec fn elders(ranks: Seq<u8>, a: int, b: int) -> (int, int) {
    if ranks[a] >= ranks[b] {
        (a, b)
    } else {
        (b, a)
    }
}

spec fn links(p: Seq<usize>, k: Seq<u8>) -> bool {
    &&& p.len() == k.len()
    &&& forall|x: int| 0 <= x < p.len() ==> 0 <= #[trigger] p[x] < p.len()
    &&& forall|x: int|
        0 <= x < p.len() && p[x] != x ==> k[x] < k[#[trigger] p[x] as int]
}

proof fn lemma_root(p: Seq<usize>, k: Seq<u8>, x: int)
    requires
        links(p, k),
        0 <= x < p.len(),
    ensures
        0 <= root(p, k, x) < p.len(),
        p[root(p, k, x)] == root(p, k, x),
        k[root(p, k, x)] >= k[x],
        p[x] != x ==> k[root(p, k, x)] > k[x],
        root(p, k, root(p, k, x)) == root(p, k, x),
    decreases 256 - k[x],
{
    if p[x] != x {
        assert(k[x] < k[p[x] as int]);
        lemma_root(p, k, p[x] as int);
    }
}

/// Pointing `y` straight at its representative changes no representative.
proof fn lemma_compress(p: Seq<usize>, k: Seq<u8>, y: int, x: int)
    requires
        links(p, k),
        0 <= x < p.len(),
        0 <= y < p.len(),
    ensures
        links(p.update(y, root(p, k, y) as usize), k),
        root(p.update(y, root(p, k, y) as usize), k, x) == root(p, k, x),
    decreases 256 - k[x],
{
    let q = p.update(y, root(p, k, y) as usize);
    lemma_root(p, k, y);
    lemma_root(p, k, x);
    assert forall|z: int| 0 <= z < q.len() && q[z] != z implies k[z] < k[#[trigger] q[z] as int] by {
        if z != y {
            assert(q[z] == p[z]);
        } else {
            assert(p[y] != y);
        }
    }
    assert forall|z: int| 0 <= z < q.len() implies 0 <= #[trigger] q[z] < q.len() by {
        if z != y {
            assert(q[z] == p[z]);
        }
    }
    let r = root(p, k, y);
    assert(q[r] == r) by {
        if r != y {
            assert(q[r] == p[r]);
        }
    }
    if x == y {
        if r != y {
            assert(root(q, k, r) == r);
            assert(q[y] == r);
        }
    } else if p[x] != x {
        assert(k[x] < k[p[x] as int]);
        lemma_compress(p, k, y, p[x] as int);
        assert(q[x] == p[x]);
    } else {
        assert(q[x] == p[x]);
    }
}

/// Putting one root under another of no smaller rank merges their classes.
proof fn lemma_link(p: Seq<usize>, k: Seq<u8>, big: int, small: int, j: Seq<u8>, x: int)
    requires
        links(p, k),
        0 <= x < p.len(),
        0 <= big < p.len(),
        0 <= small < p.len(),
        big != small,
        p[big] == big,
        p[small] == small,
        k[big] >= k[small],
        j.len() == k.len(),
        forall|z: int| 0 <= z < k.len() && z != big ==> j[z] == k[z],
        j[big] >= k[big],
        j[big] > k[small],
    ensures
        links(p.update(small, big as usize), j),
        root(p.update(small, big as usize), j, x) == (if root(p, k, x) == small {
            big
        } else {
            root(p, k, x)
        }),
    decreases 256 - k[x],
{
    let q = p.update(small, big as usize);
    assert forall|z: int| 0 <= z < q.len() implies 0 <= #[trigger] q[z] < q.len() by {
        if z != small {
            assert(q[z] == p[z]);
        }
    }
    assert forall|z: int| 0 <= z < q.len() && q[z] != z implies j[z] < j[#[trigger] q[z] as int] by {
        if z != small {
            assert(q[z] == p[z]);
            assert(k[z] < k[p[z] as int]);
        }
    }
    lemma_root(p, k, x);
    assert(q[big] == big);
    if x == small {
        assert(root(q, j, big) == big);
    } else if p[x] != x {
        assert(k[x] < k[p[x] as int]);
        assert(q[x] == p[x]);
        lemma_link(p, k, big, small, j, p[x] as int);
    } else {
        assert(q[x] == x);
    }
}

/// The classes of a merge: `small`'s members join `big`.
proof fn lemma_tally_merge(reps: Seq<int>, big: int, small: int, r: int)
    requires
        big != small,
    ensures
        tally(merged(reps, big, small), r) == (if r == big {
            tally(reps, big) + tally(reps, small)
        } else if r == small {
            0
        } else {
            tally(reps, r)
        }),
    decreases reps.len(),
{
    let m = merged(reps, big, small);
    if reps.len() > 0 {
        assert(m.drop_last() =~= merged(reps.drop_last(), big, small));
        lemma_tally_merge(reps.drop_last(), big, small, r);
    }
}

/// Two different classes together are no more than all elements.
proof fn lemma_tally_bound(reps: Seq<int>, a: int, b: int)
    requires
        a != b,
    ensures
        tally(reps, a) + tally(reps, b) <= reps.len(),
    decreases reps.len(),
{
    if reps.len() > 0 {
        lemma_tally_bound(reps.drop_last(), a, b);
    }
}

proof fn lemma_heads_merge(reps: Seq<int>, big: int, small: int, n: nat)
    requires
        n <= reps.len(),
        0 <= big < reps.len(),
        0 <= small < reps.len(),
        big != small,
        reps[big] == big,
        reps[small] == small,
    ensures
        heads(merged(reps, big, small), n) == heads(reps, n) - (if small < n {
            1int
        } else {
            0int
        }),
    decreases n,
{
    if n > 0 {
        lemma_heads_merge(reps, big, small, (n - 1) as nat);
    }
}

proof fn lemma_heads_prefix(reps: Seq<int>, v: int, n: nat)
    requires
        n <= reps.len(),
    ensures
        heads(reps.push(v), n) == heads(reps, n),
        heads(reps, n) <= n,
    decreases n,
{
    if n > 0 {
        lemma_heads_prefix(reps, v, (n - 1) as nat);
    }
}

proof fn lemma_tally_fresh(reps: Seq<int>, r: int)
    requires
        forall|i: int| 0 <= i < reps.len() ==> reps[i] != r,
    ensures
        tally(reps, r) == 0,
    decreases reps.len(),
{
    if reps.len() > 0 {
        lemma_tally_fresh(reps.drop_last(), r);
    }
}

proof fn lemma_leaders(reps: Seq<int>)
    ensures
        forall|i: int| 0 <= i < reps.len() ==> leaders(reps).contains(#[trigger] reps[i]),
        forall|j: int|
            0 <= j < leaders(reps).len() ==> reps.contains(#[trigger] leaders(reps)[j]),
        leaders(reps).no_duplicates(),
        leaders(reps).len() <= reps.len(),
    decreases reps.len(),
{
    if reps.len() > 0 {
        let d = reps.drop_last();
        lemma_leaders(d);
        let b = leaders(d);
        let l = leaders(reps);
        assert forall|i: int| 0 <= i < reps.len() implies l.contains(#[trigger] reps[i]) by {
            if i < d.len() {
                assert(d[i] == reps[i]);
                assert(b.contains(d[i]));
                let w = choose|w: int| 0 <= w < b.len() && b[w] == d[i];
                assert(l[w] == reps[i]);
            } else if !b.contains(reps.last()) {
                assert(l[l.len() - 1] == reps[i]);
            }
        }
        assert forall|j: int| 0 <= j < l.len() implies reps.contains(#[trigger] l[j]) by {
            if j < b.len() {
                assert(b[j] == l[j]);
                assert(d.contains(b[j]));
                let w = choose|w: int| 0 <= w < d.len() && d[w] == b[j];
                assert(reps[w] == l[j]);
            } else {
                assert(reps[reps.len() - 1] == l[j]);
            }
        }
    }
}

/// Merging leaves two elements in one class exactly where they already were, or
/// where each was in one of the two classes merged.
pub proof fn lemma_merged(reps: Seq<int>, a: int, b: int, x: int, y: int)
    requires
        0 <= a < reps.len(),
        0 <= b < reps.len(),
        0 <= x < reps.len(),
        0 <= y < reps.len(),
    ensures
        merged(reps, reps[a], reps[b])[x] == merged(reps, reps[a], reps[b])[y] <==> (reps[x] == reps[y] || (
        reps[x] == reps[a] && reps[y] == reps[b]) || (reps[x] == reps[b] && reps[y] == reps[a])),
{
}

/// The class of a representative lists exactly its elements, ascending.
pub proof fn lemma_class(reps: Seq<int>, r: int)
    requires
        reps.len() <= usize::MAX,
    ensures
        class_of(reps, r).len() == tally(reps, r),
        forall|x: int|
            0 <= x < reps.len() ==> (#[trigger] class_of(reps, r).contains(x as usize) <==> reps[x] == r),
        forall|i: int|
            0 <= i < class_of(reps, r).len() ==> (#[trigger] class_of(reps, r)[i]) < reps.len(),
        forall|i: int, j: int|
            0 <= i < j < class_of(reps, r).len() ==> class_of(reps, r)[i] < class_of(reps, r)[j],
    decreases reps.len(),
{
    let c = class_of(reps, r);
    if reps.len() > 0 {
        let d = reps.drop_last();
        lemma_class(d, r);
        let b = class_of(d, r);
        assert forall|x: int| 0 <= x < reps.len() implies (#[trigger] c.contains(x as usize) <==> reps[x]
            == r) by {
            if x < d.len() {
                assert(d[x] == reps[x]);
                if b.contains(x as usize) {
                    let w = choose|w: int| 0 <= w < b.len() && b[w] == x as usize;
                    assert(c[w] == x as usize);
                }
                if c.contains(x as usize) {
                    let w = choose|w: int| 0 <= w < c.len() && c[w] == x as usize;
                    if w < b.len() {
                        assert(b[w] == x as usize);
                    }
                }
            } else {
                if reps[x] == r {
                    assert(c[c.len() - 1] == x as usize);
                } else if c.contains(x as usize) {
                    let w = choose|w: int| 0 <= w < c.len() && c[w] == x as usize;
                    assert(b[w] < d.len());
                }
            }
        }
    }
}

impl DisjointSet {
    /// The representative of each element.
    pub closed spec fn reps(self) -> Seq<int> {
        roots(self.parent@, self.rank@)
    }

    /// The rank of each element: at a representative, a bound on the height of its
    /// tree.
    pub closed spec fn ranks(self) -> Seq<u8> {
        self.rank@
    }

    /// The number of elements.
    pub open spec fn n(self) -> nat {
        self.reps().len()
    }

    /// Parent links form trees, and the sizes of classes are known at their
    /// representatives.
    pub closed spec fn wf(self) -> bool {
        &&& links(self.parent@, self.rank@)
        &&& self.size@.len() == self.parent@.len()
        &&& self.parent@.len() <= u32::MAX
        &&& forall|r: int|
            0 <= r < self.parent@.len() && self.parent@[r] == r ==> (#[trigger] self.size@[r]) == tally(
                self.reps(),
                r,
            ) && self.size@[r] >= bits::pow2(self.rank@[r] as nat)
        &&& self.sets == heads(self.reps(), self.parent@.len())
    }

    /// A representative is an element and represents itself.
    pub proof fn lemma_reps(self)
        requires
            self.wf(),
        ensures
            forall|x: int|
                0 <= x < self.n() ==> 0 <= #[trigger] self.reps()[x] < self.n() && self.reps()[self.reps()[x]]
                    == self.reps()[x],
            self.n() <= u32::MAX,
    {
        assert forall|x: int| 0 <= x < self.n() implies 0 <= #[trigger] self.reps()[x] < self.n()
            && self.reps()[self.reps()[x]] == self.reps()[x] by {
            lemma_root(self.parent@, self.rank@, x);
        }
    }

    /// `n` singleton sets.
    pub fn new(n: usize) -> (r: DisjointSet)
        requires
            n <= u32::MAX,
        ensures
            r.wf(),
            r.reps() == Seq::new(n as nat, |i: int| i),
            r.ranks() == Seq::new(n as nat, |i: int| 0u8),
    {
        let mut d = DisjointSet { parent: Vec::new(), rank: Vec::new(), size: Vec::new(), sets: 0 };
        assert(d.reps() =~= Seq::<int>::empty());
        d.ensure(n);
        assert(d.reps() =~= Seq::new(n as nat, |i: int| i));
        assert(d.ranks() =~= Seq::new(n as nat, |i: int| 0u8));
        d
    }

    /// Number of elements.
    pub fn len(&self) -> (r: usize)
        ensures
            r == self.n(),
    {
        self.parent.len()
    }

    /// `true` if there are no elements.
    pub fn is_empty(&self) -> (r: bool)
        ensures
            r == (self.n() == 0),
    {
        self.parent.len() == 0
    }

    /// Grow to at least `n` elements, adding singletons.
    pub fn ensure(&mut self, n: usize)
        requires
            old(self).wf(),
            n <= u32::MAX,
        ensures
            final(self).wf(),
            final(self).n() == (if n > old(self).n() {
                n as nat
            } else {
                old(self).n()
            }),
            forall|x: int| 0 <= x < final(self).n() ==> #[trigger] final(self).reps()[x] == (if x < old(
                self,
            ).n() {
                old(self).reps()[x]
            } else {
                x
            }),
            final(self).ranks().len() == final(self).n(),
            forall|x: int| 0 <= x < final(self).n() ==> #[trigger] final(self).ranks()[x] == (if x < old(self).n() {
                old(self).ranks()[x]
            } else {
                0
            }),
    {
        let ghost before = self.reps();
        while self.parent.len() < n
            invariant
                self.wf(),
                n <= u32::MAX,
                before.len() <= self.n(),
                before == old(self).reps(),
                self.n() <= n || self.n() == before.len(),
                forall|x: int| 0 <= x < self.n() ==> #[trigger] self.reps()[x] == (if x < before.len() {
                    before[x]
                } else {
                    x
                }),
                forall|x: int| 0 <= x < self.n() ==> #[trigger] self.ranks()[x] == (if x < before.len() {
                    old(self).ranks()[x]
                } else {
                    0
                }),
            decreases n - self.n(),
        {
            let ghost was = *self;
            let i: usize = self.parent.len();
            self.parent.push(i);
            self.rank.push(0);
            self.size.push(1);
            proof {
                let p = was.parent@;
                let k = was.rank@;
                assert(links(self.parent@, self.rank@)) by {
                    assert forall|x: int| 0 <= x < self.parent@.len() && self.parent@[x] != x implies self.rank@[x]
                        < self.rank@[#[trigger] self.parent@[x] as int] by {
                        assert(self.parent@[x] == p[x]);
                    }
                }
                assert forall|x: int| 0 <= x < p.len() implies root(self.parent@, self.rank@, x) == root(p, k, x) by {
                    lemma_root_grow(p, k, x);
                }
                assert(self.reps() =~= was.reps().push(i as int));
                was.lemma_reps();
                lemma_heads_prefix(was.reps(), i as int, p.len());
                assert(tally(self.reps(), i as int) == 1) by {
                    assert(self.reps().drop_last() =~= was.reps());
                    lemma_tally_fresh(was.reps(), i as int);
                }
                assert forall|r: int| 0 <= r < p.len() && p[r] == r implies tally(self.reps(), r) == tally(
                    was.reps(),
                    r,
                ) by {
                    assert(self.reps().drop_last() =~= was.reps());
                }
                bits::lemma_pow2_values();
            }
            self.sets += 1;
            assert forall|x: int| 0 <= x < self.n() implies #[trigger] self.ranks()[x] == (if x < before.len() {
                old(self).ranks()[x]
            } else {
                0
            }) by {
                if x < i {
                    assert(self.ranks()[x] == was.ranks()[x]);
                }
            }
        }
    }

    /// Find the representative of `x`, compressing the path.
    pub fn find(&mut self, x: usize) -> (r: usize)
        requires
            old(self).wf(),
            x < old(self).n(),
        ensures
            r == old(self).reps()[x as int],
            final(self).reps() == old(self).reps(),
            final(self).ranks() == old(self).ranks(),
            final(self).wf(),
    {
        let ghost reps = self.reps();
        let mut r: usize = x;
        while self.parent[r] != r
            invariant
                self.wf(),
                x < self.n(),
                r < self.n(),
                self.reps() == reps,
                self.ranks() == old(self).ranks(),
                reps[r as int] == reps[x as int],
            decreases 256 - self.rank@[r as int],
        {
            proof {
                assert(self.rank@[r as int] < self.rank@[self.parent@[r as int] as int]);
                assert(reps[r as int] == root(self.parent@, self.rank@, r as int));
                assert(reps[self.parent@[r as int] as int] == root(
                    self.parent@,
                    self.rank@,
                    self.parent@[r as int] as int,
                ));
            }
            r = self.parent[r];
        }
        assert(reps[r as int] == root(self.parent@, self.rank@, r as int));
        let mut cur: usize = x;
        while self.parent[cur] != r
            invariant
                self.wf(),
                x < self.n(),
                r < self.n(),
                cur < self.n(),
                self.parent@[r as int] == r,
                self.reps() == reps,
                self.ranks() == old(self).ranks(),
                reps[x as int] == r,
                reps[cur as int] == r,
            decreases 256 - self.rank@[cur as int],
        {
            let ghost was = *self;
            let next: usize = self.parent[cur];
            proof {
                let p = self.parent@;
                let k = self.rank@;
                lemma_root(p, k, cur as int);
                assert(root(p, k, cur as int) == reps[cur as int]);
                assert(next != cur);
                assert(k[cur as int] < k[p[cur as int] as int]);
                assert(root(p, k, next as int) == reps[next as int]);
                assert forall|z: int| 0 <= z < p.len() implies root(p.update(cur as int, r), k, z) == root(p, k, z) by {
                    lemma_compress(p, k, cur as int, z);
                }
                lemma_compress(p, k, cur as int, cur as int);
            }
            self.parent.set(cur, r);
            proof {
                assert(self.reps() =~= was.reps());
                assert forall|q: int| 0 <= q < self.parent@.len() && self.parent@[q] == q implies (
                #[trigger] self.size@[q]) == tally(self.reps(), q) && self.size@[q] >= bits::pow2(self.rank@[q] as nat) by {
                    assert(was.size@[q] == self.size@[q]);
                    assert(was.parent@[q] == q) by {
                        lemma_root(was.parent@, was.rank@, q);
                    }
                }
            }
            cur = next;
        }
        r
    }

    /// Merge the sets containing `a` and `b`. Returns `true` if they were
    /// distinct (a merge happened).
    pub fn union(&mut self, a: usize, b: usize) -> (r: bool)
        requires
            old(self).wf(),
            a < old(self).n(),
            b < old(self).n(),
        ensures
            final(self).wf(),
            r == (old(self).reps()[a as int] != old(self).reps()[b as int]),
            !r ==> final(self).reps() == old(self).reps() && final(self).ranks() == old(self).ranks(),
            r ==> {
                let (big, small) = elders(
                    old(self).ranks(),
                    old(self).reps()[a as int],
                    old(self).reps()[b as int],
                );
                &&& final(self).reps() == merged(old(self).reps(), big, small)
                &&& final(self).ranks() == (if old(self).ranks()[big] == old(self).ranks()[small] {
                    old(self).ranks().update(big, (old(self).ranks()[big] + 1) as u8)
                } else {
                    old(self).ranks()
                })
            },
            final(self).n() == old(self).n(),
            forall|x: int, y: int|
                0 <= x < old(self).n() && 0 <= y < old(self).n() ==> (#[trigger] final(self).reps()[x]
                    == #[trigger] final(self).reps()[y] <==> joined_by(old(self).reps(), a as int, b as int, x, y)),
    {
        let ghost reps = self.reps();
        let ra: usize = self.find(a);
        let rb: usize = self.find(b);
        if ra == rb {
            return false;
        }
        proof {
            self.lemma_reps();
        }
        let (big, small): (usize, usize) = if self.rank[ra] >= self.rank[rb] {
            (ra, rb)
        } else {
            (rb, ra)
        };
        let ghost was = *self;
        proof {
            let p = self.parent@;
            let k = self.rank@;
            lemma_root(p, k, big as int);
            lemma_root(p, k, small as int);
            assert(root(p, k, big as int) == reps[big as int]);
            assert(root(p, k, small as int) == reps[small as int]);
            assert(reps[big as int] == big && reps[small as int] == small);
            lemma_tally_bound(reps, big as int, small as int);
            assert(self.size@[big as int] == tally(reps, big as int));
            assert(self.size@[small as int] == tally(reps, small as int));
            assert(k[big as int] < 32) by {
                if k[big as int] >= 32 {
                    bits::lemma_pow2_mono(32, k[big as int] as nat);
                    bits::lemma_pow2_values();
                }
            }
        }
        self.parent.set(small, big);
        let total: u32 = self.size[big] + self.size[small];
        self.size.set(big, total);
        if self.rank[big] == self.rank[small] {
            let k: u8 = self.rank[big];
            self.rank.set(big, k + 1);
        }
        proof {
            let p = was.parent@;
            let k = was.rank@;
            let j = self.rank@;
            assert forall|x: int| 0 <= x < p.len() implies root(self.parent@, j, x) == (if root(p, k, x) == small {
                big as int
            } else {
                root(p, k, x)
            }) by {
                lemma_link(p, k, big as int, small as int, j, x);
            }
            lemma_link(p, k, big as int, small as int, j, 0);
            assert(self.reps() =~= merged(reps, big as int, small as int));
            lemma_heads_merge(reps, big as int, small as int, p.len());
            lemma_heads_some(reps, small as int, p.len());
            assert forall|r: int| 0 <= r < self.parent@.len() && self.parent@[r] == r implies (#[trigger] self.size@[r])
                == tally(self.reps(), r) && self.size@[r] >= bits::pow2(self.rank@[r] as nat) by {
                lemma_tally_merge(reps, big as int, small as int, r);
                assert(was.parent@[r] == r) by {
                    assert(r != small);
                }
                assert(was.size@[r] == tally(reps, r) && was.size@[r] >= bits::pow2(k[r] as nat));
                if r == big {
                    assert(was.size@[small as int] >= bits::pow2(k[small as int] as nat));
                }
            }
            let f = self.reps();
            assert forall|x: int, y: int| 0 <= x < reps.len() && 0 <= y < reps.len() implies (#[trigger] f[x]
                == #[trigger] f[y] <==> joined_by(reps, a as int, b as int, x, y)) by {
                lemma_merged(reps, a as int, b as int, x, y);
                lemma_merged(reps, b as int, a as int, x, y);
            }
        }
        self.sets -= 1;
        true
    }

    /// `true` if `a` and `b` are in the same set.
    pub fn connected(&mut self, a: usize, b: usize) -> (r: bool)
        requires
            old(self).wf(),
            a < old(self).n(),
            b < old(self).n(),
        ensures
            final(self).wf(),
            final(self).reps() == old(self).reps(),
            final(self).ranks() == old(self).ranks(),
            r == (old(self).reps()[a as int] == old(self).reps()[b as int]),
    {
        let ra: usize = self.find(a);
        let rb: usize = self.find(b);
        ra == rb
    }

    /// The size of the set containing `x`.
    pub fn set_size(&mut self, x: usize) -> (r: u32)
        requires
            old(self).wf(),
            x < old(self).n(),
        ensures
            final(self).wf(),
            final(self).reps() == old(self).reps(),
            final(self).ranks() == old(self).ranks(),
            r == tally(old(self).reps(), old(self).reps()[x as int]),
    {
        let r: usize = self.find(x);
        proof {
            self.lemma_reps();
            lemma_root(self.parent@, self.rank@, x as int);
            assert(root(self.parent@, self.rank@, x as int) == self.reps()[x as int]);
        }
        self.size[r]
    }

    /// The number of disjoint sets.
    pub fn count_sets(&self) -> (r: usize)
        requires
            self.wf(),
        ensures
            r == heads(self.reps(), self.n()),
    {
        self.sets
    }

    /// Group all elements by their representative, returning sorted classes.
    pub fn classes(&mut self) -> (r: Vec<Vec<usize>>)
        requires
            old(self).wf(),
        ensures
            final(self).wf(),
            final(self).reps() == old(self).reps(),
            final(self).ranks() == old(self).ranks(),
            r@.len() == leaders(old(self).reps()).len(),
            forall|i: int|
                0 <= i < r@.len() ==> (#[trigger] r@[i])@ == class_of(
                    old(self).reps(),
                    leaders(old(self).reps())[i],
                ),
    {
        let ghost reps = self.reps();
        let n: usize = self.parent.len();
        let mut out: Vec<Vec<usize>> = Vec::new();
        let mut slot: Vec<usize> = Vec::new();
        let mut s: usize = 0;
        while s < n
            invariant
                s <= n,
                slot@.len() == s,
                forall|j: int| 0 <= j < s ==> slot@[j] == n,
            decreases n - s,
        {
            slot.push(n);
            s += 1;
        }
        let mut i: usize = 0;
        assert(reps.subrange(0, 0) =~= Seq::<int>::empty());
        while i < n
            invariant
                i <= n,
                self.wf(),
                self.reps() == reps,
                self.ranks() == old(self).ranks(),
                reps.len() == n,
                slot@.len() == n,
                grouped(reps, i as int, out@, slot@),
            decreases n - i,
        {
            let ghost out0 = out@;
            let ghost slot0 = slot@;
            let r: usize = self.find(i);
            proof {
                self.lemma_reps();
                lemma_leaders(reps.subrange(0, i as int));
            }
            let at: usize = slot[r];
            if at == n {
                let mut c: Vec<usize> = Vec::new();
                c.push(i);
                slot.set(r, out.len());
                out.push(c);
                proof {
                    assert(out@.drop_last() =~= out0);
                    lemma_group_new(reps, i as int, out0, slot0, out@, slot@);
                }
            } else {
                let mut c = out.remove(at);
                c.push(i);
                out.insert(at, c);
                proof {
                    assert(out@ =~= out0.update(at as int, c));
                    lemma_group_more(reps, i as int, out0, slot0, out@, at as int);
                }
            }
            i += 1;
        }
        assert(reps.subrange(0, n as int) =~= reps);
        out
    }
}

/// `x` and `y` are in one class once those of `a` and `b` are one.
pub open spec fn joined_by(reps: Seq<int>, a: int, b: int, x: int, y: int) -> bool {
    ||| reps[x] == reps[y]
    ||| reps[x] == reps[a] && reps[y] == reps[b]
    ||| reps[x] == reps[b] && reps[y] == reps[a]
}

proof fn lemma_heads_some(reps: Seq<int>, x: int, n: nat)
    requires
        0 <= x < n <= reps.len(),
        reps[x] == x,
    ensures
        heads(reps, n) >= 1,
    decreases n,
{
    if x < n - 1 {
        lemma_heads_some(reps, x, (n - 1) as nat);
    }
}

proof fn lemma_root_grow(p: Seq<usize>, k: Seq<u8>, x: int)
    requires
        links(p, k),
        0 <= x < p.len(),
        p.len() < usize::MAX,
    ensures
        root(p.push(p.len() as usize), k.push(0), x) == root(p, k, x),
    decreases 256 - k[x],
{
    if p[x] != x {
        assert(k[x] < k[p[x] as int]);
        lemma_root_grow(p, k, p[x] as int);
    }
}

/// The first `i` elements are grouped into `out`; `slot` tells where the class
/// of each representative stands, `reps.len()` meaning nowhere.
spec fn grouped(reps: Seq<int>, i: int, out: Seq<Vec<usize>>, slot: Seq<usize>) -> bool {
    let s = reps.subrange(0, i);
    let l = leaders(s);
    &&& out.len() == l.len()
    &&& slot.len() == reps.len()
    &&& forall|j: int| 0 <= j < out.len() ==> (#[trigger] out[j])@ == class_of(s, l[j])
    &&& forall|j: int| 0 <= j < l.len() ==> 0 <= #[trigger] l[j] < slot.len() && slot[l[j]] == j
    &&& forall|r: int|
        0 <= r < slot.len() ==> (#[trigger] slot[r] == reps.len() || (slot[r] < l.len() && l[slot[r] as int] == r))
}

proof fn lemma_class_absent(s: Seq<int>, r: int)
    requires
        !s.contains(r),
    ensures
        class_of(s, r) == Seq::<usize>::empty(),
    decreases s.len(),
{
    if s.len() > 0 {
        assert(s[s.len() - 1] != r);
        assert forall|j: int| 0 <= j < s.drop_last().len() implies s.drop_last()[j] != r by {
            assert(s[j] != r);
        }
        lemma_class_absent(s.drop_last(), r);
    }
}

proof fn lemma_group_new(
    reps: Seq<int>,
    i: int,
    out0: Seq<Vec<usize>>,
    slot0: Seq<usize>,
    out: Seq<Vec<usize>>,
    slot: Seq<usize>,
)
    requires
        0 <= i < reps.len() <= u32::MAX,
        grouped(reps, i, out0, slot0),
        0 <= reps[i] < reps.len(),
        slot0[reps[i]] == reps.len(),
        out.len() == out0.len() + 1,
        out.drop_last() == out0,
        out.last()@ == seq![i as usize],
        slot == slot0.update(reps[i], out0.len() as usize),
        out0.len() <= i,
    ensures
        grouped(reps, i + 1, out, slot),
{
    let s0 = reps.subrange(0, i);
    let s = reps.subrange(0, i + 1);
    assert(s.drop_last() =~= s0);
    let l0 = leaders(s0);
    let l = leaders(s);
    let r = reps[i];
    lemma_leaders(s0);
    assert(!l0.contains(r)) by {
        if l0.contains(r) {
            let w = choose|w: int| 0 <= w < l0.len() && l0[w] == r;
            assert(slot0[l0[w]] == w);
        }
    }
    assert(l == l0.push(r));
    assert(!s0.contains(r)) by {
        if s0.contains(r) {
            let w = choose|w: int| 0 <= w < s0.len() && s0[w] == r;
            assert(l0.contains(s0[w]));
        }
    }
    lemma_class_absent(s0, r);
    assert forall|j: int| 0 <= j < out.len() implies (#[trigger] out[j])@ == class_of(s, l[j]) by {
        if j < out0.len() {
            assert(out[j] == out.drop_last()[j]);
            assert(l[j] == l0[j]);
            assert(l0.contains(l0[j]));
            assert(l0[j] != r);
        } else {
            assert(out[j] == out.last());
            assert(out[j]@ =~= class_of(s, r));
        }
    }
    assert forall|j: int| 0 <= j < l.len() implies 0 <= #[trigger] l[j] < slot.len() && slot[l[j]] == j by {
        if j < l0.len() {
            assert(l[j] == l0[j]);
            assert(slot0[l0[j]] == j);
        }
    }
}

proof fn lemma_group_more(
    reps: Seq<int>,
    i: int,
    out0: Seq<Vec<usize>>,
    slot: Seq<usize>,
    out: Seq<Vec<usize>>,
    at: int,
)
    requires
        0 <= i < reps.len() <= u32::MAX,
        grouped(reps, i, out0, slot),
        0 <= reps[i] < reps.len(),
        slot[reps[i]] == at,
        at < reps.len(),
        at < out0.len(),
        out.len() == out0.len(),
        forall|j: int| 0 <= j < out.len() && j != at ==> out[j] == out0[j],
        out[at]@ == out0[at]@.push(i as usize),
    ensures
        grouped(reps, i + 1, out, slot),
{
    let s0 = reps.subrange(0, i);
    let s = reps.subrange(0, i + 1);
    assert(s.drop_last() =~= s0);
    let l0 = leaders(s0);
    let r = reps[i];
    assert(l0[at] == r);
    assert(l0.contains(r));
    assert(leaders(s) == l0);
    assert forall|j: int| 0 <= j < out.len() implies (#[trigger] out[j])@ == class_of(s, l0[j]) by {
        if j != at {
            assert(l0[j] != r) by {
                assert(slot[l0[j]] == j);
            }
            assert(out[j] == out0[j]);
        } else {
            assert(out0[at]@ == class_of(s0, r));
        }
    }
}

} // verus!
