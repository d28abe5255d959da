//! An augmented interval tree over `i64` ranges.
//!
//! Zone-map pruning and range-predicate planning need to ask "which stored
//! ranges overlap this query range?" quickly. An interval tree — a balanced
//! binary search tree keyed by interval start, with each node augmented by the
//! maximum endpoint in its subtree — answers overlap queries in output-sensitive
//! time by pruning subtrees whose max endpoint is below the query. This
//! implementation keeps the tree as a flat node vector and builds it balanced
//! from the sorted intervals, which suits the build-once/query-many access
//! pattern of zone maps.

use crate::sort;
use crate::sort::Ranked;
use vstd::prelude::*;

verus! {

/// A closed interval `[lo, hi]` carrying a payload id.
#[derive(Debug, Clone, Copy, PartialEq, Eq, Structural)]
pub struct Interval {
    pub lo: i64,
    pub hi: i64,
    pub id: u32,
}

impl Interval {
    pub open spec fn meets(self, qlo: int, qhi: int) -> bool {
        self.lo <= qhi && qlo <= self.hi
    }

    /// A new interval (endpoints are swapped if given reversed).
    pub fn new(lo: i64, hi: i64, id: u32) -> (r: Interval)
        ensures
            r.id == id,
            r.lo == (if lo <= hi {
                lo
            } else {
                hi
            }),
            r.hi == (if lo <= hi {
                hi
            } else {
                lo
            }),
    {
        if lo <= hi {
            Interval { lo, hi, id }
        } else {
            Interval { lo: hi, hi: lo, id }
        }
    }

    /// `true` if this interval overlaps `[qlo, qhi]`.
    pub fn overlaps(&self, qlo: i64, qhi: i64) -> (r: bool)
        ensures
            r == self.meets(qlo as int, qhi as int),
    {
        self.lo <= qhi && qlo <= self.hi
    }

    /// `true` if `point` lies within.
    pub fn contains(&self, point: i64) -> (r: bool)
        ensures
            r == (self.lo <= point <= self.hi),
    {
        self.lo <= point && point <= self.hi
    }
}

/// By start, then by end.
impl Ranked for Interval {
    open spec fn before(self, other: Self) -> bool {
        self.lo < other.lo || (self.lo == other.lo && self.hi < other.hi)
    }

    proof fn lemma_weak_order(a: Self, b: Self, c: Self) {
    }

    fn is_before(&self, other: &Self) -> (r: bool) {
        self.lo < other.lo || (self.lo == other.lo && self.hi < other.hi)
    }
}

#[derive(Debug, Clone)]
struct TreeNode {
    interval: Interval,
    max_hi: i64,
    left: i32,
    right: i32,
}

const NONE: i32 = -1;

/// An immutable interval tree built from a set of intervals.
#[derive(Clone)]
pub struct IntervalTree {
    nodes: Vec<TreeNode>,
    root: i32,
    sorted: Ghost<Seq<Interval>>,
}

/// The intervals that overlap a query, in order.
pub open spec fn overlapping(s: Seq<Interval>, qlo: int, qhi: int) -> Seq<Interval>
    decreases s.len(),
{
    if s.len() == 0 {
        Seq::empty()
    } else {
        let before = overlapping(s.drop_last(), qlo, qhi);
        if s.last().meets(qlo, qhi) {
            before.push(s.last())
        } else {
            before
        }
    }
}

/// The node `at` heads a balanced tree of the intervals from `lo` to `hi`.
spec fn spans(nodes: Seq<TreeNode>, at: i32, s: Seq<Interval>, lo: int, hi: int) -> bool
    decreases hi - lo,
{
    if lo >= hi {
        at == NONE
    } else {
        let mid = lo + (hi - lo) / 2;
        let n = nodes[at as int];
        &&& 0 <= at < nodes.len()
        &&& n.interval == s[mid]
        &&& forall|i: int| lo <= i < hi ==> (#[trigger] s[i]).hi <= n.max_hi
        &&& exists|i: int| lo <= i < hi && (#[trigger] s[i]).hi == n.max_hi
        &&& spans(nodes, n.left, s, lo, mid)
        &&& spans(nodes, n.right, s, mid + 1, hi)
    }
}

/// Sorted by start.
spec fn by_start(s: Seq<Interval>) -> bool {
    forall|i: int, j: int| 0 <= i < j < s.len() ==> (#[trigger] s[i]).lo <= (#[trigger] s[j]).lo
}

proof fn lemma_spans_kept(a: Seq<TreeNode>, b: Seq<TreeNode>, at: i32, s: Seq<Interval>, lo: int, hi: int, from: int)
    requires
        spans(a, at, s, lo, hi),
        a.len() <= b.len(),
        0 <= from,
        forall|i: int| from <= i < a.len() ==> a[i] == b[i],
        above(a, at, s, lo, hi, from),
    ensures
        spans(b, at, s, lo, hi),
        above(b, at, s, lo, hi, from),
    decreases hi - lo,
{
    if lo < hi {
        let mid = lo + (hi - lo) / 2;
        let n = a[at as int];
        lemma_spans_kept(a, b, n.left, s, lo, mid, from);
        lemma_spans_kept(a, b, n.right, s, mid + 1, hi, from);
    }
}

/// All nodes of a subtree stand at `from` or later.
spec fn above(nodes: Seq<TreeNode>, at: i32, s: Seq<Interval>, lo: int, hi: int, from: int) -> bool
    decreases hi - lo,
{
    if lo >= hi {
        true
    } else {
        let mid = lo + (hi - lo) / 2;
        let n = nodes[at as int];
        &&& from <= at
        &&& above(nodes, n.left, s, lo, mid, from)
        &&& above(nodes, n.right, s, mid + 1, hi, from)
    }
}

proof fn lemma_above_weaken(nodes: Seq<TreeNode>, at: i32, s: Seq<Interval>, lo: int, hi: int, from: int, to: int)
    requires
        above(nodes, at, s, lo, hi, from),
        to <= from,
    ensures
        above(nodes, at, s, lo, hi, to),
    decreases hi - lo,
{
    if lo < hi {
        let mid = lo + (hi - lo) / 2;
        let n = nodes[at as int];
        lemma_above_weaken(nodes, n.left, s, lo, mid, from, to);
        lemma_above_weaken(nodes, n.right, s, mid + 1, hi, from, to);
    }
}

proof fn lemma_overlapping_join(a: Seq<Interval>, b: Seq<Interval>, qlo: int, qhi: int)
    ensures
        overlapping(a + b, qlo, qhi) == overlapping(a, qlo, qhi) + overlapping(b, qlo, qhi),
    decreases b.len(),
{
    if b.len() > 0 {
        lemma_overlapping_join(a, b.drop_last(), qlo, qhi);
        assert((a + b).drop_last() =~= a + b.drop_last());
        assert(overlapping(a + b, qlo, qhi) =~= overlapping(a, qlo, qhi) + overlapping(b, qlo, qhi));
    } else {
        assert(a + b =~= a);
        assert(overlapping(b, qlo, qhi) =~= Seq::<Interval>::empty());
    }
}

proof fn lemma_overlapping_none(s: Seq<Interval>, qlo: int, qhi: int)
    requires
        forall|i: int| 0 <= i < s.len() ==> !(#[trigger] s[i]).meets(qlo, qhi),
    ensures
        overlapping(s, qlo, qhi) == Seq::<Interval>::empty(),
    decreases s.len(),
{
    if s.len() > 0 {
        assert(!s[s.len() - 1].meets(qlo, qhi));
        assert forall|i: int| 0 <= i < s.drop_last().len() implies !(#[trigger] s.drop_last()[i]).meets(qlo, qhi) by {
            assert(!s[i].meets(qlo, qhi));
        }
        lemma_overlapping_none(s.drop_last(), qlo, qhi);
    }
}

/// The overlapping intervals are exactly those listed that overlap.
pub proof fn lemma_overlapping(s: Seq<Interval>, qlo: int, qhi: int)
    ensures
        forall|x: Interval|
            #[trigger] overlapping(s, qlo, qhi).contains(x) <==> s.contains(x) && x.meets(qlo, qhi),
        overlapping(s, qlo, qhi).len() == 0 <==> forall|i: int|
            0 <= i < s.len() ==> !(#[trigger] s[i]).meets(qlo, qhi),
    decreases s.len(),
{
    let r = overlapping(s, qlo, qhi);
    if s.len() > 0 {
        let d = s.drop_last();
        lemma_overlapping(d, qlo, qhi);
        let b = overlapping(d, qlo, qhi);
        assert forall|x: Interval| #[trigger] r.contains(x) <==> s.contains(x) && x.meets(qlo, qhi) by {
            if r.contains(x) {
                let i = choose|i: int| 0 <= i < r.len() && r[i] == x;
                if i < b.len() {
                    assert(b[i] == x);
                    assert(b.contains(x));
                    let k = choose|k: int| 0 <= k < d.len() && d[k] == x;
                    assert(s[k] == x);
                } else {
                    assert(s[s.len() - 1] == x);
                }
            }
            if s.contains(x) && x.meets(qlo, qhi) {
                let k = choose|k: int| 0 <= k < s.len() && s[k] == x;
                if k < d.len() {
                    assert(d[k] == x);
                    assert(b.contains(x));
                    let i = choose|i: int| 0 <= i < b.len() && b[i] == x;
                    assert(r[i] == x);
                } else {
                    assert(r[r.len() - 1] == x);
                }
            }
        }
        assert(r.len() == 0 <==> forall|i: int| 0 <= i < s.len() ==> !(#[trigger] s[i]).meets(qlo, qhi)) by {
            if r.len() == 0 {
                assert(b.len() == 0);
                assert forall|i: int| 0 <= i < s.len() implies !(#[trigger] s[i]).meets(qlo, qhi) by {
                    if i < d.len() {
                        assert(!d[i].meets(qlo, qhi));
                    }
                }
            } else if forall|i: int| 0 <= i < s.len() ==> !(#[trigger] s[i]).meets(qlo, qhi) {
                lemma_overlapping_none(s, qlo, qhi);
            }
        }
    }
}

impl Default for IntervalTree {
    fn default() -> (r: IntervalTree)
        ensures
            r.wf(),
            r@ == Seq::<Interval>::empty(),
    {
        IntervalTree { nodes: Vec::new(), root: NONE, sorted: Ghost(Seq::empty()) }
    }
}

/// The overlapping intervals, as often as they are listed, in the list's order.
proof fn lemma_overlapping_counts(s: Seq<Interval>, qlo: int, qhi: int)
    requires
        forall|i: int, j: int| 0 <= i < j < s.len() ==> !(#[trigger] s[j]).before(#[trigger] s[i]),
    ensures
        forall|x: Interval|
            #[trigger] overlapping(s, qlo, qhi).to_multiset().count(x) == (if x.meets(qlo, qhi) {
                s.to_multiset().count(x)
            } else {
                0
            }),
        forall|i: int, j: int|
            0 <= i < j < overlapping(s, qlo, qhi).len() ==> !(#[trigger] overlapping(s, qlo, qhi)[j]).before(
                #[trigger] overlapping(s, qlo, qhi)[i],
            ),
    decreases s.len(),
{
    broadcast use vstd::seq_lib::group_to_multiset_ensures;

    if s.len() > 0 {
        let d = s.drop_last();
        assert forall|i: int, j: int| 0 <= i < j < d.len() implies !(#[trigger] d[j]).before(#[trigger] d[i]) by {
            assert(!s[j].before(s[i]));
        }
        lemma_overlapping_counts(d, qlo, qhi);
        assert(s =~= d.push(s.last()));
        let b = overlapping(d, qlo, qhi);
        let r = overlapping(s, qlo, qhi);
        lemma_overlapping(d, qlo, qhi);
        assert forall|i: int, j: int| 0 <= i < j < r.len() implies !(#[trigger] r[j]).before(#[trigger] r[i]) by {
            if j < b.len() {
                assert(r[i] == b[i] && r[j] == b[j]);
            } else {
                assert(r[i] == b[i]);
                assert(b.contains(r[i]));
                let k = d.index_of(r[i]);
                assert(s[k] == r[i]);
                assert(!s[s.len() - 1].before(s[k]));
            }
        }
    }
}

/// What a query gives of the intervals that a tree was built from: each that
/// overlaps, as often as it was given, and no other, by start and then by end. It
/// gives something if and only if one overlaps.
pub proof fn lemma_query(given: Seq<Interval>, listed: Seq<Interval>, qlo: int, qhi: int)
    requires
        sort::stable_sorted(given, listed),
        given.len() <= i32::MAX,
    ensures
        forall|x: Interval|
            #[trigger] overlapping(listed, qlo, qhi).to_multiset().count(x) == (if x.meets(qlo, qhi) {
                given.to_multiset().count(x)
            } else {
                0
            }),
        forall|i: int, j: int|
            0 <= i < j < overlapping(listed, qlo, qhi).len() ==> !(#[trigger] overlapping(listed, qlo, qhi)[j]).before(
                #[trigger] overlapping(listed, qlo, qhi)[i],
            ),
        overlapping(listed, qlo, qhi).len() > 0 <==> exists|i: int|
            0 <= i < given.len() && (#[trigger] given[i]).meets(qlo, qhi),
        overlapping(listed, qlo, qhi).len() > 0 <==> exists|i: int|
            0 <= i < listed.len() && (#[trigger] listed[i]).meets(qlo, qhi),
{
    sort::lemma_stable_sorted(given, listed);
    sort::lemma_sorted_items(given, listed);
    lemma_overlapping_counts(listed, qlo, qhi);
    lemma_overlapping(listed, qlo, qhi);
    broadcast use vstd::seq_lib::group_to_multiset_ensures;

    if exists|i: int| 0 <= i < given.len() && (#[trigger] given[i]).meets(qlo, qhi) {
        let i = choose|i: int| 0 <= i < given.len() && (#[trigger] given[i]).meets(qlo, qhi);
        assert(given.contains(given[i]));
        assert(listed.to_multiset().count(given[i]) > 0);
        let k = listed.index_of(given[i]);
        assert(listed[k].meets(qlo, qhi));
    }
    if exists|k: int| 0 <= k < listed.len() && (#[trigger] listed[k]).meets(qlo, qhi) {
        let k = choose|k: int| 0 <= k < listed.len() && (#[trigger] listed[k]).meets(qlo, qhi);
        assert(listed.contains(listed[k]));
        assert(given.to_multiset().count(listed[k]) > 0);
        let i = given.index_of(listed[k]);
        assert(given[i].meets(qlo, qhi));
    }
}

impl View for IntervalTree {
    type V = Seq<Interval>;

    /// The intervals in order.
    closed spec fn view(&self) -> Seq<Interval> {
        self.sorted@
    }
}

impl IntervalTree {
    /// The nodes form a balanced search tree of the intervals.
    pub closed spec fn wf(&self) -> bool {
        &&& self.nodes@.len() == self@.len()
        &&& by_start(self@)
        &&& spans(self.nodes@, self.root, self@, 0, self@.len() as int)
    }

    /// Build a balanced tree from the given intervals.
    pub fn build(intervals: Vec<Interval>) -> (r: IntervalTree)
        requires
            intervals@.len() <= i32::MAX,
        ensures
            r.wf(),
            sort::stable_sorted(intervals@, r@),
    {
        let sorted = sort::stable_sort(&intervals);
        proof {
            sort::lemma_stable_sorted(intervals@, sorted@);
            assert forall|i: int, j: int| 0 <= i < j < sorted@.len() implies (#[trigger] sorted@[i]).lo <= (
            #[trigger] sorted@[j]).lo by {
                assert(!sorted@[j].before(sorted@[i]));
            }
        }
        let mut nodes: Vec<TreeNode> = Vec::new();
        let root: i32 = build_range(&mut nodes, &sorted, 0, sorted.len());
        IntervalTree { nodes, root, sorted: Ghost(sorted@) }
    }

    /// Number of stored intervals.
    pub fn len(&self) -> (r: usize)
        requires
            self.wf(),
        ensures
            r == self@.len(),
    {
        self.nodes.len()
    }

    /// `true` if the tree is empty.
    pub fn is_empty(&self) -> (r: bool)
        requires
            self.wf(),
        ensures
            r == (self@.len() == 0),
    {
        self.nodes.len() == 0
    }

    /// Collect all intervals overlapping `[qlo, qhi]`.
    pub fn query_overlapping(&self, qlo: i64, qhi: i64) -> (r: Vec<Interval>)
        requires
            self.wf(),
        ensures
            r@ == overlapping(self@, qlo as int, qhi as int),
    {
        let mut out: Vec<Interval> = Vec::new();
        self.query_node(self.root, qlo, qhi, &mut out, Ghost(0), Ghost(self@.len() as int));
        proof {
            assert(self@.subrange(0, self@.len() as int) =~= self@);
            assert(Seq::<Interval>::empty() + overlapping(self@, qlo as int, qhi as int) =~= overlapping(
                self@,
                qlo as int,
                qhi as int,
            ));
        }
        out
    }

    fn query_node(
        &self,
        node: i32,
        qlo: i64,
        qhi: i64,
        out: &mut Vec<Interval>,
        Ghost(lo): Ghost<int>,
        Ghost(hi): Ghost<int>,
    )
        requires
            0 <= lo <= hi <= self@.len(),
            by_start(self@),
            spans(self.nodes@, node, self@, lo, hi),
        ensures
            final(out)@ == old(out)@ + overlapping(self@.subrange(lo, hi), qlo as int, qhi as int),
        decreases hi - lo,
    {
        let ghost s = self@.subrange(lo, hi);
        let ghost a = qlo as int;
        let ghost b = qhi as int;
        if node == NONE {
            assert(s =~= Seq::<Interval>::empty());
            assert(out@ =~= old(out)@ + overlapping(s, a, b));
            return;
        }
        let n: &TreeNode = &self.nodes[node as usize];
        let ghost mid = lo + (hi - lo) / 2;
        if n.max_hi < qlo {
            proof {
                assert forall|i: int| 0 <= i < s.len() implies !(#[trigger] s[i]).meets(a, b) by {
                    assert(s[i] == self@[lo + i]);
                }
                lemma_overlapping_none(s, a, b);
                assert(out@ =~= old(out)@ + overlapping(s, a, b));
            }
            return;
        }
        let ghost left = self@.subrange(lo, mid);
        let ghost here = seq![self@[mid]];
        let ghost right = self@.subrange(mid + 1, hi);
        proof {
            assert(s =~= left + here + right);
            lemma_overlapping_join(left + here, right, a, b);
            lemma_overlapping_join(left, here, a, b);
            assert(here.drop_last() =~= Seq::<Interval>::empty());
            assert(overlapping(here.drop_last(), a, b) =~= Seq::<Interval>::empty());
        }
        self.query_node(n.left, qlo, qhi, out, Ghost(lo), Ghost(mid));
        if n.interval.overlaps(qlo, qhi) {
            out.push(n.interval);
        }
        assert(out@ =~= old(out)@ + overlapping(left + here, a, b));
        if n.interval.lo <= qhi {
            self.query_node(n.right, qlo, qhi, out, Ghost(mid + 1), Ghost(hi));
        } else {
            proof {
                assert forall|i: int| 0 <= i < right.len() implies !(#[trigger] right[i]).meets(a, b) by {
                    assert(right[i] == self@[mid + 1 + i]);
                    assert(self@[mid].lo <= self@[mid + 1 + i].lo);
                }
                lemma_overlapping_none(right, a, b);
            }
        }
        assert(out@ =~= old(out)@ + overlapping(s, a, b));
    }

    /// Collect all intervals containing `point`.
    pub fn query_point(&self, point: i64) -> (r: Vec<Interval>)
        requires
            self.wf(),
        ensures
            r@ == overlapping(self@, point as int, point as int),
    {
        self.query_overlapping(point, point)
    }

    /// `true` if any stored interval overlaps `[qlo, qhi]`.
    pub fn any_overlap(&self, qlo: i64, qhi: i64) -> (r: bool)
        requires
            self.wf(),
        ensures
            r == exists|i: int| 0 <= i < self@.len() && (#[trigger] self@[i]).meets(qlo as int, qhi as int),
    {
        self.stab(self.root, qlo, qhi, Ghost(0), Ghost(self@.len() as int))
    }

    fn stab(&self, node: i32, qlo: i64, qhi: i64, Ghost(lo): Ghost<int>, Ghost(hi): Ghost<int>) -> (r: bool)
        requires
            0 <= lo <= hi <= self@.len(),
            by_start(self@),
            spans(self.nodes@, node, self@, lo, hi),
        ensures
            r == exists|i: int| lo <= i < hi && (#[trigger] self@[i]).meets(qlo as int, qhi as int),
        decreases hi - lo,
    {
        if node == NONE {
            return false;
        }
        let n: &TreeNode = &self.nodes[node as usize];
        let ghost mid = lo + (hi - lo) / 2;
        if n.max_hi < qlo {
            return false;
        }
        if n.interval.overlaps(qlo, qhi) {
            assert(self@[mid].meets(qlo as int, qhi as int));
            return true;
        }
        if self.stab(n.left, qlo, qhi, Ghost(lo), Ghost(mid)) {
            return true;
        }
        if n.interval.lo <= qhi {
            return self.stab(n.right, qlo, qhi, Ghost(mid + 1), Ghost(hi));
        }
        proof {
            assert forall|i: int| lo <= i < hi implies !(#[trigger] self@[i]).meets(qlo as int, qhi as int) by {
                if i > mid {
                    assert(self@[mid].lo <= self@[i].lo);
                }
            }
        }
        false
    }
}

fn build_range(nodes: &mut Vec<TreeNode>, sorted: &Vec<Interval>, lo: usize, hi: usize) -> (r: i32)
    requires
        lo <= hi <= sorted@.len() <= i32::MAX,
        old(nodes)@.len() + (hi - lo) <= sorted@.len(),
    ensures
        final(nodes)@.len() == old(nodes)@.len() + (hi - lo),
        forall|i: int| 0 <= i < old(nodes)@.len() ==> final(nodes)@[i] == old(nodes)@[i],
        spans(final(nodes)@, r, sorted@, lo as int, hi as int),
        above(final(nodes)@, r, sorted@, lo as int, hi as int, old(nodes)@.len() as int),
    decreases hi - lo,
{
    if lo >= hi {
        return NONE;
    }
    let ghost start = nodes@.len() as int;
    let ghost s = sorted@;
    let mid: usize = lo + (hi - lo) / 2;
    let at: usize = nodes.len();
    nodes.push(TreeNode { interval: sorted[mid], max_hi: sorted[mid].hi, left: NONE, right: NONE });
    let left: i32 = build_range(nodes, sorted, lo, mid);
    let ghost one = nodes@;
    let right: i32 = build_range(nodes, sorted, mid + 1, hi);
    let ghost two = nodes@;
    proof {
        lemma_spans_kept(one, two, left, s, lo as int, mid as int, start + 1);
    }
    let mut max_hi: i64 = sorted[mid].hi;
    let ghost mut top: int = mid as int;
    if left != NONE {
        let h: i64 = nodes[left as usize].max_hi;
        if h > max_hi {
            max_hi = h;
            proof {
                top = choose|i: int| lo <= i < mid && (#[trigger] s[i]).hi == h;
            }
        }
    }
    if right != NONE {
        let h: i64 = nodes[right as usize].max_hi;
        if h > max_hi {
            max_hi = h;
            proof {
                top = choose|i: int| mid + 1 <= i < hi && (#[trigger] s[i]).hi == h;
            }
        }
    }
    nodes.set(at, TreeNode { interval: sorted[mid], max_hi, left, right });
    proof {
        let three = nodes@;
        lemma_above_weaken(two, right, s, mid + 1, hi as int, one.len() as int, start + 1);
        lemma_spans_kept(two, three, left, s, lo as int, mid as int, start + 1);
        lemma_spans_kept(two, three, right, s, mid + 1, hi as int, start + 1);
        lemma_above_weaken(three, left, s, lo as int, mid as int, start + 1, start);
        lemma_above_weaken(three, right, s, mid + 1, hi as int, start + 1, start);
        assert(s[top].hi == max_hi);
        assert forall|i: int| lo <= i < hi implies (#[trigger] s[i]).hi <= max_hi by {
            if i < mid {
                assert(s[i].hi <= two[left as int].max_hi);
            } else if i > mid {
                assert(s[i].hi <= two[right as int].max_hi);
            }
        }
        assert(spans(three, at as i32, s, lo as int, hi as int));
    }
    at as i32
}

/// A point lies from `lo` to `hi`.
pub open spec fn lies(lo: int, hi: int, p: int) -> bool {
    lo <= p <= hi
}

/// An interval meets another one where some point lies in both, ends included.
pub proof fn lemma_meets(x: Interval, qlo: int, qhi: int)
    requires
        x.lo <= x.hi,
        qlo <= qhi,
    ensures
        x.meets(qlo, qhi) <==> exists|p: int| #[trigger] lies(x.lo as int, x.hi as int, p) && lies(qlo, qhi, p),
{
    if x.meets(qlo, qhi) {
        let p: int = if x.lo <= qlo {
            qlo
        } else {
            x.lo as int
        };
        assert(lies(x.lo as int, x.hi as int, p) && lies(qlo, qhi, p));
    }
}

} // verus!
