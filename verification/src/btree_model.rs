//! The mathematical model of the paged B+tree.
//!
//! A tree is a map from page ids to nodes together with a root id and a height.
//! Its contents are the entries of its leaves in order; this module says when a
//! page map is a well-formed tree and how the contents change.

use vstd::prelude::*;

verus! {

/// The fan-out target: a node holds up to this many keys before splitting.
pub const FANOUT: usize = 8;

/// A key and its row ids.
pub type EntryModel = (i64, Seq<u64>);

/// A node without its id.
pub enum NodeModel {
    Leaf { entries: Seq<EntryModel>, next: Option<u32> },
    Internal { keys: Seq<i64>, children: Seq<u32> },
}

/// A page map.
pub type PageMap = Map<u32, NodeModel>;

/// The child page ids of a node.
pub open spec fn kids(p: PageMap, id: u32) -> Seq<u32> {
    match p[id] {
        NodeModel::Internal { keys, children } => children,
        NodeModel::Leaf { entries, next } => Seq::empty(),
    }
}

/// The entries of a leaf.
pub open spec fn leaf_entries(p: PageMap, id: u32) -> Seq<EntryModel> {
    match p[id] {
        NodeModel::Leaf { entries, next } => entries,
        NodeModel::Internal { keys, children } => Seq::empty(),
    }
}

/// The next-leaf pointer of a leaf.
pub open spec fn leaf_next(p: PageMap, id: u32) -> Option<u32> {
    match p[id] {
        NodeModel::Leaf { entries, next } => next,
        NodeModel::Internal { keys, children } => None,
    }
}

/// The leaves below a node of height `h` (0 for a leaf), from left to right.
pub open spec fn leaf_ids(p: PageMap, id: u32, h: nat) -> Seq<u32>
    decreases h, 0nat,
{
    if h == 0 {
        seq![id]
    } else {
        leaf_list(p, kids(p, id), (h - 1) as nat)
    }
}

/// The leaves below a list of nodes of height `h`.
pub open spec fn leaf_list(p: PageMap, cs: Seq<u32>, h: nat) -> Seq<u32>
    decreases h, cs.len() + 1,
{
    if cs.len() == 0 {
        Seq::empty()
    } else {
        leaf_list(p, cs.drop_last(), h) + leaf_ids(p, cs.last(), h)
    }
}

/// The pages of the subtree below a node of height `h`.
pub open spec fn pages(p: PageMap, id: u32, h: nat) -> Set<u32>
    decreases h, 0nat,
{
    if h == 0 {
        Set::empty().insert(id)
    } else {
        page_list(p, kids(p, id), (h - 1) as nat).insert(id)
    }
}

/// The pages of the subtrees below a list of nodes of height `h`.
pub open spec fn page_list(p: PageMap, cs: Seq<u32>, h: nat) -> Set<u32>
    decreases h, cs.len() + 1,
{
    if cs.len() == 0 {
        Set::empty()
    } else {
        page_list(p, cs.drop_last(), h).union(pages(p, cs.last(), h))
    }
}

/// The entries of a list of leaves.
pub open spec fn entries_of(p: PageMap, ls: Seq<u32>) -> Seq<EntryModel>
    decreases ls.len(),
{
    if ls.len() == 0 {
        Seq::empty()
    } else {
        entries_of(p, ls.drop_last()) + leaf_entries(p, ls.last())
    }
}

/// The leaves are linked by their next pointers, and the last one points to
/// `end`.
pub open spec fn chain(p: PageMap, ls: Seq<u32>, end: Option<u32>) -> bool {
    forall|i: int|
        0 <= i < ls.len() ==> #[trigger] leaf_next(p, ls[i]) == (if i + 1 < ls.len() {
            Some(ls[i + 1])
        } else {
            end
        })
}

/// Keys strictly increasing and within `[lo, hi)`; rows present and distinct.
pub open spec fn entries_ok(s: Seq<EntryModel>, lo: int, hi: int) -> bool {
    &&& forall|i: int, j: int| 0 <= i < j < s.len() ==> s[i].0 < s[j].0
    &&& forall|i: int| 0 <= i < s.len() ==> lo <= (#[trigger] s[i]).0 < hi
    &&& forall|i: int| 0 <= i < s.len() ==> (#[trigger] s[i]).1.len() > 0 && s[i].1.no_duplicates()
}

/// The lower key bound of child `i`; that of child `i + 1` is its upper bound.
pub open spec fn bound(keys: Seq<i64>, lo: int, hi: int, i: int) -> int {
    if i <= 0 {
        lo
    } else if i <= keys.len() {
        keys[i - 1] as int
    } else {
        hi
    }
}

/// Separator keys strictly increasing and strictly within the bounds.
pub open spec fn keys_ok(keys: Seq<i64>, lo: int, hi: int) -> bool {
    &&& forall|i: int, j: int| 0 <= i < j < keys.len() ==> keys[i] < keys[j]
    &&& forall|i: int| 0 <= i < keys.len() ==> lo < #[trigger] keys[i] < hi
    &&& lo < hi
}

/// The children of an internal node are well-formed, lie between its separator
/// keys, share no page, and none of them holds the page `id`.
pub open spec fn internal_ok(
    p: PageMap,
    id: u32,
    keys: Seq<i64>,
    children: Seq<u32>,
    h: nat,
    lo: int,
    hi: int,
) -> bool
    decreases h, 1nat,
{
    &&& h > 0
    &&& children.len() == keys.len() + 1
    &&& keys_ok(keys, lo, hi)
    &&& forall|i: int|
        0 <= i < children.len() ==> wf(
            p,
            #[trigger] children[i],
            (h - 1) as nat,
            bound(keys, lo, hi, i),
            bound(keys, lo, hi, i + 1),
        )
    &&& forall|i: int| 0 <= i < children.len() ==> !pages(p, #[trigger] children[i], (h - 1) as nat).contains(id)
    &&& forall|i: int, j: int|
        0 <= i < j < children.len() ==> pages(p, #[trigger] children[i], (h - 1) as nat).disjoint(
            pages(p, #[trigger] children[j], (h - 1) as nat),
        )
}

/// The page `id` is the root of a well-formed subtree of height `h` with keys
/// in `[lo, hi)`.
pub open spec fn wf(p: PageMap, id: u32, h: nat, lo: int, hi: int) -> bool
    decreases h, 2nat,
{
    &&& p.contains_key(id)
    &&& match p[id] {
        NodeModel::Leaf { entries, next } => h == 0 && lo < hi && entries.len() <= FANOUT && entries_ok(
            entries,
            lo,
            hi,
        ),
        NodeModel::Internal { keys, children } => h > 0 && keys.len() <= FANOUT && internal_ok(
            p,
            id,
            keys,
            children,
            h,
            lo,
            hi,
        ),
    }
}


/// The entries below a node.
pub open spec fn contents(p: PageMap, id: u32, h: nat) -> Seq<EntryModel> {
    entries_of(p, leaf_ids(p, id, h))
}

/// Two page maps agree on a set of pages.
pub open spec fn agree(p: PageMap, q: PageMap, d: Set<u32>) -> bool {
    forall|x: u32| #[trigger] d.contains(x) ==> p.contains_key(x) && q.contains_key(x) && p[x] == q[x]
}

pub proof fn lemma_page_list(p: PageMap, cs: Seq<u32>, h: nat, x: u32)
    ensures
        page_list(p, cs, h).contains(x) <==> exists|i: int|
            0 <= i < cs.len() && pages(p, #[trigger] cs[i], h).contains(x),
    decreases cs.len(),
{
    if cs.len() > 0 {
        let d = cs.drop_last();
        lemma_page_list(p, d, h, x);
        if page_list(p, cs, h).contains(x) {
            if pages(p, cs.last(), h).contains(x) {
                assert(pages(p, cs[cs.len() - 1], h).contains(x));
            } else {
                let i = choose|i: int| 0 <= i < d.len() && pages(p, #[trigger] d[i], h).contains(x);
                assert(pages(p, cs[i], h).contains(x));
            }
        }
        if exists|i: int| 0 <= i < cs.len() && pages(p, #[trigger] cs[i], h).contains(x) {
            let i = choose|i: int| 0 <= i < cs.len() && pages(p, #[trigger] cs[i], h).contains(x);
            if i < d.len() {
                assert(pages(p, d[i], h).contains(x));
            }
        }
    }
}

/// The pages of a child belong to the pages of the node.
pub proof fn lemma_child_pages(p: PageMap, id: u32, h: nat, i: int)
    requires
        h > 0,
        0 <= i < kids(p, id).len(),
    ensures
        pages(p, kids(p, id)[i], (h - 1) as nat).subset_of(pages(p, id, h)),
        pages(p, id, h).contains(id),
{
    let cs = kids(p, id);
    assert forall|x: u32| pages(p, cs[i], (h - 1) as nat).contains(x) implies pages(p, id, h).contains(x) by {
        lemma_page_list(p, cs, (h - 1) as nat, x);
    }
}

proof fn lemma_list_congruence(p: PageMap, q: PageMap, cs: Seq<u32>, h: nat)
    requires
        forall|i: int| 0 <= i < cs.len() ==> leaf_ids(p, #[trigger] cs[i], h) == leaf_ids(q, cs[i], h),
        forall|i: int| 0 <= i < cs.len() ==> pages(p, #[trigger] cs[i], h) == pages(q, cs[i], h),
    ensures
        leaf_list(p, cs, h) == leaf_list(q, cs, h),
        page_list(p, cs, h) == page_list(q, cs, h),
    decreases cs.len(),
{
    if cs.len() > 0 {
        let d = cs.drop_last();
        assert forall|i: int| 0 <= i < d.len() implies leaf_ids(p, #[trigger] d[i], h) == leaf_ids(q, d[i], h)
            && pages(p, d[i], h) == pages(q, d[i], h) by {
            assert(d[i] == cs[i]);
        }
        lemma_list_congruence(p, q, d, h);
        assert(cs.last() == cs[cs.len() - 1]);
    }
}

/// A subtree depends only on its own pages.
pub proof fn lemma_frame(p: PageMap, q: PageMap, id: u32, h: nat, lo: int, hi: int)
    requires
        wf(p, id, h, lo, hi),
        agree(p, q, pages(p, id, h)),
    ensures
        wf(q, id, h, lo, hi),
        leaf_ids(q, id, h) == leaf_ids(p, id, h),
        pages(q, id, h) == pages(p, id, h),
    decreases h,
{
    assert(pages(p, id, h).contains(id));
    if h > 0 {
        let cs = kids(p, id);
        let k = (h - 1) as nat;
        match p[id] {
            NodeModel::Internal { keys, children } => {
                assert(cs == children);
                assert forall|i: int| 0 <= i < cs.len() implies wf(
                    q,
                    #[trigger] cs[i],
                    k,
                    bound(keys, lo, hi, i),
                    bound(keys, lo, hi, i + 1),
                ) && leaf_ids(p, cs[i], k) == leaf_ids(q, cs[i], k) && pages(p, cs[i], k) == pages(q, cs[i], k) by {
                    lemma_child_pages(p, id, h, i);
                    lemma_frame(p, q, cs[i], k, bound(keys, lo, hi, i), bound(keys, lo, hi, i + 1));
                }
                lemma_list_congruence(p, q, cs, k);
                assert(internal_ok(q, id, keys, children, h, lo, hi));
            },
            NodeModel::Leaf { entries, next } => {},
        }
    }
}

/// The children of an internal node stay well-formed where their pages are kept.
pub proof fn lemma_frame_internal(
    p: PageMap,
    q: PageMap,
    id: u32,
    keys: Seq<i64>,
    children: Seq<u32>,
    h: nat,
    lo: int,
    hi: int,
)
    requires
        internal_ok(p, id, keys, children, h, lo, hi),
        agree(p, q, page_list(p, children, (h - 1) as nat)),
    ensures
        internal_ok(q, id, keys, children, h, lo, hi),
        leaf_list(q, children, (h - 1) as nat) == leaf_list(p, children, (h - 1) as nat),
        page_list(q, children, (h - 1) as nat) == page_list(p, children, (h - 1) as nat),
{
    let k = (h - 1) as nat;
    assert forall|i: int| 0 <= i < children.len() implies wf(
        q,
        #[trigger] children[i],
        k,
        bound(keys, lo, hi, i),
        bound(keys, lo, hi, i + 1),
    ) && leaf_ids(p, children[i], k) == leaf_ids(q, children[i], k) && pages(p, children[i], k) == pages(
        q,
        children[i],
        k,
    ) by {
        assert forall|x: u32| #[trigger] pages(p, children[i], k).contains(x) implies page_list(
            p,
            children,
            k,
        ).contains(x) by {
            lemma_page_list(p, children, k, x);
        }
        lemma_frame(p, q, children[i], k, bound(keys, lo, hi, i), bound(keys, lo, hi, i + 1));
    }
    lemma_list_congruence(p, q, children, k);
}

/// Every page of a well-formed subtree is in the page map.
pub proof fn lemma_pages_in_map(p: PageMap, id: u32, h: nat, lo: int, hi: int)
    requires
        wf(p, id, h, lo, hi),
    ensures
        forall|x: u32| #[trigger] pages(p, id, h).contains(x) ==> p.contains_key(x),
    decreases h,
{
    if h > 0 {
        let cs = kids(p, id);
        let k = (h - 1) as nat;
        match p[id] {
            NodeModel::Internal { keys, children } => {
                assert forall|x: u32| #[trigger] pages(p, id, h).contains(x) implies p.contains_key(x) by {
                    if x != id {
                        lemma_page_list(p, cs, k, x);
                        let i = choose|i: int| 0 <= i < cs.len() && pages(p, #[trigger] cs[i], k).contains(x);
                        lemma_pages_in_map(p, cs[i], k, bound(keys, lo, hi, i), bound(keys, lo, hi, i + 1));
                    }
                }
            },
            NodeModel::Leaf { entries, next } => {},
        }
    }
}

pub proof fn lemma_leaf_list_concat(p: PageMap, a: Seq<u32>, b: Seq<u32>, h: nat)
    ensures
        leaf_list(p, a + b, h) == leaf_list(p, a, h) + leaf_list(p, b, h),
    decreases b.len(),
{
    if b.len() == 0 {
        assert(a + b =~= a);
        assert(leaf_list(p, a, h) + leaf_list(p, b, h) =~= leaf_list(p, a, h));
    } else {
        assert((a + b).drop_last() =~= a + b.drop_last());
        assert((a + b).last() == b.last());
        lemma_leaf_list_concat(p, a, b.drop_last(), h);
        assert(leaf_list(p, a + b, h) =~= leaf_list(p, a, h) + leaf_list(p, b, h));
    }
}

pub proof fn lemma_leaf_list_one(p: PageMap, c: u32, h: nat)
    ensures
        leaf_list(p, seq![c], h) == leaf_ids(p, c, h),
{
    assert(seq![c].drop_last() =~= Seq::<u32>::empty());
    assert(leaf_list(p, Seq::<u32>::empty(), h) =~= Seq::<u32>::empty());
    assert(leaf_list(p, seq![c], h) =~= leaf_ids(p, c, h));
}

/// The leaves of a list of nodes, around one of them.
pub proof fn lemma_leaf_list_around(p: PageMap, cs: Seq<u32>, h: nat, i: int)
    requires
        0 <= i < cs.len(),
    ensures
        leaf_list(p, cs, h) == leaf_list(p, cs.subrange(0, i), h) + leaf_ids(p, cs[i], h) + leaf_list(
            p,
            cs.subrange(i + 1, cs.len() as int),
            h,
        ),
{
    let a = cs.subrange(0, i);
    let b = cs.subrange(i + 1, cs.len() as int);
    assert(cs =~= a + seq![cs[i]] + b);
    lemma_leaf_list_concat(p, a + seq![cs[i]], b, h);
    lemma_leaf_list_concat(p, a, seq![cs[i]], h);
    lemma_leaf_list_one(p, cs[i], h);
}

pub proof fn lemma_entries_concat(p: PageMap, a: Seq<u32>, b: Seq<u32>)
    ensures
        entries_of(p, a + b) == entries_of(p, a) + entries_of(p, b),
    decreases b.len(),
{
    if b.len() == 0 {
        assert(a + b =~= a);
        assert(entries_of(p, a) + entries_of(p, b) =~= entries_of(p, a));
    } else {
        assert((a + b).drop_last() =~= a + b.drop_last());
        assert((a + b).last() == b.last());
        lemma_entries_concat(p, a, b.drop_last());
        assert(entries_of(p, a + b) =~= entries_of(p, a) + entries_of(p, b));
    }
}

pub proof fn lemma_entries_one(p: PageMap, l: u32)
    ensures
        entries_of(p, seq![l]) == leaf_entries(p, l),
{
    assert(seq![l].drop_last() =~= Seq::<u32>::empty());
    assert(entries_of(p, Seq::<u32>::empty()) =~= Seq::<EntryModel>::empty());
    assert(entries_of(p, seq![l]) =~= leaf_entries(p, l));
}

pub proof fn lemma_entries_frame(p: PageMap, q: PageMap, ls: Seq<u32>)
    requires
        forall|i: int| 0 <= i < ls.len() ==> p[#[trigger] ls[i]] == q[ls[i]],
    ensures
        entries_of(p, ls) == entries_of(q, ls),
    decreases ls.len(),
{
    if ls.len() > 0 {
        let d = ls.drop_last();
        assert forall|i: int| 0 <= i < d.len() implies p[#[trigger] d[i]] == q[d[i]] by {
            assert(d[i] == ls[i]);
        }
        lemma_entries_frame(p, q, d);
        assert(ls.last() == ls[ls.len() - 1]);
    }
}

/// The leaves of a well-formed subtree are leaf pages of it, and there is at
/// least one.
pub proof fn lemma_leaves(p: PageMap, id: u32, h: nat, lo: int, hi: int)
    requires
        wf(p, id, h, lo, hi),
    ensures
        leaf_ids(p, id, h).len() > 0,
        forall|i: int|
            0 <= i < leaf_ids(p, id, h).len() ==> pages(p, id, h).contains(#[trigger] leaf_ids(p, id, h)[i])
                && p[leaf_ids(p, id, h)[i]] is Leaf,
    decreases h,
{
    if h > 0 {
        let cs = kids(p, id);
        match p[id] {
            NodeModel::Internal { keys, children } => {
                lemma_leaves_list(p, keys, children, h, lo, hi, 0, children.len() as int, id);
                assert(cs.subrange(0, cs.len() as int) =~= cs);
                assert forall|i: int| 0 <= i < leaf_ids(p, id, h).len() implies pages(p, id, h).contains(
                    #[trigger] leaf_ids(p, id, h)[i],
                ) && p[leaf_ids(p, id, h)[i]] is Leaf by {
                    let l = leaf_list(p, cs, (h - 1) as nat);
                    assert(l == leaf_ids(p, id, h));
                    assert(page_list(p, cs, (h - 1) as nat).contains(l[i]));
                }
            },
            NodeModel::Leaf { entries, next } => {},
        }
    }
}

/// The leaves of a run of children are leaf pages of that run.
pub proof fn lemma_leaves_list(
    p: PageMap,
    keys: Seq<i64>,
    cs: Seq<u32>,
    h: nat,
    lo: int,
    hi: int,
    m: int,
    n: int,
    id: u32,
)
    requires
        internal_ok(p, id, keys, cs, h, lo, hi),
        0 <= m <= n <= cs.len(),
    ensures
        m < n ==> leaf_list(p, cs.subrange(m, n), (h - 1) as nat).len() > 0,
        forall|i: int|
            0 <= i < leaf_list(p, cs.subrange(m, n), (h - 1) as nat).len() ==> page_list(
                p,
                cs.subrange(m, n),
                (h - 1) as nat,
            ).contains(#[trigger] leaf_list(p, cs.subrange(m, n), (h - 1) as nat)[i]) && p[leaf_list(
                p,
                cs.subrange(m, n),
                (h - 1) as nat,
            )[i]] is Leaf,
    decreases h, n - m,
{
    let k = (h - 1) as nat;
    if m < n {
        let a = cs.subrange(m, n);
        assert(a.drop_last() =~= cs.subrange(m, n - 1));
        assert(a.last() == cs[n - 1]);
        lemma_leaves_list(p, keys, cs, h, lo, hi, m, n - 1, id);
        lemma_leaves(p, cs[n - 1], k, bound(keys, lo, hi, n - 1), bound(keys, lo, hi, n));
        let l0 = leaf_list(p, a.drop_last(), k);
        let l1 = leaf_ids(p, cs[n - 1], k);
        let l = leaf_list(p, a, k);
        assert(l == l0 + l1);
        assert forall|i: int| 0 <= i < l.len() implies page_list(p, a, k).contains(#[trigger] l[i])
            && p[l[i]] is Leaf by {
            if i < l0.len() {
                assert(l[i] == l0[i]);
            } else {
                assert(l[i] == l1[i - l0.len()]);
            }
        }
    }
}

/// Ordered contents stay ordered when joined at a bound.
pub proof fn lemma_entries_ok_join(a: Seq<EntryModel>, b: Seq<EntryModel>, lo: int, mid: int, hi: int)
    requires
        entries_ok(a, lo, mid),
        entries_ok(b, mid, hi),
        lo <= mid <= hi,
    ensures
        entries_ok(a + b, lo, hi),
{
    let s = a + b;
    assert forall|i: int| 0 <= i < s.len() implies lo <= (#[trigger] s[i]).0 < hi && s[i].1.len() > 0
        && s[i].1.no_duplicates() by {
        if i < a.len() {
            assert(s[i] == a[i]);
        } else {
            assert(s[i] == b[i - a.len()]);
        }
    }
    assert forall|i: int, j: int| 0 <= i < j < s.len() implies s[i].0 < s[j].0 by {
        if j < a.len() {
            assert(s[i] == a[i] && s[j] == a[j]);
        } else if i >= a.len() {
            assert(s[i] == b[i - a.len()] && s[j] == b[j - a.len()]);
        } else {
            assert(s[i] == a[i] && s[j] == b[j - a.len()]);
        }
    }
}

/// The contents of a well-formed subtree are ordered and within its bounds.
pub proof fn lemma_contents_ok(p: PageMap, id: u32, h: nat, lo: int, hi: int)
    requires
        wf(p, id, h, lo, hi),
    ensures
        entries_ok(contents(p, id, h), lo, hi),
        lo < hi,
    decreases h,
{
    if h == 0 {
        lemma_entries_one(p, id);
    } else {
        match p[id] {
            NodeModel::Internal { keys, children } => {
                lemma_list_ok(p, id, keys, children, h, lo, hi, 0, children.len() as int);
                assert(children.subrange(0, children.len() as int) =~= children);
            },
            NodeModel::Leaf { entries, next } => {},
        }
    }
}

/// The contents of a run of children are ordered and within the run's bounds.
pub proof fn lemma_list_ok(
    p: PageMap,
    id: u32,
    keys: Seq<i64>,
    cs: Seq<u32>,
    h: nat,
    lo: int,
    hi: int,
    m: int,
    n: int,
)
    requires
        internal_ok(p, id, keys, cs, h, lo, hi),
        0 <= m <= n <= cs.len(),
    ensures
        entries_ok(
            entries_of(p, leaf_list(p, cs.subrange(m, n), (h - 1) as nat)),
            bound(keys, lo, hi, m),
            bound(keys, lo, hi, n),
        ),
        bound(keys, lo, hi, m) <= bound(keys, lo, hi, n),
    decreases h, n - m,
{
    let k = (h - 1) as nat;
    if m < n {
        let a = cs.subrange(m, n);
        assert(a.drop_last() =~= cs.subrange(m, n - 1));
        assert(a.last() == cs[n - 1]);
        lemma_list_ok(p, id, keys, cs, h, lo, hi, m, n - 1);
        lemma_contents_ok(p, cs[n - 1], k, bound(keys, lo, hi, n - 1), bound(keys, lo, hi, n));
        lemma_entries_concat(p, leaf_list(p, a.drop_last(), k), leaf_ids(p, cs[n - 1], k));
        lemma_entries_ok_join(
            entries_of(p, leaf_list(p, a.drop_last(), k)),
            contents(p, cs[n - 1], k),
            bound(keys, lo, hi, m),
            bound(keys, lo, hi, n - 1),
            bound(keys, lo, hi, n),
        );
    } else {
        assert(leaf_list(p, cs.subrange(m, n), k) =~= Seq::<u32>::empty());
        assert(entries_of(p, Seq::<u32>::empty()) =~= Seq::<EntryModel>::empty());
    }
}

// Entries by key

/// The number of leading entries with a key below `key`.
pub open spec fn rank(s: Seq<EntryModel>, key: i64) -> nat
    decreases s.len(),
{
    if s.len() == 0 || s[0].0 >= key {
        0
    } else {
        1 + rank(s.drop_first(), key)
    }
}

/// The rows of a key (none when it is absent).
pub open spec fn rows_at(s: Seq<EntryModel>, key: i64) -> Seq<u64> {
    let p = rank(s, key) as int;
    if p < s.len() && s[p].0 == key {
        s[p].1
    } else {
        Seq::empty()
    }
}

/// The rows with one row added, if it is not there yet.
pub open spec fn with_row(rows: Seq<u64>, row: u64) -> Seq<u64> {
    if rows.contains(row) {
        rows
    } else {
        rows.push(row)
    }
}

/// The entries with a row added to a key.
pub open spec fn with_entry(s: Seq<EntryModel>, key: i64, row: u64) -> Seq<EntryModel> {
    let p = rank(s, key) as int;
    if p < s.len() && s[p].0 == key {
        s.update(p, (key, with_row(s[p].1, row)))
    } else {
        s.insert(p, (key, seq![row]))
    }
}

/// The rows without one row.
pub open spec fn without_row(rows: Seq<u64>, row: u64) -> Seq<u64>
    decreases rows.len(),
{
    if rows.len() == 0 {
        rows
    } else if rows.last() == row {
        without_row(rows.drop_last(), row)
    } else {
        without_row(rows.drop_last(), row).push(rows.last())
    }
}

/// The entries with a row removed from a key; a key without rows goes away.
pub open spec fn without_entry(s: Seq<EntryModel>, key: i64, row: u64) -> Seq<EntryModel> {
    let p = rank(s, key) as int;
    if p < s.len() && s[p].0 == key {
        let rest = without_row(s[p].1, row);
        if rest.len() == 0 {
            s.remove(p)
        } else {
            s.update(p, (key, rest))
        }
    } else {
        s
    }
}

pub proof fn lemma_rank(s: Seq<EntryModel>, key: i64)
    ensures
        rank(s, key) <= s.len(),
        forall|i: int| 0 <= i < rank(s, key) ==> (#[trigger] s[i]).0 < key,
        rank(s, key) < s.len() ==> s[rank(s, key) as int].0 >= key,
    decreases s.len(),
{
    if s.len() > 0 && s[0].0 < key {
        let t = s.drop_first();
        lemma_rank(t, key);
        assert forall|i: int| 0 <= i < rank(s, key) implies (#[trigger] s[i]).0 < key by {
            if i > 0 {
                assert(s[i] == t[i - 1]);
            }
        }
        if rank(s, key) < s.len() {
            assert(s[rank(s, key) as int] == t[rank(t, key) as int]);
        }
    }
}

/// A position with smaller keys before it and none after is the rank.
pub proof fn lemma_rank_unique(s: Seq<EntryModel>, key: i64, p: int)
    requires
        0 <= p <= s.len(),
        forall|i: int| 0 <= i < p ==> (#[trigger] s[i]).0 < key,
        p < s.len() ==> s[p].0 >= key,
    ensures
        rank(s, key) == p,
{
    lemma_rank(s, key);
    let r = rank(s, key) as int;
    if r < p {
        assert(s[r].0 < key);
    }
    if p < r {
        assert(s[p].0 < key);
    }
}

/// Entries before and after the range of a key do not matter to it.
pub proof fn lemma_rank_around(a: Seq<EntryModel>, m: Seq<EntryModel>, b: Seq<EntryModel>, key: i64)
    requires
        forall|i: int| 0 <= i < a.len() ==> (#[trigger] a[i]).0 < key,
        forall|i: int| 0 <= i < b.len() ==> (#[trigger] b[i]).0 > key,
    ensures
        rank(a + m + b, key) == a.len() + rank(m, key),
        rows_at(a + m + b, key) == rows_at(m, key),
{
    let s = a + m + b;
    lemma_rank(m, key);
    let p = a.len() + rank(m, key);
    assert forall|i: int| 0 <= i < p implies (#[trigger] s[i]).0 < key by {
        if i < a.len() {
            assert(s[i] == a[i]);
        } else {
            assert(s[i] == m[i - a.len()]);
        }
    }
    if p < s.len() {
        if rank(m, key) < m.len() {
            assert(s[p as int] == m[rank(m, key) as int]);
        } else {
            assert(s[p as int] == b[p - a.len() - m.len()]);
        }
    }
    lemma_rank_unique(s, key, p as int);
}

pub proof fn lemma_with_entry_around(
    a: Seq<EntryModel>,
    m: Seq<EntryModel>,
    b: Seq<EntryModel>,
    key: i64,
    row: u64,
)
    requires
        forall|i: int| 0 <= i < a.len() ==> (#[trigger] a[i]).0 < key,
        forall|i: int| 0 <= i < b.len() ==> (#[trigger] b[i]).0 > key,
    ensures
        with_entry(a + m + b, key, row) == a + with_entry(m, key, row) + b,
        without_entry(a + m + b, key, row) == a + without_entry(m, key, row) + b,
{
    lemma_rank_around(a, m, b, key);
    lemma_rank(m, key);
    let s = a + m + b;
    let p = rank(m, key) as int;
    assert(p < m.len() ==> s[a.len() + p] == m[p]);
    if p == m.len() && b.len() > 0 {
        assert(s[a.len() + p] == b[0]);
    }
    assert(with_entry(s, key, row) =~= a + with_entry(m, key, row) + b);
    assert(without_entry(s, key, row) =~= a + without_entry(m, key, row) + b);
}

/// Adding a row keeps the entries ordered.
pub proof fn lemma_with_entry_ok(s: Seq<EntryModel>, key: i64, row: u64, lo: int, hi: int)
    requires
        entries_ok(s, lo, hi),
        lo <= key < hi,
    ensures
        entries_ok(with_entry(s, key, row), lo, hi),
        s.len() <= with_entry(s, key, row).len() <= s.len() + 1,
{
    lemma_rank(s, key);
    let p = rank(s, key) as int;
    let t = with_entry(s, key, row);
    if p < s.len() && s[p].0 == key {
        let rows = s[p].1;
        if !rows.contains(row) {
            lemma_push_distinct(rows, row);
        }
    } else {
        assert(seq![row].no_duplicates());
        assert forall|i: int, j: int| 0 <= i < j < t.len() implies t[i].0 < t[j].0 by {
            if i < p {
                assert(t[i] == s[i]);
            } else if i > p {
                assert(t[i] == s[i - 1]);
            }
            if j < p {
                assert(t[j] == s[j]);
            } else if j > p {
                assert(t[j] == s[j - 1]);
                assert(s[p].0 <= s[j - 1].0);
            }
        }
        assert forall|i: int| 0 <= i < t.len() implies lo <= (#[trigger] t[i]).0 < hi && t[i].1.len() > 0
            && t[i].1.no_duplicates() by {
            if i < p {
                assert(t[i] == s[i]);
            } else if i > p {
                assert(t[i] == s[i - 1]);
            }
        }
    }
}

/// Removing a row keeps the entries ordered.
pub proof fn lemma_without_entry_ok(s: Seq<EntryModel>, key: i64, row: u64, lo: int, hi: int)
    requires
        entries_ok(s, lo, hi),
    ensures
        entries_ok(without_entry(s, key, row), lo, hi),
        without_entry(s, key, row).len() <= s.len(),
{
    lemma_rank(s, key);
    let p = rank(s, key) as int;
    let t = without_entry(s, key, row);
    if p < s.len() && s[p].0 == key {
        let rest = without_row(s[p].1, row);
        if rest.len() == 0 {
            assert forall|i: int| 0 <= i < t.len() implies #[trigger] t[i] == (if i < p {
                s[i]
            } else {
                s[i + 1]
            }) by {}
        } else {
            lemma_without_row(s[p].1, row);
        }
    }
}

/// Leaving out a row keeps the other rows, and keeps them distinct.
pub proof fn lemma_without_row(rows: Seq<u64>, row: u64)
    requires
        rows.no_duplicates(),
    ensures
        without_row(rows, row).no_duplicates(),
        forall|x: u64| without_row(rows, row).contains(x) <==> rows.contains(x) && x != row,
        without_row(rows, row).len() <= rows.len(),
        without_row(rows, row).len() < rows.len() <==> rows.contains(row),
    decreases rows.len(),
{
    if rows.len() > 0 {
        let d = rows.drop_last();
        lemma_without_row(d, row);
        let w = without_row(d, row);
        let all = without_row(rows, row);
        assert(rows == d.push(rows.last()));
        assert forall|x: u64| rows.contains(x) <==> d.contains(x) || x == rows.last() by {
            lemma_push_contains(d, rows.last(), x);
        }
        assert(!d.contains(rows.last())) by {
            if d.contains(rows.last()) {
                let i = choose|i: int| 0 <= i < d.len() && d[i] == rows.last();
                assert(rows[i] == rows[rows.len() - 1]);
            }
        }
        if rows.last() != row {
            assert forall|x: u64| all.contains(x) <==> w.contains(x) || x == rows.last() by {
                lemma_push_contains(w, rows.last(), x);
            }
            assert(!w.contains(rows.last()));
            lemma_push_distinct(w, rows.last());
        }
    }
}

proof fn lemma_push_contains(s: Seq<u64>, y: u64, x: u64)
    ensures
        s.push(y).contains(x) <==> s.contains(x) || x == y,
{
    let t = s.push(y);
    assert(t[s.len() as int] == y);
    if s.contains(x) {
        let i = choose|i: int| 0 <= i < s.len() && s[i] == x;
        assert(t[i] == x);
    }
}

/// A row that is not there yet keeps the rows distinct.
pub proof fn lemma_push_distinct(s: Seq<u64>, y: u64)
    requires
        s.no_duplicates(),
        !s.contains(y),
    ensures
        s.push(y).no_duplicates(),
{
    let t = s.push(y);
    assert forall|i: int, j: int| 0 <= i < t.len() && 0 <= j < t.len() && i != j implies t[i] != t[j] by {
        if i == s.len() {
            assert(s.contains(s[j]));
        } else if j == s.len() {
            assert(s.contains(s[i]));
        }
    }
}

// Chains of leaves

/// A chain splits at any point.
pub proof fn lemma_chain_split(p: PageMap, a: Seq<u32>, b: Seq<u32>, end: Option<u32>)
    ensures
        chain(p, a + b, end) <==> chain(
            p,
            a,
            if b.len() > 0 {
                Some(b[0])
            } else {
                end
            },
        ) && chain(p, b, end),
{
    let s = a + b;
    let e = if b.len() > 0 {
        Some(b[0])
    } else {
        end
    };
    if chain(p, s, end) {
        assert forall|i: int| 0 <= i < a.len() implies #[trigger] leaf_next(p, a[i]) == (if i + 1 < a.len() {
            Some(a[i + 1])
        } else {
            e
        }) by {
            assert(leaf_next(p, s[i]) == leaf_next(p, a[i]));
            if i + 1 < a.len() {
                assert(s[i + 1] == a[i + 1]);
            } else if b.len() > 0 {
                assert(s[i + 1] == b[0]);
            }
        }
        assert forall|i: int| 0 <= i < b.len() implies #[trigger] leaf_next(p, b[i]) == (if i + 1 < b.len() {
            Some(b[i + 1])
        } else {
            end
        }) by {
            assert(leaf_next(p, s[a.len() + i]) == leaf_next(p, b[i]));
            if i + 1 < b.len() {
                assert(s[a.len() + i + 1] == b[i + 1]);
            }
        }
    }
    if chain(p, a, e) && chain(p, b, end) {
        assert forall|i: int| 0 <= i < s.len() implies #[trigger] leaf_next(p, s[i]) == (if i + 1 < s.len() {
            Some(s[i + 1])
        } else {
            end
        }) by {
            if i < a.len() {
                assert(s[i] == a[i]);
                if i + 1 < a.len() {
                    assert(s[i + 1] == a[i + 1]);
                } else if b.len() > 0 {
                    assert(s[i + 1] == b[0]);
                }
            } else {
                assert(s[i] == b[i - a.len()]);
                if i + 1 < s.len() {
                    assert(s[i + 1] == b[i + 1 - a.len()]);
                }
            }
        }
    }
}

pub proof fn lemma_chain_frame(p: PageMap, q: PageMap, ls: Seq<u32>, end: Option<u32>)
    requires
        chain(p, ls, end),
        forall|i: int| 0 <= i < ls.len() ==> p[#[trigger] ls[i]] == q[ls[i]],
    ensures
        chain(q, ls, end),
{
    assert forall|i: int| 0 <= i < ls.len() implies #[trigger] leaf_next(q, ls[i]) == (if i + 1 < ls.len() {
        Some(ls[i + 1])
    } else {
        end
    }) by {
        assert(p[ls[i]] == q[ls[i]]);
        assert(leaf_next(p, ls[i]) == leaf_next(q, ls[i]));
    }
}


// Descending to a child

/// The child that covers a key: the separators before it are at most the key,
/// those behind it are greater.
pub open spec fn covers(keys: Seq<i64>, key: i64, pos: int) -> bool {
    &&& 0 <= pos <= keys.len()
    &&& forall|i: int| 0 <= i < pos ==> #[trigger] keys[i] <= key
    &&& forall|i: int| pos <= i < keys.len() ==> #[trigger] keys[i] > key
}

/// The leaves before child `i`.
pub open spec fn before(p: PageMap, cs: Seq<u32>, h: nat, i: int) -> Seq<u32> {
    leaf_list(p, cs.subrange(0, i), (h - 1) as nat)
}

/// The leaves behind child `i`.
pub open spec fn behind(p: PageMap, cs: Seq<u32>, h: nat, i: int) -> Seq<u32> {
    leaf_list(p, cs.subrange(i + 1, cs.len() as int), (h - 1) as nat)
}

/// What lies before and behind the child that covers a key has other keys.
pub proof fn lemma_descend(
    p: PageMap,
    id: u32,
    keys: Seq<i64>,
    cs: Seq<u32>,
    h: nat,
    lo: int,
    hi: int,
    key: i64,
    pos: int,
)
    requires
        internal_ok(p, id, keys, cs, h, lo, hi),
        covers(keys, key, pos),
        lo <= key < hi,
    ensures
        pos < cs.len(),
        wf(p, cs[pos], (h - 1) as nat, bound(keys, lo, hi, pos), bound(keys, lo, hi, pos + 1)),
        bound(keys, lo, hi, pos) <= key < bound(keys, lo, hi, pos + 1),
        leaf_list(p, cs, (h - 1) as nat) == before(p, cs, h, pos) + leaf_ids(p, cs[pos], (h - 1) as nat) + behind(
            p,
            cs,
            h,
            pos,
        ),
        entries_of(p, leaf_list(p, cs, (h - 1) as nat)) == entries_of(p, before(p, cs, h, pos)) + contents(
            p,
            cs[pos],
            (h - 1) as nat,
        ) + entries_of(p, behind(p, cs, h, pos)),
        forall|i: int|
            0 <= i < entries_of(p, before(p, cs, h, pos)).len() ==> (#[trigger] entries_of(
                p,
                before(p, cs, h, pos),
            )[i]).0 < key,
        forall|i: int|
            0 <= i < entries_of(p, behind(p, cs, h, pos)).len() ==> (#[trigger] entries_of(
                p,
                behind(p, cs, h, pos),
            )[i]).0 > key,
{
    let k = (h - 1) as nat;
    lemma_leaf_list_around(p, cs, k, pos);
    let a = before(p, cs, h, pos);
    let b = behind(p, cs, h, pos);
    let c = leaf_ids(p, cs[pos], k);
    lemma_entries_concat(p, a + c, b);
    lemma_entries_concat(p, a, c);
    lemma_list_ok(p, id, keys, cs, h, lo, hi, 0, pos);
    lemma_list_ok(p, id, keys, cs, h, lo, hi, pos + 1, cs.len() as int);
}

// Changing a subtree

/// Every page id is below `n`.
pub open spec fn below(p: PageMap, n: u32) -> bool {
    forall|x: u32| #[trigger] p.contains_key(x) ==> x < n
}

/// Pages outside a set are kept, and new pages get ids in `[n0, n1)`.
pub open spec fn kept_outside(p: PageMap, q: PageMap, d: Set<u32>, n0: u32, n1: u32) -> bool {
    &&& forall|x: u32| #[trigger] p.contains_key(x) && !d.contains(x) ==> q.contains_key(x) && q[x] == p[x]
    &&& forall|x: u32| #[trigger] q.contains_key(x) ==> p.contains_key(x) || n0 <= x < n1
}

/// A set of pages lies in another one and the new pages.
pub open spec fn within(d: Set<u32>, e: Set<u32>, n0: u32, n1: u32) -> bool {
    forall|x: u32| #[trigger] d.contains(x) ==> e.contains(x) || n0 <= x < n1
}

/// The subtree of `id` in `p` became, in `q`, a subtree with the contents `t`;
/// where it split, the new right sibling and the separator are in `split`.
pub open spec fn grown(
    p: PageMap,
    q: PageMap,
    id: u32,
    h: nat,
    lo: int,
    hi: int,
    end: Option<u32>,
    t: Seq<EntryModel>,
    split: Option<(i64, u32)>,
    n0: u32,
    n1: u32,
) -> bool {
    let d = pages(p, id, h);
    &&& n0 <= n1 <= n0 + h + 1
    &&& kept_outside(p, q, d, n0, n1)
    &&& within(pages(q, id, h), d, n0, n1)
    &&& leaf_ids(q, id, h)[0] == leaf_ids(p, id, h)[0]
    &&& match split {
        None => {
            &&& wf(q, id, h, lo, hi)
            &&& contents(q, id, h) == t
            &&& chain(q, leaf_ids(q, id, h), end)
            &&& forall|x: u32| #[trigger]
                q.contains_key(x) ==> p.contains_key(x) && !d.contains(x) || pages(q, id, h).contains(x)
        },
        Some((sep, r)) => {
            &&& lo < sep < hi
            &&& wf(q, id, h, lo, sep as int)
            &&& wf(q, r, h, sep as int, hi)
            &&& within(pages(q, r, h), d, n0, n1)
            &&& pages(q, id, h).disjoint(pages(q, r, h))
            &&& contents(q, id, h) + contents(q, r, h) == t
            &&& chain(q, leaf_ids(q, id, h) + leaf_ids(q, r, h), end)
            &&& forall|x: u32| #[trigger]
                q.contains_key(x) ==> p.contains_key(x) && !d.contains(x) || pages(q, id, h).contains(x) || pages(
                    q,
                    r,
                    h,
                ).contains(x)
        },
    }
}

/// The pages after an insertion below a page, the separator and the page id of
/// the new right sibling where the page split, and the next free page id.
pub type Grown = (PageMap, Option<(i64, u32)>, u32);

/// The number of leading separators that are at most a key: the child to
/// descend into.
pub open spec fn child_at(keys: Seq<i64>, key: i64) -> nat
    decreases keys.len(),
{
    if keys.len() == 0 || keys[0] > key {
        0
    } else {
        1 + child_at(keys.drop_first(), key)
    }
}

/// The leaf `id` written with the entries `t`. One with more than `FANOUT`
/// entries splits in the middle: the right half moves to page `n`, and its first
/// key is the separator.
pub open spec fn leaf_put(p: PageMap, id: u32, t: Seq<EntryModel>, next: Option<u32>, n: u32) -> Grown {
    let mid = t.len() as int / 2;
    if t.len() > FANOUT {
        (
            p.insert(id, NodeModel::Leaf { entries: t.subrange(0, mid), next: Some(n) }).insert(
                n,
                NodeModel::Leaf { entries: t.subrange(mid, t.len() as int), next },
            ),
            Some((t[mid].0, n)),
            (n + 1) as u32,
        )
    } else {
        (p.insert(id, NodeModel::Leaf { entries: t, next }), None, n)
    }
}

/// The internal page `id` written with separators and children. One with more
/// than `FANOUT` separators splits in the middle: the middle separator moves up,
/// what is behind it moves to page `n`.
pub open spec fn internal_put(p: PageMap, id: u32, keys: Seq<i64>, cs: Seq<u32>, n: u32) -> Grown {
    let mid = keys.len() as int / 2;
    if keys.len() > FANOUT {
        (
            p.insert(
                id,
                NodeModel::Internal { keys: keys.subrange(0, mid), children: cs.subrange(0, mid + 1) },
            ).insert(
                n,
                NodeModel::Internal {
                    keys: keys.subrange(mid + 1, keys.len() as int),
                    children: cs.subrange(mid + 1, cs.len() as int),
                },
            ),
            Some((keys[mid], n)),
            (n + 1) as u32,
        )
    } else {
        (p.insert(id, NodeModel::Internal { keys, children: cs }), None, n)
    }
}

/// A row put under a key below page `id`, which is `h` levels above the leaves;
/// new pages are numbered from `n`.
pub open spec fn put(p: PageMap, id: u32, h: nat, key: i64, row: u64, n: u32) -> Grown
    decreases h,
{
    match p[id] {
        NodeModel::Leaf { entries, next } => leaf_put(p, id, with_entry(entries, key, row), next, n),
        NodeModel::Internal { keys, children } => {
            let pos = child_at(keys, key) as int;
            if h == 0 {
                (p, None, n)
            } else {
                let below = put(p, children[pos], (h - 1) as nat, key, row, n);
                match below.1 {
                    None => below,
                    Some((sep, right)) => internal_put(
                        below.0,
                        id,
                        keys.insert(pos, sep),
                        children.insert(pos + 1, right),
                        below.2,
                    ),
                }
            }
        },
    }
}

/// The child that covers a key is the one to descend into.
pub proof fn lemma_child_at(keys: Seq<i64>, key: i64, pos: int)
    requires
        covers(keys, key, pos),
    ensures
        child_at(keys, key) == pos,
    decreases keys.len(),
{
    if keys.len() > 0 && pos > 0 {
        assert(keys[0] <= key);
        let rest = keys.drop_first();
        assert forall|i: int| 0 <= i < pos - 1 implies #[trigger] rest[i] <= key by {
            assert(rest[i] == keys[i + 1]);
        }
        assert forall|i: int| pos - 1 <= i < rest.len() implies #[trigger] rest[i] > key by {
            assert(rest[i] == keys[i + 1]);
        }
        lemma_child_at(rest, key, pos - 1);
    }
}

/// As `grown`, of an internal page `id` whose children became `cs` under the
/// separators `keys`, whatever the page itself holds.
pub open spec fn spread(
    p: PageMap,
    q: PageMap,
    id: u32,
    keys: Seq<i64>,
    cs: Seq<u32>,
    h: nat,
    lo: int,
    hi: int,
    end: Option<u32>,
    t: Seq<EntryModel>,
    n0: u32,
    n1: u32,
) -> bool {
    let d = pages(p, id, h);
    let k = (h - 1) as nat;
    &&& n0 <= n1 <= n0 + h
    &&& kept_outside(p, q, d, n0, n1)
    &&& within(page_list(q, cs, k), d, n0, n1)
    &&& internal_ok(q, id, keys, cs, h, lo, hi)
    &&& leaf_list(q, cs, k).len() > 0
    &&& leaf_list(q, cs, k)[0] == leaf_ids(p, id, h)[0]
    &&& entries_of(q, leaf_list(q, cs, k)) == t
    &&& chain(q, leaf_list(q, cs, k), end)
    &&& forall|x: u32| #[trigger]
        q.contains_key(x) ==> p.contains_key(x) && !d.contains(x) || x == id || page_list(q, cs, k).contains(x)
}

/// A child between its left and right siblings.
pub open spec fn spliced<T>(s: Seq<T>, pos: int, skip: int, mid: Seq<T>) -> Seq<T> {
    s.subrange(0, pos) + mid + s.subrange(pos + skip, s.len() as int)
}

/// The siblings of a changed child keep their subtrees.
proof fn lemma_sibling(
    p: PageMap,
    q: PageMap,
    id: u32,
    keys: Seq<i64>,
    cs: Seq<u32>,
    h: nat,
    lo: int,
    hi: int,
    pos: int,
    i: int,
    n0: u32,
    n1: u32,
)
    requires
        internal_ok(p, id, keys, cs, h, lo, hi),
        0 <= pos < cs.len(),
        0 <= i < cs.len(),
        i != pos,
        kept_outside(p, q, pages(p, cs[pos], (h - 1) as nat), n0, n1),
        below(p, n0),
    ensures
        wf(q, cs[i], (h - 1) as nat, bound(keys, lo, hi, i), bound(keys, lo, hi, i + 1)),
        leaf_ids(q, cs[i], (h - 1) as nat) == leaf_ids(p, cs[i], (h - 1) as nat),
        pages(q, cs[i], (h - 1) as nat) == pages(p, cs[i], (h - 1) as nat),
        forall|x: u32|
            #[trigger] pages(p, cs[i], (h - 1) as nat).contains(x) ==> x < n0 && p.contains_key(x) && q[x] == p[x]
                && !pages(p, cs[pos], (h - 1) as nat).contains(x),
{
    let k = (h - 1) as nat;
    lemma_pages_in_map(p, cs[i], k, bound(keys, lo, hi, i), bound(keys, lo, hi, i + 1));
    if i < pos {
        assert(pages(p, cs[i], k).disjoint(pages(p, cs[pos], k)));
    } else {
        assert(pages(p, cs[pos], k).disjoint(pages(p, cs[i], k)));
    }
    lemma_frame(p, q, cs[i], k, bound(keys, lo, hi, i), bound(keys, lo, hi, i + 1));
}

/// Runs of siblings keep their leaves and entries.
proof fn lemma_sibling_run(
    p: PageMap,
    q: PageMap,
    id: u32,
    keys: Seq<i64>,
    cs: Seq<u32>,
    h: nat,
    lo: int,
    hi: int,
    pos: int,
    m: int,
    n: int,
    n0: u32,
    n1: u32,
)
    requires
        internal_ok(p, id, keys, cs, h, lo, hi),
        0 <= pos < cs.len(),
        0 <= m <= n <= cs.len(),
        n <= pos || pos < m,
        kept_outside(p, q, pages(p, cs[pos], (h - 1) as nat), n0, n1),
        below(p, n0),
    ensures
        leaf_list(q, cs.subrange(m, n), (h - 1) as nat) == leaf_list(p, cs.subrange(m, n), (h - 1) as nat),
        entries_of(q, leaf_list(p, cs.subrange(m, n), (h - 1) as nat)) == entries_of(
            p,
            leaf_list(p, cs.subrange(m, n), (h - 1) as nat),
        ),
        forall|i: int|
            0 <= i < leaf_list(p, cs.subrange(m, n), (h - 1) as nat).len() ==> p[#[trigger] leaf_list(
                p,
                cs.subrange(m, n),
                (h - 1) as nat,
            )[i]] == q[leaf_list(p, cs.subrange(m, n), (h - 1) as nat)[i]],
        forall|x: u32|
            #[trigger] page_list(q, cs.subrange(m, n), (h - 1) as nat).contains(x) ==> page_list(
                p,
                cs,
                (h - 1) as nat,
            ).contains(x),
{
    let k = (h - 1) as nat;
    let r = cs.subrange(m, n);
    assert forall|i: int| 0 <= i < r.len() implies leaf_ids(p, #[trigger] r[i], k) == leaf_ids(q, r[i], k) && pages(
        p,
        r[i],
        k,
    ) == pages(q, r[i], k) by {
        assert(r[i] == cs[m + i]);
        lemma_sibling(p, q, id, keys, cs, h, lo, hi, pos, m + i, n0, n1);
    }
    lemma_list_congruence(p, q, r, k);
    lemma_leaves_list(p, keys, cs, h, lo, hi, m, n, id);
    let l = leaf_list(p, r, k);
    assert forall|i: int| 0 <= i < l.len() implies p[#[trigger] l[i]] == q[l[i]] by {
        lemma_page_list(p, r, k, l[i]);
        let j = choose|j: int| 0 <= j < r.len() && pages(p, #[trigger] r[j], k).contains(l[i]);
        assert(r[j] == cs[m + j]);
        lemma_sibling(p, q, id, keys, cs, h, lo, hi, pos, m + j, n0, n1);
    }
    lemma_entries_frame(p, q, l);
    assert forall|x: u32| #[trigger] page_list(q, r, k).contains(x) implies page_list(p, cs, k).contains(x) by {
        lemma_page_list(p, r, k, x);
        let j = choose|j: int| 0 <= j < r.len() && pages(p, #[trigger] r[j], k).contains(x);
        assert(pages(p, cs[m + j], k).contains(x));
        lemma_page_list(p, cs, k, x);
    }
}

/// A changed run of children in the place of one child.
proof fn lemma_replace_child(
    p: PageMap,
    q: PageMap,
    id: u32,
    keys: Seq<i64>,
    cs: Seq<u32>,
    h: nat,
    lo: int,
    hi: int,
    pos: int,
    mkeys: Seq<i64>,
    mid: Seq<u32>,
    n0: u32,
    n1: u32,
)
    requires
        internal_ok(p, id, keys, cs, h, lo, hi),
        0 <= pos < cs.len(),
        p.contains_key(id),
        kept_outside(p, q, pages(p, cs[pos], (h - 1) as nat), n0, n1),
        below(p, n0),
        internal_ok(q, id, mkeys, mid, h, bound(keys, lo, hi, pos), bound(keys, lo, hi, pos + 1)),
        within(page_list(q, mid, (h - 1) as nat), pages(p, cs[pos], (h - 1) as nat), n0, n1),
    ensures
        internal_ok(q, id, spliced(keys, pos, 0, mkeys), spliced(cs, pos, 1, mid), h, lo, hi),
{
    let k = (h - 1) as nat;
    let keys2 = spliced(keys, pos, 0, mkeys);
    let cs2 = spliced(cs, pos, 1, mid);
    let e = mid.len() as int;
    assert forall|i: int| 0 <= i <= cs2.len() implies #[trigger] bound(keys2, lo, hi, i) == (if i <= pos {
        bound(keys, lo, hi, i)
    } else if i < pos + e {
        mkeys[i - pos - 1] as int
    } else {
        bound(keys, lo, hi, i - e + 1)
    }) by {}
    assert(keys_ok(keys2, lo, hi)) by {
        let bl = bound(keys, lo, hi, pos);
        let bh = bound(keys, lo, hi, pos + 1);
        assert forall|i: int| 0 <= i < keys2.len() implies lo < #[trigger] keys2[i] < hi by {
            if pos <= i < pos + mkeys.len() {
                assert(keys2[i] == mkeys[i - pos]);
            } else if i < pos {
                assert(keys2[i] == keys[i]);
            } else {
                assert(keys2[i] == keys[i - mkeys.len()]);
            }
        }
        assert forall|i: int, j: int| 0 <= i < j < keys2.len() implies keys2[i] < keys2[j] by {
            let m = mkeys.len();
            if i < pos {
                assert(keys2[i] == keys[i]);
                assert(keys[i] <= bl);
            } else if i < pos + m {
                assert(keys2[i] == mkeys[i - pos]);
            } else {
                assert(keys2[i] == keys[i - m]);
            }
            if j < pos {
                assert(keys2[j] == keys[j]);
            } else if j < pos + m {
                assert(keys2[j] == mkeys[j - pos]);
            } else {
                assert(keys2[j] == keys[j - m]);
                assert(bh <= keys[j - m]);
            }
        }
    }
    assert forall|i: int| 0 <= i < cs2.len() implies wf(
        q,
        #[trigger] cs2[i],
        k,
        bound(keys2, lo, hi, i),
        bound(keys2, lo, hi, i + 1),
    ) && !pages(q, cs2[i], k).contains(id) by {
        if i < pos {
            assert(cs2[i] == cs[i]);
            lemma_sibling(p, q, id, keys, cs, h, lo, hi, pos, i, n0, n1);
        } else if i < pos + e {
            assert(cs2[i] == mid[i - pos]);
            let bl = bound(keys, lo, hi, pos);
            let bh = bound(keys, lo, hi, pos + 1);
            assert(bound(mkeys, bl, bh, i - pos) == bound(keys2, lo, hi, i));
            assert(bound(mkeys, bl, bh, i - pos + 1) == bound(keys2, lo, hi, i + 1));
        } else {
            assert(cs2[i] == cs[i - e + 1]);
            lemma_sibling(p, q, id, keys, cs, h, lo, hi, pos, i - e + 1, n0, n1);
        }
    }
    assert forall|i: int, j: int| 0 <= i < j < cs2.len() implies pages(q, #[trigger] cs2[i], k).disjoint(
        pages(q, #[trigger] cs2[j], k),
    ) by {
        assert forall|x: u32| !(pages(q, cs2[i], k).contains(x) && pages(q, cs2[j], k).contains(x)) by {
            if i < pos {
                assert(cs2[i] == cs[i]);
                lemma_sibling(p, q, id, keys, cs, h, lo, hi, pos, i, n0, n1);
            } else if i < pos + e {
                assert(cs2[i] == mid[i - pos]);
                lemma_page_list(q, mid, k, x);
            } else {
                assert(cs2[i] == cs[i - e + 1]);
                lemma_sibling(p, q, id, keys, cs, h, lo, hi, pos, i - e + 1, n0, n1);
            }
            if j < pos {
                assert(cs2[j] == cs[j]);
                lemma_sibling(p, q, id, keys, cs, h, lo, hi, pos, j, n0, n1);
            } else if j < pos + e {
                assert(cs2[j] == mid[j - pos]);
                lemma_page_list(q, mid, k, x);
            } else {
                assert(cs2[j] == cs[j - e + 1]);
                lemma_sibling(p, q, id, keys, cs, h, lo, hi, pos, j - e + 1, n0, n1);
            }
            if pages(q, cs2[i], k).contains(x) && pages(q, cs2[j], k).contains(x) {
                if i < pos && j >= pos + e {
                    assert(pages(p, cs[i], k).disjoint(pages(p, cs[j - e + 1], k)));
                } else if j < pos {
                    assert(pages(p, cs[i], k).disjoint(pages(p, cs[j], k)));
                } else if i >= pos + e {
                    assert(pages(p, cs[i - e + 1], k).disjoint(pages(p, cs[j - e + 1], k)));
                } else if i >= pos && j < pos + e {
                    assert(pages(q, mid[i - pos], k).disjoint(pages(q, mid[j - pos], k)));
                }
            }
        }
    }
}

/// The separators and the children after a change below child `pos`.
pub open spec fn keys_after(keys: Seq<i64>, pos: int, split: Option<(i64, u32)>) -> Seq<i64> {
    match split {
        None => keys,
        Some((sep, r)) => keys.insert(pos, sep),
    }
}

pub open spec fn kids_after(cs: Seq<u32>, pos: int, split: Option<(i64, u32)>) -> Seq<u32> {
    match split {
        None => cs,
        Some((sep, r)) => cs.insert(pos + 1, r),
    }
}

/// The pointer behind the leaves of child `pos`.
pub open spec fn end_of(p: PageMap, cs: Seq<u32>, h: nat, pos: int, end: Option<u32>) -> Option<u32> {
    let b = behind(p, cs, h, pos);
    if b.len() > 0 {
        Some(b[0])
    } else {
        end
    }
}

/// The chain of a node is a chain of each child.
pub proof fn lemma_chain_child(p: PageMap, cs: Seq<u32>, h: nat, pos: int, end: Option<u32>)
    requires
        h > 0,
        0 <= pos < cs.len(),
        chain(p, leaf_list(p, cs, (h - 1) as nat), end),
    ensures
        chain(p, leaf_ids(p, cs[pos], (h - 1) as nat), end_of(p, cs, h, pos, end)),
        chain(p, behind(p, cs, h, pos), end),
        leaf_ids(p, cs[pos], (h - 1) as nat).len() > 0 ==> chain(
            p,
            before(p, cs, h, pos),
            Some(leaf_ids(p, cs[pos], (h - 1) as nat)[0]),
        ),
{
    let k = (h - 1) as nat;
    lemma_leaf_list_around(p, cs, k, pos);
    let a = before(p, cs, h, pos);
    let c = leaf_ids(p, cs[pos], k);
    let b = behind(p, cs, h, pos);
    lemma_chain_split(p, a + c, b, end);
    lemma_chain_split(p, a, c, end_of(p, cs, h, pos, end));
}

/// Every page below the changed children was below the node, or is new.
#[verifier::spinoff_prover]
#[verifier::rlimit(60)]
proof fn lemma_step_pages(
    p: PageMap,
    q: PageMap,
    id: u32,
    keys: Seq<i64>,
    cs: Seq<u32>,
    h: nat,
    lo: int,
    hi: int,
    end: Option<u32>,
    pos: int,
    tc: Seq<EntryModel>,
    split: Option<(i64, u32)>,
    n0: u32,
    n1: u32,
)
    requires
        internal_ok(p, id, keys, cs, h, lo, hi),
        p.contains_key(id),
        p[id] == (NodeModel::Internal { keys, children: cs }),
        0 <= pos < cs.len(),
        below(p, n0),
        chain(p, leaf_list(p, cs, (h - 1) as nat), end),
        grown(
            p,
            q,
            cs[pos],
            (h - 1) as nat,
            bound(keys, lo, hi, pos),
            bound(keys, lo, hi, pos + 1),
            end_of(p, cs, h, pos, end),
            tc,
            split,
            n0,
            n1,
        ),
    ensures
        forall|x: u32| #[trigger]
            page_list(q, kids_after(cs, pos, split), (h - 1) as nat).contains(x) ==> pages(p, id, h).contains(x) || n0 <= x
                < n1,
{
    let k = (h - 1) as nat;
    let c = cs[pos];
    let mid = parts_of(c, split);
    let cs2 = kids_after(cs, pos, split);
    assert(cs2 =~= spliced(cs, pos, 1, mid));
    lemma_sibling_run(p, q, id, keys, cs, h, lo, hi, pos, 0, pos, n0, n1);
    lemma_sibling_run(p, q, id, keys, cs, h, lo, hi, pos, pos + 1, cs.len() as int, n0, n1);
    let ca = cs.subrange(0, pos);
    let cb = cs.subrange(pos + 1, cs.len() as int);
    assert forall|x: u32| #[trigger] page_list(q, cs2, k).contains(x) implies pages(p, id, h).contains(x) || n0 <= x
        < n1 by {
        lemma_page_list(q, cs2, k, x);
        let i = choose|i: int| 0 <= i < cs2.len() && pages(q, #[trigger] cs2[i], k).contains(x);
        let e = mid.len() as int;
        if i < pos {
            assert(cs2[i] == ca[i]);
            lemma_page_list(q, ca, k, x);
        } else if i < pos + e {
            assert(cs2[i] == mid[i - pos]);
            lemma_child_pages(p, id, h, pos);
        } else {
            assert(cs2[i] == cb[i - pos - e]);
            lemma_page_list(q, cb, k, x);
        }
    }
}

/// Every page was outside the node's pages, or is the node, or is below the
/// changed children.
#[verifier::spinoff_prover]
#[verifier::rlimit(60)]
proof fn lemma_step_kept(
    p: PageMap,
    q: PageMap,
    id: u32,
    keys: Seq<i64>,
    cs: Seq<u32>,
    h: nat,
    lo: int,
    hi: int,
    end: Option<u32>,
    pos: int,
    tc: Seq<EntryModel>,
    split: Option<(i64, u32)>,
    n0: u32,
    n1: u32,
)
    requires
        internal_ok(p, id, keys, cs, h, lo, hi),
        p.contains_key(id),
        p[id] == (NodeModel::Internal { keys, children: cs }),
        0 <= pos < cs.len(),
        below(p, n0),
        chain(p, leaf_list(p, cs, (h - 1) as nat), end),
        grown(
            p,
            q,
            cs[pos],
            (h - 1) as nat,
            bound(keys, lo, hi, pos),
            bound(keys, lo, hi, pos + 1),
            end_of(p, cs, h, pos, end),
            tc,
            split,
            n0,
            n1,
        ),
    ensures
        forall|x: u32| #[trigger]
            q.contains_key(x) ==> p.contains_key(x) && !pages(p, id, h).contains(x) || x == id || page_list(
                q,
                kids_after(cs, pos, split),
                (h - 1) as nat,
            ).contains(x),
{
    let k = (h - 1) as nat;
    let c = cs[pos];
    let mid = parts_of(c, split);
    let cs2 = kids_after(cs, pos, split);
    assert(cs2 =~= spliced(cs, pos, 1, mid));
    lemma_child_pages(p, id, h, pos);
    assert(!pages(p, c, k).contains(id));
    assert forall|x: u32| #[trigger] q.contains_key(x) implies p.contains_key(x) && !pages(p, id, h).contains(x) || x
        == id || page_list(q, cs2, k).contains(x) by {
        lemma_page_list(q, cs2, k, x);
        if pages(q, c, k).contains(x) {
            assert(cs2[pos] == c);
        } else if split is Some && pages(q, split.unwrap().1, k).contains(x) {
            assert(cs2[pos + 1] == split.unwrap().1);
        } else if pages(p, id, h).contains(x) && x != id {
            lemma_page_list(p, cs, k, x);
            let i = choose|i: int| 0 <= i < cs.len() && pages(p, #[trigger] cs[i], k).contains(x);
            lemma_sibling(p, q, id, keys, cs, h, lo, hi, pos, i, n0, n1);
            if i < pos {
                assert(cs2[i] == cs[i]);
            } else {
                assert(cs2[i + mid.len() - 1] == cs[i]);
            }
        }
    }
}

/// The children in place of a changed one.
spec fn parts_of(c: u32, split: Option<(i64, u32)>) -> Seq<u32> {
    match split {
        None => seq![c],
        Some((sep, r)) => seq![c, r],
    }
}

/// The separators between the children in place of a changed one.
spec fn cuts_of(split: Option<(i64, u32)>) -> Seq<i64> {
    match split {
        None => Seq::empty(),
        Some((sep, r)) => seq![sep],
    }
}

/// The children in place of a changed one, by themselves.
#[verifier::spinoff_prover]
#[verifier::rlimit(60)]
proof fn lemma_step_parts(
    p: PageMap,
    q: PageMap,
    id: u32,
    keys: Seq<i64>,
    cs: Seq<u32>,
    h: nat,
    lo: int,
    hi: int,
    end: Option<u32>,
    pos: int,
    tc: Seq<EntryModel>,
    split: Option<(i64, u32)>,
    n0: u32,
    n1: u32,
)
    requires
        internal_ok(p, id, keys, cs, h, lo, hi),
        p.contains_key(id),
        p[id] == (NodeModel::Internal { keys, children: cs }),
        0 <= pos < cs.len(),
        below(p, n0),
        chain(p, leaf_list(p, cs, (h - 1) as nat), end),
        grown(
            p,
            q,
            cs[pos],
            (h - 1) as nat,
            bound(keys, lo, hi, pos),
            bound(keys, lo, hi, pos + 1),
            end_of(p, cs, h, pos, end),
            tc,
            split,
            n0,
            n1,
        ),
    ensures
        ({
            let k = (h - 1) as nat;
            let c = cs[pos];
            let mid = parts_of(c, split);
            let lm = leaf_list(q, mid, k);
            &&& internal_ok(q, id, cuts_of(split), mid, h, bound(keys, lo, hi, pos), bound(keys, lo, hi, pos + 1))
            &&& within(page_list(q, mid, k), pages(p, c, k), n0, n1)
            &&& entries_of(q, lm) == tc
            &&& leaf_ids(p, c, k).len() > 0
            &&& lm.len() > 0
            &&& lm[0] == leaf_ids(p, c, k)[0]
            &&& chain(q, lm, end_of(p, cs, h, pos, end))
        }),
{
    let k = (h - 1) as nat;
    let c = cs[pos];
    let bl = bound(keys, lo, hi, pos);
    let bh = bound(keys, lo, hi, pos + 1);
    let mid = parts_of(c, split);
    let mkeys = cuts_of(split);
    assert(mid.drop_last() =~= (if split is None {
        Seq::<u32>::empty()
    } else {
        seq![c]
    }));
    lemma_leaf_list_one(q, c, k);
    assert(page_list(q, seq![c], k) =~= pages(q, c, k)) by {
        assert(seq![c].drop_last() =~= Seq::<u32>::empty());
        assert(page_list(q, Seq::<u32>::empty(), k) =~= Set::<u32>::empty());
    }
    assert(!pages(q, c, k).contains(id)) by {
        assert(!pages(p, c, k).contains(id));
    }
    let lm = leaf_list(q, mid, k);
    match split {
        None => {
            assert(lm == leaf_ids(q, c, k));
            assert(bound(mkeys, bl, bh, 0) == bl && bound(mkeys, bl, bh, 1) == bh);
        },
        Some((sep, r)) => {
            assert(lm == leaf_ids(q, c, k) + leaf_ids(q, r, k));
            assert(page_list(q, mid, k) =~= pages(q, c, k).union(pages(q, r, k)));
            lemma_entries_concat(q, leaf_ids(q, c, k), leaf_ids(q, r, k));
            assert(bound(mkeys, bl, bh, 0) == bl && bound(mkeys, bl, bh, 1) == sep && bound(mkeys, bl, bh, 2) == bh);
            assert(mid[0] == c && mid[1] == r);
        },
    }
    assert(entries_of(q, lm) == tc);
    lemma_contents_ok(p, c, k, bl, bh);
    lemma_leaves(p, c, k, bl, bh);
    lemma_leaves(q, c, k, bl, if split is None {
        bh
    } else {
        split.unwrap().0 as int
    });
    assert(lm.len() > 0 && lm[0] == leaf_ids(p, c, k)[0]);
    assert(internal_ok(q, id, mkeys, mid, h, bl, bh));
}

/// The leaves below the changed children, and their chain.
#[verifier::spinoff_prover]
#[verifier::rlimit(60)]
proof fn lemma_step_leaves(
    p: PageMap,
    q: PageMap,
    id: u32,
    keys: Seq<i64>,
    cs: Seq<u32>,
    h: nat,
    lo: int,
    hi: int,
    end: Option<u32>,
    pos: int,
    tc: Seq<EntryModel>,
    split: Option<(i64, u32)>,
    n0: u32,
    n1: u32,
)
    requires
        internal_ok(p, id, keys, cs, h, lo, hi),
        p.contains_key(id),
        p[id] == (NodeModel::Internal { keys, children: cs }),
        0 <= pos < cs.len(),
        below(p, n0),
        chain(p, leaf_list(p, cs, (h - 1) as nat), end),
        grown(
            p,
            q,
            cs[pos],
            (h - 1) as nat,
            bound(keys, lo, hi, pos),
            bound(keys, lo, hi, pos + 1),
            end_of(p, cs, h, pos, end),
            tc,
            split,
            n0,
            n1,
        ),
    ensures
        ({
            let k = (h - 1) as nat;
            let ls = leaf_list(q, kids_after(cs, pos, split), k);
            &&& ls.len() > 0
            &&& ls[0] == leaf_list(p, cs, k)[0]
            &&& entries_of(q, ls) == entries_of(p, before(p, cs, h, pos)) + tc + entries_of(p, behind(p, cs, h, pos))
            &&& chain(q, ls, end)
        }),
{
    let k = (h - 1) as nat;
    let c = cs[pos];
    let bl = bound(keys, lo, hi, pos);
    let bh = bound(keys, lo, hi, pos + 1);
    let mid = parts_of(c, split);
    let cs2 = kids_after(cs, pos, split);
    let lm = leaf_list(q, mid, k);
    assert(cs2 =~= spliced(cs, pos, 1, mid));
    lemma_step_parts(p, q, id, keys, cs, h, lo, hi, end, pos, tc, split, n0, n1);
    lemma_sibling_run(p, q, id, keys, cs, h, lo, hi, pos, 0, pos, n0, n1);
    lemma_sibling_run(p, q, id, keys, cs, h, lo, hi, pos, pos + 1, cs.len() as int, n0, n1);
    let ca = cs.subrange(0, pos);
    let cb = cs.subrange(pos + 1, cs.len() as int);
    let a = before(p, cs, h, pos);
    let b = behind(p, cs, h, pos);
    lemma_leaf_list_concat(q, ca + mid, cb, k);
    lemma_leaf_list_concat(q, ca, mid, k);
    assert(leaf_list(q, cs2, k) == a + lm + b);
    lemma_entries_concat(q, a + lm, b);
    lemma_entries_concat(q, a, lm);
    lemma_chain_child(p, cs, h, pos, end);
    lemma_leaf_list_around(p, cs, k, pos);
    let first = leaf_ids(p, c, k)[0];
    lemma_chain_frame(p, q, a, Some(first));
    lemma_chain_frame(p, q, b, end);
    lemma_chain_split(q, a, lm, end_of(p, cs, h, pos, end));
    lemma_chain_split(q, a + lm, b, end);
    assert((a + lm + b)[0] == (a + leaf_ids(p, c, k) + b)[0]) by {
        if a.len() == 0 {
            assert((a + lm + b)[0] == lm[0]);
        }
    }
}

/// A change of one child is a change of the node.
#[verifier::spinoff_prover]
#[verifier::rlimit(60)]
pub proof fn lemma_child_step(
    p: PageMap,
    q: PageMap,
    id: u32,
    keys: Seq<i64>,
    cs: Seq<u32>,
    h: nat,
    lo: int,
    hi: int,
    end: Option<u32>,
    pos: int,
    tc: Seq<EntryModel>,
    split: Option<(i64, u32)>,
    n0: u32,
    n1: u32,
)
    requires
        internal_ok(p, id, keys, cs, h, lo, hi),
        p.contains_key(id),
        p[id] == (NodeModel::Internal { keys, children: cs }),
        0 <= pos < cs.len(),
        below(p, n0),
        chain(p, leaf_list(p, cs, (h - 1) as nat), end),
        grown(
            p,
            q,
            cs[pos],
            (h - 1) as nat,
            bound(keys, lo, hi, pos),
            bound(keys, lo, hi, pos + 1),
            end_of(p, cs, h, pos, end),
            tc,
            split,
            n0,
            n1,
        ),
    ensures
        spread(
            p,
            q,
            id,
            keys_after(keys, pos, split),
            kids_after(cs, pos, split),
            h,
            lo,
            hi,
            end,
            entries_of(p, before(p, cs, h, pos)) + tc + entries_of(p, behind(p, cs, h, pos)),
            n0,
            n1,
        ),
        q[id] == p[id],
        q.contains_key(id),
{
    let k = (h - 1) as nat;
    let c = cs[pos];
    let mid = parts_of(c, split);
    let mkeys = cuts_of(split);
    assert(kids_after(cs, pos, split) =~= spliced(cs, pos, 1, mid));
    assert(keys_after(keys, pos, split) =~= spliced(keys, pos, 0, mkeys));
    lemma_step_parts(p, q, id, keys, cs, h, lo, hi, end, pos, tc, split, n0, n1);
    lemma_replace_child(p, q, id, keys, cs, h, lo, hi, pos, mkeys, mid, n0, n1);
    lemma_step_leaves(p, q, id, keys, cs, h, lo, hi, end, pos, tc, split, n0, n1);
    assert(leaf_ids(p, id, h) == leaf_list(p, cs, k));
    lemma_step_pages(p, q, id, keys, cs, h, lo, hi, end, pos, tc, split, n0, n1);
    lemma_child_pages(p, id, h, pos);
    assert(!pages(p, c, k).contains(id));
    lemma_step_kept(p, q, id, keys, cs, h, lo, hi, end, pos, tc, split, n0, n1);
}

/// A node with room takes the changed children.
pub proof fn lemma_node_kept(
    p: PageMap,
    q: PageMap,
    r: PageMap,
    id: u32,
    keys: Seq<i64>,
    cs: Seq<u32>,
    h: nat,
    lo: int,
    hi: int,
    end: Option<u32>,
    t: Seq<EntryModel>,
    n0: u32,
    n1: u32,
)
    requires
        spread(p, q, id, keys, cs, h, lo, hi, end, t, n0, n1),
        p.contains_key(id),
        keys.len() <= FANOUT,
        r == q.insert(id, NodeModel::Internal { keys, children: cs }),
    ensures
        grown(p, r, id, h, lo, hi, end, t, None, n0, n1),
{
    let k = (h - 1) as nat;
    assert(!page_list(q, cs, k).contains(id)) by {
        lemma_page_list(q, cs, k, id);
    }
    lemma_unaffected(q, r, id, keys, cs, h, lo, hi, end);
    assert(pages(p, id, h).contains(id));
    assert(pages(r, id, h) == page_list(r, cs, k).insert(id));
    assert(wf(r, id, h, lo, hi));
}

/// Pages that no child holds do not matter to the children.
proof fn lemma_unaffected(
    q: PageMap,
    r: PageMap,
    id: u32,
    keys: Seq<i64>,
    cs: Seq<u32>,
    h: nat,
    lo: int,
    hi: int,
    end: Option<u32>,
)
    requires
        internal_ok(q, id, keys, cs, h, lo, hi),
        forall|x: u32|
            #[trigger] page_list(q, cs, (h - 1) as nat).contains(x) && q.contains_key(x) ==> r.contains_key(x)
                && r[x] == q[x],
    ensures
        internal_ok(r, id, keys, cs, h, lo, hi),
        leaf_list(r, cs, (h - 1) as nat) == leaf_list(q, cs, (h - 1) as nat),
        page_list(r, cs, (h - 1) as nat) == page_list(q, cs, (h - 1) as nat),
        entries_of(r, leaf_list(q, cs, (h - 1) as nat)) == entries_of(q, leaf_list(q, cs, (h - 1) as nat)),
        chain(q, leaf_list(q, cs, (h - 1) as nat), end) ==> chain(r, leaf_list(q, cs, (h - 1) as nat), end),
{
    let k = (h - 1) as nat;
    assert forall|x: u32| #[trigger] page_list(q, cs, k).contains(x) implies q.contains_key(x) by {
        lemma_page_list(q, cs, k, x);
        let i = choose|i: int| 0 <= i < cs.len() && pages(q, #[trigger] cs[i], k).contains(x);
        lemma_pages_in_map(q, cs[i], k, bound(keys, lo, hi, i), bound(keys, lo, hi, i + 1));
    }
    lemma_frame_internal(q, r, id, keys, cs, h, lo, hi);
    lemma_leaves_list(q, keys, cs, h, lo, hi, 0, cs.len() as int, id);
    assert(cs.subrange(0, cs.len() as int) =~= cs);
    let l = leaf_list(q, cs, k);
    assert forall|i: int| 0 <= i < l.len() implies q[#[trigger] l[i]] == r[l[i]] by {
        assert(page_list(q, cs, k).contains(l[i]));
    }
    lemma_entries_frame(q, r, l);
    if chain(q, l, end) {
        lemma_chain_frame(q, r, l, end);
    }
}

/// A run of children under their separators, for a page that none of them
/// holds.
proof fn lemma_run_ok(
    q: PageMap,
    id: u32,
    id2: u32,
    keys: Seq<i64>,
    cs: Seq<u32>,
    h: nat,
    lo: int,
    hi: int,
    m: int,
    n: int,
)
    requires
        internal_ok(q, id, keys, cs, h, lo, hi),
        0 <= m < n <= cs.len(),
        !page_list(q, cs, (h - 1) as nat).contains(id2),
    ensures
        internal_ok(
            q,
            id2,
            keys.subrange(m, n - 1),
            cs.subrange(m, n),
            h,
            bound(keys, lo, hi, m),
            bound(keys, lo, hi, n),
        ),
        page_list(q, cs.subrange(m, n), (h - 1) as nat).subset_of(page_list(q, cs, (h - 1) as nat)),
{
    let k = (h - 1) as nat;
    let ks = keys.subrange(m, n - 1);
    let r = cs.subrange(m, n);
    let bl = bound(keys, lo, hi, m);
    let bh = bound(keys, lo, hi, n);
    lemma_list_ok(q, id, keys, cs, h, lo, hi, m, n);
    lemma_contents_ok(q, cs[m], k, bound(keys, lo, hi, m), bound(keys, lo, hi, m + 1));
    lemma_list_ok(q, id, keys, cs, h, lo, hi, m + 1, n);
    assert forall|i: int| 0 <= i < r.len() implies wf(
        q,
        #[trigger] r[i],
        k,
        bound(ks, bl, bh, i),
        bound(ks, bl, bh, i + 1),
    ) && !pages(q, r[i], k).contains(id2) by {
        assert(r[i] == cs[m + i]);
        assert(bound(ks, bl, bh, i) == bound(keys, lo, hi, m + i));
        assert(bound(ks, bl, bh, i + 1) == bound(keys, lo, hi, m + i + 1));
        lemma_page_list(q, cs, k, id2);
    }
    assert forall|i: int, j: int| 0 <= i < j < r.len() implies pages(q, #[trigger] r[i], k).disjoint(
        pages(q, #[trigger] r[j], k),
    ) by {
        assert(r[i] == cs[m + i] && r[j] == cs[m + j]);
    }
    assert forall|x: u32| #[trigger] page_list(q, r, k).contains(x) implies page_list(q, cs, k).contains(x) by {
        lemma_page_list(q, r, k, x);
        let i = choose|i: int| 0 <= i < r.len() && pages(q, #[trigger] r[i], k).contains(x);
        assert(pages(q, cs[m + i], k).contains(x));
        lemma_page_list(q, cs, k, x);
    }
}

/// An overfull node splits around its middle separator.
pub proof fn lemma_node_split(
    p: PageMap,
    q: PageMap,
    r: PageMap,
    id: u32,
    keys: Seq<i64>,
    cs: Seq<u32>,
    h: nat,
    lo: int,
    hi: int,
    end: Option<u32>,
    t: Seq<EntryModel>,
    n0: u32,
    n1: u32,
    m: int,
)
    requires
        spread(p, q, id, keys, cs, h, lo, hi, end, t, n0, n1),
        p.contains_key(id),
        below(p, n0),
        n1 < u32::MAX,
        0 < m < keys.len(),
        m <= FANOUT,
        keys.len() - m - 1 <= FANOUT,
        r == q.insert(
            id,
            NodeModel::Internal { keys: keys.subrange(0, m), children: cs.subrange(0, m + 1) },
        ).insert(
            n1,
            NodeModel::Internal {
                keys: keys.subrange(m + 1, keys.len() as int),
                children: cs.subrange(m + 1, cs.len() as int),
            },
        ),
    ensures
        grown(p, r, id, h, lo, hi, end, t, Some((keys[m], n1)), n0, (n1 + 1) as u32),
{
    let k = (h - 1) as nat;
    let n = cs.len() as int;
    let cl = cs.subrange(0, m + 1);
    let cr = cs.subrange(m + 1, n);
    let kl = keys.subrange(0, m);
    let kr = keys.subrange(m + 1, keys.len() as int);
    let sep = keys[m];
    assert(pages(p, id, h).contains(id));
    assert(id < n0);
    assert(!page_list(q, cs, k).contains(n1)) by {
        if page_list(q, cs, k).contains(n1) {
            lemma_page_list(q, cs, k, n1);
            let i = choose|i: int| 0 <= i < cs.len() && pages(q, #[trigger] cs[i], k).contains(n1);
            lemma_pages_in_map(q, cs[i], k, bound(keys, lo, hi, i), bound(keys, lo, hi, i + 1));
            assert(q.contains_key(n1));
            assert(p.contains_key(n1));
        }
    }
    assert(!page_list(q, cs, k).contains(id)) by {
        lemma_page_list(q, cs, k, id);
    }
    lemma_run_ok(q, id, id, keys, cs, h, lo, hi, 0, m + 1);
    lemma_run_ok(q, id, n1, keys, cs, h, lo, hi, m + 1, n);
    lemma_unaffected(q, r, id, kl, cl, h, lo, sep as int, None);
    lemma_unaffected(q, r, n1, kr, cr, h, sep as int, hi, None);
    lemma_unaffected(q, r, id, keys, cs, h, lo, hi, end);
    assert(cl + cr =~= cs);
    lemma_leaf_list_concat(q, cl, cr, k);
    lemma_entries_concat(r, leaf_list(q, cl, k), leaf_list(q, cr, k));
    assert(leaf_ids(r, id, h) == leaf_list(r, cl, k));
    assert(leaf_ids(r, n1, h) == leaf_list(r, cr, k));
    lemma_leaves_list(q, keys, cs, h, lo, hi, 0, m + 1, id);
    assert(leaf_list(q, cs, k)[0] == leaf_list(q, cl, k)[0]);
    assert(pages(r, id, h) == page_list(r, cl, k).insert(id));
    assert(pages(r, n1, h) == page_list(r, cr, k).insert(n1));
    assert forall|x: u32| !(page_list(q, cl, k).contains(x) && page_list(q, cr, k).contains(x)) by {
        if page_list(q, cl, k).contains(x) && page_list(q, cr, k).contains(x) {
            lemma_page_list(q, cl, k, x);
            lemma_page_list(q, cr, k, x);
            let i = choose|i: int| 0 <= i < cl.len() && pages(q, #[trigger] cl[i], k).contains(x);
            let j = choose|j: int| 0 <= j < cr.len() && pages(q, #[trigger] cr[j], k).contains(x);
            assert(cl[i] == cs[i] && cr[j] == cs[m + 1 + j]);
            assert(pages(q, cs[i], k).disjoint(pages(q, cs[m + 1 + j], k)));
        }
    }
    assert(pages(r, id, h).disjoint(pages(r, n1, h)));
    assert forall|x: u32| page_list(q, cs, k).contains(x) implies page_list(q, cl, k).contains(x) || page_list(
        q,
        cr,
        k,
    ).contains(x) by {
        lemma_page_list(q, cs, k, x);
        lemma_page_list(q, cl, k, x);
        lemma_page_list(q, cr, k, x);
        let i = choose|i: int| 0 <= i < cs.len() && pages(q, #[trigger] cs[i], k).contains(x);
        if i < m + 1 {
            assert(cl[i] == cs[i]);
        } else {
            assert(cr[i - m - 1] == cs[i]);
        }
    }
    assert(wf(r, id, h, lo, sep as int));
    assert(wf(r, n1, h, sep as int, hi));
}

/// A leaf with room takes the new entries.
pub proof fn lemma_leaf_kept(
    p: PageMap,
    r: PageMap,
    id: u32,
    lo: int,
    hi: int,
    end: Option<u32>,
    t: Seq<EntryModel>,
    n0: u32,
)
    requires
        wf(p, id, 0, lo, hi),
        chain(p, leaf_ids(p, id, 0), end),
        entries_ok(t, lo, hi),
        t.len() <= FANOUT,
        r == p.insert(id, NodeModel::Leaf { entries: t, next: end }),
    ensures
        grown(p, r, id, 0, lo, hi, end, t, None, n0, n0),
        leaf_next(p, id) == end,
{
    assert(leaf_ids(p, id, 0)[0] == id);
    assert(leaf_next(p, leaf_ids(p, id, 0)[0]) == end);
    lemma_entries_one(r, id);
}

/// An overfull leaf splits.
pub proof fn lemma_leaf_split(
    p: PageMap,
    r: PageMap,
    id: u32,
    lo: int,
    hi: int,
    end: Option<u32>,
    t: Seq<EntryModel>,
    n0: u32,
    m: int,
)
    requires
        wf(p, id, 0, lo, hi),
        below(p, n0),
        n0 < u32::MAX,
        chain(p, leaf_ids(p, id, 0), end),
        entries_ok(t, lo, hi),
        0 < m < t.len(),
        m <= FANOUT,
        t.len() - m <= FANOUT,
        r == p.insert(id, NodeModel::Leaf { entries: t.subrange(0, m), next: Some(n0) }).insert(
            n0,
            NodeModel::Leaf { entries: t.subrange(m, t.len() as int), next: end },
        ),
    ensures
        grown(p, r, id, 0, lo, hi, end, t, Some((t[m].0, n0)), n0, (n0 + 1) as u32),
{
    assert(leaf_ids(p, id, 0)[0] == id);
    assert(id < n0);
    let a = t.subrange(0, m);
    let b = t.subrange(m, t.len() as int);
    lemma_entries_one(r, id);
    lemma_entries_one(r, n0);
    assert(a + b =~= t);
    let sep = t[m].0 as int;
    assert(t[0].0 < t[m].0);
    assert(entries_ok(a, lo, sep)) by {
        assert forall|i: int| 0 <= i < a.len() implies lo <= (#[trigger] a[i]).0 < sep && a[i].1.len() > 0
            && a[i].1.no_duplicates() by {
            assert(a[i] == t[i]);
        }
    }
    assert(entries_ok(b, sep, hi)) by {
        assert forall|i: int| 0 <= i < b.len() implies sep <= (#[trigger] b[i]).0 < hi && b[i].1.len() > 0
            && b[i].1.no_duplicates() by {
            assert(b[i] == t[m + i]);
        }
    }
    assert(wf(r, id, 0, lo, sep));
    assert(wf(r, n0, 0, sep, hi));
    let l = leaf_ids(r, id, 0) + leaf_ids(r, n0, 0);
    assert(l =~= seq![id, n0]);
    assert(chain(r, l, end));
}

} // verus!
