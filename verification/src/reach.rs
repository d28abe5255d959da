//! Paths in a directed graph given as lists of successors.

use vstd::prelude::*;

verus! {

/// There is an edge from `u` to `v`.
pub open spec fn edge(g: Seq<Seq<usize>>, u: int, v: int) -> bool {
    0 <= u < g.len() && exists|j: int| 0 <= j < g[u].len() && #[trigger] g[u][j] == v
}

/// Every edge leads to a vertex.
pub open spec fn closed(g: Seq<Seq<usize>>) -> bool {
    forall|u: int, j: int| 0 <= u < g.len() && 0 <= j < g[u].len() ==> (#[trigger] g[u][j]) < g.len()
}

/// Vertex `i` of `p` is followed by a successor.
pub open spec fn step(g: Seq<Seq<usize>>, p: Seq<int>, i: int) -> bool {
    edge(g, p[i], p[i + 1])
}

/// `p` follows edges.
pub open spec fn walk(g: Seq<Seq<usize>>, p: Seq<int>) -> bool {
    &&& p.len() > 0
    &&& forall|i: int| 0 <= i < p.len() ==> 0 <= #[trigger] p[i] < g.len()
    &&& forall|i: int| 0 <= i < p.len() - 1 ==> #[trigger] step(g, p, i)
}

/// Edges lead from `u` to `v`; every vertex reaches itself.
pub open spec fn reaches(g: Seq<Seq<usize>>, u: int, v: int) -> bool {
    exists|p: Seq<int>| #[trigger] walk(g, p) && p[0] == u && p.last() == v
}

/// Each reaches the other.
pub open spec fn mutual(g: Seq<Seq<usize>>, u: int, v: int) -> bool {
    reaches(g, u, v) && reaches(g, v, u)
}

/// Some edge is part of a cycle.
pub open spec fn cyclic(g: Seq<Seq<usize>>) -> bool {
    exists|u: int, v: int| #[trigger] edge(g, u, v) && reaches(g, v, u)
}

pub proof fn lemma_refl(g: Seq<Seq<usize>>, u: int)
    requires
        0 <= u < g.len(),
    ensures
        reaches(g, u, u),
{
    let p = seq![u];
    assert(walk(g, p));
    assert(p[0] == u && p.last() == u);
}

pub proof fn lemma_edge(g: Seq<Seq<usize>>, u: int, v: int)
    requires
        closed(g),
        edge(g, u, v),
    ensures
        reaches(g, u, v),
        0 <= u < g.len(),
        0 <= v < g.len(),
{
    let p = seq![u, v];
    assert(step(g, p, 0));
    let j = choose|j: int| 0 <= j < g[u].len() && #[trigger] g[u][j] == v;
    assert(g[u][j] < g.len());
    assert(walk(g, p));
    assert(p[0] == u && p.last() == v);
}

pub proof fn lemma_trans(g: Seq<Seq<usize>>, u: int, v: int, w: int)
    requires
        reaches(g, u, v),
        reaches(g, v, w),
    ensures
        reaches(g, u, w),
{
    let p = choose|p: Seq<int>| #[trigger] walk(g, p) && p[0] == u && p.last() == v;
    let q = choose|p: Seq<int>| #[trigger] walk(g, p) && p[0] == v && p.last() == w;
    let r = p + q.drop_first();
    assert forall|i: int| 0 <= i < r.len() implies 0 <= #[trigger] r[i] < g.len() by {
        if i < p.len() {
            assert(r[i] == p[i]);
        } else {
            assert(r[i] == q[i - p.len() + 1]);
        }
    }
    assert forall|i: int| 0 <= i < r.len() - 1 implies #[trigger] step(g, r, i) by {
        if i < p.len() - 1 {
            assert(step(g, p, i));
        } else {
            let k = i - p.len() + 1;
            assert(step(g, q, k));
            assert(r[i] == q[k]);
            assert(r[i + 1] == q[k + 1]);
        }
    }
    assert(walk(g, r));
    assert(r[0] == u);
    assert(r.last() == w) by {
        if q.len() == 1 {
            assert(r =~= p);
        }
    }
}

pub proof fn lemma_range(g: Seq<Seq<usize>>, u: int, v: int)
    requires
        reaches(g, u, v),
    ensures
        0 <= u < g.len(),
        0 <= v < g.len(),
{
    let p = choose|p: Seq<int>| #[trigger] walk(g, p) && p[0] == u && p.last() == v;
    assert(0 <= p[0] < g.len());
    assert(0 <= p[p.len() - 1] < g.len());
}

/// A set that no edge leaves holds all that its members reach.
pub proof fn lemma_closed_forward(g: Seq<Seq<usize>>, s: Seq<bool>, u: int, v: int)
    requires
        s.len() == g.len(),
        forall|a: int, b: int| #[trigger] edge(g, a, b) && s[a] ==> s[b],
        reaches(g, u, v),
        s[u],
    ensures
        s[v],
{
    let p = choose|p: Seq<int>| #[trigger] walk(g, p) && p[0] == u && p.last() == v;
    lemma_along(g, s, p, p.len() - 1);
}

proof fn lemma_along(g: Seq<Seq<usize>>, s: Seq<bool>, p: Seq<int>, i: int)
    requires
        s.len() == g.len(),
        forall|a: int, b: int| #[trigger] edge(g, a, b) && s[a] ==> s[b],
        walk(g, p),
        s[p[0]],
        0 <= i < p.len(),
    ensures
        s[p[i]],
    decreases i,
{
    if i > 0 {
        lemma_along(g, s, p, i - 1);
        assert(step(g, p, i - 1));
    }
}

/// A set that no edge enters holds all that reach its members.
pub proof fn lemma_closed_backward(g: Seq<Seq<usize>>, s: Seq<bool>, u: int, v: int)
    requires
        s.len() == g.len(),
        forall|a: int, b: int| #[trigger] edge(g, a, b) && s[b] ==> s[a],
        reaches(g, u, v),
        s[v],
    ensures
        s[u],
{
    let p = choose|p: Seq<int>| #[trigger] walk(g, p) && p[0] == u && p.last() == v;
    lemma_back(g, s, p, 0);
}

proof fn lemma_back(g: Seq<Seq<usize>>, s: Seq<bool>, p: Seq<int>, i: int)
    requires
        s.len() == g.len(),
        forall|a: int, b: int| #[trigger] edge(g, a, b) && s[b] ==> s[a],
        walk(g, p),
        s[p.last()],
        0 <= i < p.len(),
    ensures
        s[p[i]],
    decreases p.len() - i,
{
    if i < p.len() - 1 {
        lemma_back(g, s, p, i + 1);
        assert(step(g, p, i));
    }
}

/// More places than values: some value occurs twice.
pub proof fn lemma_pigeonhole(s: Seq<int>, n: nat)
    requires
        s.len() > n,
        forall|i: int| 0 <= i < s.len() ==> 0 <= #[trigger] s[i] < n,
    ensures
        exists|i: int, j: int| 0 <= i < j < s.len() && #[trigger] s[i] == #[trigger] s[j],
{
    if !(exists|i: int, j: int| 0 <= i < j < s.len() && #[trigger] s[i] == #[trigger] s[j]) {
        assert(s.no_duplicates()) by {
            assert forall|i: int, j: int| 0 <= i < s.len() && 0 <= j < s.len() && i != j implies s[i] != s[j] by {
                if i < j {
                    assert(s[i] != s[j]);
                } else {
                    assert(s[j] != s[i]);
                }
            }
        }
        s.unique_seq_to_set();
        let all = vstd::set_lib::set_int_range(0, n as int);
        vstd::set_lib::lemma_int_range(0, n as int);
        assert(s.to_set().subset_of(all)) by {
            assert forall|x: int| s.to_set().contains(x) implies all.contains(x) by {
                let i = choose|i: int| 0 <= i < s.len() && s[i] == x;
                assert(0 <= s[i] < n);
            }
        }
        vstd::set_lib::lemma_len_subset(s.to_set(), all);
    }
}

/// Where every vertex of a set has a predecessor in the set, there is a cycle.
pub proof fn lemma_backward_cycle(g: Seq<Seq<usize>>, s: Seq<bool>, v: int)
    requires
        closed(g),
        s.len() == g.len(),
        0 <= v < g.len(),
        s[v],
        forall|b: int| 0 <= b < g.len() && #[trigger] s[b] ==> exists|a: int| #[trigger] edge(g, a, b) && s[a],
    ensures
        cyclic(g),
{
    let b = backward(g, s, v, g.len());
    lemma_backward(g, s, v, g.len());
    lemma_pigeonhole(b, g.len());
    let (i, j) = choose|i: int, j: int| 0 <= i < j < b.len() && #[trigger] b[i] == #[trigger] b[j];
    assert(back_step(g, b, i));
    lemma_backward_reaches(g, b, i + 1, j);
    assert(edge(g, b[i + 1], b[i]) && reaches(g, b[i], b[i + 1]));
}

/// `n` steps back from `v` within a set.
spec fn backward(g: Seq<Seq<usize>>, s: Seq<bool>, v: int, n: nat) -> Seq<int>
    decreases n,
{
    if n == 0 {
        seq![v]
    } else {
        let b = backward(g, s, v, (n - 1) as nat);
        b.push(choose|a: int| #[trigger] edge(g, a, b.last()) && s[a])
    }
}

proof fn lemma_backward(g: Seq<Seq<usize>>, s: Seq<bool>, v: int, n: nat)
    requires
        closed(g),
        s.len() == g.len(),
        0 <= v < g.len(),
        s[v],
        forall|b: int| 0 <= b < g.len() && #[trigger] s[b] ==> exists|a: int| #[trigger] edge(g, a, b) && s[a],
    ensures
        backward(g, s, v, n).len() == n + 1,
        forall|i: int|
            0 <= i <= n ==> 0 <= #[trigger] backward(g, s, v, n)[i] < g.len() && s[backward(g, s, v, n)[i]],
        forall|i: int| 0 <= i < n ==> #[trigger] back_step(g, backward(g, s, v, n), i),
    decreases n,
{
    if n > 0 {
        lemma_backward(g, s, v, (n - 1) as nat);
        let b = backward(g, s, v, (n - 1) as nat);
        let c = backward(g, s, v, n);
        assert(s[b[n - 1]]);
        assert(b.last() == b[n - 1]);
        let a = choose|a: int| #[trigger] edge(g, a, b.last()) && s[a];
        assert(edge(g, a, b.last()) && s[a]);
        assert(0 <= a < g.len());
        assert forall|i: int| 0 <= i <= n implies 0 <= #[trigger] c[i] < g.len() && s[c[i]] by {
            if i < n {
                assert(c[i] == b[i]);
            }
        }
        assert forall|i: int| 0 <= i < n implies #[trigger] back_step(g, c, i) by {
            if i < n - 1 {
                assert(back_step(g, b, i));
            }
        }
    }
}

spec fn back_step(g: Seq<Seq<usize>>, b: Seq<int>, i: int) -> bool {
    edge(g, b[i + 1], b[i])
}

proof fn lemma_backward_reaches(g: Seq<Seq<usize>>, b: Seq<int>, i: int, j: int)
    requires
        closed(g),
        0 <= i <= j < b.len(),
        forall|k: int| 0 <= k < b.len() ==> 0 <= #[trigger] b[k] < g.len(),
        forall|k: int| 0 <= k < b.len() - 1 ==> #[trigger] back_step(g, b, k),
    ensures
        reaches(g, b[j], b[i]),
    decreases j - i,
{
    if i == j {
        lemma_refl(g, b[i]);
    } else {
        lemma_backward_reaches(g, b, i, j - 1);
        assert(back_step(g, b, j - 1));
        lemma_edge(g, b[j], b[j - 1]);
        lemma_trans(g, b[j], b[j - 1], b[i]);
    }
}

/// Where edges lead strictly up in some numbering, there is no cycle.
pub proof fn lemma_ranked_acyclic(g: Seq<Seq<usize>>, rank: Seq<int>)
    requires
        closed(g),
        rank.len() == g.len(),
        forall|a: int, b: int| #[trigger] edge(g, a, b) ==> rank[a] < rank[b],
    ensures
        !cyclic(g),
{
    if cyclic(g) {
        let (u, v) = choose|u: int, v: int| #[trigger] edge(g, u, v) && reaches(g, v, u);
        let p = choose|p: Seq<int>| #[trigger] walk(g, p) && p[0] == v && p.last() == u;
        lemma_rank_along(g, rank, p, p.len() - 1);
    }
}

proof fn lemma_rank_along(g: Seq<Seq<usize>>, rank: Seq<int>, p: Seq<int>, i: int)
    requires
        forall|a: int, b: int| #[trigger] edge(g, a, b) ==> rank[a] < rank[b],
        walk(g, p),
        0 <= i < p.len(),
    ensures
        rank[p[0]] <= rank[p[i]],
    decreases i,
{
    if i > 0 {
        lemma_rank_along(g, rank, p, i - 1);
        assert(step(g, p, i - 1));
    }
}

} // verus!
