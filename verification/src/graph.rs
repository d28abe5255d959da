//! Directed-graph utilities for plan and dependency analysis.
//!
//! A physical plan is a DAG of operators, and the transaction manager tracks a
//! wait-for graph among transactions. Both want the same primitives: topological
//! ordering (and cycle detection), strongly connected components, and reachability.
//! This module provides a compact adjacency-list [`DiGraph`] over dense integer
//! vertex ids plus those algorithms, all iterative so deep graphs do not blow
//! the stack.

use crate::reach;
use crate::scc;
use vstd::prelude::*;

verus! {

/// A directed graph over `0..n` vertices.
#[derive(Debug, Clone)]
pub struct DiGraph {
    adj: Vec<Vec<usize>>,
}

/// The successor lists.
pub open spec fn lists(v: Seq<Vec<usize>>) -> Seq<Seq<usize>> {
    v.map_values(|e: Vec<usize>| e@)
}

/// How many edges lists hold.
pub open spec fn edges(g: Seq<Seq<usize>>) -> nat
    decreases g.len(),
{
    if g.len() == 0 {
        0
    } else {
        edges(g.drop_last()) + g.last().len()
    }
}

/// How often `x` occurs.
pub open spec fn occurrences(s: Seq<usize>, x: int) -> nat
    decreases s.len(),
{
    if s.len() == 0 {
        0
    } else {
        occurrences(s.drop_last(), x) + if s.last() == x {
            1nat
        } else {
            0nat
        }
    }
}

/// How many edges lead to `x`.
pub open spec fn in_degree(g: Seq<Seq<usize>>, x: int) -> nat
    decreases g.len(),
{
    if g.len() == 0 {
        0
    } else {
        in_degree(g.drop_last(), x) + occurrences(g.last(), x)
    }
}

/// `order` names every vertex once, and every edge leads to a later one.
pub open spec fn is_topological(g: Seq<Seq<usize>>, order: Seq<usize>) -> bool {
    &&& order.len() == g.len()
    &&& order.no_duplicates()
    &&& forall|i: int| 0 <= i < order.len() ==> (#[trigger] order[i]) < g.len()
    &&& forall|i: int, j: int|
        0 <= i < order.len() && 0 <= j < order.len() && reach::edge(g, #[trigger] order[i] as int, #[trigger] order[j] as int)
            ==> i < j
}

/// How many are not marked.
spec fn unmarked(s: Seq<bool>) -> nat
    decreases s.len(),
{
    if s.len() == 0 {
        0
    } else {
        unmarked(s.drop_last()) + if s.last() {
            0nat
        } else {
            1nat
        }
    }
}

proof fn lemma_mark(s: Seq<bool>, i: int)
    requires
        0 <= i < s.len(),
        !s[i],
    ensures
        unmarked(s.update(i, true)) == unmarked(s) - 1,
        unmarked(s) > 0,
    decreases s.len(),
{
    let u = s.update(i, true);
    if i < s.len() - 1 {
        lemma_mark(s.drop_last(), i);
        assert(u.drop_last() =~= s.drop_last().update(i, true));
    } else {
        assert(u.drop_last() =~= s.drop_last());
    }
}

proof fn lemma_occurs(s: Seq<usize>, x: int, j: int)
    requires
        0 <= j < s.len(),
        s[j] == x,
    ensures
        occurrences(s, x) >= 1,
    decreases s.len(),
{
    if j < s.len() - 1 {
        lemma_occurs(s.drop_last(), x, j);
    }
}

proof fn lemma_occurs_inv(s: Seq<usize>, x: int)
    requires
        occurrences(s, x) >= 1,
    ensures
        exists|j: int| 0 <= j < s.len() && #[trigger] s[j] == x,
    decreases s.len(),
{
    if s.last() == x {
        assert(s[s.len() - 1] == x);
    } else {
        lemma_occurs_inv(s.drop_last(), x);
        let j = choose|j: int| 0 <= j < s.drop_last().len() && #[trigger] s.drop_last()[j] == x;
        assert(s[j] == x);
    }
}

proof fn lemma_occurs_front(s: Seq<usize>, x: int)
    requires
        s.len() > 0,
    ensures
        occurrences(s, x) == occurrences(s.drop_first(), x) + if s[0] == x {
            1nat
        } else {
            0nat
        },
    decreases s.len(),
{
    if s.len() > 1 {
        lemma_occurs_front(s.drop_last(), x);
        assert(s.drop_last().drop_first() =~= s.drop_first().drop_last());
        assert(s.drop_first().last() == s.last());
    } else {
        assert(s.drop_last() =~= Seq::<usize>::empty());
        assert(s.drop_first() =~= Seq::<usize>::empty());
    }
}

proof fn lemma_occurs_bound(s: Seq<usize>, x: int)
    ensures
        occurrences(s, x) <= s.len(),
    decreases s.len(),
{
    if s.len() > 0 {
        lemma_occurs_bound(s.drop_last(), x);
    }
}

proof fn lemma_in_degree_bound(g: Seq<Seq<usize>>, x: int)
    ensures
        in_degree(g, x) <= edges(g),
    decreases g.len(),
{
    if g.len() > 0 {
        lemma_in_degree_bound(g.drop_last(), x);
        lemma_occurs_bound(g.last(), x);
    }
}

proof fn lemma_edges_take(g: Seq<Seq<usize>>, n: int)
    requires
        0 <= n <= g.len(),
    ensures
        edges(g.take(n)) <= edges(g),
    decreases g.len(),
{
    if n < g.len() {
        lemma_edges_take(g.drop_last(), n);
        assert(g.drop_last().take(n) =~= g.take(n));
    } else {
        assert(g.take(n) =~= g);
    }
}

proof fn lemma_edges_push(g: Seq<Seq<usize>>, u: int, l: Seq<usize>)
    requires
        0 <= u < g.len(),
        l.len() == g[u].len() + 1,
    ensures
        edges(g.update(u, l)) == edges(g) + 1,
    decreases g.len(),
{
    let h = g.update(u, l);
    if u < g.len() - 1 {
        lemma_edges_push(g.drop_last(), u, l);
        assert(h.drop_last() =~= g.drop_last().update(u, l));
    } else {
        assert(h.drop_last() =~= g.drop_last());
    }
}

impl Default for DiGraph {
    fn default() -> (r: DiGraph)
        ensures
            r.wf(),
            r@ == Seq::<Seq<usize>>::empty(),
    {
        DiGraph::new(0)
    }
}

impl View for DiGraph {
    type V = Seq<Seq<usize>>;

    /// The successors of each vertex.
    closed spec fn view(&self) -> Seq<Seq<usize>> {
        lists(self.adj@)
    }
}

impl DiGraph {
    /// Every edge leads to a vertex, and the edges can be counted.
    pub open spec fn wf(&self) -> bool {
        reach::closed(self@) && edges(self@) <= usize::MAX && self@.len() <= usize::MAX
    }

    /// A graph with `n` isolated vertices.
    pub fn new(n: usize) -> (r: DiGraph)
        ensures
            r.wf(),
            r@ == Seq::new(n as nat, |i: int| Seq::<usize>::empty()),
    {
        let mut adj: Vec<Vec<usize>> = Vec::new();
        let mut i: usize = 0;
        while i < n
            invariant
                i <= n,
                lists(adj@) == Seq::new(i as nat, |i: int| Seq::<usize>::empty()),
                edges(lists(adj@)) == 0,
                adj@.len() == i,
            decreases n - i,
        {
            let ghost was = lists(adj@);
            adj.push(Vec::new());
            i += 1;
            assert(lists(adj@) =~= was.push(Seq::<usize>::empty()));
            assert(lists(adj@).drop_last() =~= was);
            assert(lists(adj@) =~= Seq::new(i as nat, |i: int| Seq::<usize>::empty()));
        }
        DiGraph { adj }
    }

    /// Number of vertices.
    pub fn vertex_count(&self) -> (r: usize)
        ensures
            r == self@.len(),
    {
        self.adj.len()
    }

    /// Number of edges.
    pub fn edge_count(&self) -> (r: usize)
        requires
            self.wf(),
        ensures
            r == edges(self@),
    {
        let mut n: usize = 0;
        let mut i: usize = 0;
        assert(self@.take(0) =~= Seq::<Seq<usize>>::empty());
        while i < self.adj.len()
            invariant
                i <= self.adj@.len(),
                self.wf(),
                n == edges(self@.take(i as int)),
            decreases self.adj@.len() - i,
        {
            proof {
                assert(self@.take(i + 1).drop_last() =~= self@.take(i as int));
                lemma_edges_take(self@, i + 1);
            }
            n += self.adj[i].len();
            i += 1;
        }
        assert(self@.take(i as int) =~= self@);
        n
    }

    /// Ensure the graph has the vertex `v`.
    pub fn ensure_vertex(&mut self, v: usize)
        requires
            old(self).wf(),
            v < usize::MAX,
        ensures
            final(self).wf(),
            final(self)@.len() == (if v < old(self)@.len() {
                old(self)@.len()
            } else {
                (v + 1) as nat
            }),
            forall|i: int| 0 <= i < final(self)@.len() ==> #[trigger] final(self)@[i] == (if i < old(self)@.len() {
                old(self)@[i]
            } else {
                Seq::<usize>::empty()
            }),
            edges(final(self)@) == edges(old(self)@),
    {
        while self.adj.len() <= v
            invariant
                v < usize::MAX,
                self.wf(),
                old(self)@.len() <= self@.len(),
                self@.len() <= v + 1 || self@.len() == old(self)@.len(),
                forall|i: int| 0 <= i < self@.len() ==> #[trigger] self@[i] == (if i < old(self)@.len() {
                    old(self)@[i]
                } else {
                    Seq::<usize>::empty()
                }),
                edges(self@) == edges(old(self)@),
            decreases v + 1 - self@.len(),
        {
            let ghost was = self@;
            self.adj.push(Vec::new());
            assert(self@ =~= was.push(Seq::<usize>::empty()));
            assert(self@.drop_last() =~= was);
        }
    }

    /// Add a directed edge `from -> to`.
    pub fn add_edge(&mut self, from: usize, to: usize)
        requires
            old(self).wf(),
            from < usize::MAX,
            to < usize::MAX,
            edges(old(self)@) < usize::MAX,
        ensures
            final(self).wf(),
            ({
                let top = if from > to {
                    from
                } else {
                    to
                };
                final(self)@.len() == (if top < old(self)@.len() {
                    old(self)@.len()
                } else {
                    (top + 1) as nat
                })
            }),
            forall|i: int| 0 <= i < final(self)@.len() ==> #[trigger] final(self)@[i] == (if i < old(self)@.len() {
                old(self)@[i]
            } else {
                Seq::<usize>::empty()
            }) + (if i == from {
                seq![to]
            } else {
                Seq::<usize>::empty()
            }),
    {
        let top: usize = if from > to {
            from
        } else {
            to
        };
        self.ensure_vertex(top);
        let ghost was = self@;
        let mut l = self.adj.remove(from);
        let ghost l0 = l@;
        l.push(to);
        self.adj.insert(from, l);
        proof {
            assert(self@ =~= was.update(from as int, l@));
            assert(l0 == was[from as int]);
            lemma_edges_push(was, from as int, l@);
            assert forall|i: int| 0 <= i < self@.len() implies #[trigger] self@[i] == (if i < old(self)@.len() {
                old(self)@[i]
            } else {
                Seq::<usize>::empty()
            }) + (if i == from {
                seq![to]
            } else {
                Seq::<usize>::empty()
            }) by {
                let w = was[i];
                if i == from {
                    assert(self@[i] =~= w + seq![to]);
                } else {
                    assert(self@[i] =~= w + Seq::<usize>::empty());
                }
            }
            assert forall|u: int, j: int| 0 <= u < self@.len() && 0 <= j < self@[u].len() implies (#[trigger] self@[u][j])
                < self@.len() by {
                if u != from {
                    assert(self@[u][j] == was[u][j]);
                } else if j < l0.len() {
                    assert(self@[u][j] == was[u][j]);
                }
            }
        }
    }

    /// Successors of a vertex.
    pub fn successors(&self, v: usize) -> (r: &[usize])
        requires
            v < self@.len(),
        ensures
            r@ == self@[v as int],
    {
        self.adj[v].as_slice()
    }

    /// In-degree of each vertex.
    pub fn in_degrees(&self) -> (deg: Vec<usize>)
        requires
            self.wf(),
        ensures
            deg@.len() == self@.len(),
            forall|x: int| 0 <= x < self@.len() ==> #[trigger] deg@[x] == in_degree(self@, x),
    {
        let n: usize = self.adj.len();
        let ghost g = self@;
        let mut deg: Vec<usize> = Vec::new();
        let mut i: usize = 0;
        while i < n
            invariant
                i <= n,
                deg@.len() == i,
                forall|x: int| 0 <= x < i ==> #[trigger] deg@[x] == 0,
            decreases n - i,
        {
            deg.push(0);
            i += 1;
        }
        let mut u: usize = 0;
        assert(g.take(0) =~= Seq::<Seq<usize>>::empty());
        while u < n
            invariant
                u <= n,
                n == g.len(),
                n == self.adj@.len(),
                g == self@,
                self.wf(),
                deg@.len() == n,
                forall|x: int| 0 <= x < n ==> #[trigger] deg@[x] == in_degree(g.take(u as int), x),
            decreases n - u,
        {
            let ghost l = g[u as int];
            let mut j: usize = 0;
            proof {
                assert(l.take(0) =~= Seq::<usize>::empty());
                assert(g.take(u + 1).drop_last() =~= g.take(u as int));
                lemma_edges_take(g, u + 1);
            }
            while j < self.adj[u].len()
                invariant
                    u < n,
                    n == g.len(),
                    n == self.adj@.len(),
                    g == self@,
                    self.wf(),
                    l == g[u as int],
                    l == self.adj@[u as int]@,
                    j <= l.len(),
                    deg@.len() == n,
                    edges(g.take(u as int)) + l.len() <= usize::MAX,
                    forall|x: int|
                        0 <= x < n ==> #[trigger] deg@[x] == in_degree(g.take(u as int), x) + occurrences(
                            l.take(j as int),
                            x,
                        ),
                decreases l.len() - j,
            {
                let to: usize = self.adj[u][j];
                proof {
                    assert(g[u as int][j as int] < n);
                    assert(l.take(j + 1).drop_last() =~= l.take(j as int));
                    lemma_in_degree_bound(g.take(u as int), to as int);
                    lemma_occurs_bound(l.take(j as int), to as int);
                }
                let d: usize = deg[to];
                deg.set(to, d + 1);
                j += 1;
            }
            assert(l.take(j as int) =~= l);
            u += 1;
        }
        assert(g.take(n as int) =~= g);
        deg
    }

    /// `true` if `dst` is reachable from `src` along directed edges.
    pub fn reachable(&self, src: usize, dst: usize) -> (r: bool)
        requires
            self.wf(),
        ensures
            r == reach::reaches(self@, src as int, dst as int),
    {
        let n: usize = self.adj.len();
        let ghost g = self@;
        if src >= n {
            proof {
                if reach::reaches(g, src as int, dst as int) {
                    reach::lemma_range(g, src as int, dst as int);
                }
            }
            return false;
        }
        let mut visited = marks(n);
        let mut stack: Vec<usize> = Vec::new();
        proof {
            lemma_mark(visited@, src as int);
            reach::lemma_refl(g, src as int);
        }
        stack.push(src);
        visited.set(src, true);
        assert(stack@[0] == src);
        assert(stack@.contains(src));
        while stack.len() > 0
            invariant
                n == g.len(),
                n == self.adj@.len(),
                g == self@,
                self.wf(),
                src < n,
                visited@.len() == n,
                visited@[src as int],
                forall|i: int| 0 <= i < stack@.len() ==> (#[trigger] stack@[i]) < n && visited@[stack@[i] as int],
                forall|x: int| 0 <= x < n && #[trigger] visited@[x] ==> reach::reaches(g, src as int, x),
                forall|a: int, b: int| #[trigger]
                    reach::edge(g, a, b) && visited@[a] && !visited@[b] ==> stack@.contains(a as usize),
                forall|x: int| 0 <= x < n && #[trigger] visited@[x] && x == dst ==> stack@.contains(x as usize),
            decreases 2 * unmarked(visited@) + stack@.len(),
        {
            let ghost stack0 = stack@;
            let v: usize = stack.pop().unwrap();
            assert(stack0[stack0.len() - 1] == v);
            if v == dst {
                return true;
            }
            let ghost before = visited@;
            let ghost rest = stack@;
            assert(stack0 =~= rest.push(v));
            let mut j: usize = 0;
            while j < self.adj[v].len()
                invariant
                    n == g.len(),
                    n == self.adj@.len(),
                    g == self@,
                    self.wf(),
                    src < n,
                    v < n,
                    v != dst,
                    visited@.len() == n,
                    before.len() == n,
                    j <= g[v as int].len(),
                    g[v as int] == self.adj@[v as int]@,
                    visited@[src as int],
                    visited@[v as int],
                    forall|i: int|
                        0 <= i < stack@.len() ==> (#[trigger] stack@[i]) < n && visited@[stack@[i] as int],
                    forall|x: int| 0 <= x < n && #[trigger] visited@[x] ==> reach::reaches(g, src as int, x),
                    forall|a: int, b: int| #[trigger]
                        reach::edge(g, a, b) && visited@[a] && !visited@[b] ==> a == v || stack@.contains(
                            a as usize,
                        ),
                    forall|k: int| 0 <= k < j ==> visited@[#[trigger] g[v as int][k] as int],
                    forall|x: int|
                        0 <= x < n && #[trigger] visited@[x] && x == dst ==> stack@.contains(x as usize),
                    2 * unmarked(visited@) + stack@.len() <= 2 * unmarked(before) + rest.len(),
                decreases g[v as int].len() - j,
            {
                let to: usize = self.adj[v][j];
                assert(g[v as int][j as int] < n);
                if !visited[to] {
                    let ghost vis0 = visited@;
                    let ghost st0 = stack@;
                    proof {
                        lemma_mark(visited@, to as int);
                        assert(reach::edge(g, v as int, to as int)) by {
                            assert(g[v as int][j as int] == to);
                        }
                        reach::lemma_edge(g, v as int, to as int);
                        reach::lemma_trans(g, src as int, v as int, to as int);
                    }
                    visited.set(to, true);
                    stack.push(to);
                    proof {
                        assert(stack@[st0.len() as int] == to);
                        assert forall|a: int, b: int| #[trigger]
                            reach::edge(g, a, b) && visited@[a] && !visited@[b] implies a == v || stack@.contains(
                            a as usize,
                        ) by {
                            if a != to {
                                assert(vis0[a]);
                                if a != v {
                                    let i = choose|i: int| 0 <= i < st0.len() && st0[i] == a as usize;
                                    assert(stack@[i] == a as usize);
                                }
                            } else {
                                assert(stack@.contains(to));
                            }
                        }
                        assert forall|x: int| 0 <= x < n && #[trigger] visited@[x] && x == dst implies stack@.contains(
                            x as usize,
                        ) by {
                            if x != to {
                                assert(vis0[x]);
                                let i = choose|i: int| 0 <= i < st0.len() && st0[i] == x as usize;
                                assert(stack@[i] == x as usize);
                            }
                        }
                    }
                }
                j += 1;
            }
            proof {
                assert forall|a: int, b: int| #[trigger] reach::edge(g, a, b) && visited@[a] && !visited@[b] implies stack@.contains(
                    a as usize,
                ) by {
                    if a == v {
                        let k = choose|k: int| 0 <= k < g[a].len() && #[trigger] g[a][k] == b;
                        assert(visited@[g[v as int][k] as int]);
                    }
                }
            }
        }
        proof {
            if reach::reaches(g, src as int, dst as int) {
                reach::lemma_range(g, src as int, dst as int);
                assert forall|a: int, b: int| #[trigger] reach::edge(g, a, b) && visited@[a] implies visited@[b] by {
                    reach::lemma_edge(g, a, b);
                }
                reach::lemma_closed_forward(g, visited@, src as int, dst as int);
            }
        }
        false
    }
}

/// `n` marks, all clear.
fn marks(n: usize) -> (r: Vec<bool>)
    ensures
        r@ == Seq::new(n as nat, |i: int| false),
{
    let mut r: Vec<bool> = Vec::new();
    let mut i: usize = 0;
    while i < n
        invariant
            i <= n,
            r@ == Seq::new(i as nat, |i: int| false),
        decreases n - i,
    {
        r.push(false);
        i += 1;
        assert(r@ =~= Seq::new(i as nat, |i: int| false));
    }
    r
}

// Topological order

/// How many edges lead to `x` from vertices below `k` that are not in `done`.
spec fn pending(g: Seq<Seq<usize>>, done: Seq<usize>, x: int, k: nat) -> nat
    decreases k,
{
    if k == 0 {
        0
    } else {
        pending(g, done, x, (k - 1) as nat) + if done.contains((k - 1) as usize) {
            0nat
        } else {
            occurrences(g[k - 1], x)
        }
    }
}

proof fn lemma_pending_none(g: Seq<Seq<usize>>, x: int, k: nat)
    requires
        k <= g.len(),
    ensures
        pending(g, Seq::<usize>::empty(), x, k) == in_degree(g.take(k as int), x),
    decreases k,
{
    if k > 0 {
        lemma_pending_none(g, x, (k - 1) as nat);
        assert(g.take(k as int).drop_last() =~= g.take(k - 1));
    } else {
        assert(g.take(0) =~= Seq::<Seq<usize>>::empty());
    }
}

proof fn lemma_pending_done(g: Seq<Seq<usize>>, done: Seq<usize>, v: usize, x: int, k: nat)
    requires
        k <= g.len() <= usize::MAX,
        !done.contains(v),
    ensures
        pending(g, done, x, k) == pending(g, done.push(v), x, k) + if v < k {
            occurrences(g[v as int], x)
        } else {
            0
        },
    decreases k,
{
    if k > 0 {
        lemma_pending_done(g, done, v, x, (k - 1) as nat);
        let d = done.push(v);
        let y = (k - 1) as usize;
        if y == v {
            assert(d[d.len() - 1] == v);
            assert(d.contains(v));
        } else {
            if done.contains(y) {
                let i = choose|i: int| 0 <= i < done.len() && done[i] == y;
                assert(d[i] == y);
            }
            if d.contains(y) {
                let i = choose|i: int| 0 <= i < d.len() && d[i] == y;
                assert(done[i] == y);
            }
        }
    }
}

/// An edge from a vertex not in `done` is pending.
proof fn lemma_pending_edge(g: Seq<Seq<usize>>, done: Seq<usize>, u: int, x: int, k: nat)
    requires
        0 <= u < k <= g.len() <= usize::MAX,
        !done.contains(u as usize),
        reach::edge(g, u, x),
    ensures
        pending(g, done, x, k) >= 1,
    decreases k,
{
    if u < k - 1 {
        lemma_pending_edge(g, done, u, x, (k - 1) as nat);
    } else {
        let j = choose|j: int| 0 <= j < g[u].len() && #[trigger] g[u][j] == x;
        lemma_occurs(g[u], x, j);
    }
}

/// A pending edge comes from some vertex not in `done`.
proof fn lemma_pending_source(g: Seq<Seq<usize>>, done: Seq<usize>, x: int, k: nat)
    requires
        k <= g.len() <= usize::MAX,
        pending(g, done, x, k) >= 1,
    ensures
        exists|u: int| 0 <= u < k && !done.contains(u as usize) && #[trigger] reach::edge(g, u, x),
    decreases k,
{
    if !done.contains((k - 1) as usize) && occurrences(g[k - 1], x) >= 1 {
        lemma_occurs_inv(g[k - 1], x);
        assert(reach::edge(g, k - 1, x));
    } else {
        lemma_pending_source(g, done, x, (k - 1) as nat);
    }
}

/// Of the vertices, those in `queue` have no edge pending from outside `done`.
spec fn queued(g: Seq<Seq<usize>>, queue: Seq<usize>, deg: Seq<usize>) -> bool {
    &&& deg.len() == g.len()
    &&& queue.no_duplicates()
    &&& forall|i: int| 0 <= i < queue.len() ==> (#[trigger] queue[i]) < g.len()
    &&& forall|x: int| 0 <= x < g.len() ==> (#[trigger] deg[x] == 0 <==> queue.contains(x as usize))
}

/// Every edge into one of the first places of `queue` comes from an earlier place.
spec fn sorted_so_far(g: Seq<Seq<usize>>, queue: Seq<usize>, done: int) -> bool {
    forall|u: int, j: int|
        0 <= j < queue.len() && #[trigger] reach::edge(g, u, #[trigger] queue[j] as int) ==> exists|i: int|
            0 <= i < j && i < done && #[trigger] queue[i] == u
}

/// The vertices below `n` that no edge leads to, ascending.
pub open spec fn sources(deg: Seq<usize>, n: nat) -> Seq<usize>
    decreases n,
{
    if n == 0 {
        Seq::empty()
    } else {
        let before = sources(deg, (n - 1) as nat);
        if deg[n - 1] == 0 {
            before.push((n - 1) as usize)
        } else {
            before
        }
    }
}

/// Edges taken away, one after another: each vertex that loses its last one joins
/// the queue.
pub open spec fn released(es: Seq<usize>, deg: Seq<usize>, queue: Seq<usize>) -> (Seq<usize>, Seq<usize>)
    decreases es.len(),
{
    if es.len() == 0 {
        (deg, queue)
    } else {
        let (d, q) = released(es.drop_last(), deg, queue);
        let to = es.last() as int;
        (
            d.update(to, (d[to] - 1) as usize),
            if d[to] == 1 {
                q.push(es.last())
            } else {
                q
            },
        )
    }
}

/// The queue once every vertex on it, from place `head` on, has had its edges
/// taken away.
pub open spec fn drained(g: Seq<Seq<usize>>, deg: Seq<usize>, queue: Seq<usize>, head: nat) -> Seq<usize>
    decreases g.len() - head,
{
    if head < queue.len() && head < g.len() {
        let (d, q) = released(g[queue[head as int] as int], deg, queue);
        drained(g, d, q, head + 1)
    } else {
        queue
    }
}

/// The order in which vertices come free: first those that no edge leads to,
/// ascending, then each as its last edge goes.
pub open spec fn freeing_order(g: Seq<Seq<usize>>) -> Seq<usize> {
    let deg = Seq::new(g.len(), |x: int| in_degree(g, x) as usize);
    drained(g, deg, sources(deg, g.len()), 0)
}

impl DiGraph {
    /// Kahn's algorithm topological sort. Returns `None` if there is a cycle.
    pub fn topo_sort(&self) -> (r: Option<Vec<usize>>)
        requires
            self.wf(),
        ensures
            r is None <==> reach::cyclic(self@),
            r matches Some(order) ==> is_topological(self@, order@) && order@ == freeing_order(self@),
    {
        let n: usize = self.adj.len();
        let ghost g = self@;
        let mut deg = self.in_degrees();
        let mut queue: Vec<usize> = Vec::new();
        let mut v: usize = 0;
        while v < n
            invariant
                v <= n,
                n == g.len(),
                deg@.len() == n,
                queue@ == sources(deg@, v as nat),
                queue@.no_duplicates(),
                forall|i: int| 0 <= i < queue@.len() ==> (#[trigger] queue@[i]) < v,
                forall|x: int| 0 <= x < v ==> (#[trigger] deg@[x] == 0 <==> queue@.contains(x as usize)),
            decreases n - v,
        {
            let ghost q0 = queue@;
            if deg[v] == 0 {
                queue.push(v);
            }
            proof {
                assert forall|x: int| 0 <= x < v + 1 implies (#[trigger] deg@[x] == 0 <==> queue@.contains(x as usize)) by {
                    if x < v {
                        if q0.contains(x as usize) {
                            let i = choose|i: int| 0 <= i < q0.len() && q0[i] == x as usize;
                            assert(queue@[i] == x as usize);
                        }
                        if queue@.contains(x as usize) {
                            let i = choose|i: int| 0 <= i < queue@.len() && queue@[i] == x as usize;
                            assert(q0[i] == x as usize);
                        }
                    } else if deg@[x] == 0 {
                        assert(queue@[q0.len() as int] == v);
                    } else if queue@.contains(x as usize) {
                        let i = choose|i: int| 0 <= i < queue@.len() && queue@[i] == x as usize;
                        assert(q0[i] < v);
                    }
                }
            }
            v += 1;
        }
        let mut head: usize = 0;
        let ghost mut done = Seq::<usize>::empty();
        proof {
            assert(deg@ =~= Seq::new(g.len(), |x: int| in_degree(g, x) as usize));
            assert forall|x: int| 0 <= x < n implies #[trigger] deg@[x] == pending(g, done, x, n as nat) by {
                lemma_pending_none(g, x, n as nat);
                assert(g.take(n as int) =~= g);
            }
            assert(queue@.take(0) =~= done);
            assert(sorted_so_far(g, queue@, 0)) by {
                assert forall|u: int, j: int| 0 <= j < queue@.len() && #[trigger] reach::edge(
                    g,
                    u,
                    #[trigger] queue@[j] as int,
                ) implies exists|i: int| 0 <= i < j && i < 0 && #[trigger] queue@[i] == u by {
                    lemma_pending_edge(g, done, u, queue@[j] as int, n as nat);
                    assert(queue@.contains(queue@[j]));
                    assert(deg@[queue@[j] as int] == 0);
                }
            }
        }
        while head < queue.len()
            invariant
                n == g.len(),
                n == self.adj@.len(),
                g == self@,
                self.wf(),
                drained(g, deg@, queue@, head as nat) == freeing_order(g),
                head <= queue@.len(),
                done == queue@.take(head as int),
                queued(g, queue@, deg@),
                sorted_so_far(g, queue@, head as int),
                forall|x: int| 0 <= x < n ==> #[trigger] deg@[x] == pending(g, done, x, n as nat),
            decreases n - head,
        {
            let v: usize = queue[head];
            proof {
                lemma_unique_len(queue@, n as nat);
            }
            let ghost before = done;
            let ghost deg0 = deg@;
            let ghost queue0 = queue@;
            assert(g[v as int].take(0) =~= Seq::<usize>::empty());
            head += 1;
            proof {
                done = queue@.take(head as int);
                assert(done =~= before.push(v));
                assert(!before.contains(v)) by {
                    if before.contains(v) {
                        let i = choose|i: int| 0 <= i < before.len() && before[i] == v;
                        assert(queue@[i] == queue@[head - 1]);
                    }
                }
                assert forall|x: int| 0 <= x < n implies #[trigger] deg@[x] == pending(g, done, x, n as nat)
                    + occurrences(g[v as int].skip(0), x) by {
                    lemma_pending_done(g, before, v, x, n as nat);
                    assert(g[v as int].skip(0) =~= g[v as int]);
                }
            }
            let mut j: usize = 0;
            while j < self.adj[v].len()
                invariant
                    n == g.len(),
                    n == self.adj@.len(),
                    g == self@,
                    self.wf(),
                    v < n,
                    j <= g[v as int].len(),
                    g[v as int] == self.adj@[v as int]@,
                    (deg@, queue@) == released(g[v as int].take(j as int), deg0, queue0),
                    1 <= head <= queue@.len(),
                    done == queue@.take(head as int),
                    v == queue@[head - 1],
                    queued(g, queue@, deg@),
                    sorted_so_far(g, queue@, head as int),
                    forall|x: int|
                        0 <= x < n ==> #[trigger] deg@[x] == pending(g, done, x, n as nat) + occurrences(
                            g[v as int].skip(j as int),
                            x,
                        ),
                decreases g[v as int].len() - j,
            {
                let to: usize = self.adj[v][j];
                let ghost l = g[v as int].skip(j as int);
                let ghost q0 = queue@;
                let ghost d0 = deg@;
                proof {
                    assert(g[v as int][j as int] < n);
                    assert(l[0] == to);
                    assert(l.drop_first() =~= g[v as int].skip(j + 1));
                    lemma_occurs_front(l, to as int);
                }
                assert(g[v as int].take(j + 1).drop_last() =~= g[v as int].take(j as int));
                assert(g[v as int].take(j + 1).last() == to);
                let d: usize = deg[to];
                deg.set(to, d - 1);
                if d == 1 {
                    queue.push(to);
                    proof {
                        assert(!q0.contains(to)) by {
                            if q0.contains(to) {
                                assert(d0[to as int] == 0);
                            }
                        }
                        assert(queue@.take(head as int) =~= q0.take(head as int));
                    }
                }
                proof {
                    let q1 = queue@;
                    assert forall|x: int| 0 <= x < n implies #[trigger] deg@[x] == pending(g, done, x, n as nat)
                        + occurrences(g[v as int].skip(j + 1), x) by {
                        lemma_occurs_front(l, x);
                        assert(d0[x] == pending(g, done, x, n as nat) + occurrences(l, x));
                    }
                    assert forall|x: int| 0 <= x < n implies (#[trigger] deg@[x] == 0 <==> q1.contains(x as usize)) by {
                        if q0.contains(x as usize) {
                            let i = choose|i: int| 0 <= i < q0.len() && q0[i] == x as usize;
                            assert(q1[i] == x as usize);
                            assert(d0[x] == 0);
                        }
                        if x == to {
                            if d == 1 {
                                assert(q1[q0.len() as int] == to);
                            } else if q1.contains(to) {
                                assert(d0[to as int] == 0);
                            }
                        } else {
                            assert(d0[x] == deg@[x]);
                            if q1.contains(x as usize) {
                                let i = choose|i: int| 0 <= i < q1.len() && q1[i] == x as usize;
                                assert(q0[i] == x as usize);
                            }
                        }
                    }
                    assert(sorted_so_far(g, q1, head as int)) by {
                        assert forall|u: int, b: int| 0 <= b < q1.len() && #[trigger] reach::edge(
                            g,
                            u,
                            #[trigger] q1[b] as int,
                        ) implies exists|i: int| 0 <= i < b && i < head && #[trigger] q1[i] == u by {
                            if b < q0.len() {
                                assert(q0[b] == q1[b]);
                                let i = choose|i: int| 0 <= i < b && i < head && #[trigger] q0[i] == u;
                                assert(q1[i] == u);
                            } else {
                                assert(deg@[to as int] == 0);
                                if !done.contains(u as usize) {
                                    lemma_pending_edge(g, done, u, to as int, n as nat);
                                }
                                let i = choose|i: int| 0 <= i < done.len() && done[i] == u as usize;
                                assert(q1[i] == u);
                            }
                        }
                    }
                }
                j += 1;
            }
            assert(g[v as int].skip(j as int) =~= Seq::<usize>::empty());
            assert(g[v as int].take(j as int) =~= g[v as int]);
        }
        proof {
            lemma_unique_len(queue@, n as nat);
            assert(done =~= queue@);
        }
        if queue.len() == n {
            proof {
                lemma_order_topological(g, queue@);
            }
            Some(queue)
        } else {
            proof {
                lemma_stuck(g, queue@, deg@);
            }
            None
        }
    }

    /// The strongly connected components, each returned as a sorted vertex list;
    /// components are in reverse topological order.
    pub fn strongly_connected_components(&self) -> (r: Vec<Vec<usize>>)
        requires
            self.wf(),
        ensures
            scc::are_components(self@, r@),
            scc::by_finish(scc::finished(self@), r@),
            scc::lists_all(scc::finished(self@), self@.len()),
    {
        scc::components(&self.adj, Ghost(self@))
    }

    /// `true` if the graph contains a directed cycle.
    pub fn has_cycle(&self) -> (r: bool)
        requires
            self.wf(),
        ensures
            r == reach::cyclic(self@),
    {
        self.topo_sort().is_none()
    }
}

proof fn lemma_unique_len(s: Seq<usize>, n: nat)
    requires
        s.no_duplicates(),
        forall|i: int| 0 <= i < s.len() ==> (#[trigger] s[i]) < n,
    ensures
        s.len() <= n,
{
    if s.len() > n {
        let t = s.map_values(|x: usize| x as int);
        reach::lemma_pigeonhole(t, n);
        let (i, j) = choose|i: int, j: int| 0 <= i < j < t.len() && #[trigger] t[i] == #[trigger] t[j];
        assert(s[i] == s[j]);
    }
}

/// Distinct numbers below their count are all there are.
proof fn lemma_covers(s: Seq<usize>, n: nat, x: usize)
    requires
        s.no_duplicates(),
        forall|i: int| 0 <= i < s.len() ==> (#[trigger] s[i]) < n,
        s.len() == n,
        x < n,
    ensures
        s.contains(x),
{
    if !s.contains(x) {
        let t = s.push(x);
        assert forall|i: int| 0 <= i < t.len() implies (#[trigger] t[i]) < n by {
            if i < s.len() {
                assert(t[i] == s[i]);
            }
        }
        assert forall|i: int, j: int| 0 <= i < t.len() && 0 <= j < t.len() && i != j implies t[i] != t[j] by {
            if i < s.len() {
                assert(s.contains(s[i]));
            }
            if j < s.len() {
                assert(s.contains(s[j]));
            }
        }
        lemma_unique_len(t, n);
    }
}

proof fn lemma_order_topological(g: Seq<Seq<usize>>, queue: Seq<usize>)
    requires
        reach::closed(g),
        g.len() <= usize::MAX,
        queue.len() == g.len(),
        queue.no_duplicates(),
        forall|i: int| 0 <= i < queue.len() ==> (#[trigger] queue[i]) < g.len(),
        sorted_so_far(g, queue, queue.len() as int),
    ensures
        is_topological(g, queue),
        !reach::cyclic(g),
{
    assert forall|i: int, j: int|
        0 <= i < queue.len() && 0 <= j < queue.len() && reach::edge(
            g,
            #[trigger] queue[i] as int,
            #[trigger] queue[j] as int,
        ) implies i < j by {
        let k = choose|k: int| 0 <= k < j && k < queue.len() && #[trigger] queue[k] == queue[i] as int;
        assert(k == i);
    }
    let rank = Seq::new(g.len(), |x: int| queue.index_of(x as usize));
    assert forall|a: int, b: int| #[trigger] reach::edge(g, a, b) implies rank[a] < rank[b] by {
        reach::lemma_edge(g, a, b);
        lemma_covers(queue, g.len(), a as usize);
        lemma_covers(queue, g.len(), b as usize);
        let i = queue.index_of(a as usize);
        let j = queue.index_of(b as usize);
        assert(queue[i] == a as usize && queue[j] == b as usize);
    }
    reach::lemma_ranked_acyclic(g, rank);
}

proof fn lemma_stuck(g: Seq<Seq<usize>>, queue: Seq<usize>, deg: Seq<usize>)
    requires
        reach::closed(g),
        g.len() <= usize::MAX,
        queued(g, queue, deg),
        queue.len() < g.len(),
        forall|x: int| 0 <= x < g.len() ==> #[trigger] deg[x] == pending(g, queue, x, g.len()),
    ensures
        reach::cyclic(g),
{
    let n = g.len();
    let s = Seq::new(n, |x: int| !queue.contains(x as usize));
    assert(exists|x: int| 0 <= x < n && #[trigger] s[x]) by {
        if forall|x: int| 0 <= x < n ==> !#[trigger] s[x] {
            assert forall|x: int| 0 <= x < n implies #[trigger] queue.contains(x as usize) by {
                assert(!s[x]);
            }
            lemma_all_queued(queue, n);
        }
    }
    let v = choose|x: int| 0 <= x < n && #[trigger] s[x];
    assert forall|b: int| 0 <= b < n && #[trigger] s[b] implies exists|a: int| #[trigger] reach::edge(g, a, b) && s[a] by {
        assert(deg[b] != 0);
        lemma_pending_source(g, queue, b, n);
        let u = choose|u: int| 0 <= u < n && !queue.contains(u as usize) && #[trigger] reach::edge(g, u, b);
        assert(reach::edge(g, u, b) && s[u]);
    }
    reach::lemma_backward_cycle(g, s, v);
}

proof fn lemma_all_queued(queue: Seq<usize>, n: nat)
    requires
        n <= usize::MAX,
        forall|x: int| 0 <= x < n ==> #[trigger] queue.contains(x as usize),
    ensures
        queue.len() >= n,
{
    if queue.len() < n {
        let t = Seq::new(n, |x: int| queue.index_of(x as usize));
        assert forall|i: int| 0 <= i < t.len() implies 0 <= #[trigger] t[i] < queue.len() by {
            assert(queue.contains(i as usize));
        }
        reach::lemma_pigeonhole(t, queue.len());
        let (i, j) = choose|i: int, j: int| 0 <= i < j < t.len() && #[trigger] t[i] == #[trigger] t[j];
        assert(queue.contains(i as usize) && queue.contains(j as usize));
        assert(queue[t[i]] == i as usize && queue[t[j]] == j as usize);
    }
}

} // verus!
