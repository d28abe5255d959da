//! Strongly connected components of a directed graph.
//!
//! Two sweeps, both with explicit stacks. The first visits the graph depth
//! first and lists the vertices as they are finished. The second takes them from
//! the last finished to the first and gathers, against the edges, what is not in
//! a component yet.

use crate::reach;
use vstd::prelude::*;

verus! {

/// Strictly ascending.
pub open spec fn rising(s: Seq<usize>) -> bool {
    forall|i: int, j: int| 0 <= i < j < s.len() ==> s[i] < s[j]
}

/// Class `k` lists `x`.
pub open spec fn member(c: Seq<Vec<usize>>, k: int, x: int) -> bool {
    0 <= k < c.len() && c[k]@.contains(x as usize)
}

/// Some class lists `x`.
pub open spec fn classed(c: Seq<Vec<usize>>, x: int) -> bool {
    exists|k: int| #[trigger] member(c, k, x)
}

/// The classes of mutual reachability, each ascending, edges leading to the same
/// class or an earlier one.
pub open spec fn are_components(g: Seq<Seq<usize>>, c: Seq<Vec<usize>>) -> bool {
    &&& forall|k: int| 0 <= k < c.len() ==> (#[trigger] c[k])@.len() > 0 && rising(c[k]@)
    &&& forall|k: int, i: int| 0 <= k < c.len() && 0 <= i < c[k]@.len() ==> (#[trigger] c[k]@[i]) < g.len()
    &&& forall|x: int| 0 <= x < g.len() ==> #[trigger] classed(c, x)
    &&& forall|k: int, l: int, x: int, y: int|
        0 <= x < g.len() && 0 <= y < g.len() && #[trigger] member(c, k, x) && #[trigger] member(c, l, y) ==> (k == l
            <==> reach::mutual(g, x, y))
    &&& forall|k: int, l: int, x: int, y: int|
        0 <= x < g.len() && 0 <= y < g.len() && #[trigger] member(c, k, x) && #[trigger] member(c, l, y)
            && reach::edge(g, x, y) ==> l <= k
}

// The first sweep

/// How much a stack of vertices and edge numbers still has to do.
pub open spec fn to_do(g: Seq<Seq<usize>>, work: Seq<(usize, usize)>) -> nat
    decreases work.len(),
{
    if work.len() == 0 {
        0
    } else {
        let (v, e) = work.last();
        to_do(g, work.drop_last()) + 1 + if e < g[v as int].len() {
            (g[v as int].len() - e) as nat
        } else {
            0
        }
    }
}

/// A depth-first visit from a stack on: what it has seen, and the vertices as they
/// are finished. A vertex follows its edges in order, and is finished when it has
/// none left.
pub open spec fn explored(g: Seq<Seq<usize>>, seen: Seq<bool>, fin: Seq<usize>, work: Seq<(usize, usize)>) -> (
    Seq<bool>,
    Seq<usize>,
)
    decreases unseen(seen), to_do(g, work),
{
    if work.len() == 0 {
        (seen, fin)
    } else {
        let (v, e) = work.last();
        let under = work.drop_last();
        if e < g[v as int].len() {
            let w = g[v as int][e as int];
            let next = under.push((v, (e + 1) as usize));
            proof {
                assert(next.drop_last() =~= under);
                if w < seen.len() && !seen[w as int] {
                    lemma_see(seen, w as int);
                }
            }
            if w < seen.len() && !seen[w as int] {
                explored(g, seen.update(w as int, true), fin, next.push((w, 0)))
            } else if e < usize::MAX {
                explored(g, seen, fin, next)
            } else {
                (seen, fin)
            }
        } else {
            explored(g, seen, fin.push(v), under)
        }
    }
}

/// The visits from the first `n` vertices, in order, each unless it was seen.
pub open spec fn visited(g: Seq<Seq<usize>>, n: nat) -> (Seq<bool>, Seq<usize>)
    decreases n,
{
    if n == 0 {
        (Seq::new(g.len(), |i: int| false), Seq::empty())
    } else {
        let (seen, fin) = visited(g, (n - 1) as nat);
        if seen[n - 1] {
            (seen, fin)
        } else {
            explored(g, seen.update(n - 1, true), fin, seq![((n - 1) as usize, 0)])
        }
    }
}

/// The vertices in the order in which a depth-first visit finishes them.
pub open spec fn finished(g: Seq<Seq<usize>>) -> Seq<usize> {
    visited(g, g.len()).1
}

/// An order has each of `n` vertices once.
pub open spec fn lists_all(f: Seq<usize>, n: nat) -> bool {
    &&& f.no_duplicates()
    &&& forall|i: int| 0 <= i < f.len() ==> (#[trigger] f[i]) < n
    &&& forall|x: usize| x < n ==> #[trigger] f.contains(x)
}

/// Place `i` of the order `f` is the last that a class has.
pub open spec fn last_at(f: Seq<usize>, c: Seq<usize>, i: int) -> bool {
    &&& 0 <= i < f.len()
    &&& c.contains(f[i])
    &&& forall|j: int| i < j < f.len() ==> !c.contains(#[trigger] f[j])
}

/// The classes come in the order in which their last vertices are finished.
pub open spec fn by_finish(f: Seq<usize>, c: Seq<Vec<usize>>) -> bool {
    forall|k: int, l: int, i: int, j: int|
        0 <= k < l < c.len() && #[trigger] last_at(f, c[k]@, i) && #[trigger] last_at(f, c[l]@, j) ==> i < j
}

/// The vertices of a work stack.
spec fn tops(work: Seq<(usize, usize)>) -> Seq<usize> {
    work.map_values(|e: (usize, usize)| e.0)
}

/// How much work a stack still holds: edges to follow, and vertices to finish.
spec fn work_left(g: Seq<Seq<usize>>, work: Seq<(usize, usize)>) -> int
    decreases work.len(),
{
    if work.len() == 0 {
        0
    } else {
        work_left(g, work.drop_last()) + (g[work.last().0 as int].len() - work.last().1) + 1
    }
}

/// How many vertices have not been seen.
pub open spec fn unseen(s: Seq<bool>) -> nat
    decreases s.len(),
{
    if s.len() == 0 {
        0
    } else {
        unseen(s.drop_last()) + if s.last() {
            0nat
        } else {
            1nat
        }
    }
}

pub proof fn lemma_see(s: Seq<bool>, i: int)
    requires
        0 <= i < s.len(),
        !s[i],
    ensures
        unseen(s.update(i, true)) == unseen(s) - 1,
        unseen(s) > 0,
    decreases s.len(),
{
    let u = s.update(i, true);
    if i < s.len() - 1 {
        lemma_see(s.drop_last(), i);
        assert(u.drop_last() =~= s.drop_last().update(i, true));
    } else {
        assert(u.drop_last() =~= s.drop_last());
    }
}

/// The finished vertices and those on the stack are the ones seen.
spec fn partition(g: Seq<Seq<usize>>, seen: Seq<bool>, fin: Seq<usize>, t: Seq<usize>) -> bool {
    &&& seen.len() == g.len()
    &&& fin.no_duplicates()
    &&& t.no_duplicates()
    &&& forall|i: int| 0 <= i < fin.len() ==> (#[trigger] fin[i]) < g.len()
    &&& forall|i: int| 0 <= i < t.len() ==> (#[trigger] t[i]) < g.len()
    &&& forall|i: int| 0 <= i < t.len() ==> !fin.contains(#[trigger] t[i])
    &&& forall|x: int| 0 <= x < g.len() ==> (#[trigger] seen[x] <==> fin.contains(x as usize) || t.contains(x as usize))
}

/// The edges followed from a vertex on the stack lead to vertices seen.
spec fn followed(g: Seq<Seq<usize>>, seen: Seq<bool>, work: Seq<(usize, usize)>, k: int) -> bool {
    let (v, e) = work[k];
    &&& e <= g[v as int].len()
    &&& forall|j: int| 0 <= j < e ==> seen[#[trigger] g[v as int][j] as int]
}

/// All successors of a finished vertex have been seen.
spec fn exhausted(g: Seq<Seq<usize>>, seen: Seq<bool>, fin: Seq<usize>) -> bool {
    forall|u: int, v: int| #[trigger] reach::edge(g, u, v) && fin.contains(u as usize) ==> seen[v]
}

/// A vertex on the stack reaches those above it.
spec fn chained(g: Seq<Seq<usize>>, t: Seq<usize>) -> bool {
    forall|k: int, l: int|
        0 <= k <= l < t.len() ==> reach::reaches(g, #[trigger] t[k] as int, #[trigger] t[l] as int)
}

/// Vertex `k` of the stack was found when `d[t[k]]` vertices were finished. It
/// reaches those finished since, and no edge leads from those finished before to
/// one finished since.
spec fn open_ok(g: Seq<Seq<usize>>, fin: Seq<usize>, t: Seq<usize>, d: Seq<int>, k: int) -> bool {
    let r = t[k] as int;
    &&& 0 <= d[r] <= fin.len()
    &&& forall|i: int| d[r] <= i < fin.len() ==> reach::reaches(g, r, #[trigger] fin[i] as int)
    &&& forall|i: int, v: int|
        0 <= i < d[r] && #[trigger] reach::edge(g, #[trigger] fin[i] as int, v) ==> fin.take(d[r]).contains(
            v as usize,
        ) || t.take(k).contains(v as usize)
}

/// The same of the vertex finished at place `p`.
spec fn done_ok(g: Seq<Seq<usize>>, fin: Seq<usize>, d: Seq<int>, p: int) -> bool {
    let r = fin[p] as int;
    &&& 0 <= d[r] <= p
    &&& forall|i: int| d[r] <= i <= p ==> reach::reaches(g, r, #[trigger] fin[i] as int)
    &&& forall|i: int, v: int|
        0 <= i < d[r] && #[trigger] reach::edge(g, #[trigger] fin[i] as int, v) ==> fin.take(d[r]).contains(
            v as usize,
        ) || !fin.take(p + 1).contains(v as usize)
}

/// What holds throughout the first sweep.
spec fn sweep_ok(g: Seq<Seq<usize>>, seen: Seq<bool>, fin: Seq<usize>, work: Seq<(usize, usize)>, d: Seq<int>) -> bool {
    let t = tops(work);
    &&& d.len() == g.len()
    &&& partition(g, seen, fin, t)
    &&& forall|k: int| 0 <= k < work.len() ==> #[trigger] followed(g, seen, work, k)
    &&& exhausted(g, seen, fin)
    &&& chained(g, t)
    &&& forall|k: int| 0 <= k < t.len() ==> #[trigger] open_ok(g, fin, t, d, k)
    &&& forall|p: int| 0 <= p < fin.len() ==> #[trigger] done_ok(g, fin, d, p)
}

/// Finding an unseen vertex `w`: the next on the stack, or its first.
proof fn lemma_find(
    g: Seq<Seq<usize>>,
    seen: Seq<bool>,
    fin: Seq<usize>,
    work: Seq<(usize, usize)>,
    d: Seq<int>,
    w: usize,
)
    requires
        reach::closed(g),
        g.len() <= usize::MAX,
        sweep_ok(g, seen, fin, work, d),
        w < g.len(),
        !seen[w as int],
        work.len() > 0 ==> reach::edge(g, work.last().0 as int, w as int),
    ensures
        sweep_ok(
            g,
            seen.update(w as int, true),
            fin,
            work.push((w, 0)),
            d.update(w as int, fin.len() as int),
        ),
{
    let t = tops(work);
    let seen2 = seen.update(w as int, true);
    let work2 = work.push((w, 0));
    let d2 = d.update(w as int, fin.len() as int);
    let t2 = tops(work2);
    assert(t2 =~= t.push(w));
    assert(!fin.contains(w) && !t.contains(w)) by {
        assert(!seen[w as int]);
    }
    assert(partition(g, seen2, fin, t2)) by {
        assert forall|i: int, j: int| 0 <= i < t2.len() && 0 <= j < t2.len() && i != j implies t2[i] != t2[j] by {
            if i < t.len() {
                assert(t.contains(t[i]));
            }
            if j < t.len() {
                assert(t.contains(t[j]));
            }
        }
        assert forall|i: int| 0 <= i < t2.len() implies (#[trigger] t2[i]) < g.len() && !fin.contains(t2[i]) by {
            if i < t.len() {
                assert(t2[i] == t[i]);
            }
        }
        assert forall|x: int| 0 <= x < g.len() implies (#[trigger] seen2[x] <==> fin.contains(x as usize)
            || t2.contains(x as usize)) by {
            if x == w {
                assert(t2[t.len() as int] == w);
            } else {
                assert(seen2[x] == seen[x]);
                lemma_push_contains(t, w, x as usize);
            }
        }
    }
    assert forall|k: int| 0 <= k < work2.len() implies #[trigger] followed(g, seen2, work2, k) by {
        if k < work.len() {
            assert(followed(g, seen, work, k));
            let v = work[k].0 as int;
            assert(t[k] < g.len());
            assert forall|j: int| 0 <= j < work[k].1 implies seen2[#[trigger] g[v][j] as int] by {
                assert(seen[g[v][j] as int]);
                assert(g[v][j] < g.len());
            }
        }
    }
    assert forall|k: int, l: int| 0 <= k <= l < t2.len() implies reach::reaches(
        g,
        #[trigger] t2[k] as int,
        #[trigger] t2[l] as int,
    ) by {
        if l < t.len() {
            assert(t2[k] == t[k] && t2[l] == t[l]);
        } else if k < t.len() {
            let last = t.len() - 1;
            assert(t[last] == work.last().0);
            assert(reach::reaches(g, t[k] as int, t[last] as int));
            reach::lemma_edge(g, t[last] as int, w as int);
            reach::lemma_trans(g, t[k] as int, t[last] as int, w as int);
        } else {
            reach::lemma_refl(g, w as int);
        }
    }
    assert forall|k: int| 0 <= k < t2.len() implies #[trigger] open_ok(g, fin, t2, d2, k) by {
        if k < t.len() {
            assert(open_ok(g, fin, t, d, k));
            assert(t[k] != w) by {
                assert(t.contains(t[k]));
            }
            assert(t2.take(k) =~= t.take(k));
        } else {
            assert(fin.take(fin.len() as int) =~= fin);
            assert(t2.take(k) =~= t);
            assert forall|i: int, v: int| 0 <= i < fin.len() && #[trigger] reach::edge(
                g,
                #[trigger] fin[i] as int,
                v,
            ) implies fin.contains(v as usize) || t.contains(v as usize) by {
                assert(fin.contains(fin[i]));
                reach::lemma_edge(g, fin[i] as int, v);
                assert(seen[v]);
            }
        }
    }
    assert forall|p: int| 0 <= p < fin.len() implies #[trigger] done_ok(g, fin, d2, p) by {
        assert(done_ok(g, fin, d, p));
        assert(fin[p] != w) by {
            assert(fin.contains(fin[p]));
        }
    }
}

proof fn lemma_push_contains(t: Seq<usize>, w: usize, x: usize)
    requires
        x != w,
    ensures
        t.push(w).contains(x) == t.contains(x),
{
    let t2 = t.push(w);
    if t.contains(x) {
        let i = choose|i: int| 0 <= i < t.len() && t[i] == x;
        assert(t2[i] == x);
    }
    if t2.contains(x) {
        let i = choose|i: int| 0 <= i < t2.len() && t2[i] == x;
        assert(t[i] == x);
    }
}

/// Finishing the vertex on top of the stack.
proof fn lemma_finish(g: Seq<Seq<usize>>, seen: Seq<bool>, fin: Seq<usize>, work: Seq<(usize, usize)>, d: Seq<int>)
    requires
        reach::closed(g),
        g.len() <= usize::MAX,
        sweep_ok(g, seen, fin, work, d),
        work.len() > 0,
        work.last().1 == g[work.last().0 as int].len(),
    ensures
        sweep_ok(g, seen, fin.push(work.last().0), work.drop_last(), d),
{
    let t = tops(work);
    let v = work.last().0;
    let work2 = work.drop_last();
    let t2 = tops(work2);
    let fin2 = fin.push(v);
    let last = t.len() - 1;
    assert(t2 =~= t.drop_last());
    assert(t[last] == v);
    assert(!fin.contains(t[last]));
    assert(partition(g, seen, fin2, t2)) by {
        assert forall|i: int, j: int| 0 <= i < fin2.len() && 0 <= j < fin2.len() && i != j implies fin2[i] != fin2[j] by {
            if i < fin.len() {
                assert(fin.contains(fin[i]));
            }
            if j < fin.len() {
                assert(fin.contains(fin[j]));
            }
        }
        assert forall|i: int| 0 <= i < fin2.len() implies (#[trigger] fin2[i]) < g.len() by {
            if i < fin.len() {
                assert(fin2[i] == fin[i]);
            } else {
                assert(t[last] < g.len());
            }
        }
        assert forall|i: int| 0 <= i < t2.len() implies (#[trigger] t2[i]) < g.len() && !fin2.contains(t2[i]) by {
            assert(t2[i] == t[i]);
            assert(t[i] != t[last]);
            lemma_push_contains(fin, v, t[i]);
        }
        assert forall|x: int| 0 <= x < g.len() implies (#[trigger] seen[x] <==> fin2.contains(x as usize)
            || t2.contains(x as usize)) by {
            if x == v {
                assert(fin2[fin.len() as int] == v);
                assert(t.contains(v));
            } else {
                lemma_push_contains(fin, v, x as usize);
                lemma_push_contains(t2, v, x as usize);
                assert(t2.push(v) =~= t);
            }
        }
    }
    assert forall|k: int| 0 <= k < work2.len() implies #[trigger] followed(g, seen, work2, k) by {
        assert(followed(g, seen, work, k));
    }
    assert(exhausted(g, seen, fin2)) by {
        assert forall|a: int, b: int| #[trigger] reach::edge(g, a, b) && fin2.contains(a as usize) implies seen[b] by {
            if a == v {
                assert(followed(g, seen, work, last));
                let j = choose|j: int| 0 <= j < g[a].len() && #[trigger] g[a][j] == b;
                assert(seen[g[v as int][j] as int]);
            } else {
                lemma_push_contains(fin, v, a as usize);
            }
        }
    }
    assert forall|k: int, l: int| 0 <= k <= l < t2.len() implies reach::reaches(
        g,
        #[trigger] t2[k] as int,
        #[trigger] t2[l] as int,
    ) by {
        assert(t2[k] == t[k] && t2[l] == t[l]);
    }
    assert forall|k: int| 0 <= k < t2.len() implies #[trigger] open_ok(g, fin2, t2, d, k) by {
        assert(open_ok(g, fin, t, d, k));
        let r = t[k] as int;
        assert(t2[k] == t[k]);
        assert(t2.take(k) =~= t.take(k));
        assert(fin2.take(d[r]) =~= fin.take(d[r]));
        assert forall|i: int| d[r] <= i < fin2.len() implies reach::reaches(g, r, #[trigger] fin2[i] as int) by {
            if i < fin.len() {
                assert(fin2[i] == fin[i]);
            } else {
                assert(reach::reaches(g, t[k] as int, t[last] as int));
            }
        }
        assert forall|i: int, x: int| 0 <= i < d[r] && #[trigger] reach::edge(
            g,
            #[trigger] fin2[i] as int,
            x,
        ) implies fin2.take(d[r]).contains(x as usize) || t2.take(k).contains(x as usize) by {
            assert(fin2[i] == fin[i]);
            assert(reach::edge(g, fin[i] as int, x));
        }
    }
    assert forall|p: int| 0 <= p < fin2.len() implies #[trigger] done_ok(g, fin2, d, p) by {
        if p < fin.len() {
            assert(done_ok(g, fin, d, p));
            let r = fin[p] as int;
            assert(fin2[p] == fin[p]);
            assert(fin2.take(d[r]) =~= fin.take(d[r]));
            assert(fin2.take(p + 1) =~= fin.take(p + 1));
            assert forall|i: int| d[r] <= i <= p implies reach::reaches(g, r, #[trigger] fin2[i] as int) by {
                assert(fin2[i] == fin[i]);
            }
            assert forall|i: int, x: int| 0 <= i < d[r] && #[trigger] reach::edge(
                g,
                #[trigger] fin2[i] as int,
                x,
            ) implies fin2.take(d[r]).contains(x as usize) || !fin2.take(p + 1).contains(x as usize) by {
                assert(fin2[i] == fin[i]);
                assert(reach::edge(g, fin[i] as int, x));
            }
        } else {
            assert(open_ok(g, fin, t, d, last));
            let r = v as int;
            assert(fin2.take(d[r]) =~= fin.take(d[r]));
            assert(fin2.take(p + 1) =~= fin2);
            assert forall|i: int| d[r] <= i <= p implies reach::reaches(g, r, #[trigger] fin2[i] as int) by {
                if i < fin.len() {
                    assert(fin2[i] == fin[i]);
                } else {
                    reach::lemma_refl(g, r);
                }
            }
            assert forall|i: int, x: int| 0 <= i < d[r] && #[trigger] reach::edge(
                g,
                #[trigger] fin2[i] as int,
                x,
            ) implies fin2.take(d[r]).contains(x as usize) || !fin2.take(p + 1).contains(x as usize) by {
                assert(fin2[i] == fin[i]);
                assert(reach::edge(g, fin[i] as int, x));
                if t.take(last).contains(x as usize) {
                    let k = choose|k: int| 0 <= k < t.take(last).len() && t.take(last)[k] == x as usize;
                    assert(t[k] == x as usize);
                    assert(!fin.contains(t[k]));
                    assert(t[k] != t[last]);
                    lemma_push_contains(fin, v, x as usize);
                }
            }
        }
    }
}

/// The vertices in the order in which a depth-first visit finishes them.
fn finish_order(adj: &Vec<Vec<usize>>, Ghost(g): Ghost<Seq<Seq<usize>>>) -> (r: (Vec<usize>, Ghost<Seq<int>>))
    requires
        g == adj@.map_values(|e: Vec<usize>| e@),
        reach::closed(g),
        g.len() <= usize::MAX,
    ensures
        r.1@.len() == g.len(),
        r.0@.no_duplicates(),
        forall|i: int| 0 <= i < r.0@.len() ==> (#[trigger] r.0@[i]) < g.len(),
        forall|x: int| 0 <= x < g.len() ==> r.0@.contains(#[trigger] (x as usize)),
        forall|p: int| 0 <= p < r.0@.len() ==> #[trigger] done_ok(g, r.0@, r.1@, p),
        r.0@ == finished(g),
{
    let n: usize = adj.len();
    let mut seen: Vec<bool> = Vec::new();
    let mut i: usize = 0;
    while i < n
        invariant
            i <= n,
            seen@.len() == i,
            forall|k: int| 0 <= k < i ==> !#[trigger] seen@[k],
        decreases n - i,
    {
        seen.push(false);
        i += 1;
    }
    let mut fin: Vec<usize> = Vec::new();
    let ghost mut d = Seq::new(g.len(), |i: int| 0int);
    let mut work: Vec<(usize, usize)> = Vec::new();
    assert(tops(work@) =~= Seq::<usize>::empty());
    assert(sweep_ok(g, seen@, fin@, work@, d));
    assert(seen@ =~= visited(g, 0).0 && fin@ =~= visited(g, 0).1);
    let mut start: usize = 0;
    while start < n
        invariant
            start <= n,
            n == g.len(),
            n == adj@.len(),
            g == adj@.map_values(|e: Vec<usize>| e@),
            reach::closed(g),
            g.len() <= usize::MAX,
            work@.len() == 0,
            sweep_ok(g, seen@, fin@, work@, d),
            forall|x: int| 0 <= x < start ==> #[trigger] seen@[x],
            visited(g, start as nat) == (seen@, fin@),
        decreases n - start,
    {
        if !seen[start] {
            let ghost was = seen@;
            proof {
                lemma_find(g, seen@, fin@, work@, d, start);
                d = d.update(start as int, fin@.len() as int);
            }
            seen.set(start, true);
            work.push((start, 0));
            let ghost all = visited(g, (start + 1) as nat);
            proof {
                assert(work@ =~= seq![(start, 0usize)]);
                assert(all == explored(g, seen@, fin@, work@));
            }
            while work.len() > 0
                invariant
                    start < n,
                    n == g.len(),
                    n == adj@.len(),
                    g == adj@.map_values(|e: Vec<usize>| e@),
                    reach::closed(g),
                    g.len() <= usize::MAX,
                    sweep_ok(g, seen@, fin@, work@, d),
                    forall|x: int| 0 <= x <= start ==> #[trigger] seen@[x],
                    explored(g, seen@, fin@, work@) == all,
                decreases unseen(seen@), work_left(g, work@),
            {
                let top: usize = work.len() - 1;
                let (v, e) = work[top];
                let ghost w0 = work@;
                proof {
                    assert(tops(w0)[top as int] == v);
                    assert(followed(g, seen@, w0, top as int));
                    assert(g[v as int] == adj@[v as int]@);
                    assert forall|k: int| 0 <= k < w0.drop_last().len() implies #[trigger] followed(
                        g,
                        seen@,
                        w0.drop_last(),
                        k,
                    ) by {
                        assert(followed(g, seen@, w0, k));
                    }
                    lemma_work_left(g, w0.drop_last(), seen@);
                }
                if e < adj[v].len() {
                    let w: usize = adj[v][e];
                    work.set(top, (v, e + 1));
                    proof {
                        assert(g[v as int][e as int] == w);
                        assert(g[v as int][e as int] < n);
                        assert(work@.drop_last() =~= w0.drop_last());
                        assert(work@ =~= w0.drop_last().push((v, (e + 1) as usize)));
                        assert(tops(work@) =~= tops(w0));
                        assert(reach::edge(g, v as int, w as int));
                    }
                    if seen[w] {
                        proof {
                            assert forall|k: int| 0 <= k < work@.len() implies #[trigger] followed(g, seen@, work@, k) by {
                                assert(followed(g, seen@, w0, k));
                            }
                            assert(sweep_ok(g, seen@, fin@, work@, d));
                        }
                    } else {
                        let ghost w1 = work@;
                        let ghost s0 = seen@;
                        seen.set(w, true);
                        proof {
                            lemma_see(s0, w as int);
                            lemma_find(g, s0, fin@, w0, d, w);
                            d = d.update(w as int, fin@.len() as int);
                        }
                        work.push((w, 0));
                        proof {
                            let w2 = work@;
                            let w3 = w0.push((w, 0));
                            assert(tops(w2) =~= tops(w3));
                            assert forall|k: int| 0 <= k < w2.len() implies #[trigger] followed(g, seen@, w2, k) by {
                                assert(followed(g, seen@, w3, k));
                            }
                            assert(sweep_ok(g, seen@, fin@, w2, d));
                        }
                    }
                } else {
                    proof {
                        lemma_finish(g, seen@, fin@, w0, d);
                    }
                    work.pop();
                    fin.push(v);
                    assert(work@ =~= w0.drop_last());
                }
            }
            assert(work@ =~= Seq::<(usize, usize)>::empty());
        }
        start += 1;
    }
    proof {
        assert(tops(work@) =~= Seq::<usize>::empty());
        assert forall|x: int| 0 <= x < g.len() implies fin@.contains(#[trigger] (x as usize)) by {
            assert(seen@[x]);
        }
    }
    (fin, Ghost(d))
}

proof fn lemma_work_left(g: Seq<Seq<usize>>, work: Seq<(usize, usize)>, seen: Seq<bool>)
    requires
        forall|k: int| 0 <= k < work.len() ==> #[trigger] followed(g, seen, work, k),
    ensures
        work_left(g, work) >= 0,
    decreases work.len(),
{
    if work.len() > 0 {
        assert(followed(g, seen, work, work.len() - 1));
        assert forall|k: int| 0 <= k < work.drop_last().len() implies #[trigger] followed(g, seen, work.drop_last(), k) by {
            assert(followed(g, seen, work, k));
        }
        lemma_work_left(g, work.drop_last(), seen);
    }
}

// The second sweep

/// The lists of predecessors.
fn transpose(adj: &Vec<Vec<usize>>, Ghost(g): Ghost<Seq<Seq<usize>>>) -> (r: Vec<Vec<usize>>)
    requires
        g == adj@.map_values(|e: Vec<usize>| e@),
        reach::closed(g),
    ensures
        r@.len() == g.len(),
        forall|v: int, i: int| 0 <= v < r@.len() && 0 <= i < r@[v]@.len() ==> reach::edge(g, #[trigger] r@[v]@[i] as int, v),
        forall|u: int, v: int| #[trigger] reach::edge(g, u, v) ==> 0 <= v < r@.len() && r@[v]@.contains(u as usize),
{
    let n: usize = adj.len();
    let mut r: Vec<Vec<usize>> = Vec::new();
    let mut i: usize = 0;
    while i < n
        invariant
            i <= n,
            r@.len() == i,
            forall|k: int| 0 <= k < i ==> (#[trigger] r@[k])@.len() == 0,
        decreases n - i,
    {
        r.push(Vec::new());
        i += 1;
    }
    let mut u: usize = 0;
    while u < n
        invariant
            u <= n,
            n == g.len(),
            n == adj@.len(),
            g == adj@.map_values(|e: Vec<usize>| e@),
            reach::closed(g),
            r@.len() == n,
            forall|v: int, i: int|
                0 <= v < n && 0 <= i < r@[v]@.len() ==> reach::edge(g, #[trigger] r@[v]@[i] as int, v),
            forall|a: int, j: int|
                0 <= a < u && 0 <= j < g[a].len() ==> r@[#[trigger] g[a][j] as int]@.contains(a as usize),
        decreases n - u,
    {
        let mut j: usize = 0;
        while j < adj[u].len()
            invariant
                u < n,
                n == g.len(),
                n == adj@.len(),
                g == adj@.map_values(|e: Vec<usize>| e@),
                g[u as int] == adj@[u as int]@,
                j <= g[u as int].len(),
                reach::closed(g),
                r@.len() == n,
                forall|v: int, i: int|
                    0 <= v < n && 0 <= i < r@[v]@.len() ==> reach::edge(g, #[trigger] r@[v]@[i] as int, v),
                forall|a: int, b: int|
                    0 <= a < u && 0 <= b < g[a].len() ==> r@[#[trigger] g[a][b] as int]@.contains(a as usize),
                forall|b: int| 0 <= b < j ==> r@[#[trigger] g[u as int][b] as int]@.contains(u),
            decreases g[u as int].len() - j,
        {
            let v: usize = adj[u][j];
            let ghost was = r@;
            assert(g[u as int][j as int] == v);
            assert(g[u as int][j as int] < n);
            let mut l = r.remove(v);
            let ghost l0 = l@;
            l.push(u);
            r.insert(v, l);
            proof {
                assert(r@ =~= was.update(v as int, l));
                assert(l@[l0.len() as int] == u);
                assert forall|x: int, i: int| 0 <= x < n && 0 <= i < r@[x]@.len() implies reach::edge(
                    g,
                    #[trigger] r@[x]@[i] as int,
                    x,
                ) by {
                    if x == v && i == l0.len() {
                        assert(reach::edge(g, u as int, v as int));
                    } else {
                        assert(was[x]@[i] == r@[x]@[i]);
                    }
                }
                assert forall|x: int, y: usize| 0 <= x < n && was[x]@.contains(y) implies #[trigger] r@[x]@.contains(y) by {
                    let i = choose|i: int| 0 <= i < was[x]@.len() && was[x]@[i] == y;
                    assert(r@[x]@[i] == y);
                }
                assert forall|a: int, b: int| 0 <= a < u && 0 <= b < g[a].len() implies r@[#[trigger] g[a][b] as int]@.contains(
                    a as usize,
                ) by {
                    assert(g[a][b] < n);
                    assert(was[g[a][b] as int]@.contains(a as usize));
                }
                assert forall|b: int| 0 <= b < j + 1 implies r@[#[trigger] g[u as int][b] as int]@.contains(u) by {
                    assert(g[u as int][b] < n);
                    if b < j {
                        assert(was[g[u as int][b] as int]@.contains(u));
                    } else {
                        assert(r@[v as int]@.contains(u));
                    }
                }
            }
            j += 1;
        }
        u += 1;
    }
    proof {
        assert forall|a: int, b: int| #[trigger] reach::edge(g, a, b) implies 0 <= b < r@.len() && r@[b]@.contains(
            a as usize,
        ) by {
            let j = choose|j: int| 0 <= j < g[a].len() && #[trigger] g[a][j] == b;
            assert(g[a][j] < n);
            assert(r@[g[a][j] as int]@.contains(a as usize));
        }
    }
    r
}

/// Some vertex has the number `c`.
spec fn used(comp: Seq<usize>, c: int) -> bool {
    exists|x: int| 0 <= x < comp.len() && #[trigger] comp[x] == c
}

/// The components found so far: `comp` numbers the vertices in them, the others
/// having the number `n`. A component is a class of mutual reachability, and
/// what leads into a component is in it or an earlier one.
spec fn grouped(g: Seq<Seq<usize>>, comp: Seq<usize>, count: int) -> bool {
    let n = g.len();
    &&& comp.len() == n
    &&& 0 <= count <= n
    &&& forall|x: int| 0 <= x < n ==> (#[trigger] comp[x] < count || comp[x] == n)
    &&& forall|x: int, y: int|
        0 <= x < n && 0 <= y < n && #[trigger] comp[x] < count ==> (#[trigger] comp[y] == comp[x] <==> reach::mutual(
            g,
            x,
            y,
        ))
    &&& forall|a: int, b: int| #[trigger] reach::edge(g, a, b) && comp[b] < count ==> comp[a] <= comp[b]
    &&& forall|c: int| 0 <= c < count ==> #[trigger] used(comp, c)
}

/// From place `at` on, a vertex has the number `b`.
spec fn rooted(fin: Seq<usize>, comp: Seq<usize>, b: int, at: int) -> bool {
    exists|i: int| at <= i < fin.len() && comp[#[trigger] fin[i] as int] == b
}

/// Place `i` is the last of its number.
spec fn final_of(fin: Seq<usize>, comp: Seq<usize>, i: int) -> bool {
    forall|j: int| i < j < fin.len() ==> comp[#[trigger] fin[j] as int] != comp[fin[i] as int]
}

/// Behind the last place of a number, from `at` on, the numbers are smaller.
spec fn stepped(fin: Seq<usize>, comp: Seq<usize>, at: int) -> bool {
    forall|i: int, j: int|
        at <= i < j < fin.len() && #[trigger] final_of(fin, comp, i) ==> comp[#[trigger] fin[j] as int] < comp[fin[i] as int]
}

/// Number the vertices by component; returns the numbers and how many there are.
fn number(adj: &Vec<Vec<usize>>, Ghost(g): Ghost<Seq<Seq<usize>>>) -> (r: (Vec<usize>, usize))
    requires
        g == adj@.map_values(|e: Vec<usize>| e@),
        reach::closed(g),
        g.len() <= usize::MAX,
    ensures
        grouped(g, r.0@, r.1 as int),
        forall|x: int| 0 <= x < g.len() ==> (#[trigger] r.0@[x]) < r.1,
        stepped(finished(g), r.0@, 0),
        lists_all(finished(g), g.len()),
{
    let n: usize = adj.len();
    let (fin, Ghost(d)) = finish_order(adj, Ghost(g));
    let back = transpose(adj, Ghost(g));
    let mut comp: Vec<usize> = Vec::new();
    let mut i: usize = 0;
    while i < n
        invariant
            i <= n,
            comp@.len() == i,
            forall|k: int| 0 <= k < i ==> #[trigger] comp@[k] == n,
        decreases n - i,
    {
        comp.push(n);
        i += 1;
    }
    let mut count: usize = 0;
    let mut at: usize = fin.len();
    proof {
        assert forall|a: int, b: int| #[trigger] reach::edge(g, a, b) && comp@[b] < 0 implies comp@[a] <= comp@[b] by {
            reach::lemma_edge(g, a, b);
        }
    }
    while at > 0
        invariant
            n == g.len(),
            n == adj@.len(),
            reach::closed(g),
            g.len() <= usize::MAX,
            back@.len() == n,
            forall|v: int, i: int|
                0 <= v < n && 0 <= i < back@[v]@.len() ==> reach::edge(g, #[trigger] back@[v]@[i] as int, v),
            forall|u: int, v: int| #[trigger]
                reach::edge(g, u, v) ==> 0 <= v < n && back@[v]@.contains(u as usize),
            d.len() == n,
            fin@.no_duplicates(),
            forall|i: int| 0 <= i < fin@.len() ==> (#[trigger] fin@[i]) < n,
            forall|p: int| 0 <= p < fin@.len() ==> #[trigger] done_ok(g, fin@, d, p),
            forall|x: int| 0 <= x < g.len() ==> fin@.contains(#[trigger] (x as usize)),
            at <= fin@.len(),
            grouped(g, comp@, count as int),
            forall|i: int| at <= i < fin@.len() ==> comp@[#[trigger] fin@[i] as int] < count,
            stepped(fin@, comp@, at as int),
            forall|b: int| 0 <= b < count ==> #[trigger] rooted(fin@, comp@, b, at as int),
        decreases at,
    {
        let ghost comp1 = comp@;
        let ghost count1 = count as int;
        at -= 1;
        let r: usize = fin[at];
        if comp[r] == n {
            let ghost old_comp = comp@;
            let ghost c = count as int;
            let mut stack: Vec<usize> = Vec::new();
            proof {
                lemma_count_room(g, old_comp, c, r as int);
            }
            comp.set(r, count);
            stack.push(r);
            let ghost r0 = r as int;
            proof {
                assert(done_ok(g, fin@, d, at as int));
                reach::lemma_refl(g, r0);
                assert(stack@[0] == r);
                assert(fin@[at as int] == r);
                assert(place(fin@, r, d[r0], at as int));
                assert forall|a: int, b: int| #[trigger] reach::edge(g, a, b) && comp@[b] == c && comp@[a] == n implies stack@.contains(
                    b as usize,
                ) by {
                    reach::lemma_edge(g, a, b);
                    assert(b == r0);
                }
            }
            while stack.len() > 0
                invariant
                    n == g.len(),
                    n == adj@.len(),
                    reach::closed(g),
                    g.len() <= usize::MAX,
                    back@.len() == n,
                    forall|v: int, i: int|
                        0 <= v < n && 0 <= i < back@[v]@.len() ==> reach::edge(g, #[trigger] back@[v]@[i] as int, v),
                    forall|u: int, v: int| #[trigger]
                        reach::edge(g, u, v) ==> 0 <= v < n && back@[v]@.contains(u as usize),
                    fin@.no_duplicates(),
                    forall|i: int| 0 <= i < fin@.len() ==> (#[trigger] fin@[i]) < n,
                    forall|x: int| 0 <= x < g.len() ==> fin@.contains(#[trigger] (x as usize)),
                    at < fin@.len(),
                    fin@[at as int] == r,
                    r0 == r,
                    r < n,
                    done_ok(g, fin@, d, at as int),
                    c == count,
                    c < n,
                    grouped(g, old_comp, c),
                    old_comp[r0] == n,
                    forall|i: int| at < i < fin@.len() ==> old_comp[#[trigger] fin@[i] as int] < c,
                    comp@.len() == n,
                    comp@[r0] == c,
                    forall|x: int|
                        0 <= x < n ==> (#[trigger] comp@[x] == old_comp[x] || (old_comp[x] == n && comp@[x] == c)),
                    forall|x: int|
                        0 <= x < n && #[trigger] comp@[x] == c ==> reach::reaches(g, x, r0) && place(
                            fin@,
                            x as usize,
                            d[r0],
                            at as int,
                        ),
                    forall|i: int| 0 <= i < stack@.len() ==> (#[trigger] stack@[i]) < n && comp@[stack@[i] as int] == c,
                    forall|a: int, b: int| #[trigger]
                        reach::edge(g, a, b) && comp@[b] == c && comp@[a] == n ==> stack@.contains(b as usize),
                decreases 2 * unset(comp@, n) + stack@.len(),
            {
                let ghost st0 = stack@;
                let x: usize = stack.pop().unwrap();
                assert(st0[st0.len() - 1] == x);
                let ghost rest = stack@;
                assert(st0 =~= rest.push(x));
                let ghost before = comp@;
                let mut j: usize = 0;
                while j < back[x].len()
                    invariant
                        n == g.len(),
                        reach::closed(g),
                        g.len() <= usize::MAX,
                        back@.len() == n,
                        x < n,
                        j <= back@[x as int]@.len(),
                        forall|v: int, i: int|
                            0 <= v < n && 0 <= i < back@[v]@.len() ==> reach::edge(
                                g,
                                #[trigger] back@[v]@[i] as int,
                                v,
                            ),
                        fin@.no_duplicates(),
                        forall|i: int| 0 <= i < fin@.len() ==> (#[trigger] fin@[i]) < n,
                        forall|x: int| 0 <= x < g.len() ==> fin@.contains(#[trigger] (x as usize)),
                        at < fin@.len(),
                        fin@[at as int] == r,
                        r0 == r,
                        r < n,
                        done_ok(g, fin@, d, at as int),
                        c == count,
                        c < n,
                        grouped(g, old_comp, c),
                        forall|i: int| at < i < fin@.len() ==> old_comp[#[trigger] fin@[i] as int] < c,
                        comp@.len() == n,
                        comp@[r0] == c,
                        comp@[x as int] == c,
                        forall|x: int|
                            0 <= x < n ==> (#[trigger] comp@[x] == old_comp[x] || (old_comp[x] == n && comp@[x] == c)),
                        forall|x: int|
                            0 <= x < n && #[trigger] comp@[x] == c ==> reach::reaches(g, x, r0) && place(
                                fin@,
                                x as usize,
                                d[r0],
                                at as int,
                            ),
                        forall|i: int|
                            0 <= i < stack@.len() ==> (#[trigger] stack@[i]) < n && comp@[stack@[i] as int] == c,
                        forall|a: int, b: int| #[trigger]
                            reach::edge(g, a, b) && comp@[b] == c && comp@[a] == n ==> b == x || stack@.contains(
                                b as usize,
                            ),
                        forall|k: int| 0 <= k < j ==> comp@[#[trigger] back@[x as int]@[k] as int] != n,
                        2 * unset(comp@, n) + stack@.len() <= 2 * unset(before, n) + rest.len(),
                    decreases back@[x as int]@.len() - j,
                {
                    let y: usize = back[x][j];
                    proof {
                        assert(reach::edge(g, back@[x as int]@[j as int] as int, x as int));
                        reach::lemma_edge(g, y as int, x as int);
                    }
                    if comp[y] == n {
                        let ghost comp0 = comp@;
                        let ghost st = stack@;
                        proof {
                            lemma_unset(comp@, n, y as int, count);
                            reach::lemma_trans(g, y as int, x as int, r0);
                            assert(comp@[x as int] == c);
                            assert(fin@.contains((y as int) as usize));
                            lemma_place(g, fin@, d, at as int, y, x, old_comp, c);
                        }
                        comp.set(y, count);
                        stack.push(y);
                        proof {
                            assert(stack@[st.len() as int] == y);
                            assert forall|a: int, b: int| #[trigger]
                                reach::edge(g, a, b) && comp@[b] == c && comp@[a] == n implies b == x || stack@.contains(
                                b as usize,
                            ) by {
                                reach::lemma_edge(g, a, b);
                                if b != y {
                                    assert(comp0[b] == c && comp0[a] == n);
                                    if b != x {
                                        let i = choose|i: int| 0 <= i < st.len() && st[i] == b as usize;
                                        assert(stack@[i] == b as usize);
                                    }
                                }
                            }
                        }
                    }
                    j += 1;
                }
                proof {
                    assert forall|a: int, b: int| #[trigger]
                        reach::edge(g, a, b) && comp@[b] == c && comp@[a] == n implies stack@.contains(b as usize) by {
                        if b == x {
                            assert(back@[b]@.contains(a as usize));
                            let k = choose|k: int| 0 <= k < back@[b]@.len() && back@[b]@[k] == a as usize;
                            assert(comp@[back@[x as int]@[k] as int] != n);
                        }
                    }
                }
            }
            proof {
                lemma_component(g, old_comp, comp@, c, r0, fin@, d, at as int);
            }
            count += 1;
        }
        proof {
            lemma_stepped(fin@, comp1, comp@, count1, count as int, at as int);
        }
    }
    proof {
        assert forall|x: int| 0 <= x < g.len() implies (#[trigger] comp@[x]) < count by {
            assert(fin@.contains(x as usize));
            let i = choose|i: int| 0 <= i < fin@.len() && fin@[i] == x as usize;
            assert(comp@[fin@[i] as int] < count);
        }
        assert forall|x: usize| x < g.len() implies #[trigger] fin@.contains(x) by {
            assert(fin@.contains((x as int) as usize));
        }
    }
    (comp, count)
}

/// `x` was finished at a place from `lo` to `hi`.
spec fn place(fin: Seq<usize>, x: usize, lo: int, hi: int) -> bool {
    exists|i: int| lo <= i <= hi && 0 <= i < fin.len() && #[trigger] fin[i] == x
}

/// How many have no number yet.
spec fn unset(comp: Seq<usize>, n: usize) -> nat
    decreases comp.len(),
{
    if comp.len() == 0 {
        0
    } else {
        unset(comp.drop_last(), n) + if comp.last() == n {
            1nat
        } else {
            0nat
        }
    }
}

proof fn lemma_unset(comp: Seq<usize>, n: usize, i: int, c: usize)
    requires
        0 <= i < comp.len(),
        comp[i] == n,
        c != n,
    ensures
        unset(comp.update(i, c), n) == unset(comp, n) - 1,
        unset(comp, n) > 0,
    decreases comp.len(),
{
    let u = comp.update(i, c);
    if i < comp.len() - 1 {
        lemma_unset(comp.drop_last(), n, i, c);
        assert(u.drop_last() =~= comp.drop_last().update(i, c));
    } else {
        assert(u.drop_last() =~= comp.drop_last());
    }
}

/// While a vertex has no number, fewer numbers than vertices are in use.
proof fn lemma_count_room(g: Seq<Seq<usize>>, comp: Seq<usize>, c: int, r: int)
    requires
        grouped(g, comp, c),
        g.len() <= usize::MAX,
        0 <= r < g.len(),
        comp[r] == g.len(),
    ensures
        c < g.len(),
{
    if c >= g.len() {
        let n = g.len();
        let rep = Seq::new((n + 1) as nat, |i: int| if i < n {
            choose|x: int| 0 <= x < comp.len() && #[trigger] comp[x] == i
        } else {
            r
        });
        assert forall|i: int| 0 <= i < rep.len() implies 0 <= #[trigger] rep[i] < n by {
            if i < n {
                assert(used(comp, i));
            }
        }
        reach::lemma_pigeonhole(rep, n);
        let (i, j) = choose|i: int, j: int| 0 <= i < j < rep.len() && #[trigger] rep[i] == #[trigger] rep[j];
        assert(used(comp, i));
        assert(comp[rep[i]] == i);
        if j < n {
            assert(used(comp, j));
            assert(comp[rep[j]] == j);
        }
    }
}

/// What leads into the vertices finished since the root was found was itself
/// finished since, unless it was numbered already.
proof fn lemma_place(
    g: Seq<Seq<usize>>,
    fin: Seq<usize>,
    d: Seq<int>,
    at: int,
    y: usize,
    x: usize,
    comp: Seq<usize>,
    c: int,
)
    requires
        0 <= at < fin.len(),
        fin.no_duplicates(),
        done_ok(g, fin, d, at),
        reach::edge(g, y as int, x as int),
        y < g.len(),
        fin.contains(y),
        place(fin, x, d[fin[at] as int], at),
        grouped(g, comp, c),
        c < g.len(),
        comp[y as int] == g.len(),
        forall|i: int| at < i < fin.len() ==> comp[#[trigger] fin[i] as int] < c,
    ensures
        place(fin, y, d[fin[at] as int], at),
{
    let r = fin[at] as int;
    let j = choose|i: int| d[r] <= i <= at && 0 <= i < fin.len() && #[trigger] fin[i] == x;
    let i = choose|i: int| 0 <= i < fin.len() && fin[i] == y;
    if i > at {
        assert(comp[fin[i] as int] < c);
    }
    if i < d[r] {
        assert(reach::edge(g, fin[i] as int, x as int));
        assert(fin.take(at + 1)[j] == x);
        if fin.take(d[r]).contains(x) {
            let k = choose|k: int| 0 <= k < fin.take(d[r]).len() && fin.take(d[r])[k] == x;
            assert(fin[k] == fin[j]);
        }
    }
    assert(fin[i] == y);
}

/// One more place taken, by a vertex that has a number already or gets a new one.
proof fn lemma_stepped(fin: Seq<usize>, was: Seq<usize>, comp: Seq<usize>, c: int, count: int, at: int)
    requires
        0 <= at < fin.len(),
        stepped(fin, was, at + 1),
        forall|b: int| 0 <= b < c ==> #[trigger] rooted(fin, was, b, at + 1),
        forall|i: int| at < i < fin.len() ==> was[#[trigger] fin[i] as int] < c,
        forall|i: int| at < i < fin.len() ==> comp[#[trigger] fin[i] as int] == was[fin[i] as int],
        (count == c && comp[fin[at] as int] < c) || (count == c + 1 && comp[fin[at] as int] == c),
    ensures
        stepped(fin, comp, at),
        forall|b: int| 0 <= b < count ==> #[trigger] rooted(fin, comp, b, at),
{
    assert forall|i: int, j: int| at <= i < j < fin.len() && #[trigger] final_of(fin, comp, i) implies comp[
        #[trigger] fin[j] as int] < comp[fin[i] as int] by {
        if i > at {
            assert(final_of(fin, was, i)) by {
                assert forall|k: int| i < k < fin.len() implies was[#[trigger] fin[k] as int] != was[fin[i] as int] by {
                    assert(comp[fin[k] as int] != comp[fin[i] as int]);
                }
            }
            assert(was[fin[j] as int] < was[fin[i] as int]);
        } else if count == c {
            let b = comp[fin[at] as int] as int;
            assert(rooted(fin, was, b, at + 1));
            let k = choose|k: int| at + 1 <= k < fin.len() && was[#[trigger] fin[k] as int] == b;
            assert(comp[fin[k] as int] != comp[fin[i] as int]);
        }
    }
    assert forall|b: int| 0 <= b < count implies #[trigger] rooted(fin, comp, b, at) by {
        if b < c {
            assert(rooted(fin, was, b, at + 1));
            let k = choose|k: int| at + 1 <= k < fin.len() && was[#[trigger] fin[k] as int] == b;
            assert(comp[fin[k] as int] == b);
        } else {
            assert(comp[fin[at] as int] == b);
        }
    }
}

/// The vertices gathered are a component, and it comes after all it is entered
/// from.
proof fn lemma_component(
    g: Seq<Seq<usize>>,
    old_comp: Seq<usize>,
    comp: Seq<usize>,
    c: int,
    r: int,
    fin: Seq<usize>,
    d: Seq<int>,
    at: int,
)
    requires
        reach::closed(g),
        g.len() <= usize::MAX,
        grouped(g, old_comp, c),
        c < g.len(),
        comp.len() == g.len(),
        0 <= r < g.len(),
        old_comp[r] == g.len(),
        comp[r] == c,
        0 <= at < fin.len(),
        fin[at] == r,
        done_ok(g, fin, d, at),
        forall|x: int|
            0 <= x < g.len() ==> (#[trigger] comp[x] == old_comp[x] || (old_comp[x] == g.len() && comp[x] == c)),
        forall|x: int|
            0 <= x < g.len() && #[trigger] comp[x] == c ==> reach::reaches(g, x, r) && place(
                fin,
                x as usize,
                d[r],
                at,
            ),
        forall|a: int, b: int| #[trigger] reach::edge(g, a, b) && comp[b] == c ==> comp[a] != g.len(),
    ensures
        grouped(g, comp, c + 1),
{
    let n = g.len();
    assert forall|x: int| 0 <= x < n && #[trigger] comp[x] == c implies reach::mutual(g, x, r) by {
        let i = choose|i: int| d[r] <= i <= at && 0 <= i < fin.len() && #[trigger] fin[i] == x as usize;
        assert(reach::reaches(g, r, fin[i] as int));
    }
    // Whatever reaches the root has a number.
    let s = Seq::new(n, |x: int| comp[x] != n);
    assert forall|a: int, b: int| #[trigger] reach::edge(g, a, b) && s[b] implies s[a] by {
        reach::lemma_edge(g, a, b);
        if comp[b] != c {
            assert(old_comp[b] < c);
            assert(old_comp[a] <= old_comp[b]);
            assert(comp[a] == old_comp[a] || comp[a] == c);
        }
    }
    assert forall|x: int| 0 <= x < n && reach::mutual(g, x, r) implies #[trigger] comp[x] == c by {
        reach::lemma_closed_backward(g, s, x, r);
        if comp[x] != c {
            assert(old_comp[x] < c);
            assert(old_comp[r] == old_comp[x]);
        }
    }
    assert forall|x: int, y: int| 0 <= x < n && 0 <= y < n && #[trigger] comp[x] < c + 1 implies (#[trigger] comp[y]
        == comp[x] <==> reach::mutual(g, x, y)) by {
        if comp[x] == c {
            if comp[y] == c {
                reach::lemma_trans(g, x, r, y);
                reach::lemma_trans(g, y, r, x);
            }
            if reach::mutual(g, x, y) {
                reach::lemma_trans(g, y, x, r);
                reach::lemma_trans(g, r, x, y);
            }
        } else {
            assert(comp[x] == old_comp[x] && old_comp[x] < c);
            if comp[y] == comp[x] {
                assert(old_comp[y] == old_comp[x]);
            }
            if reach::mutual(g, x, y) {
                assert(old_comp[y] == old_comp[x]);
            }
        }
    }
    assert forall|a: int, b: int| #[trigger] reach::edge(g, a, b) && comp[b] < c + 1 implies comp[a] <= comp[b] by {
        reach::lemma_edge(g, a, b);
        if comp[b] == c {
            assert(comp[a] != n);
            assert(comp[a] == old_comp[a] || comp[a] == c);
        } else {
            assert(old_comp[b] == comp[b] && old_comp[b] < c);
            assert(old_comp[a] <= old_comp[b]);
            assert(comp[a] == old_comp[a] || comp[a] == c);
        }
    }
    assert forall|k: int| 0 <= k < c + 1 implies #[trigger] used(comp, k) by {
        if k == c {
            assert(comp[r] == c);
        } else {
            assert(used(old_comp, k));
            let x = choose|x: int| 0 <= x < old_comp.len() && #[trigger] old_comp[x] == k;
            assert(comp[x] == k);
        }
    }
}

/// The components of a graph in reverse topological order, each ascending.
pub(crate) fn components(adj: &Vec<Vec<usize>>, Ghost(g): Ghost<Seq<Seq<usize>>>) -> (out: Vec<Vec<usize>>)
    requires
        g == adj@.map_values(|e: Vec<usize>| e@),
        reach::closed(g),
        g.len() <= usize::MAX,
    ensures
        are_components(g, out@),
        by_finish(finished(g), out@),
        lists_all(finished(g), g.len()),
{
    let n: usize = adj.len();
    let (comp, count) = number(adj, Ghost(g));
    let mut out: Vec<Vec<usize>> = Vec::new();
    let mut i: usize = 0;
    while i < count
        invariant
            i <= count,
            out@.len() == i,
            forall|k: int| 0 <= k < i ==> (#[trigger] out@[k])@.len() == 0,
        decreases count - i,
    {
        out.push(Vec::new());
        i += 1;
    }
    let mut v: usize = 0;
    while v < n
        invariant
            v <= n,
            n == g.len(),
            comp@.len() == n,
            out@.len() == count,
            forall|x: int| 0 <= x < g.len() ==> (#[trigger] comp@[x]) < count,
            forall|k: int| 0 <= k < count ==> rising((#[trigger] out@[k])@),
            forall|k: int, i: int|
                0 <= k < count && 0 <= i < out@[k]@.len() ==> (#[trigger] out@[k]@[i]) < v && comp@[out@[k]@[i] as int]
                    == count - 1 - k,
            forall|x: int| 0 <= x < v ==> out@[count - 1 - #[trigger] comp@[x]]@.contains(x as usize),
        decreases n - v,
    {
        let ghost was = out@;
        assert(comp@[v as int] < count);
        let k: usize = count - 1 - comp[v];
        let mut l = out.remove(k);
        let ghost l0 = l@;
        l.push(v);
        out.insert(k, l);
        proof {
            assert(out@ =~= was.update(k as int, l));
            assert(was[k as int]@ == l0);
            assert(rising(was[k as int]@));
            assert forall|a: int, b: int| 0 <= a < b < l@.len() implies l@[a] < l@[b] by {
                if b < l0.len() {
                    assert(l0[a] < l0[b]);
                } else {
                    assert(was[k as int]@[a] < v);
                }
            }
            assert forall|q: int, i: int| 0 <= q < count && 0 <= i < out@[q]@.len() implies (#[trigger] out@[q]@[i]) < v + 1
                && comp@[out@[q]@[i] as int] == count - 1 - q by {
                if q == k && i == l0.len() {
                } else {
                    assert(was[q]@[i] == out@[q]@[i]);
                }
            }
            assert forall|x: int| 0 <= x < v + 1 implies out@[count - 1 - #[trigger] comp@[x]]@.contains(x as usize) by {
                let q = count - 1 - comp@[x];
                if x == v {
                    assert(l@[l0.len() as int] == v);
                } else {
                    assert(was[q]@.contains(x as usize));
                    let i = choose|i: int| 0 <= i < was[q]@.len() && was[q]@[i] == x as usize;
                    assert(out@[q]@[i] == x as usize);
                }
            }
        }
        v += 1;
    }
    proof {
        assert forall|k: int, x: int| 0 <= x < n implies (#[trigger] member(out@, k, x) <==> 0 <= k < count && comp@[x]
            == count - 1 - k) by {
            if member(out@, k, x) {
                let i = choose|i: int| 0 <= i < out@[k]@.len() && out@[k]@[i] == x as usize;
                assert(comp@[out@[k]@[i] as int] == count - 1 - k);
            }
            if 0 <= k < count && comp@[x] == count - 1 - k {
                assert(out@[count - 1 - comp@[x]]@.contains(x as usize));
            }
        }
        assert forall|k: int| 0 <= k < out@.len() implies (#[trigger] out@[k])@.len() > 0 && rising(out@[k]@) by {
            assert(used(comp@, count - 1 - k));
            let x = choose|x: int| 0 <= x < comp@.len() && #[trigger] comp@[x] == count - 1 - k;
            assert(member(out@, k, x));
        }
        assert forall|x: int| 0 <= x < g.len() implies #[trigger] classed(out@, x) by {
            assert(member(out@, count - 1 - comp@[x], x));
        }
        let f = finished(g);
        assert forall|k: int, l: int, i: int, j: int|
            0 <= k < l < out@.len() && #[trigger] last_at(f, out@[k]@, i) && #[trigger] last_at(f, out@[l]@, j) implies i
            < j by {
            assert(member(out@, k, f[i] as int) && member(out@, l, f[j] as int));
            if j < i {
                assert(final_of(f, comp@, j)) by {
                    assert forall|q: int| j < q < f.len() implies comp@[#[trigger] f[q] as int] != comp@[f[j] as int] by {
                        assert(!out@[l]@.contains(f[q]));
                        assert(!member(out@, l, f[q] as int));
                    }
                }
                assert(comp@[f[i] as int] < comp@[f[j] as int]);
            }
        }
    }
    out
}

} // verus!
