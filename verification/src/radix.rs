//! A byte-wise radix trie for string keys.
//!
//! Dictionary encoding and text indexes benefit from a prefix-sharing map from
//! byte strings to integer ids: it deduplicates common prefixes, supports
//! ordered iteration, and answers prefix-range queries (`WHERE name LIKE
//! 'foo%'`) directly. This is a compressed (path-collapsing) radix trie — an
//! edge can carry a multi-byte label — with values stored at the nodes that end
//! a key.

use crate::bytes;
use crate::lex;
use vstd::prelude::*;
use vstd::string::*;

verus! {

#[derive(Debug)]
struct RadixNode {
    /// The compressed edge label leading into this node (empty at the root).
    prefix: Vec<u8>,
    value: Option<i64>,
    /// By the first byte of their labels, ascending.
    children: Vec<RadixNode>,
}

/// A map from byte strings to `i64` values.
#[derive(Debug)]
pub struct RadixTree {
    root: RadixNode,
    len: usize,
}

/// Labels are not empty and start with different bytes, in order.
spec fn fanned(cs: Seq<RadixNode>) -> bool {
    &&& forall|i: int| 0 <= i < cs.len() ==> (#[trigger] cs[i]).prefix@.len() > 0
    &&& forall|i: int, j: int|
        0 <= i < j < cs.len() ==> (#[trigger] cs[i]).prefix@[0] < (#[trigger] cs[j]).prefix@[0]
}

/// A node that a collapsed path needs: it ends a key, or paths part there.
spec fn tight(n: RadixNode) -> bool {
    n.value is Some || n.children@.len() >= 2
}

/// Below the node no label can be joined with the next.
spec fn node_ok(n: RadixNode) -> bool
    decreases n,
{
    &&& fanned(n.children@)
    &&& forall|i: int| 0 <= i < n.children@.len() ==> node_ok(#[trigger] n.children@[i]) && tight(n.children@[i])
}

/// The child whose label starts with `b`.
spec fn pick(cs: Seq<RadixNode>, b: u8) -> Option<int>
    decreases cs.len(),
{
    if cs.len() == 0 {
        None
    } else if cs.last().prefix@[0] == b {
        Some(cs.len() - 1)
    } else {
        pick(cs.drop_last(), b)
    }
}

/// The value of a key below a node.
spec fn value_of(n: RadixNode, k: Seq<u8>) -> Option<i64>
    decreases n, 0nat,
{
    if k.len() == 0 {
        n.value
    } else {
        match pick(n.children@, k[0]) {
            None => None,
            Some(i) => {
                if 0 <= i < n.children@.len() {
                    value_under(n.children@[i], k)
                } else {
                    None
                }
            },
        }
    }
}

/// The value of a key that includes the label of a node.
spec fn value_under(c: RadixNode, k: Seq<u8>) -> Option<i64>
    decreases c, 1nat,
{
    if lex::starts(k, c.prefix@) {
        value_of(c, k.skip(c.prefix@.len() as int))
    } else {
        None
    }
}

/// The number of nodes.
spec fn size_of(n: RadixNode) -> nat
    decreases n, 0nat,
{
    1 + sizes_of(n.children@)
}

spec fn sizes_of(cs: Seq<RadixNode>) -> nat
    decreases cs, 1nat,
{
    if cs.len() == 0 {
        0
    } else {
        sizes_of(cs.drop_last()) + size_of(cs[cs.len() - 1])
    }
}

/// A key and its value.
pub type Pair = (Seq<u8>, i64);

/// Keys with a prefix put in front.
pub open spec fn prepended(p: Seq<u8>, s: Seq<Pair>) -> Seq<Pair> {
    s.map_values(|e: Pair| (p + e.0, e.1))
}

/// Keys in ascending order, each once.
pub open spec fn by_key(s: Seq<Pair>) -> bool {
    forall|i: int, j: int| 0 <= i < j < s.len() ==> lex::less(#[trigger] s[i].0, #[trigger] s[j].0)
}

/// The pairs below a node, in order.
spec fn pairs_of(n: RadixNode) -> Seq<Pair>
    decreases n, 0nat,
{
    let own = match n.value {
        Some(v) => seq![(Seq::<u8>::empty(), v)],
        None => Seq::empty(),
    };
    own + pairs_under(n.children@)
}

/// The pairs of a list of children, in order.
spec fn pairs_under(cs: Seq<RadixNode>) -> Seq<Pair>
    decreases cs, 1nat,
{
    if cs.len() == 0 {
        Seq::empty()
    } else {
        let c = cs[cs.len() - 1];
        pairs_under(cs.drop_last()) + prepended(c.prefix@, pairs_of(c))
    }
}

proof fn lemma_pick(cs: Seq<RadixNode>, b: u8)
    requires
        fanned(cs),
    ensures
        match pick(cs, b) {
            Some(i) => 0 <= i < cs.len() && cs[i].prefix@[0] == b,
            None => forall|i: int| 0 <= i < cs.len() ==> (#[trigger] cs[i]).prefix@[0] != b,
        },
        forall|i: int| 0 <= i < cs.len() && (#[trigger] cs[i]).prefix@[0] == b ==> pick(cs, b) == Some(i),
    decreases cs.len(),
{
    if cs.len() > 0 {
        let d = cs.drop_last();
        assert(fanned(d)) by {
            assert forall|i: int, j: int| 0 <= i < j < d.len() implies (#[trigger] d[i]).prefix@[0] < (#[trigger] d[j]).prefix@[0] by {
                assert(cs[i].prefix@[0] < cs[j].prefix@[0]);
            }
            assert forall|i: int| 0 <= i < d.len() implies (#[trigger] d[i]).prefix@.len() > 0 by {
                assert(cs[i].prefix@.len() > 0);
            }
        }
        lemma_pick(d, b);
        assert forall|i: int| 0 <= i < cs.len() && (#[trigger] cs[i]).prefix@[0] == b implies pick(cs, b) == Some(i) by {
            if i < d.len() {
                assert(cs[i].prefix@[0] < cs[cs.len() - 1].prefix@[0]);
                assert(d[i] == cs[i]);
            }
        }
        if pick(cs, b) is None {
            assert forall|i: int| 0 <= i < cs.len() implies (#[trigger] cs[i]).prefix@[0] != b by {
                if i < d.len() {
                    assert(d[i] == cs[i]);
                }
            }
        }
    }
}

proof fn lemma_starts_first(k: Seq<u8>, p: Seq<u8>)
    requires
        p.len() > 0,
        lex::starts(k, p),
    ensures
        k.len() > 0,
        k[0] == p[0],
        k == p + k.skip(p.len() as int),
{
    assert(k.take(p.len() as int)[0] == k[0]);
    assert(k =~= p + k.skip(p.len() as int));
}

/// Children stand for the keys of their labels, in order.
proof fn lemma_pairs_under(cs: Seq<RadixNode>)
    requires
        fanned(cs),
        forall|i: int| 0 <= i < cs.len() ==> node_ok(#[trigger] cs[i]),
    ensures
        by_key(pairs_under(cs)),
        forall|i: int|
            0 <= i < pairs_under(cs).len() ==> (#[trigger] pairs_under(cs)[i]).0.len() > 0 && exists|c: int|
                0 <= c < cs.len() && pairs_under(cs)[i].0[0] == (#[trigger] cs[c]).prefix@[0],
        forall|k: Seq<u8>, v: i64| #[trigger]
            pairs_under(cs).contains((k, v)) <==> exists|c: int|
                0 <= c < cs.len() && value_under(#[trigger] cs[c], k) == Some(v),
    decreases cs, 1nat,
{
    let s = pairs_under(cs);
    if cs.len() > 0 {
        let d = cs.drop_last();
        let m = cs.len() - 1;
        let c = cs[m];
        assert forall|i: int| 0 <= i < d.len() implies node_ok(#[trigger] d[i]) by {
            assert(node_ok(cs[i]));
        }
        assert(fanned(d)) by {
            assert forall|i: int, j: int| 0 <= i < j < d.len() implies (#[trigger] d[i]).prefix@[0] < (#[trigger] d[j]).prefix@[0] by {
                assert(cs[i].prefix@[0] < cs[j].prefix@[0]);
            }
            assert forall|i: int| 0 <= i < d.len() implies (#[trigger] d[i]).prefix@.len() > 0 by {
                assert(cs[i].prefix@.len() > 0);
            }
        }
        lemma_pairs_under(d);
        assert(node_ok(c));
        lemma_pairs_of(c);
        let a = pairs_under(d);
        let q = pairs_of(c);
        let p = c.prefix@;
        let b = prepended(p, q);
        assert(p.len() > 0);
        assert(s == a + b);
        assert forall|i: int| 0 <= i < s.len() implies (#[trigger] s[i]).0.len() > 0 && exists|x: int|
            0 <= x < cs.len() && s[i].0[0] == (#[trigger] cs[x]).prefix@[0] by {
            if i < a.len() {
                assert(s[i] == a[i]);
                let x = choose|x: int| 0 <= x < d.len() && a[i].0[0] == (#[trigger] d[x]).prefix@[0];
                assert(cs[x] == d[x]);
            } else {
                assert(s[i] == b[i - a.len()]);
                assert(cs[m] == c);
            }
        }
        assert forall|i: int, j: int| 0 <= i < j < s.len() implies lex::less(#[trigger] s[i].0, #[trigger] s[j].0) by {
            if j < a.len() {
                assert(s[i] == a[i] && s[j] == a[j]);
            } else if i < a.len() {
                assert(s[i] == a[i] && s[j] == b[j - a.len()]);
                let x = choose|x: int| 0 <= x < d.len() && a[i].0[0] == (#[trigger] d[x]).prefix@[0];
                assert(cs[x] == d[x]);
                assert(cs[x].prefix@[0] < cs[m].prefix@[0]);
            } else {
                let u = i - a.len();
                let w = j - a.len();
                assert(s[i] == b[u] && s[j] == b[w]);
                assert(lex::less(q[u].0, q[w].0));
                lex::lemma_prepend(p, q[u].0, q[w].0);
            }
        }
        assert forall|k: Seq<u8>, v: i64| #[trigger] s.contains((k, v)) <==> exists|x: int|
            0 <= x < cs.len() && value_under(#[trigger] cs[x], k) == Some(v) by {
            if s.contains((k, v)) {
                let i = choose|i: int| 0 <= i < s.len() && s[i] == (k, v);
                if i < a.len() {
                    assert(a[i] == (k, v));
                    assert(a.contains((k, v)));
                    let x = choose|x: int| 0 <= x < d.len() && value_under(#[trigger] d[x], k) == Some(v);
                    assert(cs[x] == d[x]);
                } else {
                    let u = i - a.len();
                    assert(b[u] == (k, v));
                    assert(q.contains(q[u]));
                    assert(value_of(c, q[u].0) == Some(v));
                    assert(k.take(p.len() as int) =~= p);
                    assert(k.skip(p.len() as int) =~= q[u].0);
                    assert(value_under(cs[m], k) == Some(v));
                }
            }
            if exists|x: int| 0 <= x < cs.len() && value_under(#[trigger] cs[x], k) == Some(v) {
                let x = choose|x: int| 0 <= x < cs.len() && value_under(#[trigger] cs[x], k) == Some(v);
                if x < m {
                    assert(d[x] == cs[x]);
                    assert(a.contains((k, v)));
                    let i = choose|i: int| 0 <= i < a.len() && a[i] == (k, v);
                    assert(s[i] == (k, v));
                } else {
                    let t = k.skip(p.len() as int);
                    lemma_starts_first(k, p);
                    assert(q.contains((t, v)));
                    let u = choose|u: int| 0 <= u < q.len() && q[u] == (t, v);
                    assert(b[u] == (k, v));
                    assert(s[a.len() + u] == (k, v));
                }
            }
        }
    }
}

/// A node stands for the keys below it, in order.
proof fn lemma_pairs_of(n: RadixNode)
    requires
        node_ok(n),
    ensures
        by_key(pairs_of(n)),
        forall|k: Seq<u8>, v: i64| #[trigger] pairs_of(n).contains((k, v)) <==> value_of(n, k) == Some(v),
    decreases n, 0nat,
{
    let cs = n.children@;
    lemma_pairs_under(cs);
    let s = pairs_of(n);
    let u = pairs_under(cs);
    let e = Seq::<u8>::empty();
    let own = match n.value {
        Some(v) => seq![(e, v)],
        None => Seq::empty(),
    };
    assert(s == own + u);
    assert forall|i: int, j: int| 0 <= i < j < s.len() implies lex::less(#[trigger] s[i].0, #[trigger] s[j].0) by {
        assert(s[j] == u[j - own.len()]);
        if i < own.len() {
            assert(s[i].0 == e);
        } else {
            assert(s[i] == u[i - own.len()]);
        }
    }
    assert forall|k: Seq<u8>, v: i64| #[trigger] s.contains((k, v)) <==> value_of(n, k) == Some(v) by {
        if k.len() > 0 {
            lemma_pick(cs, k[0]);
        }
        if s.contains((k, v)) {
            let i = choose|i: int| 0 <= i < s.len() && s[i] == (k, v);
            if i < own.len() {
                assert(k == e);
            } else {
                assert(u[i - own.len()] == (k, v));
                assert(u.contains((k, v)));
                let c = choose|c: int| 0 <= c < cs.len() && value_under(#[trigger] cs[c], k) == Some(v);
                assert(cs[c].prefix@.len() > 0);
                lemma_starts_first(k, cs[c].prefix@);
                assert(pick(cs, k[0]) == Some(c));
            }
        }
        if value_of(n, k) == Some(v) {
            if k.len() == 0 {
                assert(k =~= e);
                assert(s[0] == (k, v));
            } else {
                let c = pick(cs, k[0]).unwrap();
                assert(value_under(cs[c], k) == Some(v));
                assert(u.contains((k, v)));
                let i = choose|i: int| 0 <= i < u.len() && u[i] == (k, v);
                assert(s[own.len() + i] == (k, v));
            }
        }
    }
}

proof fn lemma_under(c: RadixNode, k: Seq<u8>)
    ensures
        value_under(c, k) == (if lex::starts(k, c.prefix@) {
            value_of(c, k.skip(c.prefix@.len() as int))
        } else {
            None
        }),
{
}

/// The pairs of a list of vectors.
pub open spec fn pair_views(s: Seq<(Vec<u8>, i64)>) -> Seq<Pair> {
    s.map_values(|e: (Vec<u8>, i64)| (e.0@, e.1))
}

fn new_node(prefix: Vec<u8>, value: Option<i64>) -> (r: RadixNode)
    ensures
        r.prefix == prefix,
        r.value == value,
        r.children@.len() == 0,
        node_ok(r),
        forall|k: Seq<u8>| #[trigger] value_of(r, k) == (if k.len() == 0 {
            value
        } else {
            None
        }),
{
    let r = RadixNode { prefix, value, children: Vec::new() };
    assert(pick(r.children@, 0) is None);
    r
}

/// Where the child stands whose label starts with `b`.
fn find_child(children: &Vec<RadixNode>, b: u8) -> (r: Option<usize>)
    requires
        fanned(children@),
    ensures
        match r {
            Some(i) => pick(children@, b) == Some(i as int) && i < children@.len() && children@[i as int].prefix@[0] == b,
            None => pick(children@, b) is None,
        },
{
    let mut i: usize = 0;
    proof {
        lemma_pick(children@, b);
    }
    while i < children.len()
        invariant
            i <= children@.len(),
            fanned(children@),
            forall|k: int| 0 <= k < i ==> (#[trigger] children@[k]).prefix@[0] != b,
            forall|k: int|
                0 <= k < children@.len() && (#[trigger] children@[k]).prefix@[0] == b ==> pick(children@, b) == Some(k),
        decreases children@.len() - i,
    {
        assert(children@[i as int].prefix@.len() > 0);
        if children[i].prefix[0] == b {
            return Some(i);
        }
        i += 1;
    }
    proof {
        lemma_pick(children@, b);
    }
    None
}

/// Put a child in its place by the first byte of its label.
fn add_child(children: &mut Vec<RadixNode>, child: RadixNode)
    requires
        fanned(old(children)@),
        child.prefix@.len() > 0,
        pick(old(children)@, child.prefix@[0]) is None,
    ensures
        fanned(final(children)@),
        exists|at: int|
            0 <= at <= old(children)@.len() && final(children)@ == #[trigger] old(children)@.insert(at, child),
{
    let mut at: usize = 0;
    let ghost cs = children@;
    proof {
        lemma_pick(cs, child.prefix@[0]);
    }
    while at < children.len() && children[at].prefix[0] < child.prefix[0]
        invariant
            at <= children@.len(),
            children@ == cs,
            fanned(cs),
            child.prefix@.len() > 0,
            forall|k: int| 0 <= k < at ==> (#[trigger] cs[k]).prefix@[0] < child.prefix@[0],
            forall|k: int| 0 <= k < cs.len() ==> (#[trigger] cs[k]).prefix@.len() > 0,
        decreases children@.len() - at,
    {
        at += 1;
    }
    children.insert(at, child);
    proof {
        let n = cs.insert(at as int, child);
        assert(children@ == n);
        assert forall|i: int| 0 <= i < n.len() implies (#[trigger] n[i]).prefix@.len() > 0 by {
            if i < at {
                assert(n[i] == cs[i]);
            } else if i > at {
                assert(n[i] == cs[i - 1]);
            }
        }
        assert forall|i: int, j: int| 0 <= i < j < n.len() implies (#[trigger] n[i]).prefix@[0] < (#[trigger] n[j]).prefix@[0] by {
            let a = if i < at {
                i
            } else {
                i - 1
            };
            let b = if j < at {
                j
            } else {
                j - 1
            };
            if i == at {
                assert(n[j] == cs[j - 1]);
                assert(cs[at as int].prefix@[0] != child.prefix@[0]);
                if j - 1 > at {
                    assert(cs[at as int].prefix@[0] < cs[j - 1].prefix@[0]);
                }
            } else if j == at {
                assert(n[i] == cs[i]);
            } else {
                assert(n[i] == cs[a] && n[j] == cs[b]);
                assert(cs[a].prefix@[0] < cs[b].prefix@[0]);
            }
        }
    }
}

/// A new child for a key that no child shares a byte with.
proof fn lemma_added(old_n: RadixNode, n: RadixNode, at: int, leaf: RadixNode, value: i64)
    requires
        node_ok(old_n),
        fanned(n.children@),
        n.value == old_n.value,
        0 <= at <= old_n.children@.len(),
        n.children@ == old_n.children@.insert(at, leaf),
        node_ok(leaf),
        tight(leaf),
        leaf.prefix@.len() > 0,
        pick(old_n.children@, leaf.prefix@[0]) is None,
        forall|k: Seq<u8>| #[trigger] value_of(leaf, k) == (if k.len() == 0 {
            Some(value)
        } else {
            None
        }),
    ensures
        node_ok(n),
        forall|k: Seq<u8>| #[trigger] value_of(n, k) == (if k == leaf.prefix@ {
            Some(value)
        } else {
            value_of(old_n, k)
        }),
        value_of(old_n, leaf.prefix@) is None,
        size_of(n) == size_of(old_n) + size_of(leaf),
{
    let cs = old_n.children@;
    let ns = n.children@;
    lemma_sizes_insert(cs, at, leaf);
    assert forall|i: int| 0 <= i < ns.len() implies node_ok(#[trigger] ns[i]) && tight(ns[i]) by {
        if i < at {
            assert(node_ok(cs[i]));
        } else if i > at {
            assert(node_ok(cs[i - 1]));
        }
    }
    let p = leaf.prefix@;
    assert forall|k: Seq<u8>| #[trigger] value_of(n, k) == (if k == p {
        Some(value)
    } else {
        value_of(old_n, k)
    }) by {
        if k.len() > 0 {
            lemma_pick(cs, k[0]);
            lemma_pick(ns, k[0]);
            match pick(ns, k[0]) {
                Some(i) => {
                    if i == at {
                        lemma_under(leaf, k);
                        if lex::starts(k, p) {
                            lemma_starts_first(k, p);
                            if k.skip(p.len() as int).len() == 0 {
                                assert(k =~= p);
                            }
                        } else if k == p {
                            assert(k.take(p.len() as int) =~= p);
                        }
                        if k == p {
                            assert(k.skip(p.len() as int).len() == 0);
                        }
                    } else {
                        let j = if i < at {
                            i
                        } else {
                            i - 1
                        };
                        assert(cs[j] == ns[i]);
                        assert(pick(cs, k[0]) == Some(j));
                        if k == p {
                            assert(ns[at].prefix@[0] == k[0]);
                        }
                    }
                },
                None => {
                    assert(ns[at].prefix@[0] != k[0]);
                    if let Some(j) = pick(cs, k[0]) {
                        let i = if j < at {
                            j
                        } else {
                            j + 1
                        };
                        assert(ns[i] == cs[j]);
                    }
                },
            }
        }
    }
}

proof fn lemma_sizes_insert(cs: Seq<RadixNode>, at: int, c: RadixNode)
    requires
        0 <= at <= cs.len(),
    ensures
        sizes_of(cs.insert(at, c)) == sizes_of(cs) + size_of(c),
    decreases cs.len(),
{
    let ns = cs.insert(at, c);
    if at == cs.len() {
        assert(ns.drop_last() =~= cs);
    } else {
        assert(ns.drop_last() =~= cs.drop_last().insert(at, c));
        lemma_sizes_insert(cs.drop_last(), at, c);
    }
}

proof fn lemma_sizes_update(cs: Seq<RadixNode>, at: int, c: RadixNode)
    requires
        0 <= at < cs.len(),
    ensures
        sizes_of(cs.update(at, c)) == sizes_of(cs) - size_of(cs[at]) + size_of(c),
    decreases cs.len(),
{
    let ns = cs.update(at, c);
    if at == cs.len() - 1 {
        assert(ns.drop_last() =~= cs.drop_last());
    } else {
        assert(ns.drop_last() =~= cs.drop_last().update(at, c));
        lemma_sizes_update(cs.drop_last(), at, c);
    }
}

/// A child changed for one key of its own.
proof fn lemma_replaced(old_n: RadixNode, n: RadixNode, at: int, key: Seq<u8>, value: i64)
    requires
        node_ok(old_n),
        n.value == old_n.value,
        0 <= at < old_n.children@.len(),
        n.children@.len() == old_n.children@.len(),
        forall|i: int| 0 <= i < n.children@.len() && i != at ==> n.children@[i] == old_n.children@[i],
        node_ok(n.children@[at]),
        tight(n.children@[at]),
        n.children@[at].prefix@.len() > 0,
        n.children@[at].prefix@[0] == old_n.children@[at].prefix@[0],
        key.len() > 0,
        key[0] == old_n.children@[at].prefix@[0],
        forall|k: Seq<u8>|
            k.len() > 0 && k[0] == key[0] ==> #[trigger] value_under(n.children@[at], k) == (if k == key {
                Some(value)
            } else {
                value_under(old_n.children@[at], k)
            }),
    ensures
        node_ok(n),
        forall|k: Seq<u8>| #[trigger] value_of(n, k) == (if k == key {
            Some(value)
        } else {
            value_of(old_n, k)
        }),
        value_of(old_n, key) == value_under(old_n.children@[at], key),
        size_of(n) == size_of(old_n) - size_of(old_n.children@[at]) + size_of(n.children@[at]),
{
    let cs = old_n.children@;
    let ns = n.children@;
    assert(ns =~= cs.update(at, ns[at]));
    lemma_sizes_update(cs, at, ns[at]);
    assert(fanned(ns)) by {
        assert forall|i: int, j: int| 0 <= i < j < ns.len() implies (#[trigger] ns[i]).prefix@[0] < (#[trigger] ns[j]).prefix@[0] by {
            assert(cs[i].prefix@[0] < cs[j].prefix@[0]);
        }
        assert forall|i: int| 0 <= i < ns.len() implies (#[trigger] ns[i]).prefix@.len() > 0 by {
            assert(cs[i].prefix@.len() > 0);
        }
    }
    assert forall|i: int| 0 <= i < ns.len() implies node_ok(#[trigger] ns[i]) && tight(ns[i]) by {
        assert(node_ok(cs[i]));
    }
    lemma_pick(cs, key[0]);
    assert forall|k: Seq<u8>| #[trigger] value_of(n, k) == (if k == key {
        Some(value)
    } else {
        value_of(old_n, k)
    }) by {
        if k.len() > 0 {
            lemma_pick(cs, k[0]);
            lemma_pick(ns, k[0]);
            if let Some(i) = pick(ns, k[0]) {
                assert(cs[i].prefix@[0] == k[0]);
                assert(pick(cs, k[0]) == Some(i));
                if i == at {
                    assert(value_under(ns[at], k) == (if k == key {
                        Some(value)
                    } else {
                        value_under(cs[at], k)
                    }));
                } else {
                    assert(pick(cs, key[0]) == Some(at));
                }
            } else {
                assert(ns[at].prefix@[0] != k[0]);
                if let Some(j) = pick(cs, k[0]) {
                    assert(ns[j].prefix@[0] == k[0]);
                }
            }
        }
    }
}

/// What a split edge stands for: what it did before, and the key.
proof fn lemma_split(child: RadixNode, lower: RadixNode, split: RadixNode, cp: int, key: Seq<u8>, value: i64)
    requires
        node_ok(child),
        0 < cp < child.prefix@.len(),
        cp <= key.len(),
        key.take(cp) == child.prefix@.take(cp),
        cp == key.len() || key[cp] != child.prefix@[cp],
        lower.value == child.value,
        lower.children == child.children,
        lower.prefix@ == child.prefix@.skip(cp),
        split.prefix@ == child.prefix@.take(cp),
        node_ok(split),
        forall|k: Seq<u8>| #[trigger] value_of(split, k) == (if k == key.skip(cp) {
            Some(value)
        } else if k.len() == 0 {
            None
        } else {
            value_under(lower, k)
        }),
    ensures
        forall|k: Seq<u8>| #[trigger] value_under(split, k) == (if k == key {
            Some(value)
        } else {
            value_under(child, k)
        }),
        value_under(child, key) is None,
{
    let p = child.prefix@;
    let q = p.take(cp);
    let m = p.len() as int;
    assert forall|k: Seq<u8>| #[trigger] value_under(split, k) == (if k == key {
        Some(value)
    } else {
        value_under(child, k)
    }) by {
        lemma_under(split, k);
        lemma_under(child, k);
        if lex::starts(k, q) {
            let t = k.skip(cp);
            lemma_under(lower, t);
            assert(k =~= q + t);
            assert(key =~= q + key.skip(cp));
            if t == key.skip(cp) {
                assert(k == key);
            }
            if t.len() > 0 {
                if lex::starts(t, p.skip(cp)) {
                    assert(k.take(m) =~= p) by {
                        assert(p =~= q + p.skip(cp));
                        assert(t.take(m - cp) == p.skip(cp));
                    }
                    assert(t.skip(m - cp) =~= k.skip(m));
                    lemma_value_same(lower, child, k.skip(m));
                }
                if lex::starts(k, p) {
                    assert(t.take(m - cp) =~= p.skip(cp)) by {
                        assert(k.take(m) == p);
                    }
                    assert(lex::starts(t, p.skip(cp)));
                }
            } else {
                assert(!lex::starts(k, p));
            }
        } else {
            if lex::starts(k, p) {
                assert(k.take(cp) =~= q) by {
                    assert(k.take(m) == p);
                }
            }
            if k == key {
                assert(key.take(cp) == q);
            }
        }
    }
    if lex::starts(key, p) {
        assert(key[cp] == p[cp]) by {
            assert(key.take(m)[cp] == p[cp]);
        }
    }
}

/// The label of a node does not count below it.
proof fn lemma_value_same(a: RadixNode, b: RadixNode, k: Seq<u8>)
    requires
        a.value == b.value,
        a.children == b.children,
    ensures
        value_of(a, k) == value_of(b, k),
{
}

/// Insert the key from `from` on below a node; tells the old value, and whether
/// the key is new.
fn insert_into(node: &mut RadixNode, key: &[u8], from: usize, value: i64) -> (r: (Option<i64>, bool))
    requires
        node_ok(*old(node)),
        from <= key@.len(),
    ensures
        node_ok(*final(node)),
        final(node).prefix == old(node).prefix,
        forall|k: Seq<u8>| #[trigger] value_of(*final(node), k) == (if k == key@.skip(from as int) {
            Some(value)
        } else {
            value_of(*old(node), k)
        }),
        r.0 == value_of(*old(node), key@.skip(from as int)),
        r.1 == (r.0 is None),
        tight(*old(node)) ==> tight(*final(node)),
        size_of(*old(node)) <= size_of(*final(node)) <= size_of(*old(node)) + 2,
        r.0 is Some ==> size_of(*final(node)) == size_of(*old(node)),
    decreases key@.len() - from,
{
    let ghost n0 = *node;
    let ghost cs = node.children@;
    let ghost rest = key@.skip(from as int);
    if from == key.len() {
        let was: Option<i64> = node.value;
        node.value = Some(value);
        proof {
            assert(rest =~= Seq::<u8>::empty());
            assert forall|k: Seq<u8>| #[trigger] value_of(*node, k) == (if k == rest {
                Some(value)
            } else {
                value_of(n0, k)
            }) by {
                if k.len() == 0 {
                    assert(k =~= rest);
                }
            }
        }
        return (was, was.is_none());
    }
    let first: u8 = key[from];
    assert(rest[0] == first);
    match find_child(&node.children, first) {
        None => {
            let leaf = new_node(bytes::copy_range(key, from, key.len()), Some(value));
            assert(leaf.prefix@ =~= rest);
            let ghost g_leaf = leaf;
            add_child(&mut node.children, leaf);
            proof {
                let at = choose|at: int| 0 <= at <= cs.len() && node.children@ == #[trigger] cs.insert(at, g_leaf);
                lemma_added(n0, *node, at, g_leaf, value);
                assert(sizes_of(g_leaf.children@) == 0);
            }
            (None, true)
        },
        Some(at) => {
            let mut child = node.children.remove(at);
            let ghost c0 = child;
            assert(node_ok(cs[at as int]));
            let part = bytes::copy_range(key, from, key.len());
            assert(part@ =~= rest);
            let cp: usize = lex::shared(child.prefix.as_slice(), part.as_slice());
            proof {
                assert(cp > 0) by {
                    if cp == 0 {
                        assert(c0.prefix@[0] != rest[0]);
                    }
                }
            }
            if cp == child.prefix.len() {
                let r = insert_into(&mut child, key, from + cp, value);
                let ghost c1 = child;
                node.children.insert(at, child);
                proof {
                    assert(node.children@ =~= cs.update(at as int, c1));
                    let p = c0.prefix@;
                    let low = key@.skip(from + cp);
                    assert(rest.skip(cp as int) =~= low);
                    assert(p.take(cp as int) =~= p);
                    assert forall|k: Seq<u8>| k.len() > 0 && k[0] == rest[0] implies #[trigger] value_under(c1, k) == (
                    if k == rest {
                        Some(value)
                    } else {
                        value_under(c0, k)
                    }) by {
                        lemma_under(c1, k);
                        lemma_under(c0, k);
                        if lex::starts(k, p) {
                            lemma_starts_first(k, p);
                            if k.skip(cp as int) == low {
                                assert(k =~= p + low);
                                assert(rest =~= p + low);
                            }
                        }
                    }
                    assert(value_under(c0, rest) == value_of(c0, low));
                    lemma_replaced(n0, *node, at as int, rest, value);
                }
                return r;
            }
            let ghost p = child.prefix@;
            let upper = bytes::copy_range(child.prefix.as_slice(), 0, cp);
            let below = bytes::copy_range(child.prefix.as_slice(), cp, child.prefix.len());
            child.prefix = below;
            let ghost lower = child;
            proof {
                assert(upper@ =~= p.take(cp as int));
                assert(lower.prefix@ =~= p.skip(cp as int));
                assert(node_ok(lower));
            }
            let mut split = new_node(upper, if from + cp == key.len() {
                Some(value)
            } else {
                None
            });
            let ghost s0 = split;
            add_child(&mut split.children, child);
            proof {
                let i = choose|i: int| 0 <= i <= 0 && split.children@ == #[trigger] s0.children@.insert(i, lower);
                assert(split.children@ =~= seq![lower]);
                lemma_one_child(split, lower);
                lemma_sizes_insert(s0.children@, i, lower);
                assert(sizes_of(s0.children@) == 0);
                assert(size_of(lower) == size_of(c0));
            }
            let ghost sz = size_of(split);
            assert(sz == 1 + size_of(c0));
            if from + cp < key.len() {
                let ghost s1 = split;
                let leaf = new_node(bytes::copy_range(key, from + cp, key.len()), Some(value));
                let ghost g_leaf = leaf;
                proof {
                    assert(leaf.prefix@ =~= rest.skip(cp as int));
                    assert(leaf.prefix@[0] == rest[cp as int]);
                    lemma_pick(split.children@, leaf.prefix@[0]);
                    if let Some(i) = pick(split.children@, leaf.prefix@[0]) {
                        assert(split.children@[i] == lower);
                        assert(lower.prefix@[0] == p[cp as int]);
                    }
                }
                add_child(&mut split.children, leaf);
                proof {
                    let i = choose|i: int|
                        0 <= i <= s1.children@.len() && split.children@ == #[trigger] s1.children@.insert(i, g_leaf);
                    lemma_added(s1, split, i, g_leaf, value);
                    assert(sizes_of(g_leaf.children@) == 0);
                }
            } else {
                assert(rest.skip(cp as int) =~= Seq::<u8>::empty());
            }
            let ghost g_split = split;
            node.children.insert(at, split);
            proof {
                assert(node.children@ =~= cs.update(at as int, g_split));
                assert forall|k: Seq<u8>| #[trigger] value_of(g_split, k) == (if k == rest.skip(cp as int) {
                    Some(value)
                } else if k.len() == 0 {
                    None
                } else {
                    value_under(lower, k)
                }) by {
                    if k.len() == 0 {
                        assert(k =~= Seq::<u8>::empty());
                    }
                }
                lemma_split(c0, lower, g_split, cp as int, rest, value);
                assert(g_split.prefix@[0] == p[0]);
                lemma_replaced(n0, *node, at as int, rest, value);
            }
            (None, true)
        },
    }
}

/// A node with one child and no more.
proof fn lemma_one_child(n: RadixNode, c: RadixNode)
    requires
        n.children@ == seq![c],
        node_ok(c),
        tight(c),
        c.prefix@.len() > 0,
        fanned(n.children@),
    ensures
        node_ok(n),
        forall|k: Seq<u8>| #[trigger] value_of(n, k) == (if k.len() == 0 {
            n.value
        } else {
            value_under(c, k)
        }),
{
    assert forall|i: int| 0 <= i < n.children@.len() implies node_ok(#[trigger] n.children@[i]) by {}
    assert forall|k: Seq<u8>| #[trigger] value_of(n, k) == (if k.len() == 0 {
        n.value
    } else {
        value_under(c, k)
    }) by {
        if k.len() > 0 {
            lemma_pick(n.children@, k[0]);
            if pick(n.children@, k[0]) is None {
                assert(n.children@[0].prefix@[0] != k[0]);
                if lex::starts(k, c.prefix@) {
                    lemma_starts_first(k, c.prefix@);
                }
            }
        }
    }
}

proof fn lemma_prepended(p: Seq<u8>, q: Seq<u8>, a: Seq<Pair>, b: Seq<Pair>)
    ensures
        prepended(p, a + b) == prepended(p, a) + prepended(p, b),
        prepended(p, prepended(q, a)) == prepended(p + q, a),
{
    assert(prepended(p, a + b) =~= prepended(p, a) + prepended(p, b));
    assert forall|i: int| 0 <= i < a.len() implies prepended(p, prepended(q, a))[i] == prepended(p + q, a)[i] by {
        assert(p + (q + a[i].0) =~= p + q + a[i].0);
    }
    assert(prepended(p, prepended(q, a)) =~= prepended(p + q, a));
}

/// Append what stands below a node whose key so far is `full`.
fn gather(node: &RadixNode, full: &Vec<u8>, out: &mut Vec<(Vec<u8>, i64)>)
    ensures
        pair_views(final(out)@) == pair_views(old(out)@) + prepended(full@, pairs_of(*node)),
    decreases node,
{
    let ghost base = pair_views(out@);
    let ghost e = Seq::<u8>::empty();
    let ghost own = match node.value {
        Some(v) => seq![(e, v)],
        None => Seq::<Pair>::empty(),
    };
    if let Some(v) = node.value {
        let ghost o = out@;
        let key = bytes::copy_range(full.as_slice(), 0, full.len());
        assert(key@ =~= full@ + e);
        out.push((key, v));
        assert(pair_views(out@) =~= base + prepended(full@, own));
    } else {
        assert(pair_views(out@) =~= base + prepended(full@, own));
    }
    let mut i: usize = 0;
    let ghost cs = node.children@;
    proof {
        assert(cs.take(0) =~= Seq::<RadixNode>::empty());
        assert(own + pairs_under(cs.take(0)) =~= own);
    }
    while i < node.children.len()
        invariant
            i <= cs.len(),
            cs == node.children@,
            pair_views(out@) == base + prepended(full@, own + pairs_under(cs.take(i as int))),
        decreases cs.len() - i,
    {
        let child = &node.children[i];
        let mut next = bytes::copy_range(full.as_slice(), 0, full.len());
        bytes::put_bytes(&mut next, child.prefix.as_slice());
        assert(next@ =~= full@ + child.prefix@);
        gather(child, &next, out);
        proof {
            let c = cs[i as int];
            assert(*child == c);
            assert(cs.take(i + 1).drop_last() =~= cs.take(i as int));
            let a = own + pairs_under(cs.take(i as int));
            let b = prepended(c.prefix@, pairs_of(c));
            lemma_prepended(full@, c.prefix@, a, b);
            lemma_prepended(full@, c.prefix@, pairs_of(c), b);
            assert(own + pairs_under(cs.take(i + 1)) =~= a + b);
            assert(pair_views(out@) =~= base + prepended(full@, own + pairs_under(cs.take(i + 1))));
        }
        i += 1;
    }
    assert(cs.take(i as int) =~= cs);
}

/// `s` lists the pairs of `m` whose keys start with `p`, in order.
pub open spec fn lists(s: Seq<Pair>, m: Map<Seq<u8>, i64>, p: Seq<u8>) -> bool {
    &&& by_key(s)
    &&& forall|k: Seq<u8>, v: i64| #[trigger]
        s.contains((k, v)) <==> m.contains_key(k) && m[k] == v && lex::starts(k, p)
}

proof fn lemma_by_key_prepended(p: Seq<u8>, s: Seq<Pair>)
    requires
        by_key(s),
    ensures
        by_key(prepended(p, s)),
        forall|k: Seq<u8>, v: i64| #[trigger]
            prepended(p, s).contains((k, v)) <==> lex::starts(k, p) && s.contains((k.skip(p.len() as int), v)),
{
    let t = prepended(p, s);
    assert forall|i: int, j: int| 0 <= i < j < t.len() implies lex::less(#[trigger] t[i].0, #[trigger] t[j].0) by {
        assert(lex::less(s[i].0, s[j].0));
        lex::lemma_prepend(p, s[i].0, s[j].0);
    }
    assert forall|k: Seq<u8>, v: i64| #[trigger] t.contains((k, v)) <==> lex::starts(k, p) && s.contains(
        (k.skip(p.len() as int), v),
    ) by {
        if t.contains((k, v)) {
            let i = choose|i: int| 0 <= i < t.len() && t[i] == (k, v);
            assert(k.take(p.len() as int) =~= p);
            assert(k.skip(p.len() as int) =~= s[i].0);
            assert(s[i] == (k.skip(p.len() as int), v));
        }
        if lex::starts(k, p) && s.contains((k.skip(p.len() as int), v)) {
            let i = choose|i: int| 0 <= i < s.len() && s[i] == (k.skip(p.len() as int), v);
            assert(k =~= p + s[i].0);
            assert(t[i] == (k, v));
        }
    }
}

impl View for RadixTree {
    type V = Map<Seq<u8>, i64>;

    /// The value of each key.
    closed spec fn view(&self) -> Map<Seq<u8>, i64> {
        map_of(self.root)
    }
}

spec fn map_of(n: RadixNode) -> Map<Seq<u8>, i64> {
    Map::new(|k: Seq<u8>| value_of(n, k) is Some, |k: Seq<u8>| value_of(n, k)->0)
}

impl Default for RadixTree {
    fn default() -> (r: RadixTree)
        ensures
            r.wf(),
            r@ == Map::<Seq<u8>, i64>::empty(),
    {
        RadixTree::new()
    }
}

impl Clone for RadixTree {
    fn clone(&self) -> (r: RadixTree)
        ensures
            self.wf() ==> r.wf() && r@ == self@ && r.nodes() == self.nodes(),
    {
        let root = copy_node(&self.root);
        let r = RadixTree { root, len: self.len };
        assert(r@ =~= self@);
        r
    }
}

/// Two nodes stand for the same keys.
spec fn alike(a: RadixNode, b: RadixNode) -> bool {
    &&& a.prefix@ == b.prefix@
    &&& forall|k: Seq<u8>| #[trigger] value_of(a, k) == value_of(b, k)
    &&& node_ok(a) ==> node_ok(b)
    &&& a.value == b.value
    &&& a.children@.len() == b.children@.len()
    &&& size_of(a) == size_of(b)
}

proof fn lemma_pick_alike(a: Seq<RadixNode>, b: Seq<RadixNode>, x: u8)
    requires
        a.len() == b.len(),
        forall|i: int| 0 <= i < a.len() ==> alike(#[trigger] a[i], b[i]),
    ensures
        pick(a, x) == pick(b, x),
    decreases a.len(),
{
    if a.len() > 0 {
        assert(alike(a[a.len() - 1], b[b.len() - 1]));
        assert forall|i: int| 0 <= i < a.drop_last().len() implies alike(#[trigger] a.drop_last()[i], b.drop_last()[i]) by {
            assert(alike(a[i], b[i]));
        }
        lemma_pick_alike(a.drop_last(), b.drop_last(), x);
    }
}

proof fn lemma_sizes_alike(a: Seq<RadixNode>, b: Seq<RadixNode>)
    requires
        a.len() == b.len(),
        forall|i: int| 0 <= i < a.len() ==> alike(#[trigger] a[i], b[i]),
    ensures
        sizes_of(a) == sizes_of(b),
    decreases a.len(),
{
    if a.len() > 0 {
        assert(alike(a[a.len() - 1], b[b.len() - 1]));
        assert forall|i: int| 0 <= i < a.drop_last().len() implies alike(#[trigger] a.drop_last()[i], b.drop_last()[i]) by {
            assert(alike(a[i], b[i]));
        }
        lemma_sizes_alike(a.drop_last(), b.drop_last());
    }
}

proof fn lemma_pick_range(a: Seq<RadixNode>, x: u8)
    ensures
        pick(a, x) matches Some(i) ==> 0 <= i < a.len(),
    decreases a.len(),
{
    if a.len() > 0 {
        lemma_pick_range(a.drop_last(), x);
    }
}

fn copy_node(n: &RadixNode) -> (r: RadixNode)
    ensures
        alike(*n, r),
    decreases n,
{
    let prefix = bytes::copy_range(n.prefix.as_slice(), 0, n.prefix.len());
    assert(prefix@ =~= n.prefix@);
    let mut children: Vec<RadixNode> = Vec::new();
    let mut i: usize = 0;
    while i < n.children.len()
        invariant
            i <= n.children@.len(),
            children@.len() == i,
            forall|k: int| 0 <= k < i ==> alike(#[trigger] n.children@[k], children@[k]),
        decreases n.children@.len() - i,
    {
        children.push(copy_node(&n.children[i]));
        i += 1;
    }
    let r = RadixNode { prefix, value: n.value, children };
    proof {
        let a = n.children@;
        let b = r.children@;
        assert forall|k: Seq<u8>| #[trigger] value_of(*n, k) == value_of(r, k) by {
            if k.len() > 0 {
                lemma_pick_alike(a, b, k[0]);
                lemma_pick_range(a, k[0]);
                if let Some(c) = pick(a, k[0]) {
                    assert(alike(a[c], b[c]));
                    lemma_under(a[c], k);
                    lemma_under(b[c], k);
                }
            }
        }
        lemma_sizes_alike(a, b);
        if node_ok(*n) {
            assert forall|i: int, j: int| 0 <= i < j < b.len() implies (#[trigger] b[i]).prefix@[0] < (#[trigger] b[j]).prefix@[0] by {
                assert(alike(a[i], b[i]) && alike(a[j], b[j]));
            }
            assert forall|i: int| 0 <= i < b.len() implies (#[trigger] b[i]).prefix@.len() > 0 && node_ok(b[i]) && tight(
                b[i],
            ) by {
                assert(alike(a[i], b[i]));
                assert(node_ok(a[i]));
            }
        }
    }
    r
}

impl RadixTree {
    /// A trie with as many keys as its length says, in which every node but the
    /// root ends a key or is where paths part.
    pub closed spec fn wf(&self) -> bool {
        &&& node_ok(self.root)
        &&& self.root.prefix@.len() == 0
        &&& self@.dom().finite()
        &&& self@.dom().len() == self.len
    }

    /// The number of nodes.
    pub closed spec fn nodes(&self) -> nat {
        size_of(self.root)
    }

    /// A new empty tree.
    pub fn new() -> (r: RadixTree)
        ensures
            r.wf(),
            r@ == Map::<Seq<u8>, i64>::empty(),
            r.nodes() == 1,
    {
        let r = RadixTree { root: new_node(Vec::new(), None), len: 0 };
        assert(r@ =~= Map::<Seq<u8>, i64>::empty());
        r
    }

    /// Number of keys.
    pub fn len(&self) -> (r: usize)
        requires
            self.wf(),
        ensures
            r == self@.dom().len(),
    {
        self.len
    }

    /// `true` if empty.
    pub fn is_empty(&self) -> (r: bool)
        requires
            self.wf(),
        ensures
            r == (self@.dom().len() == 0),
    {
        self.len == 0
    }

    /// Insert a key; returns the previous value if the key existed.
    pub fn insert(&mut self, key: &[u8], value: i64) -> (r: Option<i64>)
        requires
            old(self).wf(),
            old(self)@.contains_key(key@) || old(self)@.dom().len() < usize::MAX,
        ensures
            final(self).wf(),
            final(self)@ == old(self)@.insert(key@, value),
            final(self).nodes() == stops(final(self)@).len(),
            old(self).nodes() <= final(self).nodes() <= old(self).nodes() + 2,
            old(self)@.contains_key(key@) ==> final(self).nodes() == old(self).nodes(),
            r == (if old(self)@.contains_key(key@) {
                Some(old(self)@[key@])
            } else {
                None
            }),
    {
        let (was, added) = insert_into(&mut self.root, key, 0, value);
        proof {
            assert(key@.skip(0) =~= key@);
            assert(self@ =~= old(self)@.insert(key@, value));
            assert(self@.dom() =~= old(self)@.dom().insert(key@));
        }
        if added {
            self.len += 1;
        }
        proof {
            lemma_node_count(*self);
        }
        was
    }

    /// Convenience for string keys.
    pub fn insert_str(&mut self, key: &str, value: i64) -> (r: Option<i64>)
        requires
            old(self).wf(),
            old(self)@.contains_key(key.spec_bytes()) || old(self)@.dom().len() < usize::MAX,
        ensures
            final(self).wf(),
            final(self)@ == old(self)@.insert(key.spec_bytes(), value),
            final(self).nodes() == stops(final(self)@).len(),
            old(self).nodes() <= final(self).nodes() <= old(self).nodes() + 2,
            old(self)@.contains_key(key.spec_bytes()) ==> final(self).nodes() == old(self).nodes(),
            r == (if old(self)@.contains_key(key.spec_bytes()) {
                Some(old(self)@[key.spec_bytes()])
            } else {
                None
            }),
    {
        self.insert(key.as_bytes(), value)
    }

    /// Look up a key.
    pub fn get(&self, key: &[u8]) -> (r: Option<i64>)
        requires
            self.wf(),
        ensures
            r == (if self@.contains_key(key@) {
                Some(self@[key@])
            } else {
                None
            }),
    {
        let mut node = &self.root;
        let mut pos: usize = 0;
        assert(key@.skip(0) =~= key@);
        loop
            invariant
                pos <= key@.len(),
                node_ok(*node),
                value_of(*node, key@.skip(pos as int)) == value_of(self.root, key@),
            decreases key@.len() - pos,
        {
            let ghost rest = key@.skip(pos as int);
            if pos == key.len() {
                return node.value;
            }
            assert(rest[0] == key@[pos as int]);
            match find_child(&node.children, key[pos]) {
                None => {
                    return None;
                },
                Some(i) => {
                    let child = &node.children[i];
                    let part = bytes::copy_range(key, pos, key.len());
                    assert(part@ =~= rest);
                    let cp: usize = lex::shared(child.prefix.as_slice(), part.as_slice());
                    proof {
                        lemma_under(*child, rest);
                        assert(node_ok(node.children@[i as int]));
                        assert(node.children@[i as int].prefix@.len() > 0);
                    }
                    if cp != child.prefix.len() {
                        proof {
                            if lex::starts(rest, child.prefix@) {
                                if cp < rest.len() {
                                    assert(rest.take(child.prefix@.len() as int)[cp as int] == rest[cp as int]);
                                }
                            }
                        }
                        return None;
                    }
                    proof {
                        assert(child.prefix@.take(cp as int) =~= child.prefix@);
                        assert(rest.skip(cp as int) =~= key@.skip(pos + cp));
                    }
                    pos = pos + cp;
                    node = child;
                },
            }
        }
    }

    /// Convenience for string keys.
    pub fn get_str(&self, key: &str) -> (r: Option<i64>)
        requires
            self.wf(),
        ensures
            r == (if self@.contains_key(key.spec_bytes()) {
                Some(self@[key.spec_bytes()])
            } else {
                None
            }),
    {
        self.get(key.as_bytes())
    }

    /// `true` if the exact key is present.
    pub fn contains(&self, key: &[u8]) -> (r: bool)
        requires
            self.wf(),
        ensures
            r == self@.contains_key(key@),
    {
        self.get(key).is_some()
    }

    /// Collect all `(key, value)` pairs in ascending key order.
    pub fn entries(&self) -> (r: Vec<(Vec<u8>, i64)>)
        requires
            self.wf(),
        ensures
            lists(pair_views(r@), self@, Seq::empty()),
    {
        let mut out: Vec<(Vec<u8>, i64)> = Vec::new();
        let full: Vec<u8> = Vec::new();
        gather(&self.root, &full, &mut out);
        proof {
            let s = pairs_of(self.root);
            let e = Seq::<u8>::empty();
            lemma_pairs_of(self.root);
            assert(full@ =~= e);
            assert forall|i: int| 0 <= i < s.len() implies prepended(e, s)[i] == s[i] by {
                assert(e + s[i].0 =~= s[i].0);
            }
            assert(prepended(e, s) =~= s);
            assert(pair_views(out@) =~= s);
            assert forall|k: Seq<u8>, v: i64| #[trigger] s.contains((k, v)) <==> self@.contains_key(k) && self@[k] == v
                && lex::starts(k, e) by {
                assert(k.take(0) =~= e);
            }
        }
        out
    }

    /// Collect all `(key, value)` pairs whose key starts with `prefix`.
    pub fn with_prefix(&self, prefix: &[u8]) -> (r: Vec<(Vec<u8>, i64)>)
        requires
            self.wf(),
        ensures
            lists(pair_views(r@), self@, prefix@),
    {
        let mut out: Vec<(Vec<u8>, i64)> = Vec::new();
        let ghost p = prefix@;
        let mut node = &self.root;
        let mut pos: usize = 0;
        proof {
            assert(pair_views(out@) =~= Seq::<Pair>::empty());
            assert forall|t: Seq<u8>| #[trigger] value_of(*node, t) == value_of(self.root, p.take(0) + t) by {
                assert(p.take(0) + t =~= t);
            }
        }
        while pos < prefix.len()
            invariant
                self.wf(),
                p == prefix@,
                pos <= p.len(),
                pair_views(out@) == Seq::<Pair>::empty(),
                node_ok(*node),
                forall|t: Seq<u8>| #[trigger] value_of(*node, t) == value_of(self.root, p.take(pos as int) + t),
            decreases p.len() - pos,
        {
            let ghost head = p.take(pos as int);
            let ghost rest = p.skip(pos as int);
            assert(rest[0] == p[pos as int]);
            match find_child(&node.children, prefix[pos]) {
                None => {
                    proof {
                        assert forall|k: Seq<u8>| #[trigger] self@.contains_key(k) implies !lex::starts(k, p) by {
                            if lex::starts(k, p) {
                                lemma_tail(k, p, pos as int);
                                assert(value_of(*node, k.skip(pos as int)) is Some);
                            }
                        }
                    }
                    return out;
                },
                Some(i) => {
                    let child = &node.children[i];
                    let part = bytes::copy_range(prefix, pos, prefix.len());
                    assert(part@ =~= rest);
                    let cp: usize = lex::shared(child.prefix.as_slice(), part.as_slice());
                    let ghost q = child.prefix@;
                    proof {
                        assert(node_ok(node.children@[i as int]));
                        assert(node.children@[i as int].prefix@.len() > 0);
                        assert forall|t: Seq<u8>| t.len() > 0 && t[0] == rest[0] implies #[trigger] value_of(*node, t)
                            == value_under(*child, t) by {}
                    }
                    if cp == part.len() {
                        let mut full = bytes::copy_range(prefix, 0, pos);
                        bytes::put_bytes(&mut full, child.prefix.as_slice());
                        gather(child, &full, &mut out);
                        proof {
                            assert(full@ =~= head + q);
                            assert(pair_views(out@) =~= prepended(full@, pairs_of(*child)));
                            lemma_pairs_of(*child);
                            lemma_by_key_prepended(full@, pairs_of(*child));
                            let s = pair_views(out@);
                            assert forall|k: Seq<u8>, v: i64| #[trigger] s.contains((k, v)) <==> self@.contains_key(k)
                                && self@[k] == v && lex::starts(k, p) by {
                                let n = full@.len() as int;
                                if s.contains((k, v)) {
                                    let u = k.skip(n);
                                    let t = q + u;
                                    assert(k =~= head + t);
                                    lemma_under(*child, t);
                                    assert(t.take(q.len() as int) =~= q);
                                    assert(t.skip(q.len() as int) =~= u);
                                    assert(t[0] == rest[0]);
                                    assert(value_of(*node, t) == Some(v));
                                    assert(k.take(p.len() as int) =~= p) by {
                                        assert(q.take(cp as int) == rest.take(cp as int));
                                        assert(rest.take(cp as int) =~= rest);
                                        assert(p =~= head + rest);
                                    }
                                }
                                if self@.contains_key(k) && self@[k] == v && lex::starts(k, p) {
                                    lemma_tail(k, p, pos as int);
                                    let t = k.skip(pos as int);
                                    lemma_under(*child, t);
                                    assert(value_of(*node, t) == Some(v));
                                    assert(lex::starts(t, q));
                                    lemma_starts_first(t, q);
                                    assert(k =~= full@ + t.skip(q.len() as int));
                                    assert(k.take(n) =~= full@);
                                    assert(k.skip(n) =~= t.skip(q.len() as int));
                                }
                            }
                        }
                        return out;
                    }
                    if cp != child.prefix.len() {
                        proof {
                            assert forall|k: Seq<u8>| #[trigger] self@.contains_key(k) implies !lex::starts(k, p) by {
                                if lex::starts(k, p) {
                                    lemma_tail(k, p, pos as int);
                                    let t = k.skip(pos as int);
                                    lemma_under(*child, t);
                                    assert(value_of(*node, t) is Some);
                                    assert(lex::starts(t, q));
                                    assert(t.take(q.len() as int)[cp as int] == q[cp as int]);
                                    assert(t.take(rest.len() as int)[cp as int] == rest[cp as int]);
                                }
                            }
                        }
                        return out;
                    }
                    proof {
                        assert(q.take(cp as int) =~= q);
                        assert(p.take(pos + cp) =~= head + q);
                        assert forall|t: Seq<u8>| #[trigger] value_of(*child, t) == value_of(
                            self.root,
                            p.take(pos + cp) + t,
                        ) by {
                            let u = q + t;
                            lemma_under(*child, u);
                            assert(u.take(q.len() as int) =~= q);
                            assert(u.skip(q.len() as int) =~= t);
                            assert(u[0] == rest[0]);
                            assert(value_of(*node, u) == value_of(*child, t));
                            assert(head + u =~= p.take(pos + cp) + t);
                        }
                    }
                    pos = pos + cp;
                    node = child;
                },
            }
        }
        let full = bytes::copy_range(prefix, 0, prefix.len());
        gather(node, &full, &mut out);
        proof {
            assert(p.take(pos as int) =~= p);
            assert(full@ =~= p);
            assert(pair_views(out@) =~= prepended(p, pairs_of(*node)));
            lemma_pairs_of(*node);
            lemma_by_key_prepended(p, pairs_of(*node));
            let s = pair_views(out@);
            assert forall|k: Seq<u8>, v: i64| #[trigger] s.contains((k, v)) <==> self@.contains_key(k) && self@[k] == v
                && lex::starts(k, p) by {
                if lex::starts(k, p) {
                    assert(k =~= p + k.skip(p.len() as int));
                    assert(value_of(*node, k.skip(p.len() as int)) == value_of(self.root, k));
                }
            }
        }
        out
    }

    /// The number of nodes (a structural measure of prefix sharing).
    pub fn node_count(&self) -> (r: usize)
        requires
            self.nodes() <= usize::MAX,
        ensures
            r == self.nodes(),
            self.wf() ==> r == stops(self@).len(),
    {
        proof {
            if self.wf() {
                lemma_node_count(*self);
            }
        }
        count_nodes(&self.root)
    }
}

/// What follows the first `pos` bytes of a key that starts with `p`.
proof fn lemma_tail(k: Seq<u8>, p: Seq<u8>, pos: int)
    requires
        lex::starts(k, p),
        0 <= pos < p.len(),
    ensures
        k == p.take(pos) + k.skip(pos),
        k.skip(pos).len() > 0,
        k.skip(pos)[0] == p[pos],
        lex::starts(k.skip(pos), p.skip(pos)),
{
    let n = p.len() as int;
    assert(k.take(n) == p);
    assert(k =~= p.take(pos) + k.skip(pos)) by {
        assert forall|i: int| 0 <= i < pos implies k[i] == p[i] by {
            assert(k.take(n)[i] == p[i]);
        }
    }
    assert(k.take(n)[pos] == p[pos]);
    assert(k.skip(pos).take(n - pos) =~= p.skip(pos)) by {
        assert forall|i: int| 0 <= i < n implies k[i] == p[i] by {
            assert(k.take(n)[i] == p[i]);
        }
    }
}

fn count_nodes(node: &RadixNode) -> (r: usize)
    requires
        size_of(*node) <= usize::MAX,
    ensures
        r == size_of(*node),
    decreases node,
{
    let mut n: usize = 1;
    let mut i: usize = 0;
    let ghost cs = node.children@;
    assert(cs.take(0) =~= Seq::<RadixNode>::empty());
    while i < node.children.len()
        invariant
            i <= cs.len(),
            cs == node.children@,
            size_of(*node) <= usize::MAX,
            n == 1 + sizes_of(cs.take(i as int)),
        decreases cs.len() - i,
    {
        proof {
            assert(cs.take(i + 1).drop_last() =~= cs.take(i as int));
            lemma_sizes_take(cs, i + 1);
            assert(cs.take(i + 1)[i as int] == cs[i as int]);
        }
        n += count_nodes(&node.children[i]);
        i += 1;
    }
    assert(cs.take(i as int) =~= cs);
    n
}

proof fn lemma_sizes_take(cs: Seq<RadixNode>, n: int)
    requires
        0 <= n <= cs.len(),
    ensures
        sizes_of(cs.take(n)) <= sizes_of(cs),
    decreases cs.len(),
{
    if n < cs.len() {
        lemma_sizes_take(cs.drop_last(), n);
        assert(cs.drop_last().take(n) =~= cs.take(n));
    } else {
        assert(cs.take(n) =~= cs);
    }
}

/// The nodes below a node that a collapsed path needs.
proof fn lemma_tight_size(n: RadixNode)
    requires
        node_ok(n),
    ensures
        tight(n) ==> size_of(n) + 1 <= 2 * pairs_of(n).len(),
        size_of(n) <= 2 * pairs_of(n).len() + 1,
    decreases n, 0nat,
{
    lemma_tight_sizes(n.children@);
}

proof fn lemma_tight_sizes(cs: Seq<RadixNode>)
    requires
        forall|i: int| 0 <= i < cs.len() ==> node_ok(#[trigger] cs[i]) && tight(cs[i]),
    ensures
        sizes_of(cs) + cs.len() <= 2 * pairs_under(cs).len(),
    decreases cs, 1nat,
{
    if cs.len() > 0 {
        let d = cs.drop_last();
        let c = cs[cs.len() - 1];
        assert forall|i: int| 0 <= i < d.len() implies node_ok(#[trigger] d[i]) && tight(d[i]) by {
            assert(d[i] == cs[i]);
        }
        lemma_tight_sizes(d);
        lemma_tight_size(c);
    }
}

/// Paths are collapsed: a tree has at most twice as many nodes as keys, and its
/// root.
pub proof fn lemma_nodes(t: RadixTree)
    requires
        t.wf(),
    ensures
        t.nodes() <= 2 * t@.dom().len() + 1,
{
    let s = pairs_of(t.root);
    lemma_tight_size(t.root);
    lemma_pairs_of(t.root);
    let ks = s.map_values(|e: Pair| e.0);
    assert(ks.no_duplicates()) by {
        assert forall|i: int, j: int| 0 <= i < ks.len() && 0 <= j < ks.len() && i != j implies ks[i] != ks[j] by {
            if i < j {
                assert(lex::less(s[i].0, s[j].0));
                lex::lemma_order(s[i].0, s[j].0, s[i].0);
            } else {
                assert(lex::less(s[j].0, s[i].0));
                lex::lemma_order(s[i].0, s[j].0, s[i].0);
            }
        }
    }
    ks.unique_seq_to_set();
    assert(ks.to_set() =~= t@.dom()) by {
        assert forall|k: Seq<u8>| ks.to_set().contains(k) == t@.dom().contains(k) by {
            if ks.contains(k) {
                let i = ks.index_of(k);
                assert(s[i].0 == k);
                assert(s.contains((s[i].0, s[i].1)));
                assert(value_of(t.root, k) == Some(s[i].1));
            }
            if let Some(v) = value_of(t.root, k) {
                assert(s.contains((k, v)));
                let i = s.index_of((k, v));
                assert(ks[i] == k);
                assert(ks.contains(k));
            }
        }
    }
}

// Counting nodes

/// Two keys that start with `p` go on with different bytes.
pub open spec fn parts(m: Map<Seq<u8>, i64>, p: Seq<u8>, a: Seq<u8>, b: Seq<u8>) -> bool {
    &&& m.contains_key(a)
    &&& m.contains_key(b)
    &&& lex::starts(a, p)
    &&& lex::starts(b, p)
    &&& a.len() > p.len()
    &&& b.len() > p.len()
    &&& a[p.len() as int] != b[p.len() as int]
}

/// A node is needed at the end of `p`: it is the root, or `p` is a key, or keys
/// part there.
pub open spec fn stop(m: Map<Seq<u8>, i64>, p: Seq<u8>) -> bool {
    p.len() == 0 || m.contains_key(p) || exists|a: Seq<u8>, b: Seq<u8>| #[trigger] parts(m, p, a, b)
}

/// Where nodes are needed for the keys of a map.
pub open spec fn stops(m: Map<Seq<u8>, i64>) -> Set<Seq<u8>> {
    Set::new(|p: Seq<u8>| stop(m, p))
}

/// The ways to the nodes below a node, itself first.
spec fn paths_of(n: RadixNode) -> Seq<Seq<u8>>
    decreases n, 0nat,
{
    seq![Seq::<u8>::empty()] + paths_under(n.children@)
}

spec fn paths_under(cs: Seq<RadixNode>) -> Seq<Seq<u8>>
    decreases cs, 1nat,
{
    if cs.len() == 0 {
        Seq::empty()
    } else {
        let c = cs[cs.len() - 1];
        paths_under(cs.drop_last()) + extended(c.prefix@, paths_of(c))
    }
}

/// Ways with a label put in front.
spec fn extended(p: Seq<u8>, s: Seq<Seq<u8>>) -> Seq<Seq<u8>> {
    s.map_values(|q: Seq<u8>| p + q)
}

/// A way goes over child `i`.
spec fn over(cs: Seq<RadixNode>, i: int, p: Seq<u8>) -> bool {
    &&& 0 <= i < cs.len()
    &&& lex::starts(p, cs[i].prefix@)
    &&& paths_of(cs[i]).contains(p.skip(cs[i].prefix@.len() as int))
}

proof fn lemma_paths_under(cs: Seq<RadixNode>)
    requires
        fanned(cs),
        forall|i: int| 0 <= i < cs.len() ==> paths_of(#[trigger] cs[i]).no_duplicates() && paths_of(cs[i]).len() == size_of(
            cs[i],
        ),
    ensures
        paths_under(cs).no_duplicates(),
        paths_under(cs).len() == sizes_of(cs),
        forall|p: Seq<u8>| #[trigger] paths_under(cs).contains(p) <==> exists|i: int| #[trigger] over(cs, i, p),
    decreases cs.len(),
{
    let all = paths_under(cs);
    if cs.len() > 0 {
        let d = cs.drop_last();
        let n = cs.len() - 1;
        let c = cs[n];
        let l = c.prefix@;
        let head = paths_under(d);
        let tail = extended(l, paths_of(c));
        assert forall|i: int, j: int| 0 <= i < j < d.len() implies (#[trigger] d[i]).prefix@[0] < (#[trigger] d[j]).prefix@[0] by {
            assert(cs[i].prefix@[0] < cs[j].prefix@[0]);
        }
        assert forall|i: int| 0 <= i < d.len() implies (#[trigger] d[i]).prefix@.len() > 0 && paths_of(
            d[i],
        ).no_duplicates() && paths_of(d[i]).len() == size_of(d[i]) by {
            assert(d[i] == cs[i]);
        }
        lemma_paths_under(d);
        assert forall|p: Seq<u8>| #[trigger] tail.contains(p) <==> over(cs, n, p) by {
            if tail.contains(p) {
                let k = choose|k: int| 0 <= k < tail.len() && tail[k] == p;
                assert(p.skip(l.len() as int) =~= paths_of(c)[k]);
                assert(p.take(l.len() as int) =~= l);
            }
            if over(cs, n, p) {
                let q = p.skip(l.len() as int);
                let k = choose|k: int| 0 <= k < paths_of(c).len() && paths_of(c)[k] == q;
                assert(l + q =~= p);
                assert(tail[k] == p);
            }
        }
        assert forall|p: Seq<u8>| #[trigger] all.contains(p) <==> exists|i: int| #[trigger] over(cs, i, p) by {
            if all.contains(p) {
                let k = choose|k: int| 0 <= k < all.len() && all[k] == p;
                if k < head.len() {
                    assert(head[k] == p);
                    assert(head.contains(p));
                    let i = choose|i: int| #[trigger] over(d, i, p);
                    assert(over(cs, i, p));
                } else {
                    assert(tail[k - head.len()] == p);
                    assert(tail.contains(p));
                }
            }
            if exists|i: int| #[trigger] over(cs, i, p) {
                let i = choose|i: int| #[trigger] over(cs, i, p);
                if i < n {
                    assert(over(d, i, p));
                    assert(head.contains(p));
                    let k = choose|k: int| 0 <= k < head.len() && head[k] == p;
                    assert(all[k] == p);
                } else {
                    assert(tail.contains(p));
                    let k = choose|k: int| 0 <= k < tail.len() && tail[k] == p;
                    assert(all[head.len() + k] == p);
                }
            }
        }
        assert(all.no_duplicates()) by {
            assert forall|x: int, y: int| 0 <= x < y < all.len() implies all[x] != all[y] by {
                if y < head.len() {
                    assert(head[x] != head[y]);
                } else if x >= head.len() {
                    let a = paths_of(c)[x - head.len()];
                    let b = paths_of(c)[y - head.len()];
                    assert(a != b);
                    assert((l + a).skip(l.len() as int) =~= a && (l + b).skip(l.len() as int) =~= b);
                } else {
                    let p = head[x];
                    assert(head.contains(p));
                    let i = choose|i: int| #[trigger] over(d, i, p);
                    let t = tail[y - head.len()];
                    assert(tail.contains(t));
                    assert(over(cs, n, t));
                    assert(cs[i].prefix@[0] < c.prefix@[0]);
                    assert(p[0] == p.take(cs[i].prefix@.len() as int)[0]);
                    assert(t[0] == t.take(l.len() as int)[0]);
                }
            }
        }
    } else {
        assert forall|p: Seq<u8>| #[trigger] all.contains(p) <==> exists|i: int| #[trigger] over(cs, i, p) by {}
    }
}

/// Below a node that a collapsed path needs there is a key.
proof fn lemma_some_key(n: RadixNode) -> (k: Seq<u8>)
    requires
        node_ok(n),
        tight(n),
    ensures
        value_of(n, k) is Some,
    decreases n,
{
    if n.value is Some {
        Seq::empty()
    } else {
        let c = n.children@[0];
        let q = lemma_some_key(c);
        let k = c.prefix@ + q;
        lemma_child_value(n, 0, k);
        assert(k.take(c.prefix@.len() as int) =~= c.prefix@);
        assert(k.skip(c.prefix@.len() as int) =~= q);
        k
    }
}

/// The value of a key whose first byte picks a child.
proof fn lemma_child_value(n: RadixNode, i: int, k: Seq<u8>)
    requires
        node_ok(n),
        0 <= i < n.children@.len(),
        k.len() > 0,
        k[0] == n.children@[i].prefix@[0],
    ensures
        value_of(n, k) == (if lex::starts(k, n.children@[i].prefix@) {
            value_of(n.children@[i], k.skip(n.children@[i].prefix@.len() as int))
        } else {
            None
        }),
{
    lemma_pick(n.children@, k[0]);
    assert(pick(n.children@, k[0]) == Some(i));
    lemma_under(n.children@[i], k);
}

/// A key that is not empty goes over a child.
proof fn lemma_key_child(n: RadixNode, k: Seq<u8>) -> (i: int)
    requires
        node_ok(n),
        k.len() > 0,
        value_of(n, k) is Some,
    ensures
        0 <= i < n.children@.len(),
        lex::starts(k, n.children@[i].prefix@),
        k[0] == n.children@[i].prefix@[0],
        value_of(n.children@[i], k.skip(n.children@[i].prefix@.len() as int)) is Some,
{
    lemma_pick(n.children@, k[0]);
    let i = pick(n.children@, k[0])->0;
    lemma_under(n.children@[i], k);
    i
}

/// A way over a child ends where a node is needed.
proof fn lemma_over_stop(n: RadixNode, i: int, p: Seq<u8>)
    requires
        node_ok(n),
        over(n.children@, i, p),
        stop(map_of(n.children@[i]), p.skip(n.children@[i].prefix@.len() as int)),
    ensures
        stop(map_of(n), p),
{
    let c = n.children@[i];
    let l = c.prefix@;
    let q = p.skip(l.len() as int);
    assert(l + q =~= p);
    assert(p[0] == p.take(l.len() as int)[0]);
    lemma_child_value(n, i, p);
    if q.len() == 0 {
        assert(p =~= l);
        if c.value is Some {
            assert(value_of(c, q) is Some);
        } else {
            lemma_two_ways(c);
            let (a, b) = choose|a: Seq<u8>, b: Seq<u8>| #[trigger] parts(map_of(c), q, a, b);
            lemma_parts_up(n, i, q, a, b);
        }
    } else if !map_of(c).contains_key(q) {
        let (a, b) = choose|a: Seq<u8>, b: Seq<u8>| #[trigger] parts(map_of(c), q, a, b);
        lemma_parts_up(n, i, q, a, b);
    }
}

/// Keys part at a node without a value that a collapsed path needs.
proof fn lemma_two_ways(c: RadixNode)
    requires
        node_ok(c),
        tight(c),
        c.value is None,
    ensures
        forall|q: Seq<u8>| q.len() == 0 ==> exists|a: Seq<u8>, b: Seq<u8>| #[trigger] parts(map_of(c), q, a, b),
{
    let x = c.children@[0];
    let y = c.children@[1];
    let ka = lemma_some_key(x);
    let kb = lemma_some_key(y);
    let a2 = x.prefix@ + ka;
    let b2 = y.prefix@ + kb;
    lemma_child_value(c, 0, a2);
    lemma_child_value(c, 1, b2);
    assert(a2.take(x.prefix@.len() as int) =~= x.prefix@);
    assert(b2.take(y.prefix@.len() as int) =~= y.prefix@);
    assert(a2.skip(x.prefix@.len() as int) =~= ka);
    assert(b2.skip(y.prefix@.len() as int) =~= kb);
    assert forall|q: Seq<u8>| q.len() == 0 implies exists|a: Seq<u8>, b: Seq<u8>| #[trigger] parts(map_of(c), q, a, b) by {
        assert(a2.take(0) =~= q && b2.take(0) =~= q);
        assert(parts(map_of(c), q, a2, b2));
    }
}

/// Where keys part below a child, they part below the node.
proof fn lemma_parts_up(n: RadixNode, i: int, q: Seq<u8>, a: Seq<u8>, b: Seq<u8>)
    requires
        node_ok(n),
        0 <= i < n.children@.len(),
        parts(map_of(n.children@[i]), q, a, b),
    ensures
        parts(map_of(n), n.children@[i].prefix@ + q, n.children@[i].prefix@ + a, n.children@[i].prefix@ + b),
{
    let l = n.children@[i].prefix@;
    lemma_child_value(n, i, l + a);
    lemma_child_value(n, i, l + b);
    assert((l + a).take(l.len() as int) =~= l && (l + b).take(l.len() as int) =~= l);
    assert((l + a).skip(l.len() as int) =~= a && (l + b).skip(l.len() as int) =~= b);
    let m = (l + q).len() as int;
    assert((l + a).take(m) =~= l + a.take(q.len() as int));
    assert((l + b).take(m) =~= l + b.take(q.len() as int));
}

/// Where keys part below a node, away from the node itself, they part below a
/// child, or at its label's end.
proof fn lemma_parts_down(n: RadixNode, p: Seq<u8>, a: Seq<u8>, b: Seq<u8>) -> (i: int)
    requires
        node_ok(n),
        p.len() > 0,
        parts(map_of(n), p, a, b),
    ensures
        0 <= i < n.children@.len(),
        lex::starts(p, n.children@[i].prefix@),
        stop(map_of(n.children@[i]), p.skip(n.children@[i].prefix@.len() as int)),
{
    let i = lemma_key_child(n, a);
    let j = lemma_key_child(n, b);
    let k = p.len() as int;
    assert(a[0] == a.take(k)[0] && b[0] == b.take(k)[0]);
    lemma_pick(n.children@, a[0]);
    assert(i == j) by {
        assert(pick(n.children@, a[0]) == Some(i));
        assert(pick(n.children@, b[0]) == Some(j));
    }
    let l = n.children@[i].prefix@;
    let m = l.len() as int;
    assert(m <= k) by {
        if k < m {
            assert(a[k] == a.take(m)[k] && b[k] == b.take(m)[k]);
        }
    }
    assert(p.take(m) =~= l) by {
        assert(a.take(k).take(m) =~= a.take(m));
    }
    let q = p.skip(m);
    let a2 = a.skip(m);
    let b2 = b.skip(m);
    assert(a2.take(q.len() as int) =~= a.take(k).skip(m));
    assert(b2.take(q.len() as int) =~= b.take(k).skip(m));
    assert(parts(map_of(n.children@[i]), q, a2, b2));
    i
}

/// The nodes below a node stand where its keys need them.
proof fn lemma_paths(n: RadixNode)
    requires
        node_ok(n),
    ensures
        paths_of(n).no_duplicates(),
        paths_of(n).len() == size_of(n),
        forall|p: Seq<u8>| #[trigger] paths_of(n).contains(p) <==> stop(map_of(n), p),
    decreases n,
{
    let cs = n.children@;
    let all = paths_of(n);
    let under = paths_under(cs);
    assert forall|i: int| 0 <= i < cs.len() implies paths_of(#[trigger] cs[i]).no_duplicates() && paths_of(cs[i]).len()
        == size_of(cs[i]) by {
        lemma_paths(cs[i]);
    }
    lemma_paths_under(cs);
    assert forall|p: Seq<u8>| #[trigger] under.contains(p) implies p.len() > 0 by {
        let i = choose|i: int| #[trigger] over(cs, i, p);
        assert(cs[i].prefix@.len() > 0);
    }
    assert(all.no_duplicates()) by {
        assert forall|x: int, y: int| 0 <= x < y < all.len() implies all[x] != all[y] by {
            assert(all[y] == under[y - 1]);
            assert(under.contains(under[y - 1]));
            if x > 0 {
                assert(all[x] == under[x - 1]);
            }
        }
    }
    assert forall|p: Seq<u8>| #[trigger] all.contains(p) <==> stop(map_of(n), p) by {
        if p.len() == 0 {
            assert(p =~= all[0]);
        } else {
            assert(all.contains(p) <==> under.contains(p)) by {
                if all.contains(p) {
                    let k = choose|k: int| 0 <= k < all.len() && all[k] == p;
                    assert(under[k - 1] == p);
                }
                if under.contains(p) {
                    let k = choose|k: int| 0 <= k < under.len() && under[k] == p;
                    assert(all[k + 1] == p);
                }
            }
            if under.contains(p) {
                let i = choose|i: int| #[trigger] over(cs, i, p);
                lemma_paths(cs[i]);
                lemma_over_stop(n, i, p);
            }
            if stop(map_of(n), p) {
                if map_of(n).contains_key(p) {
                    let i = lemma_key_child(n, p);
                    lemma_paths(cs[i]);
                    assert(stop(map_of(cs[i]), p.skip(cs[i].prefix@.len() as int)));
                    assert(over(cs, i, p));
                } else {
                    let (a, b) = choose|a: Seq<u8>, b: Seq<u8>| #[trigger] parts(map_of(n), p, a, b);
                    let i = lemma_parts_down(n, p, a, b);
                    lemma_paths(cs[i]);
                    assert(over(cs, i, p));
                }
            }
        }
    }
}

/// A tree has a node at its root, at the end of every key, and wherever keys part,
/// and no other.
pub proof fn lemma_node_count(t: RadixTree)
    requires
        t.wf(),
    ensures
        stops(t@).finite(),
        t.nodes() == stops(t@).len(),
{
    lemma_paths(t.root);
    let all = paths_of(t.root);
    all.unique_seq_to_set();
    vstd::seq_lib::seq_to_set_is_finite(all);
    assert(stops(t@) =~= all.to_set()) by {
        assert forall|p: Seq<u8>| stops(t@).contains(p) <==> all.to_set().contains(p) by {
            assert(all.contains(p) <==> stop(map_of(t.root), p));
        }
    }
}

} // verus!
