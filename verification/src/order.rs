//! Elements of ordered sets and keys of ordered maps, in ascending order.

use vstd::prelude::*;
use std::collections::BTreeMap;

verus! {

broadcast use vstd::std_specs::btree::group_btree_axioms;

/// Strictly increasing.
pub open spec fn increasing32(s: Seq<u32>) -> bool {
    forall|i: int, j: int| 0 <= i < j < s.len() ==> s[i] < s[j]
}

/// The elements of a finite set in ascending order.
pub open spec fn ascending32(d: Set<u32>) -> Seq<u32> {
    choose|s: Seq<u32>| increasing32(s) && s.to_set() == d
}

proof fn lemma_unique32(a: Seq<u32>, b: Seq<u32>)
    requires
        increasing32(a),
        increasing32(b),
        a.to_set() == b.to_set(),
    ensures
        a == b,
    decreases a.len(),
{
    if a.len() == 0 {
        if b.len() > 0 {
            assert(b.to_set().contains(b[0]));
            assert(a.to_set().contains(b[0]));
        }
        assert(a =~= b);
    } else {
        assert(a.to_set().contains(a.last()));
        assert(b.to_set().contains(a.last()));
        assert(b.contains(a.last()));
        assert(b.to_set().contains(b.last()));
        assert(a.to_set().contains(b.last()));
        assert(a.contains(b.last()));
        assert(a.last() == b.last());
        let p = a.drop_last();
        let q = b.drop_last();
        assert(p.to_set() =~= q.to_set()) by {
            assert forall|x: u32| p.to_set().contains(x) implies q.to_set().contains(x) by {
                let i = choose|i: int| 0 <= i < p.len() && p[i] == x;
                assert(a[i] == x && a[i] < a.last());
                assert(a.to_set().contains(x));
                assert(b.to_set().contains(x));
                let j = choose|j: int| 0 <= j < b.len() && b[j] == x;
                assert(j < b.len() - 1);
                assert(q[j] == x);
            }
            assert forall|x: u32| q.to_set().contains(x) implies p.to_set().contains(x) by {
                let i = choose|i: int| 0 <= i < q.len() && q[i] == x;
                assert(b[i] == x && b[i] < b.last());
                assert(b.to_set().contains(x));
                assert(a.to_set().contains(x));
                let j = choose|j: int| 0 <= j < a.len() && a[j] == x;
                assert(j < a.len() - 1);
                assert(p[j] == x);
            }
        }
        lemma_unique32(p, q);
        assert(a =~= p.push(a.last()));
        assert(b =~= q.push(b.last()));
    }
}

/// An increasing sequence of the elements of a set is the ascending sequence.
pub proof fn lemma_ascending32(s: Seq<u32>)
    requires
        increasing32(s),
    ensures
        ascending32(s.to_set()) == s,
{
    lemma_unique32(s, ascending32(s.to_set()));
}

/// A nonempty finite set has a greatest element.
proof fn lemma_greatest32(d: Set<u32>) -> (m: u32)
    requires
        d.finite(),
        d.len() > 0,
    ensures
        d.contains(m),
        forall|x: u32| d.contains(x) ==> x <= m,
    decreases d.len(),
{
    let y = d.choose();
    let e = d.remove(y);
    if e.len() == 0 {
        assert forall|x: u32| d.contains(x) implies x <= y by {
            if x != y {
                assert(e.contains(x));
            }
        }
        y
    } else {
        let m = lemma_greatest32(e);
        let r = if m < y { y } else { m };
        assert forall|x: u32| d.contains(x) implies x <= r by {
            if x != y {
                assert(e.contains(x));
            }
        }
        r
    }
}

proof fn lemma_ascending_exists32(d: Set<u32>) -> (s: Seq<u32>)
    requires
        d.finite(),
    ensures
        increasing32(s),
        s.to_set() == d,
        s.len() == d.len(),
    decreases d.len(),
{
    if d.len() == 0 {
        assert(Seq::<u32>::empty().to_set() =~= d);
        Seq::empty()
    } else {
        let m = lemma_greatest32(d);
        let e = d.remove(m);
        let t = lemma_ascending_exists32(e);
        let s = t.push(m);
        assert(increasing32(s)) by {
            assert forall|i: int, j: int| 0 <= i < j < s.len() implies s[i] < s[j] by {
                assert(t.to_set().contains(t[i]));
            }
        }
        assert(s.to_set() =~= d) by {
            assert forall|x: u32| s.to_set().contains(x) <==> d.contains(x) by {
                if d.contains(x) {
                    if x == m {
                        assert(s[t.len() as int] == x);
                    } else {
                        assert(t.to_set().contains(x));
                        let i = choose|i: int| 0 <= i < t.len() && t[i] == x;
                        assert(s[i] == x);
                    }
                }
                if s.to_set().contains(x) {
                    let i = choose|i: int| 0 <= i < s.len() && s[i] == x;
                    if i < t.len() {
                        assert(t.to_set().contains(t[i]));
                    }
                }
            }
        }
        s
    }
}

/// The ascending sequence of a finite set is increasing and holds its elements.
pub proof fn lemma_ascending_set32(d: Set<u32>)
    requires
        d.finite(),
    ensures
        increasing32(ascending32(d)),
        ascending32(d).to_set() == d,
        ascending32(d).len() == d.len(),
        ascending32(d).no_duplicates(),
        forall|x: u32| #[trigger] ascending32(d).contains(x) <==> d.contains(x),
{
    let s = lemma_ascending_exists32(d);
    lemma_ascending32(s);
    assert forall|x: u32| #[trigger] s.contains(x) <==> d.contains(x) by {
        assert(s.to_set().contains(x) <==> d.contains(x));
    }
}

/// The keys of an ordered map, in ascending order.
pub fn keys32<V>(m: &BTreeMap<u32, V>) -> (r: Vec<u32>)
    ensures
        r@ == ascending32(m@.dom()),
        increasing32(r@),
        r@.to_set() == m@.dom(),
        r@.len() == m@.dom().len(),
{
    broadcast use vstd::laws_cmp::group_laws_cmp;

    let mut out: Vec<u32> = Vec::new();
    let pairs = m.iter();
    let ghost s = vstd::std_specs::iter::IteratorSpec::remaining(&pairs);
    let ghost ks = s.map_values(|kv: (&u32, &V)| *kv.0);
    for kv in it: pairs
        invariant
            it.seq() == s,
            ks == s.map_values(|kv: (&u32, &V)| *kv.0),
            out@ == ks.subrange(0, it.index()),
            0 <= it.index() <= s.len(),
    {
        out.push(*kv.0);
        assert(out@ =~= ks.subrange(0, it.index() + 1));
    }
    proof {
        assert(out@ =~= ks);
        assert(increasing32(ks)) by {
            assert forall|i: int, j: int| 0 <= i < j < ks.len() implies ks[i] < ks[j] by {
                assert(vstd::std_specs::cmp::OrdSpec::cmp_spec(&ks[i], &ks[j]) is Less);
            }
        }
        assert(ks.to_set() =~= m@.dom()) by {
            assert forall|k: u32| ks.to_set().contains(k) implies m@.dom().contains(k) by {
                let i = choose|i: int| 0 <= i < ks.len() && ks[i] == k;
                assert(m@.contains_key(*s[i].0));
            }
            assert forall|k: u32| m@.dom().contains(k) implies ks.to_set().contains(k) by {
                assert(s.contains((&k, &m@[k])));
                let i = choose|i: int| 0 <= i < s.len() && s[i] == (&k, &m@[k]);
                assert(ks[i] == k);
            }
        }
        lemma_ascending32(out@);
    }
    out
}

/// Strictly increasing.
pub open spec fn increasing64(s: Seq<i64>) -> bool {
    forall|i: int, j: int| 0 <= i < j < s.len() ==> s[i] < s[j]
}

/// The elements of a finite set in ascending order.
pub open spec fn ascending64(d: Set<i64>) -> Seq<i64> {
    choose|s: Seq<i64>| increasing64(s) && s.to_set() == d
}

proof fn lemma_unique64(a: Seq<i64>, b: Seq<i64>)
    requires
        increasing64(a),
        increasing64(b),
        a.to_set() == b.to_set(),
    ensures
        a == b,
    decreases a.len(),
{
    if a.len() == 0 {
        if b.len() > 0 {
            assert(b.to_set().contains(b[0]));
            assert(a.to_set().contains(b[0]));
        }
        assert(a =~= b);
    } else {
        assert(a.to_set().contains(a.last()));
        assert(b.to_set().contains(a.last()));
        assert(b.contains(a.last()));
        assert(b.to_set().contains(b.last()));
        assert(a.to_set().contains(b.last()));
        assert(a.contains(b.last()));
        assert(a.last() == b.last());
        let p = a.drop_last();
        let q = b.drop_last();
        assert(p.to_set() =~= q.to_set()) by {
            assert forall|x: i64| p.to_set().contains(x) implies q.to_set().contains(x) by {
                let i = choose|i: int| 0 <= i < p.len() && p[i] == x;
                assert(a[i] == x && a[i] < a.last());
                assert(a.to_set().contains(x));
                assert(b.to_set().contains(x));
                let j = choose|j: int| 0 <= j < b.len() && b[j] == x;
                assert(j < b.len() - 1);
                assert(q[j] == x);
            }
            assert forall|x: i64| q.to_set().contains(x) implies p.to_set().contains(x) by {
                let i = choose|i: int| 0 <= i < q.len() && q[i] == x;
                assert(b[i] == x && b[i] < b.last());
                assert(b.to_set().contains(x));
                assert(a.to_set().contains(x));
                let j = choose|j: int| 0 <= j < a.len() && a[j] == x;
                assert(j < a.len() - 1);
                assert(p[j] == x);
            }
        }
        lemma_unique64(p, q);
        assert(a =~= p.push(a.last()));
        assert(b =~= q.push(b.last()));
    }
}

/// An increasing sequence of the elements of a set is the ascending sequence.
pub proof fn lemma_ascending64(s: Seq<i64>)
    requires
        increasing64(s),
    ensures
        ascending64(s.to_set()) == s,
{
    lemma_unique64(s, ascending64(s.to_set()));
}

/// A nonempty finite set has a greatest element.
proof fn lemma_greatest64(d: Set<i64>) -> (m: i64)
    requires
        d.finite(),
        d.len() > 0,
    ensures
        d.contains(m),
        forall|x: i64| d.contains(x) ==> x <= m,
    decreases d.len(),
{
    let y = d.choose();
    let e = d.remove(y);
    if e.len() == 0 {
        assert forall|x: i64| d.contains(x) implies x <= y by {
            if x != y {
                assert(e.contains(x));
            }
        }
        y
    } else {
        let m = lemma_greatest64(e);
        let r = if m < y { y } else { m };
        assert forall|x: i64| d.contains(x) implies x <= r by {
            if x != y {
                assert(e.contains(x));
            }
        }
        r
    }
}

proof fn lemma_ascending_exists64(d: Set<i64>) -> (s: Seq<i64>)
    requires
        d.finite(),
    ensures
        increasing64(s),
        s.to_set() == d,
        s.len() == d.len(),
    decreases d.len(),
{
    if d.len() == 0 {
        assert(Seq::<i64>::empty().to_set() =~= d);
        Seq::empty()
    } else {
        let m = lemma_greatest64(d);
        let e = d.remove(m);
        let t = lemma_ascending_exists64(e);
        let s = t.push(m);
        assert(increasing64(s)) by {
            assert forall|i: int, j: int| 0 <= i < j < s.len() implies s[i] < s[j] by {
                assert(t.to_set().contains(t[i]));
            }
        }
        assert(s.to_set() =~= d) by {
            assert forall|x: i64| s.to_set().contains(x) <==> d.contains(x) by {
                if d.contains(x) {
                    if x == m {
                        assert(s[t.len() as int] == x);
                    } else {
                        assert(t.to_set().contains(x));
                        let i = choose|i: int| 0 <= i < t.len() && t[i] == x;
                        assert(s[i] == x);
                    }
                }
                if s.to_set().contains(x) {
                    let i = choose|i: int| 0 <= i < s.len() && s[i] == x;
                    if i < t.len() {
                        assert(t.to_set().contains(t[i]));
                    }
                }
            }
        }
        s
    }
}

/// The ascending sequence of a finite set is increasing and holds its elements.
pub proof fn lemma_ascending_set64(d: Set<i64>)
    requires
        d.finite(),
    ensures
        increasing64(ascending64(d)),
        ascending64(d).to_set() == d,
        ascending64(d).len() == d.len(),
        ascending64(d).no_duplicates(),
        forall|x: i64| #[trigger] ascending64(d).contains(x) <==> d.contains(x),
{
    let s = lemma_ascending_exists64(d);
    lemma_ascending64(s);
    assert forall|x: i64| #[trigger] s.contains(x) <==> d.contains(x) by {
        assert(s.to_set().contains(x) <==> d.contains(x));
    }
}

/// The keys of an ordered map, in ascending order.
pub fn keys64<V>(m: &BTreeMap<i64, V>) -> (r: Vec<i64>)
    ensures
        r@ == ascending64(m@.dom()),
        increasing64(r@),
        r@.to_set() == m@.dom(),
        r@.len() == m@.dom().len(),
{
    broadcast use vstd::laws_cmp::group_laws_cmp;

    let mut out: Vec<i64> = Vec::new();
    let pairs = m.iter();
    let ghost s = vstd::std_specs::iter::IteratorSpec::remaining(&pairs);
    let ghost ks = s.map_values(|kv: (&i64, &V)| *kv.0);
    for kv in it: pairs
        invariant
            it.seq() == s,
            ks == s.map_values(|kv: (&i64, &V)| *kv.0),
            out@ == ks.subrange(0, it.index()),
            0 <= it.index() <= s.len(),
    {
        out.push(*kv.0);
        assert(out@ =~= ks.subrange(0, it.index() + 1));
    }
    proof {
        assert(out@ =~= ks);
        assert(increasing64(ks)) by {
            assert forall|i: int, j: int| 0 <= i < j < ks.len() implies ks[i] < ks[j] by {
                assert(vstd::std_specs::cmp::OrdSpec::cmp_spec(&ks[i], &ks[j]) is Less);
            }
        }
        assert(ks.to_set() =~= m@.dom()) by {
            assert forall|k: i64| ks.to_set().contains(k) implies m@.dom().contains(k) by {
                let i = choose|i: int| 0 <= i < ks.len() && ks[i] == k;
                assert(m@.contains_key(*s[i].0));
            }
            assert forall|k: i64| m@.dom().contains(k) implies ks.to_set().contains(k) by {
                assert(s.contains((&k, &m@[k])));
                let i = choose|i: int| 0 <= i < s.len() && s[i] == (&k, &m@[k]);
                assert(ks[i] == k);
            }
        }
        lemma_ascending64(out@);
    }
    out
}

/// Strictly increasing.
pub open spec fn increasing_row(s: Seq<u64>) -> bool {
    forall|i: int, j: int| 0 <= i < j < s.len() ==> s[i] < s[j]
}

/// The elements of a finite set in ascending order.
pub open spec fn ascending_row(d: Set<u64>) -> Seq<u64> {
    choose|s: Seq<u64>| increasing_row(s) && s.to_set() == d
}

proof fn lemma_unique_row(a: Seq<u64>, b: Seq<u64>)
    requires
        increasing_row(a),
        increasing_row(b),
        a.to_set() == b.to_set(),
    ensures
        a == b,
    decreases a.len(),
{
    if a.len() == 0 {
        if b.len() > 0 {
            assert(b.to_set().contains(b[0]));
            assert(a.to_set().contains(b[0]));
        }
        assert(a =~= b);
    } else {
        assert(a.to_set().contains(a.last()));
        assert(b.to_set().contains(a.last()));
        assert(b.contains(a.last()));
        assert(b.to_set().contains(b.last()));
        assert(a.to_set().contains(b.last()));
        assert(a.contains(b.last()));
        assert(a.last() == b.last());
        let p = a.drop_last();
        let q = b.drop_last();
        assert(p.to_set() =~= q.to_set()) by {
            assert forall|x: u64| p.to_set().contains(x) implies q.to_set().contains(x) by {
                let i = choose|i: int| 0 <= i < p.len() && p[i] == x;
                assert(a[i] == x && a[i] < a.last());
                assert(a.to_set().contains(x));
                assert(b.to_set().contains(x));
                let j = choose|j: int| 0 <= j < b.len() && b[j] == x;
                assert(j < b.len() - 1);
                assert(q[j] == x);
            }
            assert forall|x: u64| q.to_set().contains(x) implies p.to_set().contains(x) by {
                let i = choose|i: int| 0 <= i < q.len() && q[i] == x;
                assert(b[i] == x && b[i] < b.last());
                assert(b.to_set().contains(x));
                assert(a.to_set().contains(x));
                let j = choose|j: int| 0 <= j < a.len() && a[j] == x;
                assert(j < a.len() - 1);
                assert(p[j] == x);
            }
        }
        lemma_unique_row(p, q);
        assert(a =~= p.push(a.last()));
        assert(b =~= q.push(b.last()));
    }
}

/// An increasing sequence of the elements of a set is the ascending sequence.
pub proof fn lemma_ascending_row(s: Seq<u64>)
    requires
        increasing_row(s),
    ensures
        ascending_row(s.to_set()) == s,
{
    lemma_unique_row(s, ascending_row(s.to_set()));
}

/// A nonempty finite set has a greatest element.
proof fn lemma_greatest_row(d: Set<u64>) -> (m: u64)
    requires
        d.finite(),
        d.len() > 0,
    ensures
        d.contains(m),
        forall|x: u64| d.contains(x) ==> x <= m,
    decreases d.len(),
{
    let y = d.choose();
    let e = d.remove(y);
    if e.len() == 0 {
        assert forall|x: u64| d.contains(x) implies x <= y by {
            if x != y {
                assert(e.contains(x));
            }
        }
        y
    } else {
        let m = lemma_greatest_row(e);
        let r = if m < y { y } else { m };
        assert forall|x: u64| d.contains(x) implies x <= r by {
            if x != y {
                assert(e.contains(x));
            }
        }
        r
    }
}

proof fn lemma_ascending_exists_row(d: Set<u64>) -> (s: Seq<u64>)
    requires
        d.finite(),
    ensures
        increasing_row(s),
        s.to_set() == d,
        s.len() == d.len(),
    decreases d.len(),
{
    if d.len() == 0 {
        assert(Seq::<u64>::empty().to_set() =~= d);
        Seq::empty()
    } else {
        let m = lemma_greatest_row(d);
        let e = d.remove(m);
        let t = lemma_ascending_exists_row(e);
        let s = t.push(m);
        assert(increasing_row(s)) by {
            assert forall|i: int, j: int| 0 <= i < j < s.len() implies s[i] < s[j] by {
                assert(t.to_set().contains(t[i]));
            }
        }
        assert(s.to_set() =~= d) by {
            assert forall|x: u64| s.to_set().contains(x) <==> d.contains(x) by {
                if d.contains(x) {
                    if x == m {
                        assert(s[t.len() as int] == x);
                    } else {
                        assert(t.to_set().contains(x));
                        let i = choose|i: int| 0 <= i < t.len() && t[i] == x;
                        assert(s[i] == x);
                    }
                }
                if s.to_set().contains(x) {
                    let i = choose|i: int| 0 <= i < s.len() && s[i] == x;
                    if i < t.len() {
                        assert(t.to_set().contains(t[i]));
                    }
                }
            }
        }
        s
    }
}

/// The keys of an ordered map, in ascending order.
pub fn keys_row<V>(m: &BTreeMap<u64, V>) -> (r: Vec<u64>)
    ensures
        r@ == ascending_row(m@.dom()),
        increasing_row(r@),
        r@.to_set() == m@.dom(),
        r@.len() == m@.dom().len(),
{
    broadcast use vstd::laws_cmp::group_laws_cmp;

    let mut out: Vec<u64> = Vec::new();
    let pairs = m.iter();
    let ghost s = vstd::std_specs::iter::IteratorSpec::remaining(&pairs);
    let ghost ks = s.map_values(|kv: (&u64, &V)| *kv.0);
    for kv in it: pairs
        invariant
            it.seq() == s,
            ks == s.map_values(|kv: (&u64, &V)| *kv.0),
            out@ == ks.subrange(0, it.index()),
            0 <= it.index() <= s.len(),
    {
        out.push(*kv.0);
        assert(out@ =~= ks.subrange(0, it.index() + 1));
    }
    proof {
        assert(out@ =~= ks);
        assert(increasing_row(ks)) by {
            assert forall|i: int, j: int| 0 <= i < j < ks.len() implies ks[i] < ks[j] by {
                assert(vstd::std_specs::cmp::OrdSpec::cmp_spec(&ks[i], &ks[j]) is Less);
            }
        }
        assert(ks.to_set() =~= m@.dom()) by {
            assert forall|k: u64| ks.to_set().contains(k) implies m@.dom().contains(k) by {
                let i = choose|i: int| 0 <= i < ks.len() && ks[i] == k;
                assert(m@.contains_key(*s[i].0));
            }
            assert forall|k: u64| m@.dom().contains(k) implies ks.to_set().contains(k) by {
                assert(s.contains((&k, &m@[k])));
                let i = choose|i: int| 0 <= i < s.len() && s[i] == (&k, &m@[k]);
                assert(ks[i] == k);
            }
        }
        lemma_ascending_row(out@);
    }
    out
}

/// Strictly increasing.
pub open spec fn increasing_size(s: Seq<usize>) -> bool {
    forall|i: int, j: int| 0 <= i < j < s.len() ==> s[i] < s[j]
}

/// The elements of a finite set in ascending order.
pub open spec fn ascending_size(d: Set<usize>) -> Seq<usize> {
    choose|s: Seq<usize>| increasing_size(s) && s.to_set() == d
}

proof fn lemma_unique_size(a: Seq<usize>, b: Seq<usize>)
    requires
        increasing_size(a),
        increasing_size(b),
        a.to_set() == b.to_set(),
    ensures
        a == b,
    decreases a.len(),
{
    if a.len() == 0 {
        if b.len() > 0 {
            assert(b.to_set().contains(b[0]));
            assert(a.to_set().contains(b[0]));
        }
        assert(a =~= b);
    } else {
        assert(a.to_set().contains(a.last()));
        assert(b.to_set().contains(a.last()));
        assert(b.contains(a.last()));
        assert(b.to_set().contains(b.last()));
        assert(a.to_set().contains(b.last()));
        assert(a.contains(b.last()));
        assert(a.last() == b.last());
        let p = a.drop_last();
        let q = b.drop_last();
        assert(p.to_set() =~= q.to_set()) by {
            assert forall|x: usize| p.to_set().contains(x) implies q.to_set().contains(x) by {
                let i = choose|i: int| 0 <= i < p.len() && p[i] == x;
                assert(a[i] == x && a[i] < a.last());
                assert(a.to_set().contains(x));
                assert(b.to_set().contains(x));
                let j = choose|j: int| 0 <= j < b.len() && b[j] == x;
                assert(j < b.len() - 1);
                assert(q[j] == x);
            }
            assert forall|x: usize| q.to_set().contains(x) implies p.to_set().contains(x) by {
                let i = choose|i: int| 0 <= i < q.len() && q[i] == x;
                assert(b[i] == x && b[i] < b.last());
                assert(b.to_set().contains(x));
                assert(a.to_set().contains(x));
                let j = choose|j: int| 0 <= j < a.len() && a[j] == x;
                assert(j < a.len() - 1);
                assert(p[j] == x);
            }
        }
        lemma_unique_size(p, q);
        assert(a =~= p.push(a.last()));
        assert(b =~= q.push(b.last()));
    }
}

/// An increasing sequence of the elements of a set is the ascending sequence.
pub proof fn lemma_ascending_size(s: Seq<usize>)
    requires
        increasing_size(s),
    ensures
        ascending_size(s.to_set()) == s,
{
    lemma_unique_size(s, ascending_size(s.to_set()));
}

/// A nonempty finite set has a greatest element.
proof fn lemma_greatest_size(d: Set<usize>) -> (m: usize)
    requires
        d.finite(),
        d.len() > 0,
    ensures
        d.contains(m),
        forall|x: usize| d.contains(x) ==> x <= m,
    decreases d.len(),
{
    let y = d.choose();
    let e = d.remove(y);
    if e.len() == 0 {
        assert forall|x: usize| d.contains(x) implies x <= y by {
            if x != y {
                assert(e.contains(x));
            }
        }
        y
    } else {
        let m = lemma_greatest_size(e);
        let r = if m < y { y } else { m };
        assert forall|x: usize| d.contains(x) implies x <= r by {
            if x != y {
                assert(e.contains(x));
            }
        }
        r
    }
}

proof fn lemma_ascending_exists_size(d: Set<usize>) -> (s: Seq<usize>)
    requires
        d.finite(),
    ensures
        increasing_size(s),
        s.to_set() == d,
        s.len() == d.len(),
    decreases d.len(),
{
    if d.len() == 0 {
        assert(Seq::<usize>::empty().to_set() =~= d);
        Seq::empty()
    } else {
        let m = lemma_greatest_size(d);
        let e = d.remove(m);
        let t = lemma_ascending_exists_size(e);
        let s = t.push(m);
        assert(increasing_size(s)) by {
            assert forall|i: int, j: int| 0 <= i < j < s.len() implies s[i] < s[j] by {
                assert(t.to_set().contains(t[i]));
            }
        }
        assert(s.to_set() =~= d) by {
            assert forall|x: usize| s.to_set().contains(x) <==> d.contains(x) by {
                if d.contains(x) {
                    if x == m {
                        assert(s[t.len() as int] == x);
                    } else {
                        assert(t.to_set().contains(x));
                        let i = choose|i: int| 0 <= i < t.len() && t[i] == x;
                        assert(s[i] == x);
                    }
                }
                if s.to_set().contains(x) {
                    let i = choose|i: int| 0 <= i < s.len() && s[i] == x;
                    if i < t.len() {
                        assert(t.to_set().contains(t[i]));
                    }
                }
            }
        }
        s
    }
}

/// The ascending sequence of a finite set is increasing and holds its elements.
pub proof fn lemma_ascending_set_size(d: Set<usize>)
    requires
        d.finite(),
    ensures
        increasing_size(ascending_size(d)),
        ascending_size(d).to_set() == d,
        ascending_size(d).len() == d.len(),
        ascending_size(d).no_duplicates(),
        forall|x: usize| #[trigger] ascending_size(d).contains(x) <==> d.contains(x),
{
    let s = lemma_ascending_exists_size(d);
    lemma_ascending_size(s);
    assert forall|x: usize| #[trigger] s.contains(x) <==> d.contains(x) by {
        assert(s.to_set().contains(x) <==> d.contains(x));
    }
}

/// The keys of an ordered map, in ascending order.
pub fn keys_size<V>(m: &BTreeMap<usize, V>) -> (r: Vec<usize>)
    ensures
        r@ == ascending_size(m@.dom()),
        increasing_size(r@),
        r@.to_set() == m@.dom(),
        r@.len() == m@.dom().len(),
{
    broadcast use vstd::laws_cmp::group_laws_cmp;

    let mut out: Vec<usize> = Vec::new();
    let pairs = m.iter();
    let ghost s = vstd::std_specs::iter::IteratorSpec::remaining(&pairs);
    let ghost ks = s.map_values(|kv: (&usize, &V)| *kv.0);
    for kv in it: pairs
        invariant
            it.seq() == s,
            ks == s.map_values(|kv: (&usize, &V)| *kv.0),
            out@ == ks.subrange(0, it.index()),
            0 <= it.index() <= s.len(),
    {
        out.push(*kv.0);
        assert(out@ =~= ks.subrange(0, it.index() + 1));
    }
    proof {
        assert(out@ =~= ks);
        assert(increasing_size(ks)) by {
            assert forall|i: int, j: int| 0 <= i < j < ks.len() implies ks[i] < ks[j] by {
                assert(vstd::std_specs::cmp::OrdSpec::cmp_spec(&ks[i], &ks[j]) is Less);
            }
        }
        assert(ks.to_set() =~= m@.dom()) by {
            assert forall|k: usize| ks.to_set().contains(k) implies m@.dom().contains(k) by {
                let i = choose|i: int| 0 <= i < ks.len() && ks[i] == k;
                assert(m@.contains_key(*s[i].0));
            }
            assert forall|k: usize| m@.dom().contains(k) implies ks.to_set().contains(k) by {
                assert(s.contains((&k, &m@[k])));
                let i = choose|i: int| 0 <= i < s.len() && s[i] == (&k, &m@[k]);
                assert(ks[i] == k);
            }
        }
        lemma_ascending_size(out@);
    }
    out
}

} // verus!
