//! The order of byte strings: by the first byte that differs, a prefix first.

use vstd::prelude::*;

verus! {

/// `a` comes before `b`.
pub open spec fn less(a: Seq<u8>, b: Seq<u8>) -> bool
    decreases a.len(),
{
    if b.len() == 0 {
        false
    } else if a.len() == 0 {
        true
    } else {
        a[0] < b[0] || (a[0] == b[0] && less(a.drop_first(), b.drop_first()))
    }
}

/// `b` starts with `a`.
pub open spec fn starts(b: Seq<u8>, a: Seq<u8>) -> bool {
    a.len() <= b.len() && b.take(a.len() as int) == a
}

pub proof fn lemma_order(a: Seq<u8>, b: Seq<u8>, c: Seq<u8>)
    ensures
        !less(a, a),
        less(a, b) && less(b, c) ==> less(a, c),
        !less(a, b) && !less(b, c) ==> !less(a, c),
        less(a, b) ==> !less(b, a),
        !less(a, b) && !less(b, a) ==> a == b,
    decreases a.len() + b.len() + c.len(),
{
    if a.len() > 0 && b.len() > 0 && c.len() > 0 {
        lemma_order(a.drop_first(), b.drop_first(), c.drop_first());
        if a[0] == b[0] && !less(a, b) && !less(b, a) {
            assert(a =~= seq![a[0]] + a.drop_first());
            assert(b =~= seq![b[0]] + b.drop_first());
        }
    } else if a.len() > 0 && b.len() > 0 {
        lemma_order(a.drop_first(), b.drop_first(), c);
        if a[0] == b[0] && !less(a, b) && !less(b, a) {
            assert(a =~= seq![a[0]] + a.drop_first());
            assert(b =~= seq![b[0]] + b.drop_first());
        }
    } else if a.len() > 0 {
        lemma_order(a.drop_first(), b, b);
    } else {
        if b.len() == 0 {
            assert(a =~= b);
        }
    }
}

/// A common prefix plays no part.
pub proof fn lemma_prepend(p: Seq<u8>, a: Seq<u8>, b: Seq<u8>)
    ensures
        less(p + a, p + b) == less(a, b),
    decreases p.len(),
{
    if p.len() > 0 {
        let q = p.drop_first();
        lemma_prepend(q, a, b);
        assert((p + a).drop_first() =~= q + a);
        assert((p + b).drop_first() =~= q + b);
        assert((p + a)[0] == p[0] && (p + b)[0] == p[0]);
    } else {
        assert(p + a =~= a);
        assert(p + b =~= b);
    }
}

/// The number of leading bytes that two strings share.
pub fn shared(a: &[u8], b: &[u8]) -> (n: usize)
    ensures
        n <= a@.len(),
        n <= b@.len(),
        a@.take(n as int) == b@.take(n as int),
        n == a@.len() || n == b@.len() || a@[n as int] != b@[n as int],
{
    let mut i: usize = 0;
    while i < a.len() && i < b.len() && a[i] == b[i]
        invariant
            i <= a@.len(),
            i <= b@.len(),
            forall|k: int| 0 <= k < i ==> a@[k] == b@[k],
        decreases a@.len() - i,
    {
        i += 1;
    }
    assert(a@.take(i as int) =~= b@.take(i as int));
    i
}

proof fn lemma_at(a: Seq<u8>, b: Seq<u8>, n: int)
    requires
        0 <= n <= a.len(),
        n <= b.len(),
        a.take(n) == b.take(n),
    ensures
        less(a, b) == less(a.skip(n), b.skip(n)),
{
    lemma_prepend(a.take(n), a.skip(n), b.skip(n));
    assert(a.take(n) + a.skip(n) =~= a);
    assert(a.take(n) + b.skip(n) =~= b);
}

/// Whether `a` comes before `b`.
pub fn is_less(a: &[u8], b: &[u8]) -> (r: bool)
    ensures
        r == less(a@, b@),
{
    let n: usize = shared(a, b);
    proof {
        lemma_at(a@, b@, n as int);
    }
    if n == b.len() {
        false
    } else if n == a.len() {
        true
    } else {
        a[n] < b[n]
    }
}

} // verus!
