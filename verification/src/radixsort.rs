//! LSD radix sort for integer and dictionary-id keys.
//!
//! Sorting a column of integers or dictionary ids is a hot path for `ORDER BY`,
//! sort-merge join, and run generation in external sort. For fixed-width integer
//! keys, a least-significant-digit radix sort beats comparison sorts: it makes a
//! fixed number of distribution passes (one per byte), is stable, and touches
//! each element a constant number of times. This module sorts `u64`/`i64` keys
//! and key/payload pairs, handling signed keys by moving them up by 2^63 so the
//! unsigned order matches the signed order.

use crate::sort;
use crate::sort::Ranked;
use vstd::prelude::*;

verus! {

impl Ranked for u64 {
    open spec fn before(self, other: Self) -> bool {
        self < other
    }

    proof fn lemma_weak_order(a: Self, b: Self, c: Self) {
    }

    fn is_before(&self, other: &Self) -> (r: bool) {
        *self < *other
    }
}

/// The keys of a list of pairs.
pub open spec fn keys_of(s: Seq<(u64, u32)>) -> Seq<u64> {
    s.map_values(|p: (u64, u32)| p.0)
}

/// Ascending.
pub open spec fn ascending(s: Seq<u64>) -> bool {
    forall|i: int, j: int| 0 <= i < j < s.len() ==> s[i] <= s[j]
}

/// Ascending.
pub open spec fn ascending_signed(s: Seq<i64>) -> bool {
    forall|i: int, j: int| 0 <= i < j < s.len() ==> s[i] <= s[j]
}

/// How many items all buckets hold.
spec fn total(b: Seq<Vec<usize>>) -> nat
    decreases b.len(),
{
    if b.len() == 0 {
        0
    } else {
        total(b.drop_last()) + b.last()@.len()
    }
}

proof fn lemma_total_update(b: Seq<Vec<usize>>, d: int, v: Vec<usize>)
    requires
        0 <= d < b.len(),
        v@.len() == b[d]@.len() + 1,
    ensures
        total(b.update(d, v)) == total(b) + 1,
    decreases b.len(),
{
    let u = b.update(d, v);
    if d < b.len() - 1 {
        lemma_total_update(b.drop_last(), d, v);
        assert(u.drop_last() =~= b.drop_last().update(d, v));
    } else {
        assert(u.drop_last() =~= b.drop_last());
    }
}

proof fn lemma_total_zero(b: Seq<Vec<usize>>)
    requires
        forall|d: int| 0 <= d < b.len() ==> (#[trigger] b[d])@.len() == 0,
    ensures
        total(b) == 0,
    decreases b.len(),
{
    if b.len() > 0 {
        assert(b[b.len() - 1]@.len() == 0);
        lemma_total_zero(b.drop_last());
    }
}

/// Bucket `d` lists the indices below `n` of the digit `d`, ascending.
spec fn bucketed(digits: Seq<u64>, b: Seq<Vec<usize>>, n: int) -> bool {
    &&& b.len() == 256
    &&& total(b) == n
    &&& forall|d: int, i: int|
        0 <= d < 256 && 0 <= i < b[d]@.len() ==> #[trigger] b[d]@[i] < n && digits[b[d]@[i] as int] == d
    &&& forall|d: int, i: int, j: int|
        0 <= d < 256 && 0 <= i < j < b[d]@.len() ==> #[trigger] b[d]@[i] < #[trigger] b[d]@[j]
}

/// One pass: the stable order of a list of digits.
fn distribute(digits: &Vec<u64>) -> (out: Vec<usize>)
    requires
        forall|i: int| 0 <= i < digits@.len() ==> (#[trigger] digits@[i]) < 256,
    ensures
        sort::is_order(digits@, out@),
{
    let mut buckets: Vec<Vec<usize>> = Vec::new();
    let mut d: usize = 0;
    while d < 256
        invariant
            d <= 256,
            buckets@.len() == d,
            forall|k: int| 0 <= k < d ==> (#[trigger] buckets@[k])@.len() == 0,
        decreases 256 - d,
    {
        buckets.push(Vec::new());
        d += 1;
    }
    proof {
        lemma_total_zero(buckets@);
    }
    let mut i: usize = 0;
    while i < digits.len()
        invariant
            i <= digits@.len(),
            forall|i: int| 0 <= i < digits@.len() ==> (#[trigger] digits@[i]) < 256,
            bucketed(digits@, buckets@, i as int),
        decreases digits@.len() - i,
    {
        let ghost was = buckets@;
        let d: usize = digits[i] as usize;
        let mut b = buckets.remove(d);
        let ghost b0 = b@;
        b.push(i);
        buckets.insert(d, b);
        proof {
            let now = buckets@;
            assert(now =~= was.update(d as int, b));
            lemma_total_update(was, d as int, b);
            assert forall|e: int, k: int| 0 <= e < 256 && 0 <= k < now[e]@.len() implies #[trigger] now[e]@[k] < i + 1
                && digits@[now[e]@[k] as int] == e by {
                if e == d {
                    if k < b0.len() {
                        assert(was[e]@[k] == b0[k]);
                        assert(now[e]@[k] == b0[k]);
                    }
                } else {
                    assert(was[e]@[k] == now[e]@[k]);
                }
            }
            assert forall|e: int, k: int, l: int| 0 <= e < 256 && 0 <= k < l < now[e]@.len() implies #[trigger] now[e]@[k]
                < #[trigger] now[e]@[l] by {
                if e == d {
                    assert(was[e]@ == b0);
                    assert(was[e]@[k] == now[e]@[k]);
                    if l < b0.len() {
                        assert(was[e]@[l] == now[e]@[l]);
                    }
                } else {
                    assert(was[e]@[k] == now[e]@[k] && was[e]@[l] == now[e]@[l]);
                }
            }
        }
        i += 1;
    }
    let n: usize = digits.len();
    let mut out: Vec<usize> = Vec::new();
    let mut d: usize = 0;
    assert(buckets@.subrange(0, 0) =~= Seq::<Vec<usize>>::empty());
    while d < 256
        invariant
            d <= 256,
            n == digits@.len(),
            bucketed(digits@, buckets@, n as int),
            out@.len() == total(buckets@.subrange(0, d as int)),
            forall|i: int| 0 <= i < out@.len() ==> (#[trigger] out@[i]) < n && digits@[out@[i] as int] < d,
            sort::ordered(digits@, out@),
        decreases 256 - d,
    {
        let ghost o = out@;
        let mut k: usize = 0;
        while k < buckets[d].len()
            invariant
                d < 256,
                n == digits@.len(),
                bucketed(digits@, buckets@, n as int),
                k <= buckets@[d as int]@.len(),
                out@ == o + buckets@[d as int]@.subrange(0, k as int),
                forall|i: int| 0 <= i < o.len() ==> (#[trigger] o[i]) < n && digits@[o[i] as int] < d,
                sort::ordered(digits@, o),
            decreases buckets@[d as int]@.len() - k,
        {
            out.push(buckets[d][k]);
            k += 1;
            assert(buckets@[d as int]@.subrange(0, k as int) =~= buckets@[d as int]@.subrange(0, k - 1).push(
                buckets@[d as int]@[k - 1],
            ));
        }
        proof {
            let b = buckets@[d as int]@;
            assert(b.subrange(0, k as int) =~= b);
            assert(out@ =~= o + b);
            assert(buckets@.subrange(0, d + 1).drop_last() =~= buckets@.subrange(0, d as int));
            assert forall|i: int| 0 <= i < out@.len() implies (#[trigger] out@[i]) < n && digits@[out@[i] as int] < d + 1 by {
                if i < o.len() {
                    assert(out@[i] == o[i]);
                } else {
                    assert(out@[i] == buckets@[d as int]@[i - o.len()]);
                }
            }
            assert forall|i: int, j: int| 0 <= i < j < out@.len() implies #[trigger] sort::precedes(
                digits@,
                out@[i] as int,
                out@[j] as int,
            ) by {
                if j < o.len() {
                    assert(sort::precedes(digits@, o[i] as int, o[j] as int));
                } else if i < o.len() {
                    assert(out@[i] == o[i]);
                    assert(out@[j] == buckets@[d as int]@[j - o.len()]);
                } else {
                    assert(out@[i] == buckets@[d as int]@[i - o.len()]);
                    assert(out@[j] == buckets@[d as int]@[j - o.len()]);
                }
            }
        }
        d += 1;
    }
    assert(buckets@.subrange(0, 256) =~= buckets@);
    out
}

/// Item `a` comes before item `b` by the digits below `p`, equal ones in the
/// order given.
spec fn low_precedes(keys: Seq<u64>, p: int, a: int, b: int) -> bool {
    keys[a] as int % p < keys[b] as int % p || (keys[a] as int % p == keys[b] as int % p && a < b)
}

spec fn low_ordered(keys: Seq<u64>, p: int, perm: Seq<usize>) -> bool {
    &&& perm.len() == keys.len()
    &&& forall|i: int| 0 <= i < perm.len() ==> (#[trigger] perm[i]) < keys.len()
    &&& forall|i: int, j: int|
        0 <= i < j < perm.len() ==> #[trigger] low_precedes(keys, p, perm[i] as int, perm[j] as int)
}

proof fn lemma_digit(k: int, p: int)
    requires
        k >= 0,
        p > 0,
    ensures
        k % (p * 256) == p * (k / p % 256) + k % p,
        0 <= k % p < p,
{
    vstd::arithmetic::div_mod::lemma_mod_breakdown(k, p, 256);
}

/// The stable order of a list of keys.
fn radix_order(keys: &Vec<u64>) -> (perm: Vec<usize>)
    ensures
        sort::is_order(keys@, perm@),
{
    let n: usize = keys.len();
    let mut perm: Vec<usize> = Vec::new();
    let mut i: usize = 0;
    while i < n
        invariant
            i <= n,
            perm@.len() == i,
            forall|k: int| 0 <= k < i ==> perm@[k] == k,
        decreases n - i,
    {
        perm.push(i);
        i += 1;
    }
    let mut byte: usize = 0;
    let mut p: u64 = 1;
    let ghost mut q: int = 1;
    assert(low_ordered(keys@, 1, perm@)) by {
        assert forall|i: int, j: int| 0 <= i < j < perm@.len() implies #[trigger] low_precedes(
            keys@,
            1,
            perm@[i] as int,
            perm@[j] as int,
        ) by {
            assert(keys@[i] as int % 1 == 0 && keys@[j] as int % 1 == 0);
        }
    }
    while byte < 8
        invariant
            byte <= 8,
            n == keys@.len(),
            low_ordered(keys@, q, perm@),
            byte < 8 ==> q == p,
            q >= 1,
            byte == 0 ==> q == 1,
            byte == 1 ==> q == 0x100,
            byte == 2 ==> q == 0x1_0000,
            byte == 3 ==> q == 0x100_0000,
            byte == 4 ==> q == 0x1_0000_0000,
            byte == 5 ==> q == 0x100_0000_0000,
            byte == 6 ==> q == 0x1_0000_0000_0000,
            byte == 7 ==> q == 0x100_0000_0000_0000,
            byte == 8 ==> q == 0x1_0000_0000_0000_0000,
        decreases 8 - byte,
    {
        let mut digits: Vec<u64> = Vec::new();
        let mut i: usize = 0;
        while i < n
            invariant
                i <= n,
                n == keys@.len(),
                p > 0,
                perm@.len() == n,
                forall|i: int| 0 <= i < perm@.len() ==> (#[trigger] perm@[i]) < keys@.len(),
                digits@.len() == i,
                forall|k: int| 0 <= k < i ==> digits@[k] == keys@[perm@[k] as int] / p % 256,
            decreases n - i,
        {
            digits.push(keys[perm[i]] / p % 256);
            i += 1;
        }
        let order = distribute(&digits);
        let mut next: Vec<usize> = Vec::new();
        let mut i: usize = 0;
        while i < n
            invariant
                i <= n,
                perm@.len() == n,
                order@.len() == n,
                forall|k: int| 0 <= k < order@.len() ==> (#[trigger] order@[k]) < n,
                next@.len() == i,
                forall|k: int| 0 <= k < i ==> next@[k] == perm@[order@[k] as int],
            decreases n - i,
        {
            next.push(perm[order[i]]);
            i += 1;
        }
        proof {
            let p2 = q * 256;
            assert forall|i: int| 0 <= i < next@.len() implies (#[trigger] next@[i]) < keys@.len() by {
                assert(next@[i] == perm@[order@[i] as int]);
                assert(order@[i] < n);
            }
            assert forall|i: int, j: int| 0 <= i < j < next@.len() implies #[trigger] low_precedes(
                keys@,
                p2,
                next@[i] as int,
                next@[j] as int,
            ) by {
                let x = order@[i] as int;
                let y = order@[j] as int;
                assert(order@[i] < n && order@[j] < n);
                assert(sort::precedes(digits@, x, y));
                let a = perm@[x] as int;
                let b = perm@[y] as int;
                assert(perm@[x] < n && perm@[y] < n);
                let ka = keys@[a] as int;
                let kb = keys@[b] as int;
                lemma_digit(ka, q);
                lemma_digit(kb, q);
                let da = ka / q % 256;
                let db = kb / q % 256;
                assert(digits@[x] == da && digits@[y] == db);
                if da < db {
                    assert(q * da + ka % q < q * db + kb % q) by (nonlinear_arith)
                        requires
                            da < db,
                            0 <= ka % q < q,
                            0 <= kb % q < q,
                    ;
                } else {
                    assert(da == db && x < y);
                    assert(low_precedes(keys@, q, perm@[x] as int, perm@[y] as int));
                }
            }
            q = p2;
        }
        perm = next;
        byte += 1;
        if byte < 8 {
            p = p * 256;
        }
    }
    proof {
        assert forall|i: int, j: int| 0 <= i < j < perm@.len() implies #[trigger] sort::precedes(
            keys@,
            perm@[i] as int,
            perm@[j] as int,
        ) by {
            let a = perm@[i] as int;
            let b = perm@[j] as int;
            assert(low_precedes(keys@, q, perm@[i] as int, perm@[j] as int));
            assert(perm@[i] < n && perm@[j] < n);
            assert(keys@[a] as int % q == keys@[a] && keys@[b] as int % q == keys@[b]) by {
                vstd::arithmetic::div_mod::lemma_small_mod(keys@[a] as nat, q as nat);
                vstd::arithmetic::div_mod::lemma_small_mod(keys@[b] as nat, q as nat);
            }
        }
    }
    perm
}

/// Stable LSD radix sort of unsigned 64-bit keys.
pub fn sort_u64(keys: &mut [u64])
    ensures
        sort::stable_sorted(old(keys)@, final(keys)@),
        ascending(final(keys)@),
{
    let n: usize = keys.len();
    let mut copy: Vec<u64> = Vec::new();
    let mut i: usize = 0;
    while i < n
        invariant
            i <= n,
            n == keys@.len(),
            keys@ == old(keys)@,
            copy@ == keys@.subrange(0, i as int),
        decreases n - i,
    {
        copy.push(keys[i]);
        i += 1;
        assert(keys@.subrange(0, i as int) =~= keys@.subrange(0, i - 1).push(keys@[i - 1]));
    }
    assert(copy@ =~= keys@);
    let perm = radix_order(&copy);
    let mut i: usize = 0;
    while i < n
        invariant
            i <= n,
            n == keys@.len(),
            n == copy@.len(),
            sort::is_order(copy@, perm@),
            forall|k: int| 0 <= k < i ==> keys@[k] == copy@[perm@[k] as int],
        decreases n - i,
    {
        keys[i] = copy[perm[i]];
        i += 1;
    }
    proof {
        assert(keys@ =~= sort::arranged(copy@, perm@));
        assert(sort::stable_sorted(copy@, keys@));
        sort::lemma_stable_sorted(copy@, keys@);
        assert forall|i: int, j: int| 0 <= i < j < keys@.len() implies keys@[i] <= keys@[j] by {
            assert(!keys@[j].before(keys@[i]));
        }
    }
}

/// Map a signed key to an unsigned one preserving order.
pub fn to_sortable(k: i64) -> (r: u64)
    ensures
        r == k + 0x8000_0000_0000_0000,
{
    (k as i128 + 0x8000_0000_0000_0000) as u64
}

/// Inverse of [`to_sortable`].
pub fn from_sortable(u: u64) -> (r: i64)
    ensures
        r == u - 0x8000_0000_0000_0000,
{
    (u as i128 - 0x8000_0000_0000_0000) as i64
}

/// Signed keys made unsigned.
pub open spec fn lifted(s: Seq<i64>) -> Seq<u64> {
    s.map_values(|k: i64| (k + 0x8000_0000_0000_0000) as u64)
}

/// Stable radix sort of signed 64-bit keys.
pub fn sort_i64(keys: &mut [i64])
    ensures
        sort::stable_sorted(lifted(old(keys)@), lifted(final(keys)@)),
        ascending_signed(final(keys)@),
        final(keys)@.len() == old(keys)@.len(),
{
    let n: usize = keys.len();
    let mut mapped: Vec<u64> = Vec::new();
    let mut i: usize = 0;
    while i < n
        invariant
            i <= n,
            n == keys@.len(),
            keys@ == old(keys)@,
            mapped@.len() == i,
            forall|k: int| 0 <= k < i ==> mapped@[k] == lifted(keys@)[k],
        decreases n - i,
    {
        mapped.push(to_sortable(keys[i]));
        i += 1;
    }
    assert(mapped@ =~= lifted(old(keys)@));
    sort_u64(mapped.as_mut_slice());
    proof {
        sort::lemma_stable_sorted(lifted(old(keys)@), mapped@);
    }
    let mut i: usize = 0;
    while i < n
        invariant
            i <= n,
            n == keys@.len(),
            n == mapped@.len(),
            forall|k: int| 0 <= k < i ==> keys@[k] == mapped@[k] - 0x8000_0000_0000_0000,
        decreases n - i,
    {
        keys[i] = from_sortable(mapped[i]);
        i += 1;
    }
    assert(lifted(keys@) =~= mapped@);
}

/// Stable radix sort of `(key, payload)` pairs by unsigned key.
pub fn sort_pairs(pairs: &mut Vec<(u64, u32)>)
    ensures
        final(pairs)@.len() == old(pairs)@.len(),
        exists|p: Seq<usize>| #[trigger]
            sort::is_order(keys_of(old(pairs)@), p) && final(pairs)@ == sort::arranged(old(pairs)@, p),
{
    let n: usize = pairs.len();
    let mut keys: Vec<u64> = Vec::new();
    let mut i: usize = 0;
    while i < n
        invariant
            i <= n,
            n == pairs@.len(),
            keys@.len() == i,
            forall|k: int| 0 <= k < i ==> keys@[k] == pairs@[k].0,
        decreases n - i,
    {
        keys.push(pairs[i].0);
        i += 1;
    }
    assert(keys@ =~= keys_of(pairs@));
    let perm = radix_order(&keys);
    let mut out: Vec<(u64, u32)> = Vec::new();
    let mut i: usize = 0;
    while i < n
        invariant
            i <= n,
            n == pairs@.len(),
            n == keys@.len(),
            sort::is_order(keys@, perm@),
            out@.len() == i,
            forall|k: int| 0 <= k < i ==> out@[k] == pairs@[perm@[k] as int],
        decreases n - i,
    {
        out.push(pairs[perm[i]]);
        i += 1;
    }
    assert(out@ =~= sort::arranged(pairs@, perm@));
    *pairs = out;
}

/// `true` if the slice is sorted ascending.
pub fn is_sorted_u64(keys: &[u64]) -> (r: bool)
    ensures
        r == ascending(keys@),
{
    let mut i: usize = 1;
    while i < keys.len()
        invariant
            1 <= i,
            keys@.len() == 0 || i <= keys@.len(),
            forall|a: int, b: int| 0 <= a < b < i && b < keys@.len() ==> keys@[a] <= keys@[b],
        decreases keys@.len() - i,
    {
        if keys[i - 1] > keys[i] {
            assert(!(keys@[i - 1] <= keys@[i as int]));
            return false;
        }
        proof {
            assert forall|a: int, b: int| 0 <= a < b < i + 1 && b < keys@.len() implies keys@[a] <= keys@[b] by {
                if b == i && a < i - 1 {
                    assert(keys@[a] <= keys@[i - 1]);
                }
            }
        }
        i += 1;
    }
    true
}

} // verus!
