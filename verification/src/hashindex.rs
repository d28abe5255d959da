//! A paged hash index.
//!
//! A hash index maps a hash of the key to a bucket of `(key, row_id)` pairs.
//! It is the right structure for exact-match lookups on columns whose values
//! are not naturally ordered (text, in particular, where the key is the
//! dictionary id hashed to a bucket). The bucket count is fixed between
//! rehashes; when a bucket fills, overflow buckets are chained to it.
//!
//! The index owns a vector of buckets. When a bucket grows past
//! [`BUCKET_CAPACITY`], an overflow bucket is allocated and chained. The whole
//! structure serializes as: bucket count, then per bucket the entry count and
//! the entries, then the overflow chain.

use vstd::prelude::*;
use crate::order;
use crate::bytes;
use crate::bloom;
use std::collections::BTreeMap;

verus! {

broadcast use {vstd::std_specs::btree::group_btree_axioms, bytes::group_le_len};

/// Entries per bucket before an overflow bucket is chained.
pub const BUCKET_CAPACITY: usize = 16;

#[derive(Debug, Clone, Copy, PartialEq, Eq, Structural)]
pub struct Entry {
    pub key: i64,
    pub row_id: u64,
}

#[derive(Debug, Clone)]
pub struct Bucket {
    pub entries: Vec<Entry>,
    pub overflow: Option<usize>,
}

/// What a bucket holds.
#[verifier::ext_equal]
pub struct BucketModel {
    pub entries: Seq<Entry>,
    pub overflow: Option<usize>,
}

impl Bucket {
    pub open spec fn model(self) -> BucketModel {
        BucketModel { entries: self.entries@, overflow: self.overflow }
    }

    pub fn new() -> (r: Bucket)
        ensures
            r.entries@ == Seq::<Entry>::empty(),
            r.overflow is None,
    {
        Bucket { entries: Vec::new(), overflow: None }
    }
}

impl Default for Bucket {
    fn default() -> (r: Self)
        ensures
            r.entries@ == Seq::<Entry>::empty(),
            r.overflow is None,
    {
        Bucket::new()
    }
}

/// The entries of the overflow buckets of a chain, bucket by bucket.
pub open spec fn chain_pages(pool: Map<usize, BucketModel>, cur: Option<usize>, bound: nat) -> Seq<Seq<Entry>>
    decreases
            match cur {
                Some(id) => if id < bound {
                    bound - id
                } else {
                    0int
                },
                None => 0int,
            },
{
    match cur {
        None => Seq::empty(),
        Some(id) => if id >= bound {
            Seq::empty()
        } else {
            seq![pool[id].entries] + (match pool[id].overflow {
                None => Seq::empty(),
                Some(n) => if n > id {
                    chain_pages(pool, Some(n), bound)
                } else {
                    Seq::empty()
                },
            })
        },
    }
}

/// All entries of a list of buckets.
pub open spec fn flat(pages: Seq<Seq<Entry>>) -> Seq<Entry>
    decreases pages.len(),
{
    if pages.len() == 0 {
        Seq::empty()
    } else {
        pages[0] + flat(pages.drop_first())
    }
}

/// An entry goes into the first bucket with room, or into a new one.
pub open spec fn placed(pages: Seq<Seq<Entry>>, e: Entry) -> Seq<Seq<Entry>>
    decreases pages.len(),
{
    if pages.len() == 0 {
        seq![seq![e]]
    } else if pages[0].len() < BUCKET_CAPACITY {
        pages.update(0, pages[0].push(e))
    } else {
        seq![pages[0]] + placed(pages.drop_first(), e)
    }
}

/// The entries without a pair.
pub open spec fn purged(s: Seq<Entry>, e: Entry) -> Seq<Entry>
    decreases s.len(),
{
    if s.len() == 0 {
        s
    } else if s.last() == e {
        purged(s.drop_last(), e)
    } else {
        purged(s.drop_last(), e).push(s.last())
    }
}

/// A pair leaves every bucket.
pub open spec fn purged_pages(pages: Seq<Seq<Entry>>, e: Entry) -> Seq<Seq<Entry>> {
    pages.map_values(|s: Seq<Entry>| purged(s, e))
}

/// The row ids of a key, in order.
pub open spec fn rows_of(s: Seq<Entry>, key: i64) -> Seq<u64>
    decreases s.len(),
{
    if s.len() == 0 {
        Seq::empty()
    } else if s.last().key == key {
        rows_of(s.drop_last(), key).push(s.last().row_id)
    } else {
        rows_of(s.drop_last(), key)
    }
}

/// The bucket of a key among `n`.
pub open spec fn slot_of(key: i64, n: nat) -> int {
    (bloom::fnv(bytes::le_i64(key)) as usize) as int % n as int
}

/// The buckets, the overflow buckets, the next overflow id and the length.
#[verifier::ext_equal]
pub struct IndexParts {
    pub heads: Seq<BucketModel>,
    pub pool: Map<usize, BucketModel>,
    pub next: nat,
    pub len: nat,
}

/// Links go to overflow buckets of the same owner, with greater ids.
pub open spec fn owned(t: IndexParts, owner: Map<usize, int>) -> bool {
    &&& forall|id: usize| #[trigger] t.pool.contains_key(id) ==> id < t.next
    &&& forall|b: int|
        0 <= b < t.heads.len() ==> ((#[trigger] t.heads[b]).overflow matches Some(n) ==> t.pool.contains_key(n)
            && owner[n] == b)
    &&& forall|id: usize| #[trigger]
        t.pool.contains_key(id) ==> (t.pool[id].overflow matches Some(n) ==> n > id && t.pool.contains_key(n)
            && owner[n] == owner[id])
}

/// Some bucket links to an overflow bucket.
pub open spec fn linked(t: IndexParts, id: usize) -> bool {
    ||| exists|b: int| 0 <= b < t.heads.len() && (#[trigger] t.heads[b]).overflow == Some(id)
    ||| chained(t.pool, id)
}

/// Some overflow bucket links to an overflow bucket.
pub open spec fn chained(pool: Map<usize, BucketModel>, id: usize) -> bool {
    exists|j: usize| #[trigger] pool.contains_key(j) && pool[j].overflow == Some(id)
}

/// No overflow bucket is left over.
pub open spec fn covered(t: IndexParts) -> bool {
    forall|id: usize| #[trigger] t.pool.contains_key(id) ==> linked(t, id)
}

/// Links that are there stay, and what is new is linked to.
pub open spec fn links_kept(t: IndexParts, u: IndexParts) -> bool {
    &&& u.heads.len() == t.heads.len()
    &&& forall|b: int|
        0 <= b < t.heads.len() && (#[trigger] t.heads[b]).overflow is Some ==> u.heads[b].overflow == t.heads[b].overflow
    &&& forall|j: usize| #[trigger]
        t.pool.contains_key(j) && t.pool[j].overflow is Some ==> u.pool.contains_key(j) && u.pool[j].overflow
            == t.pool[j].overflow
    &&& forall|id: usize| #[trigger] u.pool.contains_key(id) ==> t.pool.contains_key(id) || linked(u, id)
}

proof fn lemma_covered(t: IndexParts, u: IndexParts)
    requires
        covered(t),
        links_kept(t, u),
    ensures
        covered(u),
{
    assert forall|id: usize| #[trigger] u.pool.contains_key(id) implies linked(u, id) by {
        if t.pool.contains_key(id) {
            assert(linked(t, id));
            if chained(t.pool, id) {
                let j = choose|j: usize| #[trigger] t.pool.contains_key(j) && t.pool[j].overflow == Some(id);
                assert(u.pool.contains_key(j) && u.pool[j].overflow == Some(id));
            } else {
                let b = choose|b: int| 0 <= b < t.heads.len() && (#[trigger] t.heads[b]).overflow == Some(id);
                assert(u.heads[b].overflow == Some(id));
            }
        }
    }
}

/// Every overflow bucket belongs to one chain, chains end, and entries stand in
/// the slots of their keys.
pub open spec fn index_ok(t: IndexParts) -> bool {
    &&& t.heads.len() > 0
    &&& exists|owner: Map<usize, int>| owned(t, owner)
    &&& covered(t)
    &&& t.len >= total(index_pages(t))
    &&& sorted_out(index_pages(t))
}

/// The buckets of one slot.
pub open spec fn slot_pages(t: IndexParts, b: int) -> Seq<Seq<Entry>> {
    seq![t.heads[b].entries] + chain_pages(t.pool, t.heads[b].overflow, t.next)
}

/// The buckets of every slot.
pub open spec fn index_pages(t: IndexParts) -> Seq<Seq<Seq<Entry>>> {
    Seq::new(t.heads.len(), |b: int| slot_pages(t, b))
}

/// All entries, slot by slot.
pub open spec fn all_entries(v: Seq<Seq<Seq<Entry>>>) -> Seq<Entry>
    decreases v.len(),
{
    if v.len() == 0 {
        Seq::empty()
    } else {
        all_entries(v.drop_last()) + flat(v.last())
    }
}

/// The number of entries.
pub open spec fn total(v: Seq<Seq<Seq<Entry>>>) -> nat {
    all_entries(v).len()
}

/// The slots after an insertion.
pub open spec fn with_pair(v: Seq<Seq<Seq<Entry>>>, e: Entry) -> Seq<Seq<Seq<Entry>>> {
    let b = slot_of(e.key, v.len());
    v.update(b, placed(v[b], e))
}

/// The slots after a removal.
pub open spec fn without_pair(v: Seq<Seq<Seq<Entry>>>, e: Entry) -> Seq<Seq<Seq<Entry>>> {
    let b = slot_of(e.key, v.len());
    v.update(b, purged_pages(v[b], e))
}

/// `n` empty slots.
pub open spec fn empty_slots(n: nat) -> Seq<Seq<Seq<Entry>>> {
    Seq::new(n, |b: int| seq![Seq::<Entry>::empty()])
}

/// The slots after inserting a list of entries in order.
pub open spec fn with_pairs(v: Seq<Seq<Seq<Entry>>>, s: Seq<Entry>) -> Seq<Seq<Seq<Entry>>>
    decreases s.len(),
{
    if s.len() == 0 {
        v
    } else {
        with_pair(with_pairs(v, s.drop_last()), s.last())
    }
}

/// The row ids that a lookup finds.
pub open spec fn found(v: Seq<Seq<Seq<Entry>>>, key: i64) -> Seq<u64> {
    rows_of(flat(v[slot_of(key, v.len())]), key)
}

// Lists of buckets

pub proof fn lemma_slot(key: i64, n: nat)
    requires
        n > 0,
    ensures
        0 <= slot_of(key, n) < n,
{
}

proof fn lemma_rows_concat(a: Seq<Entry>, b: Seq<Entry>, key: i64)
    ensures
        rows_of(a + b, key) == rows_of(a, key) + rows_of(b, key),
    decreases b.len(),
{
    if b.len() == 0 {
        assert(a + b =~= a);
        assert(rows_of(a, key) + rows_of(b, key) =~= rows_of(a, key));
    } else {
        assert((a + b).drop_last() =~= a + b.drop_last());
        lemma_rows_concat(a, b.drop_last(), key);
        assert(rows_of(a + b, key) =~= rows_of(a, key) + rows_of(b, key));
    }
}

proof fn lemma_flat_one(s: Seq<Entry>)
    ensures
        flat(seq![s]) == s,
{
    assert(seq![s].drop_first() =~= Seq::<Seq<Entry>>::empty());
    assert(flat(Seq::<Seq<Entry>>::empty()) =~= Seq::<Entry>::empty());
    assert(flat(seq![s]) =~= s);
}

/// Placing an entry adds one entry, and a lookup of another key finds the same
/// rows.
proof fn lemma_placed(pages: Seq<Seq<Entry>>, e: Entry)
    ensures
        flat(placed(pages, e)).len() == flat(pages).len() + 1,
        forall|k: i64| k != e.key ==> #[trigger] rows_of(flat(placed(pages, e)), k) == rows_of(flat(pages), k),
        placed(pages, e).len() >= 1,
    decreases pages.len(),
{
    if pages.len() == 0 {
        lemma_flat_one(seq![e]);
        assert(flat(pages) =~= Seq::<Entry>::empty());
        assert forall|k: i64| k != e.key implies #[trigger] rows_of(flat(placed(pages, e)), k) == rows_of(
            flat(pages),
            k,
        ) by {
            assert(seq![e].drop_last() =~= Seq::<Entry>::empty());
        }
    } else {
        let t = pages.drop_first();
        let p = placed(pages, e);
        if pages[0].len() < BUCKET_CAPACITY {
            assert(p.drop_first() =~= t);
            let a = pages[0].push(e);
            assert forall|k: i64| k != e.key implies #[trigger] rows_of(flat(p), k) == rows_of(flat(pages), k) by {
                lemma_rows_concat(a, flat(t), k);
                lemma_rows_concat(pages[0], flat(t), k);
                assert(a.drop_last() =~= pages[0]);
            }
        } else {
            lemma_placed(t, e);
            assert(p.drop_first() =~= placed(t, e));
            assert forall|k: i64| k != e.key implies #[trigger] rows_of(flat(p), k) == rows_of(flat(pages), k) by {
                lemma_rows_concat(pages[0], flat(placed(t, e)), k);
                lemma_rows_concat(pages[0], flat(t), k);
            }
        }
    }
}

/// Buckets that are full but for the last one.
pub open spec fn packed(pages: Seq<Seq<Entry>>) -> bool {
    forall|i: int| 0 <= i < pages.len() - 1 ==> (#[trigger] pages[i]).len() >= BUCKET_CAPACITY
}

/// In packed buckets, a new entry comes last.
proof fn lemma_placed_packed(pages: Seq<Seq<Entry>>, e: Entry)
    requires
        packed(pages),
        pages.len() > 0,
    ensures
        packed(placed(pages, e)),
        flat(placed(pages, e)) == flat(pages).push(e),
    decreases pages.len(),
{
    let t = pages.drop_first();
    let p = placed(pages, e);
    if pages.len() == 1 {
        assert(t =~= Seq::<Seq<Entry>>::empty());
        assert(flat(t) =~= Seq::<Entry>::empty());
        if pages[0].len() < BUCKET_CAPACITY {
            assert(p.drop_first() =~= t);
            assert(flat(p) =~= flat(pages).push(e));
        } else {
            assert(placed(t, e) =~= seq![seq![e]]);
            assert(p =~= seq![pages[0], seq![e]]);
            assert(p.drop_first() =~= seq![seq![e]]);
            lemma_flat_one(seq![e]);
            assert(flat(p) =~= flat(pages).push(e));
        }
    } else {
        assert(pages[0].len() >= BUCKET_CAPACITY);
        assert forall|i: int| 0 <= i < t.len() - 1 implies (#[trigger] t[i]).len() >= BUCKET_CAPACITY by {
            assert(t[i] == pages[i + 1]);
        }
        lemma_placed_packed(t, e);
        let q = placed(t, e);
        assert(p.drop_first() =~= q);
        assert(flat(p) =~= flat(pages).push(e));
        assert forall|i: int| 0 <= i < p.len() - 1 implies (#[trigger] p[i]).len() >= BUCKET_CAPACITY by {
            if i > 0 {
                assert(p[i] == q[i - 1]);
            }
        }
    }
}

/// A purged pair is gone, and other rows stay.
proof fn lemma_purged(s: Seq<Entry>, e: Entry)
    ensures
        purged(s, e).len() <= s.len(),
        purged(s, e).len() < s.len() <==> s.contains(e),
        !purged(s, e).contains(e),
        forall|k: i64| k != e.key ==> #[trigger] rows_of(purged(s, e), k) == rows_of(s, k),
    decreases s.len(),
{
    if s.len() > 0 {
        let d = s.drop_last();
        lemma_purged(d, e);
        assert(s =~= d.push(s.last()));
        if s.last() == e {
            assert(s[s.len() - 1] == e);
        } else {
            let p = purged(d, e).push(s.last());
            if s.contains(e) {
                let i = choose|i: int| 0 <= i < s.len() && s[i] == e;
                assert(d[i] == e);
            }
            if d.contains(e) {
                let i = choose|i: int| 0 <= i < d.len() && d[i] == e;
                assert(s[i] == e);
            }
            if p.contains(e) {
                let i = choose|i: int| 0 <= i < p.len() && p[i] == e;
                assert(purged(d, e)[i] == e);
            }
            assert forall|k: i64| k != e.key implies #[trigger] rows_of(purged(s, e), k) == rows_of(s, k) by {
                assert(p.drop_last() =~= purged(d, e));
                assert(rows_of(purged(d, e), k) == rows_of(d, k));
            }
        }
    }
}

proof fn lemma_purged_concat(a: Seq<Entry>, b: Seq<Entry>, e: Entry)
    ensures
        purged(a + b, e) == purged(a, e) + purged(b, e),
    decreases b.len(),
{
    if b.len() == 0 {
        assert(a + b =~= a);
        assert(purged(a, e) + purged(b, e) =~= purged(a, e));
    } else {
        assert((a + b).drop_last() =~= a + b.drop_last());
        lemma_purged_concat(a, b.drop_last(), e);
        assert(purged(a + b, e) =~= purged(a, e) + purged(b, e));
    }
}

/// Purging every bucket purges the entries.
proof fn lemma_purged_pages(pages: Seq<Seq<Entry>>, e: Entry)
    ensures
        flat(purged_pages(pages, e)) == purged(flat(pages), e),
    decreases pages.len(),
{
    let p = purged_pages(pages, e);
    if pages.len() > 0 {
        let t = pages.drop_first();
        lemma_purged_pages(t, e);
        assert(p.drop_first() =~= purged_pages(t, e));
        lemma_purged_concat(pages[0], flat(t), e);
    }
}

proof fn lemma_all_update(v: Seq<Seq<Seq<Entry>>>, b: int, p: Seq<Seq<Entry>>)
    requires
        0 <= b < v.len(),
    ensures
        total(v.update(b, p)) == total(v) - flat(v[b]).len() + flat(p).len(),
        flat(v[b]).len() <= total(v),
    decreases v.len(),
{
    let u = v.update(b, p);
    if b == v.len() - 1 {
        assert(u.drop_last() =~= v.drop_last());
    } else {
        lemma_all_update(v.drop_last(), b, p);
        assert(u.drop_last() =~= v.drop_last().update(b, p));
    }
}

/// A lookup after an insertion: the key gains the row, other keys are as before.
pub proof fn lemma_insert_found(v: Seq<Seq<Seq<Entry>>>, e: Entry, key: i64)
    requires
        v.len() > 0,
    ensures
        key != e.key ==> found(with_pair(v, e), key) == found(v, key),
        found(with_pair(v, e), e.key).len() == found(v, e.key).len() + 1,
        found(with_pair(v, e), e.key).contains(e.row_id),
        total(with_pair(v, e)) == total(v) + 1,
{
    let b = slot_of(e.key, v.len());
    lemma_slot(e.key, v.len());
    lemma_slot(key, v.len());
    lemma_placed(v[b], e);
    lemma_all_update(v, b, placed(v[b], e));
    lemma_placed_row(v[b], e);
}

/// The key of a placed entry gains its row.
proof fn lemma_placed_row(pages: Seq<Seq<Entry>>, e: Entry)
    ensures
        rows_of(flat(placed(pages, e)), e.key).len() == rows_of(flat(pages), e.key).len() + 1,
        rows_of(flat(placed(pages, e)), e.key).contains(e.row_id),
    decreases pages.len(),
{
    let p = placed(pages, e);
    let k = e.key;
    if pages.len() == 0 {
        lemma_flat_one(seq![e]);
        assert(flat(pages) =~= Seq::<Entry>::empty());
        assert(seq![e].drop_last() =~= Seq::<Entry>::empty());
        assert(rows_of(Seq::<Entry>::empty(), k) =~= Seq::<u64>::empty());
        assert(rows_of(seq![e], k) =~= seq![e.row_id]);
        assert(rows_of(seq![e], k)[0] == e.row_id);
    } else {
        let t = pages.drop_first();
        if pages[0].len() < BUCKET_CAPACITY {
            assert(p.drop_first() =~= t);
            let a = pages[0].push(e);
            lemma_rows_concat(a, flat(t), k);
            lemma_rows_concat(pages[0], flat(t), k);
            assert(a.drop_last() =~= pages[0]);
            let n = rows_of(pages[0], k).len() as int;
            assert(rows_of(flat(p), k)[n] == e.row_id);
        } else {
            lemma_placed_row(t, e);
            assert(p.drop_first() =~= placed(t, e));
            lemma_rows_concat(pages[0], flat(placed(t, e)), k);
            lemma_rows_concat(pages[0], flat(t), k);
            let r = rows_of(flat(placed(t, e)), k);
            let i = choose|i: int| 0 <= i < r.len() && r[i] == e.row_id;
            assert(rows_of(flat(p), k)[rows_of(pages[0], k).len() + i] == e.row_id);
        }
    }
}

/// A lookup after a removal: the row is gone from its key, other keys are as
/// before.
pub proof fn lemma_remove_found(v: Seq<Seq<Seq<Entry>>>, e: Entry, key: i64)
    requires
        v.len() > 0,
    ensures
        key != e.key ==> found(without_pair(v, e), key) == found(v, key),
        !found(without_pair(v, e), e.key).contains(e.row_id),
        total(without_pair(v, e)) <= total(v),
        flat(v[slot_of(e.key, v.len())]).contains(e) ==> total(without_pair(v, e)) < total(v),
{
    let b = slot_of(e.key, v.len());
    lemma_slot(e.key, v.len());
    lemma_slot(key, v.len());
    lemma_purged_pages(v[b], e);
    lemma_purged(flat(v[b]), e);
    lemma_all_update(v, b, purged_pages(v[b], e));
    let s = purged(flat(v[b]), e);
    lemma_rows_from(s, e.key);
    if rows_of(s, e.key).contains(e.row_id) {
        let i = choose|i: int| 0 <= i < rows_of(s, e.key).len() && rows_of(s, e.key)[i] == e.row_id;
        assert(s.contains(Entry { key: e.key, row_id: rows_of(s, e.key)[i] }));
    }
}

/// The rows of a key come from its entries.
proof fn lemma_rows_from(s: Seq<Entry>, key: i64)
    ensures
        forall|i: int|
            0 <= i < rows_of(s, key).len() ==> s.contains(Entry { key, row_id: #[trigger] rows_of(s, key)[i] }),
    decreases s.len(),
{
    if s.len() > 0 {
        let d = s.drop_last();
        lemma_rows_from(d, key);
        assert forall|i: int| 0 <= i < rows_of(s, key).len() implies s.contains(
            Entry { key, row_id: #[trigger] rows_of(s, key)[i] },
        ) by {
            let e = Entry { key, row_id: rows_of(s, key)[i] };
            if i < rows_of(d, key).len() {
                assert(d.contains(Entry { key, row_id: rows_of(d, key)[i] }));
                let j = choose|j: int| 0 <= j < d.len() && d[j] == e;
                assert(s[j] == e);
            } else {
                assert(s[s.len() - 1] == e);
            }
        }
    }
}

/// The entries of a slot, in insertion order, after filling empty slots.
proof fn lemma_filled(n: nat, s: Seq<Entry>, b: int)
    requires
        0 <= b < n,
    ensures
        with_pairs(empty_slots(n), s).len() == n,
        packed(with_pairs(empty_slots(n), s)[b]),
        with_pairs(empty_slots(n), s)[b].len() > 0,
        forall|k: i64|
            slot_of(k, n) == b ==> #[trigger] rows_of(flat(with_pairs(empty_slots(n), s)[b]), k) == rows_of(s, k),
        total(with_pairs(empty_slots(n), s)) == s.len(),
    decreases s.len(),
{
    let v = with_pairs(empty_slots(n), s);
    if s.len() == 0 {
        lemma_flat_one(Seq::<Entry>::empty());
        lemma_empty_total(n);
    } else {
        let d = s.drop_last();
        let e = s.last();
        let u = with_pairs(empty_slots(n), d);
        lemma_filled(n, d, b);
        let c = slot_of(e.key, n);
        lemma_slot(e.key, n);
        lemma_filled(n, d, c);
        lemma_placed_packed(u[c], e);
        lemma_insert_found(u, e, e.key);
        if c == b {
            assert forall|k: i64| slot_of(k, n) == b implies #[trigger] rows_of(flat(v[b]), k) == rows_of(s, k) by {
                let f = flat(u[b]).push(e);
                assert(f.drop_last() =~= flat(u[b]));
                assert(rows_of(flat(u[b]), k) == rows_of(d, k));
            }
        } else {
            assert(v[b] == u[b]);
            assert forall|k: i64| slot_of(k, n) == b implies #[trigger] rows_of(flat(v[b]), k) == rows_of(s, k) by {
                assert(rows_of(flat(u[b]), k) == rows_of(d, k));
                assert(e.key != k);
            }
        }
    }
}

proof fn lemma_empty_total(n: nat)
    ensures
        total(empty_slots(n)) == 0,
    decreases n,
{
    let v = empty_slots(n);
    if n > 0 {
        lemma_empty_total((n - 1) as nat);
        assert(v.drop_last() =~= empty_slots((n - 1) as nat));
        lemma_flat_one(Seq::<Entry>::empty());
        assert(all_entries(v) =~= all_entries(v.drop_last()));
    }
}

/// Entries stand in the slots of their keys.
pub open spec fn sorted_out(v: Seq<Seq<Seq<Entry>>>) -> bool {
    forall|b: int, i: int|
        0 <= b < v.len() && 0 <= i < flat(v[b]).len() ==> slot_of((#[trigger] flat(v[b])[i]).key, v.len()) == b
}

proof fn lemma_rows_other(s: Seq<Entry>, key: i64)
    requires
        forall|i: int| 0 <= i < s.len() ==> (#[trigger] s[i]).key != key,
    ensures
        rows_of(s, key) == Seq::<u64>::empty(),
    decreases s.len(),
{
    if s.len() > 0 {
        let d = s.drop_last();
        assert forall|i: int| 0 <= i < d.len() implies (#[trigger] d[i]).key != key by {
            assert(d[i] == s[i]);
        }
        lemma_rows_other(d, key);
        assert(s.last() == s[s.len() - 1]);
    }
}

proof fn lemma_all_rows(v: Seq<Seq<Seq<Entry>>>, m: int, key: i64)
    requires
        sorted_out(v),
        v.len() > 0,
        0 <= m <= v.len(),
    ensures
        rows_of(all_entries(v.subrange(0, m)), key) == (if m > slot_of(key, v.len()) {
            found(v, key)
        } else {
            Seq::empty()
        }),
    decreases m,
{
    if m > 0 {
        let u = v.subrange(0, m);
        assert(u.drop_last() =~= v.subrange(0, m - 1));
        assert(u.last() == v[m - 1]);
        lemma_all_rows(v, m - 1, key);
        lemma_rows_concat(all_entries(u.drop_last()), flat(v[m - 1]), key);
        if m - 1 != slot_of(key, v.len()) {
            assert forall|i: int| 0 <= i < flat(v[m - 1]).len() implies (#[trigger] flat(v[m - 1])[i]).key != key by {
                assert(slot_of(flat(v[m - 1])[i].key, v.len()) == m - 1);
            }
            lemma_rows_other(flat(v[m - 1]), key);
        }
        lemma_slot(key, v.len());
        assert(rows_of(all_entries(u), key) =~= (if m > slot_of(key, v.len()) {
            found(v, key)
        } else {
            Seq::empty()
        }));
    }
}

/// Filling new slots with all entries keeps what every lookup finds.
pub proof fn lemma_rehash_found(v: Seq<Seq<Seq<Entry>>>, n: nat, key: i64)
    requires
        sorted_out(v),
        v.len() > 0,
        n > 0,
    ensures
        found(with_pairs(empty_slots(n), all_entries(v)), key) == found(v, key),
        total(with_pairs(empty_slots(n), all_entries(v))) == total(v),
{
    lemma_slot(key, n);
    lemma_filled(n, all_entries(v), slot_of(key, n));
    lemma_all_rows(v, v.len() as int, key);
    assert(v.subrange(0, v.len() as int) =~= v);
    lemma_slot(key, v.len());
}

/// A placed entry is the only new one.
proof fn lemma_placed_from(pages: Seq<Seq<Entry>>, e: Entry, i: int)
    requires
        0 <= i < flat(placed(pages, e)).len(),
    ensures
        flat(placed(pages, e))[i] == e || flat(pages).contains(flat(placed(pages, e))[i]),
    decreases pages.len(),
{
    let p = placed(pages, e);
    if pages.len() == 0 {
        lemma_flat_one(seq![e]);
    } else {
        let t = pages.drop_first();
        let f = flat(pages);
        if pages[0].len() < BUCKET_CAPACITY {
            assert(p.drop_first() =~= t);
            let n = pages[0].len() as int;
            if i < n {
                assert(f[i] == flat(p)[i]);
            } else if i > n {
                assert(f[i - 1] == flat(p)[i]);
            }
        } else {
            assert(p.drop_first() =~= placed(t, e));
            let n = pages[0].len() as int;
            if i < n {
                assert(f[i] == flat(p)[i]);
            } else {
                lemma_placed_from(t, e, i - n);
                let x = flat(placed(t, e))[i - n];
                if x != e {
                    let j = choose|j: int| 0 <= j < flat(t).len() && flat(t)[j] == x;
                    assert(f[n + j] == x);
                }
            }
        }
    }
}

/// Purging adds no entry.
proof fn lemma_purged_from(s: Seq<Entry>, e: Entry, i: int)
    requires
        0 <= i < purged(s, e).len(),
    ensures
        s.contains(purged(s, e)[i]),
    decreases s.len(),
{
    let d = s.drop_last();
    let x = purged(s, e)[i];
    if i < purged(d, e).len() {
        lemma_purged_from(d, e, i);
        let j = choose|j: int| 0 <= j < d.len() && d[j] == x;
        assert(s[j] == x);
    } else {
        assert(s[s.len() - 1] == x);
    }
}

proof fn lemma_sorted_insert(v: Seq<Seq<Seq<Entry>>>, e: Entry)
    requires
        v.len() > 0,
        sorted_out(v),
    ensures
        sorted_out(with_pair(v, e)),
        sorted_out(without_pair(v, e)),
{
    let c = slot_of(e.key, v.len());
    lemma_slot(e.key, v.len());
    let u = with_pair(v, e);
    assert forall|b: int, i: int| 0 <= b < u.len() && 0 <= i < flat(u[b]).len() implies slot_of(
        (#[trigger] flat(u[b])[i]).key,
        u.len(),
    ) == b by {
        if b == c {
            lemma_placed_from(v[b], e, i);
            let x = flat(u[b])[i];
            if x != e {
                let j = choose|j: int| 0 <= j < flat(v[b]).len() && flat(v[b])[j] == x;
                assert(slot_of(flat(v[b])[j].key, v.len()) == b);
            }
        } else {
            assert(slot_of(flat(v[b])[i].key, v.len()) == b);
        }
    }
    let w = without_pair(v, e);
    assert forall|b: int, i: int| 0 <= b < w.len() && 0 <= i < flat(w[b]).len() implies slot_of(
        (#[trigger] flat(w[b])[i]).key,
        w.len(),
    ) == b by {
        if b == c {
            lemma_purged_pages(v[b], e);
            lemma_purged_from(flat(v[b]), e, i);
            let x = flat(w[b])[i];
            let j = choose|j: int| 0 <= j < flat(v[b]).len() && flat(v[b])[j] == x;
            assert(slot_of(flat(v[b])[j].key, v.len()) == b);
        } else {
            assert(slot_of(flat(v[b])[i].key, v.len()) == b);
        }
    }
}

// Chains

/// A chain depends only on the buckets of its owner.
proof fn lemma_chain_frame(
    p: Map<usize, BucketModel>,
    q: Map<usize, BucketModel>,
    cur: Option<usize>,
    m: nat,
    n: nat,
    owner: Map<usize, int>,
    b: int,
)
    requires
        m <= n,
        forall|id: usize| #[trigger] p.contains_key(id) ==> id < m,
        forall|id: usize| #[trigger]
            p.contains_key(id) ==> (p[id].overflow matches Some(k) ==> k > id && p.contains_key(k) && owner[k]
                == owner[id]),
        forall|id: usize| #[trigger] p.contains_key(id) && owner[id] == b ==> q[id] == p[id],
        cur matches Some(id) ==> p.contains_key(id) && owner[id] == b,
    ensures
        chain_pages(q, cur, n) == chain_pages(p, cur, m),
    decreases
            match cur {
                Some(id) => m - id,
                None => 0int,
            },
{
    if let Some(id) = cur {
        assert(q[id] == p[id]);
        lemma_chain_frame(p, q, p[id].overflow, m, n, owner, b);
    }
}

/// The buckets of a chain do not depend on the bound.
pub proof fn lemma_chain_bound(t: IndexParts, owner: Map<usize, int>, b: int, n: nat)
    requires
        owned(t, owner),
        0 <= b < t.heads.len(),
        forall|id: usize| #[trigger] t.pool.contains_key(id) ==> id < n,
    ensures
        chain_pages(t.pool, t.heads[b].overflow, n) == chain_pages(t.pool, t.heads[b].overflow, t.next),
{
    let h = t.heads[b];
    if n <= t.next {
        lemma_chain_frame(t.pool, t.pool, h.overflow, n, t.next, owner, b);
    } else {
        lemma_chain_frame(t.pool, t.pool, h.overflow, t.next, n, owner, b);
    }
}

/// A hash index keyed on `i64`.
#[derive(Debug, Clone)]
pub struct HashIndex {
    pub buckets: Vec<Bucket>,
    pub overflow: BTreeMap<usize, Bucket>,
    pub next_overflow: usize,
    pub len: usize,
}

/// The models of a list of buckets.
pub open spec fn head_models(s: Seq<Bucket>) -> Seq<BucketModel> {
    s.map_values(|b: Bucket| b.model())
}

/// The models of the overflow buckets.
pub open spec fn pool_models(m: Map<usize, Bucket>) -> Map<usize, BucketModel> {
    Map::new(|id: usize| m.contains_key(id), |id: usize| m[id].model())
}

impl HashIndex {
    pub open spec fn parts(&self) -> IndexParts {
        IndexParts {
            heads: head_models(self.buckets@),
            pool: pool_models(self.overflow@),
            next: self.next_overflow as nat,
            len: self.len as nat,
        }
    }

    /// The chains are sound.
    pub open spec fn wf(&self) -> bool {
        index_ok(self.parts())
    }

    /// The entries, slot by slot and bucket by bucket.
    pub open spec fn view(&self) -> Seq<Seq<Seq<Entry>>> {
        index_pages(self.parts())
    }

    pub fn new(bucket_count: usize) -> (r: HashIndex)
        ensures
            r.wf(),
            r@ == empty_slots(if bucket_count < 4 {
                4
            } else {
                bucket_count as nat
            }),
            r.len == 0,
            r.next_overflow == 0,
            r.overflow@ == Map::<usize, Bucket>::empty(),
    {
        let n: usize = if bucket_count < 4 {
            4
        } else {
            bucket_count
        };
        let mut buckets: Vec<Bucket> = Vec::new();
        let mut i: usize = 0;
        while i < n
            invariant
                i <= n,
                buckets@.len() == i,
                forall|j: int|
                    0 <= j < i ==> (#[trigger] buckets@[j]).entries@ == Seq::<Entry>::empty()
                        && buckets@[j].overflow is None,
            decreases n - i,
        {
            buckets.push(Bucket::new());
            i += 1;
        }
        let r = HashIndex { buckets, overflow: BTreeMap::new(), next_overflow: 0, len: 0 };
        proof {
            assert forall|b: int| 0 <= b < n implies slot_pages(r.parts(), b) == seq![Seq::<Entry>::empty()] by {
                assert(r.parts().heads[b] == r.buckets@[b].model());
                assert(slot_pages(r.parts(), b) =~= seq![Seq::<Entry>::empty()]);
            }
            assert(r@ =~= empty_slots(n as nat));
            lemma_empty_total(n as nat);
            lemma_flat_one(Seq::<Entry>::empty());
            assert(owned(r.parts(), Map::empty())) by {
                assert forall|b: int| 0 <= b < n implies (#[trigger] r.parts().heads[b]).overflow is None by {
                    assert(r.parts().heads[b] == r.buckets@[b].model());
                }
            }
        }
        r
    }

    pub fn len(&self) -> (r: usize)
        ensures
            r == self.len,
    {
        self.len
    }

    pub fn is_empty(&self) -> (r: bool)
        ensures
            r == (self.len == 0),
    {
        self.len == 0
    }

    pub fn bucket_count(&self) -> (r: usize)
        ensures
            r == self@.len(),
    {
        self.buckets.len()
    }

    /// FNV-1a-derived mix for an i64 key.
    fn bucket_of(&self, key: i64) -> (b: usize)
        requires
            self.buckets@.len() > 0,
        ensures
            b == slot_of(key, self.buckets@.len()),
            b < self.buckets@.len(),
    {
        let mut bytes: Vec<u8> = Vec::new();
        bytes::put_i64(&mut bytes, key);
        assert(bytes@ =~= bytes::le_i64(key));
        let h: u64 = bloom::fnv1a(bytes.as_slice());
        (h as usize) % self.buckets.len()
    }

    /// Insert a `(key, row_id)` pair.
    pub fn insert(&mut self, key: i64, row_id: u64)
        requires
            old(self).wf(),
            old(self).next_overflow < usize::MAX,
            old(self).len < usize::MAX,
        ensures
            final(self).wf(),
            final(self)@ == with_pair(old(self)@, Entry { key, row_id }),
            final(self).len == old(self).len + 1,
            old(self).next_overflow <= final(self).next_overflow <= old(self).next_overflow + 1,
    {
        let b = self.bucket_of(key);
        proof {
            lemma_insert_found(self@, Entry { key, row_id }, key);
            lemma_sorted_insert(self@, Entry { key, row_id });
        }
        self.insert_into(b, key, row_id);
        let ghost t1 = self.parts();
        self.len = self.len + 1;
        proof {
            let t = self.parts();
            assert(self@ =~= with_pair(old(self)@, Entry { key, row_id }));
            let owner = choose|owner: Map<usize, int>| owned(t1, owner);
            assert(owned(t, owner));
            lemma_covered(t1, t);
        }
    }

    #[verifier::spinoff_prover]
    #[verifier::rlimit(60)]
    fn insert_into(&mut self, bucket_idx: usize, key: i64, row_id: u64)
        requires
            old(self).wf(),
            bucket_idx < old(self).buckets@.len(),
            old(self).next_overflow < usize::MAX,
        ensures
            final(self).buckets@.len() == old(self).buckets@.len(),
            exists|owner: Map<usize, int>| owned(final(self).parts(), owner),
            covered(final(self).parts()),
            final(self)@ == old(self)@.update(
                bucket_idx as int,
                placed(old(self)@[bucket_idx as int], Entry { key, row_id }),
            ),
            final(self).len == old(self).len,
            old(self).next_overflow <= final(self).next_overflow <= old(self).next_overflow + 1,
    {
        let ghost t0 = self.parts();
        let ghost b = bucket_idx as int;
        let ghost e = Entry { key, row_id };
        let ghost owner = choose|owner: Map<usize, int>| owned(t0, owner);
        assert(t0.heads[b] == self.buckets@[b].model());
        let mut head = self.buckets.remove(bucket_idx);
        let ghost h0 = head.model();
        assert(h0 == t0.heads[b]);
        let ghost p0 = slot_pages(t0, b);
        let ghost tail0 = chain_pages(t0.pool, h0.overflow, t0.next);
        let ghost mut owner2 = owner;
        assert(p0.drop_first() =~= tail0);
        if head.entries.len() < BUCKET_CAPACITY {
            head.entries.push(Entry { key, row_id });
        } else {
            match head.overflow {
                Some(id) => {
                    let Ghost(o2) = self.insert_overflow(id, key, row_id, Ghost(owner), Ghost(b), Ghost(t0.heads));
                    proof {
                        owner2 = o2;
                    }
                },
                None => {
                    let id = self.next_overflow;
                    self.next_overflow = id + 1;
                    let mut ob = Bucket::new();
                    ob.entries.push(Entry { key, row_id });
                    let ghost m = ob.model();
                    self.overflow.insert(id, ob);
                    head.overflow = Some(id);
                    proof {
                        owner2 = owner.insert(id, b);
                        let q = pool_models(self.overflow@);
                        assert(q =~= t0.pool.insert(id, m));
                        assert(m.entries =~= seq![e]);
                        assert(chain_pages(q, Some(id), (id + 1) as nat) =~= seq![seq![e]]);
                        assert(tail0 =~= Seq::<Seq<Entry>>::empty());
                        assert(!t0.pool.contains_key(id));
                    }
                },
            }
        }
        let ghost h1 = head.model();
        self.buckets.insert(bucket_idx, head);
        proof {
            let t1 = self.parts();
            assert(t1.heads =~= t0.heads.update(b, h1));
            assert(owned(t1, owner2)) by {
                assert forall|c: int| 0 <= c < t1.heads.len() implies ((#[trigger] t1.heads[c]).overflow matches Some(
                    n,
                ) ==> t1.pool.contains_key(n) && owner2[n] == c) by {
                    if c != b {
                        assert(t1.heads[c] == t0.heads[c]);
                    }
                }
            }
            let p1 = slot_pages(t1, b);
            assert(p1 =~= placed(p0, e)) by {
                assert(p1.drop_first() =~= chain_pages(t1.pool, h1.overflow, t1.next));
                assert(p0[0] == h0.entries);
                if h0.entries.len() < BUCKET_CAPACITY {
                    assert(t1.pool == t0.pool);
                    assert(placed(p0, e) =~= seq![h1.entries] + tail0);
                } else {
                    assert(placed(p0, e) =~= seq![h0.entries] + placed(tail0, e));
                    if h0.overflow is None {
                        assert(placed(tail0, e) =~= seq![seq![e]]);
                    }
                }
            }
            assert forall|c: int| 0 <= c < t0.heads.len() && c != b implies slot_pages(t1, c) == slot_pages(t0, c) by {
                assert(t1.heads[c] == t0.heads[c]);
                assert forall|id: usize| #[trigger] t0.pool.contains_key(id) && owner[id] == c implies t1.pool[id]
                    == t0.pool[id] by {}
                lemma_chain_frame(t0.pool, t1.pool, t0.heads[c].overflow, t0.next, t1.next, owner, c);
            }
            assert(self@ =~= old(self)@.update(b, placed(old(self)@[b], e)));
            assert(links_kept(t0, t1)) by {
                assert forall|c: int| 0 <= c < t0.heads.len() && (#[trigger] t0.heads[c]).overflow is Some implies t1.heads[c].overflow
                    == t0.heads[c].overflow by {}
                assert forall|id: usize| #[trigger] t1.pool.contains_key(id) implies t0.pool.contains_key(id) || linked(
                    t1,
                    id,
                ) by {
                    if !t0.pool.contains_key(id) && h0.overflow is None {
                        assert(t1.heads[b].overflow == Some(id));
                    }
                }
            }
            lemma_covered(t0, t1);
        }
    }

    /// Insert into the overflow chain starting at `cur`.
    fn insert_overflow(
        &mut self,
        cur: usize,
        key: i64,
        row_id: u64,
        Ghost(owner): Ghost<Map<usize, int>>,
        Ghost(b): Ghost<int>,
        Ghost(heads): Ghost<Seq<BucketModel>>,
    ) -> (r: Ghost<Map<usize, int>>)
        requires
            owned(IndexParts { heads, ..old(self).parts() }, owner),
            old(self).overflow@.contains_key(cur),
            owner[cur] == b,
            old(self).next_overflow < usize::MAX,
        ensures
            owned(IndexParts { heads, ..final(self).parts() }, r@),
            final(self).buckets == old(self).buckets,
            final(self).len == old(self).len,
            old(self).next_overflow <= final(self).next_overflow <= old(self).next_overflow + 1,
            chain_pages(final(self).parts().pool, Some(cur), final(self).parts().next) == placed(
                chain_pages(old(self).parts().pool, Some(cur), old(self).parts().next),
                Entry { key, row_id },
            ),
            forall|id: usize| #[trigger]
                old(self).parts().pool.contains_key(id) && (id < cur || owner[id] != b)
                    ==> final(self).parts().pool[id] == old(self).parts().pool[id],
            forall|id: usize| #[trigger]
                old(self).parts().pool.contains_key(id) ==> final(self).parts().pool.contains_key(id) && r@[id]
                    == owner[id] && (old(self).parts().pool[id].overflow is Some ==> final(self).parts().pool[id].overflow
                    == old(self).parts().pool[id].overflow),
            forall|id: usize| #[trigger]
                final(self).parts().pool.contains_key(id) ==> old(self).parts().pool.contains_key(id) || chained(
                    final(self).parts().pool,
                    id,
                ),
        decreases old(self).next_overflow - cur,
    {
        let ghost t0 = IndexParts { heads, ..self.parts() };
        let ghost p = t0.pool;
        let ghost e = Entry { key, row_id };
        let ghost c0 = chain_pages(p, Some(cur), t0.next);
        assert(p.contains_key(cur));
        match self.overflow.remove(&cur) {
            Some(mut ob) => {
                let ghost m0 = ob.model();
                assert(p[cur] == m0);
                let ghost rest0 = match m0.overflow {
                    None => Seq::<Seq<Entry>>::empty(),
                    Some(n) => chain_pages(p, Some(n), t0.next),
                };
                assert(c0 =~= seq![m0.entries] + rest0);
                assert(c0.drop_first() =~= rest0);
                if ob.entries.len() < BUCKET_CAPACITY {
                    ob.entries.push(Entry { key, row_id });
                    let ghost m1 = ob.model();
                    self.overflow.insert(cur, ob);
                    proof {
                        let t1 = IndexParts { heads, ..self.parts() };
                        assert(t1.pool =~= p.insert(cur, m1));
                        assert(owned(t1, owner));
                        if let Some(n) = m0.overflow {
                            lemma_tail_frame(t0, t1, owner, n, cur);
                        }
                        assert(chain_pages(t1.pool, Some(cur), t1.next) =~= placed(c0, e));
                    }
                    Ghost(owner)
                } else {
                    match ob.overflow {
                        None => {
                            let id = self.next_overflow;
                            self.next_overflow = id + 1;
                            let mut nb = Bucket::new();
                            nb.entries.push(Entry { key, row_id });
                            let ghost m2 = nb.model();
                            ob.overflow = Some(id);
                            let ghost m1 = ob.model();
                            self.overflow.insert(id, nb);
                            self.overflow.insert(cur, ob);
                            proof {
                                let t1 = IndexParts { heads, ..self.parts() };
                                assert(!p.contains_key(id));
                                assert(t1.pool =~= p.insert(id, m2).insert(cur, m1));
                                assert(owned(t1, owner.insert(id, b)));
                                assert(t1.pool.contains_key(cur) && t1.pool[cur].overflow == Some(id));
                                assert(m2.entries =~= seq![e]);
                                assert(chain_pages(t1.pool, Some(id), t1.next) =~= seq![seq![e]]);
                                assert(rest0 =~= Seq::<Seq<Entry>>::empty());
                                assert(placed(rest0, e) =~= seq![seq![e]]);
                                assert(placed(c0, e) =~= seq![m0.entries] + seq![seq![e]]);
                                assert(chain_pages(t1.pool, Some(cur), t1.next) =~= seq![m0.entries] + seq![seq![e]]);
                            }
                            Ghost(owner.insert(id, b))
                        },
                        Some(n) => {
                            self.overflow.insert(cur, ob);
                            proof {
                                assert(pool_models(self.overflow@) =~= p);
                            }
                            let Ghost(o2) = self.insert_overflow(n, key, row_id, Ghost(owner), Ghost(b), Ghost(heads));
                            proof {
                                let t1 = IndexParts { heads, ..self.parts() };
                                assert(t1.pool[cur] == m0);
                                assert(chain_pages(t1.pool, Some(cur), t1.next) =~= seq![m0.entries] + placed(rest0, e));
                                assert(placed(c0, e) =~= seq![m0.entries] + placed(rest0, e));
                            }
                            Ghost(o2)
                        },
                    }
                }
            },
            None => Ghost(owner),
        }
    }

    /// Look up all row ids for a key.
    pub fn lookup(&self, key: i64) -> (out: Vec<u64>)
        requires
            self.wf(),
        ensures
            out@ == found(self@, key),
    {
        let b = self.bucket_of(key);
        let ghost t = self.parts();
        let ghost owner = choose|owner: Map<usize, int>| owned(t, owner);
        let ghost tail = chain_pages(t.pool, t.heads[b as int].overflow, t.next);
        let mut out: Vec<u64> = Vec::new();
        assert(t.heads[b as int] == self.buckets@[b as int].model());
        push_rows(&mut out, &self.buckets[b].entries, key);
        let mut cur: Option<usize> = self.buckets[b].overflow;
        let ghost all = found(self@, key);
        proof {
            let p = slot_pages(t, b as int);
            assert(self@[b as int] == p);
            assert(p.drop_first() =~= tail);
            lemma_rows_concat(p[0], flat(tail), key);
            assert(out@ + rows_of(flat(tail), key) =~= all);
        }
        while cur.is_some()
            invariant
                t == self.parts(),
                owned(t, owner),
                cur matches Some(id) ==> t.pool.contains_key(id),
                out@ + rows_of(flat(chain_pages(t.pool, cur, t.next)), key) == all,
            decreases
                    match cur {
                        Some(id) => t.next - id,
                        None => 0int,
                    },
        {
            let id: usize = cur.unwrap();
            let ghost o = out@;
            let ghost c = chain_pages(t.pool, cur, t.next);
            assert(t.pool.contains_key(id));
            match self.overflow.get(&id) {
                Some(ob) => {
                    assert(t.pool[id] == ob.model());
                    push_rows(&mut out, &ob.entries, key);
                    proof {
                        let rest = chain_pages(t.pool, ob.overflow, t.next);
                        assert(c.drop_first() =~= rest);
                        lemma_rows_concat(ob.entries@, flat(rest), key);
                        assert(out@ + rows_of(flat(rest), key) =~= o + rows_of(flat(c), key));
                        if ob.overflow is None {
                            assert(out@ + rows_of(flat(rest), key) =~= out@);
                        }
                    }
                    cur = ob.overflow;
                },
                None => {
                    cur = None;
                },
            }
        }
        assert(out@ + rows_of(flat(chain_pages(t.pool, cur, t.next)), key) =~= out@);
        out
    }

    /// Remove a `(key, row_id)` pair. Returns `true` if found.
    pub fn remove(&mut self, key: i64, row_id: u64) -> (removed: bool)
        requires
            old(self).wf(),
        ensures
            final(self).wf(),
            final(self)@ == without_pair(old(self)@, Entry { key, row_id }),
            removed == flat(old(self)@[slot_of(key, old(self)@.len())]).contains(Entry { key, row_id }),
            final(self).len == (if removed {
                old(self).len - 1
            } else {
                old(self).len as int
            }),
            final(self).next_overflow == old(self).next_overflow,
    {
        let bi = self.bucket_of(key);
        let ghost t0 = self.parts();
        let ghost b = bi as int;
        let ghost e = Entry { key, row_id };
        let ghost owner = choose|owner: Map<usize, int>| owned(t0, owner);
        let ghost p0 = slot_pages(t0, b);
        proof {
            assert(self@[b] == p0);
            lemma_remove_found(self@, e, key);
            lemma_sorted_insert(self@, e);
            lemma_purged_pages(p0, e);
            lemma_purged(flat(p0), e);
        }
        assert(t0.heads[b] == self.buckets@[b].model());
        let mut head = self.buckets.remove(bi);
        let ghost h0 = head.model();
        let ghost tail0 = chain_pages(t0.pool, h0.overflow, t0.next);
        assert(p0.drop_first() =~= tail0);
        let before: usize = head.entries.len();
        head.entries = without(&head.entries, key, row_id);
        let ghost h1 = head.model();
        proof {
            lemma_purged(h0.entries, e);
            assert(flat(p0) == h0.entries + flat(tail0));
            lemma_concat_contains(h0.entries, flat(tail0), e);
        }
        let mut removed: bool = head.entries.len() < before;
        match head.overflow {
            Some(id) => {
                let more = self.remove_chain(id, key, row_id, Ghost(owner), Ghost(b), Ghost(t0.heads));
                removed = removed || more;
            },
            None => {
                assert(flat(tail0) =~= Seq::<Entry>::empty());
            },
        }
        self.buckets.insert(bi, head);
        proof {
            let t1 = self.parts();
            assert(t1.heads =~= t0.heads.update(b, h1));
            assert(owned(t1, owner)) by {
                assert forall|c: int| 0 <= c < t1.heads.len() implies ((#[trigger] t1.heads[c]).overflow matches Some(
                    n,
                ) ==> t1.pool.contains_key(n) && owner[n] == c) by {
                    if c != b {
                        assert(t1.heads[c] == t0.heads[c]);
                    }
                }
            }
            let p1 = slot_pages(t1, b);
            assert(p1 =~= purged_pages(p0, e)) by {
                assert(purged_pages(p0, e) =~= seq![purged(h0.entries, e)] + purged_pages(tail0, e));
                if h0.overflow is None {
                    assert(purged_pages(tail0, e) =~= Seq::<Seq<Entry>>::empty());
                }
            }
            assert forall|c: int| 0 <= c < t0.heads.len() && c != b implies slot_pages(t1, c) == slot_pages(t0, c) by {
                assert(t1.heads[c] == t0.heads[c]);
                lemma_chain_frame(t0.pool, t1.pool, t0.heads[c].overflow, t0.next, t1.next, owner, c);
            }
            assert(self@ =~= without_pair(old(self)@, e));
            if removed {
                assert(total(self@) < total(old(self)@));
            }
        }
        if removed {
            self.len = self.len - 1;
        }
        proof {
            assert(owned(self.parts(), owner));
            assert(links_kept(t0, self.parts())) by {
                let u = self.parts();
                assert forall|c: int| 0 <= c < t0.heads.len() && (#[trigger] t0.heads[c]).overflow is Some implies u.heads[c].overflow
                    == t0.heads[c].overflow by {}
                assert forall|id: usize| #[trigger] u.pool.contains_key(id) implies t0.pool.contains_key(id) || linked(
                    u,
                    id,
                ) by {
                    assert(u.pool.dom().contains(id));
                }
            }
            lemma_covered(t0, self.parts());
            assert(self@ =~= without_pair(old(self)@, e));
        }
        removed
    }

    /// Remove a pair from the overflow chain starting at `cur`.
    fn remove_chain(
        &mut self,
        cur: usize,
        key: i64,
        row_id: u64,
        Ghost(owner): Ghost<Map<usize, int>>,
        Ghost(b): Ghost<int>,
        Ghost(heads): Ghost<Seq<BucketModel>>,
    ) -> (removed: bool)
        requires
            owned(IndexParts { heads, ..old(self).parts() }, owner),
            old(self).overflow@.contains_key(cur),
            owner[cur] == b,
        ensures
            owned(IndexParts { heads, ..final(self).parts() }, owner),
            final(self).buckets == old(self).buckets,
            final(self).len == old(self).len,
            final(self).next_overflow == old(self).next_overflow,
            chain_pages(final(self).parts().pool, Some(cur), final(self).parts().next) == purged_pages(
                chain_pages(old(self).parts().pool, Some(cur), old(self).parts().next),
                Entry { key, row_id },
            ),
            removed == flat(chain_pages(old(self).parts().pool, Some(cur), old(self).parts().next)).contains(
                Entry { key, row_id },
            ),
            forall|id: usize| #[trigger]
                old(self).parts().pool.contains_key(id) && (id < cur || owner[id] != b)
                    ==> final(self).parts().pool[id] == old(self).parts().pool[id],
            final(self).parts().pool.dom() == old(self).parts().pool.dom(),
            forall|id: usize| #[trigger]
                old(self).parts().pool.contains_key(id) ==> final(self).parts().pool[id].overflow
                    == old(self).parts().pool[id].overflow,
        decreases old(self).next_overflow - cur,
    {
        let ghost t0 = IndexParts { heads, ..self.parts() };
        let ghost p = t0.pool;
        let ghost e = Entry { key, row_id };
        let ghost c0 = chain_pages(p, Some(cur), t0.next);
        assert(p.contains_key(cur));
        match self.overflow.remove(&cur) {
            Some(mut ob) => {
                let ghost m0 = ob.model();
                assert(p[cur] == m0);
                let ghost rest0 = match m0.overflow {
                    None => Seq::<Seq<Entry>>::empty(),
                    Some(n) => chain_pages(p, Some(n), t0.next),
                };
                assert(c0 =~= seq![m0.entries] + rest0);
                assert(c0.drop_first() =~= rest0);
                let before: usize = ob.entries.len();
                ob.entries = without(&ob.entries, key, row_id);
                let ghost m1 = ob.model();
                proof {
                    lemma_purged(m0.entries, e);
                    lemma_concat_contains(m0.entries, flat(rest0), e);
                }
                let mut removed: bool = ob.entries.len() < before;
                let next: Option<usize> = ob.overflow;
                self.overflow.insert(cur, ob);
                let ghost t1 = IndexParts { heads, ..self.parts() };
                proof {
                    assert(t1.pool =~= p.insert(cur, m1));
                    assert(t1.pool.dom() =~= p.dom());
                    assert(owned(t1, owner));
                    assert(purged_pages(c0, e) =~= seq![purged(m0.entries, e)] + purged_pages(rest0, e));
                    if let Some(n) = next {
                        lemma_tail_frame(t0, t1, owner, n, cur);
                    }
                }
                match next {
                    Some(n) => {
                        let more = self.remove_chain(n, key, row_id, Ghost(owner), Ghost(b), Ghost(heads));
                        removed = removed || more;
                        proof {
                            let t2 = IndexParts { heads, ..self.parts() };
                            assert(t2.pool[cur] == m1);
                            assert(chain_pages(t2.pool, Some(cur), t2.next) =~= seq![m1.entries] + purged_pages(
                                rest0,
                                e,
                            ));
                            assert(t2.pool.dom() =~= p.dom());
                        }
                    },
                    None => {
                        proof {
                            assert(purged_pages(rest0, e) =~= Seq::<Seq<Entry>>::empty());
                            assert(flat(rest0) =~= Seq::<Entry>::empty());
                            assert(chain_pages(t1.pool, Some(cur), t1.next) =~= seq![m1.entries] + purged_pages(
                                rest0,
                                e,
                            ));
                        }
                    },
                }
                removed
            },
            None => false,
        }
    }

    /// All entries, slot by slot.
    pub fn iter(&self) -> (out: Vec<Entry>)
        requires
            self.wf(),
        ensures
            out@ == all_entries(self@),
    {
        let ghost t = self.parts();
        let ghost owner = choose|owner: Map<usize, int>| owned(t, owner);
        let mut out: Vec<Entry> = Vec::new();
        let mut i: usize = 0;
        while i < self.buckets.len()
            invariant
                i <= self.buckets@.len(),
                t == self.parts(),
                owned(t, owner),
                out@ == all_entries(self@.subrange(0, i as int)),
            decreases self.buckets.len() - i,
        {
            let ghost o0 = out@;
            assert(t.heads[i as int] == self.buckets@[i as int].model());
            push_entries(&mut out, &self.buckets[i].entries);
            let mut cur: Option<usize> = self.buckets[i].overflow;
            let ghost p = slot_pages(t, i as int);
            proof {
                let tail = chain_pages(t.pool, cur, t.next);
                assert(p.drop_first() =~= tail);
                assert(out@ + flat(tail) =~= o0 + flat(p));
            }
            while cur.is_some()
                invariant
                    t == self.parts(),
                    owned(t, owner),
                    cur matches Some(id) ==> t.pool.contains_key(id),
                    out@ + flat(chain_pages(t.pool, cur, t.next)) == o0 + flat(p),
                decreases
                        match cur {
                            Some(id) => t.next - id,
                            None => 0int,
                        },
            {
                let id: usize = cur.unwrap();
                let ghost o = out@;
                let ghost c = chain_pages(t.pool, cur, t.next);
                assert(t.pool.contains_key(id));
                match self.overflow.get(&id) {
                    Some(ob) => {
                        assert(t.pool[id] == ob.model());
                        push_entries(&mut out, &ob.entries);
                        proof {
                            let rest = chain_pages(t.pool, ob.overflow, t.next);
                            assert(c.drop_first() =~= rest);
                            assert(out@ + flat(rest) =~= o + flat(c));
                            if ob.overflow is None {
                                assert(out@ + flat(rest) =~= out@);
                            }
                        }
                        cur = ob.overflow;
                    },
                    None => {
                        cur = None;
                    },
                }
            }
            proof {
                assert(out@ + flat(chain_pages(t.pool, cur, t.next)) =~= out@);
                let u = self@.subrange(0, i + 1);
                assert(u.drop_last() =~= self@.subrange(0, i as int));
                assert(u.last() == p);
            }
            i += 1;
        }
        assert(self@.subrange(0, i as int) =~= self@);
        out
    }

    /// Rehash into a new bucket count (grow/shrink).
    pub fn rehash(&mut self, new_count: usize)
        requires
            old(self).wf(),
        ensures
            final(self).wf(),
            final(self)@ == with_pairs(
                empty_slots(if new_count < 4 {
                    4
                } else {
                    new_count as nat
                }),
                all_entries(old(self)@),
            ),
            final(self).len == total(old(self)@),
            forall|key: i64| found(final(self)@, key) == found(old(self)@, key),
    {
        proof {
            let n = if new_count < 4 {
                4
            } else {
                new_count as nat
            };
            assert forall|key: i64| found(with_pairs(empty_slots(n), all_entries(self@)), key) == found(
                self@,
                key,
            ) by {
                lemma_rehash_found(self@, n, key);
            }
        }
        let entries = self.iter();
        let mut r = HashIndex::new(new_count);
        let ghost v0 = r@;
        let mut i: usize = 0;
        assert(entries@.subrange(0, 0) =~= Seq::<Entry>::empty());
        while i < entries.len()
            invariant
                i <= entries@.len(),
                r.wf(),
                r@ == with_pairs(v0, entries@.subrange(0, i as int)),
                r.len == i,
                r.next_overflow <= i,
            decreases entries.len() - i,
        {
            let e: Entry = entries[i];
            r.insert(e.key, e.row_id);
            proof {
                let s = entries@.subrange(0, i + 1);
                assert(s.drop_last() =~= entries@.subrange(0, i as int));
                assert(s.last() == e);
            }
            i += 1;
        }
        assert(entries@.subrange(0, i as int) =~= entries@);
        *self = r;
    }

    /// Serialize the buckets and the overflow buckets.
    pub fn encode(&self) -> (out: Vec<u8>)
        ensures
            out@ == index_bytes(self.parts()),
    {
        let mut out: Vec<u8> = Vec::new();
        bytes::put_u32(&mut out, self.buckets.len() as u32);
        let ghost t = self.parts();
        let ghost h = out@;
        let mut i: usize = 0;
        assert(t.heads.skip(0) =~= t.heads);
        while i < self.buckets.len()
            invariant
                i <= self.buckets@.len(),
                t == self.parts(),
                out@ + heads_bytes(t.heads.skip(i as int)) == h + heads_bytes(t.heads),
            decreases self.buckets.len() - i,
        {
            let ghost o = out@;
            put_bucket(&mut out, &self.buckets[i]);
            proof {
                let s = t.heads.skip(i as int);
                assert(s.drop_first() =~= t.heads.skip(i + 1));
                assert(s[0] == self.buckets@[i as int].model());
                assert(out@ + heads_bytes(s.drop_first()) =~= o + heads_bytes(s));
            }
            i += 1;
        }
        assert(out@ + heads_bytes(t.heads.skip(i as int)) =~= out@);
        bytes::put_u32(&mut out, self.overflow.len() as u32);
        assert(t.pool.dom() =~= self.overflow@.dom());
        let ghost h2 = out@;
        let ids = order::keys_size(&self.overflow);
        let mut j: usize = 0;
        assert(ids@.skip(0) =~= ids@);
        while j < ids.len()
            invariant
                j <= ids@.len(),
                t == self.parts(),
                t.pool.dom() == self.overflow@.dom(),
                ids@.to_set() == t.pool.dom(),
                out@ + pool_bytes(t.pool, ids@.skip(j as int)) == h2 + pool_bytes(t.pool, ids@),
            decreases ids.len() - j,
        {
            let ghost o = out@;
            let id: usize = ids[j];
            assert(ids@.to_set().contains(ids@[j as int]));
            assert(t.pool.contains_key(id));
            if let Some(ob) = self.overflow.get(&id) {
                bytes::put_u32(&mut out, id as u32);
                put_bucket(&mut out, ob);
                proof {
                    let s = ids@.skip(j as int);
                    assert(s.drop_first() =~= ids@.skip(j + 1));
                    assert(s[0] == id);
                    assert(t.pool[id] == ob.model());
                    assert(out@ + pool_bytes(t.pool, s.drop_first()) =~= o + pool_bytes(t.pool, s));
                }
            }
            j += 1;
        }
        assert(out@ + pool_bytes(t.pool, ids@.skip(j as int)) =~= out@);
        assert(out@ =~= index_bytes(t));
        out
    }

    /// Read an index back. A list that the buffer cuts short ends where the bytes
    /// do. What was read from elsewhere need not be well-formed:
    /// [`HashIndex::is_sound`] tells.
    pub fn decode(buf: &[u8]) -> (r: Option<HashIndex>)
        ensures
            match r {
                None => index_read(buf@) is None,
                Some(t) => index_read(buf@) == Some(t.parts()),
            },
    {
        if buf.len() < 4 {
            return None;
        }
        let n: u32 = bytes::get_u32(buf, 0);
        let mut pos: usize = 4;
        let mut buckets: Vec<Bucket> = Vec::new();
        let mut i: u32 = 0;
        let ghost all = heads_read(buf@.skip(4), n as nat);
        assert(head_models(buckets@) + all.0 =~= all.0);
        while i < n
            invariant
                i <= n,
                4 <= pos <= buf@.len(),
                n == bytes::u32_at(buf@, 0),
                all == heads_read(buf@.skip(4), n as nat),
                all.0 == head_models(buckets@) + heads_read(buf@.skip(pos as int), (n - i) as nat).0,
                all.1 == heads_read(buf@.skip(pos as int), (n - i) as nat).1,
            decreases n - i,
        {
            let ghost b0 = head_models(buckets@);
            let ghost s = buf@.skip(pos as int);
            match get_bucket(buf, pos) {
                None => {
                    let r = HashIndex { buckets, overflow: BTreeMap::new(), next_overflow: 0, len: 0 };
                    proof {
                        assert(all.0 =~= b0);
                        assert(r.parts().pool =~= Map::<usize, BucketModel>::empty());
                    }
                    return Some(r);
                },
                Some((b, end)) => {
                    let ghost m = b.model();
                    buckets.push(b);
                    proof {
                        assert(head_models(buckets@) =~= b0.push(m));
                        assert(s.skip(end - pos) =~= buf@.skip(end as int));
                        let rest = heads_read(buf@.skip(end as int), (n - i - 1) as nat).0;
                        assert(b0.push(m) + rest =~= b0 + (seq![m] + rest));
                    }
                    pos = end;
                },
            }
            i += 1;
        }
        proof {
            assert(all.0 =~= head_models(buckets@));
        }
        if buf.len() - pos < 4 {
            let r = HashIndex { buckets, overflow: BTreeMap::new(), next_overflow: 0, len: 0 };
            assert(r.parts().pool =~= Map::<usize, BucketModel>::empty());
            return Some(r);
        }
        let ghost s1 = buf@.skip(pos as int);
        proof {
            bytes::lemma_at_skip(buf@, pos as int, 0);
        }
        let count: u32 = bytes::get_u32(buf, pos);
        pos += 4;
        assert(s1.skip(4) =~= buf@.skip(pos as int));
        let mut overflow: BTreeMap<usize, Bucket> = BTreeMap::new();
        let mut max_id: usize = 0;
        let mut j: u32 = 0;
        let ghost all2 = pool_read(s1.skip(4), count as nat, Map::empty(), 0);
        assert(pool_models(overflow@) =~= Map::<usize, BucketModel>::empty());
        while j < count && buf.len() - pos >= 8
            invariant_except_break
                all2 == pool_read(buf@.skip(pos as int), (count - j) as nat, pool_models(overflow@), max_id as nat),
            invariant
                j <= count,
                4 <= pos <= buf@.len(),
                max_id <= u32::MAX,
            ensures
                all2 == (pool_models(overflow@), max_id as nat),
            decreases count - j,
        {
            let ghost s = buf@.skip(pos as int);
            let id: usize = bytes::get_u32(buf, pos) as usize;
            proof {
                bytes::lemma_at_skip(buf@, pos as int, 0);
                assert(s.skip(4) =~= buf@.skip(pos + 4));
            }
            match get_bucket(buf, pos + 4) {
                None => {
                    break;
                },
                Some((b, end)) => {
                    let ghost m0 = pool_models(overflow@);
                    let ghost m = b.model();
                    overflow.insert(id, b);
                    if id > max_id {
                        max_id = id;
                    }
                    proof {
                        assert(pool_models(overflow@) =~= m0.insert(id, m));
                        assert(s.skip(4).skip(end - pos - 4) =~= buf@.skip(end as int));
                    }
                    pos = end;
                },
            }
            j += 1;
        }
        // the number of entries
        let ghost pool = pool_models(overflow@);
        let ghost heads = head_models(buckets@);
        let mut len: usize = 0;
        let mut k: usize = 0;
        while k < buckets.len()
            invariant
                k <= buckets@.len(),
                heads == head_models(buckets@),
                len == heads_total(heads.subrange(0, k as int)),
                all.1 is Some,
                all.1.unwrap().len() >= 4,
                heads == all.0,
                pool == all2.0,
                all == heads_read(buf@.skip(4), n as nat),
                n == bytes::u32_at(buf@, 0),
                buf@.len() >= 4,
                all2 == pool_read(
                    all.1.unwrap().skip(4),
                    bytes::u32_at(all.1.unwrap(), 0) as nat,
                    Map::empty(),
                    0,
                ),
            decreases buckets.len() - k,
        {
            proof {
                let s = heads.subrange(0, k + 1);
                assert(s.drop_last() =~= heads.subrange(0, k as int));
                assert(s.last() == buckets@[k as int].model());
            }
            match len.checked_add(buckets[k].entries.len()) {
                Some(v) => {
                    len = v;
                },
                None => {
                    proof {
                        lemma_heads_total_mono(heads, k + 1);
                    }
                    return None;
                },
            }
            k += 1;
        }
        let ids = order::keys_size(&overflow);
        let mut q: usize = 0;
        assert(pool.dom() =~= overflow@.dom());
        assert(heads.subrange(0, k as int) =~= heads);
        assert(ids@.subrange(0, 0) =~= Seq::<usize>::empty());
        while q < ids.len()
            invariant
                q <= ids@.len(),
                pool == pool_models(overflow@),
                pool.dom() == overflow@.dom(),
                ids@.to_set() == pool.dom(),
                ids@ == order::ascending_size(pool.dom()),
                len == heads_total(heads) + pool_total(pool, ids@.subrange(0, q as int)),
                all.1 is Some,
                all.1.unwrap().len() >= 4,
                heads == all.0,
                pool == all2.0,
                all == heads_read(buf@.skip(4), n as nat),
                n == bytes::u32_at(buf@, 0),
                buf@.len() >= 4,
                all2 == pool_read(
                    all.1.unwrap().skip(4),
                    bytes::u32_at(all.1.unwrap(), 0) as nat,
                    Map::empty(),
                    0,
                ),
            decreases ids.len() - q,
        {
            let id: usize = ids[q];
            proof {
                let s = ids@.subrange(0, q + 1);
                assert(s.drop_last() =~= ids@.subrange(0, q as int));
                assert(ids@.to_set().contains(ids@[q as int]));
                assert(pool.contains_key(id));
            }
            if let Some(ob) = overflow.get(&id) {
                assert(pool[id] == ob.model());
                match len.checked_add(ob.entries.len()) {
                    Some(v) => {
                        len = v;
                    },
                    None => {
                        proof {
                            lemma_pool_total_mono(pool, ids@, q + 1);
                        }
                        return None;
                    },
                }
            }
            q += 1;
        }
        assert(ids@.subrange(0, q as int) =~= ids@);
        if max_id == usize::MAX {
            return None;
        }
        Some(HashIndex { buckets, overflow, next_overflow: max_id + 1, len })
    }
}

/// The entries of a bucket in order.
pub open spec fn pairs_bytes(s: Seq<Entry>) -> Seq<u8>
    decreases s.len(),
{
    if s.len() == 0 {
        Seq::empty()
    } else {
        bytes::le_i64(s[0].key) + bytes::le64(s[0].row_id) + pairs_bytes(s.drop_first())
    }
}

/// Up to `n` entries, as far as the bytes reach.
pub open spec fn pairs_read(s: Seq<u8>, n: nat) -> Seq<Entry>
    decreases n,
{
    if n == 0 || s.len() < 16 {
        Seq::empty()
    } else {
        seq![Entry { key: bytes::i64_at(s, 0), row_id: bytes::u64_at(s, 8) }] + pairs_read(s.skip(16), (n - 1) as nat)
    }
}

/// The stored form of a link.
pub open spec fn link_word(o: Option<usize>) -> u32 {
    match o {
        None => u32::MAX,
        Some(n) => n as u32,
    }
}

/// The bytes of a bucket: entry count, entries, link.
pub open spec fn bucket_bytes(m: BucketModel) -> Seq<u8> {
    bytes::le32(m.entries.len() as u32) + pairs_bytes(m.entries) + bytes::le32(link_word(m.overflow))
}

/// The bucket at the start of the bytes, with its size.
pub open spec fn bucket_read(s: Seq<u8>) -> Option<(BucketModel, nat)> {
    if s.len() < 4 {
        None
    } else {
        let es = pairs_read(s.skip(4), bytes::u32_at(s, 0) as nat);
        let p = 4 + 16 * es.len();
        if s.len() < p + 4 {
            None
        } else {
            let w = bytes::u32_at(s, p as int);
            Some(
                (
                    BucketModel {
                        entries: es,
                        overflow: if w == u32::MAX {
                            None
                        } else {
                            Some(w as usize)
                        },
                    },
                    p + 4,
                ),
            )
        }
    }
}

pub open spec fn heads_bytes(s: Seq<BucketModel>) -> Seq<u8>
    decreases s.len(),
{
    if s.len() == 0 {
        Seq::empty()
    } else {
        bucket_bytes(s[0]) + heads_bytes(s.drop_first())
    }
}

/// Up to `n` buckets, and what follows where all of them are there.
pub open spec fn heads_read(s: Seq<u8>, n: nat) -> (Seq<BucketModel>, Option<Seq<u8>>)
    decreases n,
{
    if n == 0 {
        (Seq::empty(), Some(s))
    } else {
        match bucket_read(s) {
            None => (Seq::empty(), None),
            Some((m, k)) => {
                let r = heads_read(s.skip(k as int), (n - 1) as nat);
                (seq![m] + r.0, r.1)
            },
        }
    }
}

pub open spec fn pool_bytes(p: Map<usize, BucketModel>, ids: Seq<usize>) -> Seq<u8>
    decreases ids.len(),
{
    if ids.len() == 0 {
        Seq::empty()
    } else {
        bytes::le32(ids[0] as u32) + bucket_bytes(p[ids[0]]) + pool_bytes(p, ids.drop_first())
    }
}

/// Up to `n` overflow buckets added to `acc`, with the greatest id.
pub open spec fn pool_read(s: Seq<u8>, n: nat, acc: Map<usize, BucketModel>, top: nat) -> (
    Map<usize, BucketModel>,
    nat,
)
    decreases n,
{
    if n == 0 || s.len() < 8 {
        (acc, top)
    } else {
        let id = bytes::u32_at(s, 0);
        match bucket_read(s.skip(4)) {
            None => (acc, top),
            Some((m, k)) => pool_read(
                s.skip(4).skip(k as int),
                (n - 1) as nat,
                acc.insert(id as usize, m),
                if id > top {
                    id as nat
                } else {
                    top
                },
            ),
        }
    }
}

pub open spec fn heads_total(s: Seq<BucketModel>) -> nat
    decreases s.len(),
{
    if s.len() == 0 {
        0
    } else {
        heads_total(s.drop_last()) + s.last().entries.len()
    }
}

pub open spec fn pool_total(p: Map<usize, BucketModel>, ids: Seq<usize>) -> nat
    decreases ids.len(),
{
    if ids.len() == 0 {
        0
    } else {
        pool_total(p, ids.drop_last()) + p[ids.last()].entries.len()
    }
}

proof fn lemma_heads_total_mono(s: Seq<BucketModel>, n: int)
    requires
        0 <= n <= s.len(),
    ensures
        heads_total(s.subrange(0, n)) <= heads_total(s),
    decreases s.len() - n,
{
    if n == s.len() {
        assert(s.subrange(0, n) =~= s);
    } else {
        assert(s.subrange(0, n + 1).drop_last() =~= s.subrange(0, n));
        lemma_heads_total_mono(s, n + 1);
    }
}

proof fn lemma_pool_total_mono(p: Map<usize, BucketModel>, ids: Seq<usize>, n: int)
    requires
        0 <= n <= ids.len(),
    ensures
        pool_total(p, ids.subrange(0, n)) <= pool_total(p, ids),
    decreases ids.len() - n,
{
    if n == ids.len() {
        assert(ids.subrange(0, n) =~= ids);
    } else {
        assert(ids.subrange(0, n + 1).drop_last() =~= ids.subrange(0, n));
        lemma_pool_total_mono(p, ids, n + 1);
    }
}

/// The bytes of an index.
pub open spec fn index_bytes(t: IndexParts) -> Seq<u8> {
    bytes::le32(t.heads.len() as u32) + heads_bytes(t.heads) + bytes::le32(t.pool.dom().len() as u32) + pool_bytes(
        t.pool,
        order::ascending_size(t.pool.dom()),
    )
}

/// The index in a buffer. Where the bucket list is cut short, the index has the
/// buckets that are there, no overflow buckets and the length zero. There is
/// none where its entries or its ids are more than the machine can count.
pub open spec fn index_read(s: Seq<u8>) -> Option<IndexParts> {
    if s.len() < 4 {
        None
    } else {
        let h = heads_read(s.skip(4), bytes::u32_at(s, 0) as nat);
        match h.1 {
            None => Some(IndexParts { heads: h.0, pool: Map::empty(), next: 0, len: 0 }),
            Some(rest) => if rest.len() < 4 {
                Some(IndexParts { heads: h.0, pool: Map::empty(), next: 0, len: 0 })
            } else {
                let p = pool_read(rest.skip(4), bytes::u32_at(rest, 0) as nat, Map::empty(), 0);
                let n = heads_total(h.0) + pool_total(p.0, order::ascending_size(p.0.dom()));
                if n > usize::MAX || p.1 >= usize::MAX {
                    None
                } else {
                    Some(IndexParts { heads: h.0, pool: p.0, next: p.1 + 1, len: n })
                }
            },
        }
    }
}

fn put_bucket(out: &mut Vec<u8>, b: &Bucket)
    ensures
        final(out)@ == old(out)@ + bucket_bytes(b.model()),
{
    bytes::put_u32(out, b.entries.len() as u32);
    let ghost h = out@;
    let mut i: usize = 0;
    assert(b.entries@.skip(0) =~= b.entries@);
    while i < b.entries.len()
        invariant
            i <= b.entries@.len(),
            out@ + pairs_bytes(b.entries@.skip(i as int)) == h + pairs_bytes(b.entries@),
        decreases b.entries.len() - i,
    {
        let ghost o = out@;
        bytes::put_i64(out, b.entries[i].key);
        bytes::put_u64(out, b.entries[i].row_id);
        proof {
            let s = b.entries@.skip(i as int);
            assert(s.drop_first() =~= b.entries@.skip(i + 1));
            assert(out@ + pairs_bytes(s.drop_first()) =~= o + pairs_bytes(s));
        }
        i += 1;
    }
    assert(out@ + pairs_bytes(b.entries@.skip(i as int)) =~= out@);
    let w: u32 = match b.overflow {
        None => u32::MAX,
        Some(n) => n as u32,
    };
    bytes::put_u32(out, w);
    assert(out@ =~= old(out)@ + bucket_bytes(b.model()));
}

fn get_bucket(buf: &[u8], from: usize) -> (r: Option<(Bucket, usize)>)
    requires
        from <= buf@.len(),
    ensures
        match r {
            None => bucket_read(buf@.skip(from as int)) is None,
            Some((b, end)) => bucket_read(buf@.skip(from as int)) == Some((b.model(), (end - from) as nat)) && from
                <= end <= buf@.len(),
        },
{
    if buf.len() - from < 4 {
        return None;
    }
    let ghost s0 = buf@.skip(from as int);
    let n: u32 = bytes::get_u32(buf, from);
    proof {
        bytes::lemma_at_skip(buf@, from as int, 0);
    }
    let mut pos: usize = from + 4;
    let mut entries: Vec<Entry> = Vec::new();
    let mut i: u32 = 0;
    let ghost all = pairs_read(s0.skip(4), n as nat);
    assert(s0.skip(4) =~= buf@.skip(pos as int));
    assert(entries@ + all =~= all);
    while i < n && buf.len() - pos >= 16
        invariant
            i <= n,
            from + 4 <= pos <= buf@.len(),
            pos == from + 4 + 16 * entries@.len(),
            entries@ + pairs_read(buf@.skip(pos as int), (n - i) as nat) == all,
        decreases n - i,
    {
        let ghost e0 = entries@;
        let ghost s = buf@.skip(pos as int);
        let key: i64 = bytes::get_i64(buf, pos);
        let row_id: u64 = bytes::get_u64(buf, pos + 8);
        entries.push(Entry { key, row_id });
        proof {
            bytes::lemma_at_skip(buf@, pos as int, 0);
            bytes::lemma_at_skip(buf@, pos as int, 8);
            assert(s.skip(16) =~= buf@.skip(pos + 16));
            assert(entries@ + pairs_read(s.skip(16), (n - i - 1) as nat) =~= e0 + pairs_read(s, (n - i) as nat));
        }
        pos += 16;
        i += 1;
    }
    assert(entries@ + pairs_read(buf@.skip(pos as int), (n - i) as nat) =~= entries@);
    if buf.len() - pos < 4 {
        return None;
    }
    proof {
        bytes::lemma_at_skip(buf@, from as int, pos - from);
    }
    let w: u32 = bytes::get_u32(buf, pos);
    let overflow: Option<usize> = if w == u32::MAX {
        None
    } else {
        Some(w as usize)
    };
    Some((Bucket { entries, overflow }, pos + 4))
}

/// The counts and the link of a bucket fit their fields.
pub open spec fn bucket_fits(m: BucketModel) -> bool {
    &&& m.entries.len() <= u32::MAX
    &&& (m.overflow matches Some(n) ==> n < u32::MAX)
}

/// The counts and ids of an index fit their fields.
pub open spec fn index_fits(t: IndexParts) -> bool {
    &&& t.heads.len() <= u32::MAX
    &&& forall|b: int| 0 <= b < t.heads.len() ==> bucket_fits(#[trigger] t.heads[b])
    &&& t.pool.dom().finite()
    &&& t.pool.dom().len() <= u32::MAX
    &&& forall|id: usize| #[trigger] t.pool.contains_key(id) ==> id < u32::MAX && bucket_fits(t.pool[id])
    &&& heads_total(t.heads) + pool_total(t.pool, order::ascending_size(t.pool.dom())) <= usize::MAX
}

proof fn lemma_pairs_read(es: Seq<Entry>, rest: Seq<u8>)
    ensures
        pairs_read(pairs_bytes(es) + rest, es.len()) == es,
        pairs_bytes(es).len() == 16 * es.len(),
    decreases es.len(),
{
    if es.len() > 0 {
        let t = es.drop_first();
        let e = es[0];
        let s = pairs_bytes(es) + rest;
        let tail = pairs_bytes(t) + rest;
        lemma_pairs_read(t, rest);
        bytes::lemma_i64_between(Seq::empty(), e.key, bytes::le64(e.row_id) + tail);
        assert(s =~= Seq::<u8>::empty() + bytes::le_i64(e.key) + (bytes::le64(e.row_id) + tail));
        bytes::lemma_u64_between(bytes::le_i64(e.key), e.row_id, tail);
        assert(s =~= bytes::le_i64(e.key) + bytes::le64(e.row_id) + tail);
        assert(s.skip(16) =~= tail);
        assert(seq![e] + t =~= es);
    }
}

proof fn lemma_bucket_read(m: BucketModel, rest: Seq<u8>)
    requires
        bucket_fits(m),
    ensures
        bucket_read(bucket_bytes(m) + rest) == Some((m, bucket_bytes(m).len())),
        bucket_bytes(m).len() >= 8,
{
    let n = m.entries.len() as u32;
    let w = link_word(m.overflow);
    let pb = pairs_bytes(m.entries);
    let s = bucket_bytes(m) + rest;
    bytes::lemma_u32_between(Seq::empty(), n, pb + bytes::le32(w) + rest);
    assert(s =~= Seq::<u8>::empty() + bytes::le32(n) + (pb + bytes::le32(w) + rest));
    lemma_pairs_read(m.entries, bytes::le32(w) + rest);
    assert(s.skip(4) =~= pb + (bytes::le32(w) + rest));
    bytes::lemma_u32_between(bytes::le32(n) + pb, w, rest);
    assert(s =~= bytes::le32(n) + pb + bytes::le32(w) + rest);
}

proof fn lemma_heads_read(hs: Seq<BucketModel>, rest: Seq<u8>)
    requires
        forall|b: int| 0 <= b < hs.len() ==> bucket_fits(#[trigger] hs[b]),
    ensures
        heads_read(heads_bytes(hs) + rest, hs.len()) == (hs, Some(rest)),
    decreases hs.len(),
{
    let s = heads_bytes(hs) + rest;
    if hs.len() == 0 {
        assert(s =~= rest);
    } else {
        let t = hs.drop_first();
        assert forall|b: int| 0 <= b < t.len() implies bucket_fits(#[trigger] t[b]) by {
            assert(t[b] == hs[b + 1]);
        }
        lemma_heads_read(t, rest);
        lemma_bucket_read(hs[0], heads_bytes(t) + rest);
        assert(s =~= bucket_bytes(hs[0]) + (heads_bytes(t) + rest));
        assert(s.skip(bucket_bytes(hs[0]).len() as int) =~= heads_bytes(t) + rest);
        assert(seq![hs[0]] + t =~= hs);
    }
}

proof fn lemma_pool_read(p: Map<usize, BucketModel>, ids: Seq<usize>, acc: Map<usize, BucketModel>, top: nat)
    requires
        ids.no_duplicates(),
        forall|i: int| 0 <= i < ids.len() ==> (#[trigger] ids[i]) < u32::MAX && bucket_fits(p[ids[i]]),
        top < u32::MAX,
    ensures
        ({
            let r = pool_read(pool_bytes(p, ids), ids.len(), acc, top);
            &&& r.0.dom() == acc.dom().union(ids.to_set())
            &&& forall|x: usize| #[trigger]
                r.0.contains_key(x) ==> r.0[x] == (if ids.contains(x) {
                    p[x]
                } else {
                    acc[x]
                })
            &&& top <= r.1 < u32::MAX
            &&& forall|i: int| 0 <= i < ids.len() ==> (#[trigger] ids[i]) <= r.1
        }),
    decreases ids.len(),
{
    if ids.len() > 0 {
        let t = ids.drop_first();
        let x0 = ids[0];
        let b = bucket_bytes(p[x0]);
        let rest = pool_bytes(p, t);
        let s = pool_bytes(p, ids);
        bytes::lemma_u32_between(Seq::empty(), x0 as u32, b + rest);
        assert(s =~= Seq::<u8>::empty() + bytes::le32(x0 as u32) + (b + rest));
        lemma_bucket_read(p[x0], rest);
        assert(s.skip(4) =~= b + rest);
        assert(s.skip(4).skip(b.len() as int) =~= rest);
        assert forall|i: int| 0 <= i < t.len() implies (#[trigger] t[i]) < u32::MAX && bucket_fits(p[t[i]]) by {
            assert(t[i] == ids[i + 1]);
        }
        let acc2 = acc.insert(x0, p[x0]);
        let top2 = if x0 > top {
            x0 as nat
        } else {
            top
        };
        lemma_pool_read(p, t, acc2, top2);
        let r = pool_read(rest, t.len(), acc2, top2);
        assert forall|x: usize| ids.contains(x) <==> x == x0 || t.contains(x) by {
            if ids.contains(x) {
                let i = choose|i: int| 0 <= i < ids.len() && ids[i] == x;
                if i > 0 {
                    assert(t[i - 1] == x);
                }
            }
            if t.contains(x) {
                let i = choose|i: int| 0 <= i < t.len() && t[i] == x;
                assert(ids[i + 1] == x);
            }
            assert(ids[0] == x0);
        }
        assert(r.0.dom() =~= acc.dom().union(ids.to_set()));
        assert forall|i: int| 0 <= i < ids.len() implies (#[trigger] ids[i]) <= r.1 by {
            if i > 0 {
                assert(t[i - 1] == ids[i]);
            }
        }
    } else {
        assert(acc.dom() =~= acc.dom().union(ids.to_set()));
    }
}

/// An index whose counts and ids fit is read back with its buckets and its
/// overflow buckets; its length is the number of entries on them, and new
/// overflow ids are beyond those in use.
pub proof fn lemma_index_round_trip(t: IndexParts)
    requires
        index_fits(t),
    ensures
        index_read(index_bytes(t)) matches Some(u) && u.heads == t.heads && u.pool == t.pool && u.len == heads_total(
            t.heads,
        ) + pool_total(t.pool, order::ascending_size(t.pool.dom())) && (forall|id: usize| #[trigger]
            t.pool.contains_key(id) ==> id < u.next),
{
    let ids = order::ascending_size(t.pool.dom());
    order::lemma_ascending_set_size(t.pool.dom());
    let s = index_bytes(t);
    let hb = heads_bytes(t.heads);
    let pb = pool_bytes(t.pool, ids);
    let n = t.heads.len() as u32;
    let c = t.pool.dom().len() as u32;
    bytes::lemma_u32_between(Seq::empty(), n, hb + bytes::le32(c) + pb);
    assert(s =~= Seq::<u8>::empty() + bytes::le32(n) + (hb + bytes::le32(c) + pb));
    let rest = bytes::le32(c) + pb;
    lemma_heads_read(t.heads, rest);
    assert(s.skip(4) =~= hb + rest);
    bytes::lemma_u32_between(Seq::empty(), c, pb);
    assert(rest =~= Seq::<u8>::empty() + bytes::le32(c) + pb);
    assert(rest.skip(4) =~= pb);
    assert forall|i: int| 0 <= i < ids.len() implies (#[trigger] ids[i]) < u32::MAX && bucket_fits(t.pool[ids[i]]) by {
        assert(ids.contains(ids[i]));
        assert(t.pool.contains_key(ids[i]));
    }
    lemma_pool_read(t.pool, ids, Map::empty(), 0);
    let r = pool_read(pb, ids.len(), Map::empty(), 0);
    assert(r.0 =~= t.pool) by {
        assert(r.0.dom() =~= t.pool.dom());
        assert forall|x: usize| #[trigger] r.0.contains_key(x) implies r.0[x] == t.pool[x] by {
            assert(ids.to_set().contains(x));
        }
    }
    assert forall|id: usize| #[trigger] t.pool.contains_key(id) implies id < r.1 + 1 by {
        assert(ids.contains(id));
        let i = choose|i: int| 0 <= i < ids.len() && ids[i] == id;
        assert(ids[i] <= r.1);
    }
}

/// What lookups find survives storing and reading back.
pub proof fn lemma_stored_index_found(t: IndexParts, u: IndexParts)
    requires
        index_ok(t),
        u.heads == t.heads,
        u.pool == t.pool,
        forall|id: usize| #[trigger] t.pool.contains_key(id) ==> id < u.next,
    ensures
        index_pages(u) == index_pages(t),
        exists|owner: Map<usize, int>| owned(u, owner),
{
    let owner = choose|owner: Map<usize, int>| owned(t, owner);
    assert(owned(u, owner));
    assert forall|b: int| 0 <= b < t.heads.len() implies slot_pages(u, b) == slot_pages(t, b) by {
        lemma_chain_bound(t, owner, b, u.next);
    }
    assert(index_pages(u) =~= index_pages(t));
}

// Counting

/// The ids of the overflow buckets of a chain.
pub open spec fn chain_ids(pool: Map<usize, BucketModel>, cur: Option<usize>, bound: nat) -> Seq<usize>
    decreases
            match cur {
                Some(id) => if id < bound {
                    bound - id
                } else {
                    0int
                },
                None => 0int,
            },
{
    match cur {
        None => Seq::empty(),
        Some(id) => if id >= bound {
            Seq::empty()
        } else {
            seq![id] + (match pool[id].overflow {
                None => Seq::empty(),
                Some(n) => if n > id {
                    chain_ids(pool, Some(n), bound)
                } else {
                    Seq::empty()
                },
            })
        },
    }
}

proof fn lemma_pool_total_concat(p: Map<usize, BucketModel>, a: Seq<usize>, b: Seq<usize>)
    ensures
        pool_total(p, a + b) == pool_total(p, a) + pool_total(p, b),
    decreases b.len(),
{
    if b.len() == 0 {
        assert(a + b =~= a);
    } else {
        assert((a + b).drop_last() =~= a + b.drop_last());
        lemma_pool_total_concat(p, a, b.drop_last());
    }
}

/// The buckets of a chain: ids that grow, all of one owner, and every link leads
/// on within the chain.
proof fn lemma_chain_ids(t: IndexParts, owner: Map<usize, int>, cur: Option<usize>, b: int)
    requires
        owned(t, owner),
        cur matches Some(id) ==> t.pool.contains_key(id) && owner[id] == b,
    ensures
        ({
            let ids = chain_ids(t.pool, cur, t.next);
            &&& flat(chain_pages(t.pool, cur, t.next)).len() == pool_total(t.pool, ids)
            &&& cur matches Some(id) ==> ids.len() > 0 && ids[0] == id
            &&& forall|i: int|
                0 <= i < ids.len() ==> t.pool.contains_key(#[trigger] ids[i]) && owner[ids[i]] == b && (cur matches Some(
                    id,
                ) && ids[i] >= id)
            &&& ids.no_duplicates()
            &&& forall|i: int|
                0 <= i < ids.len() ==> (t.pool[#[trigger] ids[i]].overflow matches Some(n) ==> ids.contains(n))
        }),
    decreases
            match cur {
                Some(id) => t.next - id,
                None => 0int,
            },
{
    let ids = chain_ids(t.pool, cur, t.next);
    if let Some(id) = cur {
        let next = t.pool[id].overflow;
        lemma_chain_ids(t, owner, next, b);
        let rest = chain_ids(t.pool, next, t.next);
        let pages = chain_pages(t.pool, cur, t.next);
        assert(ids =~= seq![id] + rest);
        assert(pages =~= seq![t.pool[id].entries] + chain_pages(t.pool, next, t.next));
        assert(pages.drop_first() =~= chain_pages(t.pool, next, t.next));
        lemma_pool_total_concat(t.pool, seq![id], rest);
        assert(pool_total(t.pool, seq![id]) == t.pool[id].entries.len()) by {
            reveal_with_fuel(pool_total, 2);
            assert(seq![id].drop_last() =~= Seq::<usize>::empty());
        }
        assert forall|i: int|
            0 <= i < ids.len() implies t.pool.contains_key(#[trigger] ids[i]) && owner[ids[i]] == b && ids[i] >= id by {
            if i > 0 {
                assert(ids[i] == rest[i - 1]);
            }
        }
        assert forall|i: int, j: int| 0 <= i < ids.len() && 0 <= j < ids.len() && i != j implies ids[i] != ids[j] by {
            if i > 0 && j > 0 {
                assert(ids[i] == rest[i - 1] && ids[j] == rest[j - 1]);
            } else if i > 0 {
                assert(ids[i] == rest[i - 1]);
                assert(rest[i - 1] >= next->0);
            } else {
                assert(ids[j] == rest[j - 1]);
                assert(rest[j - 1] >= next->0);
            }
        }
        assert forall|i: int| 0 <= i < ids.len() implies (t.pool[#[trigger] ids[i]].overflow matches Some(n)
            ==> ids.contains(n)) by {
            if let Some(n) = t.pool[ids[i]].overflow {
                if i == 0 {
                    assert(ids[1] == rest[0]);
                } else {
                    assert(ids[i] == rest[i - 1]);
                    let k = rest.index_of(n);
                    assert(ids[k + 1] == n);
                }
            }
        }
    }
}

/// The ids of the chains of the first `n` slots.
pub open spec fn slot_ids(t: IndexParts, n: nat) -> Seq<usize>
    decreases n,
{
    if n == 0 {
        Seq::empty()
    } else {
        slot_ids(t, (n - 1) as nat) + chain_ids(t.pool, t.heads[n - 1].overflow, t.next)
    }
}

proof fn lemma_slot_ids(t: IndexParts, owner: Map<usize, int>, n: nat)
    requires
        owned(t, owner),
        n <= t.heads.len(),
    ensures
        slot_ids(t, n).no_duplicates(),
        forall|i: int|
            0 <= i < slot_ids(t, n).len() ==> t.pool.contains_key(#[trigger] slot_ids(t, n)[i]) && 0
                <= owner[slot_ids(t, n)[i]] < n,
        forall|b: int, id: usize|
            0 <= b < n && #[trigger] chain_ids(t.pool, t.heads[b].overflow, t.next).contains(id) ==> slot_ids(
                t,
                n,
            ).contains(id),
        total(index_pages(t).take(n as int)) == heads_total(t.heads.take(n as int)) + pool_total(t.pool, slot_ids(t, n)),
    decreases n,
{
    if n > 0 {
        let m = (n - 1) as nat;
        let a = slot_ids(t, m);
        let c = chain_ids(t.pool, t.heads[n - 1].overflow, t.next);
        let ids = slot_ids(t, n);
        lemma_slot_ids(t, owner, m);
        lemma_chain_ids(t, owner, t.heads[n - 1].overflow, n - 1);
        lemma_pool_total_concat(t.pool, a, c);
        assert forall|i: int| 0 <= i < ids.len() implies t.pool.contains_key(#[trigger] ids[i]) && 0 <= owner[ids[i]] < n
            && (i < a.len() <==> owner[ids[i]] < m) by {
            if i < a.len() {
                assert(ids[i] == a[i]);
            } else {
                assert(ids[i] == c[i - a.len()]);
            }
        }
        assert forall|i: int, j: int| 0 <= i < ids.len() && 0 <= j < ids.len() && i != j implies ids[i] != ids[j] by {
            if i < a.len() && j < a.len() {
                assert(ids[i] == a[i] && ids[j] == a[j]);
            } else if i >= a.len() && j >= a.len() {
                assert(ids[i] == c[i - a.len()] && ids[j] == c[j - a.len()]);
            }
        }
        assert forall|b: int, id: usize|
            0 <= b < n && #[trigger] chain_ids(t.pool, t.heads[b].overflow, t.next).contains(id) implies ids.contains(id) by {
            if b < m {
                assert(a.contains(id));
                let k = a.index_of(id);
                assert(ids[k] == id);
            } else {
                let k = c.index_of(id);
                assert(ids[a.len() + k] == id);
            }
        }
        let v = index_pages(t);
        assert(v.take(n as int).drop_last() =~= v.take(m as int));
        assert(v.take(n as int).last() == slot_pages(t, n - 1));
        assert(t.heads.take(n as int).drop_last() =~= t.heads.take(m as int));
        let p = slot_pages(t, n - 1);
        assert(p.drop_first() =~= chain_pages(t.pool, t.heads[n - 1].overflow, t.next));
        assert(flat(p) == p[0] + flat(p.drop_first()));
    } else {
        assert(index_pages(t).take(0) =~= Seq::empty());
        assert(t.heads.take(0) =~= Seq::empty());
    }
}

/// Every overflow bucket is in the chain of its owner.
proof fn lemma_in_chain(t: IndexParts, owner: Map<usize, int>, id: usize)
    requires
        owned(t, owner),
        covered(t),
        t.pool.contains_key(id),
    ensures
        0 <= owner[id] < t.heads.len(),
        chain_ids(t.pool, t.heads[owner[id]].overflow, t.next).contains(id),
    decreases id,
{
    assert(linked(t, id));
    if chained(t.pool, id) {
        let j = choose|j: usize| #[trigger] t.pool.contains_key(j) && t.pool[j].overflow == Some(id);
        lemma_in_chain(t, owner, j);
        let b = owner[j];
        lemma_chain_ids(t, owner, t.heads[b].overflow, b);
        let ids = chain_ids(t.pool, t.heads[b].overflow, t.next);
        let k = ids.index_of(j);
        assert(t.pool[ids[k]].overflow == Some(id));
    } else {
        let b = choose|b: int| 0 <= b < t.heads.len() && (#[trigger] t.heads[b]).overflow == Some(id);
        lemma_chain_ids(t, owner, t.heads[b].overflow, b);
        let ids = chain_ids(t.pool, t.heads[b].overflow, t.next);
        assert(ids[0] == id);
    }
}

proof fn lemma_pool_total_same(p: Map<usize, BucketModel>, a: Seq<usize>, b: Seq<usize>)
    requires
        a.no_duplicates(),
        b.no_duplicates(),
        forall|x: usize| a.contains(x) == b.contains(x),
    ensures
        pool_total(p, a) == pool_total(p, b),
    decreases a.len(),
{
    if a.len() == 0 {
        if b.len() > 0 {
            assert(b.contains(b[0]));
            assert(a.contains(b[0]));
        }
    } else {
        let x = a.last();
        assert(a[a.len() - 1] == x);
        assert(b.contains(x));
        let k = b.index_of(x);
        let l = b.subrange(0, k);
        let r = b.subrange(k + 1, b.len() as int);
        let c = l + r;
        let d = a.drop_last();
        assert(b =~= l + (seq![x] + r));
        lemma_pool_total_concat(p, l, seq![x] + r);
        lemma_pool_total_concat(p, seq![x], r);
        lemma_pool_total_concat(p, l, r);
        assert(pool_total(p, seq![x]) == p[x].entries.len()) by {
            reveal_with_fuel(pool_total, 2);
            assert(seq![x].drop_last() =~= Seq::<usize>::empty());
        }
        assert forall|i: int| 0 <= i < c.len() implies c[i] == (if i < k {
            b[i]
        } else {
            b[i + 1]
        }) by {}
        assert(c.no_duplicates());
        assert forall|y: usize| d.contains(y) == c.contains(y) by {
            if d.contains(y) {
                let i = d.index_of(y);
                assert(a[i] == y && y != x);
                assert(b.contains(y));
                let j = b.index_of(y);
                if j < k {
                    assert(c[j] == y);
                } else {
                    assert(c[j - 1] == y);
                }
            }
            if c.contains(y) {
                let i = c.index_of(y);
                let j = if i < k {
                    i
                } else {
                    i + 1
                };
                assert(b[j] == y && y != x);
                assert(a.contains(y));
                let q = a.index_of(y);
                assert(d[q] == y);
            }
        }
        lemma_pool_total_same(p, d, c);
    }
}

/// The entries on all buckets are the entries that lookups and walks reach.
pub proof fn lemma_total(t: IndexParts)
    requires
        exists|owner: Map<usize, int>| owned(t, owner),
        covered(t),
        t.pool.dom().finite(),
    ensures
        total(index_pages(t)) == heads_total(t.heads) + pool_total(t.pool, order::ascending_size(t.pool.dom())),
{
    let owner = choose|owner: Map<usize, int>| owned(t, owner);
    let n = t.heads.len();
    let ids = slot_ids(t, n);
    let all = order::ascending_size(t.pool.dom());
    lemma_slot_ids(t, owner, n);
    order::lemma_ascending_set_size(t.pool.dom());
    assert(index_pages(t).take(n as int) =~= index_pages(t));
    assert(t.heads.take(n as int) =~= t.heads);
    assert forall|x: usize| ids.contains(x) == all.contains(x) by {
        if ids.contains(x) {
            let i = ids.index_of(x);
            assert(t.pool.contains_key(ids[i]));
            assert(all.to_set().contains(x));
        }
        if all.contains(x) {
            assert(all.to_set().contains(x));
            assert(t.pool.contains_key(x));
            lemma_in_chain(t, owner, x);
        }
    }
    lemma_pool_total_same(t.pool, ids, all);
}

/// An index that is stored and read again is sound, finds and walks the same
/// entries in the same buckets, and its length is their number.
pub proof fn lemma_reread(t: IndexParts)
    requires
        index_ok(t),
        index_fits(t),
    ensures
        index_read(index_bytes(t)) matches Some(u) && index_ok(u) && index_pages(u) == index_pages(t) && u.len == total(
            index_pages(u),
        ),
{
    lemma_index_round_trip(t);
    let u = index_read(index_bytes(t))->0;
    lemma_stored_index_found(t, u);
    lemma_total(t);
    lemma_covered(t, u);
}

/// The chain behind a changed bucket is as before.
proof fn lemma_tail_frame(t0: IndexParts, t1: IndexParts, owner: Map<usize, int>, n: usize, cur: usize)
    requires
        owned(t0, owner),
        t0.pool.contains_key(n),
        n > cur,
        t1.next >= t0.next,
        forall|id: usize| #[trigger] t0.pool.contains_key(id) && id > cur ==> t1.pool[id] == t0.pool[id],
    ensures
        chain_pages(t1.pool, Some(n), t1.next) == chain_pages(t0.pool, Some(n), t0.next),
    decreases t0.next - n,
{
    if let Some(m) = t0.pool[n].overflow {
        lemma_tail_frame(t0, t1, owner, m, cur);
    }
}

proof fn lemma_concat_contains(a: Seq<Entry>, b: Seq<Entry>, e: Entry)
    ensures
        (a + b).contains(e) <==> a.contains(e) || b.contains(e),
{
    let s = a + b;
    if s.contains(e) {
        let i = choose|i: int| 0 <= i < s.len() && s[i] == e;
        if i < a.len() {
            assert(a[i] == e);
        } else {
            assert(b[i - a.len()] == e);
        }
    }
    if a.contains(e) {
        let i = choose|i: int| 0 <= i < a.len() && a[i] == e;
        assert(s[i] == e);
    }
    if b.contains(e) {
        let i = choose|i: int| 0 <= i < b.len() && b[i] == e;
        assert(s[a.len() + i] == e);
    }
}

fn push_rows(out: &mut Vec<u64>, entries: &Vec<Entry>, key: i64)
    ensures
        final(out)@ == old(out)@ + rows_of(entries@, key),
{
    let mut i: usize = 0;
    while i < entries.len()
        invariant
            i <= entries@.len(),
            out@ == old(out)@ + rows_of(entries@.subrange(0, i as int), key),
        decreases entries.len() - i,
    {
        proof {
            let s = entries@.subrange(0, i + 1);
            assert(s.drop_last() =~= entries@.subrange(0, i as int));
            assert(s.last() == entries@[i as int]);
        }
        if entries[i].key == key {
            out.push(entries[i].row_id);
        }
        i += 1;
    }
    assert(entries@.subrange(0, i as int) =~= entries@);
}

fn push_entries(out: &mut Vec<Entry>, entries: &Vec<Entry>)
    ensures
        final(out)@ == old(out)@ + entries@,
{
    let mut i: usize = 0;
    while i < entries.len()
        invariant
            i <= entries@.len(),
            out@ == old(out)@ + entries@.subrange(0, i as int),
        decreases entries.len() - i,
    {
        out.push(entries[i]);
        i += 1;
        assert(entries@.subrange(0, i as int) =~= entries@.subrange(0, i - 1).push(entries@[i - 1]));
    }
    assert(entries@.subrange(0, i as int) =~= entries@);
}

/// The entries without a pair.
fn without(entries: &Vec<Entry>, key: i64, row_id: u64) -> (out: Vec<Entry>)
    ensures
        out@ == purged(entries@, Entry { key, row_id }),
{
    let mut out: Vec<Entry> = Vec::new();
    let mut i: usize = 0;
    while i < entries.len()
        invariant
            i <= entries@.len(),
            out@ == purged(entries@.subrange(0, i as int), Entry { key, row_id }),
        decreases entries.len() - i,
    {
        proof {
            let s = entries@.subrange(0, i + 1);
            assert(s.drop_last() =~= entries@.subrange(0, i as int));
            assert(s.last() == entries@[i as int]);
        }
        let e: Entry = entries[i];
        if !(e.key == key && e.row_id == row_id) {
            out.push(e);
        }
        i += 1;
    }
    assert(entries@.subrange(0, i as int) =~= entries@);
    out
}

// Checking

/// Every entry stands in the slot of its key, among `n` slots.
pub open spec fn in_slot(s: Seq<Entry>, b: int, n: nat) -> bool {
    forall|i: int| 0 <= i < s.len() ==> slot_of((#[trigger] s[i]).key, n) == b
}

/// A chain whose ids grow from `lo` on, are none of `s`, and whose entries stand
/// in slot `b`.
pub open spec fn chain_fit(t: IndexParts, cur: Option<usize>, b: int, lo: int, s: Set<usize>) -> bool
    decreases t.next - lo,
{
    match cur {
        None => true,
        Some(id) => {
            &&& t.pool.contains_key(id)
            &&& lo < id < t.next
            &&& !s.contains(id)
            &&& in_slot(t.pool[id].entries, b, t.heads.len())
            &&& chain_fit(t, t.pool[id].overflow, b, id as int, s)
        },
    }
}

/// The chains of the first `n` slots fit, and share no bucket.
pub open spec fn slots_fit(t: IndexParts, n: nat) -> bool {
    forall|b: int|
        0 <= b < n ==> in_slot((#[trigger] t.heads[b]).entries, b, t.heads.len()) && chain_fit(
            t,
            t.heads[b].overflow,
            b,
            -1,
            slot_ids(t, b as nat).to_set(),
        )
}

/// What a chain that fits gives.
proof fn lemma_chain_fit(t: IndexParts, cur: Option<usize>, b: int, lo: int, s: Set<usize>)
    requires
        chain_fit(t, cur, b, lo, s),
    ensures
        ({
            let ids = chain_ids(t.pool, cur, t.next);
            &&& forall|i: int|
                0 <= i < ids.len() ==> t.pool.contains_key(#[trigger] ids[i]) && lo < ids[i] < t.next && !s.contains(ids[i])
            &&& forall|i: int|
                0 <= i < ids.len() ==> (t.pool[#[trigger] ids[i]].overflow matches Some(n) ==> n > ids[i] && ids.contains(n))
            &&& forall|i: int| 0 <= i < ids.len() ==> cur == Some(#[trigger] ids[i]) || chained(t.pool, ids[i])
            &&& cur matches Some(id) ==> ids.contains(id)
            &&& in_slot(flat(chain_pages(t.pool, cur, t.next)), b, t.heads.len())
        }),
    decreases t.next - lo,
{
    if let Some(id) = cur {
        let next = t.pool[id].overflow;
        lemma_chain_fit(t, next, b, id as int, s);
        let ids = chain_ids(t.pool, cur, t.next);
        let rest = chain_ids(t.pool, next, t.next);
        assert(ids =~= seq![id] + rest);
        assert(ids[0] == id);
        assert forall|i: int| 0 <= i < ids.len() implies t.pool.contains_key(#[trigger] ids[i]) && lo < ids[i] < t.next
            && !s.contains(ids[i]) && (cur == Some(ids[i]) || chained(t.pool, ids[i])) by {
            if i > 0 {
                assert(ids[i] == rest[i - 1]);
                if next == Some(rest[i - 1]) {
                    assert(t.pool.contains_key(id) && t.pool[id].overflow == Some(ids[i]));
                }
            }
        }
        assert forall|i: int| 0 <= i < ids.len() implies (t.pool[#[trigger] ids[i]].overflow matches Some(n) ==> n > ids[i]
            && ids.contains(n)) by {
            if let Some(n) = t.pool[ids[i]].overflow {
                if i > 0 {
                    assert(ids[i] == rest[i - 1]);
                }
                let k = rest.index_of(n);
                assert(rest.contains(n));
                assert(ids[k + 1] == n);
            }
        }
        let pages = chain_pages(t.pool, cur, t.next);
        let more = chain_pages(t.pool, next, t.next);
        assert(pages =~= seq![t.pool[id].entries] + more);
        assert(pages.drop_first() =~= more);
        let a = t.pool[id].entries;
        assert(flat(pages) == a + flat(more));
        assert forall|i: int| 0 <= i < flat(pages).len() implies slot_of((#[trigger] flat(pages)[i]).key, t.heads.len())
            == b by {
            if i < a.len() {
                assert(flat(pages)[i] == a[i]);
            } else {
                assert(flat(pages)[i] == flat(more)[i - a.len()]);
            }
        }
    } else {
        assert(flat(chain_pages(t.pool, cur, t.next)) =~= Seq::<Entry>::empty());
    }
}

/// A chain of a sound index fits.
proof fn lemma_owned_fits(
    t: IndexParts,
    owner: Map<usize, int>,
    cur: Option<usize>,
    b: int,
    lo: int,
    s: Set<usize>,
)
    requires
        owned(t, owner),
        cur matches Some(id) ==> t.pool.contains_key(id) && owner[id] == b && id > lo,
        forall|x: usize| #[trigger] s.contains(x) ==> owner[x] != b,
        in_slot(flat(chain_pages(t.pool, cur, t.next)), b, t.heads.len()),
    ensures
        chain_fit(t, cur, b, lo, s),
    decreases t.next - lo,
{
    if let Some(id) = cur {
        let next = t.pool[id].overflow;
        let pages = chain_pages(t.pool, cur, t.next);
        let more = chain_pages(t.pool, next, t.next);
        assert(pages =~= seq![t.pool[id].entries] + more);
        assert(pages.drop_first() =~= more);
        let a = t.pool[id].entries;
        assert(flat(pages) == a + flat(more));
        assert forall|i: int| 0 <= i < a.len() implies slot_of((#[trigger] a[i]).key, t.heads.len()) == b by {
            assert(flat(pages)[i] == a[i]);
        }
        assert forall|i: int| 0 <= i < flat(more).len() implies slot_of((#[trigger] flat(more)[i]).key, t.heads.len())
            == b by {
            assert(flat(pages)[a.len() + i] == flat(more)[i]);
        }
        lemma_owned_fits(t, owner, next, b, id as int, s);
    }
}

/// What is looked at to tell that an index is sound.
pub open spec fn looks_sound(t: IndexParts) -> bool {
    &&& t.heads.len() > 0
    &&& slots_fit(t, t.heads.len())
    &&& forall|id: usize| #[trigger] t.pool.contains_key(id) ==> id < t.next && slot_ids(t, t.heads.len()).contains(id)
    &&& heads_total(t.heads) + pool_total(t.pool, order::ascending_size(t.pool.dom())) <= t.len
}

proof fn lemma_in_slots(t: IndexParts, n: nat, id: usize) -> (b: int)
    requires
        slot_ids(t, n).contains(id),
    ensures
        0 <= b < n,
        chain_ids(t.pool, t.heads[b].overflow, t.next).contains(id),
    decreases n,
{
    let k = slot_ids(t, n).index_of(id);
    if n == 0 {
        0
    } else {
        let a = slot_ids(t, (n - 1) as nat);
        let c = chain_ids(t.pool, t.heads[n - 1].overflow, t.next);
        if k < a.len() {
            assert(a[k] == id);
            lemma_in_slots(t, (n - 1) as nat, id)
        } else {
            assert(c[k - a.len()] == id);
            n - 1
        }
    }
}

proof fn lemma_slots_hold(t: IndexParts, n: nat, b: int, id: usize)
    requires
        0 <= b < n,
        chain_ids(t.pool, t.heads[b].overflow, t.next).contains(id),
    ensures
        slot_ids(t, n).contains(id),
    decreases n,
{
    let a = slot_ids(t, (n - 1) as nat);
    let c = chain_ids(t.pool, t.heads[n - 1].overflow, t.next);
    if b < n - 1 {
        lemma_slots_hold(t, (n - 1) as nat, b, id);
        let k = a.index_of(id);
        assert(slot_ids(t, n)[k] == id);
    } else {
        let k = c.index_of(id);
        assert(slot_ids(t, n)[a.len() + k] == id);
    }
}

/// An index that looks sound is.
proof fn lemma_looks_sound(t: IndexParts)
    requires
        looks_sound(t),
        t.pool.dom().finite(),
    ensures
        index_ok(t),
{
    let n = t.heads.len();
    let owner = Map::<usize, int>::new(
        |id: usize| true,
        |id: usize| choose|b: int| 0 <= b < n && #[trigger] chain_ids(t.pool, t.heads[b].overflow, t.next).contains(id),
    );
    assert forall|b: int, id: usize|
        0 <= b < n && #[trigger] chain_ids(t.pool, t.heads[b].overflow, t.next).contains(id) implies owner[id] == b by {
        let c = owner[id];
        assert(0 <= c < n && chain_ids(t.pool, t.heads[c].overflow, t.next).contains(id));
        lemma_chain_fit(t, t.heads[b].overflow, b, -1, slot_ids(t, b as nat).to_set());
        lemma_chain_fit(t, t.heads[c].overflow, c, -1, slot_ids(t, c as nat).to_set());
        let i = chain_ids(t.pool, t.heads[b].overflow, t.next).index_of(id);
        let j = chain_ids(t.pool, t.heads[c].overflow, t.next).index_of(id);
        if c < b {
            lemma_slots_hold(t, b as nat, c, id);
            assert(slot_ids(t, b as nat).to_set().contains(id));
            assert(!slot_ids(t, b as nat).to_set().contains(chain_ids(t.pool, t.heads[b].overflow, t.next)[i]));
        } else if b < c {
            lemma_slots_hold(t, c as nat, b, id);
            assert(slot_ids(t, c as nat).to_set().contains(id));
            assert(!slot_ids(t, c as nat).to_set().contains(chain_ids(t.pool, t.heads[c].overflow, t.next)[j]));
        }
    }
    assert(owned(t, owner)) by {
        assert forall|b: int| 0 <= b < n implies ((#[trigger] t.heads[b]).overflow matches Some(x) ==> t.pool.contains_key(
            x,
        ) && owner[x] == b) by {
            lemma_chain_fit(t, t.heads[b].overflow, b, -1, slot_ids(t, b as nat).to_set());
            if let Some(x) = t.heads[b].overflow {
                assert(chain_ids(t.pool, t.heads[b].overflow, t.next).contains(x));
            }
        }
        assert forall|id: usize| #[trigger] t.pool.contains_key(id) implies (t.pool[id].overflow matches Some(x) ==> x > id
            && t.pool.contains_key(x) && owner[x] == owner[id]) by {
            let b = lemma_in_slots(t, n, id);
            lemma_chain_fit(t, t.heads[b].overflow, b, -1, slot_ids(t, b as nat).to_set());
            let ids = chain_ids(t.pool, t.heads[b].overflow, t.next);
            let i = ids.index_of(id);
            assert(ids[i] == id);
            if let Some(x) = t.pool[id].overflow {
                assert(ids.contains(x));
                let k = ids.index_of(x);
                assert(t.pool.contains_key(ids[k]));
            }
        }
    }
    assert(covered(t)) by {
        assert forall|id: usize| #[trigger] t.pool.contains_key(id) implies linked(t, id) by {
            let b = lemma_in_slots(t, n, id);
            lemma_chain_fit(t, t.heads[b].overflow, b, -1, slot_ids(t, b as nat).to_set());
            let ids = chain_ids(t.pool, t.heads[b].overflow, t.next);
            let i = ids.index_of(id);
            assert(t.heads[b].overflow == Some(ids[i]) || chained(t.pool, ids[i]));
        }
    }
    assert(sorted_out(index_pages(t))) by {
        let v = index_pages(t);
        assert forall|b: int, i: int| 0 <= b < v.len() && 0 <= i < flat(v[b]).len() implies slot_of(
            (#[trigger] flat(v[b])[i]).key,
            v.len(),
        ) == b by {
            lemma_chain_fit(t, t.heads[b].overflow, b, -1, slot_ids(t, b as nat).to_set());
            let p = slot_pages(t, b);
            let a = t.heads[b].entries;
            let more = chain_pages(t.pool, t.heads[b].overflow, t.next);
            assert(p.drop_first() =~= more);
            assert(flat(p) == a + flat(more));
            if i < a.len() {
                assert(flat(p)[i] == a[i]);
            } else {
                assert(flat(p)[i] == flat(more)[i - a.len()]);
            }
        }
    }
    lemma_total(t);
}

/// A sound index looks so.
proof fn lemma_sound_looks(t: IndexParts)
    requires
        index_ok(t),
        t.pool.dom().finite(),
    ensures
        looks_sound(t),
{
    let owner = choose|owner: Map<usize, int>| owned(t, owner);
    let n = t.heads.len();
    let v = index_pages(t);
    lemma_total(t);
    assert forall|b: int| 0 <= b < n implies in_slot((#[trigger] t.heads[b]).entries, b, n) && chain_fit(
        t,
        t.heads[b].overflow,
        b,
        -1,
        slot_ids(t, b as nat).to_set(),
    ) by {
        let p = slot_pages(t, b);
        let a = t.heads[b].entries;
        let more = chain_pages(t.pool, t.heads[b].overflow, t.next);
        assert(v[b] == p);
        assert(p.drop_first() =~= more);
        assert(flat(p) == a + flat(more));
        assert forall|i: int| 0 <= i < a.len() implies slot_of((#[trigger] a[i]).key, n) == b by {
            assert(flat(v[b])[i] == a[i]);
        }
        assert forall|i: int| 0 <= i < flat(more).len() implies slot_of((#[trigger] flat(more)[i]).key, n) == b by {
            assert(flat(v[b])[a.len() + i] == flat(more)[i]);
        }
        lemma_slot_ids(t, owner, b as nat);
        let s = slot_ids(t, b as nat);
        assert forall|x: usize| #[trigger] s.to_set().contains(x) implies owner[x] != b by {
            let i = s.index_of(x);
            assert(owner[s[i]] < b);
        }
        lemma_owned_fits(t, owner, t.heads[b].overflow, b, -1, s.to_set());
    }
    assert forall|id: usize| #[trigger] t.pool.contains_key(id) implies id < t.next && slot_ids(t, n).contains(id) by {
        lemma_in_chain(t, owner, id);
        lemma_slots_hold(t, n, owner[id], id);
    }
}

impl HashIndex {
    fn entries_in_slot(&self, s: &Vec<Entry>, b: usize) -> (r: bool)
        requires
            self.buckets@.len() > 0,
        ensures
            r == in_slot(s@, b as int, self.buckets@.len()),
    {
        let mut i: usize = 0;
        while i < s.len()
            invariant
                i <= s@.len(),
                self.buckets@.len() > 0,
                forall|k: int| 0 <= k < i ==> slot_of((#[trigger] s@[k]).key, self.buckets@.len()) == b,
            decreases s@.len() - i,
        {
            if self.bucket_of(s[i].key) != b {
                assert(slot_of(s@[i as int].key, self.buckets@.len()) != b);
                return false;
            }
            i += 1;
        }
        true
    }

    /// Whether a chain fits behind the bucket `lo`; notes its buckets.
    fn chain_sound(
        &self,
        cur: Option<usize>,
        b: usize,
        lo: i128,
        seen: &mut BTreeMap<usize, bool>,
        Ghost(s): Ghost<Set<usize>>,
    ) -> (r: bool)
        requires
            self.buckets@.len() > 0,
            -1 <= lo <= usize::MAX,
            forall|x: usize| #[trigger] s.contains(x) ==> old(seen)@.contains_key(x),
            forall|x: usize| #[trigger] old(seen)@.contains_key(x) ==> s.contains(x) || x <= lo,
        ensures
            r == chain_fit(self.parts(), cur, b as int, lo as int, s),
            r ==> final(seen)@.dom() == old(seen)@.dom().union(
                chain_ids(self.parts().pool, cur, self.parts().next).to_set(),
            ),
        decreases self.next_overflow - lo,
    {
        let ghost t = self.parts();
        let ghost d0 = seen@.dom();
        match cur {
            None => {
                assert(d0 =~= d0.union(chain_ids(t.pool, cur, t.next).to_set()));
                true
            },
            Some(id) => {
                if id as i128 <= lo || id >= self.next_overflow || seen.contains_key(&id) {
                    return false;
                }
                match self.overflow.get(&id) {
                    None => false,
                    Some(ob) => {
                        assert(t.pool.contains_key(id) && t.pool[id] == ob.model());
                        if !self.entries_in_slot(&ob.entries, b) {
                            return false;
                        }
                        seen.insert(id, true);
                        let ghost next = ob.overflow;
                        let r = self.chain_sound(ob.overflow, b, id as i128, seen, Ghost(s));
                        proof {
                            if r {
                                let ids = chain_ids(t.pool, cur, t.next);
                                let rest = chain_ids(t.pool, next, t.next);
                                lemma_chain_fit(t, next, b as int, id as int, s);
                                assert(ids =~= seq![id] + rest);
                                assert(ids.to_set() =~= rest.to_set().insert(id)) by {
                                    assert forall|x: usize| ids.to_set().contains(x) == rest.to_set().insert(id).contains(x) by {
                                        if ids.contains(x) {
                                            let k = ids.index_of(x);
                                            if k > 0 {
                                                assert(rest[k - 1] == x);
                                            }
                                        }
                                        if rest.contains(x) {
                                            let k = rest.index_of(x);
                                            assert(ids[k + 1] == x);
                                        }
                                        assert(ids[0] == id);
                                    }
                                }
                                assert(seen@.dom() =~= d0.union(ids.to_set()));
                            }
                        }
                        r
                    },
                }
            },
        }
    }

    /// The number of entries on all buckets, where it can be counted.
    fn entry_total(&self) -> (r: Option<usize>)
        ensures
            ({
                let t = self.parts();
                let n = heads_total(t.heads) + pool_total(t.pool, order::ascending_size(t.pool.dom()));
                match r {
                    Some(v) => v == n,
                    None => n > usize::MAX,
                }
            }),
    {
        let ghost t = self.parts();
        let ghost heads = t.heads;
        let ghost pool = t.pool;
        let mut len: usize = 0;
        let mut k: usize = 0;
        assert(heads.subrange(0, 0) =~= Seq::<BucketModel>::empty());
        while k < self.buckets.len()
            invariant
                k <= self.buckets@.len(),
                heads == head_models(self.buckets@),
                heads == self.parts().heads,
                len == heads_total(heads.subrange(0, k as int)),
            decreases self.buckets@.len() - k,
        {
            proof {
                let s = heads.subrange(0, k + 1);
                assert(s.drop_last() =~= heads.subrange(0, k as int));
                assert(s.last() == self.buckets@[k as int].model());
            }
            match len.checked_add(self.buckets[k].entries.len()) {
                Some(v) => {
                    len = v;
                },
                None => {
                    proof {
                        lemma_heads_total_mono(heads, k + 1);
                    }
                    return None;
                },
            }
            k += 1;
        }
        let ids = order::keys_size(&self.overflow);
        let mut q: usize = 0;
        assert(pool.dom() =~= self.overflow@.dom());
        assert(heads.subrange(0, k as int) =~= heads);
        assert(ids@.subrange(0, 0) =~= Seq::<usize>::empty());
        while q < ids.len()
            invariant
                q <= ids@.len(),
                pool == pool_models(self.overflow@),
                pool == self.parts().pool,
                heads == self.parts().heads,
                pool.dom() == self.overflow@.dom(),
                ids@.to_set() == pool.dom(),
                ids@ == order::ascending_size(pool.dom()),
                len == heads_total(heads) + pool_total(pool, ids@.subrange(0, q as int)),
            decreases ids@.len() - q,
        {
            let id: usize = ids[q];
            proof {
                let s = ids@.subrange(0, q + 1);
                assert(s.drop_last() =~= ids@.subrange(0, q as int));
                assert(ids@.to_set().contains(ids@[q as int]));
                assert(pool.contains_key(id));
            }
            if let Some(ob) = self.overflow.get(&id) {
                assert(pool[id] == ob.model());
                match len.checked_add(ob.entries.len()) {
                    Some(v) => {
                        len = v;
                    },
                    None => {
                        proof {
                            lemma_pool_total_mono(pool, ids@, q + 1);
                        }
                        return None;
                    },
                }
            }
            q += 1;
        }
        assert(ids@.subrange(0, q as int) =~= ids@);
        Some(len)
    }

    /// Whether the index is sound, as the other operations need it. One that was
    /// read from a buffer may not be.
    pub fn is_sound(&self) -> (r: bool)
        ensures
            r == self.wf(),
    {
        let ghost t = self.parts();
        let n: usize = self.buckets.len();
        assert(t.pool.dom() =~= self.overflow@.dom());
        proof {
            if self.wf() {
                lemma_sound_looks(t);
            }
        }
        if n == 0 {
            return false;
        }
        match self.entry_total() {
            None => {
                return false;
            },
            Some(v) => {
                if v > self.len {
                    return false;
                }
            },
        }
        let mut seen: BTreeMap<usize, bool> = BTreeMap::new();
        let mut b: usize = 0;
        assert(seen@.dom() =~= slot_ids(t, 0).to_set());
        while b < n
            invariant
                b <= n,
                n == self.buckets@.len(),
                n > 0,
                t == self.parts(),
                self.wf() ==> looks_sound(t),
                seen@.dom() == slot_ids(t, b as nat).to_set(),
                slots_fit(t, b as nat),
            decreases n - b,
        {
            let ghost s = slot_ids(t, b as nat).to_set();
            assert(t.heads[b as int] == self.buckets@[b as int].model());
            if !self.entries_in_slot(&self.buckets[b].entries, b) {
                return false;
            }
            if !self.chain_sound(self.buckets[b].overflow, b, -1, &mut seen, Ghost(s)) {
                return false;
            }
            proof {
                let a = slot_ids(t, b as nat);
                let c = chain_ids(t.pool, t.heads[b as int].overflow, t.next);
                assert((a + c).to_set() =~= a.to_set().union(c.to_set())) by {
                    assert forall|x: usize| (a + c).to_set().contains(x) == a.to_set().union(c.to_set()).contains(x) by {
                        if (a + c).contains(x) {
                            let k = (a + c).index_of(x);
                            if k < a.len() {
                                assert(a[k] == x);
                            } else {
                                assert(c[k - a.len()] == x);
                            }
                        }
                        if a.contains(x) {
                            assert((a + c)[a.index_of(x)] == x);
                        }
                        if c.contains(x) {
                            assert((a + c)[a.len() + c.index_of(x)] == x);
                        }
                    }
                }
            }
            b += 1;
        }
        let ids = order::keys_size(&self.overflow);
        let mut i: usize = 0;
        while i < ids.len()
            invariant
                i <= ids@.len(),
                t == self.parts(),
                n == t.heads.len(),
                self.wf() ==> looks_sound(t),
                ids@.to_set() == t.pool.dom(),
                seen@.dom() == slot_ids(t, n as nat).to_set(),
                forall|k: int| 0 <= k < i ==> (#[trigger] ids@[k]) < t.next && slot_ids(t, n as nat).contains(ids@[k]),
            decreases ids@.len() - i,
        {
            assert(ids@.to_set().contains(ids@[i as int]));
            assert(t.pool.contains_key(ids@[i as int]));
            if ids[i] >= self.next_overflow || !seen.contains_key(&ids[i]) {
                assert(!slot_ids(t, n as nat).to_set().contains(ids@[i as int]) || ids@[i as int] >= t.next);
                return false;
            }
            assert(slot_ids(t, n as nat).to_set().contains(ids@[i as int]));
            i += 1;
        }
        proof {
            assert forall|id: usize| #[trigger] t.pool.contains_key(id) implies id < t.next && slot_ids(
                t,
                t.heads.len(),
            ).contains(id) by {
                assert(ids@.to_set().contains(id));
                let k = ids@.index_of(id);
                assert(ids@[k] == id);
            }
            lemma_looks_sound(t);
        }
        true
    }
}

} // verus!
