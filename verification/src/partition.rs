//! Hash partitioning for parallel and out-of-core operators.
//!
//! A hash join or hash aggregate whose build side does not fit in memory (or
//! that wants to spread work over workers) partitions both inputs by a hash of
//! the key so that matching keys always land in the same partition, and each
//! partition can then be processed independently. This module implements the
//! partition function and a radix-style partitioner that distributes rows of
//! keyed values into a fixed number of buckets.

use crate::bits;
use crate::bytes;
use crate::checksum;
use crate::numeric;
use crate::numeric::{ArithOp, RealNeed, Reals};
use crate::value;
use vstd::prelude::*;

verus! {

/// A power of two.
pub open spec fn is_pow2(n: int) -> bool {
    exists|k: nat| n == #[trigger] bits::pow2(k)
}

/// The least power of two from `n` on; one where `n` is zero.
pub open spec fn round_up(n: int, r: int) -> bool {
    is_pow2(r) && r >= n && (r == 1 || r < 2 * n)
}

/// The bucket of a key.
pub open spec fn bucket_of(key: i64, n: int) -> int {
    checksum::fx_word(0, bytes::twos(key)) as int % n
}

/// Assign a key to one of `num_partitions` buckets (must be a power of two).
pub fn partition_of(key: i64, num_partitions: usize) -> (r: usize)
    requires
        is_pow2(num_partitions as int),
    ensures
        r == bucket_of(key, num_partitions as int),
        r < num_partitions,
{
    proof {
        let k = choose|k: nat| num_partitions == #[trigger] bits::pow2(k);
        bits::lemma_pow2_pos(k);
    }
    let h: u64 = checksum::fxhash_u64(bytes::to_twos(key));
    (h % num_partitions as u64) as usize
}

/// The least power of two from `n` on.
fn next_pow2(n: usize) -> (r: usize)
    requires
        2 * n <= usize::MAX + 1,
    ensures
        round_up(n as int, r as int),
        r >= 1,
{
    let mut r: usize = 1;
    let ghost mut k: nat = 0;
    while r < n
        invariant
            r == bits::pow2(k),
            r >= 1,
            r == 1 || r < 2 * n,
            2 * n <= usize::MAX + 1,
        decreases 2 * n - r,
    {
        proof {
            k = k + 1;
        }
        r = r * 2;
    }
    r
}

/// A radix partitioner over `(key, payload)` rows.
pub struct Partitioner {
    num_partitions: usize,
    buckets: Vec<Vec<(i64, u32)>>,
}

/// The rows of each bucket.
pub open spec fn bucket_views(b: Seq<Vec<(i64, u32)>>) -> Seq<Seq<(i64, u32)>> {
    b.map_values(|v: Vec<(i64, u32)>| v@)
}

/// The index lists of each bucket.
pub open spec fn index_views(b: Seq<Vec<u32>>) -> Seq<Seq<u32>> {
    b.map_values(|v: Vec<u32>| v@)
}

/// All rows of all buckets.
pub open spec fn row_count(b: Seq<Seq<(i64, u32)>>) -> nat
    decreases b.len(),
{
    if b.len() == 0 {
        0
    } else {
        row_count(b.drop_last()) + b.last().len()
    }
}

/// One row routed to its bucket.
pub open spec fn routed(b: Seq<Seq<(i64, u32)>>, key: i64, payload: u32) -> Seq<Seq<(i64, u32)>> {
    let p = bucket_of(key, b.len() as int);
    b.update(p, b[p].push((key, payload)))
}

/// The first `n` keys routed, each with its index.
pub open spec fn routed_keys(b: Seq<Seq<(i64, u32)>>, keys: Seq<i64>, n: nat) -> Seq<Seq<(i64, u32)>>
    decreases n,
{
    if n == 0 {
        b
    } else {
        routed(routed_keys(b, keys, (n - 1) as nat), keys[n - 1], (n - 1) as u32)
    }
}

proof fn lemma_row_count_take(b: Seq<Seq<(i64, u32)>>, n: int)
    requires
        0 <= n <= b.len(),
    ensures
        row_count(b.take(n)) <= row_count(b),
    decreases b.len(),
{
    if n < b.len() {
        lemma_row_count_take(b.drop_last(), n);
        assert(b.drop_last().take(n) =~= b.take(n));
    } else {
        assert(b.take(n) =~= b);
    }
}

/// Whether a number is the size of the largest bucket.
pub open spec fn is_largest(rows: Seq<Seq<(i64, u32)>>, m: nat) -> bool {
    &&& forall|i: int| 0 <= i < rows.len() ==> (#[trigger] rows[i]).len() <= m
    &&& exists|i: int| 0 <= i < rows.len() && (#[trigger] rows[i]).len() == m
}

/// The largest bucket over the mean one; zero where there is no row.
pub open spec fn skewed(total: nat, buckets: nat, largest: nat, reals: numeric::RealFacts) -> Result<
    u64,
    numeric::Need,
> {
    if total == 0 {
        Ok(0)
    } else {
        match numeric::ratio_of(total, buckets, reals) {
            Ok(mean) => numeric::real_op(ArithOp::Div, value::real_of_nat(largest) as u64, mean, reals),
            Err(n) => Err(n),
        }
    }
}

impl Partitioner {
    /// The rows of each bucket.
    pub closed spec fn rows(self) -> Seq<Seq<(i64, u32)>> {
        bucket_views(self.buckets@)
    }

    /// There is a power of two of buckets, and every row is in the bucket of its
    /// key.
    pub closed spec fn wf(self) -> bool {
        &&& self.num_partitions == self.buckets@.len()
        &&& is_pow2(self.num_partitions as int)
        &&& self.num_partitions >= 1
        &&& homed(self.rows())
    }

    /// What a partitioner keeps.
    pub proof fn lemma_wf(self)
        requires
            self.wf(),
        ensures
            self.rows().len() >= 1,
            is_pow2(self.rows().len() as int),
            homed(self.rows()),
    {
    }

    /// A partitioner with `num_partitions` buckets (rounded up to a power of
    /// two).
    pub fn new(num_partitions: usize) -> (r: Partitioner)
        requires
            2 * num_partitions <= usize::MAX + 1,
        ensures
            r.wf(),
            round_up(num_partitions as int, r.rows().len() as int),
            r.rows() == Seq::new(r.rows().len(), |i: int| Seq::<(i64, u32)>::empty()),
    {
        let n: usize = next_pow2(num_partitions);
        let mut buckets: Vec<Vec<(i64, u32)>> = Vec::new();
        let mut i: usize = 0;
        while i < n
            invariant
                i <= n,
                buckets@.len() == i,
                forall|k: int| 0 <= k < i ==> (#[trigger] buckets@[k])@.len() == 0,
            decreases n - i,
        {
            buckets.push(Vec::new());
            i += 1;
        }
        let r = Partitioner { num_partitions: n, buckets };
        assert(r.rows() =~= Seq::new(n as nat, |i: int| Seq::<(i64, u32)>::empty())) by {
            assert forall|k: int| 0 <= k < n implies r.rows()[k] =~= Seq::<(i64, u32)>::empty() by {
                assert(buckets@[k]@.len() == 0);
            }
        }
        r
    }

    /// The (power-of-two) partition count.
    pub fn partition_count(&self) -> (r: usize)
        requires
            self.wf(),
        ensures
            r == self.rows().len(),
    {
        self.num_partitions
    }

    /// Route one `(key, payload)` pair to its bucket.
    pub fn push(&mut self, key: i64, payload: u32)
        requires
            old(self).wf(),
        ensures
            final(self).wf(),
            final(self).rows() == routed(old(self).rows(), key, payload),
    {
        let p: usize = partition_of(key, self.num_partitions);
        let ghost was = self.buckets@;
        let mut b = self.buckets.remove(p);
        let ghost b0 = b@;
        b.push((key, payload));
        self.buckets.insert(p, b);
        proof {
            assert(self.buckets@ =~= was.update(p as int, b));
            assert(self.rows() =~= routed(old(self).rows(), key, payload));
            let r = self.rows();
            assert forall|i: int, j: int| 0 <= i < r.len() && 0 <= j < r[i].len() implies #[trigger] bucket_of(
                r[i][j].0,
                r.len() as int,
            ) == i by {
                if i == p && j == b0.len() {
                } else {
                    assert(old(self).rows()[i][j] == r[i][j]);
                }
            }
        }
    }

    /// Route a batch of keys (payload = row index).
    pub fn push_keys(&mut self, keys: &[i64])
        requires
            old(self).wf(),
        ensures
            final(self).wf(),
            final(self).rows() == routed_keys(old(self).rows(), keys@, keys@.len()),
    {
        let mut i: usize = 0;
        while i < keys.len()
            invariant
                i <= keys@.len(),
                self.wf(),
                self.rows() == routed_keys(old(self).rows(), keys@, i as nat),
            decreases keys@.len() - i,
        {
            self.push(keys[i], i as u32);
            i += 1;
        }
    }

    /// Borrow a partition's rows.
    pub fn partition(&self, i: usize) -> (r: &[(i64, u32)])
        requires
            i < self.rows().len(),
        ensures
            r@ == self.rows()[i as int],
    {
        self.buckets[i].as_slice()
    }

    /// The number of rows in each partition.
    pub fn histogram(&self) -> (r: Vec<usize>)
        ensures
            r@.len() == self.rows().len(),
            forall|i: int| 0 <= i < r@.len() ==> #[trigger] r@[i] == self.rows()[i].len(),
    {
        let mut r: Vec<usize> = Vec::new();
        let mut i: usize = 0;
        while i < self.buckets.len()
            invariant
                i <= self.buckets@.len(),
                r@.len() == i,
                forall|k: int| 0 <= k < i ==> #[trigger] r@[k] == self.rows()[k].len(),
            decreases self.buckets@.len() - i,
        {
            r.push(self.buckets[i].len());
            i += 1;
        }
        r
    }

    /// Total rows partitioned.
    pub fn total(&self) -> (r: usize)
        requires
            row_count(self.rows()) <= usize::MAX,
        ensures
            r == row_count(self.rows()),
    {
        let mut n: usize = 0;
        let mut i: usize = 0;
        assert(self.rows().take(0) =~= Seq::<Seq<(i64, u32)>>::empty());
        while i < self.buckets.len()
            invariant
                i <= self.buckets@.len(),
                self.rows().len() == self.buckets@.len(),
                row_count(self.rows()) <= usize::MAX,
                n == row_count(self.rows().take(i as int)),
            decreases self.buckets@.len() - i,
        {
            proof {
                assert(self.rows().take(i + 1).drop_last() =~= self.rows().take(i as int));
                lemma_row_count_take(self.rows(), i + 1);
            }
            n += self.buckets[i].len();
            i += 1;
        }
        assert(self.rows().take(i as int) =~= self.rows());
        n
    }

    /// The maximum partition size (a skew measure).
    pub fn max_partition(&self) -> (r: usize)
        requires
            self.wf(),
        ensures
            forall|i: int| 0 <= i < self.rows().len() ==> (#[trigger] self.rows()[i]).len() <= r,
            exists|i: int| 0 <= i < self.rows().len() && (#[trigger] self.rows()[i]).len() == r,
    {
        let mut r: usize = self.buckets[0].len();
        assert(self.rows()[0].len() == r);
        let mut i: usize = 1;
        while i < self.buckets.len()
            invariant
                1 <= i <= self.buckets@.len(),
                self.rows().len() == self.buckets@.len(),
                forall|k: int| 0 <= k < i ==> (#[trigger] self.rows()[k]).len() <= r,
                exists|k: int| 0 <= k < i && (#[trigger] self.rows()[k]).len() == r,
            decreases self.buckets@.len() - i,
        {
            assert(self.rows()[i as int] == self.buckets@[i as int]@);
            if self.buckets[i].len() > r {
                r = self.buckets[i].len();
                assert(self.rows()[i as int].len() == r);
            }
            i += 1;
        }
        r
    }

    /// A skew factor: max partition size divided by the mean (1.0 = perfectly
    /// even), as the bits of a real; zero for an empty partitioner.
    pub fn skew(&self, reals: &Reals) -> (r: Result<u64, RealNeed>)
        requires
            self.wf(),
            row_count(self.rows()) <= usize::MAX,
        ensures
            exists|m: nat|
                #[trigger] is_largest(self.rows(), m) && numeric::asked(r) == skewed(
                    row_count(self.rows()),
                    self.rows().len(),
                    m,
                    reals@,
                ),
    {
        let total = self.total();
        let most = self.max_partition();
        assert(is_largest(self.rows(), most as nat));
        if total == 0 {
            return Ok(0);
        }
        match numeric::ratio(total as u64, self.partition_count() as u64, reals) {
            Ok(mean) => numeric::do_real_op(ArithOp::Div, value::nat_to_real(most as u64), mean, reals),
            Err(n) => Err(n),
        }
    }

    /// Consume the partitioner, yielding each bucket in order.
    pub fn into_partitions(self) -> (r: Vec<Vec<(i64, u32)>>)
        ensures
            bucket_views(r@) == self.rows(),
    {
        self.buckets
    }
}

/// Every row is in the bucket of its key.
pub open spec fn homed(b: Seq<Seq<(i64, u32)>>) -> bool {
    forall|i: int, j: int|
        0 <= i < b.len() && 0 <= j < b[i].len() ==> #[trigger] bucket_of(b[i][j].0, b.len() as int) == i
}

/// The indices below `n` of the keys of bucket `p`, ascending.
pub open spec fn members(keys: Seq<i64>, parts: int, p: int, n: nat) -> Seq<u32>
    decreases n,
{
    if n == 0 {
        Seq::empty()
    } else if bucket_of(keys[n - 1], parts) == p {
        members(keys, parts, p, (n - 1) as nat).push((n - 1) as u32)
    } else {
        members(keys, parts, p, (n - 1) as nat)
    }
}

/// Bucket the indices of a list of keys.
fn bucket_indices(keys: &[i64], n: usize) -> (r: Vec<Vec<u32>>)
    requires
        is_pow2(n as int),
        n >= 1,
    ensures
        r@.len() == n,
        forall|p: int| 0 <= p < n ==> (#[trigger] r@[p])@ == members(keys@, n as int, p, keys@.len()),
{
    let mut r: Vec<Vec<u32>> = Vec::new();
    let mut i: usize = 0;
    while i < n
        invariant
            i <= n,
            r@.len() == i,
            forall|k: int| 0 <= k < i ==> (#[trigger] r@[k])@ == Seq::<u32>::empty(),
        decreases n - i,
    {
        r.push(Vec::new());
        i += 1;
    }
    let mut i: usize = 0;
    while i < keys.len()
        invariant
            i <= keys@.len(),
            is_pow2(n as int),
            n >= 1,
            r@.len() == n,
            forall|p: int| 0 <= p < n ==> (#[trigger] r@[p])@ == members(keys@, n as int, p, i as nat),
        decreases keys@.len() - i,
    {
        let p: usize = partition_of(keys[i], n);
        let ghost was = r@;
        let mut b = r.remove(p);
        b.push(i as u32);
        r.insert(p, b);
        assert(r@ =~= was.update(p as int, b));
        assert(was[p as int]@ == members(keys@, n as int, p as int, i as nat));
        i += 1;
    }
    r
}

/// Co-partition two key sets so that equal keys share a partition index; returns
/// `(left_partitions, right_partitions)`.
pub fn copartition(left: &[i64], right: &[i64], num_partitions: usize) -> (r: (Vec<Vec<u32>>, Vec<Vec<u32>>))
    requires
        2 * num_partitions <= usize::MAX + 1,
    ensures
        r.0@.len() == r.1@.len(),
        round_up(num_partitions as int, r.0@.len() as int),
        forall|p: int|
            0 <= p < r.0@.len() ==> (#[trigger] r.0@[p])@ == members(left@, r.0@.len() as int, p, left@.len()),
        forall|p: int|
            0 <= p < r.1@.len() ==> (#[trigger] r.1@[p])@ == members(right@, r.1@.len() as int, p, right@.len()),
{
    let n: usize = next_pow2(num_partitions);
    (bucket_indices(left, n), bucket_indices(right, n))
}

/// Every index is in the partition of its key, so equal keys of two sides share
/// a partition.
pub proof fn lemma_copartition(keys: Seq<i64>, parts: int, p: int, n: nat, i: int)
    requires
        0 <= i < n <= keys.len(),
        n <= u32::MAX,
    ensures
        members(keys, parts, p, n).contains(i as u32) <==> bucket_of(keys[i], parts) == p,
    decreases n,
{
    let m = members(keys, parts, p, n);
    let d = members(keys, parts, p, (n - 1) as nat);
    lemma_members_below(keys, parts, p, (n - 1) as nat);
    if i < n - 1 {
        lemma_copartition(keys, parts, p, (n - 1) as nat, i);
        if d.contains(i as u32) {
            let k = choose|k: int| 0 <= k < d.len() && d[k] == i as u32;
            assert(m[k] == i as u32);
        }
        if m.contains(i as u32) {
            let k = choose|k: int| 0 <= k < m.len() && m[k] == i as u32;
            assert(d[k] == i as u32);
        }
    } else {
        if bucket_of(keys[i], parts) == p {
            assert(m[m.len() - 1] == i as u32);
        } else if m.contains(i as u32) {
            let k = choose|k: int| 0 <= k < m.len() && m[k] == i as u32;
            assert(d[k] < n - 1);
        }
    }
}

proof fn lemma_members_below(keys: Seq<i64>, parts: int, p: int, n: nat)
    requires
        n <= u32::MAX,
    ensures
        forall|k: int| 0 <= k < members(keys, parts, p, n).len() ==> (#[trigger] members(keys, parts, p, n)[k]) < n,
    decreases n,
{
    if n > 0 {
        lemma_members_below(keys, parts, p, (n - 1) as nat);
        let m = members(keys, parts, p, n);
        let d = members(keys, parts, p, (n - 1) as nat);
        assert forall|k: int| 0 <= k < m.len() implies (#[trigger] m[k]) < n by {
            if k < d.len() {
                assert(m[k] == d[k]);
            }
        }
    }
}

/// Routing the first keys of a list puts each of them, with its place, into its bucket,
/// behind what was there, and leaves nothing out of its bucket.
pub proof fn lemma_routed_keys(b: Seq<Seq<(i64, u32)>>, keys: Seq<i64>, n: nat, i: int)
    requires
        b.len() >= 1,
        homed(b),
        0 <= i < n <= keys.len(),
        n <= u32::MAX,
    ensures
        routed_keys(b, keys, n).len() == b.len(),
        homed(routed_keys(b, keys, n)),
        routed_keys(b, keys, n)[bucket_of(keys[i], b.len() as int)].contains((keys[i], i as u32)),
    decreases n,
{
    let d = routed_keys(b, keys, (n - 1) as nat);
    let r = routed_keys(b, keys, n);
    if n > 1 {
        lemma_routed_keys(b, keys, (n - 1) as nat, if i < n - 1 {
            i
        } else {
            0
        });
    }
    let p = bucket_of(keys[n - 1], b.len() as int);
    let row = (keys[n - 1], (n - 1) as u32);
    assert(r == d.update(p, d[p].push(row)));
    assert forall|k: int, j: int| 0 <= k < r.len() && 0 <= j < r[k].len() implies #[trigger] bucket_of(
        r[k][j].0,
        r.len() as int,
    ) == k by {
        if k != p {
            assert(bucket_of(d[k][j].0, d.len() as int) == k);
        } else if j < d[k].len() {
            assert(r[k][j] == d[k][j]);
            assert(bucket_of(d[k][j].0, d.len() as int) == k);
        } else {
            assert(r[k][j] == row);
        }
    }
    let o = bucket_of(keys[i], b.len() as int);
    if i < n - 1 {
        let x = d[o].index_of((keys[i], i as u32));
        assert(r[o][x] == (keys[i], i as u32));
    } else {
        assert(r[o][d[o].len() as int] == row);
    }
}

} // verus!
