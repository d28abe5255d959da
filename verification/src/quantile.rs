//! Streaming quantile and sampling utilities.
//!
//! Histogram building and cost estimation want approximate quantiles of a
//! column without sorting the whole thing. This module provides a reservoir
//! sampler (uniform sample of a stream in fixed memory) and a sketch that keeps
//! such a sample beside the exact extremes. Both are fed a stream of `i64`
//! values. A quantile of a sample is one of its order statistics.

use crate::radixsort;
use crate::sort;
use vstd::prelude::*;

verus! {

/// A uniform reservoir sampler of `i64` values.
#[derive(Debug, Clone)]
pub struct Reservoir {
    capacity: usize,
    samples: Vec<i64>,
    seen: u64,
    rng: u64,
}

/// The state of a reservoir.
#[verifier::ext_equal]
pub struct Sample {
    pub capacity: nat,
    pub samples: Seq<i64>,
    pub seen: nat,
    pub rng: u64,
}

/// The next state of the random generator.
pub open spec fn xorshift(x: u64) -> u64 {
    let y = x ^ (x << 13);
    let z = y ^ (y >> 7);
    z ^ (z << 17)
}

/// A reservoir after one more value.
pub open spec fn offered(s: Sample, value: i64) -> Sample {
    let seen = s.seen + 1;
    if s.samples.len() < s.capacity {
        Sample { samples: s.samples.push(value), seen, ..s }
    } else {
        let rng = xorshift(s.rng);
        let j = rng as int % seen as int;
        Sample {
            samples: if j < s.capacity {
                s.samples.update(j, value)
            } else {
                s.samples
            },
            seen,
            rng,
            ..s
        }
    }
}

/// A reservoir after a stream.
pub open spec fn offered_all(s: Sample, values: Seq<i64>) -> Sample
    decreases values.len(),
{
    if values.len() == 0 {
        s
    } else {
        offered(offered_all(s, values.drop_last()), values.last())
    }
}

/// An empty reservoir.
pub open spec fn fresh(capacity: nat, seed: u64) -> Sample {
    Sample {
        capacity: if capacity == 0 {
            1
        } else {
            capacity
        },
        samples: Seq::empty(),
        seen: 0,
        rng: seed | 1,
    }
}

/// `v` is what stands at place `k` once `s` is sorted.
pub open spec fn is_ranked(s: Seq<i64>, k: int, v: i64) -> bool {
    exists|t: Seq<i64>|
        sort::stable_sorted(radixsort::lifted(s), #[trigger] radixsort::lifted(t))
            && radixsort::ascending_signed(t) && t.len() == s.len() && v == t[k]
}

/// A reservoir holds as many samples as it has seen values, up to its capacity,
/// and all of them come from the stream; a stream that fits is kept whole.
pub proof fn lemma_offered_all(capacity: nat, seed: u64, values: Seq<i64>)
    ensures
        ({
            let r = offered_all(fresh(capacity, seed), values);
            let c = fresh(capacity, seed).capacity;
            &&& r.capacity == c
            &&& r.seen == values.len()
            &&& r.samples.len() == if values.len() < c {
                values.len()
            } else {
                c
            }
            &&& forall|i: int| 0 <= i < r.samples.len() ==> #[trigger] values.contains(r.samples[i])
            &&& values.len() <= c ==> r.samples == values
        }),
    decreases values.len(),
{
    let s = fresh(capacity, seed);
    let r = offered_all(s, values);
    if values.len() > 0 {
        let d = values.drop_last();
        lemma_offered_all(capacity, seed, d);
        let q = offered_all(s, d);
        assert(values =~= d.push(values.last()));
        assert forall|i: int| 0 <= i < r.samples.len() implies #[trigger] values.contains(r.samples[i]) by {
            if r.samples[i] == values.last() {
                assert(values[d.len() as int] == values.last());
            } else {
                assert(r.samples[i] == q.samples[i]);
                assert(d.contains(q.samples[i]));
                let k = choose|k: int| 0 <= k < d.len() && d[k] == q.samples[i];
                assert(values[k] == d[k]);
            }
        }
    } else {
        assert(r.samples =~= values);
    }
}

impl Reservoir {
    pub closed spec fn sample(self) -> Sample {
        Sample {
            capacity: self.capacity as nat,
            samples: self.samples@,
            seen: self.seen as nat,
            rng: self.rng,
        }
    }

    /// A full reservoir has seen at least as many values as it holds.
    pub closed spec fn wf(self) -> bool {
        &&& self.capacity >= 1
        &&& self.samples@.len() <= self.capacity
        &&& self.samples@.len() <= self.seen
    }

    /// A reservoir holding up to `capacity` samples, seeded deterministically.
    pub fn new(capacity: usize) -> (r: Reservoir)
        ensures
            r.wf(),
            r.sample() == fresh(capacity as nat, 0x2545F4914F6CDD1D),
    {
        Reservoir::with_seed(capacity, 0x2545F4914F6CDD1D)
    }

    /// A reservoir with an explicit RNG seed.
    pub fn with_seed(capacity: usize, seed: u64) -> (r: Reservoir)
        ensures
            r.wf(),
            r.sample() == fresh(capacity as nat, seed),
    {
        let c: usize = if capacity == 0 {
            1
        } else {
            capacity
        };
        let r = Reservoir { capacity: c, samples: Vec::new(), seen: 0, rng: seed | 1 };
        assert(r.sample() =~= fresh(capacity as nat, seed));
        r
    }

    fn next_rng(&mut self) -> (x: u64)
        ensures
            x == xorshift(old(self).rng),
            final(self).rng == x,
            final(self).capacity == old(self).capacity,
            final(self).samples == old(self).samples,
            final(self).seen == old(self).seen,
    {
        let x: u64 = self.rng;
        let y: u64 = x ^ (x << 13);
        let z: u64 = y ^ (y >> 7);
        self.rng = z ^ (z << 17);
        self.rng
    }

    /// Offer one value to the reservoir.
    pub fn offer(&mut self, value: i64)
        requires
            old(self).wf(),
            old(self).sample().seen < u64::MAX,
        ensures
            final(self).wf(),
            final(self).sample() == offered(old(self).sample(), value),
    {
        self.seen += 1;
        if self.samples.len() < self.capacity {
            self.samples.push(value);
        } else {
            let x: u64 = self.next_rng();
            let j: u64 = x % self.seen;
            if j < self.capacity as u64 {
                self.samples.set(j as usize, value);
            }
        }
        assert(self.sample() =~= offered(old(self).sample(), value));
    }

    /// Number of items offered.
    pub fn count(&self) -> (r: u64)
        ensures
            r == self.sample().seen,
    {
        self.seen
    }

    /// The current sample (unsorted).
    pub fn samples(&self) -> (r: &[i64])
        ensures
            r@ == self.sample().samples,
    {
        self.samples.as_slice()
    }

    /// The sample at place `idx` of the sorted sample.
    pub fn order_statistic(&self, idx: usize) -> (r: Option<i64>)
        ensures
            match r {
                Some(v) => idx < self.sample().samples.len() && is_ranked(self.sample().samples, idx as int, v),
                None => idx >= self.sample().samples.len(),
            },
    {
        if idx >= self.samples.len() {
            return None;
        }
        let mut sorted: Vec<i64> = Vec::new();
        let mut i: usize = 0;
        while i < self.samples.len()
            invariant
                i <= self.samples@.len(),
                sorted@ == self.samples@.take(i as int),
            decreases self.samples@.len() - i,
        {
            sorted.push(self.samples[i]);
            i += 1;
            assert(sorted@ =~= self.samples@.take(i as int));
        }
        assert(sorted@ =~= self.samples@);
        radixsort::sort_i64(sorted.as_mut_slice());
        assert(sort::stable_sorted(radixsort::lifted(self.samples@), radixsort::lifted(sorted@)));
        Some(sorted[idx])
    }
}

/// A bounded-memory quantile sketch. It keeps an unbiased reservoir sample of
/// the stream (so quantile estimates converge without bias) plus the exact
/// minimum and maximum seen. The reservoir size caps memory; the exact extremes
/// keep range predicates tight.
#[derive(Debug, Clone)]
pub struct QuantileSketch {
    reservoir: Reservoir,
    min: Option<i64>,
    max: Option<i64>,
    count: u64,
}

/// The state of a quantile sketch.
#[verifier::ext_equal]
pub struct SketchState {
    pub sample: Sample,
    pub min: Option<i64>,
    pub max: Option<i64>,
    pub count: nat,
}

/// A sketch after one more value.
pub open spec fn added(s: SketchState, v: i64) -> SketchState {
    SketchState {
        sample: offered(s.sample, v),
        min: match s.min {
            Some(m) if m <= v => Some(m),
            _ => Some(v),
        },
        max: match s.max {
            Some(m) if m >= v => Some(m),
            _ => Some(v),
        },
        count: s.count + 1,
    }
}

/// An empty sketch.
pub open spec fn blank(max_size: nat) -> SketchState {
    SketchState {
        sample: fresh(
            if max_size < 16 {
                16
            } else {
                max_size
            },
            0x1D8E4A93F27C0B65,
        ),
        min: None,
        max: None,
        count: 0,
    }
}

/// A sketch after a stream.
pub open spec fn added_all(s: SketchState, values: Seq<i64>) -> SketchState
    decreases values.len(),
{
    if values.len() == 0 {
        s
    } else {
        added(added_all(s, values.drop_last()), values.last())
    }
}

/// The extremes of a sketch are those of the whole stream.
pub proof fn lemma_extremes(max_size: nat, values: Seq<i64>)
    ensures
        ({
            let s = added_all(blank(max_size), values);
            &&& s.count == values.len()
            &&& s.sample == offered_all(blank(max_size).sample, values)
            &&& (s.min is None) == (values.len() == 0)
            &&& (s.max is None) == (values.len() == 0)
            &&& values.len() > 0 ==> values.contains(s.min->0) && values.contains(s.max->0)
            &&& forall|i: int| 0 <= i < values.len() ==> s.min->0 <= #[trigger] values[i] <= s.max->0
        }),
    decreases values.len(),
{
    if values.len() > 0 {
        let d = values.drop_last();
        lemma_extremes(max_size, d);
        let q = added_all(blank(max_size), d);
        let s = added_all(blank(max_size), values);
        assert(values[values.len() - 1] == values.last());
        assert forall|i: int| 0 <= i < values.len() implies s.min->0 <= #[trigger] values[i] <= s.max->0 by {
            if i < d.len() {
                assert(values[i] == d[i]);
            }
        }
        if s.min->0 != values.last() {
            let k = choose|k: int| 0 <= k < d.len() && d[k] == q.min->0;
            assert(values[k] == d[k]);
        }
        if s.max->0 != values.last() {
            let k = choose|k: int| 0 <= k < d.len() && d[k] == q.max->0;
            assert(values[k] == d[k]);
        }
    }
}

impl QuantileSketch {
    pub closed spec fn state(self) -> SketchState {
        SketchState {
            sample: self.reservoir.sample(),
            min: self.min,
            max: self.max,
            count: self.count as nat,
        }
    }

    pub closed spec fn wf(self) -> bool {
        self.reservoir.wf() && self.count == self.reservoir.sample().seen
    }

    /// A sketch retaining up to `max_size` sampled values.
    pub fn new(max_size: usize) -> (r: QuantileSketch)
        ensures
            r.wf(),
            r.state() == blank(max_size as nat),
    {
        let n: usize = if max_size < 16 {
            16
        } else {
            max_size
        };
        QuantileSketch {
            reservoir: Reservoir::with_seed(n, 0x1D8E4A93F27C0B65),
            min: None,
            max: None,
            count: 0,
        }
    }

    /// Add a value.
    pub fn add(&mut self, value: i64)
        requires
            old(self).wf(),
            old(self).state().count < u64::MAX,
        ensures
            final(self).wf(),
            final(self).state() == added(old(self).state(), value),
    {
        self.count += 1;
        self.reservoir.offer(value);
        self.min = match self.min {
            Some(m) => if m <= value {
                Some(m)
            } else {
                Some(value)
            },
            None => Some(value),
        };
        self.max = match self.max {
            Some(m) => if m >= value {
                Some(m)
            } else {
                Some(value)
            },
            None => Some(value),
        };
    }

    /// Number of values added.
    pub fn count(&self) -> (r: u64)
        ensures
            r == self.state().count,
    {
        self.count
    }

    /// The sampled values, whose order statistics estimate the inner quantiles.
    pub fn reservoir(&self) -> (r: &Reservoir)
        ensures
            r.sample() == self.state().sample,
    {
        &self.reservoir
    }

    /// The exact minimum value.
    pub fn min(&self) -> (r: Option<i64>)
        ensures
            r == self.state().min,
    {
        self.min
    }

    /// The exact maximum value.
    pub fn max(&self) -> (r: Option<i64>)
        ensures
            r == self.state().max,
    {
        self.max
    }

    /// The median: the upper of the two middle samples where there are two.
    pub fn median(&self) -> (r: Option<i64>)
        ensures
            match r {
                Some(v) => self.state().sample.samples.len() > 0 && is_ranked(
                    self.state().sample.samples,
                    self.state().sample.samples.len() as int / 2,
                    v,
                ),
                None => self.state().sample.samples.len() == 0,
            },
    {
        self.reservoir.order_statistic(self.reservoir.samples.len() / 2)
    }
}

/// Two sequences merged, the smaller head first and the left one of two equals.
pub open spec fn merged(a: Seq<i64>, b: Seq<i64>) -> Seq<i64>
    decreases a.len() + b.len(),
{
    if a.len() == 0 {
        b
    } else if b.len() == 0 {
        a
    } else if a[0] <= b[0] {
        seq![a[0]] + merged(a.skip(1), b)
    } else {
        seq![b[0]] + merged(a, b.skip(1))
    }
}

/// Merging keeps every value.
pub proof fn lemma_merged_values(a: Seq<i64>, b: Seq<i64>)
    ensures
        merged(a, b).len() == a.len() + b.len(),
        merged(a, b).to_multiset() == a.to_multiset().add(b.to_multiset()),
    decreases a.len() + b.len(),
{
    broadcast use vstd::seq_lib::group_to_multiset_ensures;

    if a.len() == 0 {
        assert(a =~= Seq::empty());
        assert(merged(a, b).to_multiset() =~= a.to_multiset().add(b.to_multiset()));
    } else if b.len() == 0 {
        assert(b =~= Seq::empty());
        assert(merged(a, b).to_multiset() =~= a.to_multiset().add(b.to_multiset()));
    } else if a[0] <= b[0] {
        lemma_merged_values(a.skip(1), b);
        assert(a =~= seq![a[0]] + a.skip(1));
        vstd::seq_lib::lemma_multiset_commutative(seq![a[0]], a.skip(1));
        vstd::seq_lib::lemma_multiset_commutative(seq![a[0]], merged(a.skip(1), b));
        assert(merged(a, b).to_multiset() =~= a.to_multiset().add(b.to_multiset()));
    } else {
        lemma_merged_values(a, b.skip(1));
        assert(b =~= seq![b[0]] + b.skip(1));
        vstd::seq_lib::lemma_multiset_commutative(seq![b[0]], b.skip(1));
        vstd::seq_lib::lemma_multiset_commutative(seq![b[0]], merged(a, b.skip(1)));
        assert(merged(a, b).to_multiset() =~= a.to_multiset().add(b.to_multiset()));
    }
}

/// Merging two sorted sequences gives a sorted one.
pub proof fn lemma_merged_sorted(a: Seq<i64>, b: Seq<i64>)
    requires
        radixsort::ascending_signed(a),
        radixsort::ascending_signed(b),
    ensures
        radixsort::ascending_signed(merged(a, b)),
    decreases a.len() + b.len(),
{
    if a.len() > 0 && b.len() > 0 {
        let m = merged(a, b);
        let (h, x, y) = if a[0] <= b[0] {
            (a[0], a.skip(1), b)
        } else {
            (b[0], a, b.skip(1))
        };
        lemma_merged_sorted(x, y);
        lemma_floor(h, x, y);
        assert(m == seq![h] + merged(x, y));
        assert forall|i: int, j: int| 0 <= i < j < m.len() implies m[i] <= m[j] by {
            assert(m[j] == merged(x, y)[j - 1]);
            if i > 0 {
                assert(m[i] == merged(x, y)[i - 1]);
            }
        }
    }
}

proof fn lemma_floor(h: i64, a: Seq<i64>, b: Seq<i64>)
    requires
        forall|i: int| 0 <= i < a.len() ==> h <= #[trigger] a[i],
        forall|i: int| 0 <= i < b.len() ==> h <= #[trigger] b[i],
    ensures
        forall|i: int| 0 <= i < merged(a, b).len() ==> h <= #[trigger] merged(a, b)[i],
    decreases a.len() + b.len(),
{
    if a.len() > 0 && b.len() > 0 {
        let m = merged(a, b);
        let (x, y) = if a[0] <= b[0] {
            (a.skip(1), b)
        } else {
            (a, b.skip(1))
        };
        lemma_floor(h, x, y);
        assert forall|i: int| 0 <= i < m.len() implies h <= #[trigger] m[i] by {
            if i > 0 {
                assert(m[i] == merged(x, y)[i - 1]);
            }
        }
    }
}

/// Merge two sorted slices into a new sorted vector.
pub fn merge_sorted(a: &[i64], b: &[i64]) -> (out: Vec<i64>)
    ensures
        out@ == merged(a@, b@),
        radixsort::ascending_signed(a@) && radixsort::ascending_signed(b@) ==> radixsort::ascending_signed(out@),
{
    let mut out: Vec<i64> = Vec::new();
    let mut i: usize = 0;
    let mut j: usize = 0;
    assert(a@.skip(0) =~= a@);
    assert(b@.skip(0) =~= b@);
    assert(out@ + merged(a@, b@) =~= merged(a@, b@));
    while i < a.len() || j < b.len()
        invariant
            i <= a@.len(),
            j <= b@.len(),
            merged(a@, b@) == out@ + merged(a@.skip(i as int), b@.skip(j as int)),
        decreases a@.len() - i + b@.len() - j,
    {
        let ghost x = a@.skip(i as int);
        let ghost y = b@.skip(j as int);
        let ghost was = out@;
        if j >= b.len() || (i < a.len() && a[i] <= b[j]) {
            assert(x[0] == a@[i as int]);
            assert(x.skip(1) =~= a@.skip(i + 1));
            assert(merged(x, y) =~= seq![a@[i as int]] + merged(a@.skip(i + 1), y));
            out.push(a[i]);
            i += 1;
        } else {
            assert(y[0] == b@[j as int]);
            assert(y.skip(1) =~= b@.skip(j + 1));
            assert(merged(x, y) =~= seq![b@[j as int]] + merged(x, b@.skip(j + 1)));
            out.push(b[j]);
            j += 1;
        }
        assert(out@ + merged(a@.skip(i as int), b@.skip(j as int)) =~= was + merged(x, y));
    }
    assert(out@ =~= merged(a@, b@));
    proof {
        if radixsort::ascending_signed(a@) && radixsort::ascending_signed(b@) {
            lemma_merged_sorted(a@, b@);
        }
    }
    out
}

} // verus!
