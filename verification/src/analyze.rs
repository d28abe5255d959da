//! Column profiling / `ANALYZE`.
//!
//! Before the cost model can estimate anything, someone has to gather the
//! per-column statistics it consults: row and null counts, min/max, an
//! approximate distinct count, and a few quantile boundaries for a histogram.
//! This module walks a typed [`Array`] once and produces a [`ColumnProfile`]
//! combining exact aggregates with the approximate sketches from
//! [`crate::hll`] and [`crate::quantile`]. Profiling a whole [`RecordBatch`]
//! produces one profile per column. The distinct estimate that a sketch stands for
//! takes arithmetic on reals, so it is handed in.
use vstd::prelude::*;

use crate::array;
use crate::array::{Array, RecordBatch};
use crate::bits;
use crate::bloom;
use crate::bytes;
use crate::hll;
use crate::hll::HyperLogLog;
use crate::numeric;
use crate::numeric::{ArithOp, ONE, RealNeed, Reals};
use crate::quantile;
use crate::quantile::QuantileSketch;
use crate::radixsort;
use crate::schema::ColKind;
use crate::sort;
use crate::sql;
use crate::value;
use crate::value::{Side, Value};

verus! {

/// The gathered statistics for one column.
#[derive(Debug, Clone)]
pub struct ColumnProfile {
    pub kind: ColKind,
    pub row_count: u64,
    pub null_count: u64,
    pub distinct_estimate: u64,
    pub min: Option<Value>,
    pub max: Option<Value>,
    /// Equi-depth histogram boundaries (only for integer columns).
    pub histogram: Vec<i64>,
}

impl ColumnProfile {
    /// Fraction of values that are null, as the bits of a real.
    pub fn null_fraction(&self, reals: &Reals) -> (r: Result<u64, RealNeed>)
        ensures
            numeric::asked(r) == (if self.row_count == 0 {
                Ok(0u64)
            } else {
                numeric::ratio_of(self.null_count as nat, self.row_count as nat, reals@)
            }),
    {
        if self.row_count == 0 {
            Ok(0)
        } else {
            numeric::ratio(self.null_count, self.row_count, reals)
        }
    }

    /// The average number of rows sharing a distinct value, as the bits of a real.
    pub fn avg_rows_per_value(&self, reals: &Reals) -> (r: Result<u64, RealNeed>)
        ensures
            numeric::asked(r) == (if self.distinct_estimate == 0 {
                Ok(0u64)
            } else {
                numeric::ratio_of(
                    if self.row_count >= self.null_count {
                        (self.row_count - self.null_count) as nat
                    } else {
                        0
                    },
                    self.distinct_estimate as nat,
                    reals@,
                )
            }),
    {
        let non_null: u64 = if self.row_count >= self.null_count {
            self.row_count - self.null_count
        } else {
            0
        };
        if self.distinct_estimate == 0 {
            Ok(0)
        } else {
            numeric::ratio(non_null, self.distinct_estimate, reals)
        }
    }

    /// Selectivity of an equality predicate on this column (`1/ndv`), as the bits
    /// of a real.
    pub fn equality_selectivity(&self, reals: &Reals) -> (r: Result<u64, RealNeed>)
        ensures
            numeric::asked(r) == (if self.distinct_estimate == 0 {
                Ok(ONE)
            } else {
                numeric::real_op(ArithOp::Div, ONE, value::real_of_nat(self.distinct_estimate as nat) as u64, reals@)
            }),
    {
        if self.distinct_estimate == 0 {
            Ok(ONE)
        } else {
            numeric::do_real_op(ArithOp::Div, ONE, value::nat_to_real(self.distinct_estimate), reals)
        }
    }
}

// What a profile says

/// The values that are not null, in order.
pub open spec fn known(vals: Seq<Value>) -> Seq<Value>
    decreases vals.len(),
{
    if vals.len() == 0 {
        Seq::empty()
    } else if vals.last() is Null {
        known(vals.drop_last())
    } else {
        known(vals.drop_last()).push(vals.last())
    }
}

/// The first of the least values.
pub open spec fn least(vals: Seq<Value>) -> Option<Value>
    decreases vals.len(),
{
    if vals.len() == 0 {
        None
    } else {
        match least(vals.drop_last()) {
            Some(m) => if value::value_side(m, vals.last()) == Side::Above {
                Some(vals.last())
            } else {
                Some(m)
            },
            None => Some(vals.last()),
        }
    }
}

/// The first of the greatest values.
pub open spec fn greatest(vals: Seq<Value>) -> Option<Value>
    decreases vals.len(),
{
    if vals.len() == 0 {
        None
    } else {
        match greatest(vals.drop_last()) {
            Some(m) => if value::value_side(m, vals.last()) == Side::Below {
                Some(vals.last())
            } else {
                Some(m)
            },
            None => Some(vals.last()),
        }
    }
}

/// The integers among values.
pub open spec fn integers(vals: Seq<Value>) -> Seq<i64>
    decreases vals.len(),
{
    if vals.len() == 0 {
        Seq::empty()
    } else {
        match vals.last().spec_as_int() {
            Some(i) => integers(vals.drop_last()).push(i),
            None => integers(vals.drop_last()),
        }
    }
}

/// The quantile sketch of integers.
pub open spec fn sketched(ints: Seq<i64>) -> quantile::SketchState {
    quantile::added_all(quantile::blank(256), ints)
}

/// The place, among so many sorted samples, of the `b`-th of eight parts.
pub open spec fn place(n: int, b: int) -> int {
    ((n - 1) * b + 4) / 8
}

/// Whether a value is the `b`-th boundary: the minimum, the maximum, or a sample at
/// its place.
pub open spec fn is_bound(s: quantile::SketchState, b: int, v: i64) -> bool {
    if b == 0 {
        s.min == Some(v)
    } else if b == 8 {
        s.max == Some(v)
    } else {
        quantile::is_ranked(s.sample.samples, place(s.sample.samples.len() as int, b), v)
    }
}

/// Values without those equal to the one before.
pub open spec fn deduped(s: Seq<i64>) -> Seq<i64>
    decreases s.len(),
{
    if s.len() == 0 {
        Seq::empty()
    } else if s.len() > 1 && s[s.len() - 2] == s.last() {
        deduped(s.drop_last())
    } else {
        deduped(s.drop_last()).push(s.last())
    }
}

/// Whether values are the nine boundaries of a sketch.
pub open spec fn are_bounds(s: quantile::SketchState, raw: Seq<i64>) -> bool {
    raw.len() == 9 && forall|b: int| 0 <= b < 9 ==> is_bound(s, b, #[trigger] raw[b])
}

/// Whether a histogram is that of integers.
pub open spec fn is_histogram(ints: Seq<i64>, h: Seq<i64>) -> bool {
    if ints.len() == 0 {
        h.len() == 0
    } else {
        exists|raw: Seq<i64>| #[trigger] are_bounds(sketched(ints), raw) && h == deduped(raw)
    }
}

/// Whether a profile is that of a column, given an estimate of its distinct values.
pub open spec fn profiles(p: ColumnProfile, a: array::ArrayModel, estimate: u64) -> bool {
    let live = known(a.values);
    &&& p.kind == a.kind
    &&& p.row_count == a.values.len()
    &&& p.null_count == a.values.len() - live.len()
    &&& p.distinct_estimate == if estimate < live.len() {
        estimate as nat
    } else {
        live.len()
    }
    &&& p.min == least(live)
    &&& p.max == greatest(live)
    &&& if a.kind == ColKind::Int {
        is_histogram(integers(live), p.histogram@)
    } else {
        p.histogram@.len() == 0
    }
}

// Distinct values

/// The number a value is hashed by.
pub open spec fn hash_key(v: Value) -> i64 {
    match v {
        Value::Null => 0,
        Value::Bool(b) => if b {
            2
        } else {
            1
        },
        Value::Int(i) => i,
        Value::Real(b) => bytes::untwos(b),
        Value::Text(id) => (id + 0x1_0000_0000) as i64,
    }
}

/// The registers after adding values.
pub open spec fn registered(vals: Seq<Value>) -> Seq<u8>
    decreases vals.len(),
{
    if vals.len() == 0 {
        Seq::new(bits::pow2(12), |i: int| 0u8)
    } else {
        hll::with_hash(registered(vals.drop_last()), 12, bloom::splitmix(bytes::twos(hash_key(vals.last()))))
    }
}

fn value_hash_key(v: &Value) -> (r: i64)
    ensures
        r == hash_key(*v),
{
    match v {
        Value::Null => 0,
        Value::Bool(b) => if *b {
            2
        } else {
            1
        },
        Value::Int(i) => *i,
        Value::Real(b) => bytes::from_twos(*b),
        Value::Text(id) => *id as i64 + 0x1_0000_0000,
    }
}

/// Sketch the distinct values of an array; nulls do not count.
pub fn sketch_array(array: &Array) -> (r: HyperLogLog)
    requires
        array.wf(),
    ensures
        r.wf(),
        r.prec() == 12,
        r.regs() == registered(known(array@.values)),
{
    let mut h = HyperLogLog::new(12);
    let ghost vals = array@.values;
    let n = array.len();
    let mut i: usize = 0;
    assert(known(vals.take(0)) =~= Seq::empty());
    while i < n
        invariant
            i <= n,
            n == vals.len(),
            vals == array@.values,
            array.wf(),
            h.wf(),
            h.prec() == 12,
            h.regs() == registered(known(vals.take(i as int))),
        decreases n - i,
    {
        let v = array.value(i);
        assert(vals.take(i + 1).drop_last() =~= vals.take(i as int));
        if !v.is_null() {
            assert(known(vals.take(i + 1)).drop_last() =~= known(vals.take(i as int)));
            h.add_i64(value_hash_key(&v));
        }
        i += 1;
    }
    assert(vals.take(n as int) =~= vals);
    h
}

// Profiling

proof fn lemma_samples(ints: Seq<i64>)
    requires
        ints.len() > 0,
    ensures
        1 <= sketched(ints).sample.samples.len() <= 256,
        sketched(ints).min is Some,
        sketched(ints).max is Some,
        forall|i: int|
            0 <= i < sketched(ints).sample.samples.len() ==> sketched(ints).min->0 <= (
            #[trigger] sketched(ints).sample.samples[i]) <= sketched(ints).max->0,
        sketched(ints).min->0 <= sketched(ints).max->0,
{
    quantile::lemma_extremes(256, ints);
    quantile::lemma_offered_all(256, 0x1D8E4A93F27C0B65, ints);
    let s = sketched(ints);
    assert forall|i: int| 0 <= i < s.sample.samples.len() implies s.min->0 <= (#[trigger] s.sample.samples[i])
        <= s.max->0 by {
        let v = s.sample.samples[i];
        assert(s.sample.samples.contains(v));
        assert(ints.contains(v));
        let j = choose|j: int| 0 <= j < ints.len() && ints[j] == v;
        assert(s.min->0 <= ints[j] <= s.max->0);
    }
    assert(s.min->0 <= ints[0] <= s.max->0);
}

proof fn lemma_ranked(s: Seq<i64>, j: int, k: int, v: i64, w: i64)
    requires
        s.len() <= usize::MAX,
        0 <= j <= k < s.len(),
        quantile::is_ranked(s, j, v),
        quantile::is_ranked(s, k, w),
    ensures
        v <= w,
        s.contains(v),
        s.contains(w),
{
    let l = radixsort::lifted(s);
    let t = choose|t: Seq<i64>|
        sort::stable_sorted(l, #[trigger] radixsort::lifted(t)) && radixsort::ascending_signed(t) && t.len() == s.len()
            && v == t[j];
    let u = choose|u: Seq<i64>|
        sort::stable_sorted(l, #[trigger] radixsort::lifted(u)) && radixsort::ascending_signed(u) && u.len() == s.len()
            && w == u[k];
    let lt = radixsort::lifted(t);
    let lu = radixsort::lifted(u);
    let p = choose|p: Seq<usize>| #[trigger] sort::is_order(l, p) && lt == sort::arranged(l, p);
    let q = choose|q: Seq<usize>| #[trigger] sort::is_order(l, q) && lu == sort::arranged(l, q);
    sort::lemma_order_unique(l, p, q);
    assert(lt[k] == lu[k]);
    assert(lt[k] == (t[k] + 0x8000_0000_0000_0000) as u64);
    assert(lu[k] == (u[k] + 0x8000_0000_0000_0000) as u64);
    assert(t[k] == u[k]);
    sort::lemma_stable_sorted(l, lt);
    assert(lt.contains(lt[j]));
    assert(lt.contains(lt[k]));
    let a = choose|a: int| 0 <= a < l.len() && l[a] == lt[j];
    let b = choose|b: int| 0 <= b < l.len() && l[b] == lt[k];
    assert(l[a] == (s[a] + 0x8000_0000_0000_0000) as u64);
    assert(l[b] == (s[b] + 0x8000_0000_0000_0000) as u64);
    assert(lt[j] == (t[j] + 0x8000_0000_0000_0000) as u64);
    assert(s[a] == v && s[b] == w);
}

proof fn lemma_bounds(ints: Seq<i64>, raw: Seq<i64>, i: int, j: int)
    requires
        0 < ints.len(),
        are_bounds(sketched(ints), raw),
        0 <= i < j < 9,
    ensures
        raw[i] <= raw[j],
{
    lemma_samples(ints);
    let s = sketched(ints);
    let n = s.sample.samples.len() as int;
    assert(is_bound(s, i, raw[i]) && is_bound(s, j, raw[j]));
    if i > 0 && j < 8 {
        assert(0 <= place(n, i) <= place(n, j) < n) by (nonlinear_arith)
            requires
                n >= 1,
                0 < i < j < 8,
        {
            assert((n - 1) * i <= (n - 1) * j);
            assert((n - 1) * j <= (n - 1) * 7);
        }
        lemma_ranked(s.sample.samples, place(n, i), place(n, j), raw[i], raw[j]);
    } else if i > 0 {
        assert(0 <= place(n, i) < n) by (nonlinear_arith)
            requires
                n >= 1,
                0 < i < 8,
        {
            assert((n - 1) * i <= (n - 1) * 7);
        }
        lemma_ranked(s.sample.samples, place(n, i), place(n, i), raw[i], raw[i]);
    } else if j < 8 {
        assert(0 <= place(n, j) < n) by (nonlinear_arith)
            requires
                n >= 1,
                0 < j < 8,
        {
            assert((n - 1) * j <= (n - 1) * 7);
        }
        lemma_ranked(s.sample.samples, place(n, j), place(n, j), raw[j], raw[j]);
    }
}

proof fn lemma_deduped(s: Seq<i64>)
    requires
        radixsort::ascending_signed(s),
    ensures
        s.len() > 0 ==> deduped(s).len() > 0 && deduped(s).last() == s.last(),
        forall|i: int, j: int| 0 <= i < j < deduped(s).len() ==> deduped(s)[i] < deduped(s)[j],
    decreases s.len(),
{
    if s.len() > 0 {
        let t = s.drop_last();
        lemma_deduped(t);
        if s.len() > 1 {
            assert(s[s.len() - 2] <= s[s.len() - 1]);
            assert(t.last() == s[s.len() - 2]);
        }
    }
}

/// The boundaries of a histogram ascend, without repeats.
pub proof fn lemma_histogram_ascends(ints: Seq<i64>, h: Seq<i64>)
    requires
        is_histogram(ints, h),
    ensures
        forall|i: int, j: int| 0 <= i < j < h.len() ==> h[i] < h[j],
{
    if ints.len() > 0 {
        let raw = choose|raw: Seq<i64>| #[trigger] are_bounds(sketched(ints), raw) && h == deduped(raw);
        assert forall|i: int, j: int| 0 <= i < j < raw.len() implies raw[i] <= raw[j] by {
            lemma_bounds(ints, raw, i, j);
        }
        lemma_deduped(raw);
    }
}

fn build_histogram(sketch: &QuantileSketch, ints: Ghost<Seq<i64>>) -> (h: Vec<i64>)
    requires
        sketch.wf(),
        ints@.len() > 0,
        sketch.state() == sketched(ints@),
    ensures
        is_histogram(ints@, h@),
{
    let ghost s = sketched(ints@);
    proof {
        lemma_samples(ints@);
    }
    let reservoir = sketch.reservoir();
    let n = reservoir.samples().len();
    let mut raw: Vec<i64> = Vec::new();
    let mut h: Vec<i64> = Vec::new();
    let mut b: usize = 0;
    while b < 9
        invariant
            b <= 9,
            s == sketch.state(),
            reservoir.sample() == s.sample,
            n == s.sample.samples.len(),
            1 <= n <= 256,
            s.min is Some,
            s.max is Some,
            raw@.len() == b,
            forall|k: int| 0 <= k < b ==> is_bound(s, k, #[trigger] raw@[k]),
            h@ == deduped(raw@),
        decreases 9 - b,
    {
        let bound = if b == 0 {
            sketch.min()
        } else if b == 8 {
            sketch.max()
        } else {
            assert((n - 1) * b + 4 < 8 * n) by (nonlinear_arith)
                requires
                    1 <= n <= 256,
                    b <= 7,
            ;
            reservoir.order_statistic(((n - 1) * b + 4) / 8)
        };
        let v = match bound {
            Some(v) => v,
            None => 0,
        };
        let ghost was = raw@;
        let again = raw.len() > 0 && raw[raw.len() - 1] == v;
        raw.push(v);
        assert(raw@.drop_last() =~= was);
        if !again {
            h.push(v);
        }
        b += 1;
    }
    assert(are_bounds(s, raw@));
    h
}

/// Profile a single array, given an estimate of its distinct values.
#[verifier::rlimit(40)]
pub fn profile_array(array: &Array, estimate: u64) -> (p: ColumnProfile)
    requires
        array.wf(),
    ensures
        profiles(p, array@, estimate),
{
    let ghost vals = array@.values;
    let kind = array.kind();
    let n = array.len();
    let mut sketch = QuantileSketch::new(256);
    let mut min: Option<Value> = None;
    let mut max: Option<Value> = None;
    let mut nulls: u64 = 0;
    let ghost mut live: Seq<Value> = Seq::empty();
    let ghost mut ints: Seq<i64> = Seq::empty();
    let mut i: usize = 0;
    assert(known(vals.take(0)) =~= Seq::empty());
    while i < n
        invariant
            i <= n,
            n == vals.len(),
            vals == array@.values,
            array.wf(),
            live == known(vals.take(i as int)),
            ints == integers(live),
            nulls + live.len() == i,
            ints.len() <= live.len(),
            min == least(live),
            max == greatest(live),
            sketch.wf(),
            sketch.state() == sketched(ints),
            sketch.state().count == ints.len(),
        decreases n - i,
    {
        let v = array.value(i);
        assert(vals.take(i + 1).drop_last() =~= vals.take(i as int));
        if v.is_null() {
            nulls += 1;
        } else {
            let ghost next = live.push(v);
            assert(next.drop_last() =~= live);
            min = match min {
                Some(m) => if value::compare(&m, &v) == Side::Above {
                    Some(v)
                } else {
                    Some(m)
                },
                None => Some(v),
            };
            max = match max {
                Some(m) => if value::compare(&m, &v) == Side::Below {
                    Some(v)
                } else {
                    Some(m)
                },
                None => Some(v),
            };
            match v.as_int() {
                Some(k) => {
                    let ghost more = ints.push(k);
                    assert(more.drop_last() =~= ints);
                    sketch.add(k);
                    proof {
                        ints = more;
                        quantile::lemma_extremes(256, ints);
                    }
                },
                None => {},
            }
            proof {
                live = next;
            }
        }
        i += 1;
    }
    assert(vals.take(n as int) =~= vals);
    let mut histogram: Vec<i64> = Vec::new();
    if kind == ColKind::Int && sketch.count() > 0 {
        histogram = build_histogram(&sketch, Ghost(ints));
    }
    let rows = n as u64;
    let distinct = if estimate < rows - nulls {
        estimate
    } else {
        rows - nulls
    };
    ColumnProfile { kind, row_count: rows, null_count: nulls, distinct_estimate: distinct, min, max, histogram }
}

/// Profile every column of a batch, given an estimate for each, returning `(name,
/// profile)` pairs.
pub fn profile_batch(batch: &RecordBatch, estimates: &[u64]) -> (r: Vec<(String, ColumnProfile)>)
    requires
        batch.wf(),
        estimates@.len() == batch@.columns.len(),
    ensures
        r@.len() == batch@.columns.len(),
        forall|i: int|
            0 <= i < r@.len() ==> (#[trigger] r@[i]).0@ == batch@.names[i] && profiles(
                r@[i].1,
                batch@.columns[i],
                estimates@[i],
            ),
{
    proof {
        array::lemma_batch(*batch);
    }
    let names = batch.names();
    let columns = batch.columns();
    assert(array::name_views(names@).len() == names@.len());
    assert(array::column_views(columns@).len() == columns@.len());
    let mut r: Vec<(String, ColumnProfile)> = Vec::new();
    let mut i: usize = 0;
    while i < columns.len()
        invariant
            i <= columns@.len(),
            names@.len() == columns@.len(),
            estimates@.len() == columns@.len(),
            array::name_views(names@) == batch@.names,
            array::column_views(columns@) == batch@.columns,
            forall|i: int| 0 <= i < columns@.len() ==> (#[trigger] columns@[i]).wf(),
            r@.len() == i,
            forall|k: int|
                0 <= k < i ==> (#[trigger] r@[k]).0@ == batch@.names[k] && profiles(
                    r@[k].1,
                    batch@.columns[k],
                    estimates@[k],
                ),
        decreases columns@.len() - i,
    {
        assert(batch@.columns[i as int] == columns@[i as int]@);
        assert(batch@.names[i as int] == names@[i as int]@);
        let p = profile_array(&columns[i], estimates[i]);
        r.push((sql::copy_text(&names[i]), p));
        i += 1;
    }
    r
}

/// What a profile's extremes are: values of the column that no other is below or above.
/// There are none only where there is no value.
pub proof fn lemma_profile_extremes(vals: Seq<Value>)
    ensures
        (least(vals) is None) == (vals.len() == 0),
        (greatest(vals) is None) == (vals.len() == 0),
        least(vals) matches Some(m) ==> vals.contains(m) && forall|i: int|
            0 <= i < vals.len() ==> value::value_side(#[trigger] vals[i], m) != Side::Below,
        greatest(vals) matches Some(m) ==> vals.contains(m) && forall|i: int|
            0 <= i < vals.len() ==> value::value_side(#[trigger] vals[i], m) != Side::Above,
    decreases vals.len(),
{
    if vals.len() > 0 {
        let d = vals.drop_last();
        lemma_profile_extremes(d);
        let n = vals.len() - 1;
        let v = vals[n];
        value::lemma_value_order(v, v, v);
        if d.len() > 0 {
            let x = least(d)->0;
            let y = greatest(d)->0;
            assert(vals[d.index_of(x)] == x);
            assert(vals[d.index_of(y)] == y);
            assert forall|i: int| 0 <= i < vals.len() implies value::value_side(#[trigger] vals[i], least(vals)->0)
                != Side::Below && value::value_side(vals[i], greatest(vals)->0) != Side::Above by {
                value::lemma_value_order(v, x, v);
                value::lemma_value_order(v, y, v);
                if i < n {
                    assert(d[i] == vals[i]);
                    value::lemma_value_order(v, x, vals[i]);
                    value::lemma_value_order(vals[i], x, v);
                    value::lemma_value_order(v, y, vals[i]);
                    value::lemma_value_order(vals[i], y, v);
                }
            }
        }
        assert(vals[n] == v);
    }
}

/// The values that a profile goes by: one more that is not null is kept at the end, a null
/// is not, and an integer is one of the integers.
pub proof fn lemma_profile_values(vals: Seq<Value>, v: Value)
    ensures
        known(Seq::empty()).len() == 0,
        v is Null ==> known(vals.push(v)) == known(vals),
        !(v is Null) ==> known(vals.push(v)) == known(vals).push(v),
        v matches Value::Int(i) ==> integers(vals.push(v)) == integers(vals).push(i),
        v is Null ==> integers(vals.push(v)) == integers(vals),
        integers(Seq::empty()).len() == 0,
{
    assert(vals.push(v).drop_last() =~= vals);
}

/// A histogram without repeats: no two neighbours are equal, and every boundary is there.
pub proof fn lemma_histogram(s: Seq<i64>)
    ensures
        forall|i: int| 0 <= i && i + 1 < deduped(s).len() ==> #[trigger] deduped(s)[i] != deduped(s)[i + 1],
        forall|x: i64| #[trigger] deduped(s).contains(x) <==> s.contains(x),
        s.len() > 0 ==> deduped(s).len() > 0 && deduped(s).last() == s.last(),
    decreases s.len(),
{
    if s.len() > 0 {
        let d = s.drop_last();
        lemma_histogram(d);
        let t = deduped(s);
        let u = deduped(d);
        assert forall|x: i64| #[trigger] t.contains(x) <==> s.contains(x) by {
            if s.contains(x) {
                let k = s.index_of(x);
                if k < d.len() {
                    assert(d[k] == x);
                    assert(d.contains(x));
                    assert(u.contains(x));
                    assert(t[u.index_of(x)] == x);
                } else {
                    assert(t[t.len() - 1] == x);
                }
            }
            if t.contains(x) {
                let k = t.index_of(x);
                if k < u.len() {
                    assert(u[k] == x);
                    assert(u.contains(x));
                    assert(s[d.index_of(x)] == x);
                } else {
                    assert(s[s.len() - 1] == x);
                }
            }
        }
        assert forall|i: int| 0 <= i && i + 1 < t.len() implies #[trigger] t[i] != t[i + 1] by {
            if i + 1 < u.len() {
                assert(u[i] != u[i + 1]);
            } else {
                assert(u.last() == d.last());
            }
        }
    }
}

} // verus!
