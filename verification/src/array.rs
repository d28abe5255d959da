//! Typed, null-aware columns in memory.
//!
//! An [`Array`] is a contiguous column of one kind with a [`Validity`] map that
//! tells which slots hold a value; an [`ArrayBuilder`] fills one value by value,
//! coercing to its kind; a [`RecordBatch`] is a set of columns of equal length
//! with names. Contracts speak of a column's kind and its values, in order.
use vstd::prelude::*;

use crate::physical;
use crate::schema::ColKind;
use crate::sql;
use crate::text;
use crate::value;
use crate::value::Value;
use crate::words;

verus! {

/// How many of the flags are set.
pub open spec fn trues(s: Seq<bool>) -> nat
    decreases s.len(),
{
    if s.len() == 0 {
        0
    } else {
        trues(s.drop_last()) + if s.last() {
            1nat
        } else {
            0
        }
    }
}

proof fn lemma_trues(s: Seq<bool>)
    ensures
        trues(s) <= s.len(),
        (trues(s) == s.len()) == (forall|i: int| 0 <= i < s.len() ==> #[trigger] s[i]),
    decreases s.len(),
{
    if s.len() > 0 {
        let d = s.drop_last();
        lemma_trues(d);
        if trues(s) == s.len() {
            assert forall|i: int| 0 <= i < s.len() implies #[trigger] s[i] by {
                if i < d.len() {
                    assert(d[i]);
                }
            }
        }
        if forall|i: int| 0 <= i < s.len() ==> #[trigger] s[i] {
            assert forall|i: int| 0 <= i < d.len() implies #[trigger] d[i] by {
                assert(s[i]);
            }
            assert(s[s.len() - 1]);
        }
    }
}

proof fn lemma_trues_update(s: Seq<bool>, i: int, b: bool)
    requires
        0 <= i < s.len(),
    ensures
        trues(s.update(i, b)) == trues(s) - (if s[i] {
            1int
        } else {
            0
        }) + (if b {
            1int
        } else {
            0
        }),
    decreases s.len(),
{
    let d = s.drop_last();
    if i == s.len() - 1 {
        assert(s.update(i, b).drop_last() =~= d);
    } else {
        assert(s.update(i, b).drop_last() =~= d.update(i, b));
        lemma_trues_update(d, i, b);
    }
}

/// Which slots of a column hold a value, one bit each. A map without a word has
/// every slot set.
#[derive(Debug, Clone, PartialEq)]
pub struct Validity {
    bits: Vec<u64>,
    len: usize,
    set: usize,
}

impl View for Validity {
    type V = Seq<bool>;

    closed spec fn view(&self) -> Seq<bool> {
        Seq::new(self.len as nat, |i: int| self.bits@.len() == 0 || words::bit_at(self.bits@, i as nat))
    }
}

impl Validity {
    /// The words cover every slot, bits beyond them are clear, and the set slots
    /// are counted.
    pub closed spec fn wf(&self) -> bool {
        &&& self.bits@.len() == 0 || self.len <= self.bits@.len() * 64
        &&& self.bits@.len() > 0 ==> forall|j: nat| j >= self.len ==> !#[trigger] words::bit_at(self.bits@, j)
        &&& self.set == trues(self@)
    }

    /// A validity map of `len` slots, all valid.
    pub fn all_valid(len: usize) -> (r: Validity)
        ensures
            r.wf(),
            r@ == Seq::new(len as nat, |i: int| true),
    {
        let r = Validity { bits: Vec::new(), len, set: len };
        proof {
            lemma_trues(r@);
            assert(r@ =~= Seq::new(len as nat, |i: int| true));
        }
        r
    }

    /// A validity map of `len` slots, all null.
    pub fn all_null(len: usize) -> (r: Validity)
        ensures
            r.wf(),
            r@ == Seq::new(len as nat, |i: int| false),
    {
        let n: usize = len / 64 + if len % 64 == 0 {
            0
        } else {
            1
        };
        let r = Validity { bits: words::zeroed(n), len, set: 0 };
        proof {
            assert(r@ =~= Seq::new(len as nat, |i: int| false));
            lemma_no_trues(r@);
        }
        r
    }

    /// Build from explicit flags.
    pub fn from_bools(flags: &[bool]) -> (r: Validity)
        ensures
            r.wf(),
            r@ == flags@,
    {
        let mut v = Validity::all_valid(0);
        let mut i: usize = 0;
        assert(v@ =~= flags@.take(0));
        while i < flags.len()
            invariant
                i <= flags@.len(),
                v.wf(),
                v@ == flags@.take(i as int),
            decreases flags@.len() - i,
        {
            v.push(flags[i]);
            assert(flags@.take(i + 1) =~= flags@.take(i as int).push(flags@[i as int]));
            i += 1;
        }
        assert(flags@.take(flags@.len() as int) =~= flags@);
        v
    }

    /// Number of slots covered.
    pub fn len(&self) -> (r: usize)
        ensures
            r == self@.len(),
    {
        self.len
    }

    /// `true` if there are no slots.
    pub fn is_empty(&self) -> (r: bool)
        ensures
            r == (self@.len() == 0),
    {
        self.len == 0
    }

    /// Number of null (unset) slots.
    pub fn null_count(&self) -> (r: usize)
        requires
            self.wf(),
        ensures
            r == self@.len() - trues(self@),
    {
        proof {
            lemma_trues(self@);
        }
        self.len - self.set
    }

    /// `true` if every slot is valid.
    pub fn all_set(&self) -> (r: bool)
        requires
            self.wf(),
        ensures
            r == (forall|i: int| 0 <= i < self@.len() ==> #[trigger] self@[i]),
    {
        proof {
            lemma_trues(self@);
        }
        self.set == self.len
    }

    /// Query slot `i` (out of range reads as null).
    pub fn get(&self, i: usize) -> (r: bool)
        ensures
            r == (i < self@.len() && self@[i as int]),
    {
        if i >= self.len {
            return false;
        }
        self.bits.len() == 0 || words::get(&self.bits, i)
    }

    /// Give every slot its bit.
    fn densify(&mut self)
        requires
            old(self).wf(),
        ensures
            final(self).wf(),
            final(self)@ == old(self)@,
            final(self).len == old(self).len,
            final(self).set == old(self).set,
            final(self).bits@.len() > 0,
    {
        if self.bits.len() > 0 {
            return;
        }
        let ghost was = self@;
        let n: usize = self.len / 64 + 1;
        let mut w = words::zeroed(n);
        let mut j: usize = 0;
        while j < self.len
            invariant
                j <= self.len,
                w@.len() == n,
                n == self.len / 64 + 1,
                forall|k: nat| #[trigger] words::bit_at(w@, k) == (k < j),
            decreases self.len - j,
        {
            words::put(&mut w, j);
            j += 1;
        }
        self.bits = w;
        assert(self@ =~= was);
    }

    /// Append one slot.
    pub fn push(&mut self, valid: bool)
        requires
            old(self).wf(),
            old(self)@.len() < usize::MAX,
        ensures
            final(self).wf(),
            final(self)@ == old(self)@.push(valid),
    {
        let ghost was = self@;
        proof {
            lemma_trues(was);
            assert(was.push(valid).drop_last() =~= was);
        }
        if self.bits.len() == 0 && valid {
            self.len = self.len + 1;
            self.set = self.set + 1;
            assert(self@ =~= was.push(valid));
            return;
        }
        self.densify();
        let i: usize = self.len;
        if i / 64 >= self.bits.len() {
            let ghost b = self.bits@;
            self.bits.push(0);
            proof {
                assert forall|j: nat| #[trigger] words::bit_at(self.bits@, j) == words::bit_at(b, j) by {
                    if j / 64 == b.len() {
                        words::lemma_zeros(seq![0u64]);
                        assert(!words::bit_at(seq![0u64], j % 64));
                        assert(self.bits@[(j / 64) as int] == 0);
                    }
                }
            }
        }
        if valid {
            words::put(&mut self.bits, i);
            self.set = self.set + 1;
        }
        self.len = self.len + 1;
        assert(self@ =~= was.push(valid));
    }

    /// Set slot `i`'s validity (grows if needed).
    pub fn set(&mut self, i: usize, valid: bool)
        requires
            old(self).wf(),
            i < usize::MAX,
            old(self)@.len() < usize::MAX,
        ensures
            final(self).wf(),
            final(self)@.len() == (if old(self)@.len() <= i {
                i + 1
            } else {
                old(self)@.len() as int
            }),
            forall|j: int|
                0 <= j < final(self)@.len() ==> #[trigger] final(self)@[j] == (if j == i {
                    valid
                } else {
                    j >= old(self)@.len() || old(self)@[j]
                }),
    {
        let ghost was = self@;
        while self.len <= i
            invariant
                self.wf(),
                i < usize::MAX,
                was.len() <= self@.len(),
                self@.len() == was.len() || self@.len() <= i + 1,
                was.len() < usize::MAX,
                forall|j: int| 0 <= j < self@.len() ==> #[trigger] self@[j] == (j >= was.len() || was[j]),
            decreases i + 1 - self.len,
        {
            self.push(true);
        }
        if self.get(i) == valid {
            return;
        }
        self.densify();
        let ghost mid = self@;
        proof {
            lemma_trues_update(mid, i as int, valid);
            lemma_trues(mid);
        }
        if valid {
            words::put(&mut self.bits, i);
            proof {
                assert(self@ =~= mid.update(i as int, valid));
                lemma_trues(mid.update(i as int, valid));
            }
            self.set = self.set + 1;
        } else {
            words::unset(&mut self.bits, i);
            assert(self@ =~= mid.update(i as int, valid));
            self.set = self.set - 1;
        }
        assert(self@ =~= mid.update(i as int, valid));
    }

    /// Produce a validity map for the slice `[start, start+len)`; slots out of
    /// range are null.
    pub fn slice(&self, start: usize, len: usize) -> (r: Validity)
        requires
            start + len <= usize::MAX,
        ensures
            r.wf(),
            r@ == Seq::new(len as nat, |i: int| start + i < self@.len() && self@[start + i]),
    {
        let ghost all = Seq::new(len as nat, |i: int| start + i < self@.len() && self@[start + i]);
        let mut v = Validity::all_valid(0);
        let mut i: usize = 0;
        assert(v@ =~= all.take(0));
        while i < len
            invariant
                i <= len,
                start + len <= usize::MAX,
                all == Seq::new(len as nat, |i: int| start + i < self@.len() && self@[start + i]),
                v.wf(),
                v@ == all.take(i as int),
            decreases len - i,
        {
            v.push(self.get(start + i));
            assert(all.take(i + 1) =~= all.take(i as int).push(all[i as int]));
            i += 1;
        }
        assert(all.take(len as int) =~= all);
        v
    }

    /// The validities, in order.
    pub fn iter(&self) -> (r: Vec<bool>)
        ensures
            r@ == self@,
    {
        let mut v: Vec<bool> = Vec::new();
        let mut i: usize = 0;
        while i < self.len
            invariant
                i <= self.len,
                v@ == self@.take(i as int),
                self@.len() == self.len,
            decreases self.len - i,
        {
            v.push(self.get(i));
            assert(self@.take(i + 1) =~= self@.take(i as int).push(self@[i as int]));
            i += 1;
        }
        assert(self@.take(self@.len() as int) =~= self@);
        v
    }

    /// Bitwise AND with another validity map (element-wise), truncating to the
    /// shorter length.
    pub fn and(&self, other: &Validity) -> (r: Validity)
        ensures
            r.wf(),
            r@.len() == (if self@.len() < other@.len() {
                self@.len()
            } else {
                other@.len()
            }),
            forall|i: int| 0 <= i < r@.len() ==> #[trigger] r@[i] == (self@[i] && other@[i]),
    {
        let n: usize = if self.len < other.len {
            self.len
        } else {
            other.len
        };
        let mut v = Validity::all_valid(0);
        let mut i: usize = 0;
        while i < n
            invariant
                i <= n,
                n <= self@.len(),
                n <= other@.len(),
                v.wf(),
                v@.len() == i,
                forall|k: int| 0 <= k < i ==> #[trigger] v@[k] == (self@[k] && other@[k]),
            decreases n - i,
        {
            v.push(self.get(i) && other.get(i));
            i += 1;
        }
        v
    }
}

proof fn lemma_no_trues(s: Seq<bool>)
    requires
        forall|i: int| 0 <= i < s.len() ==> !#[trigger] s[i],
    ensures
        trues(s) == 0,
    decreases s.len(),
{
    if s.len() > 0 {
        let d = s.drop_last();
        assert forall|i: int| 0 <= i < d.len() implies !#[trigger] d[i] by {
            assert(!s[i]);
        }
        lemma_no_trues(d);
        assert(!s[s.len() - 1]);
    }
}

// Columns

/// What a column keeps in a slot.
pub trait Slot: Copy {
    spec fn meaning(self) -> Value;

    fn to_value(self) -> (v: Value)
        ensures
            v == self.meaning(),
    ;

    /// What stands in a null slot.
    fn blank() -> Self;
}

impl Slot for bool {
    open spec fn meaning(self) -> Value {
        Value::Bool(self)
    }

    fn to_value(self) -> (v: Value) {
        Value::Bool(self)
    }

    fn blank() -> bool {
        false
    }
}

impl Slot for i64 {
    open spec fn meaning(self) -> Value {
        Value::Int(self)
    }

    fn to_value(self) -> (v: Value) {
        Value::Int(self)
    }

    fn blank() -> i64 {
        0
    }
}

impl Slot for u64 {
    open spec fn meaning(self) -> Value {
        Value::Real(self)
    }

    fn to_value(self) -> (v: Value) {
        Value::Real(self)
    }

    fn blank() -> u64 {
        0
    }
}

impl Slot for u32 {
    open spec fn meaning(self) -> Value {
        Value::Text(self)
    }

    fn to_value(self) -> (v: Value) {
        Value::Text(self)
    }

    fn blank() -> u32 {
        0
    }
}

/// A column of slots with their validity.
#[derive(Debug, Clone, PartialEq)]
pub struct Typed<T: Slot> {
    data: Vec<T>,
    validity: Validity,
}

/// Boolean column.
pub type BoolArray = Typed<bool>;

/// 64-bit signed integer column.
pub type IntArray = Typed<i64>;

/// 64-bit float column; a slot holds the bits.
pub type RealArray = Typed<u64>;

/// Dictionary-id text column (ids reference a dictionary page).
pub type TextArray = Typed<u32>;

/// The value in place `i` of a list; null beyond it.
pub open spec fn nth(s: Seq<Value>, i: int) -> Value {
    if 0 <= i < s.len() {
        s[i]
    } else {
        Value::Null
    }
}

/// The values whose flags are set; a missing flag is not.
pub open spec fn kept(s: Seq<Value>, mask: Seq<bool>) -> Seq<Value>
    decreases s.len(),
{
    if s.len() == 0 {
        Seq::empty()
    } else {
        let d = kept(s.drop_last(), mask);
        if s.len() - 1 < mask.len() && mask[s.len() - 1] {
            d.push(s.last())
        } else {
            d
        }
    }
}

/// The part of a list from `start` on, `len` values or what there is.
pub open spec fn part(s: Seq<Value>, start: int, len: int) -> Seq<Value> {
    let a = if start < s.len() {
        start
    } else {
        s.len() as int
    };
    let b = if start + len < s.len() {
        start + len
    } else {
        s.len() as int
    };
    s.subrange(a, b)
}

/// The values that are not null.
pub open spec fn present(s: Seq<Value>) -> nat
    decreases s.len(),
{
    if s.len() == 0 {
        0
    } else {
        present(s.drop_last()) + if s.last() is Null {
            0nat
        } else {
            1
        }
    }
}

impl<T: Slot> View for Typed<T> {
    type V = Seq<Value>;

    closed spec fn view(&self) -> Seq<Value> {
        Seq::new(
            self.data@.len(),
            |i: int|
                if self.validity@[i] {
                    self.data@[i].meaning()
                } else {
                    Value::Null
                },
        )
    }
}

impl<T: Slot> Typed<T> {
    /// Every slot has a flag.
    pub closed spec fn wf(&self) -> bool {
        self.validity.wf() && self.validity@.len() == self.data@.len()
    }

    /// What the slots hold, null or not.
    pub closed spec fn slots(&self) -> Seq<T> {
        self.data@
    }

    /// Which slots are not null.
    pub closed spec fn flags(&self) -> Seq<bool> {
        self.validity@
    }

    /// Number of elements.
    pub fn len(&self) -> (r: usize)
        ensures
            r == self@.len(),
    {
        self.data.len()
    }

    /// `true` if empty.
    pub fn is_empty(&self) -> (r: bool)
        ensures
            r == (self@.len() == 0),
    {
        self.data.len() == 0
    }

    /// The raw backing slice (includes garbage for null slots).
    pub fn values(&self) -> (r: &[T])
        ensures
            r@ == self.slots(),
    {
        self.data.as_slice()
    }

    /// The validity map.
    pub fn validity(&self) -> (r: &Validity)
        ensures
            r@ == self.flags(),
            self.wf() ==> r.wf(),
    {
        &self.validity
    }

    /// Read raw element `i` without checking validity.
    pub fn raw(&self, i: usize) -> (r: T)
        requires
            i < self.slots().len(),
        ensures
            r == self.slots()[i as int],
    {
        self.data[i]
    }

    /// Read element `i` as a [`Value`] (null-aware).
    pub fn value(&self, i: usize) -> (r: Value)
        requires
            self.wf(),
        ensures
            r == nth(self@, i as int),
    {
        if i >= self.data.len() || !self.validity.get(i) {
            return Value::Null;
        }
        self.data[i].to_value()
    }

    fn empty() -> (r: Typed<T>)
        ensures
            r.wf(),
            r@ == Seq::<Value>::empty(),
    {
        let r = Typed { data: Vec::new(), validity: Validity::all_valid(0) };
        assert(r@ =~= Seq::<Value>::empty());
        r
    }

    fn put(&mut self, x: T, valid: bool)
        requires
            old(self).wf(),
            old(self)@.len() < usize::MAX,
        ensures
            final(self).wf(),
            final(self)@ == old(self)@.push(
                if valid {
                    x.meaning()
                } else {
                    Value::Null
                },
            ),
    {
        let ghost was = self@;
        self.data.push(x);
        self.validity.push(valid);
        assert(self@ =~= was.push(
            if valid {
                x.meaning()
            } else {
                Value::Null
            },
        ));
    }

    /// Slice `[start, start+len)`.
    pub fn slice(&self, start: usize, len: usize) -> (r: Typed<T>)
        requires
            self.wf(),
        ensures
            r.wf(),
            r@ == part(self@, start as int, len as int),
    {
        let n: usize = self.data.len();
        let s: usize = if start < n {
            start
        } else {
            n
        };
        let end: usize = if len < n - s {
            s + len
        } else {
            n
        };
        let ghost all = self@.subrange(s as int, end as int);
        let mut out = Typed::<T>::empty();
        let mut i: usize = s;
        assert(all.take(0) =~= Seq::empty());
        while i < end
            invariant
                s <= i <= end <= n,
                n == self.data@.len(),
                self.wf(),
                out.wf(),
                all == self@.subrange(s as int, end as int),
                out@ == all.take(i - s),
            decreases end - i,
        {
            out.put(self.data[i], self.validity.get(i));
            assert(all.take(i - s + 1) =~= all.take(i - s).push(all[i - s]));
            i += 1;
        }
        assert(all.take(end - s) =~= all);
        out
    }

    /// Filter by boolean mask.
    pub fn filter(&self, mask: &[bool]) -> (r: Typed<T>)
        requires
            self.wf(),
        ensures
            r.wf(),
            r@ == kept(self@, mask@),
    {
        let mut out = Typed::<T>::empty();
        let mut i: usize = 0;
        while i < self.data.len()
            invariant
                i <= self.data@.len(),
                self.wf(),
                out.wf(),
                out@.len() <= i,
                out@ == kept(self@.take(i as int), mask@),
            decreases self.data@.len() - i,
        {
            proof {
                assert(self@.take(i + 1).drop_last() =~= self@.take(i as int));
            }
            if i < mask.len() && mask[i] {
                out.put(self.data[i], self.validity.get(i));
            }
            i += 1;
        }
        assert(self@.take(self@.len() as int) =~= self@);
        out
    }

    /// Gather at indices; out of range is null.
    pub fn take(&self, idx: &[usize]) -> (r: Typed<T>)
        requires
            self.wf(),
        ensures
            r.wf(),
            r@ == Seq::new(idx@.len(), |k: int| nth(self@, idx@[k] as int)),
    {
        let ghost all = Seq::new(idx@.len(), |k: int| nth(self@, idx@[k] as int));
        let mut out = Typed::<T>::empty();
        let mut k: usize = 0;
        assert(all.take(0) =~= Seq::empty());
        while k < idx.len()
            invariant
                k <= idx@.len(),
                self.wf(),
                out.wf(),
                all == Seq::new(idx@.len(), |k: int| nth(self@, idx@[k] as int)),
                out@ == all.take(k as int),
            decreases idx@.len() - k,
        {
            let j: usize = idx[k];
            if j < self.data.len() && self.validity.get(j) {
                out.put(self.data[j], true);
            } else {
                out.put(T::blank(), false);
            }
            assert(all.take(k + 1) =~= all.take(k as int).push(all[k as int]));
            k += 1;
        }
        assert(all.take(idx@.len() as int) =~= all);
        out
    }

    fn null_count(&self) -> (r: usize)
        requires
            self.wf(),
            forall|x: T| !(#[trigger] x.meaning() is Null),
        ensures
            r == self@.len() - present(self@),
    {
        proof {
            lemma_present(self@, self.validity@);
        }
        self.validity.null_count()
    }
}

proof fn lemma_present(s: Seq<Value>, f: Seq<bool>)
    requires
        s.len() == f.len(),
        forall|i: int| 0 <= i < s.len() ==> #[trigger] f[i] == !(s[i] is Null),
    ensures
        present(s) == trues(f),
    decreases s.len(),
{
    if s.len() > 0 {
        let e = f.drop_last();
        let d = s.drop_last();
        assert forall|i: int| 0 <= i < d.len() implies #[trigger] e[i] == !(d[i] is Null) by {
            assert(f[i] == !(s[i] is Null));
        }
        lemma_present(d, e);
        assert(f[s.len() - 1] == !(s[s.len() - 1] is Null));
    }
}

/// The integers of a list, in order.
pub open spec fn ints_of(s: Seq<Value>) -> Seq<i64>
    decreases s.len(),
{
    if s.len() == 0 {
        Seq::empty()
    } else {
        match s.last() {
            Value::Int(i) => ints_of(s.drop_last()).push(i),
            _ => ints_of(s.drop_last()),
        }
    }
}

impl Typed<i64> {
    /// Sum of the non-null elements; it wraps.
    pub fn sum(&self) -> (r: i64)
        requires
            self.wf(),
        ensures
            r == physical::total(ints_of(self@)),
    {
        let mut s: i64 = 0;
        let mut i: usize = 0;
        while i < self.data.len()
            invariant
                i <= self.data@.len(),
                self.wf(),
                s == physical::total(ints_of(self@.take(i as int))),
            decreases self.data@.len() - i,
        {
            let ghost d = ints_of(self@.take(i as int));
            proof {
                assert(self@.take(i + 1).drop_last() =~= self@.take(i as int));
            }
            if self.validity.get(i) {
                assert(d.push(self.data@[i as int]).drop_last() =~= d);
                s = s.wrapping_add(self.data[i]);
            }
            i += 1;
        }
        assert(self@.take(self@.len() as int) =~= self@);
        s
    }

    fn best(&self, least: bool) -> (r: Option<i64>)
        requires
            self.wf(),
        ensures
            r == (if ints_of(self@).len() == 0 {
                None
            } else {
                Some(physical::extreme(ints_of(self@), least))
            }),
    {
        let mut m: Option<i64> = None;
        let mut i: usize = 0;
        while i < self.data.len()
            invariant
                i <= self.data@.len(),
                self.wf(),
                m == (if ints_of(self@.take(i as int)).len() == 0 {
                    None
                } else {
                    Some(physical::extreme(ints_of(self@.take(i as int)), least))
                }),
            decreases self.data@.len() - i,
        {
            let ghost d = ints_of(self@.take(i as int));
            proof {
                assert(self@.take(i + 1).drop_last() =~= self@.take(i as int));
            }
            if self.validity.get(i) {
                let x = self.data[i];
                assert(d.push(x).drop_last() =~= d);
                m = match m {
                    None => Some(x),
                    Some(y) => if least && x < y || !least && x > y {
                        Some(x)
                    } else {
                        Some(y)
                    },
                };
            }
            i += 1;
        }
        assert(self@.take(self@.len() as int) =~= self@);
        m
    }

    /// Minimum non-null element.
    pub fn min(&self) -> (r: Option<i64>)
        requires
            self.wf(),
        ensures
            r == (if ints_of(self@).len() == 0 {
                None
            } else {
                Some(physical::extreme(ints_of(self@), true))
            }),
    {
        self.best(true)
    }

    /// Maximum non-null element.
    pub fn max(&self) -> (r: Option<i64>)
        requires
            self.wf(),
        ensures
            r == (if ints_of(self@).len() == 0 {
                None
            } else {
                Some(physical::extreme(ints_of(self@), false))
            }),
    {
        self.best(false)
    }
}

// Arrays

/// A typed, contiguous column of values.
#[derive(Debug, Clone, PartialEq)]
pub enum Array {
    Bool(BoolArray),
    Int(IntArray),
    Real(RealArray),
    Text(TextArray),
}

/// A column: its kind and its values.
#[verifier::ext_equal]
pub struct ArrayModel {
    pub kind: ColKind,
    pub values: Seq<Value>,
}

impl View for Array {
    type V = ArrayModel;

    open spec fn view(&self) -> ArrayModel {
        match self {
            Array::Bool(a) => ArrayModel { kind: ColKind::Bool, values: a@ },
            Array::Int(a) => ArrayModel { kind: ColKind::Int, values: a@ },
            Array::Real(a) => ArrayModel { kind: ColKind::Real, values: a@ },
            Array::Text(a) => ArrayModel { kind: ColKind::Text, values: a@ },
        }
    }
}

/// A value as a column of a kind holds it; what it cannot hold is null.
pub open spec fn coerced(kind: ColKind, v: Value) -> Value {
    match kind {
        ColKind::Bool => match v.spec_as_int() {
            Some(i) => if v is Null {
                Value::Null
            } else {
                Value::Bool(i != 0)
            },
            None => Value::Null,
        },
        ColKind::Int => match v.spec_as_int() {
            Some(i) => if v is Null {
                Value::Null
            } else {
                Value::Int(i)
            },
            None => Value::Null,
        },
        ColKind::Real => match v.spec_as_real() {
            Some(b) => if v is Null {
                Value::Null
            } else {
                Value::Real(b)
            },
            None => Value::Null,
        },
        ColKind::Text => match v {
            Value::Text(id) => Value::Text(id),
            _ => Value::Null,
        },
    }
}

/// Values as a column of a kind holds them.
pub open spec fn all_coerced(kind: ColKind, s: Seq<Value>) -> Seq<Value> {
    Seq::new(s.len(), |i: int| coerced(kind, s[i]))
}

impl Array {
    pub open spec fn wf(&self) -> bool {
        match self {
            Array::Bool(a) => a.wf(),
            Array::Int(a) => a.wf(),
            Array::Real(a) => a.wf(),
            Array::Text(a) => a.wf(),
        }
    }

    /// The element kind of this array.
    pub fn kind(&self) -> (r: ColKind)
        ensures
            r == self@.kind,
    {
        match self {
            Array::Bool(_) => ColKind::Bool,
            Array::Int(_) => ColKind::Int,
            Array::Real(_) => ColKind::Real,
            Array::Text(_) => ColKind::Text,
        }
    }

    /// Number of elements.
    pub fn len(&self) -> (r: usize)
        ensures
            r == self@.values.len(),
    {
        match self {
            Array::Bool(a) => a.len(),
            Array::Int(a) => a.len(),
            Array::Real(a) => a.len(),
            Array::Text(a) => a.len(),
        }
    }

    /// `true` if empty.
    pub fn is_empty(&self) -> (r: bool)
        ensures
            r == (self@.values.len() == 0),
    {
        self.len() == 0
    }

    /// Number of null elements.
    pub fn null_count(&self) -> (r: usize)
        requires
            self.wf(),
        ensures
            r == self@.values.len() - present(self@.values),
    {
        match self {
            Array::Bool(a) => a.null_count(),
            Array::Int(a) => a.null_count(),
            Array::Real(a) => a.null_count(),
            Array::Text(a) => a.null_count(),
        }
    }

    /// Read element `i` as a [`Value`].
    pub fn value(&self, i: usize) -> (r: Value)
        requires
            self.wf(),
        ensures
            r == nth(self@.values, i as int),
    {
        match self {
            Array::Bool(a) => a.value(i),
            Array::Int(a) => a.value(i),
            Array::Real(a) => a.value(i),
            Array::Text(a) => a.value(i),
        }
    }

    /// Collect all elements as `Value`s.
    pub fn to_values(&self) -> (r: Vec<Value>)
        requires
            self.wf(),
        ensures
            r@ == self@.values,
    {
        let n = self.len();
        let mut v: Vec<Value> = Vec::new();
        let mut i: usize = 0;
        while i < n
            invariant
                i <= n,
                n == self@.values.len(),
                self.wf(),
                v@ == self@.values.take(i as int),
            decreases n - i,
        {
            v.push(self.value(i));
            assert(self@.values.take(i + 1) =~= self@.values.take(i as int).push(self@.values[i as int]));
            i += 1;
        }
        assert(self@.values.take(n as int) =~= self@.values);
        v
    }

    /// Slice `[start, start+len)` into a new owned array.
    pub fn slice(&self, start: usize, len: usize) -> (r: Array)
        requires
            self.wf(),
        ensures
            r.wf(),
            r@ == (ArrayModel { values: part(self@.values, start as int, len as int), ..self@ }),
    {
        match self {
            Array::Bool(a) => Array::Bool(a.slice(start, len)),
            Array::Int(a) => Array::Int(a.slice(start, len)),
            Array::Real(a) => Array::Real(a.slice(start, len)),
            Array::Text(a) => Array::Text(a.slice(start, len)),
        }
    }

    /// Keep only elements where `mask[i]` is true.
    pub fn filter(&self, mask: &[bool]) -> (r: Array)
        requires
            self.wf(),
        ensures
            r.wf(),
            r@ == (ArrayModel { values: kept(self@.values, mask@), ..self@ }),
    {
        match self {
            Array::Bool(a) => Array::Bool(a.filter(mask)),
            Array::Int(a) => Array::Int(a.filter(mask)),
            Array::Real(a) => Array::Real(a.filter(mask)),
            Array::Text(a) => Array::Text(a.filter(mask)),
        }
    }

    /// Gather elements at the given indices (indices out of range become null).
    pub fn take(&self, idx: &[usize]) -> (r: Array)
        requires
            self.wf(),
        ensures
            r.wf(),
            r@ == (ArrayModel {
                values: Seq::new(idx@.len(), |k: int| nth(self@.values, idx@[k] as int)),
                ..self@
            }),
    {
        match self {
            Array::Bool(a) => Array::Bool(a.take(idx)),
            Array::Int(a) => Array::Int(a.take(idx)),
            Array::Real(a) => Array::Real(a.take(idx)),
            Array::Text(a) => Array::Text(a.take(idx)),
        }
    }

    /// Build an array of `n` nulls of the given kind.
    pub fn nulls(kind: ColKind, n: usize) -> (r: Array)
        ensures
            r.wf(),
            r@ == (ArrayModel { kind, values: Seq::new(n as nat, |i: int| Value::Null) }),
    {
        let mut b = ArrayBuilder::new(kind);
        let mut i: usize = 0;
        while i < n
            invariant
                i <= n,
                b.wf(),
                b@.kind == kind,
                b@.values.len() == i,
                forall|k: int| 0 <= k < i ==> #[trigger] b@.values[k] is Null,
            decreases n - i,
        {
            b.push_null();
            i += 1;
        }
        let ghost m = b@;
        assert(m.values =~= Seq::new(n as nat, |i: int| Value::Null));
        b.finish()
    }

    /// Build from a slice of `Value`s, coercing to `kind`.
    pub fn from_values(kind: ColKind, values: &[Value]) -> (r: Array)
        ensures
            r.wf(),
            r@ == (ArrayModel { kind, values: all_coerced(kind, values@) }),
    {
        let ghost all = all_coerced(kind, values@);
        let mut b = ArrayBuilder::new(kind);
        let mut i: usize = 0;
        assert(all.take(0) =~= Seq::empty());
        while i < values.len()
            invariant
                i <= values@.len(),
                all == all_coerced(kind, values@),
                b.wf(),
                b@ == (ArrayModel { kind, values: all.take(i as int) }),
            decreases values@.len() - i,
        {
            b.push(values[i]);
            assert(all.take(i + 1) =~= all.take(i as int).push(all[i as int]));
            i += 1;
        }
        assert(all.take(values@.len() as int) =~= all);
        b.finish()
    }

    /// A copy of this array.
    pub fn copy(&self) -> (r: Array)
        requires
            self.wf(),
        ensures
            r.wf(),
            r@ == self@,
    {
        let n = self.len();
        let r = self.slice(0, n);
        assert(r@ =~= self@);
        r
    }
}

/// Builds a typed [`Array`] one [`Value`] at a time, coercing to a fixed kind.
pub struct ArrayBuilder {
    array: Array,
}

impl View for ArrayBuilder {
    type V = ArrayModel;

    closed spec fn view(&self) -> ArrayModel {
        self.array@
    }
}

impl ArrayBuilder {
    pub closed spec fn wf(&self) -> bool {
        self.array.wf()
    }

    /// A new builder producing an array of `kind`.
    pub fn new(kind: ColKind) -> (r: ArrayBuilder)
        ensures
            r.wf(),
            r@ == (ArrayModel { kind, values: Seq::empty() }),
    {
        let array = match kind {
            ColKind::Bool => Array::Bool(Typed::empty()),
            ColKind::Int => Array::Int(Typed::empty()),
            ColKind::Real => Array::Real(Typed::empty()),
            ColKind::Text => Array::Text(Typed::empty()),
        };
        ArrayBuilder { array }
    }

    /// The element kind.
    pub fn kind(&self) -> (r: ColKind)
        ensures
            r == self@.kind,
    {
        self.array.kind()
    }

    /// Number of elements pushed so far.
    pub fn len(&self) -> (r: usize)
        ensures
            r == self@.values.len(),
    {
        self.array.len()
    }

    /// `true` if nothing has been pushed.
    pub fn is_empty(&self) -> (r: bool)
        ensures
            r == (self@.values.len() == 0),
    {
        self.array.len() == 0
    }

    /// Append one value, coercing to the builder's kind. A value that cannot be
    /// coerced (or an explicit null) is appended as null.
    pub fn push(&mut self, v: Value)
        requires
            old(self).wf(),
            old(self)@.values.len() < usize::MAX,
        ensures
            final(self).wf(),
            final(self)@ == (ArrayModel {
                values: old(self)@.values.push(coerced(old(self)@.kind, v)),
                ..old(self)@
            }),
    {
        let null = v.is_null();
        match &mut self.array {
            Array::Bool(a) => match v.as_int() {
                Some(i) => a.put(i != 0, !null),
                None => a.put(false, false),
            },
            Array::Int(a) => match v.as_int() {
                Some(i) => a.put(i, !null),
                None => a.put(0, false),
            },
            Array::Real(a) => match v.as_real() {
                Some(b) => a.put(b, !null),
                None => a.put(0, false),
            },
            Array::Text(a) => match v.as_text_id() {
                Some(id) => a.put(id, true),
                None => a.put(0, false),
            },
        }
    }

    /// Append an explicit null.
    pub fn push_null(&mut self)
        requires
            old(self).wf(),
            old(self)@.values.len() < usize::MAX,
        ensures
            final(self).wf(),
            final(self)@ == (ArrayModel { values: old(self)@.values.push(Value::Null), ..old(self)@ }),
    {
        self.push(Value::Null);
    }

    /// Append a raw integer (only valid for an int builder).
    pub fn push_int(&mut self, i: i64)
        requires
            old(self).wf(),
            old(self)@.kind == ColKind::Int,
            old(self)@.values.len() < usize::MAX,
        ensures
            final(self).wf(),
            final(self)@ == (ArrayModel { values: old(self)@.values.push(Value::Int(i)), ..old(self)@ }),
    {
        self.push(Value::Int(i));
    }

    /// Consume the builder and produce the array.
    pub fn finish(self) -> (r: Array)
        requires
            self.wf(),
        ensures
            r.wf(),
            r@ == self@,
    {
        self.array
    }
}

// Batches

/// A horizontal collection of equal-length arrays with column names — the
/// in-memory batch that scans yield and that the import/export code exchanges.
#[derive(Debug, Clone, PartialEq)]
pub struct RecordBatch {
    names: Vec<String>,
    columns: Vec<Array>,
    rows: usize,
}

/// A batch: its names, its columns and how many rows it has.
#[verifier::ext_equal]
pub struct BatchModel {
    pub names: Seq<Seq<char>>,
    pub columns: Seq<ArrayModel>,
    pub rows: nat,
}

pub open spec fn name_views(v: Seq<String>) -> Seq<Seq<char>> {
    Seq::new(v.len(), |i: int| v[i]@)
}

pub open spec fn column_views(v: Seq<Array>) -> Seq<ArrayModel> {
    Seq::new(v.len(), |i: int| v[i]@)
}

impl View for RecordBatch {
    type V = BatchModel;

    closed spec fn view(&self) -> BatchModel {
        BatchModel { names: name_views(self.names@), columns: column_views(self.columns@), rows: self.rows as nat }
    }
}

/// The length of the longest column.
pub open spec fn longest(s: Seq<(String, Array)>) -> nat
    decreases s.len(),
{
    if s.len() == 0 {
        0
    } else {
        let d = longest(s.drop_last());
        let n = s.last().1@.values.len();
        if n > d {
            n
        } else {
            d
        }
    }
}

/// A column with nulls at its end, up to `n` values.
pub open spec fn padded(a: ArrayModel, n: nat) -> ArrayModel {
    ArrayModel { values: Seq::new(n, |i: int| nth(a.values, i)), ..a }
}

/// The batch of named columns; the shorter ones are padded.
pub open spec fn batch_of(s: Seq<(String, Array)>) -> BatchModel {
    BatchModel {
        names: Seq::new(s.len(), |i: int| s[i].0@),
        columns: Seq::new(s.len(), |i: int| padded(s[i].1@, longest(s))),
        rows: longest(s),
    }
}

proof fn lemma_longest(s: Seq<(String, Array)>, i: int)
    requires
        0 <= i < s.len(),
    ensures
        s[i].1@.values.len() <= longest(s),
    decreases s.len(),
{
    if i < s.len() - 1 {
        lemma_longest(s.drop_last(), i);
    }
}

/// The place of the first column with a name.
pub open spec fn place(names: Seq<Seq<char>>, name: Seq<char>) -> Option<int>
    decreases names.len(),
{
    if names.len() == 0 {
        None
    } else {
        match place(names.drop_last(), name) {
            Some(i) => Some(i),
            None => if names.last() == name {
                Some(names.len() - 1)
            } else {
                None
            },
        }
    }
}

/// An array with values at its end, as its kind holds them, up to `n` values.
fn extend(a: &Array, n: usize) -> (r: Array)
    requires
        a.wf(),
        a@.values.len() <= n,
        forall|i: int| 0 <= i < a@.values.len() ==> coerced(a@.kind, #[trigger] a@.values[i]) == a@.values[i],
    ensures
        r.wf(),
        r@ == padded(a@, n as nat),
{
    let mut b = ArrayBuilder::new(a.kind());
    let ghost all = padded(a@, n as nat).values;
    let mut i: usize = 0;
    assert(all.take(0) =~= Seq::empty());
    while i < n
        invariant
            i <= n,
            a.wf(),
            a@.values.len() <= n,
            all == padded(a@, n as nat).values,
            forall|i: int| 0 <= i < a@.values.len() ==> coerced(a@.kind, #[trigger] a@.values[i]) == a@.values[i],
            b.wf(),
            b@ == (ArrayModel { kind: a@.kind, values: all.take(i as int) }),
        decreases n - i,
    {
        let v = a.value(i);
        b.push(v);
        assert(all.take(i + 1) =~= all.take(i as int).push(all[i as int]));
        i += 1;
    }
    assert(all.take(n as int) =~= all);
    b.finish()
}

/// What a column holds is what its kind holds.
proof fn lemma_held(a: Array)
    requires
        a.wf(),
    ensures
        forall|i: int| 0 <= i < a@.values.len() ==> coerced(a@.kind, #[trigger] a@.values[i]) == a@.values[i],
{
}

/// What a well-formed batch holds: a name and the batch's rows for every column,
/// and values of the column's kind.
pub proof fn lemma_batch(b: RecordBatch)
    requires
        b.wf(),
    ensures
        b@.names.len() == b@.columns.len(),
        forall|i: int| 0 <= i < b@.columns.len() ==> (#[trigger] b@.columns[i]).values.len() == b@.rows,
        forall|i: int, j: int|
            #![trigger b@.columns[i].values[j]]
            0 <= i < b@.columns.len() && 0 <= j < b@.rows ==> coerced(b@.columns[i].kind, b@.columns[i].values[j])
                == b@.columns[i].values[j],
{
    assert forall|i: int, j: int|
        #![trigger b@.columns[i].values[j]]
        0 <= i < b@.columns.len() && 0 <= j < b@.rows implies coerced(b@.columns[i].kind, b@.columns[i].values[j])
        == b@.columns[i].values[j] by {
        lemma_held(b.columns@[i]);
    }
}

impl RecordBatch {
    /// Every column has the batch's rows and a name.
    pub closed spec fn wf(&self) -> bool {
        &&& self.names@.len() == self.columns@.len()
        &&& forall|i: int|
            0 <= i < self.columns@.len() ==> (#[trigger] self.columns@[i]).wf() && self.columns@[i]@.values.len()
                == self.rows
    }

    /// Build a batch from `(name, array)` pairs. All arrays must have equal
    /// length; the shorter ones are padded with trailing nulls.
    pub fn new(pairs: Vec<(String, Array)>) -> (r: RecordBatch)
        requires
            forall|i: int| 0 <= i < pairs@.len() ==> (#[trigger] pairs@[i]).1.wf(),
        ensures
            r.wf(),
            r@ == batch_of(pairs@),
    {
        let mut rows: usize = 0;
        let mut i: usize = 0;
        while i < pairs.len()
            invariant
                i <= pairs@.len(),
                rows == longest(pairs@.take(i as int)),
            decreases pairs@.len() - i,
        {
            assert(pairs@.take(i + 1).drop_last() =~= pairs@.take(i as int));
            let n = pairs[i].1.len();
            if n > rows {
                rows = n;
            }
            i += 1;
        }
        assert(pairs@.take(pairs@.len() as int) =~= pairs@);
        let mut names: Vec<String> = Vec::new();
        let mut columns: Vec<Array> = Vec::new();
        let mut k: usize = 0;
        while k < pairs.len()
            invariant
                k <= pairs@.len(),
                rows == longest(pairs@),
                forall|i: int| 0 <= i < pairs@.len() ==> (#[trigger] pairs@[i]).1.wf(),
                names@.len() == k,
                columns@.len() == k,
                forall|i: int| 0 <= i < k ==> (#[trigger] names@[i])@ == pairs@[i].0@,
                forall|i: int|
                    0 <= i < k ==> (#[trigger] columns@[i]).wf() && columns@[i]@ == padded(pairs@[i].1@, rows as nat),
            decreases pairs@.len() - k,
        {
            let p = &pairs[k];
            proof {
                lemma_longest(pairs@, k as int);
                lemma_held(p.1);
            }
            names.push(sql::copy_text(&p.0));
            columns.push(extend(&p.1, rows));
            k += 1;
        }
        let r = RecordBatch { names, columns, rows };
        proof {
            assert(r@.names =~= batch_of(pairs@).names);
            assert(r@.columns =~= batch_of(pairs@).columns);
        }
        r
    }

    /// Number of columns.
    pub fn width(&self) -> (r: usize)
        ensures
            r == self@.columns.len(),
    {
        self.columns.len()
    }

    /// Number of rows.
    pub fn rows(&self) -> (r: usize)
        ensures
            r == self@.rows,
    {
        self.rows
    }

    /// `true` if there are no rows.
    pub fn is_empty(&self) -> (r: bool)
        ensures
            r == (self@.rows == 0),
    {
        self.rows == 0
    }

    /// Column names.
    pub fn names(&self) -> (r: &[String])
        ensures
            name_views(r@) == self@.names,
    {
        self.names.as_slice()
    }

    /// Column arrays.
    pub fn columns(&self) -> (r: &[Array])
        requires
            self.wf(),
        ensures
            column_views(r@) == self@.columns,
            forall|i: int| 0 <= i < r@.len() ==> (#[trigger] r@[i]).wf(),
    {
        self.columns.as_slice()
    }

    /// Column by name.
    pub fn column(&self, name: &str) -> (r: Option<&Array>)
        requires
            self.wf(),
        ensures
            match (r, place(self@.names, name@)) {
                (Some(a), Some(i)) => a.wf() && a@ == self@.columns[i],
                (None, None) => true,
                _ => false,
            },
    {
        let ghost s = self@.names;
        let mut i: usize = 0;
        while i < self.names.len()
            invariant
                i <= self.names@.len(),
                s == self@.names,
                self.wf(),
                place(s.take(i as int), name@) is None,
            decreases self.names@.len() - i,
        {
            proof {
                assert(s.take(i + 1).drop_last() =~= s.take(i as int));
                assert(s.take(i + 1).last() == s[i as int]);
            }
            if text::same_text(self.names[i].as_str(), name) {
                proof {
                    lemma_place_prefix(s, name@, i + 1);
                }
                return Some(&self.columns[i]);
            }
            i += 1;
        }
        assert(s.take(s.len() as int) =~= s);
        None
    }

    /// Column by position.
    pub fn column_at(&self, i: usize) -> (r: Option<&Array>)
        requires
            self.wf(),
        ensures
            match r {
                Some(a) => i < self@.columns.len() && a.wf() && a@ == self@.columns[i as int],
                None => i >= self@.columns.len(),
            },
    {
        if i < self.columns.len() {
            Some(&self.columns[i])
        } else {
            None
        }
    }

    /// Materialize row `r` as a vector of values.
    pub fn row(&self, r: usize) -> (v: Vec<Value>)
        requires
            self.wf(),
        ensures
            v@ == Seq::new(self@.columns.len(), |c: int| nth(self@.columns[c].values, r as int)),
    {
        let ghost all = Seq::new(self@.columns.len(), |c: int| nth(self@.columns[c].values, r as int));
        let mut v: Vec<Value> = Vec::new();
        let mut c: usize = 0;
        while c < self.columns.len()
            invariant
                c <= self.columns@.len(),
                self.wf(),
                all == Seq::new(self@.columns.len(), |c: int| nth(self@.columns[c].values, r as int)),
                v@ == all.take(c as int),
            decreases self.columns@.len() - c,
        {
            v.push(self.columns[c].value(r));
            assert(all.take(c + 1) =~= all.take(c as int).push(all[c as int]));
            c += 1;
        }
        assert(all.take(self@.columns.len() as int) =~= all);
        v
    }

    fn with_columns(&self, columns: Vec<Array>) -> (r: RecordBatch)
        requires
            self.wf(),
            columns@.len() == self@.columns.len(),
            forall|i: int|
                0 <= i < columns@.len() ==> (#[trigger] columns@[i]).wf() && columns@[i]@.values.len()
                    == columns@[0]@.values.len(),
        ensures
            r.wf(),
            r@.names == self@.names,
            r@.columns == column_views(columns@),
            r@.rows == (if columns@.len() == 0 {
                0
            } else {
                columns@[0]@.values.len()
            }),
    {
        let rows: usize = if columns.len() == 0 {
            0
        } else {
            columns[0].len()
        };
        let mut names: Vec<String> = Vec::new();
        let mut i: usize = 0;
        while i < self.names.len()
            invariant
                i <= self.names@.len(),
                names@.len() == i,
                forall|k: int| 0 <= k < i ==> (#[trigger] names@[k])@ == self.names@[k]@,
            decreases self.names@.len() - i,
        {
            names.push(sql::copy_text(&self.names[i]));
            i += 1;
        }
        let r = RecordBatch { names, columns, rows };
        assert(r@.names =~= self@.names);
        r
    }

    /// Slice a window of rows into a new batch.
    pub fn slice(&self, start: usize, len: usize) -> (r: RecordBatch)
        requires
            self.wf(),
        ensures
            r.wf(),
            r@.names == self@.names,
            r@.columns == Seq::new(
                self@.columns.len(),
                |i: int|
                    (ArrayModel { values: part(self@.columns[i].values, start as int, len as int), ..self@.columns[i] }),
            ),
            r@.rows == (if self@.columns.len() == 0 {
                0
            } else {
                part(self@.columns[0].values, start as int, len as int).len()
            }),
    {
        let mut columns: Vec<Array> = Vec::new();
        let mut i: usize = 0;
        while i < self.columns.len()
            invariant
                i <= self.columns@.len(),
                self.wf(),
                columns@.len() == i,
                forall|k: int|
                    0 <= k < i ==> (#[trigger] columns@[k]).wf() && columns@[k]@ == (ArrayModel {
                        values: part(self@.columns[k].values, start as int, len as int),
                        ..self@.columns[k]
                    }),
            decreases self.columns@.len() - i,
        {
            columns.push(self.columns[i].slice(start, len));
            i += 1;
        }
        proof {
            assert forall|i: int| 0 <= i < columns@.len() implies (#[trigger] columns@[i]).wf()
                && columns@[i]@.values.len() == columns@[0]@.values.len() by {
                assert(self.columns@[i]@.values.len() == self.rows);
                assert(self.columns@[0]@.values.len() == self.rows);
            }
        }
        let r = self.with_columns(columns);
        assert(r@.columns =~= Seq::new(
            self@.columns.len(),
            |i: int|
                (ArrayModel { values: part(self@.columns[i].values, start as int, len as int), ..self@.columns[i] }),
        ));
        r
    }

    /// Filter every column by the same boolean mask.
    pub fn filter(&self, mask: &[bool]) -> (r: RecordBatch)
        requires
            self.wf(),
        ensures
            r.wf(),
            r@.names == self@.names,
            r@.columns == Seq::new(
                self@.columns.len(),
                |i: int| (ArrayModel { values: kept(self@.columns[i].values, mask@), ..self@.columns[i] }),
            ),
            r@.rows == (if self@.columns.len() == 0 {
                0
            } else {
                kept(self@.columns[0].values, mask@).len()
            }),
    {
        let mut columns: Vec<Array> = Vec::new();
        let mut i: usize = 0;
        while i < self.columns.len()
            invariant
                i <= self.columns@.len(),
                self.wf(),
                columns@.len() == i,
                forall|k: int|
                    0 <= k < i ==> (#[trigger] columns@[k]).wf() && columns@[k]@ == (ArrayModel {
                        values: kept(self@.columns[k].values, mask@),
                        ..self@.columns[k]
                    }),
            decreases self.columns@.len() - i,
        {
            columns.push(self.columns[i].filter(mask));
            i += 1;
        }
        proof {
            assert forall|i: int| 0 <= i < columns@.len() implies (#[trigger] columns@[i]).wf()
                && columns@[i]@.values.len() == columns@[0]@.values.len() by {
                assert(self.columns@[i]@.values.len() == self.rows);
                assert(self.columns@[0]@.values.len() == self.rows);
                lemma_kept_len(self.columns@[i]@.values, self.columns@[0]@.values, mask@);
            }
        }
        let r = self.with_columns(columns);
        assert(r@.columns =~= Seq::new(
            self@.columns.len(),
            |i: int| (ArrayModel { values: kept(self@.columns[i].values, mask@), ..self@.columns[i] }),
        ));
        r
    }

    /// Concatenate two batches with identical schema: each column of this batch,
    /// then what the other has under its name, as the column's kind holds it.
    pub fn concat(&self, other: &RecordBatch) -> (r: RecordBatch)
        requires
            self.wf(),
            other.wf(),
            self@.rows + other@.rows <= usize::MAX,
        ensures
            r.wf(),
            exists|pairs: Seq<(String, Array)>| #[trigger]
                batch_of(pairs) == r@ && pairs.len() == self@.columns.len() && forall|i: int|
                    0 <= i < pairs.len() ==> (#[trigger] pairs[i]).0@ == self@.names[i] && pairs[i].1@ == joined(
                        self@.columns[i],
                        other@,
                        self@.names[i],
                    ),
    {
        let mut pairs: Vec<(String, Array)> = Vec::new();
        let mut i: usize = 0;
        while i < self.names.len()
            invariant
                i <= self.names@.len(),
                self.wf(),
                other.wf(),
                self@.rows + other@.rows <= usize::MAX,
                pairs@.len() == i,
                forall|k: int|
                    0 <= k < i ==> (#[trigger] pairs@[k]).1.wf() && pairs@[k].0@ == self@.names[k] && pairs@[k].1@
                        == joined(self@.columns[k], other@, self@.names[k]),
            decreases self.names@.len() - i,
        {
            proof {
                lemma_place_range(other@.names, self.names@[i as int]@);
                if let Some(k) = place(other@.names, self.names@[i as int]@) {
                    assert(other.columns@[k]@.values.len() == other.rows);
                }
                assert(self.columns@[i as int]@.values.len() == self.rows);
            }
            let a = join_columns(&self.columns[i], other.column(self.names[i].as_str()));
            proof {
                assert(self.columns@[i as int]@ == self@.columns[i as int]);
            }
            pairs.push((sql::copy_text(&self.names[i]), a));
            i += 1;
        }
        RecordBatch::new(pairs)
    }
}

/// A column followed by what another batch has under its name.
pub open spec fn joined(a: ArrayModel, other: BatchModel, name: Seq<char>) -> ArrayModel {
    match place(other.names, name) {
        Some(i) => ArrayModel { values: a.values + all_coerced(a.kind, other.columns[i].values), ..a },
        None => a,
    }
}

fn join_columns(a: &Array, b: Option<&Array>) -> (r: Array)
    requires
        a.wf(),
        b matches Some(c) ==> c.wf() && a@.values.len() + c@.values.len() <= usize::MAX,
    ensures
        r.wf(),
        r@ == (match b {
            Some(c) => ArrayModel { values: a@.values + all_coerced(a@.kind, c@.values), ..a@ },
            None => a@,
        }),
{
    let c = match b {
        None => return a.copy(),
        Some(c) => c,
    };
    let mut out = ArrayBuilder { array: a.copy() };
    let n = c.len();
    let ghost all = all_coerced(a@.kind, c@.values);
    let mut i: usize = 0;
    assert(a@.values + all.take(0) =~= a@.values);
    while i < n
        invariant
            i <= n,
            n == c@.values.len(),
            c.wf(),
            a@.values.len() + n <= usize::MAX,
            all == all_coerced(a@.kind, c@.values),
            out.wf(),
            out@ == (ArrayModel { kind: a@.kind, values: a@.values + all.take(i as int) }),
        decreases n - i,
    {
        out.push(c.value(i));
        assert((a@.values + all.take(i as int)).push(all[i as int]) =~= a@.values + all.take(i + 1));
        i += 1;
    }
    assert(all.take(n as int) =~= all);
    out.finish()
}

proof fn lemma_kept_len(s: Seq<Value>, t: Seq<Value>, mask: Seq<bool>)
    requires
        s.len() == t.len(),
    ensures
        kept(s, mask).len() == kept(t, mask).len(),
    decreases s.len(),
{
    if s.len() > 0 {
        lemma_kept_len(s.drop_last(), t.drop_last(), mask);
    }
}

proof fn lemma_place_range(s: Seq<Seq<char>>, name: Seq<char>)
    ensures
        place(s, name) matches Some(i) ==> 0 <= i < s.len(),
    decreases s.len(),
{
    if s.len() > 0 {
        lemma_place_range(s.drop_last(), name);
    }
}

proof fn lemma_place_prefix(s: Seq<Seq<char>>, name: Seq<char>, n: int)
    requires
        0 <= n <= s.len(),
        place(s.take(n), name) is Some,
    ensures
        place(s, name) == place(s.take(n), name),
    decreases s.len() - n,
{
    if n < s.len() {
        assert(s.take(n + 1).drop_last() =~= s.take(n));
        lemma_place_prefix(s, name, n + 1);
    } else {
        assert(s.take(n) =~= s);
    }
}

/// What a mask keeps: the values whose flags are set, in order, each once, and no
/// others.
pub proof fn lemma_kept_values(s: Seq<Value>, mask: Seq<bool>) -> (at: Seq<int>)
    ensures
        at.len() == kept(s, mask).len(),
        forall|k: int| 0 <= k < at.len() ==> 0 <= #[trigger] at[k] < s.len() && kept(s, mask)[k] == s[at[k]],
        forall|k: int, l: int| 0 <= k < l < at.len() ==> at[k] < at[l],
        forall|i: int| 0 <= i < s.len() ==> (#[trigger] at.contains(i) <==> i < mask.len() && mask[i]),
    decreases s.len(),
{
    if s.len() == 0 {
        Seq::empty()
    } else {
        let d = s.drop_last();
        let before = lemma_kept_values(d, mask);
        let n = s.len() - 1;
        let hit = n < mask.len() && mask[n];
        let at = if hit {
            before.push(n)
        } else {
            before
        };
        assert forall|i: int| 0 <= i < s.len() implies (#[trigger] at.contains(i) <==> i < mask.len() && mask[i]) by {
            if i < n {
                if before.contains(i) {
                    assert(at[before.index_of(i)] == i);
                }
                if at.contains(i) {
                    let t = at.index_of(i);
                    assert(before[t] == i);
                }
            } else if hit {
                assert(at[before.len() as int] == i);
            } else if at.contains(i) {
                assert(before[before.index_of(i)] < d.len());
            }
        }
        assert forall|k: int| 0 <= k < at.len() implies 0 <= #[trigger] at[k] < s.len() && kept(s, mask)[k] == s[at[k]] by {
            if k < before.len() {
                assert(before[k] < d.len());
                assert(d[before[k]] == s[before[k]]);
            }
        }
        at
    }
}

/// A slice: from its start on as many values as it asks for, or as there are.
pub proof fn lemma_part_values(s: Seq<Value>, start: int, len: int)
    requires
        0 <= start,
        0 <= len,
    ensures
        start >= s.len() ==> part(s, start, len).len() == 0,
        start + len <= s.len() ==> part(s, start, len).len() == len,
        start <= s.len() <= start + len ==> part(s, start, len).len() == s.len() - start,
        forall|k: int| 0 <= k < part(s, start, len).len() ==> #[trigger] part(s, start, len)[k] == s[start + k],
{
}

/// Counting nulls and flags: a value that is not null counts one, a null none, and a list
/// counts what its parts count; so it is with flags.
pub proof fn lemma_counted(s: Seq<Value>, v: Value, f: Seq<bool>, b: bool)
    ensures
        present(Seq::empty()) == 0,
        v is Null ==> present(s.push(v)) == present(s),
        !(v is Null) ==> present(s.push(v)) == present(s) + 1,
        trues(Seq::empty()) == 0,
        b ==> trues(f.push(b)) == trues(f) + 1,
        !b ==> trues(f.push(b)) == trues(f),
{
    assert(s.push(v).drop_last() =~= s);
    assert(f.push(b).drop_last() =~= f);
}

/// What columns hold. A value of the column's kind, and a null, stays. A truth value is
/// one or zero among integers, and an integer is true where it is not zero. An integer
/// is a real among reals. Nothing else fits.
pub proof fn lemma_coerced(b: bool, i: i64, x: u64, id: u32, kind: ColKind)
    ensures
        coerced(kind, Value::Null) is Null,
        coerced(ColKind::Bool, Value::Bool(b)) == Value::Bool(b),
        coerced(ColKind::Bool, Value::Int(i)) == Value::Bool(i != 0),
        coerced(ColKind::Bool, Value::Text(id)) is Null && coerced(ColKind::Bool, Value::Real(x)) is Null,
        coerced(ColKind::Int, Value::Int(i)) == Value::Int(i),
        coerced(ColKind::Int, Value::Bool(true)) == Value::Int(1),
        coerced(ColKind::Int, Value::Bool(false)) == Value::Int(0),
        coerced(ColKind::Int, Value::Text(id)) is Null && coerced(ColKind::Int, Value::Real(x)) is Null,
        coerced(ColKind::Real, Value::Real(x)) == Value::Real(x),
        coerced(ColKind::Real, Value::Int(i)) == Value::Real(value::real_of_int(i)),
        coerced(ColKind::Real, Value::Text(id)) is Null,
        coerced(ColKind::Text, Value::Text(id)) == Value::Text(id),
        coerced(ColKind::Text, Value::Int(i)) is Null && coerced(ColKind::Text, Value::Bool(b)) is Null && coerced(
            ColKind::Text,
            Value::Real(x),
        ) is Null,
{
}

/// The integers of a column: one more integer adds itself, and anything else nothing.
pub proof fn lemma_ints_of(s: Seq<Value>, v: Value)
    ensures
        ints_of(Seq::empty()).len() == 0,
        v matches Value::Int(i) ==> ints_of(s.push(v)) == ints_of(s).push(i),
        v is Null ==> ints_of(s.push(v)) == ints_of(s),
{
    assert(s.push(v).drop_last() =~= s);
}

/// The column under a name: the first that has it, and none where no column has.
pub proof fn lemma_place(names: Seq<Seq<char>>, name: Seq<char>)
    ensures
        match place(names, name) {
            Some(i) => 0 <= i < names.len() && names[i] == name && forall|j: int| 0 <= j < i ==> #[trigger] names[j] != name,
            None => !names.contains(name),
        },
    decreases names.len(),
{
    if names.len() > 0 {
        let d = names.drop_last();
        lemma_place(d, name);
        if place(d, name) is None {
            assert forall|j: int| 0 <= j < d.len() implies #[trigger] names[j] != name by {
                assert(d[j] == names[j]);
                if d[j] == name {
                    assert(d.contains(name));
                }
            }
            if names.contains(name) {
                let j = names.index_of(name);
                assert(j == names.len() - 1);
            }
        } else {
            let i = place(d, name)->0;
            assert forall|j: int| 0 <= j < i implies #[trigger] names[j] != name by {
                assert(d[j] == names[j]);
            }
        }
    }
}

/// A batch of columns: as many rows as the longest column has values, every column with
/// its own values first and nulls behind them.
pub proof fn lemma_batch_of(s: Seq<(String, Array)>, c: int, r: int)
    requires
        0 <= c < s.len(),
        0 <= r < batch_of(s).rows,
    ensures
        s[c].1@.values.len() <= batch_of(s).rows,
        exists|k: int| 0 <= k < s.len() && (#[trigger] s[k]).1@.values.len() == batch_of(s).rows,
        batch_of(s).names[c] == s[c].0@,
        batch_of(s).columns[c].kind == s[c].1@.kind,
        batch_of(s).columns[c].values.len() == batch_of(s).rows,
        r < s[c].1@.values.len() ==> batch_of(s).columns[c].values[r] == s[c].1@.values[r],
        r >= s[c].1@.values.len() ==> batch_of(s).columns[c].values[r] is Null,
{
    lemma_longest(s, c);
    lemma_longest_there(s);
}

proof fn lemma_longest_there(s: Seq<(String, Array)>)
    requires
        longest(s) > 0,
    ensures
        exists|k: int| 0 <= k < s.len() && (#[trigger] s[k]).1@.values.len() == longest(s),
    decreases s.len(),
{
    let d = s.drop_last();
    let n = s.len() - 1;
    if s[n].1@.values.len() > longest(d) {
        assert(s[n].1@.values.len() == longest(s));
    } else {
        lemma_longest_there(d);
        let k = choose|k: int| 0 <= k < d.len() && (#[trigger] d[k]).1@.values.len() == longest(d);
        assert(s[k] == d[k]);
    }
}

/// Two batches one after the other: a column's values, then those that the other batch
/// has under its name, as the column holds them; where the other has none, the column.
pub proof fn lemma_joined(a: ArrayModel, other: BatchModel, name: Seq<char>, i: int, k: int)
    requires
        0 <= i < other.names.len(),
        other.names[i] == name,
        forall|j: int| 0 <= j < i ==> #[trigger] other.names[j] != name,
        0 <= k < other.columns[i].values.len(),
    ensures
        joined(a, other, name).values.len() == a.values.len() + other.columns[i].values.len(),
        joined(a, other, name).values.take(a.values.len() as int) == a.values,
        joined(a, other, name).values[a.values.len() + k] == coerced(a.kind, other.columns[i].values[k]),
        joined(a, other, name).kind == a.kind,
{
    lemma_place(other.names, name);
    assert(other.names.contains(name));
    let p = place(other.names, name)->0;
    assert(p == i) by {
        if p < i {
            assert(other.names[p] != name);
        }
    }
    assert(joined(a, other, name).values.take(a.values.len() as int) =~= a.values);
}

} // verus!
