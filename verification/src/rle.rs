//! Run-length encoded columns.
//!
//! A run is a value and how often it repeats. Runs are stored as a count
//! followed by fixed-size records:
//!
//! ```text
//!   [u32 num_runs]
//!   for each run: [u8 tag][u64 payload][u32 count]
//! ```
//!
//! The tag and the payload are the value: a boolean as 0 or 1, an integer in
//! two's complement, a real as its bits, a text as its dictionary id.

use crate::bytes;
use crate::error::DecodeError;
use crate::value::Value;
use vstd::prelude::*;

verus! {

/// A value and how often it repeats.
#[derive(Debug, Clone, Copy, PartialEq, Eq, Structural)]
pub struct Run {
    pub value: Value,
    pub count: u32,
}

impl Run {
    pub fn new(value: Value, count: u32) -> (r: Run)
        ensures
            r == (Run { value, count }),
    {
        Run { value, count }
    }
}

/// The values that runs stand for.
pub open spec fn flat(runs: Seq<Run>) -> Seq<Value>
    decreases runs.len(),
{
    if runs.len() == 0 {
        Seq::empty()
    } else {
        flat(runs.drop_last()) + Seq::new(runs.last().count as nat, |i: int| runs.last().value)
    }
}

/// Runs with one more at the end, folded into the last one where it can be.
pub open spec fn joined(runs: Seq<Run>, r: Run) -> Seq<Run> {
    if runs.len() > 0 && runs.last().value == r.value && runs.last().count + r.count <= u32::MAX {
        runs.drop_last().push(Run { value: r.value, count: (runs.last().count + r.count) as u32 })
    } else {
        runs.push(r)
    }
}

/// Runs with equal neighbours folded together.
pub open spec fn coalesced(runs: Seq<Run>) -> Seq<Run>
    decreases runs.len(),
{
    if runs.len() == 0 {
        Seq::empty()
    } else {
        joined(coalesced(runs.drop_last()), runs.last())
    }
}

/// One run of length one for each value.
pub open spec fn singles(v: Seq<Value>) -> Seq<Run> {
    Seq::new(v.len(), |i: int| Run { value: v[i], count: 1 })
}

/// The stored runs of a column of values.
pub open spec fn packed(v: Seq<Value>) -> Seq<u8> {
    runs_bytes(coalesced(singles(v)))
}

pub proof fn lemma_flat_push(runs: Seq<Run>, r: Run)
    ensures
        flat(runs.push(r)) == flat(runs) + Seq::new(r.count as nat, |i: int| r.value),
{
    assert(runs.push(r).drop_last() =~= runs);
}

proof fn lemma_flat_joined(runs: Seq<Run>, r: Run)
    ensures
        flat(joined(runs, r)) == flat(runs) + Seq::new(r.count as nat, |i: int| r.value),
{
    lemma_flat_push(runs, r);
    if runs.len() > 0 && runs.last().value == r.value && runs.last().count + r.count <= u32::MAX {
        let d = runs.drop_last();
        let m = Run { value: r.value, count: (runs.last().count + r.count) as u32 };
        lemma_flat_push(d, m);
        assert(flat(joined(runs, r)) =~= flat(runs) + Seq::new(r.count as nat, |i: int| r.value));
    }
}

/// Folding runs keeps the values.
pub proof fn lemma_coalesced(runs: Seq<Run>)
    ensures
        flat(coalesced(runs)) == flat(runs),
        coalesced(runs).len() <= runs.len(),
    decreases runs.len(),
{
    if runs.len() > 0 {
        lemma_coalesced(runs.drop_last());
        lemma_flat_joined(coalesced(runs.drop_last()), runs.last());
    }
}

/// Runs of length one stand for their values.
pub proof fn lemma_singles(v: Seq<Value>)
    ensures
        flat(singles(v)) == v,
    decreases v.len(),
{
    if v.len() > 0 {
        let d = v.drop_last();
        lemma_singles(d);
        assert(singles(v).drop_last() =~= singles(d));
        assert(flat(singles(v)) =~= v);
    } else {
        assert(flat(singles(v)) =~= v);
    }
}

// Storage

/// The stored tag of a value.
pub open spec fn tag_of(v: Value) -> u8 {
    match v {
        Value::Null => 0,
        Value::Bool(_) => 1,
        Value::Int(_) => 2,
        Value::Real(_) => 3,
        Value::Text(_) => 4,
    }
}

/// The stored payload of a value.
pub open spec fn payload_of(v: Value) -> u64 {
    match v {
        Value::Null => 0,
        Value::Bool(b) => if b {
            1
        } else {
            0
        },
        Value::Int(i) => bytes::twos(i),
        Value::Real(r) => r,
        Value::Text(id) => id as u64,
    }
}

/// The value that a tag and a payload stand for.
pub open spec fn value_from(tag: u8, payload: u64) -> Option<Value> {
    if tag == 0 {
        Some(Value::Null)
    } else if tag == 1 && payload <= 1 {
        Some(Value::Bool(payload == 1))
    } else if tag == 2 {
        Some(Value::Int(bytes::untwos(payload)))
    } else if tag == 3 {
        Some(Value::Real(payload))
    } else if tag == 4 && payload <= u32::MAX {
        Some(Value::Text(payload as u32))
    } else {
        None
    }
}

/// The nine stored bytes of a value.
pub open spec fn value_bytes(v: Value) -> Seq<u8> {
    seq![tag_of(v)] + bytes::le64(payload_of(v))
}

/// The value stored at an offset.
pub open spec fn value_at(s: Seq<u8>, pos: int) -> Option<Value> {
    value_from(s[pos], bytes::u64_at(s, pos + 1))
}

/// A value is read back where it was stored.
pub proof fn lemma_value_at(a: Seq<u8>, v: Value, b: Seq<u8>)
    ensures
        value_at(a + value_bytes(v) + b, a.len() as int) == Some(v),
        value_bytes(v).len() == 9,
{
    let s = a + value_bytes(v) + b;
    let head = a + seq![tag_of(v)];
    bytes::lemma_u64_between(head, payload_of(v), b);
    assert(s =~= head + bytes::le64(payload_of(v)) + b);
    match v {
        Value::Int(i) => bytes::lemma_twos_round_trip(i),
        _ => {},
    }
}

pub fn put_value(out: &mut Vec<u8>, v: &Value)
    ensures
        final(out)@ == old(out)@ + value_bytes(*v),
{
    let (tag, payload): (u8, u64) = match v {
        Value::Null => (0, 0),
        Value::Bool(b) => (
            1,
            if *b {
                1
            } else {
                0
            },
        ),
        Value::Int(i) => (2, bytes::to_twos(*i)),
        Value::Real(r) => (3, *r),
        Value::Text(id) => (4, *id as u64),
    };
    out.push(tag);
    bytes::put_u64(out, payload);
    assert(out@ =~= old(out)@ + value_bytes(*v));
}

pub fn get_value(buf: &[u8], pos: usize) -> (r: Option<Value>)
    requires
        pos + 9 <= buf@.len(),
    ensures
        r == value_at(buf@, pos as int),
{
    assert(pos + 9 <= buf.len());
    let tag: u8 = buf[pos];
    let payload: u64 = bytes::get_u64(buf, pos + 1);
    match tag {
        0 => Some(Value::Null),
        1 => if payload <= 1 {
            Some(Value::Bool(payload == 1))
        } else {
            None
        },
        2 => Some(Value::Int(bytes::from_twos(payload))),
        3 => Some(Value::Real(payload)),
        4 => if payload <= 0xFFFF_FFFF {
            Some(Value::Text(payload as u32))
        } else {
            None
        },
        _ => None,
    }
}

/// The stored bytes of one run.
pub open spec fn run_bytes(r: Run) -> Seq<u8> {
    value_bytes(r.value) + bytes::le32(r.count)
}

pub open spec fn all_run_bytes(runs: Seq<Run>) -> Seq<u8>
    decreases runs.len(),
{
    if runs.len() == 0 {
        Seq::empty()
    } else {
        all_run_bytes(runs.drop_last()) + run_bytes(runs.last())
    }
}

/// The stored bytes of runs.
pub open spec fn runs_bytes(runs: Seq<Run>) -> Seq<u8> {
    bytes::le32(runs.len() as u32) + all_run_bytes(runs)
}

/// The run stored in record `i`.
pub open spec fn run_at(s: Seq<u8>, i: int) -> Option<Run> {
    match value_at(s, 4 + 13 * i) {
        Some(value) => Some(Run { value, count: bytes::u32_at(s, 4 + 13 * i + 9) }),
        None => None,
    }
}

/// The runs stored in `s`, or why there are none.
pub open spec fn runs_of(s: Seq<u8>) -> Result<Seq<Run>, DecodeError> {
    if s.len() < 4 || 4 + 13 * bytes::u32_at(s, 0) > s.len() {
        Err(DecodeError::Truncated)
    } else if exists|i: int| 0 <= i < bytes::u32_at(s, 0) && (#[trigger] run_at(s, i)) is None {
        Err(DecodeError::BadEncoding)
    } else {
        Ok(Seq::new(bytes::u32_at(s, 0) as nat, |i: int| run_at(s, i)->0))
    }
}

/// The values stored in `s`; none where it cannot be read.
pub open spec fn values_of(s: Seq<u8>) -> Seq<Value> {
    match runs_of(s) {
        Ok(runs) => flat(runs),
        Err(_) => Seq::empty(),
    }
}

proof fn lemma_all_run_bytes(runs: Seq<Run>, i: int)
    requires
        0 <= i <= runs.len(),
    ensures
        all_run_bytes(runs).len() == 13 * runs.len(),
        i < runs.len() ==> all_run_bytes(runs).subrange(13 * i, 13 * i + 13) == run_bytes(runs[i]),
    decreases runs.len(),
{
    if runs.len() > 0 {
        let d = runs.drop_last();
        lemma_all_run_bytes(
            d,
            if i < d.len() {
                i
            } else {
                0
            },
        );
        lemma_value_at(Seq::empty(), runs.last().value, Seq::empty());
        bytes::lemma_u32_between(Seq::empty(), runs.last().count, Seq::empty());
        let s = all_run_bytes(runs);
        if i < d.len() {
            assert(s.subrange(13 * i, 13 * i + 13) =~= all_run_bytes(d).subrange(13 * i, 13 * i + 13));
        } else if i < runs.len() {
            assert(s.subrange(13 * i, 13 * i + 13) =~= run_bytes(runs[i]));
        }
    }
}

/// Runs are stored in records of one length behind their count.
pub proof fn lemma_runs_len(runs: Seq<Run>)
    ensures
        runs_bytes(runs).len() == 4 + 13 * runs.len(),
{
    bytes::lemma_le32_len(runs.len() as u32);
    lemma_all_run_bytes(runs, 0);
}

/// Reading stored runs gives them back.
pub proof fn lemma_runs_round_trip(runs: Seq<Run>)
    requires
        runs.len() <= u32::MAX,
    ensures
        runs_of(runs_bytes(runs)) == Ok::<Seq<Run>, DecodeError>(runs),
{
    let s = runs_bytes(runs);
    let body = all_run_bytes(runs);
    bytes::lemma_u32_between(Seq::empty(), runs.len() as u32, body);
    assert(s =~= Seq::<u8>::empty() + bytes::le32(runs.len() as u32) + body);
    lemma_all_run_bytes(runs, 0);
    assert forall|i: int| 0 <= i < runs.len() implies #[trigger] run_at(s, i) == Some(runs[i]) by {
        lemma_all_run_bytes(runs, i);
        let at = 4 + 13 * i;
        let a = s.take(at);
        let v = runs[i].value;
        let c = runs[i].count;
        let b = s.skip(at + 13);
        assert(s.subrange(at, at + 13) =~= body.subrange(13 * i, 13 * i + 13));
        assert(s =~= a + s.subrange(at, at + 13) + b);
        lemma_value_at(a, v, bytes::le32(c) + b);
        assert(s =~= a + value_bytes(v) + (bytes::le32(c) + b));
        bytes::lemma_u32_between(a + value_bytes(v), c, b);
        assert(s =~= (a + value_bytes(v)) + bytes::le32(c) + b);
    }
    assert(runs_of(s)->Ok_0 =~= runs);
}

/// Values packed into runs are read back.
pub proof fn lemma_packed(v: Seq<Value>)
    requires
        v.len() <= u32::MAX,
    ensures
        values_of(packed(v)) == v,
{
    lemma_coalesced(singles(v));
    lemma_singles(v);
    lemma_runs_round_trip(coalesced(singles(v)));
}

/// Store runs.
pub fn encode_runs(runs: &Vec<Run>) -> (out: Vec<u8>)
    requires
        runs@.len() <= u32::MAX,
    ensures
        out@ == runs_bytes(runs@),
{
    let mut out: Vec<u8> = Vec::new();
    bytes::put_u32(&mut out, runs.len() as u32);
    let mut i: usize = 0;
    assert(out@ =~= bytes::le32(runs@.len() as u32) + all_run_bytes(runs@.take(0)));
    while i < runs.len()
        invariant
            i <= runs@.len(),
            out@ == bytes::le32(runs@.len() as u32) + all_run_bytes(runs@.take(i as int)),
        decreases runs@.len() - i,
    {
        let r: Run = runs[i];
        let ghost was = out@;
        put_value(&mut out, &r.value);
        bytes::put_u32(&mut out, r.count);
        proof {
            assert(runs@.take(i + 1).drop_last() =~= runs@.take(i as int));
            assert(out@ =~= bytes::le32(runs@.len() as u32) + all_run_bytes(runs@.take(i + 1)));
        }
        i += 1;
    }
    assert(runs@.take(i as int) =~= runs@);
    out
}

/// Read stored runs.
pub fn decode_runs(buf: &[u8]) -> (r: Result<Vec<Run>, DecodeError>)
    ensures
        match r {
            Ok(v) => runs_of(buf@) == Ok::<Seq<Run>, DecodeError>(v@),
            Err(e) => runs_of(buf@) == Err::<Seq<Run>, DecodeError>(e),
        },
{
    if buf.len() < 4 {
        return Err(DecodeError::Truncated);
    }
    let n: u32 = bytes::get_u32(buf, 0);
    if n as usize > (buf.len() - 4) / 13 {
        return Err(DecodeError::Truncated);
    }
    let mut out: Vec<Run> = Vec::new();
    let mut i: u32 = 0;
    while i < n
        invariant
            i <= n,
            n == bytes::u32_at(buf@, 0),
            4 + 13 * n <= buf@.len(),
            out@.len() == i,
            forall|j: int| 0 <= j < i ==> #[trigger] run_at(buf@, j) == Some(out@[j]),
        decreases n - i,
    {
        assert(4 + 13 * n <= buf.len());
        let at: usize = 4 + 13 * (i as usize);
        match get_value(buf, at) {
            None => {
                assert(run_at(buf@, i as int) is None);
                return Err(DecodeError::BadEncoding);
            },
            Some(value) => {
                out.push(Run { value, count: bytes::get_u32(buf, at + 9) });
            },
        }
        i += 1;
    }
    assert(out@ =~= Seq::new(n as nat, |i: int| run_at(buf@, i)->0));
    Ok(out)
}

/// Fold equal neighbours together.
pub fn coalesce(runs: &Vec<Run>) -> (out: Vec<Run>)
    ensures
        out@ == coalesced(runs@),
        flat(out@) == flat(runs@),
{
    let mut out: Vec<Run> = Vec::new();
    let mut i: usize = 0;
    assert(out@ =~= coalesced(runs@.take(0)));
    while i < runs.len()
        invariant
            i <= runs@.len(),
            out@ == coalesced(runs@.take(i as int)),
        decreases runs@.len() - i,
    {
        let r: Run = runs[i];
        let ghost was = out@;
        let n: usize = out.len();
        assert(runs@.take(i + 1).drop_last() =~= runs@.take(i as int));
        if n > 0 && out[n - 1].value == r.value && r.count <= u32::MAX - out[n - 1].count {
            let count: u32 = out[n - 1].count + r.count;
            out.set(n - 1, Run { value: r.value, count });
            assert(out@ =~= joined(was, r));
        } else {
            out.push(r);
        }
        i += 1;
    }
    assert(runs@.take(i as int) =~= runs@);
    proof {
        lemma_coalesced(runs@);
    }
    out
}

/// The values that runs stand for.
pub fn materialize(runs: &Vec<Run>) -> (out: Vec<Value>)
    ensures
        out@ == flat(runs@),
{
    let mut out: Vec<Value> = Vec::new();
    let mut i: usize = 0;
    assert(out@ =~= flat(runs@.take(0)));
    while i < runs.len()
        invariant
            i <= runs@.len(),
            out@ == flat(runs@.take(i as int)),
        decreases runs@.len() - i,
    {
        let r: Run = runs[i];
        let ghost was = out@;
        let mut k: u32 = 0;
        while k < r.count
            invariant
                k <= r.count,
                out@ == was + Seq::new(k as nat, |i: int| r.value),
            decreases r.count - k,
        {
            out.push(r.value);
            k += 1;
            assert(out@ =~= was + Seq::new(k as nat, |i: int| r.value));
        }
        proof {
            assert(runs@.take(i + 1).drop_last() =~= runs@.take(i as int));
            assert(Seq::new(k as nat, |i: int| r.value) =~= Seq::new(
                runs@.take(i + 1).last().count as nat,
                |j: int| runs@.take(i + 1).last().value,
            ));
        }
        i += 1;
    }
    assert(runs@.take(i as int) =~= runs@);
    out
}

/// How many values runs stand for.
pub fn run_total(runs: &Vec<Run>) -> (n: u64)
    requires
        flat(runs@).len() <= u64::MAX,
    ensures
        n == flat(runs@).len(),
{
    let mut n: u64 = 0;
    let mut i: usize = 0;
    assert(flat(runs@.take(0)).len() == 0);
    while i < runs.len()
        invariant
            i <= runs@.len(),
            n == flat(runs@.take(i as int)).len(),
            flat(runs@).len() <= u64::MAX,
        decreases runs@.len() - i,
    {
        proof {
            assert(runs@.take(i + 1).drop_last() =~= runs@.take(i as int));
            lemma_flat_prefix(runs@, i + 1);
        }
        n = n + runs[i].count as u64;
        i += 1;
    }
    assert(runs@.take(i as int) =~= runs@);
    n
}

proof fn lemma_flat_prefix(runs: Seq<Run>, n: int)
    requires
        0 <= n <= runs.len(),
    ensures
        flat(runs.take(n)).len() <= flat(runs).len(),
    decreases runs.len() - n,
{
    if n < runs.len() {
        lemma_flat_prefix(runs, n + 1);
        assert(runs.take(n + 1).drop_last() =~= runs.take(n));
    } else {
        assert(runs.take(n) =~= runs);
    }
}

/// Store values as runs.
pub fn pack(values: &Vec<Value>) -> (out: Vec<u8>)
    requires
        values@.len() <= u32::MAX,
    ensures
        out@ == packed(values@),
{
    let mut runs: Vec<Run> = Vec::new();
    let mut i: usize = 0;
    while i < values.len()
        invariant
            i <= values@.len(),
            runs@ == singles(values@.take(i as int)),
        decreases values@.len() - i,
    {
        runs.push(Run::new(values[i], 1));
        i += 1;
        assert(runs@ =~= singles(values@.take(i as int)));
    }
    assert(values@.take(i as int) =~= values@);
    proof {
        lemma_coalesced(singles(values@));
    }
    encode_runs(&coalesce(&runs))
}

/// Read stored values; none where they cannot be read.
pub fn unpack(buf: &[u8]) -> (out: Vec<Value>)
    ensures
        out@ == values_of(buf@),
{
    match decode_runs(buf) {
        Ok(runs) => materialize(&runs),
        Err(_) => {
            let out: Vec<Value> = Vec::new();
            assert(out@ =~= Seq::<Value>::empty());
            out
        },
    }
}

/// Folded runs have no two neighbours of one value, unless they are too long together to
/// be counted.
pub proof fn lemma_neighbours_apart(runs: Seq<Run>)
    ensures
        forall|i: int|
            0 <= i < coalesced(runs).len() - 1 ==> (#[trigger] coalesced(runs)[i]).value != coalesced(runs)[i + 1].value
                || coalesced(runs)[i].count + coalesced(runs)[i + 1].count > 0xFFFF_FFFF,
    decreases runs.len(),
{
    if runs.len() > 0 {
        lemma_neighbours_apart(runs.drop_last());
        let d = coalesced(runs.drop_last());
        let c = coalesced(runs);
        let r = runs.last();
        assert forall|i: int| 0 <= i < c.len() - 1 implies (#[trigger] c[i]).value != c[i + 1].value || c[i].count + c[i
            + 1].count > 0xFFFF_FFFF by {
            assert(c[i] == d[i]);
            if i + 1 < d.len() {
                assert(d[i].value != d[i + 1].value || d[i].count + d[i + 1].count > 0xFFFF_FFFF);
                if i + 1 < c.len() - 1 {
                    assert(c[i + 1] == d[i + 1]);
                }
            }
        }
    }
}

} // verus!
