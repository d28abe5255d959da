//! Data-page bodies: the columnar chunk inside a page, and its cells.
//!
//! A body is stored as
//!
//! ```text
//!   [u32 num_rows][u32 num_cols]
//!   for each column: [u8 kind][u8 encoding][u32 data_len][data bytes]
//! ```
//!
//! and a slot directory as a count followed by entries
//! `[u64 row_id][u32 off][u32 len][u8 live]`.

use crate::bytes;
use crate::dict::Dict;
use crate::error::{DecodeError, Error, Result};
use crate::pager::{Pager, SlotEntry};
use crate::rle;
use crate::rle::Run;
use crate::schema;
use crate::schema::{ColKind, Encoding};
use crate::value;
use crate::value::Value;
use vstd::prelude::*;

verus! {

/// The columnar chunk stored inside a data page body.
#[derive(Debug, Clone)]
pub struct DataPageBody {
    pub num_rows: u32,
    pub regions: Vec<ColumnRegion>,
}

/// One column's encoded region within a chunk.
#[derive(Debug, Clone)]
pub struct ColumnRegion {
    pub kind: ColKind,
    pub encoding: Encoding,
    pub data: Vec<u8>,
}

/// The model of a region.
#[verifier::ext_equal]
pub struct RegionModel {
    pub kind: ColKind,
    pub encoding: Encoding,
    pub data: Seq<u8>,
}

/// The model of a body.
#[verifier::ext_equal]
pub struct BodyModel {
    pub num_rows: u32,
    pub regions: Seq<RegionModel>,
}

impl View for ColumnRegion {
    type V = RegionModel;

    open spec fn view(&self) -> RegionModel {
        RegionModel { kind: self.kind, encoding: self.encoding, data: self.data@ }
    }
}

pub open spec fn region_models(s: Seq<ColumnRegion>) -> Seq<RegionModel> {
    Seq::new(s.len(), |i: int| s[i]@)
}

impl View for DataPageBody {
    type V = BodyModel;

    open spec fn view(&self) -> BodyModel {
        BodyModel { num_rows: self.num_rows, regions: region_models(self.regions@) }
    }
}

/// A region without cells.
pub open spec fn blank_region(kind: ColKind, encoding: Encoding) -> RegionModel {
    RegionModel { kind, encoding, data: Seq::empty() }
}

/// A body without rows.
pub open spec fn blank_body(c: Seq<schema::ColumnModel>) -> BodyModel {
    BodyModel { num_rows: 0, regions: Seq::new(c.len(), |i: int| blank_region(c[i].kind, c[i].encoding)) }
}

impl ColumnRegion {
    pub fn new(kind: ColKind, encoding: Encoding) -> (r: ColumnRegion)
        ensures
            r@ == blank_region(kind, encoding),
    {
        let r = ColumnRegion { kind, encoding, data: Vec::new() };
        assert(r@.data =~= Seq::empty());
        r
    }
}

// Cells

/// The width of a cell.
pub open spec fn width(kind: ColKind) -> nat {
    match kind {
        ColKind::Bool => 1,
        ColKind::Int => 8,
        ColKind::Real => 8,
        ColKind::Text => 4,
    }
}

/// The cell of a value: as stored where the value is of the column's kind, or
/// an integer in a real column, and zero otherwise.
pub open spec fn cell_bytes(kind: ColKind, v: Value) -> Seq<u8> {
    match (kind, v) {
        (ColKind::Bool, Value::Bool(b)) => seq![
            if b {
                1u8
            } else {
                0u8
            },
        ],
        (ColKind::Bool, _) => seq![0u8],
        (ColKind::Int, Value::Int(i)) => bytes::le_i64(i),
        (ColKind::Int, _) => bytes::le_i64(0),
        (ColKind::Real, Value::Real(r)) => bytes::le64(r),
        (ColKind::Real, Value::Int(i)) => bytes::le64(value::real_of_int(i)),
        (ColKind::Real, _) => bytes::le64(0),
        (ColKind::Text, Value::Text(id)) => bytes::le32(id),
        (ColKind::Text, _) => bytes::le32(0),
    }
}

/// The value of a cell at an offset.
pub open spec fn cell_value(kind: ColKind, s: Seq<u8>, off: int) -> Value {
    match kind {
        ColKind::Bool => Value::Bool(s[off] != 0),
        ColKind::Int => Value::Int(bytes::i64_at(s, off)),
        ColKind::Real => Value::Real(bytes::u64_at(s, off)),
        ColKind::Text => Value::Text(bytes::u32_at(s, off)),
    }
}

/// What a column of a kind keeps of a value.
pub open spec fn kept(kind: ColKind, v: Value) -> Value {
    match (kind, v) {
        (ColKind::Bool, Value::Bool(b)) => Value::Bool(b),
        (ColKind::Bool, _) => Value::Bool(false),
        (ColKind::Int, Value::Int(i)) => Value::Int(i),
        (ColKind::Int, _) => Value::Int(0),
        (ColKind::Real, Value::Real(r)) => Value::Real(r),
        (ColKind::Real, Value::Int(i)) => Value::Real(value::real_of_int(i)),
        (ColKind::Real, _) => Value::Real(0),
        (ColKind::Text, Value::Text(id)) => Value::Text(id),
        (ColKind::Text, _) => Value::Text(0),
    }
}

/// A cell is read back where it was written.
pub proof fn lemma_cell(a: Seq<u8>, kind: ColKind, v: Value, b: Seq<u8>)
    ensures
        cell_value(kind, a + cell_bytes(kind, v) + b, a.len() as int) == kept(kind, v),
        cell_bytes(kind, v).len() == width(kind),
{
    match (kind, v) {
        (ColKind::Bool, _) => {},
        (ColKind::Int, Value::Int(i)) => bytes::lemma_i64_between(a, i, b),
        (ColKind::Int, _) => bytes::lemma_i64_between(a, 0, b),
        (ColKind::Real, Value::Real(r)) => bytes::lemma_u64_between(a, r, b),
        (ColKind::Real, Value::Int(i)) => bytes::lemma_u64_between(a, value::real_of_int(i), b),
        (ColKind::Real, _) => bytes::lemma_u64_between(a, 0, b),
        (ColKind::Text, Value::Text(id)) => bytes::lemma_u32_between(a, id, b),
        (ColKind::Text, _) => bytes::lemma_u32_between(a, 0, b),
    }
}

/// How many cells a region holds.
pub open spec fn cell_count(r: RegionModel) -> nat {
    if r.encoding == Encoding::Rle {
        rle::values_of(r.data).len()
    } else {
        r.data.len() / width(r.kind)
    }
}

/// Cell `i` of a region; null where there is none.
pub open spec fn cell_at(r: RegionModel, i: int) -> Value {
    if r.encoding == Encoding::Rle {
        if i < rle::values_of(r.data).len() {
            rle::values_of(r.data)[i]
        } else {
            Value::Null
        }
    } else if (i + 1) * width(r.kind) > r.data.len() {
        Value::Null
    } else {
        cell_value(r.kind, r.data, i * width(r.kind))
    }
}

/// The runs of a region; none where they cannot be read.
pub open spec fn runs_in(data: Seq<u8>) -> Seq<Run> {
    match rle::runs_of(data) {
        Ok(runs) => runs,
        Err(_) => Seq::empty(),
    }
}

/// A region with one more value.
pub open spec fn appended(r: RegionModel, v: Value) -> RegionModel {
    RegionModel {
        data: if r.encoding == Encoding::Rle {
            rle::runs_bytes(rle::coalesced(runs_in(r.data).push(Run { value: v, count: 1 })))
        } else {
            r.data + cell_bytes(r.kind, v)
        },
        ..r
    }
}

/// What a region keeps of a value.
pub open spec fn kept_in(r: RegionModel, v: Value) -> Value {
    if r.encoding == Encoding::Rle {
        v
    } else {
        kept(r.kind, v)
    }
}

/// A region that holds whole cells only.
pub open spec fn whole(r: RegionModel) -> bool {
    r.encoding == Encoding::Rle || r.data.len() % width(r.kind) == 0
}

/// Appending lengthens a region by 17 bytes at most.
pub proof fn lemma_appended_len(r: RegionModel, v: Value)
    ensures
        appended(r, v).data.len() <= r.data.len() + 17,
{
    if r.encoding == Encoding::Rle {
        let runs = runs_in(r.data);
        let more = runs.push(Run { value: v, count: 1 });
        rle::lemma_coalesced(more);
        rle::lemma_runs_len(rle::coalesced(more));
        if rle::runs_of(r.data) is Ok {
            assert(4 + 13 * runs.len() <= r.data.len());
        }
    } else {
        lemma_cell(r.data, r.kind, v, Seq::empty());
    }
}

/// Appending adds one cell, which reads back as what the region keeps of the
/// value, and leaves the others.
pub proof fn lemma_appended(r: RegionModel, v: Value)
    requires
        whole(r),
        r.data.len() <= u32::MAX,
    ensures
        whole(appended(r, v)),
        cell_count(appended(r, v)) == cell_count(r) + 1,
        cell_at(appended(r, v), cell_count(r) as int) == kept_in(r, v),
        forall|i: int| 0 <= i < cell_count(r) ==> #[trigger] cell_at(appended(r, v), i) == cell_at(r, i),
{
    let t = appended(r, v);
    if r.encoding == Encoding::Rle {
        let runs = runs_in(r.data);
        let more = runs.push(Run { value: v, count: 1 });
        rle::lemma_coalesced(more);
        assert(more.len() <= u32::MAX) by {
            if rle::runs_of(r.data) is Ok {
                assert(13 * runs.len() <= r.data.len());
            }
        }
        rle::lemma_runs_round_trip(rle::coalesced(more));
        rle::lemma_flat_push(runs, Run { value: v, count: 1 });
        assert(rle::values_of(r.data) == rle::flat(runs)) by {
            if rle::runs_of(r.data) is Err {
                assert(rle::flat(runs) =~= Seq::empty());
            }
        }
        assert(rle::values_of(t.data) =~= rle::values_of(r.data).push(v));
    } else {
        let w = width(r.kind) as int;
        let n = r.data.len() as int;
        lemma_cell(r.data, r.kind, v, Seq::empty());
        assert(t.data =~= r.data + cell_bytes(r.kind, v) + Seq::empty());
        let c = n / w;
        vstd::arithmetic::div_mod::lemma_fundamental_div_mod(n, w);
        assert(c * w == n && (c + 1) * w == n + w) by (nonlinear_arith)
            requires
                n == w * c,
        ;
        vstd::arithmetic::div_mod::lemma_mod_multiples_basic(c + 1, w);
        vstd::arithmetic::div_mod::lemma_div_by_multiple(c + 1, w);
        assert((c + 1) * w == n + w) by (nonlinear_arith)
            requires
                c * w == n,
        ;
        assert forall|i: int| 0 <= i < cell_count(r) implies #[trigger] cell_at(t, i) == cell_at(r, i) by {
            assert((i + 1) * w <= n && i * w >= 0 && (i + 1) * w == i * w + w) by (nonlinear_arith)
                requires
                    0 <= i < c,
                    c * w == n,
                    w > 0,
            ;
            let at = i * w;
            assert(t.data[at] == r.data[at]);
            match r.kind {
                ColKind::Bool => {},
                ColKind::Int | ColKind::Real => {
                    assert(t.data.subrange(at, at + 8) =~= r.data.subrange(at, at + 8));
                },
                ColKind::Text => {
                    assert(t.data.subrange(at, at + 4) =~= r.data.subrange(at, at + 4));
                },
            }
        }
    }
}

/// The fixed byte width of one cell for a plain/dictionary column.
pub fn cell_width(kind: ColKind) -> (r: usize)
    ensures
        r == width(kind),
{
    match kind {
        ColKind::Bool => 1,
        ColKind::Int => 8,
        ColKind::Real => 8,
        ColKind::Text => 4,
    }
}

/// Encode a single value into a cell for a plain/dictionary region.
pub fn encode_cell(kind: ColKind, v: &Value) -> (out: Vec<u8>)
    ensures
        out@ == cell_bytes(kind, *v),
{
    let mut out: Vec<u8> = Vec::new();
    match (kind, *v) {
        (ColKind::Bool, Value::Bool(b)) => {
            out.push(
                if b {
                    1
                } else {
                    0
                },
            );
        },
        (ColKind::Bool, _) => {
            out.push(0);
        },
        (ColKind::Int, Value::Int(i)) => {
            bytes::put_i64(&mut out, i);
        },
        (ColKind::Int, _) => {
            bytes::put_i64(&mut out, 0);
        },
        (ColKind::Real, Value::Real(r)) => {
            bytes::put_u64(&mut out, r);
        },
        (ColKind::Real, Value::Int(i)) => {
            bytes::put_u64(&mut out, value::to_real(i));
        },
        (ColKind::Real, _) => {
            bytes::put_u64(&mut out, 0);
        },
        (ColKind::Text, Value::Text(id)) => {
            bytes::put_u32(&mut out, id);
        },
        (ColKind::Text, _) => {
            bytes::put_u32(&mut out, 0);
        },
    }
    assert(out@ =~= cell_bytes(kind, *v));
    out
}

/// Read the cell at `slot_index` from a region. A text cell reads as its
/// dictionary id.
pub fn read_cell(region: &ColumnRegion, slot_index: usize, _dict: Option<&Dict>, _pager: &Pager) -> (r: Value)
    ensures
        r == cell_at(region@, slot_index as int),
{
    match region.encoding {
        Encoding::Plain | Encoding::Dictionary => {
            let w: usize = cell_width(region.kind);
            let n: usize = region.data.len();
            proof {
                let a = slot_index as int;
                let b = w as int;
                let c = n as int;
                assert((a >= c / b ==> (a + 1) * b > c) && (a < c / b ==> (a + 1) * b <= c && a * b + b == (a + 1) * b
                    && a * b >= 0)) by (nonlinear_arith)
                    requires
                        a >= 0,
                        b > 0,
                        c >= 0,
                ;
            }
            if slot_index >= n / w {
                return Value::Null;
            }
            let off: usize = slot_index * w;
            match region.kind {
                ColKind::Bool => Value::Bool(region.data[off] != 0),
                ColKind::Int => Value::Int(bytes::get_i64(region.data.as_slice(), off)),
                ColKind::Real => Value::Real(bytes::get_u64(region.data.as_slice(), off)),
                ColKind::Text => Value::Text(bytes::get_u32(region.data.as_slice(), off)),
            }
        },
        Encoding::Rle => run_value(region.data.as_slice(), slot_index),
    }
}

/// The value at a place of stored runs, found without expanding them.
fn run_value(data: &[u8], place: usize) -> (r: Value)
    ensures
        r == (if place < rle::values_of(data@).len() {
            rle::values_of(data@)[place as int]
        } else {
            Value::Null
        }),
{
    let runs = match rle::decode_runs(data) {
        Ok(r) => r,
        Err(_) => return Value::Null,
    };
    let ghost all = rle::flat(runs@);
    let mut left: usize = place;
    let mut i: usize = 0;
    assert(runs@.take(0) =~= Seq::empty());
    while i < runs.len()
        invariant
            i <= runs@.len(),
            all == rle::flat(runs@),
            all == rle::values_of(data@),
            place == left + rle::flat(runs@.take(i as int)).len(),
        decreases runs@.len() - i,
    {
        let run: Run = runs[i];
        let ghost before = rle::flat(runs@.take(i as int));
        proof {
            assert(runs@.take(i + 1).drop_last() =~= runs@.take(i as int));
            lemma_flat_prefix(runs@, i + 1);
        }
        if left < run.count as usize {
            proof {
                let upto = rle::flat(runs@.take(i + 1));
                assert(upto[place as int] == run.value);
                assert(all[place as int] == upto[place as int]);
            }
            return run.value;
        }
        left = left - run.count as usize;
        i += 1;
    }
    assert(runs@.take(i as int) =~= runs@);
    Value::Null
}

proof fn lemma_flat_prefix(runs: Seq<Run>, n: int)
    requires
        0 <= n <= runs.len(),
    ensures
        rle::flat(runs.take(n)).len() <= rle::flat(runs).len(),
        forall|i: int| 0 <= i < rle::flat(runs.take(n)).len() ==> rle::flat(runs)[i] == #[trigger] rle::flat(runs.take(n))[i],
    decreases runs.len() - n,
{
    if n < runs.len() {
        lemma_flat_prefix(runs, n + 1);
        assert(runs.take(n + 1).drop_last() =~= runs.take(n));
        let a = rle::flat(runs.take(n));
        let b = rle::flat(runs.take(n + 1));
        assert forall|i: int| 0 <= i < a.len() implies rle::flat(runs)[i] == #[trigger] a[i] by {
            assert(b[i] == a[i]);
        }
    } else {
        assert(runs.take(n) =~= runs);
    }
}

/// How many cells a region holds.
pub fn count_cells(region: &ColumnRegion) -> (n: u64)
    requires
        region@.data.len() <= u32::MAX,
    ensures
        n == cell_count(region@),
{
    match region.encoding {
        Encoding::Rle => match rle::decode_runs(region.data.as_slice()) {
            Ok(runs) => {
                proof {
                    lemma_flat_bound(runs@);
                    assert(13 * runs@.len() <= region@.data.len());
                    assert(runs@.len() * 0xFFFF_FFFF <= u64::MAX) by (nonlinear_arith)
                        requires
                            runs@.len() <= 0xFFFF_FFFF,
                    ;
                }
                rle::run_total(&runs)
            },
            Err(_) => 0,
        },
        _ => (region.data.len() / cell_width(region.kind)) as u64,
    }
}

proof fn lemma_flat_bound(runs: Seq<Run>)
    ensures
        rle::flat(runs).len() <= runs.len() * 0xFFFF_FFFF,
    decreases runs.len(),
{
    if runs.len() > 0 {
        lemma_flat_bound(runs.drop_last());
        assert(runs.len() * 0xFFFF_FFFF == (runs.len() - 1) * 0xFFFF_FFFF + 0xFFFF_FFFF) by (nonlinear_arith);
    }
}

/// Append a value to a region.
pub fn append_cell(region: &mut ColumnRegion, v: &Value)
    requires
        old(region)@.data.len() <= u32::MAX,
    ensures
        final(region)@ == appended(old(region)@, *v),
{
    match region.encoding {
        Encoding::Plain | Encoding::Dictionary => {
            let cell = encode_cell(region.kind, v);
            bytes::put_bytes(&mut region.data, cell.as_slice());
        },
        Encoding::Rle => {
            let mut runs = match rle::decode_runs(region.data.as_slice()) {
                Ok(r) => r,
                Err(_) => {
                    let none: Vec<Run> = Vec::new();
                    assert(none@ =~= Seq::<Run>::empty());
                    none
                },
            };
            assert(runs@ == runs_in(region@.data));
            runs.push(Run::new(*v, 1));
            proof {
                rle::lemma_coalesced(runs@);
                if rle::runs_of(region@.data) is Ok {
                    assert(13 * runs_in(region@.data).len() <= region@.data.len());
                }
            }
            region.data = rle::encode_runs(&rle::coalesce(&runs));
        },
    }
}

// Bodies

/// The stored form of a region.
pub open spec fn region_bytes(r: RegionModel) -> Seq<u8> {
    seq![schema::kind_code(r.kind), schema::encoding_code(r.encoding)] + bytes::le32(r.data.len() as u32) + r.data
}

pub open spec fn regions_bytes(s: Seq<RegionModel>) -> Seq<u8>
    decreases s.len(),
{
    if s.len() == 0 {
        Seq::empty()
    } else {
        region_bytes(s[0]) + regions_bytes(s.skip(1))
    }
}

/// The stored form of a body.
pub open spec fn body_bytes(b: BodyModel) -> Seq<u8> {
    bytes::le32(b.num_rows) + bytes::le32(b.regions.len() as u32) + regions_bytes(b.regions)
}

/// A body whose lengths fit the stored form.
pub open spec fn body_fits(b: BodyModel) -> bool {
    &&& b.regions.len() <= u32::MAX
    &&& forall|i: int| 0 <= i < b.regions.len() ==> (#[trigger] b.regions[i]).data.len() <= u32::MAX
}

/// The region at the front of `s`, or why there is none.
pub open spec fn region_of(s: Seq<u8>) -> std::result::Result<RegionModel, DecodeError> {
    if s.len() < 6 {
        Err(DecodeError::Truncated)
    } else if schema::kind_of(s[0]) is None {
        Err(DecodeError::BadSchema)
    } else if schema::encoding_of(s[1]) is None {
        Err(DecodeError::BadEncoding)
    } else if 6 + bytes::u32_at(s, 2) > s.len() {
        Err(DecodeError::Truncated)
    } else {
        Ok(
            RegionModel {
                kind: schema::kind_of(s[0])->0,
                encoding: schema::encoding_of(s[1])->0,
                data: s.subrange(6, 6 + bytes::u32_at(s, 2)),
            },
        )
    }
}

/// The next `n` regions of `s`, or why they cannot be read.
pub open spec fn regions_of(s: Seq<u8>, n: nat) -> std::result::Result<Seq<RegionModel>, DecodeError>
    decreases n,
{
    if n == 0 {
        Ok(Seq::empty())
    } else {
        match region_of(s) {
            Err(e) => Err(e),
            Ok(r) => match regions_of(s.skip(6 + r.data.len() as int), (n - 1) as nat) {
                Err(e) => Err(e),
                Ok(rest) => Ok(seq![r] + rest),
            },
        }
    }
}

/// The body stored in `s`, or why there is none.
pub open spec fn body_of(s: Seq<u8>) -> std::result::Result<BodyModel, DecodeError> {
    if s.len() < 8 {
        Err(DecodeError::Truncated)
    } else {
        match regions_of(s.skip(8), bytes::u32_at(s, 4) as nat) {
            Err(e) => Err(e),
            Ok(regions) => Ok(BodyModel { num_rows: bytes::u32_at(s, 0), regions }),
        }
    }
}

proof fn lemma_region(r: RegionModel, rest: Seq<u8>)
    requires
        r.data.len() <= u32::MAX,
    ensures
        region_of(region_bytes(r) + rest) == Ok::<RegionModel, DecodeError>(r),
        (region_bytes(r) + rest).skip(6 + r.data.len() as int) == rest,
{
    let s = region_bytes(r) + rest;
    let head = seq![schema::kind_code(r.kind), schema::encoding_code(r.encoding)];
    bytes::lemma_u32_between(head, r.data.len() as u32, r.data + rest);
    assert(s =~= head + bytes::le32(r.data.len() as u32) + (r.data + rest));
    assert(s.subrange(6, 6 + r.data.len() as int) =~= r.data);
    assert(s.skip(6 + r.data.len() as int) =~= rest);
    assert(s[0] == head[0] && s[1] == head[1]);
}

proof fn lemma_regions(b: Seq<RegionModel>, rest: Seq<u8>)
    requires
        forall|i: int| 0 <= i < b.len() ==> (#[trigger] b[i]).data.len() <= u32::MAX,
    ensures
        regions_of(regions_bytes(b) + rest, b.len()) == Ok::<Seq<RegionModel>, DecodeError>(b),
    decreases b.len(),
{
    if b.len() > 0 {
        let t = b.skip(1);
        assert forall|i: int| 0 <= i < t.len() implies (#[trigger] t[i]).data.len() <= u32::MAX by {
            assert(t[i] == b[i + 1]);
        }
        assert(b[0].data.len() <= u32::MAX);
        lemma_regions(t, rest);
        lemma_region(b[0], regions_bytes(t) + rest);
        let s = regions_bytes(b) + rest;
        assert(s =~= region_bytes(b[0]) + (regions_bytes(t) + rest));
        assert(seq![b[0]] + t =~= b);
    } else {
        assert(b =~= Seq::empty());
    }
}

/// Reading a stored body gives it back.
pub proof fn lemma_body_round_trip(b: BodyModel)
    requires
        body_fits(b),
    ensures
        body_of(body_bytes(b)) == Ok::<BodyModel, DecodeError>(b),
{
    let s = body_bytes(b);
    let r = regions_bytes(b.regions);
    bytes::lemma_u32_between(Seq::empty(), b.num_rows, bytes::le32(b.regions.len() as u32) + r);
    assert(s =~= Seq::<u8>::empty() + bytes::le32(b.num_rows) + (bytes::le32(b.regions.len() as u32) + r));
    bytes::lemma_u32_between(bytes::le32(b.num_rows), b.regions.len() as u32, r);
    lemma_regions(b.regions, Seq::empty());
    assert(s.skip(8) =~= r + Seq::empty());
}

/// A body that was read fits the stored form.
pub proof fn lemma_read_fits(s: Seq<u8>)
    ensures
        body_of(s) matches Ok(b) ==> body_fits(b),
{
    if s.len() >= 8 {
        lemma_regions_fit(s.skip(8), bytes::u32_at(s, 4) as nat);
    }
}

proof fn lemma_regions_fit(s: Seq<u8>, n: nat)
    ensures
        regions_of(s, n) matches Ok(r) ==> r.len() == n && forall|i: int|
            0 <= i < r.len() ==> (#[trigger] r[i]).data.len() <= u32::MAX,
    decreases n,
{
    if n > 0 {
        match region_of(s) {
            Err(_) => {},
            Ok(r) => {
                let t = s.skip(6 + r.data.len() as int);
                lemma_regions_fit(t, (n - 1) as nat);
                match regions_of(t, (n - 1) as nat) {
                    Err(_) => {},
                    Ok(rest) => {
                        let all = seq![r] + rest;
                        assert forall|i: int| 0 <= i < all.len() implies (#[trigger] all[i]).data.len() <= u32::MAX by {
                            if i > 0 {
                                assert(all[i] == rest[i - 1]);
                            }
                        }
                    },
                }
            },
        }
    }
}

proof fn lemma_regions_split(b: Seq<RegionModel>, i: int)
    requires
        0 <= i < b.len(),
    ensures
        regions_bytes(b.take(i + 1)) == regions_bytes(b.take(i)) + region_bytes(b[i]),
    decreases i,
{
    let x = b.take(i + 1);
    let y = b.take(i);
    if i == 0 {
        assert(x.skip(1) =~= Seq::empty());
        assert(y =~= Seq::empty());
        assert(regions_bytes(x) =~= regions_bytes(y) + region_bytes(b[0]));
    } else {
        lemma_regions_split(b.skip(1), i - 1);
        assert(x.skip(1) =~= b.skip(1).take(i));
        assert(y.skip(1) =~= b.skip(1).take(i - 1));
        assert(regions_bytes(x) =~= regions_bytes(y) + region_bytes(b[i]));
    }
}

/// Whether a body's lengths fit the stored form.
pub fn fits(body: &DataPageBody) -> (r: bool)
    ensures
        r == body_fits(body@),
{
    if body.regions.len() as u64 > 0xFFFF_FFFF {
        return false;
    }
    let mut i: usize = 0;
    while i < body.regions.len()
        invariant
            i <= body.regions@.len(),
            forall|j: int| 0 <= j < i ==> (#[trigger] body@.regions[j]).data.len() <= u32::MAX,
        decreases body.regions@.len() - i,
    {
        assert(body@.regions[i as int] == body.regions@[i as int]@);
        if body.regions[i].data.len() as u64 > 0xFFFF_FFFF {
            return false;
        }
        i += 1;
    }
    true
}

/// Serialize a data page body (the columnar chunk) into bytes.
pub fn encode_body(body: &DataPageBody) -> (out: Vec<u8>)
    requires
        body_fits(body@),
    ensures
        out@ == body_bytes(body@),
{
    let mut out: Vec<u8> = Vec::new();
    let ghost b = body@.regions;
    bytes::put_u32(&mut out, body.num_rows);
    bytes::put_u32(&mut out, body.regions.len() as u32);
    let ghost head = out@;
    let mut i: usize = 0;
    assert(b.take(0) =~= Seq::empty());
    while i < body.regions.len()
        invariant
            i <= body.regions@.len(),
            b == body@.regions,
            body_fits(body@),
            out@ == head + regions_bytes(b.take(i as int)),
        decreases body.regions@.len() - i,
    {
        let r = &body.regions[i];
        let ghost was = out@;
        proof {
            assert(b[i as int] == r@);
            lemma_regions_split(b, i as int);
        }
        out.push(r.kind.as_u8());
        out.push(r.encoding.as_u8());
        bytes::put_u32(&mut out, r.data.len() as u32);
        bytes::put_bytes(&mut out, r.data.as_slice());
        assert(out@ =~= was + region_bytes(b[i as int]));
        assert(out@ =~= head + regions_bytes(b.take(i + 1)));
        i += 1;
    }
    assert(b.take(i as int) =~= b);
    assert(out@ =~= body_bytes(body@));
    out
}

/// Parse a data page body from bytes.
pub fn decode_body(buf: &[u8]) -> (r: Result<DataPageBody>)
    ensures
        match r {
            Ok(b) => body_of(buf@) == Ok::<BodyModel, DecodeError>(b@),
            Err(Error::Decode(e)) => body_of(buf@) == Err::<BodyModel, DecodeError>(e),
            Err(_) => false,
        },
{
    if buf.len() < 8 {
        return Err(Error::Decode(DecodeError::Truncated));
    }
    let num_rows: u32 = bytes::get_u32(buf, 0);
    let n: u32 = bytes::get_u32(buf, 4);
    let mut regions: Vec<ColumnRegion> = Vec::new();
    let mut pos: usize = 8;
    let mut i: u32 = 0;
    assert(buf@.skip(8) =~= buf@.skip(pos as int));
    while i < n
        invariant
            i <= n,
            8 <= pos <= buf@.len(),
            n == bytes::u32_at(buf@, 4),
            match regions_of(buf@.skip(pos as int), (n - i) as nat) {
                Err(e) => regions_of(buf@.skip(8), n as nat) == Err::<Seq<RegionModel>, DecodeError>(e),
                Ok(rest) => regions_of(buf@.skip(8), n as nat) == Ok::<Seq<RegionModel>, DecodeError>(
                    region_models(regions@) + rest,
                ),
            },
        decreases n - i,
    {
        let ghost s = buf@.skip(pos as int);
        let ghost was = regions@;
        if buf.len() - pos < 6 {
            return Err(Error::Decode(DecodeError::Truncated));
        }
        proof {
            bytes::lemma_at_skip(buf@, pos as int, 2);
        }
        let kind = match ColKind::from_u8(buf[pos]) {
            Some(k) => k,
            None => return Err(Error::Decode(DecodeError::BadSchema)),
        };
        let encoding = match Encoding::from_u8(buf[pos + 1]) {
            Some(e) => e,
            None => return Err(Error::Decode(DecodeError::BadEncoding)),
        };
        let len: usize = bytes::get_u32(buf, pos + 2) as usize;
        if len > buf.len() - pos - 6 {
            return Err(Error::Decode(DecodeError::Truncated));
        }
        let start: usize = pos + 6;
        let data = bytes::copy_range(buf, start, start + len);
        assert(s.subrange(6, 6 + len as int) =~= data@);
        let region = ColumnRegion { kind, encoding, data };
        let ghost m = region@;
        regions.push(region);
        proof {
            assert(region_of(s) == Ok::<RegionModel, DecodeError>(m));
            assert(s.skip(6 + len as int) =~= buf@.skip(start + len));
            assert(region_models(regions@) =~= region_models(was).push(m));
            match regions_of(buf@.skip(start + len), (n - i - 1) as nat) {
                Err(_) => {},
                Ok(rest) => {
                    assert(region_models(regions@) + rest =~= region_models(was) + (seq![m] + rest));
                },
            }
        }
        pos = start + len;
        i += 1;
    }
    assert(region_models(regions@) + Seq::<RegionModel>::empty() =~= region_models(regions@));
    Ok(DataPageBody { num_rows, regions })
}

// Slot directories

/// The stored form of a slot.
pub open spec fn slot_bytes(s: SlotEntry) -> Seq<u8> {
    bytes::le64(s.row_id) + bytes::le32(s.off) + bytes::le32(s.len) + seq![
        if s.live {
            1u8
        } else {
            0u8
        },
    ]
}

pub open spec fn all_slot_bytes(s: Seq<SlotEntry>) -> Seq<u8>
    decreases s.len(),
{
    if s.len() == 0 {
        Seq::empty()
    } else {
        all_slot_bytes(s.drop_last()) + slot_bytes(s.last())
    }
}

/// The stored form of a slot directory.
pub open spec fn slots_bytes(s: Seq<SlotEntry>) -> Seq<u8> {
    bytes::le32(s.len() as u32) + all_slot_bytes(s)
}

/// The slot stored in record `i`.
pub open spec fn slot_of(s: Seq<u8>, i: int) -> SlotEntry {
    let at = 4 + 17 * i;
    SlotEntry {
        row_id: bytes::u64_at(s, at),
        off: bytes::u32_at(s, at + 8),
        len: bytes::u32_at(s, at + 12),
        live: s[at + 16] != 0,
    }
}

/// The slot directory stored in `s`; nothing where it is cut off.
pub open spec fn slots_of(s: Seq<u8>) -> Option<Seq<SlotEntry>> {
    if s.len() < 4 || 4 + 17 * bytes::u32_at(s, 0) > s.len() {
        None
    } else {
        Some(Seq::new(bytes::u32_at(s, 0) as nat, |i: int| slot_of(s, i)))
    }
}

proof fn lemma_slot(a: Seq<u8>, e: SlotEntry, b: Seq<u8>, i: int)
    requires
        a.len() == 4 + 17 * i,
    ensures
        slot_of(a + slot_bytes(e) + b, i) == e,
        slot_bytes(e).len() == 17,
{
    let s = a + slot_bytes(e) + b;
    let x = bytes::le64(e.row_id);
    let y = bytes::le32(e.off);
    let z = bytes::le32(e.len);
    let l = seq![
        if e.live {
            1u8
        } else {
            0u8
        },
    ];
    bytes::lemma_u64_between(a, e.row_id, y + z + l + b);
    assert(s =~= a + x + (y + z + l + b));
    bytes::lemma_u32_between(a + x, e.off, z + l + b);
    assert(s =~= (a + x) + y + (z + l + b));
    bytes::lemma_u32_between(a + x + y, e.len, l + b);
    assert(s =~= (a + x + y) + z + (l + b));
    assert(s[a.len() as int + 16] == l[0]);
}

proof fn lemma_all_slot_bytes(s: Seq<SlotEntry>, i: int)
    requires
        0 <= i <= s.len(),
    ensures
        all_slot_bytes(s).len() == 17 * s.len(),
        i < s.len() ==> all_slot_bytes(s).subrange(17 * i, 17 * i + 17) == slot_bytes(s[i]),
    decreases s.len(),
{
    if s.len() > 0 {
        let d = s.drop_last();
        lemma_all_slot_bytes(
            d,
            if i < d.len() {
                i
            } else {
                0
            },
        );
        lemma_slot(Seq::new(4, |i: int| 0u8), s.last(), Seq::empty(), 0);
        let t = all_slot_bytes(s);
        if i < d.len() {
            assert(t.subrange(17 * i, 17 * i + 17) =~= all_slot_bytes(d).subrange(17 * i, 17 * i + 17));
        } else if i < s.len() {
            assert(t.subrange(17 * i, 17 * i + 17) =~= slot_bytes(s[i]));
        }
    }
}

/// Reading a stored slot directory gives it back.
pub proof fn lemma_slots_round_trip(m: Seq<SlotEntry>)
    requires
        m.len() <= u32::MAX,
    ensures
        slots_of(slots_bytes(m)) == Some(m),
{
    let s = slots_bytes(m);
    let h = all_slot_bytes(m);
    lemma_all_slot_bytes(m, 0);
    bytes::lemma_u32_between(Seq::empty(), m.len() as u32, h);
    assert(s =~= Seq::<u8>::empty() + bytes::le32(m.len() as u32) + h);
    assert forall|i: int| 0 <= i < m.len() implies #[trigger] slot_of(s, i) == m[i] by {
        lemma_all_slot_bytes(m, i);
        let at = 4 + 17 * i;
        let a = s.take(at);
        let b = s.skip(at + 17);
        assert(s.subrange(at, at + 17) =~= h.subrange(17 * i, 17 * i + 17));
        lemma_slot(a, m[i], b, i);
        assert(s =~= a + slot_bytes(m[i]) + b);
    }
    assert(slots_of(s)->0 =~= m);
}

/// Serialize a slot directory.
pub fn encode_slots(slots: &Vec<SlotEntry>) -> (out: Vec<u8>)
    requires
        slots@.len() <= u32::MAX,
    ensures
        out@ == slots_bytes(slots@),
{
    let mut out: Vec<u8> = Vec::new();
    bytes::put_u32(&mut out, slots.len() as u32);
    let ghost head = out@;
    let mut i: usize = 0;
    assert(slots@.take(0) =~= Seq::empty());
    while i < slots.len()
        invariant
            i <= slots@.len(),
            out@ == head + all_slot_bytes(slots@.take(i as int)),
        decreases slots@.len() - i,
    {
        let s: SlotEntry = slots[i];
        let ghost was = out@;
        bytes::put_u64(&mut out, s.row_id);
        bytes::put_u32(&mut out, s.off);
        bytes::put_u32(&mut out, s.len);
        out.push(
            if s.live {
                1
            } else {
                0
            },
        );
        assert(out@ =~= was + slot_bytes(s));
        assert(slots@.take(i + 1).drop_last() =~= slots@.take(i as int));
        assert(out@ =~= head + all_slot_bytes(slots@.take(i + 1)));
        i += 1;
    }
    assert(slots@.take(i as int) =~= slots@);
    out
}

/// Parse a slot directory.
pub fn decode_slots(buf: &[u8]) -> (r: Result<Vec<SlotEntry>>)
    ensures
        match r {
            Ok(v) => slots_of(buf@) == Some(v@),
            Err(e) => slots_of(buf@) is None && e == Error::Decode(DecodeError::Truncated),
        },
{
    if buf.len() < 4 {
        return Err(Error::Decode(DecodeError::Truncated));
    }
    let n: u32 = bytes::get_u32(buf, 0);
    if n as usize > (buf.len() - 4) / 17 {
        return Err(Error::Decode(DecodeError::Truncated));
    }
    let mut out: Vec<SlotEntry> = Vec::new();
    let mut i: u32 = 0;
    while i < n
        invariant
            i <= n,
            n == bytes::u32_at(buf@, 0),
            4 + 17 * n <= buf@.len(),
            out@ == Seq::new(i as nat, |i: int| slot_of(buf@, i)),
        decreases n - i,
    {
        assert(4 + 17 * n <= buf.len());
        let at: usize = 4 + 17 * (i as usize);
        out.push(
            SlotEntry {
                row_id: bytes::get_u64(buf, at),
                off: bytes::get_u32(buf, at + 8),
                len: bytes::get_u32(buf, at + 12),
                live: buf[at + 16] != 0,
            },
        );
        i += 1;
        assert(out@ =~= Seq::new(i as nat, |i: int| slot_of(buf@, i)));
    }
    Ok(out)
}

} // verus!
