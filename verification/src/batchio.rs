//! A self-describing serialization for [`RecordBatch`].
//!
//! Result sets and spilled intermediate batches need a compact on-the-wire /
//! on-disk form that round-trips exactly. This encodes a batch as a small header
//! (magic, column count, row count) followed by, per column, its name, kind, a
//! validity bitmap, and the packed values. Values are stored with varint /
//! zig-zag coding so small integers stay short, and the whole payload can
//! optionally be run through the [`crate::compress`] block codecs.
use vstd::prelude::*;
use vstd::string::*;

use crate::array;
use crate::array::{Array, ArrayBuilder, RecordBatch};
use crate::bits;
use crate::bytes;
use crate::compress;
use crate::encoding;
use crate::schema;
use crate::schema::ColKind;
use crate::text;
use crate::value::Value;
use crate::varint;

verus! {

/// The four bytes a batch starts with: `SBTC`.
pub open spec fn magic() -> Seq<u8> {
    seq![83u8, 66u8, 84u8, 67u8]
}

/// Error decoding a serialized batch.
#[derive(Debug, Clone, Copy, PartialEq, Eq, Structural)]
pub enum BatchError {
    BadMagic,
    Truncated,
    BadKind(u8),
    BadUtf8,
}

impl BatchError {
    pub open spec fn shown(self) -> Seq<char> {
        match self {
            BatchError::BadMagic => "bad batch magic"@,
            BatchError::Truncated => "truncated batch"@,
            BatchError::BadKind(k) => "unknown column kind "@ + text::digits(k as nat),
            BatchError::BadUtf8 => "invalid utf-8 in column name"@,
        }
    }

    /// The message for this error.
    pub fn to_string(&self) -> (r: String)
        ensures
            r@ == self.shown(),
    {
        match self {
            BatchError::BadMagic => String::from_str("bad batch magic"),
            BatchError::Truncated => String::from_str("truncated batch"),
            BatchError::BadKind(k) => {
                let mut s = String::from_str("unknown column kind ");
                let mut v: Vec<char> = Vec::new();
                text::push_number(&mut v, *k as u128);
                assert(v@ =~= text::digits(*k as nat));
                let t = text::string_of(&v);
                s.append(t.as_str());
                s
            },
            BatchError::BadUtf8 => String::from_str("invalid utf-8 in column name"),
        }
    }
}

// Validity

/// The byte whose binary digits are flags, lowest first.
pub open spec fn flag_byte(flags: Seq<bool>) -> nat
    decreases flags.len(),
{
    if flags.len() == 0 {
        0
    } else {
        (if flags[0] {
            1nat
        } else {
            0nat
        }) + 2 * flag_byte(flags.skip(1))
    }
}

/// The flags of one byte: eight, or what is left of them.
pub open spec fn eight(flags: Seq<bool>, i: int) -> Seq<bool> {
    flags.subrange(
        8 * i,
        if 8 * i + 8 < flags.len() {
            8 * i + 8
        } else {
            flags.len() as int
        },
    )
}

/// Flags packed eight to a byte.
pub open spec fn packed(flags: Seq<bool>) -> Seq<u8> {
    Seq::new((flags.len() + 7) / 8, |i: int| flag_byte(eight(flags, i)) as u8)
}

/// Which values are not null.
pub open spec fn present(vals: Seq<Value>) -> Seq<bool> {
    Seq::new(vals.len(), |i: int| !(vals[i] is Null))
}

proof fn lemma_flag_byte(flags: Seq<bool>)
    ensures
        flag_byte(flags) < bits::pow2(flags.len()),
        forall|k: int| 0 <= k < flags.len() ==> bits::bit(flag_byte(flags), k as nat) == #[trigger] flags[k],
    decreases flags.len(),
{
    if flags.len() > 0 {
        let t = flags.skip(1);
        let v = flag_byte(flags);
        lemma_flag_byte(t);
        assert(v / 2 == flag_byte(t));
        assert forall|k: int| 0 <= k < flags.len() implies bits::bit(v, k as nat) == #[trigger] flags[k] by {
            if k > 0 {
                assert(t[k - 1] == flags[k]);
                assert(bits::bit(v, k as nat) == bits::bit(v / 2, (k - 1) as nat));
            }
        }
    }
}

proof fn lemma_packed(flags: Seq<bool>, i: int)
    requires
        0 <= i < flags.len(),
    ensures
        i / 8 < packed(flags).len(),
        bits::bit(packed(flags)[i / 8] as nat, (i % 8) as nat) == flags[i],
{
    let e = eight(flags, i / 8);
    lemma_flag_byte(e);
    bits::lemma_pow2_values();
    bits::lemma_pow2_mono(e.len(), 8);
    reveal_with_fuel(bits::pow2, 9);
    assert(e[i % 8] == flags[i]);
}

// Values

/// The stored form of a value; a null takes no bytes.
pub open spec fn value_bytes(v: Value) -> Seq<u8> {
    match v {
        Value::Null => Seq::empty(),
        Value::Bool(b) => seq![
            if b {
                1u8
            } else {
                0u8
            },
        ],
        Value::Int(i) => varint::uvarint(encoding::zigzag(i) as nat),
        Value::Real(b) => bytes::le64(b),
        Value::Text(id) => varint::uvarint(id as nat),
    }
}

/// The stored form of values.
pub open spec fn values_bytes(vals: Seq<Value>) -> Seq<u8>
    decreases vals.len(),
{
    if vals.len() == 0 {
        Seq::empty()
    } else {
        value_bytes(vals[0]) + values_bytes(vals.skip(1))
    }
}

/// A number that bytes start with, and how many bytes it takes.
pub open spec fn number_of(s: Seq<u8>) -> Result<(nat, nat), BatchError> {
    match varint::uvarint_of(s) {
        Ok(p) => Ok(p),
        Err(_) => Err(BatchError::Truncated),
    }
}

/// The value of a kind that bytes start with, and how many bytes it takes.
pub open spec fn value_of(s: Seq<u8>, kind: ColKind) -> Result<(Value, nat), BatchError> {
    match kind {
        ColKind::Bool => if s.len() < 1 {
            Err(BatchError::Truncated)
        } else {
            Ok((Value::Bool(s[0] != 0), 1))
        },
        ColKind::Int => match number_of(s) {
            Err(e) => Err(e),
            Ok((v, n)) => Ok((Value::Int(encoding::unzigzag(v as u64)), n)),
        },
        ColKind::Real => if s.len() < 8 {
            Err(BatchError::Truncated)
        } else {
            Ok((Value::Real(bytes::u64_at(s, 0)), 8))
        },
        ColKind::Text => match number_of(s) {
            Err(e) => Err(e),
            Ok((v, n)) => Ok((Value::Text((v % 0x1_0000_0000) as u32), n)),
        },
    }
}

/// The value at a row: null where the bitmap says so, else read from the bytes.
pub open spec fn row_of(s: Seq<u8>, kind: ColKind, valid: Seq<u8>, i: nat) -> Result<(Value, nat), BatchError> {
    if bits::bit(valid[i as int / 8] as nat, i % 8) {
        value_of(s, kind)
    } else {
        Ok((Value::Null, 0))
    }
}

/// The values of the rows from `i` on, and the bytes after them.
pub open spec fn values_of(s: Seq<u8>, kind: ColKind, valid: Seq<u8>, i: nat, rows: nat) -> Result<
    (Seq<Value>, Seq<u8>),
    BatchError,
>
    decreases rows - i,
{
    if i >= rows {
        Ok((Seq::empty(), s))
    } else {
        match row_of(s, kind, valid, i) {
            Err(e) => Err(e),
            Ok((v, n)) => match values_of(s.skip(n as int), kind, valid, i + 1, rows) {
                Err(e) => Err(e),
                Ok((vs, rest)) => Ok((seq![v] + vs, rest)),
            },
        }
    }
}

// Columns

/// A name with its column.
pub type Named = (Seq<char>, array::ArrayModel);

/// The stored form of a column.
pub open spec fn column_bytes(c: Named) -> Seq<u8> {
    let name = vstd::utf8::encode_utf8(c.0);
    varint::uvarint(name.len()) + name + seq![schema::kind_code(c.1.kind)] + packed(present(c.1.values))
        + values_bytes(c.1.values)
}

/// The stored form of columns.
pub open spec fn columns_bytes(cols: Seq<Named>) -> Seq<u8>
    decreases cols.len(),
{
    if cols.len() == 0 {
        Seq::empty()
    } else {
        column_bytes(cols[0]) + columns_bytes(cols.skip(1))
    }
}

/// The column that bytes start with, and the bytes after it.
pub open spec fn column_of(s: Seq<u8>, rows: nat) -> Result<(Named, Seq<u8>), BatchError> {
    match number_of(s) {
        Err(e) => Err(e),
        Ok((len, n)) => {
            let a = s.skip(n as int);
            let mask = (rows + 7) / 8;
            if len > a.len() {
                Err(BatchError::Truncated)
            } else if !vstd::utf8::valid_utf8(a.take(len as int)) {
                Err(BatchError::BadUtf8)
            } else if a.len() == len {
                Err(BatchError::Truncated)
            } else {
                match schema::kind_of(a[len as int]) {
                    None => Err(BatchError::BadKind(0)),
                    Some(kind) => {
                        let b = a.skip(len as int + 1);
                        if b.len() < mask {
                            Err(BatchError::Truncated)
                        } else {
                            match values_of(b.skip(mask as int), kind, b.take(mask as int), 0, rows) {
                                Err(e) => Err(e),
                                Ok((values, rest)) => Ok(
                                    (
                                        (
                                            vstd::utf8::decode_utf8(a.take(len as int)),
                                            array::ArrayModel { kind, values },
                                        ),
                                        rest,
                                    ),
                                ),
                            }
                        }
                    },
                }
            }
        },
    }
}

/// So many columns that bytes start with.
pub open spec fn columns_of(s: Seq<u8>, width: nat, rows: nat) -> Result<Seq<Named>, BatchError>
    decreases width,
{
    if width == 0 {
        Ok(Seq::empty())
    } else {
        match column_of(s, rows) {
            Err(e) => Err(e),
            Ok((c, rest)) => match columns_of(rest, (width - 1) as nat, rows) {
                Err(e) => Err(e),
                Ok(cs) => Ok(seq![c] + cs),
            },
        }
    }
}

// Batches

/// A batch's columns with their names.
pub open spec fn parts(b: array::BatchModel) -> Seq<Named> {
    Seq::new(b.columns.len(), |i: int| (b.names[i], b.columns[i]))
}

/// The batch of named columns.
pub open spec fn whole(cols: Seq<Named>, rows: nat) -> array::BatchModel {
    array::BatchModel {
        names: Seq::new(cols.len(), |i: int| cols[i].0),
        columns: Seq::new(cols.len(), |i: int| cols[i].1),
        rows,
    }
}

/// A batch of so many rows without a column: one column of nulls.
pub open spec fn hollow(rows: nat) -> array::BatchModel {
    whole(
        seq![("_"@, array::ArrayModel { kind: ColKind::Int, values: Seq::new(rows, |i: int| Value::Null) })],
        rows,
    )
}

/// The stored form of a batch.
pub open spec fn batch_bytes(b: array::BatchModel) -> Seq<u8> {
    magic() + varint::uvarint(b.columns.len()) + varint::uvarint(b.rows) + columns_bytes(parts(b))
}

/// The batch that bytes stand for. A row count that the machine cannot count is
/// refused.
pub open spec fn batch_of(s: Seq<u8>) -> Result<array::BatchModel, BatchError> {
    if s.len() < 4 {
        Err(BatchError::Truncated)
    } else if s.take(4) != magic() {
        Err(BatchError::BadMagic)
    } else {
        match number_of(s.skip(4)) {
            Err(e) => Err(e),
            Ok((width, n)) => match number_of(s.skip(4 + n as int)) {
                Err(e) => Err(e),
                Ok((rows, m)) => if rows > usize::MAX {
                    Err(BatchError::Truncated)
                } else {
                    match columns_of(s.skip(4 + n as int + m as int), width, rows) {
                        Err(e) => Err(e),
                        Ok(cols) => if width == 0 && rows > 0 {
                            Ok(hollow(rows))
                        } else {
                            Ok(whole(cols, rows))
                        },
                    }
                },
            },
        }
    }
}

/// What decoding gave.
pub open spec fn told(r: Result<RecordBatch, BatchError>) -> Result<array::BatchModel, BatchError> {
    match r {
        Ok(b) => Ok(b@),
        Err(e) => Err(e),
    }
}

// Laws

proof fn lemma_value(v: Value, kind: ColKind, rest: Seq<u8>)
    requires
        !(v is Null),
        array::coerced(kind, v) == v,
    ensures
        value_of(value_bytes(v) + rest, kind) == Ok::<(Value, nat), BatchError>((v, value_bytes(v).len())),
{
    let s = value_bytes(v) + rest;
    match v {
        Value::Int(i) => {
            varint::lemma_uvarint_round_trip(encoding::zigzag(i), rest);
        },
        Value::Real(b) => {
            bytes::lemma_le_bytes_len(b as nat, 8);
            assert(s.subrange(0, 8) =~= bytes::le64(b));
            bytes::lemma_u64_at(s, 0, b);
        },
        Value::Text(id) => {
            varint::lemma_uvarint_round_trip(id as u64, rest);
        },
        _ => {},
    }
}

proof fn lemma_values(vals: Seq<Value>, kind: ColKind, valid: Seq<u8>, i: nat, rest: Seq<u8>)
    requires
        forall|j: int| 0 <= j < vals.len() ==> array::coerced(kind, #[trigger] vals[j]) == vals[j],
        forall|j: int|
            #![trigger vals[j]]
            0 <= j < vals.len() ==> bits::bit(valid[(i + j) / 8] as nat, ((i + j) % 8) as nat) == !(vals[j] is Null),
    ensures
        values_of(values_bytes(vals) + rest, kind, valid, i, i + vals.len()) == Ok::<
            (Seq<Value>, Seq<u8>),
            BatchError,
        >((vals, rest)),
    decreases vals.len(),
{
    let s = values_bytes(vals) + rest;
    if vals.len() == 0 {
        assert(s =~= rest);
        assert(vals =~= Seq::empty());
    } else {
        let t = vals.skip(1);
        let after = values_bytes(t) + rest;
        assert forall|j: int| 0 <= j < t.len() implies array::coerced(kind, #[trigger] t[j]) == t[j] && bits::bit(
            valid[(i + 1 + j) / 8] as nat,
            ((i + 1 + j) % 8) as nat,
        ) == !(t[j] is Null) by {
            assert(t[j] == vals[j + 1]);
        }
        lemma_values(t, kind, valid, i + 1, rest);
        assert(s =~= value_bytes(vals[0]) + after);
        let n = value_bytes(vals[0]).len();
        assert(s.skip(n as int) =~= after);
        if !(vals[0] is Null) {
            lemma_value(vals[0], kind, after);
        }
        assert(bits::bit(valid[(i as int + 0) / 8] as nat, ((i as int + 0) % 8) as nat) == !(vals[0] is Null));
        assert(seq![vals[0]] + t =~= vals);
    }
}

/// Whether a column can be stored: its values are of its kind.
pub open spec fn held(c: Named, rows: nat) -> bool {
    &&& c.1.values.len() == rows
    &&& forall|j: int| 0 <= j < c.1.values.len() ==> array::coerced(c.1.kind, #[trigger] c.1.values[j]) == c.1.values[j]
    &&& vstd::utf8::encode_utf8(c.0).len() <= u64::MAX
}

#[verifier::rlimit(100)]
proof fn lemma_column(c: Named, rows: nat, rest: Seq<u8>)
    requires
        held(c, rows),
    ensures
        column_of(column_bytes(c) + rest, rows) == Ok::<(Named, Seq<u8>), BatchError>((c, rest)),
{
    let name = vstd::utf8::encode_utf8(c.0);
    let valid = packed(present(c.1.values));
    let vals = values_bytes(c.1.values);
    let code = seq![schema::kind_code(c.1.kind)];
    let s = column_bytes(c) + rest;
    let head = varint::uvarint(name.len());
    let a = name + code + valid + vals + rest;
    assert(s =~= head + a);
    varint::lemma_uvarint_round_trip(name.len() as u64, a);
    assert(s.skip(head.len() as int) =~= a);
    assert(a.take(name.len() as int) =~= name);
    vstd::utf8::encode_utf8_valid_utf8(c.0);
    vstd::utf8::encode_utf8_decode_utf8(c.0);
    assert(a[name.len() as int] == code[0]);
    let b = a.skip(name.len() as int + 1);
    assert(b =~= valid + vals + rest);
    let mask = (rows + 7) / 8;
    assert(valid.len() == mask);
    assert(b.take(mask as int) =~= valid);
    assert(b.skip(mask as int) =~= vals + rest);
    assert forall|j: int|
        #![trigger c.1.values[j]]
        0 <= j < c.1.values.len() implies bits::bit(valid[(0 + j) / 8] as nat, ((0 + j) % 8) as nat) == !(
    c.1.values[j] is Null) by {
        lemma_packed(present(c.1.values), j);
    }
    lemma_values(c.1.values, c.1.kind, valid, 0, rest);
}

#[verifier::spinoff_prover]
#[verifier::rlimit(30)]
proof fn lemma_columns(cols: Seq<Named>, rows: nat, rest: Seq<u8>)
    requires
        forall|i: int| 0 <= i < cols.len() ==> held(#[trigger] cols[i], rows),
    ensures
        columns_of(columns_bytes(cols) + rest, cols.len(), rows) == Ok::<Seq<Named>, BatchError>(cols),
    decreases cols.len(),
{
    if cols.len() == 0 {
        assert(cols =~= Seq::empty());
    } else {
        let t = cols.skip(1);
        assert forall|i: int| 0 <= i < t.len() implies held(#[trigger] t[i], rows) by {
            assert(t[i] == cols[i + 1]);
        }
        lemma_columns(t, rows, rest);
        let after = columns_bytes(t) + rest;
        lemma_column(cols[0], rows, after);
        assert(columns_bytes(cols) + rest =~= column_bytes(cols[0]) + after);
        assert(seq![cols[0]] + t =~= cols);
    }
}

/// Whether a batch can be stored: every column has a name, the batch's rows and
/// values of its kind, and the counts are ones a machine can hold.
pub open spec fn storable(b: array::BatchModel) -> bool {
    &&& b.names.len() == b.columns.len()
    &&& b.columns.len() <= u64::MAX
    &&& b.rows <= usize::MAX
    &&& b.columns.len() == 0 ==> b.rows == 0
    &&& forall|i: int| 0 <= i < b.columns.len() ==> held(#[trigger] parts(b)[i], b.rows)
}

/// Reading a stored batch gives it back.
pub proof fn lemma_batch_round_trip(b: array::BatchModel)
    requires
        storable(b),
    ensures
        batch_of(batch_bytes(b)) == Ok::<array::BatchModel, BatchError>(b),
{
    let s = batch_bytes(b);
    let cols = parts(b);
    let w = varint::uvarint(b.columns.len());
    let r = varint::uvarint(b.rows);
    let body = columns_bytes(cols);
    assert(s.take(4) =~= magic());
    assert(s.skip(4) =~= w + (r + body));
    varint::lemma_uvarint_round_trip(b.columns.len() as u64, r + body);
    assert(s.skip(4 + w.len() as int) =~= r + body);
    varint::lemma_uvarint_round_trip(b.rows as u64, body);
    assert(s.skip(4 + w.len() as int + r.len() as int) =~= body + Seq::empty());
    lemma_columns(cols, b.rows, Seq::empty());
    assert(whole(cols, b.rows) =~= b);
}

/// Reading a stored and compressed batch gives it back.
pub proof fn lemma_compressed_round_trip(b: array::BatchModel)
    requires
        storable(b),
        batch_bytes(b).len() <= u32::MAX,
    ensures
        compressed_of(compress::framed(compress::best_codec(batch_bytes(b)), batch_bytes(b))) == Ok::<
            array::BatchModel,
            BatchError,
        >(b),
{
    compress::lemma_frame_round_trip(compress::best_codec(batch_bytes(b)), batch_bytes(b));
    lemma_batch_round_trip(b);
}

/// The batch that compressed bytes stand for.
pub open spec fn compressed_of(s: Seq<u8>) -> Result<array::BatchModel, BatchError> {
    match compress::unframed(s) {
        Err(_) => Err(BatchError::Truncated),
        Ok(raw) => batch_of(raw),
    }
}

// Writing

fn encode_value(out: &mut Vec<u8>, v: &Value)
    ensures
        final(out)@ == old(out)@ + value_bytes(*v),
{
    match v {
        Value::Null => {
            assert(out@ =~= old(out)@ + value_bytes(*v));
        },
        Value::Bool(b) => {
            out.push(
                if *b {
                    1
                } else {
                    0
                },
            );
        },
        Value::Int(i) => varint::write_uvarint(out, encoding::zigzag_encode(*i)),
        Value::Real(b) => bytes::put_u64(out, *b),
        Value::Text(id) => varint::write_uvarint(out, *id as u64),
    }
}

/// Write the validity bitmap of a column.
fn encode_mask(out: &mut Vec<u8>, col: &Array, rows: usize)
    requires
        col.wf(),
        col@.values.len() == rows,
    ensures
        final(out)@ == old(out)@ + packed(present(col@.values)),
{
    let ghost flags = present(col@.values);
    let ghost was = out@;
    let ghost all = packed(flags);
    let mut i: usize = 0;
    let n: usize = if rows % 8 == 0 {
        rows / 8
    } else {
        rows / 8 + 1
    };
    assert(was + all.take(0) =~= was);
    while i < n
        invariant
            i <= n,
            n == (rows + 7) / 8,
            col.wf(),
            col@.values.len() == rows,
            flags == present(col@.values),
            all == packed(flags),
            out@ == was + all.take(i as int),
        decreases n - i,
    {
        let lo: usize = 8 * i;
        let hi: usize = if rows - lo > 8 {
            lo + 8
        } else {
            rows
        };
        let ghost e = eight(flags, i as int);
        assert(e =~= flags.subrange(lo as int, hi as int));
        let mut b: u8 = 0;
        let mut k: usize = hi;
        assert(flags.subrange(hi as int, hi as int) =~= Seq::empty());
        proof {
            reveal_with_fuel(bits::pow2, 9);
        }
        while k > lo
            invariant
                lo <= k <= hi <= rows,
                hi - lo <= 8,
                col.wf(),
                col@.values.len() == rows,
                flags == present(col@.values),
                b == flag_byte(flags.subrange(k as int, hi as int)),
                bits::pow2(0) == 1,
                bits::pow2(7) == 128,
            decreases k,
        {
            proof {
                let t = flags.subrange(k as int, hi as int);
                lemma_flag_byte(t);
                bits::lemma_pow2_mono(t.len(), 7);
                assert(flags.subrange(k - 1, hi as int).skip(1) =~= t);
            }
            k -= 1;
            let v = col.value(k);
            b = 2 * b + if v.is_null() {
                0
            } else {
                1
            };
        }
        out.push(b);
        assert(out@ =~= was + all.take(i + 1));
        i += 1;
    }
    assert(all.take(n as int) =~= all);
}

fn encode_column(out: &mut Vec<u8>, name: &String, col: &Array, rows: usize)
    requires
        col.wf(),
        col@.values.len() == rows,
    ensures
        final(out)@ == old(out)@ + column_bytes((name@, col@)),
        vstd::utf8::encode_utf8(name@).len() <= u64::MAX,
{
    let ghost was = out@;
    let text = name.as_str().as_bytes();
    varint::write_uvarint(out, text.len() as u64);
    bytes::put_bytes(out, text);
    out.push(col.kind().as_u8());
    encode_mask(out, col, rows);
    let ghost vals = col@.values;
    let ghost head = out@;
    let mut i: usize = 0;
    assert(vals.skip(0) =~= vals);
    while i < rows
        invariant
            i <= rows,
            col.wf(),
            vals == col@.values,
            vals.len() == rows,
            out@ + values_bytes(vals.skip(i as int)) == head + values_bytes(vals),
        decreases rows - i,
    {
        let v = col.value(i);
        let ghost rest = values_bytes(vals.skip(i + 1));
        assert(vals.skip(i as int).skip(1) =~= vals.skip(i + 1));
        assert(out@ + (value_bytes(v) + rest) =~= (out@ + value_bytes(v)) + rest);
        encode_value(out, &v);
        i += 1;
    }
    assert(out@ + values_bytes(vals.skip(rows as int)) =~= out@);
    assert(out@ =~= was + column_bytes((name@, col@)));
}

/// Encode a batch to bytes.
pub fn encode(batch: &RecordBatch) -> (out: Vec<u8>)
    requires
        batch.wf(),
    ensures
        out@ == batch_bytes(batch@),
{
    let mut out: Vec<u8> = Vec::new();
    out.push(83);
    out.push(66);
    out.push(84);
    out.push(67);
    assert(out@ =~= magic());
    varint::write_uvarint(&mut out, batch.width() as u64);
    varint::write_uvarint(&mut out, batch.rows() as u64);
    proof {
        array::lemma_batch(*batch);
    }
    let names = batch.names();
    let columns = batch.columns();
    let rows = batch.rows();
    let ghost cols = parts(batch@);
    let ghost head = out@;
    let mut i: usize = 0;
    assert(cols.skip(0) =~= cols);
    assert(array::name_views(names@).len() == names@.len());
    assert(array::column_views(columns@).len() == columns@.len());
    while i < columns.len()
        invariant
            i <= columns@.len(),
            names@.len() == columns@.len(),
            array::name_views(names@) == batch@.names,
            array::column_views(columns@) == batch@.columns,
            cols == parts(batch@),
            cols.len() == columns@.len(),
            rows == batch@.rows,
            forall|i: int| 0 <= i < columns@.len() ==> (#[trigger] columns@[i]).wf(),
            forall|i: int| 0 <= i < batch@.columns.len() ==> (#[trigger] batch@.columns[i]).values.len() == rows,
            out@ + columns_bytes(cols.skip(i as int)) == head + columns_bytes(cols),
        decreases columns@.len() - i,
    {
        let ghost rest = columns_bytes(cols.skip(i + 1));
        assert(cols.skip(i as int).skip(1) =~= cols.skip(i + 1));
        assert(batch@.columns[i as int] == columns@[i as int]@);
        assert(batch@.names[i as int] == names@[i as int]@);
        assert(cols[i as int] == (names@[i as int]@, columns@[i as int]@));
        assert(out@ + (column_bytes(cols[i as int]) + rest) =~= (out@ + column_bytes(cols[i as int])) + rest);
        encode_column(&mut out, &names[i], &columns[i], rows);
        i += 1;
    }
    assert(out@ + columns_bytes(cols.skip(i as int)) =~= out@);
    assert(out@ =~= batch_bytes(batch@));
    out
}

/// Encode a batch and compress the payload.
pub fn encode_compressed(batch: &RecordBatch) -> (out: Vec<u8>)
    requires
        batch.wf(),
    ensures
        out@ == compress::framed(compress::best_codec(batch_bytes(batch@)), batch_bytes(batch@)),
{
    let raw = encode(batch);
    compress::compress_best(raw.as_slice())
}

// Reading

fn read_number(buf: &[u8], pos: usize) -> (r: Result<(u64, usize), BatchError>)
    requires
        pos <= buf@.len(),
    ensures
        match r {
            Ok((v, n)) => number_of(buf@.skip(pos as int)) == Ok::<(nat, nat), BatchError>((v as nat, n as nat)) && pos
                + n <= buf@.len(),
            Err(e) => number_of(buf@.skip(pos as int)) == Err::<(nat, nat), BatchError>(e),
        },
{
    match varint::read_uvarint(buf, pos) {
        Ok((v, n)) => Ok((v, n)),
        Err(_) => Err(BatchError::Truncated),
    }
}

fn read_value(buf: &[u8], pos: usize, kind: ColKind) -> (r: Result<(Value, usize), BatchError>)
    requires
        pos <= buf@.len(),
    ensures
        match r {
            Ok((v, n)) => value_of(buf@.skip(pos as int), kind) == Ok::<(Value, nat), BatchError>((v, n as nat)) && pos
                + n <= buf@.len() && array::coerced(kind, v) == v,
            Err(e) => value_of(buf@.skip(pos as int), kind) == Err::<(Value, nat), BatchError>(e),
        },
{
    let left = buf.len() - pos;
    let ghost s = buf@.skip(pos as int);
    match kind {
        ColKind::Bool => if left < 1 {
            Err(BatchError::Truncated)
        } else {
            Ok((Value::Bool(buf[pos] != 0), 1))
        },
        ColKind::Int => match read_number(buf, pos) {
            Err(e) => Err(e),
            Ok((v, n)) => Ok((Value::Int(encoding::zigzag_decode(v)), n)),
        },
        ColKind::Real => if left < 8 {
            Err(BatchError::Truncated)
        } else {
            assert(s.subrange(0, 8) =~= buf@.subrange(pos as int, pos + 8));
            Ok((Value::Real(bytes::get_u64(buf, pos)), 8))
        },
        ColKind::Text => match read_number(buf, pos) {
            Err(e) => Err(e),
            Ok((v, n)) => Ok((Value::Text((v % 0x1_0000_0000) as u32), n)),
        },
    }
}

/// Values in front of others.
pub open spec fn ahead(done: Seq<Value>, r: Result<(Seq<Value>, Seq<u8>), BatchError>) -> Result<
    (Seq<Value>, Seq<u8>),
    BatchError,
> {
    match r {
        Err(e) => Err(e),
        Ok((vs, rest)) => Ok((done + vs, rest)),
    }
}

fn read_values(buf: &[u8], from: usize, kind: ColKind, valid: &Vec<u8>, rows: usize) -> (r: Result<
    (Array, usize),
    BatchError,
>)
    requires
        from <= buf@.len(),
        valid@.len() == (rows + 7) / 8,
    ensures
        match r {
            Ok((a, to)) => a.wf() && a@.kind == kind && a@.values.len() == rows && to <= buf@.len() && values_of(
                buf@.skip(from as int),
                kind,
                valid@,
                0,
                rows as nat,
            ) == Ok::<(Seq<Value>, Seq<u8>), BatchError>((a@.values, buf@.skip(to as int))),
            Err(e) => values_of(buf@.skip(from as int), kind, valid@, 0, rows as nat) == Err::<
                (Seq<Value>, Seq<u8>),
                BatchError,
            >(e),
        },
{
    let ghost goal = values_of(buf@.skip(from as int), kind, valid@, 0, rows as nat);
    let size = buf.len();
    let mut b = ArrayBuilder::new(kind);
    let mut pos: usize = from;
    let mut i: usize = 0;
    proof {
        match goal {
            Ok((vs, rest)) => {
                assert(b@.values + vs =~= vs);
            },
            Err(_) => {},
        }
    }
    while i < rows
        invariant
            i <= rows,
            pos <= buf@.len(),
            buf@.len() == size,
            valid@.len() == (rows + 7) / 8,
            b.wf(),
            b@.kind == kind,
            b@.values.len() == i,
            goal == values_of(buf@.skip(from as int), kind, valid@, 0, rows as nat),
            goal == ahead(b@.values, values_of(buf@.skip(pos as int), kind, valid@, i as nat, rows as nat)),
        decreases rows - i,
    {
        let ghost s = buf@.skip(pos as int);
        let ghost done = b@.values;
        let set = bits::test_bit(valid[i / 8] as u64, (i % 8) as u64);
        if set {
            match read_value(buf, pos, kind) {
                Err(e) => return Err(e),
                Ok((v, n)) => {
                    assert(s.skip(n as int) =~= buf@.skip(pos + n));
                    b.push(v);
                    pos += n;
                    proof {
                        match values_of(buf@.skip(pos as int), kind, valid@, (i + 1) as nat, rows as nat) {
                            Ok((vs, rest)) => {
                                assert(done + (seq![v] + vs) =~= b@.values + vs);
                            },
                            Err(_) => {},
                        }
                    }
                },
            }
        } else {
            assert(s.skip(0) =~= s);
            b.push_null();
            proof {
                match values_of(buf@.skip(pos as int), kind, valid@, (i + 1) as nat, rows as nat) {
                    Ok((vs, rest)) => {
                        assert(done + (seq![Value::Null] + vs) =~= b@.values + vs);
                    },
                    Err(_) => {},
                }
            }
        }
        i += 1;
    }
    assert(b@.values + Seq::<Value>::empty() =~= b@.values);
    Ok((b.finish(), pos))
}

fn read_column(buf: &[u8], from: usize, rows: usize) -> (r: Result<(String, Array, usize), BatchError>)
    requires
        from <= buf@.len(),
    ensures
        match r {
            Ok((name, a, to)) => a.wf() && a@.values.len() == rows && to <= buf@.len() && column_of(
                buf@.skip(from as int),
                rows as nat,
            ) == Ok::<(Named, Seq<u8>), BatchError>(((name@, a@), buf@.skip(to as int))),
            Err(e) => column_of(buf@.skip(from as int), rows as nat) == Err::<(Named, Seq<u8>), BatchError>(e),
        },
{
    let size = buf.len();
    let (len, n) = match read_number(buf, from) {
        Err(e) => return Err(e),
        Ok(p) => p,
    };
    let a: usize = from + n;
    let ghost sa = buf@.skip(a as int);
    assert(buf@.skip(from as int).skip(n as int) =~= sa);
    if len > (size - a) as u64 {
        return Err(BatchError::Truncated);
    }
    let k: usize = a + len as usize;
    assert(sa.take(len as int) =~= buf@.subrange(a as int, k as int));
    let name = match text::utf8_text(bytes::copy_range(buf, a, k)) {
        None => return Err(BatchError::BadUtf8),
        Some(t) => t,
    };
    if k == size {
        return Err(BatchError::Truncated);
    }
    let kind = match ColKind::from_u8(buf[k]) {
        None => return Err(BatchError::BadKind(0)),
        Some(c) => c,
    };
    let b: usize = k + 1;
    let ghost sb = buf@.skip(b as int);
    assert(sa.skip(len + 1) =~= sb);
    let mask: usize = if rows % 8 == 0 {
        rows / 8
    } else {
        rows / 8 + 1
    };
    if size - b < mask {
        return Err(BatchError::Truncated);
    }
    let valid = bytes::copy_range(buf, b, b + mask);
    assert(sb.take(mask as int) =~= valid@);
    assert(sb.skip(mask as int) =~= buf@.skip(b + mask));
    match read_values(buf, b + mask, kind, &valid, rows) {
        Err(e) => Err(e),
        Ok((array, to)) => Ok((name, array, to)),
    }
}

/// The named columns read so far.
pub open spec fn models(pairs: Seq<(String, Array)>) -> Seq<Named> {
    Seq::new(pairs.len(), |i: int| (pairs[i].0@, pairs[i].1@))
}

/// Columns in front of others.
pub open spec fn before(done: Seq<Named>, r: Result<Seq<Named>, BatchError>) -> Result<Seq<Named>, BatchError> {
    match r {
        Err(e) => Err(e),
        Ok(cs) => Ok(done + cs),
    }
}

proof fn lemma_even(pairs: Seq<(String, Array)>, rows: nat)
    requires
        pairs.len() > 0,
        forall|i: int| 0 <= i < pairs.len() ==> (#[trigger] pairs[i]).1@.values.len() == rows,
    ensures
        array::longest(pairs) == rows,
    decreases pairs.len(),
{
    if pairs.len() > 1 {
        lemma_even(pairs.drop_last(), rows);
    } else {
        assert(array::longest(pairs.drop_last()) == 0);
    }
}

proof fn lemma_whole(pairs: Seq<(String, Array)>, rows: nat)
    requires
        pairs.len() == 0 ==> rows == 0,
        forall|i: int| 0 <= i < pairs.len() ==> (#[trigger] pairs[i]).1@.values.len() == rows,
    ensures
        array::batch_of(pairs) == whole(models(pairs), rows),
{
    if pairs.len() > 0 {
        lemma_even(pairs, rows);
    }
    let b = array::batch_of(pairs);
    let w = whole(models(pairs), rows);
    assert(b.names =~= w.names);
    assert forall|i: int| 0 <= i < pairs.len() implies b.columns[i] == w.columns[i] by {
        assert(array::padded(pairs[i].1@, rows).values =~= pairs[i].1@.values);
    }
    assert(b.columns =~= w.columns);
}

/// Decode bytes produced by [`encode`].
pub fn decode(bytes: &[u8]) -> (r: Result<RecordBatch, BatchError>)
    ensures
        told(r) == batch_of(bytes@),
        r matches Ok(b) ==> b.wf(),
{
    if bytes.len() < 4 {
        return Err(BatchError::Truncated);
    }
    let ghost s = bytes@;
    if bytes[0] != 83 || bytes[1] != 66 || bytes[2] != 84 || bytes[3] != 67 {
        assert(s.take(4)[0] == s[0] && s.take(4)[1] == s[1] && s.take(4)[2] == s[2] && s.take(4)[3] == s[3]);
        return Err(BatchError::BadMagic);
    }
    assert(s.take(4) =~= magic());
    let (width, n) = match read_number(bytes, 4) {
        Err(e) => return Err(e),
        Ok(p) => p,
    };
    let (count, m) = match read_number(bytes, 4 + n) {
        Err(e) => return Err(e),
        Ok(p) => p,
    };
    if count > usize::MAX as u64 {
        return Err(BatchError::Truncated);
    }
    let rows: usize = count as usize;
    let start: usize = 4 + n + m;
    let ghost goal = columns_of(s.skip(start as int), width as nat, rows as nat);
    let mut pairs: Vec<(String, Array)> = Vec::new();
    let mut pos: usize = start;
    let mut k: u64 = 0;
    proof {
        match goal {
            Ok(cs) => {
                assert(models(pairs@) + cs =~= cs);
            },
            Err(_) => {},
        }
    }
    while k < width
        invariant
            k <= width,
            pos <= bytes@.len(),
            start <= bytes@.len(),
            s == bytes@,
            pairs@.len() == k,
            forall|i: int| 0 <= i < pairs@.len() ==> (#[trigger] pairs@[i]).1.wf() && pairs@[i].1@.values.len() == rows,
            goal == columns_of(s.skip(start as int), width as nat, rows as nat),
            goal == before(models(pairs@), columns_of(s.skip(pos as int), (width - k) as nat, rows as nat)),
            goal is Err ==> batch_of(s) == Err::<array::BatchModel, BatchError>(goal->Err_0),
        decreases width - k,
    {
        let ghost done = models(pairs@);
        match read_column(bytes, pos, rows) {
            Err(e) => return Err(e),
            Ok((name, array, to)) => {
                let ghost c = (name@, array@);
                pairs.push((name, array));
                pos = to;
                proof {
                    match columns_of(s.skip(pos as int), (width - k - 1) as nat, rows as nat) {
                        Ok(cs) => {
                            assert(done + (seq![c] + cs) =~= models(pairs@) + cs);
                        },
                        Err(_) => {},
                    }
                }
            },
        }
        k += 1;
    }
    assert(models(pairs@) + Seq::<Named>::empty() =~= models(pairs@));
    // An empty batch still needs its declared row count.
    if width == 0 && rows > 0 {
        let nulls = Array::nulls(ColKind::Int, rows);
        let mut one: Vec<(String, Array)> = Vec::new();
        one.push((String::from_str("_"), nulls));
        proof {
            lemma_whole(one@, rows as nat);
            assert(models(one@) =~= seq![
                ("_"@, array::ArrayModel { kind: ColKind::Int, values: Seq::new(rows as nat, |i: int| Value::Null) }),
            ]);
        }
        return Ok(RecordBatch::new(one));
    }
    proof {
        lemma_whole(pairs@, rows as nat);
    }
    Ok(RecordBatch::new(pairs))
}

/// Decode a compressed batch produced by [`encode_compressed`].
pub fn decode_compressed(bytes: &[u8]) -> (r: Result<RecordBatch, BatchError>)
    ensures
        told(r) == compressed_of(bytes@),
        r matches Ok(b) ==> b.wf(),
{
    match compress::unframe(bytes) {
        Err(_) => Err(BatchError::Truncated),
        Ok(raw) => decode(raw.as_slice()),
    }
}

} // verus!
