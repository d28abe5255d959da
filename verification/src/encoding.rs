//! Column encodings beyond plain, dictionary and run-length.
//!
//! A columnar engine offers a family of encodings, each suited to a different
//! data shape: bit-packing for narrow integer ranges, frame-of-reference for
//! clustered integers, delta and delta-of-delta for monotonic sequences, and
//! null suppression for sparse nulls. This module holds the encode and decode
//! halves of each, plus the helpers they share.
//!
//! Each encoding's byte output begins with a one-byte sub-tag:
//!
//! - `0x00` raw plain (no sub-encoding)
//! - `0x01` bit-packed
//! - `0x02` frame-of-reference
//! - `0x03` delta
//! - `0x04` delta-of-delta
//! - `0x05` null-suppressed
//! - `0x06` constant-run
//! - `0x07` zig-zag varint
//! - `0x08` byte-array dictionary inline

use vstd::prelude::*;
use crate::bytes;
use crate::bits;
use vstd::slice::slice_subrange;
use crate::error::{DecodeError, Error, Result};
use crate::value::Value;

verus! {

broadcast use crate::bytes::group_le_len;

/// The sub-encoding tag byte.
#[derive(Debug, Clone, Copy, PartialEq, Eq, Structural)]
pub enum SubTag {
    Plain,
    BitPacked,
    FrameOfRef,
    Delta,
    DeltaOfDelta,
    NullSuppressed,
    ConstantRun,
    ZigZagVarint,
    ByteArrayDict,
}

impl SubTag {
    /// The byte of a tag.
    pub open spec fn code(self) -> u8 {
        match self {
            SubTag::Plain => 0x00,
            SubTag::BitPacked => 0x01,
            SubTag::FrameOfRef => 0x02,
            SubTag::Delta => 0x03,
            SubTag::DeltaOfDelta => 0x04,
            SubTag::NullSuppressed => 0x05,
            SubTag::ConstantRun => 0x06,
            SubTag::ZigZagVarint => 0x07,
            SubTag::ByteArrayDict => 0x08,
        }
    }

    pub fn as_u8(self) -> (b: u8)
        ensures
            b == self.code(),
    {
        match self {
            SubTag::Plain => 0x00,
            SubTag::BitPacked => 0x01,
            SubTag::FrameOfRef => 0x02,
            SubTag::Delta => 0x03,
            SubTag::DeltaOfDelta => 0x04,
            SubTag::NullSuppressed => 0x05,
            SubTag::ConstantRun => 0x06,
            SubTag::ZigZagVarint => 0x07,
            SubTag::ByteArrayDict => 0x08,
        }
    }

    /// The tag with a given byte: the one whose code it is, if any.
    pub fn from_u8(b: u8) -> (t: Option<SubTag>)
        ensures
            match t {
                Some(t) => t.code() == b,
                None => forall|t: SubTag| t.code() != b,
            },
    {
        match b {
            0x00 => Some(SubTag::Plain),
            0x01 => Some(SubTag::BitPacked),
            0x02 => Some(SubTag::FrameOfRef),
            0x03 => Some(SubTag::Delta),
            0x04 => Some(SubTag::DeltaOfDelta),
            0x05 => Some(SubTag::NullSuppressed),
            0x06 => Some(SubTag::ConstantRun),
            0x07 => Some(SubTag::ZigZagVarint),
            0x08 => Some(SubTag::ByteArrayDict),
            _ => None,
        }
    }

    /// The short name of a tag.
    pub fn name(self) -> (s: &'static str)
        ensures
            s@ == (match self {
                SubTag::Plain => "plain"@,
                SubTag::BitPacked => "bitpacked"@,
                SubTag::FrameOfRef => "for"@,
                SubTag::Delta => "delta"@,
                SubTag::DeltaOfDelta => "dod"@,
                SubTag::NullSuppressed => "nullsupp"@,
                SubTag::ConstantRun => "const"@,
                SubTag::ZigZagVarint => "zigzag"@,
                SubTag::ByteArrayDict => "badict"@,
            }),
    {
        match self {
            SubTag::Plain => "plain",
            SubTag::BitPacked => "bitpacked",
            SubTag::FrameOfRef => "for",
            SubTag::Delta => "delta",
            SubTag::DeltaOfDelta => "dod",
            SubTag::NullSuppressed => "nullsupp",
            SubTag::ConstantRun => "const",
            SubTag::ZigZagVarint => "zigzag",
            SubTag::ByteArrayDict => "badict",
        }
    }
}

/// The byte of a tag determines the tag.
pub proof fn lemma_sub_tag_round_trip(s: SubTag, t: SubTag)
    requires
        s.code() == t.code(),
    ensures
        s == t,
{
}

/// The number of bits needed to represent values in `[0, max]`.
pub fn bits_needed(max: u64) -> (n: u32)
    ensures
        n == bits::width_of(max as nat),
        n <= 64,
        max < bits::pow2(n as nat),
        n > 0 ==> max >= bits::pow2((n - 1) as nat),
{
    let mut v: u64 = max;
    let mut n: u32 = 0;
    proof {
        bits::lemma_pow2_values();
        bits::lemma_width_of_bound(max as nat, 64);
        bits::lemma_width_of(max as nat);
    }
    while v > 0
        invariant
            n + bits::width_of(v as nat) == bits::width_of(max as nat),
            bits::width_of(max as nat) <= 64,
        decreases v,
    {
        v = v / 2;
        n += 1;
    }
    n
}

/// The largest element of a sequence (0 when it is empty).
pub open spec fn seq_max(s: Seq<u64>) -> u64
    decreases s.len(),
{
    if s.len() == 0 {
        0
    } else {
        let m = seq_max(s.drop_last());
        if s.last() > m {
            s.last()
        } else {
            m
        }
    }
}

/// [`seq_max`] bounds every element, and is one of them.
pub proof fn lemma_seq_max(s: Seq<u64>)
    ensures
        forall|i: int| 0 <= i < s.len() ==> s[i] <= seq_max(s),
        s.len() > 0 ==> s.contains(seq_max(s)),
    decreases s.len(),
{
    if s.len() > 0 {
        let p = s.drop_last();
        lemma_seq_max(p);
        assert forall|i: int| 0 <= i < s.len() implies s[i] <= seq_max(s) by {
            if i < p.len() {
                assert(p[i] == s[i]);
            }
        }
        if s.last() > seq_max(p) {
            assert(s[s.len() - 1] == seq_max(s));
        } else if p.len() > 0 {
            let j = choose|j: int| 0 <= j < p.len() && p[j] == seq_max(p);
            assert(s[j] == seq_max(s));
        } else {
            assert(s[s.len() - 1] == seq_max(s));
        }
    }
}

fn max_u64(values: &[u64]) -> (m: u64)
    ensures
        m == seq_max(values@),
{
    let mut m: u64 = 0;
    let mut i: usize = 0;
    while i < values.len()
        invariant
            i <= values@.len(),
            m == seq_max(values@.subrange(0, i as int)),
        decreases values.len() - i,
    {
        proof {
            let p = values@.subrange(0, i + 1);
            assert(p.drop_last() =~= values@.subrange(0, i as int));
            assert(p.last() == values@[i as int]);
        }
        if values[i] > m {
            m = values[i];
        }
        i += 1;
    }
    assert(values@.subrange(0, i as int) =~= values@);
    m
}

/// The minimum number of bits that holds each of the values.
pub fn width_for(values: &[u64]) -> (n: u32)
    ensures
        n == bits::width_of(seq_max(values@) as nat),
        n <= 64,
{
    bits_needed(max_u64(values))
}

// Zig-zag

/// The zig-zag image of a signed integer: 0, -1, 1, -2, 2, ... become
/// 0, 1, 2, 3, 4, ...
pub open spec fn zigzag(i: i64) -> u64 {
    if i >= 0 {
        (2 * i) as u64
    } else {
        (-2 * i - 1) as u64
    }
}

/// The inverse of [`zigzag`].
pub open spec fn unzigzag(u: u64) -> i64 {
    if u % 2 == 0 {
        (u / 2) as i64
    } else {
        (-1 - (u / 2) as int) as i64
    }
}

/// Zig-zag encode a signed integer into an unsigned one so that small-magnitude
/// negatives (common in deltas) stay small.
pub fn zigzag_encode(i: i64) -> (u: u64)
    ensures
        u == zigzag(i),
{
    if i >= 0 {
        2 * (i as u64)
    } else {
        2 * ((-(i + 1)) as u64) + 1
    }
}

/// Inverse of [`zigzag_encode`].
pub fn zigzag_decode(u: u64) -> (i: i64)
    ensures
        i == unzigzag(u),
{
    if u % 2 == 0 {
        (u / 2) as i64
    } else {
        -1 - (u / 2) as i64
    }
}

/// Zig-zag decoding undoes zig-zag encoding, and the other way round.
pub proof fn lemma_zigzag_round_trip(i: i64, u: u64)
    ensures
        unzigzag(zigzag(i)) == i,
        zigzag(unzigzag(u)) == u,
{
}

// Varints

/// The little-endian base-128 encoding of `v`: seven bits per byte, the high
/// bit set on every byte but the last.
pub open spec fn varint(v: nat) -> Seq<u8>
    decreases v,
{
    if v < 128 {
        seq![v as u8]
    } else {
        seq![(v % 128 + 128) as u8] + varint(v / 128)
    }
}

/// The value and length of the varint at the start of `s`, where `i` bytes of
/// it came before. A varint has at most ten bytes; the tenth gives one bit.
pub open spec fn varint_prefix(s: Seq<u8>, i: nat) -> Option<(nat, nat)>
    decreases s.len(),
{
    if s.len() == 0 || i >= 10 {
        None
    } else {
        let digit: nat = if i == 9 {
            (s[0] % 2) as nat
        } else {
            (s[0] % 128) as nat
        };
        if s[0] < 128 {
            Some((digit, 1nat))
        } else {
            match varint_prefix(s.drop_first(), i + 1) {
                None => None,
                Some((v, n)) => Some((digit + 128 * v, n + 1)),
            }
        }
    }
}

/// The number of values that the bytes of a varint after the first `i` can
/// still tell apart.
pub open spec fn varint_room(i: nat) -> nat {
    if i <= 9 {
        bits::pow2((64 - 7 * i) as nat)
    } else {
        1
    }
}

pub proof fn lemma_varint_room(i: nat)
    requires
        i <= 9,
    ensures
        i < 9 ==> varint_room(i) == 128 * varint_room(i + 1),
        i == 9 ==> varint_room(i) == 2,
        varint_room(i) <= 0x1_0000_0000_0000_0000,
{
    reveal_with_fuel(bits::pow2, 8);
    bits::lemma_pow2_values();
    bits::lemma_pow2_mono((64 - 7 * i) as nat, 64);
}

pub proof fn lemma_varint_prefix_bound(s: Seq<u8>, i: nat)
    ensures
        match varint_prefix(s, i) {
            None => true,
            Some((v, n)) => v < varint_room(i) && 1 <= n <= s.len() && n + i <= 10,
        },
    decreases s.len(),
{
    if s.len() > 0 && i < 10 {
        lemma_varint_room(i);
        lemma_varint_prefix_bound(s.drop_first(), i + 1);
        if i < 9 {
            lemma_varint_room(i + 1);
            bits::lemma_pow2_pos((64 - 7 * (i + 1)) as nat);
        }
    }
}

pub proof fn lemma_varint_len(v: nat)
    ensures
        varint(v).len() >= 1,
    decreases v,
{
    if v >= 128 {
        lemma_varint_len(v / 128);
    }
}

pub proof fn lemma_varint_len_bound(v: nat, i: nat)
    requires
        i <= 9,
        v < varint_room(i),
    ensures
        varint(v).len() + i <= 10,
    decreases v,
{
    if v >= 128 {
        lemma_varint_room(i);
        lemma_varint_len_bound(v / 128, i + 1);
    }
}

/// Reading a varint gives back the value that was written, whatever follows it.
pub proof fn lemma_varint_round_trip(v: nat, rest: Seq<u8>, i: nat)
    requires
        i <= 9,
        v < varint_room(i),
    ensures
        varint_prefix(varint(v) + rest, i) == Some((v, varint(v).len())),
    decreases v,
{
    let s = varint(v) + rest;
    lemma_varint_room(i);
    if v < 128 {
        assert(s[0] == v as u8);
    } else {
        assert(i < 9);
        lemma_varint_round_trip(v / 128, rest, i + 1);
        assert(s[0] == (v % 128 + 128) as u8);
        assert(s.drop_first() =~= varint(v / 128) + rest);
    }
}

/// [`lemma_varint_round_trip`] for a machine word at the start of a sequence.
pub proof fn lemma_varint_word(v: u64, rest: Seq<u8>)
    ensures
        varint_prefix(varint(v as nat) + rest, 0) == Some((v as nat, varint(v as nat).len())),
        1 <= varint(v as nat).len() <= 10,
{
    bits::lemma_pow2_values();
    lemma_varint_round_trip(v as nat, rest, 0);
    lemma_varint_len(v as nat);
    lemma_varint_len_bound(v as nat, 0);
}

/// Encode an unsigned integer as a little-endian base-128 varint.
pub fn write_varint(out: &mut Vec<u8>, value: u64)
    ensures
        final(out)@ == old(out)@ + varint(value as nat),
{
    let mut v: u64 = value;
    while v >= 0x80
        invariant
            out@ + varint(v as nat) == old(out)@ + varint(value as nat),
        decreases v,
    {
        let ghost before = out@;
        let ghost v0 = v as nat;
        out.push((v % 128 + 128) as u8);
        v = v / 128;
        assert(out@ + varint(v as nat) =~= before + varint(v0));
    }
    let ghost before = out@;
    out.push(v as u8);
    assert(out@ =~= before + varint(v as nat));
}

fn read_varint_from(buf: &[u8], pos: usize, i: usize) -> (r: Option<(u64, usize)>)
    requires
        pos <= buf@.len(),
    ensures
        match varint_prefix(buf@.skip(pos as int), i as nat) {
            None => r is None,
            Some((v, n)) => r is Some && r.unwrap().0 == v && r.unwrap().1 == n,
        },
    decreases buf@.len() - pos,
{
    if pos >= buf.len() || i >= 10 {
        return None;
    }
    let b: u8 = buf[pos];
    let digit: u64 = if i == 9 {
        (b % 2) as u64
    } else {
        (b % 128) as u64
    };
    let ghost s = buf@.skip(pos as int);
    proof {
        assert(s.drop_first() =~= buf@.skip(pos + 1));
        lemma_varint_prefix_bound(s.drop_first(), (i + 1) as nat);
        lemma_varint_room(i as nat);
        lemma_varint_prefix_bound(s, i as nat);
    }
    if b < 128 {
        return Some((digit, 1));
    }
    match read_varint_from(buf, pos + 1, i + 1) {
        None => None,
        Some((v, n)) => Some((digit + 128 * v, n + 1)),
    }
}

/// Read a varint from a buffer, returning the value and the number of bytes
/// consumed.
pub fn read_varint(buf: &[u8]) -> (r: Option<(u64, usize)>)
    ensures
        match varint_prefix(buf@, 0) {
            None => r is None,
            Some((v, n)) => r is Some && r.unwrap().0 == v && r.unwrap().1 == n,
        },
{
    assert(buf@.skip(0) =~= buf@);
    read_varint_from(buf, 0, 0)
}

/// Read the varint at offset `pos` of a buffer.
pub fn read_varint_at(buf: &[u8], pos: usize) -> (r: Option<(u64, usize)>)
    requires
        pos <= buf@.len(),
    ensures
        match varint_prefix(buf@.skip(pos as int), 0) {
            None => r is None,
            Some((v, n)) => r is Some && r.unwrap().0 == v && r.unwrap().1 == n && 1 <= n && pos + n <= buf@.len(),
        },
{
    proof {
        lemma_varint_prefix_bound(buf@.skip(pos as int), 0);
    }
    read_varint_from(buf, pos, 0)
}

/// The first `n` varints of `s` and the number of bytes they take.
pub open spec fn varints(s: Seq<u8>, n: nat) -> Option<(Seq<u64>, nat)>
    decreases n,
{
    if n == 0 {
        Some((Seq::empty(), 0nat))
    } else {
        match varint_prefix(s, 0) {
            None => None,
            Some((v, k)) => match varints(s.skip(k as int), (n - 1) as nat) {
                None => None,
                Some((vs, m)) => Some((seq![v as u64] + vs, k + m)),
            },
        }
    }
}

/// The varints of the elements of `vs`, one after the other.
pub open spec fn varint_seq(vs: Seq<u64>) -> Seq<u8>
    decreases vs.len(),
{
    if vs.len() == 0 {
        Seq::empty()
    } else {
        varint(vs[0] as nat) + varint_seq(vs.drop_first())
    }
}

pub proof fn lemma_varint_seq_push(vs: Seq<u64>, v: u64)
    ensures
        varint_seq(vs.push(v)) == varint_seq(vs) + varint(v as nat),
    decreases vs.len(),
{
    if vs.len() == 0 {
        assert(vs.push(v).drop_first() =~= Seq::<u64>::empty());
        assert(varint_seq(Seq::<u64>::empty()) =~= Seq::<u8>::empty());
        assert(varint_seq(vs.push(v)) =~= varint_seq(vs) + varint(v as nat));
    } else {
        assert(vs.push(v).drop_first() =~= vs.drop_first().push(v));
        lemma_varint_seq_push(vs.drop_first(), v);
        assert(varint_seq(vs.push(v)) =~= varint_seq(vs) + varint(v as nat));
    }
}

/// Reading a run of varints gives back what was written.
pub proof fn lemma_varints_round_trip(vs: Seq<u64>, rest: Seq<u8>)
    ensures
        varints(varint_seq(vs) + rest, vs.len()) == Some((vs, varint_seq(vs).len())),
    decreases vs.len(),
{
    let s = varint_seq(vs) + rest;
    if vs.len() == 0 {
        assert(vs =~= Seq::<u64>::empty());
    } else {
        let tail = varint_seq(vs.drop_first()) + rest;
        assert(s =~= varint(vs[0] as nat) + tail);
        lemma_varint_word(vs[0], tail);
        let k = varint(vs[0] as nat).len();
        assert(s.skip(k as int) =~= tail);
        lemma_varints_round_trip(vs.drop_first(), rest);
        assert(seq![vs[0]] + vs.drop_first() =~= vs);
    }
}

fn read_varints(buf: &[u8], start: usize, count: u64) -> (r: Option<(Vec<u64>, usize)>)
    requires
        start <= buf@.len(),
    ensures
        match varints(buf@.skip(start as int), count as nat) {
            None => r is None,
            Some((vs, m)) => r is Some && r.unwrap().0@ == vs && r.unwrap().1 == start + m && start + m <= buf@.len(),
        },
{
    let mut out: Vec<u64> = Vec::new();
    let mut pos: usize = start;
    let mut i: u64 = 0;
    let ghost s = buf@.skip(start as int);
    while i < count
        invariant
            start <= pos <= buf@.len(),
            i <= count,
            s == buf@.skip(start as int),
            varints(s, count as nat) == (match varints(buf@.skip(pos as int), (count - i) as nat) {
                None => None,
                Some((vs, m)) => Some((out@ + vs, (pos - start + m) as nat)),
            }),
        decreases count - i,
    {
        let ghost here = buf@.skip(pos as int);
        match read_varint_at(buf, pos) {
            None => {
                return None;
            },
            Some((v, n)) => {
                let ghost before = out@;
                out.push(v);
                proof {
                    assert(here.skip(n as int) =~= buf@.skip(pos + n));
                    let rest = varints(buf@.skip(pos + n), (count - i - 1) as nat);
                    if rest is Some {
                        assert(before + (seq![v] + rest.unwrap().0) =~= out@ + rest.unwrap().0);
                    }
                }
                assert(pos + n <= buf.len());
                pos = pos + n;
            },
        }
        i += 1;
    }
    assert(out@ + Seq::<u64>::empty() =~= out@);
    Some((out, pos))
}

/// An exec result says the same as a model result.
pub open spec fn agrees<T>(r: Result<Vec<T>>, m: std::result::Result<Seq<T>, DecodeError>) -> bool {
    match m {
        Ok(s) => r is Ok && r->Ok_0@ == s,
        Err(e) => r is Err && r->Err_0 == Error::Decode(e),
    }
}

// Bit-packing

/// The first `width` binary digits of `v`, lowest first.
pub open spec fn digits(v: nat, width: nat) -> Seq<bool> {
    Seq::new(width, |k: int| bits::bit(v, k as nat))
}

/// The number with the given binary digits, lowest first.
pub open spec fn from_digits(b: Seq<bool>) -> nat
    decreases b.len(),
{
    if b.len() == 0 {
        0
    } else {
        (if b[0] {
            1nat
        } else {
            0nat
        }) + 2 * from_digits(b.drop_first())
    }
}

/// The digits of all the values, one value after the other.
pub open spec fn digit_stream(values: Seq<u64>, width: nat) -> Seq<bool>
    decreases values.len(),
{
    if values.len() == 0 {
        Seq::empty()
    } else {
        digit_stream(values.drop_last(), width) + digits(values.last() as nat, width)
    }
}

/// The `k`-th bit of a byte sequence, counting from the lowest bit of the first
/// byte; bits past the end are zero.
pub open spec fn stream_bit(s: Seq<u8>, k: int) -> bool {
    0 <= k && k / 8 < s.len() && bits::bit(s[k / 8] as nat, (k % 8) as nat)
}

/// A digit stream as bytes, eight digits per byte, the last byte filled with
/// zeros.
pub open spec fn pack_digits(b: Seq<bool>) -> Seq<u8> {
    Seq::new(
        ((b.len() + 7) / 8) as nat,
        |j: int| from_digits(Seq::new(8, |k: int| 8 * j + k < b.len() && b[8 * j + k])) as u8,
    )
}

pub proof fn lemma_from_digits_bit(b: Seq<bool>, k: nat)
    ensures
        bits::bit(from_digits(b), k) == (k < b.len() && b[k as int]),
        from_digits(b) < bits::pow2(b.len()),
    decreases b.len(),
{
    if b.len() == 0 {
        bits::lemma_bit_zero(k);
    } else {
        let t = b.drop_first();
        let f = from_digits(b);
        assert(f / 2 == from_digits(t));
        assert((f % 2 == 1) == b[0]);
        if k > 0 {
            lemma_from_digits_bit(t, (k - 1) as nat);
        } else {
            lemma_from_digits_bit(t, 0);
        }
    }
}

/// The digits of a number below `2^width` give the number back.
pub proof fn lemma_digits_round_trip(v: nat, width: nat)
    requires
        v < bits::pow2(width),
    ensures
        from_digits(digits(v, width)) == v,
{
    let d = digits(v, width);
    lemma_from_digits_bit(d, 0);
    assert forall|k: nat| k < width implies bits::bit(from_digits(d), k) == bits::bit(v, k) by {
        lemma_from_digits_bit(d, k);
    }
    bits::lemma_bits_determine(from_digits(d), v, width);
}

pub proof fn lemma_digit_stream_len(values: Seq<u64>, width: nat)
    ensures
        digit_stream(values, width).len() == values.len() * width,
    decreases values.len(),
{
    if values.len() > 0 {
        lemma_digit_stream_len(values.drop_last(), width);
        assert(values.len() * width == (values.len() - 1) * width + width) by (nonlinear_arith)
            requires
                values.len() > 0,
        ;
    } else {
        assert(0 * width == 0);
    }
}

/// Packed values take as many bytes as their bits need.
pub proof fn lemma_packed_len(values: Seq<u64>, width: nat)
    ensures
        pack_digits(digit_stream(values, width)).len() == (values.len() * width + 7) / 8,
{
    lemma_digit_stream_len(values, width);
}

/// Digit `b` of value `i` stands at position `i * width + b` of the stream.
pub proof fn lemma_digit_stream_at(values: Seq<u64>, width: nat, i: int, b: int)
    requires
        0 <= i < values.len(),
        0 <= b < width,
    ensures
        0 <= i * width + b < digit_stream(values, width).len(),
        digit_stream(values, width)[i * width + b] == bits::bit(values[i] as nat, b as nat),
    decreases values.len(),
{
    let p = values.drop_last();
    lemma_digit_stream_len(values, width);
    lemma_digit_stream_len(p, width);
    assert(0 <= i * width) by (nonlinear_arith)
        requires
            0 <= i,
    ;
    if i < p.len() {
        lemma_digit_stream_at(p, width, i, b);
        assert(p[i] == values[i]);
        assert(values.len() * width == p.len() * width + width) by (nonlinear_arith)
            requires
                values.len() == p.len() + 1,
        ;
    } else {
        assert(values.len() * width == p.len() * width + width) by (nonlinear_arith)
            requires
                values.len() == p.len() + 1,
        ;
        assert(i * width == p.len() * width);
    }
}

/// What has been written by a bit writer: full bytes, then `nb` bits of `cur`.
pub open spec fn written(out: Seq<u8>, cur: u8, nb: u8) -> Seq<bool> {
    Seq::new((8 * out.len() + nb) as nat, |k: int| stream_bit(out.push(cur), k))
}

fn push_bit(out: &mut Vec<u8>, cur: u8, nb: u8, b: bool) -> (r: (u8, u8))
    requires
        nb < 8,
        cur < bits::pow2(nb as nat),
    ensures
        r.1 < 8,
        r.0 < bits::pow2(r.1 as nat),
        written(final(out)@, r.0, r.1) == written(old(out)@, cur, nb).push(b),
        8 * final(out)@.len() + r.1 == 8 * old(out)@.len() + nb + 1,
{
    let w: u8 = if nb == 0 {
        1
    } else if nb == 1 {
        2
    } else if nb == 2 {
        4
    } else if nb == 3 {
        8
    } else if nb == 4 {
        16
    } else if nb == 5 {
        32
    } else if nb == 6 {
        64
    } else {
        128
    };
    proof {
        reveal_with_fuel(bits::pow2, 9);
        assert(w == bits::pow2(nb as nat));
        assert(bits::pow2((nb + 1) as nat) == 2 * w);
    }
    let next: u8 = if b {
        cur + w
    } else {
        cur
    };
    let ghost before = out@;
    proof {
        assert forall|k: nat| k <= nb implies #[trigger] bits::bit(next as nat, k) == (if k == nb {
            b
        } else {
            bits::bit(cur as nat, k)
        }) by {
            if b {
                bits::lemma_bit_add_pow2(cur as nat, nb as nat, k);
            } else if k == nb {
                bits::lemma_bit_high(cur as nat, nb as nat, k);
            }
        }
    }
    if nb == 7 {
        out.push(next);
        proof {
            assert(written(out@, 0, 0) =~= written(before, cur, nb).push(b)) by {
                assert forall|k: int| 0 <= k < 8 * before.len() + 8 implies written(out@, 0, 0)[k]
                    == written(before, cur, nb).push(b)[k] by {
                    assert(out@.push(0)[k / 8] == out@[k / 8]);
                    if k < 8 * before.len() {
                        assert(out@[k / 8] == before[k / 8]);
                        assert(before.push(cur)[k / 8] == before[k / 8]);
                    } else {
                        assert(k / 8 == before.len());
                        assert(out@[k / 8] == next);
                    }
                }
            }
        }
        (0, 0)
    } else {
        proof {
            assert(written(out@, next, (nb + 1) as u8) =~= written(before, cur, nb).push(b)) by {
                assert forall|k: int| 0 <= k < 8 * before.len() + nb + 1 implies written(
                    out@,
                    next,
                    (nb + 1) as u8,
                )[k] == written(before, cur, nb).push(b)[k] by {
                    if k < 8 * before.len() {
                        assert(out@.push(next)[k / 8] == before[k / 8]);
                        assert(before.push(cur)[k / 8] == before[k / 8]);
                    } else {
                        assert(k / 8 == before.len());
                    }
                }
            }
        }
        (next, nb + 1)
    }
}

/// Bytes whose bits are a digit stream followed by zeros are the packed stream.
proof fn lemma_pack_unique(out: Seq<u8>, b: Seq<bool>)
    requires
        out.len() == (b.len() + 7) / 8,
        forall|k: int| 0 <= k < 8 * out.len() ==> #[trigger] stream_bit(out, k) == (k < b.len() && b[k]),
    ensures
        out == pack_digits(b),
{
    let p = pack_digits(b);
    bits::lemma_pow2_values();
    assert forall|j: int| 0 <= j < out.len() implies out[j] == p[j] by {
        let d = Seq::new(8, |k: int| 8 * j + k < b.len() && b[8 * j + k]);
        lemma_from_digits_bit(d, 0);
        assert forall|k: nat| k < 8 implies bits::bit(out[j] as nat, k) == bits::bit(from_digits(d), k) by {
            lemma_from_digits_bit(d, k);
            assert(stream_bit(out, 8 * j + k) == bits::bit(out[j] as nat, k));
        }
        bits::lemma_bits_determine(out[j] as nat, from_digits(d), 8);
    }
    assert(out =~= p);
}

/// The bits of a packed stream are the stream followed by zeros.
pub proof fn lemma_pack_bits(b: Seq<bool>, k: int)
    requires
        0 <= k,
    ensures
        stream_bit(pack_digits(b), k) == (k < b.len() && b[k]),
{
    let p = pack_digits(b);
    bits::lemma_pow2_values();
    if k / 8 < p.len() {
        let j = k / 8;
        let d = Seq::new(8, |i: int| 8 * j + i < b.len() && b[8 * j + i]);
        lemma_from_digits_bit(d, (k % 8) as nat);
        assert(p[j] == from_digits(d) as u8);
    }
}

fn finish_bits(out: &mut Vec<u8>, cur: u8, nb: u8)
    requires
        nb < 8,
        cur < bits::pow2(nb as nat),
    ensures
        final(out)@ == pack_digits(written(old(out)@, cur, nb)),
{
    let ghost b = written(out@, cur, nb);
    let ghost full = out@;
    if nb > 0 {
        out.push(cur);
    }
    proof {
        assert(b.len() == 8 * full.len() + nb);
        assert forall|k: int| 0 <= k < 8 * out@.len() implies #[trigger] stream_bit(out@, k) == (k < b.len() && b[k]) by {
            if k < b.len() {
                assert(b[k] == stream_bit(full.push(cur), k));
                if k < 8 * full.len() {
                    assert(full.push(cur)[k / 8] == full[k / 8]);
                    assert(out@[k / 8] == full[k / 8]);
                }
            } else {
                assert(k / 8 == full.len());
                bits::lemma_bit_high(cur as nat, nb as nat, (k % 8) as nat);
            }
        }
        lemma_pack_unique(out@, b);
    }
}

/// Pack values of `width` bits each into a byte vector, little-endian bit
/// order. The count and width are stored by the caller.
pub fn bitpack(values: &[u64], width: u32) -> (r: Vec<u8>)
    requires
        width <= 64,
    ensures
        r@ == pack_digits(digit_stream(values@, width as nat)),
{
    let mut out: Vec<u8> = Vec::new();
    let mut cur: u8 = 0;
    let mut nb: u8 = 0;
    let mut i: usize = 0;
    proof {
        assert(written(out@, cur, nb) =~= digit_stream(values@.subrange(0, 0), width as nat));
    }
    while i < values.len()
        invariant
            i <= values@.len(),
            width <= 64,
            nb < 8,
            cur < bits::pow2(nb as nat),
            written(out@, cur, nb) == digit_stream(values@.subrange(0, i as int), width as nat),
        decreases values.len() - i,
    {
        let v0: u64 = values[i];
        let mut v: u64 = v0;
        let mut b: u32 = 0;
        let ghost start = written(out@, cur, nb);
        assert(start + digits(v0 as nat, 0) =~= start);
        while b < width
            invariant
                b <= width <= 64,
                nb < 8,
                cur < bits::pow2(nb as nat),
                written(out@, cur, nb) == start + digits(v0 as nat, b as nat),
                forall|k: nat| #[trigger] bits::bit(v as nat, k) == bits::bit(v0 as nat, b as nat + k),
            decreases width - b,
        {
            assert(bits::bit(v as nat, 0) == bits::bit(v0 as nat, b as nat + 0));
            let (c, n) = push_bit(&mut out, cur, nb, v % 2 == 1);
            cur = c;
            nb = n;
            proof {
                assert(digits(v0 as nat, (b + 1) as nat) =~= digits(v0 as nat, b as nat).push(v % 2 == 1));
                assert((start + digits(v0 as nat, b as nat)).push(v % 2 == 1) =~= start + digits(
                    v0 as nat,
                    (b + 1) as nat,
                ));
                assert forall|k: nat| #[trigger] bits::bit((v / 2) as nat, k) == bits::bit(v0 as nat, (b + 1) as nat + k) by {
                    assert(bits::bit(v as nat, k + 1) == bits::bit(v0 as nat, b as nat + (k + 1)));
                }
            }
            v = v / 2;
            b += 1;
        }
        proof {
            let p = values@.subrange(0, i + 1);
            assert(p.drop_last() =~= values@.subrange(0, i as int));
            assert(p.last() == v0);
        }
        i += 1;
    }
    let ghost b = digit_stream(values@, width as nat);
    assert(values@.subrange(0, i as int) =~= values@);
    finish_bits(&mut out, cur, nb);
    out
}

/// The value in the `width` bits of `s` that start at bit `start`.
pub open spec fn unpack_at(s: Seq<u8>, start: int, width: nat) -> nat {
    from_digits(Seq::new(width, |k: int| stream_bit(s, start + k)))
}

/// `count` values of `width` bits each.
pub open spec fn unpacked(s: Seq<u8>, count: nat, width: nat) -> Seq<u64> {
    Seq::new(count, |i: int| unpack_at(s, i * width, width) as u64)
}

fn get_stream_bit(buf: &[u8], k: u128) -> (r: bool)
    ensures
        r == stream_bit(buf@, k as int),
{
    let byte: u128 = k / 8;
    if byte >= buf.len() as u128 {
        return false;
    }
    bits::test_bit(buf[byte as usize] as u64, (k % 8) as u64)
}

/// Every one of `count` values of `width` bits fits in a word.
pub open spec fn unpack_fits(s: Seq<u8>, count: nat, width: nat) -> bool {
    forall|i: int| 0 <= i < count ==> #[trigger] unpack_at(s, i * width, width) <= u64::MAX
}

proof fn lemma_from_digits_skip(d: Seq<bool>, b: int)
    requires
        0 <= b <= d.len(),
    ensures
        from_digits(d.skip(b)) <= from_digits(d),
    decreases b,
{
    if b == 0 {
        assert(d.skip(0) =~= d);
    } else {
        assert(d.skip(b) =~= d.drop_first().skip(b - 1));
        lemma_from_digits_skip(d.drop_first(), b - 1);
    }
}

/// The value at a place, where it fits in a word.
fn unpack_one(buf: &[u8], start: u128, width: u32) -> (r: Option<u64>)
    requires
        start + width <= u128::MAX,
    ensures
        match r {
            Some(v) => v == unpack_at(buf@, start as int, width as nat),
            None => unpack_at(buf@, start as int, width as nat) > u64::MAX,
        },
{
    let mut v: u64 = 0;
    let mut b: u32 = width;
    let ghost d = Seq::new(width as nat, |k: int| stream_bit(buf@, start + k));
    assert(d.skip(width as int) =~= Seq::<bool>::empty());
    while b > 0
        invariant
            b <= width,
            start + width <= u128::MAX,
            d == Seq::new(width as nat, |k: int| stream_bit(buf@, start + k)),
            v == from_digits(d.skip(b as int)),
        decreases b,
    {
        b -= 1;
        let x: bool = get_stream_bit(buf, start + b as u128);
        proof {
            assert(d.skip(b as int).drop_first() =~= d.skip(b + 1));
            lemma_from_digits_skip(d, b as int);
        }
        if v > 0x7FFF_FFFF_FFFF_FFFF {
            return None;
        }
        v = if x {
            2 * v + 1
        } else {
            2 * v
        };
    }
    assert(d.skip(0) =~= d);
    Some(v)
}

proof fn lemma_place(i: int, count: int, width: int)
    requires
        0 <= i < count,
        0 <= width,
    ensures
        0 <= i * width,
        i * width + width == (i + 1) * width,
        (i + 1) * width <= count * width,
{
    assert(0 <= i * width && i * width + width == (i + 1) * width && (i + 1) * width <= count * width)
        by (nonlinear_arith)
        requires
            0 <= i < count,
            0 <= width,
    ;
}

/// Unpack values, where each of them fits in a word.
fn try_unpack(buf: &[u8], count: usize, width: u32) -> (r: Option<Vec<u64>>)
    ensures
        match r {
            Some(v) => unpack_fits(buf@, count as nat, width as nat) && v@ == unpacked(buf@, count as nat, width as nat),
            None => !unpack_fits(buf@, count as nat, width as nat),
        },
{
    let mut out: Vec<u64> = Vec::new();
    let mut i: usize = 0;
    let mut bit_pos: u128 = 0;
    assert(count * width <= 0xFFFF_FFFF_FFFF_FFFF * 0xFFFF_FFFF) by (nonlinear_arith)
        requires
            0 <= count <= 0xFFFF_FFFF_FFFF_FFFF,
            0 <= width <= 0xFFFF_FFFF,
    ;
    while i < count
        invariant
            i <= count,
            count * width <= 0xFFFF_FFFF_FFFF_FFFF * 0xFFFF_FFFF,
            bit_pos == i * width,
            out@.len() == i,
            forall|j: int| 0 <= j < i ==> #[trigger] unpack_at(buf@, j * width, width as nat) <= u64::MAX,
            forall|j: int| 0 <= j < i ==> out@[j] == #[trigger] unpacked(buf@, count as nat, width as nat)[j],
        decreases count - i,
    {
        proof {
            lemma_place(i as int, count as int, width as int);
        }
        match unpack_one(buf, bit_pos, width) {
            None => {
                assert(unpack_at(buf@, i * width, width as nat) > u64::MAX);
                return None;
            },
            Some(v) => out.push(v),
        }
        bit_pos += width as u128;
        i += 1;
    }
    assert(out@ =~= unpacked(buf@, count as nat, width as nat));
    Some(out)
}

/// Unpack `count` values of `width` bits each from packed bytes; each of them must
/// fit in a word, as all of at most 64 bits do.
pub fn bitunpack(buf: &[u8], count: usize, width: u32) -> (r: Vec<u64>)
    requires
        width > 64 ==> unpack_fits(buf@, count as nat, width as nat),
    ensures
        r@ == unpacked(buf@, count as nat, width as nat),
{
    proof {
        if width <= 64 {
            lemma_unpack_fits(buf@, count as nat, width as nat);
        }
    }
    match try_unpack(buf, count, width) {
        Some(v) => v,
        None => Vec::new(),
    }
}

/// Values of at most 64 bits fit in a word.
pub proof fn lemma_unpack_fits(s: Seq<u8>, count: nat, width: nat)
    requires
        width <= 64,
    ensures
        unpack_fits(s, count, width),
{
    assert forall|i: int| 0 <= i < count implies #[trigger] unpack_at(s, i * width, width) <= u64::MAX by {
        let d = Seq::new(width, |k: int| stream_bit(s, i * width + k));
        lemma_from_digits_bit(d, 0);
        bits::lemma_pow2_mono(width, 64);
        bits::lemma_pow2_values();
    }
}

/// Unpacking gives back the values that were packed, where each of them fits in
/// `width` bits.
pub proof fn lemma_bitpack_round_trip(values: Seq<u64>, width: nat)
    requires
        forall|i: int| 0 <= i < values.len() ==> values[i] < bits::pow2(width),
    ensures
        unpacked(pack_digits(digit_stream(values, width)), values.len(), width) == values,
{
    let b = digit_stream(values, width);
    let p = pack_digits(b);
    let u = unpacked(p, values.len(), width);
    assert forall|i: int| 0 <= i < values.len() implies u[i] == values[i] by {
        let d = Seq::new(width, |k: int| stream_bit(p, i * width + k));
        assert forall|k: int| 0 <= k < width implies d[k] == digits(values[i] as nat, width)[k] by {
            lemma_digit_stream_at(values, width, i, k);
            lemma_pack_bits(b, i * width + k);
        }
        assert(d =~= digits(values[i] as nat, width));
        lemma_digits_round_trip(values[i] as nat, width);
    }
    assert(u =~= values);
}


// Bit-packed regions

/// Negative integers count as zero in a bit-packed region.
pub open spec fn clamped(values: Seq<i64>) -> Seq<u64> {
    Seq::new(values.len(), |i: int| if values[i] > 0 { values[i] as u64 } else { 0u64 })
}

/// A bit-packed region: sub-tag, width, count, packed values.
pub open spec fn bitpacked_region(values: Seq<i64>) -> Seq<u8> {
    let u = clamped(values);
    let w = bits::width_of(seq_max(u) as nat);
    seq![SubTag::BitPacked.code(), w as u8] + varint(values.len()) + pack_digits(digit_stream(u, w))
}

fn clamp_all(values: &[i64]) -> (u: Vec<u64>)
    ensures
        u@ == clamped(values@),
{
    let mut u: Vec<u64> = Vec::new();
    let mut i: usize = 0;
    while i < values.len()
        invariant
            i <= values@.len(),
            u@.len() == i,
            forall|j: int| 0 <= j < i ==> u@[j] == #[trigger] clamped(values@)[j],
        decreases values.len() - i,
    {
        let v: i64 = values[i];
        u.push(if v > 0 { v as u64 } else { 0 });
        i += 1;
    }
    assert(u@ =~= clamped(values@));
    u
}

/// Encode a slice of ints as a bit-packed region: sub-tag, width, count, then
/// the packed bytes.
pub fn encode_bitpacked(values: &[i64]) -> (r: Vec<u8>)
    ensures
        r@ == bitpacked_region(values@),
{
    let u: Vec<u64> = clamp_all(values);
    let width: u32 = width_for(u.as_slice());
    let mut out: Vec<u8> = Vec::new();
    out.push(SubTag::BitPacked.as_u8());
    out.push(width as u8);
    write_varint(&mut out, values.len() as u64);
    bytes::put_bytes(&mut out, bitpack(u.as_slice(), width).as_slice());
    assert(out@ =~= bitpacked_region(values@));
    out
}

/// The values of a packed run with its count at offset `at` and its width one
/// byte before: the common tail of the packed regions. There are none where the
/// machine cannot count them or one of them does not fit in a word.
pub open spec fn packed_tail(s: Seq<u8>, at: int) -> Option<Seq<u64>> {
    match varint_prefix(s.skip(at), 0) {
        None => None,
        Some((count, used)) => if count <= usize::MAX && unpack_fits(s.skip(at + used), count, s[at - 1] as nat) {
            Some(unpacked(s.skip(at + used), count, s[at - 1] as nat))
        } else {
            None
        },
    }
}

fn decode_packed_tail(buf: &[u8], at: usize) -> (r: Option<Vec<u64>>)
    requires
        1 <= at <= buf@.len(),
    ensures
        match packed_tail(buf@, at as int) {
            None => r is None,
            Some(u) => r is Some && r.unwrap()@ == u,
        },
{
    match read_varint_at(buf, at) {
        None => None,
        Some((count, used)) => {
            assert(at + used <= buf.len());
            let packed: &[u8] = slice_subrange(buf, at + used, buf.len());
            assert(packed@ =~= buf@.skip(at + used));
            if count > usize::MAX as u64 {
                return None;
            }
            try_unpack(packed, count as usize, buf[at - 1] as u32)
        },
    }
}

/// What a bit-packed region holds.
pub open spec fn bitpacked_model(s: Seq<u8>) -> std::result::Result<Seq<i64>, DecodeError> {
    if s.len() < 2 {
        Err(DecodeError::BadEncoding)
    } else {
        match packed_tail(s, 2) {
            None => Err(DecodeError::BadEncoding),
            Some(u) => Ok(Seq::new(u.len(), |i: int| bytes::untwos(u[i]))),
        }
    }
}

/// Decode a bit-packed region.
pub fn decode_bitpacked(buf: &[u8]) -> (r: Result<Vec<i64>>)
    ensures
        agrees(r, bitpacked_model(buf@)),
{
    if buf.len() < 2 {
        return Err(Error::Decode(DecodeError::BadEncoding));
    }
    match decode_packed_tail(buf, 2) {
        None => Err(Error::Decode(DecodeError::BadEncoding)),
        Some(u) => {
            let mut out: Vec<i64> = Vec::new();
            let mut i: usize = 0;
            while i < u.len()
                invariant
                    i <= u@.len(),
                    out@.len() == i,
                    forall|j: int| 0 <= j < i ==> out@[j] == bytes::untwos(u@[j]),
                decreases u.len() - i,
            {
                out.push(bytes::from_twos(u[i]));
                i += 1;
            }
            assert(out@ =~= Seq::new(u@.len(), |i: int| bytes::untwos(u@[i])));
            Ok(out)
        },
    }
}

/// A packed tail written after a two-part header is read back.
proof fn lemma_packed_tail(head: Seq<u8>, u: Seq<u64>, w: nat)
    requires
        head.len() >= 1,
        head.last() == w,
        w <= 64,
        forall|i: int| 0 <= i < u.len() ==> u[i] < bits::pow2(w),
        u.len() <= usize::MAX,
    ensures
        packed_tail(head + varint(u.len()) + pack_digits(digit_stream(u, w)), head.len() as int) == Some(u),
{
    let p = pack_digits(digit_stream(u, w));
    let s = head + varint(u.len()) + p;
    let at = head.len() as int;
    assert(s.skip(at) =~= varint(u.len()) + p);
    lemma_varint_word(u.len() as u64, p);
    assert(s.skip(at + varint(u.len()).len()) =~= p);
    assert(s[at - 1] == head.last());
    lemma_bitpack_round_trip(u, w);
    lemma_unpack_fits(p, u.len(), w);
}

proof fn lemma_max_width(u: Seq<u64>)
    ensures
        forall|i: int| 0 <= i < u.len() ==> u[i] < bits::pow2(bits::width_of(seq_max(u) as nat)),
        bits::width_of(seq_max(u) as nat) <= 64,
{
    lemma_seq_max(u);
    bits::lemma_width_of(seq_max(u) as nat);
    bits::lemma_pow2_values();
    bits::lemma_width_of_bound(seq_max(u) as nat, 64);
}

/// Decoding a bit-packed region gives back the values that were encoded, where
/// none of them is negative.
pub proof fn lemma_bitpacked_round_trip(values: Seq<i64>)
    requires
        values.len() <= usize::MAX,
        forall|i: int| 0 <= i < values.len() ==> values[i] >= 0,
    ensures
        bitpacked_model(bitpacked_region(values)) == Ok::<Seq<i64>, DecodeError>(values),
{
    let u = clamped(values);
    let w = bits::width_of(seq_max(u) as nat);
    let head = seq![SubTag::BitPacked.code(), w as u8];
    lemma_max_width(u);
    lemma_packed_tail(head, u, w);
    assert(Seq::new(u.len(), |i: int| bytes::untwos(u[i])) =~= values);
}

// Frame of reference

/// The least element of a sequence (0 when it is empty).
pub open spec fn seq_min_i64(s: Seq<i64>) -> i64
    decreases s.len(),
{
    if s.len() == 0 {
        0
    } else if s.len() == 1 {
        s[0]
    } else {
        let m = seq_min_i64(s.drop_last());
        if s.last() < m {
            s.last()
        } else {
            m
        }
    }
}

/// The greatest element of a sequence (0 when it is empty).
pub open spec fn seq_max_i64(s: Seq<i64>) -> i64
    decreases s.len(),
{
    if s.len() == 0 {
        0
    } else if s.len() == 1 {
        s[0]
    } else {
        let m = seq_max_i64(s.drop_last());
        if s.last() > m {
            s.last()
        } else {
            m
        }
    }
}

/// [`seq_min_i64`] and [`seq_max_i64`] bound every element, and are elements.
pub proof fn lemma_seq_min_max(s: Seq<i64>)
    ensures
        forall|i: int| 0 <= i < s.len() ==> seq_min_i64(s) <= #[trigger] s[i] <= seq_max_i64(s),
        s.len() > 0 ==> s.contains(seq_min_i64(s)) && s.contains(seq_max_i64(s)),
    decreases s.len(),
{
    if s.len() == 1 {
        assert(s[0] == seq_min_i64(s));
    } else if s.len() > 1 {
        let p = s.drop_last();
        lemma_seq_min_max(p);
        assert forall|i: int| 0 <= i < s.len() implies seq_min_i64(s) <= #[trigger] s[i] <= seq_max_i64(s) by {
            if i < p.len() {
                assert(p[i] == s[i]);
            }
        }
        let a = choose|j: int| 0 <= j < p.len() && p[j] == seq_min_i64(p);
        let b = choose|j: int| 0 <= j < p.len() && p[j] == seq_max_i64(p);
        assert(s[a] == p[a] && s[b] == p[b]);
        assert(s[s.len() - 1] == s.last());
    }
}

fn min_max_i64(values: &[i64]) -> (r: (i64, i64))
    ensures
        r.0 == seq_min_i64(values@),
        r.1 == seq_max_i64(values@),
{
    if values.len() == 0 {
        return (0, 0);
    }
    let mut lo: i64 = values[0];
    let mut hi: i64 = values[0];
    let mut i: usize = 1;
    while i < values.len()
        invariant
            1 <= i <= values@.len(),
            lo == seq_min_i64(values@.subrange(0, i as int)),
            hi == seq_max_i64(values@.subrange(0, i as int)),
        decreases values.len() - i,
    {
        proof {
            let p = values@.subrange(0, i + 1);
            assert(p.drop_last() =~= values@.subrange(0, i as int));
            assert(p.last() == values@[i as int]);
        }
        if values[i] < lo {
            lo = values[i];
        }
        if values[i] > hi {
            hi = values[i];
        }
        i += 1;
    }
    assert(values@.subrange(0, i as int) =~= values@);
    (lo, hi)
}

/// The distances of the values from their minimum.
pub open spec fn offsets(values: Seq<i64>) -> Seq<u64> {
    Seq::new(values.len(), |i: int| (values[i] - seq_min_i64(values)) as u64)
}

/// A frame-of-reference region: sub-tag, minimum, width, count, packed offsets.
pub open spec fn for_region(values: Seq<i64>) -> Seq<u8> {
    let u = offsets(values);
    let w = bits::width_of(seq_max(u) as nat);
    seq![SubTag::FrameOfRef.code()] + bytes::le_i64(seq_min_i64(values)) + seq![w as u8] + varint(values.len())
        + pack_digits(digit_stream(u, w))
}

/// Encode a slice of ints relative to their minimum (frame of reference), then
/// bit-pack the offsets.
pub fn encode_for(values: &[i64]) -> (r: Vec<u8>)
    requires
        seq_max_i64(values@) - seq_min_i64(values@) <= i64::MAX,
    ensures
        r@ == for_region(values@),
{
    let (min, _max) = min_max_i64(values);
    let mut u: Vec<u64> = Vec::new();
    let mut i: usize = 0;
    proof {
        lemma_seq_min_max(values@);
    }
    while i < values.len()
        invariant
            i <= values@.len(),
            min == seq_min_i64(values@),
            seq_max_i64(values@) - min <= i64::MAX,
            forall|j: int| 0 <= j < values@.len() ==> min <= #[trigger] values@[j] <= seq_max_i64(values@),
            u@.len() == i,
            forall|j: int| 0 <= j < i ==> u@[j] == #[trigger] offsets(values@)[j],
        decreases values.len() - i,
    {
        u.push((values[i] - min) as u64);
        i += 1;
    }
    assert(u@ =~= offsets(values@));
    let width: u32 = width_for(u.as_slice());
    let mut out: Vec<u8> = Vec::new();
    out.push(SubTag::FrameOfRef.as_u8());
    bytes::put_i64(&mut out, min);
    out.push(width as u8);
    write_varint(&mut out, values.len() as u64);
    bytes::put_bytes(&mut out, bitpack(u.as_slice(), width).as_slice());
    assert(out@ =~= for_region(values@));
    out
}

/// What a frame-of-reference region holds; a value out of the range of an `i64` is
/// refused.
pub open spec fn for_model(s: Seq<u8>) -> std::result::Result<Seq<i64>, DecodeError> {
    if s.len() < 10 {
        Err(DecodeError::BadEncoding)
    } else {
        match packed_tail(s, 10) {
            None => Err(DecodeError::BadEncoding),
            Some(u) => if for_fits(bytes::i64_at(s, 1), u) {
                Ok(Seq::new(u.len(), |i: int| (bytes::i64_at(s, 1) + bytes::untwos(u[i])) as i64))
            } else {
                Err(DecodeError::BadEncoding)
            },
        }
    }
}

/// No value leaves the range of an `i64`.
pub open spec fn for_fits(min: i64, u: Seq<u64>) -> bool {
    forall|i: int| 0 <= i < u.len() ==> i64::MIN <= min + #[trigger] bytes::untwos(u[i]) <= i64::MAX
}

/// Decode a frame-of-reference region.
pub fn decode_for(buf: &[u8]) -> (r: Result<Vec<i64>>)
    ensures
        agrees(r, for_model(buf@)),
{
    if buf.len() < 10 {
        return Err(Error::Decode(DecodeError::BadEncoding));
    }
    let min: i64 = bytes::get_i64(buf, 1);
    match decode_packed_tail(buf, 10) {
        None => Err(Error::Decode(DecodeError::BadEncoding)),
        Some(u) => {
            let mut out: Vec<i64> = Vec::new();
            let mut i: usize = 0;
            while i < u.len()
                invariant
                    i <= u@.len(),
                    buf@.len() >= 10,
                    packed_tail(buf@, 10) == Some(u@),
                    min == bytes::i64_at(buf@, 1),
                    out@.len() == i,
                    forall|j: int| 0 <= j < i ==> i64::MIN <= min + #[trigger] bytes::untwos(u@[j]) <= i64::MAX,
                    forall|j: int| 0 <= j < i ==> out@[j] == min + bytes::untwos(u@[j]),
                decreases u.len() - i,
            {
                match min.checked_add(bytes::from_twos(u[i])) {
                    Some(v) => out.push(v),
                    None => {
                        assert(!(i64::MIN <= min + bytes::untwos(u@[i as int]) <= i64::MAX));
                        return Err(Error::Decode(DecodeError::BadEncoding));
                    },
                }
                i += 1;
            }
            assert(out@ =~= Seq::new(u@.len(), |i: int| (bytes::i64_at(buf@, 1) + bytes::untwos(u@[i])) as i64));
            Ok(out)
        },
    }
}

/// Decoding a frame-of-reference region gives back the values that were
/// encoded.
pub proof fn lemma_for_round_trip(values: Seq<i64>)
    requires
        values.len() <= usize::MAX,
        seq_max_i64(values) - seq_min_i64(values) <= i64::MAX,
    ensures
        for_model(for_region(values)) == Ok::<Seq<i64>, DecodeError>(values),
{
    let u = offsets(values);
    let w = bits::width_of(seq_max(u) as nat);
    let min = seq_min_i64(values);
    let tag = seq![SubTag::FrameOfRef.code()];
    let head = tag + bytes::le_i64(min) + seq![w as u8];
    let tail = seq![w as u8] + varint(values.len()) + pack_digits(digit_stream(u, w));
    let s = for_region(values);
    assert(s =~= tag + bytes::le_i64(min) + tail);
    bytes::lemma_i64_between(tag, min, tail);
    lemma_max_width(u);
    lemma_packed_tail(head, u, w);
    assert(head + varint(u.len()) + pack_digits(digit_stream(u, w)) =~= s);
    lemma_seq_min_max(values);
    assert forall|i: int| 0 <= i < u.len() implies min + bytes::untwos(u[i]) == values[i] by {
        assert(u[i] == values[i] - min);
    }
    assert(Seq::new(u.len(), |i: int| (bytes::i64_at(s, 1) + bytes::untwos(u[i])) as i64) =~= values);
}


// Delta

/// The first differences of a sequence, with wrapping subtraction.
pub open spec fn diffs(s: Seq<i64>) -> Seq<i64> {
    Seq::new((s.len() - 1) as nat, |i: int| s[i + 1].wrapping_sub(s[i]))
}

/// The zig-zag images of a sequence.
pub open spec fn zigzags(s: Seq<i64>) -> Seq<u64> {
    Seq::new(s.len(), |i: int| zigzag(s[i]))
}

/// The running sums of `ds` from `first` on, with wrapping addition.
pub open spec fn undiff(first: i64, ds: Seq<i64>) -> Seq<i64>
    decreases ds.len(),
{
    if ds.len() == 0 {
        seq![first]
    } else {
        let p = undiff(first, ds.drop_last());
        p.push(p.last().wrapping_add(ds.last()))
    }
}

/// The first element (0 when there is none).
pub open spec fn first_or_zero(s: Seq<i64>) -> i64 {
    if s.len() == 0 {
        0
    } else {
        s[0]
    }
}

/// A delta region: sub-tag, first value, count, zig-zag varints of the
/// differences.
pub open spec fn delta_region(values: Seq<i64>) -> Seq<u8> {
    seq![SubTag::Delta.code()] + bytes::le_i64(first_or_zero(values)) + varint(values.len()) + (if values.len() == 0 {
        Seq::empty()
    } else {
        varint_seq(zigzags(diffs(values)))
    })
}

/// Encode a slice of ints as a sequence of deltas from the previous value.
pub fn encode_delta(values: &[i64]) -> (r: Vec<u8>)
    ensures
        r@ == delta_region(values@),
{
    let mut out: Vec<u8> = Vec::new();
    out.push(SubTag::Delta.as_u8());
    let first: i64 = if values.len() == 0 {
        0
    } else {
        values[0]
    };
    bytes::put_i64(&mut out, first);
    write_varint(&mut out, values.len() as u64);
    let ghost head = out@;
    assert(head =~= seq![SubTag::Delta.code()] + bytes::le_i64(first) + varint(values@.len()));
    if values.len() == 0 {
        assert(out@ =~= delta_region(values@));
        return out;
    }
    let mut prev: i64 = first;
    let mut i: usize = 1;
    let ghost z = zigzags(diffs(values@));
    assert(varint_seq(z.subrange(0, 0)) =~= Seq::<u8>::empty());
    while i < values.len()
        invariant
            1 <= i <= values@.len(),
            prev == values@[i - 1],
            z == zigzags(diffs(values@)),
            out@ == head + varint_seq(z.subrange(0, i - 1)),
        decreases values.len() - i,
    {
        let d: i64 = values[i].wrapping_sub(prev);
        write_varint(&mut out, zigzag_encode(d));
        proof {
            assert(z[i - 1] == zigzag(d));
            assert(z.subrange(0, i as int) =~= z.subrange(0, i - 1).push(zigzag(d)));
            lemma_varint_seq_push(z.subrange(0, i - 1), zigzag(d));
            assert(head + varint_seq(z.subrange(0, i as int)) =~= head + varint_seq(z.subrange(0, i - 1)) + varint(
                zigzag(d) as nat,
            ));
        }
        prev = values[i];
        i += 1;
    }
    assert(z.subrange(0, i - 1) =~= z);
    assert(out@ =~= delta_region(values@));
    out
}

/// The zig-zag preimages of a sequence.
pub open spec fn unzigzags(s: Seq<u64>) -> Seq<i64> {
    Seq::new(s.len(), |i: int| unzigzag(s[i]))
}

/// What a delta region holds.
pub open spec fn delta_model(s: Seq<u8>) -> std::result::Result<Seq<i64>, DecodeError> {
    if s.len() < 9 {
        Err(DecodeError::BadEncoding)
    } else {
        match varint_prefix(s.skip(9), 0) {
            None => Err(DecodeError::BadEncoding),
            Some((count, used)) => match varints(
                s.skip(9int + used),
                if count == 0 {
                    0
                } else {
                    (count - 1) as nat
                },
            ) {
                None => Err(DecodeError::BadEncoding),
                Some((zs, _m)) => if count == 0 {
                    Ok(Seq::empty())
                } else {
                    Ok(undiff(bytes::i64_at(s, 1), unzigzags(zs)))
                },
            },
        }
    }
}

/// Decode a delta region.
pub fn decode_delta(buf: &[u8]) -> (r: Result<Vec<i64>>)
    ensures
        agrees(r, delta_model(buf@)),
{
    if buf.len() < 9 {
        return Err(Error::Decode(DecodeError::BadEncoding));
    }
    let first: i64 = bytes::get_i64(buf, 1);
    match read_varint_at(buf, 9) {
        None => Err(Error::Decode(DecodeError::BadEncoding)),
        Some((count, used)) => {
            let n: u64 = if count == 0 {
                0
            } else {
                count - 1
            };
            assert(9 + used <= buf.len());
            match read_varints(buf, 9 + used, n) {
                None => Err(Error::Decode(DecodeError::BadEncoding)),
                Some((zs, _pos)) => {
                    let mut out: Vec<i64> = Vec::new();
                    if count == 0 {
                        return Ok(out);
                    }
                    out.push(first);
                    let mut prev: i64 = first;
                    let mut i: usize = 0;
                    let ghost ds = unzigzags(zs@);
                    assert(ds.subrange(0, 0) =~= Seq::<i64>::empty());
                    assert(out@ =~= undiff(first, ds.subrange(0, 0)));
                    while i < zs.len()
                        invariant
                            i <= zs@.len(),
                            ds == unzigzags(zs@),
                            out@ == undiff(first, ds.subrange(0, i as int)),
                            out@.len() > 0,
                            prev == out@.last(),
                        decreases zs.len() - i,
                    {
                        let v: i64 = prev.wrapping_add(zigzag_decode(zs[i]));
                        out.push(v);
                        prev = v;
                        i += 1;
                        assert(ds.subrange(0, i as int).drop_last() =~= ds.subrange(0, i - 1));
                    }
                    assert(ds.subrange(0, i as int) =~= ds);
                    Ok(out)
                },
            }
        },
    }
}

/// Running sums undo differences.
pub proof fn lemma_undiff_diffs(s: Seq<i64>)
    requires
        s.len() > 0,
    ensures
        undiff(s[0], diffs(s)) == s,
    decreases s.len(),
{
    if s.len() == 1 {
        assert(diffs(s) =~= Seq::<i64>::empty());
        assert(undiff(s[0], diffs(s)) =~= s);
    } else {
        let p = s.drop_last();
        lemma_undiff_diffs(p);
        assert(diffs(s).drop_last() =~= diffs(p));
        let d = s.last().wrapping_sub(p.last());
        assert(diffs(s).last() == d);
        assert(p.last().wrapping_add(d) == s.last());
        assert(undiff(s[0], diffs(s)) =~= s);
    }
}

proof fn lemma_unzigzags(s: Seq<i64>)
    ensures
        unzigzags(zigzags(s)) == s,
{
    assert(unzigzags(zigzags(s)) =~= s);
}

/// Decoding a delta region gives back the values that were encoded.
pub proof fn lemma_delta_round_trip(values: Seq<i64>)
    requires
        values.len() <= u64::MAX,
    ensures
        delta_model(delta_region(values)) == Ok::<Seq<i64>, DecodeError>(values),
{
    let s = delta_region(values);
    let tag = seq![SubTag::Delta.code()];
    let z = if values.len() == 0 {
        Seq::empty()
    } else {
        zigzags(diffs(values))
    };
    assert(varint_seq(Seq::<u64>::empty()) =~= Seq::<u8>::empty());
    let tail = varint(values.len()) + varint_seq(z);
    let first = first_or_zero(values);
    assert(s =~= tag + bytes::le_i64(first) + tail);
    bytes::lemma_i64_between(tag, first, tail);
    assert(s.skip(9) =~= tail);
    lemma_varint_word(values.len() as u64, varint_seq(z));
    assert(s.skip(9int + varint(values.len()).len()) =~= varint_seq(z));
    lemma_varints_round_trip(z, Seq::empty());
    assert(varint_seq(z) + Seq::<u8>::empty() =~= varint_seq(z));
    if values.len() > 0 {
        lemma_unzigzags(diffs(values));
        lemma_undiff_diffs(values);
    } else {
        assert(values =~= Seq::empty());
    }
}

// Delta-of-delta

/// The second element (the first when there is no second).
pub open spec fn second_or_first(s: Seq<i64>) -> i64 {
    if s.len() > 1 {
        s[1]
    } else {
        first_or_zero(s)
    }
}

/// A delta-of-delta region: sub-tag, first and second value, count, zig-zag
/// varints of the second differences.
pub open spec fn dod_region(values: Seq<i64>) -> Seq<u8> {
    seq![SubTag::DeltaOfDelta.code()] + bytes::le_i64(first_or_zero(values)) + bytes::le_i64(second_or_first(values)) + varint(
        values.len(),
    ) + (if values.len() < 2 {
        Seq::empty()
    } else {
        varint_seq(zigzags(diffs(diffs(values))))
    })
}

/// Encode a slice of ints as delta-of-deltas (effective for monotonic or
/// near-monotonic sequences like timestamps).
pub fn encode_dod(values: &[i64]) -> (r: Vec<u8>)
    ensures
        r@ == dod_region(values@),
{
    let mut out: Vec<u8> = Vec::new();
    out.push(SubTag::DeltaOfDelta.as_u8());
    let first: i64 = if values.len() == 0 {
        0
    } else {
        values[0]
    };
    let second: i64 = if values.len() > 1 {
        values[1]
    } else {
        first
    };
    bytes::put_i64(&mut out, first);
    bytes::put_i64(&mut out, second);
    write_varint(&mut out, values.len() as u64);
    let ghost head = out@;
    assert(head =~= seq![SubTag::DeltaOfDelta.code()] + bytes::le_i64(first) + bytes::le_i64(second) + varint(values@.len()));
    if values.len() < 2 {
        assert(out@ =~= dod_region(values@));
        return out;
    }
    let mut prev: i64 = second;
    let mut prev_delta: i64 = second.wrapping_sub(first);
    let mut i: usize = 2;
    let ghost z = zigzags(diffs(diffs(values@)));
    assert(varint_seq(z.subrange(0, 0)) =~= Seq::<u8>::empty());
    while i < values.len()
        invariant
            2 <= i <= values@.len(),
            prev == values@[i - 1],
            prev_delta == values@[i - 1].wrapping_sub(values@[i - 2]),
            z == zigzags(diffs(diffs(values@))),
            out@ == head + varint_seq(z.subrange(0, i - 2)),
        decreases values.len() - i,
    {
        let delta: i64 = values[i].wrapping_sub(prev);
        let dod: i64 = delta.wrapping_sub(prev_delta);
        write_varint(&mut out, zigzag_encode(dod));
        proof {
            assert(diffs(values@)[i - 1] == delta);
            assert(diffs(values@)[i - 2] == prev_delta);
            assert(diffs(diffs(values@))[i - 2] == dod);
            assert(z[i - 2] == zigzag(dod));
            assert(z.subrange(0, i - 1) =~= z.subrange(0, i - 2).push(zigzag(dod)));
            lemma_varint_seq_push(z.subrange(0, i - 2), zigzag(dod));
            assert(head + varint_seq(z.subrange(0, i - 1)) =~= head + varint_seq(z.subrange(0, i - 2)) + varint(
                zigzag(dod) as nat,
            ));
        }
        prev_delta = delta;
        prev = values[i];
        i += 1;
    }
    assert(z.subrange(0, i - 2) =~= z);
    assert(out@ =~= dod_region(values@));
    out
}

/// What a delta-of-delta region holds.
pub open spec fn dod_model(s: Seq<u8>) -> std::result::Result<Seq<i64>, DecodeError> {
    if s.len() < 17 {
        Err(DecodeError::BadEncoding)
    } else {
        match varint_prefix(s.skip(17), 0) {
            None => Err(DecodeError::BadEncoding),
            Some((count, used)) => match varints(
                s.skip(17int + used),
                if count < 2 {
                    0
                } else {
                    (count - 2) as nat
                },
            ) {
                None => Err(DecodeError::BadEncoding),
                Some((zs, _m)) => {
                    let first = bytes::i64_at(s, 1);
                    if count == 0 {
                        Ok(Seq::empty())
                    } else if count == 1 {
                        Ok(seq![first])
                    } else {
                        let d0 = bytes::i64_at(s, 9).wrapping_sub(first);
                        Ok(undiff(first, undiff(d0, unzigzags(zs))))
                    }
                },
            },
        }
    }
}

/// Decode a delta-of-delta region.
pub fn decode_dod(buf: &[u8]) -> (r: Result<Vec<i64>>)
    ensures
        agrees(r, dod_model(buf@)),
{
    if buf.len() < 17 {
        return Err(Error::Decode(DecodeError::BadEncoding));
    }
    let first: i64 = bytes::get_i64(buf, 1);
    let second: i64 = bytes::get_i64(buf, 9);
    match read_varint_at(buf, 17) {
        None => Err(Error::Decode(DecodeError::BadEncoding)),
        Some((count, used)) => {
            let n: u64 = if count < 2 {
                0
            } else {
                count - 2
            };
            assert(17 + used <= buf.len());
            match read_varints(buf, 17 + used, n) {
                None => Err(Error::Decode(DecodeError::BadEncoding)),
                Some((zs, _pos)) => {
                    let mut out: Vec<i64> = Vec::new();
                    if count == 0 {
                        return Ok(out);
                    }
                    out.push(first);
                    if count < 2 {
                        assert(out@ =~= seq![first]);
                        return Ok(out);
                    }
                    out.push(second);
                    let mut prev: i64 = second;
                    let mut prev_delta: i64 = second.wrapping_sub(first);
                    let mut i: usize = 0;
                    let ghost dd = unzigzags(zs@);
                    let ghost d0 = prev_delta;
                    let ghost mut ds = undiff(d0, dd.subrange(0, 0));
                    proof {
                        assert(dd.subrange(0, 0) =~= Seq::<i64>::empty());
                        assert(ds =~= seq![d0]);
                        assert(ds.drop_last() =~= Seq::<i64>::empty());
                        assert(undiff(first, Seq::<i64>::empty()) =~= seq![first]);
                        assert(first.wrapping_add(d0) == second);
                        assert(out@ =~= undiff(first, ds));
                    }
                    while i < zs.len()
                        invariant
                            i <= zs@.len(),
                            dd == unzigzags(zs@),
                            ds == undiff(d0, dd.subrange(0, i as int)),
                            ds.len() > 0,
                            prev_delta == ds.last(),
                            out@ == undiff(first, ds),
                            out@.len() > 0,
                            prev == out@.last(),
                        decreases zs.len() - i,
                    {
                        let dod: i64 = zigzag_decode(zs[i]);
                        let delta: i64 = prev_delta.wrapping_add(dod);
                        let v: i64 = prev.wrapping_add(delta);
                        out.push(v);
                        prev_delta = delta;
                        prev = v;
                        i += 1;
                        proof {
                            let ds0 = ds;
                            ds = undiff(d0, dd.subrange(0, i as int));
                            assert(dd.subrange(0, i as int).drop_last() =~= dd.subrange(0, i - 1));
                            assert(ds.drop_last() =~= ds0);
                        }
                    }
                    assert(dd.subrange(0, i as int) =~= dd);
                    Ok(out)
                },
            }
        },
    }
}

/// Decoding a delta-of-delta region gives back the values that were encoded.
pub proof fn lemma_dod_round_trip(values: Seq<i64>)
    requires
        values.len() <= u64::MAX,
    ensures
        dod_model(dod_region(values)) == Ok::<Seq<i64>, DecodeError>(values),
{
    let s = dod_region(values);
    let tag = seq![SubTag::DeltaOfDelta.code()];
    let first = first_or_zero(values);
    let second = second_or_first(values);
    let z = if values.len() < 2 {
        Seq::empty()
    } else {
        zigzags(diffs(diffs(values)))
    };
    assert(varint_seq(Seq::<u64>::empty()) =~= Seq::<u8>::empty());
    let rest = varint(values.len()) + varint_seq(z);
    let tail = bytes::le_i64(second) + rest;
    assert(s =~= tag + bytes::le_i64(first) + tail);
    bytes::lemma_i64_between(tag, first, tail);
    assert(s =~= (tag + bytes::le_i64(first)) + bytes::le_i64(second) + rest);
    bytes::lemma_i64_between(tag + bytes::le_i64(first), second, rest);
    assert(s.skip(17) =~= rest);
    lemma_varint_word(values.len() as u64, varint_seq(z));
    assert(s.skip(17int + varint(values.len()).len()) =~= varint_seq(z));
    lemma_varints_round_trip(z, Seq::empty());
    assert(varint_seq(z) + Seq::<u8>::empty() =~= varint_seq(z));
    if values.len() == 0 {
        assert(values =~= Seq::empty());
    } else if values.len() == 1 {
        assert(seq![first] =~= values);
    } else {
        lemma_unzigzags(diffs(diffs(values)));
        lemma_undiff_diffs(values);
        lemma_undiff_diffs(diffs(values));
        assert(diffs(values)[0] == second.wrapping_sub(first));
    }
}

// Constant run

/// A constant-run region: sub-tag, count, value.
pub open spec fn const_region(value: i64, count: nat) -> Seq<u8> {
    seq![SubTag::ConstantRun.code()] + varint(count) + bytes::le_i64(value)
}

/// Encode a slice that is entirely one repeated value.
pub fn encode_const(value: i64, count: usize) -> (r: Vec<u8>)
    ensures
        r@ == const_region(value, count as nat),
{
    let mut out: Vec<u8> = Vec::new();
    out.push(SubTag::ConstantRun.as_u8());
    write_varint(&mut out, count as u64);
    bytes::put_i64(&mut out, value);
    assert(out@ =~= const_region(value, count as nat));
    out
}

/// What a constant-run region holds.
pub open spec fn const_model(s: Seq<u8>) -> std::result::Result<Seq<i64>, DecodeError> {
    if s.len() < 1 {
        Err(DecodeError::BadEncoding)
    } else {
        match varint_prefix(s.skip(1), 0) {
            None => Err(DecodeError::BadEncoding),
            Some((count, used)) => if 1 + used + 8 > s.len() {
                Err(DecodeError::Truncated)
            } else {
                Ok(Seq::new(count, |i: int| bytes::i64_at(s, 1int + used)))
            },
        }
    }
}

/// Decode a constant-run region.
pub fn decode_const(buf: &[u8]) -> (r: Result<Vec<i64>>)
    ensures
        agrees(r, const_model(buf@)),
{
    if buf.len() < 1 {
        return Err(Error::Decode(DecodeError::BadEncoding));
    }
    match read_varint_at(buf, 1) {
        None => Err(Error::Decode(DecodeError::BadEncoding)),
        Some((count, used)) => {
            assert(1 + used <= buf.len());
            if buf.len() - (1 + used) < 8 {
                return Err(Error::Decode(DecodeError::Truncated));
            }
            let value: i64 = bytes::get_i64(buf, 1 + used);
            let mut out: Vec<i64> = Vec::new();
            let mut i: u64 = 0;
            while i < count
                invariant
                    i <= count,
                    out@.len() == i,
                    forall|j: int| 0 <= j < i ==> out@[j] == value,
                decreases count - i,
            {
                out.push(value);
                i += 1;
            }
            assert(out@ =~= Seq::new(count as nat, |i: int| bytes::i64_at(buf@, 1int + used)));
            Ok(out)
        },
    }
}

/// Decoding a constant-run region gives back the run.
pub proof fn lemma_const_round_trip(value: i64, count: u64)
    ensures
        const_model(const_region(value, count as nat)) == Ok::<Seq<i64>, DecodeError>(
            Seq::new(count as nat, |i: int| value),
        ),
{
    let s = const_region(value, count as nat);
    assert(s.skip(1) =~= varint(count as nat) + bytes::le_i64(value));
    lemma_varint_word(count, bytes::le_i64(value));
    let head = seq![SubTag::ConstantRun.code()] + varint(count as nat);
    assert(s =~= head + bytes::le_i64(value) + Seq::<u8>::empty());
    bytes::lemma_i64_between(head, value, Seq::empty());
    let used = varint(count as nat).len();
    assert(Seq::new(count as nat, |i: int| bytes::i64_at(s, 1int + used)) =~= Seq::new(count as nat, |i: int| value));
}

// Zig-zag varint

/// A zig-zag region: sub-tag, count, varints.
pub open spec fn zigzag_region(values: Seq<i64>) -> Seq<u8> {
    seq![SubTag::ZigZagVarint.code()] + varint(values.len()) + varint_seq(zigzags(values))
}

/// Encode a slice of ints as zig-zag varints.
pub fn encode_zigzag(values: &[i64]) -> (r: Vec<u8>)
    ensures
        r@ == zigzag_region(values@),
{
    let mut out: Vec<u8> = Vec::new();
    out.push(SubTag::ZigZagVarint.as_u8());
    write_varint(&mut out, values.len() as u64);
    let ghost head = out@;
    let ghost z = zigzags(values@);
    let mut i: usize = 0;
    assert(varint_seq(z.subrange(0, 0)) =~= Seq::<u8>::empty());
    while i < values.len()
        invariant
            i <= values@.len(),
            z == zigzags(values@),
            out@ == head + varint_seq(z.subrange(0, i as int)),
        decreases values.len() - i,
    {
        let u: u64 = zigzag_encode(values[i]);
        write_varint(&mut out, u);
        i += 1;
        proof {
            assert(z.subrange(0, i as int) =~= z.subrange(0, i - 1).push(u));
            lemma_varint_seq_push(z.subrange(0, i - 1), u);
            assert(head + varint_seq(z.subrange(0, i as int)) =~= head + varint_seq(z.subrange(0, i - 1)) + varint(
                u as nat,
            ));
        }
    }
    assert(z.subrange(0, i as int) =~= z);
    assert(out@ =~= zigzag_region(values@));
    out
}

/// What a zig-zag region holds.
pub open spec fn zigzag_model(s: Seq<u8>) -> std::result::Result<Seq<i64>, DecodeError> {
    if s.len() == 0 {
        Ok(Seq::empty())
    } else {
        match varint_prefix(s.skip(1), 0) {
            None => Err(DecodeError::BadEncoding),
            Some((count, used)) => match varints(s.skip(1int + used), count) {
                None => Err(DecodeError::BadEncoding),
                Some((zs, _m)) => Ok(unzigzags(zs)),
            },
        }
    }
}

/// Decode a zig-zag region.
pub fn decode_zigzag(buf: &[u8]) -> (r: Result<Vec<i64>>)
    ensures
        agrees(r, zigzag_model(buf@)),
{
    if buf.len() == 0 {
        return Ok(Vec::new());
    }
    match read_varint_at(buf, 1) {
        None => Err(Error::Decode(DecodeError::BadEncoding)),
        Some((count, used)) => {
            assert(1 + used <= buf.len());
            match read_varints(buf, 1 + used, count) {
                None => Err(Error::Decode(DecodeError::BadEncoding)),
                Some((zs, _pos)) => {
                    let mut out: Vec<i64> = Vec::new();
                    let mut i: usize = 0;
                    while i < zs.len()
                        invariant
                            i <= zs@.len(),
                            out@.len() == i,
                            forall|j: int| 0 <= j < i ==> out@[j] == unzigzag(zs@[j]),
                        decreases zs.len() - i,
                    {
                        out.push(zigzag_decode(zs[i]));
                        i += 1;
                    }
                    assert(out@ =~= unzigzags(zs@));
                    Ok(out)
                },
            }
        },
    }
}

/// Decoding a zig-zag region gives back the values that were encoded.
pub proof fn lemma_zigzag_region_round_trip(values: Seq<i64>)
    requires
        values.len() <= u64::MAX,
    ensures
        zigzag_model(zigzag_region(values)) == Ok::<Seq<i64>, DecodeError>(values),
{
    let s = zigzag_region(values);
    let z = zigzags(values);
    assert(s.skip(1) =~= varint(values.len()) + varint_seq(z));
    lemma_varint_word(values.len() as u64, varint_seq(z));
    assert(s.skip(1int + varint(values.len()).len()) =~= varint_seq(z));
    lemma_varints_round_trip(z, Seq::empty());
    assert(varint_seq(z) + Seq::<u8>::empty() =~= varint_seq(z));
    lemma_unzigzags(values);
}


// Null suppression

/// The present values, back to back.
pub open spec fn present_bytes(values: Seq<Option<i64>>) -> Seq<u8>
    decreases values.len(),
{
    if values.len() == 0 {
        Seq::empty()
    } else {
        (match values[0] {
            Some(x) => bytes::le_i64(x),
            None => Seq::empty(),
        }) + present_bytes(values.drop_first())
    }
}

/// Which values are present.
pub open spec fn presence(values: Seq<Option<i64>>) -> Seq<bool> {
    Seq::new(values.len(), |i: int| values[i] is Some)
}

/// A null-suppressed region: sub-tag, count, presence bitmap, present values.
pub open spec fn nullsupp_region(values: Seq<Option<i64>>) -> Seq<u8> {
    seq![SubTag::NullSuppressed.code()] + varint(values.len()) + pack_digits(presence(values)) + present_bytes(values)
}

proof fn lemma_present_bytes_push(vs: Seq<Option<i64>>, v: Option<i64>)
    ensures
        present_bytes(vs.push(v)) == present_bytes(vs) + (match v {
            Some(x) => bytes::le_i64(x),
            None => Seq::empty(),
        }),
    decreases vs.len(),
{
    let last = match v {
        Some(x) => bytes::le_i64(x),
        None => Seq::empty(),
    };
    if vs.len() == 0 {
        assert(vs.push(v).drop_first() =~= Seq::<Option<i64>>::empty());
        assert(present_bytes(Seq::<Option<i64>>::empty()) =~= Seq::<u8>::empty());
        assert(present_bytes(vs.push(v)) =~= present_bytes(vs) + last);
    } else {
        assert(vs.push(v).drop_first() =~= vs.drop_first().push(v));
        lemma_present_bytes_push(vs.drop_first(), v);
        assert(present_bytes(vs.push(v)) =~= present_bytes(vs) + last);
    }
}

fn pack_bools(b: &Vec<bool>) -> (r: Vec<u8>)
    ensures
        r@ == pack_digits(b@),
{
    let mut out: Vec<u8> = Vec::new();
    let mut cur: u8 = 0;
    let mut nb: u8 = 0;
    let mut i: usize = 0;
    assert(written(out@, cur, nb) =~= b@.subrange(0, 0));
    while i < b.len()
        invariant
            i <= b@.len(),
            nb < 8,
            cur < bits::pow2(nb as nat),
            written(out@, cur, nb) == b@.subrange(0, i as int),
        decreases b.len() - i,
    {
        let (c, n) = push_bit(&mut out, cur, nb, b[i]);
        cur = c;
        nb = n;
        i += 1;
        assert(b@.subrange(0, i as int) =~= b@.subrange(0, i - 1).push(b@[i - 1]));
    }
    assert(b@.subrange(0, i as int) =~= b@);
    finish_bits(&mut out, cur, nb);
    out
}

/// Encode ints with a null bitmap plus a packed list of the non-null values.
pub fn encode_nullsupp(values: &[Option<i64>]) -> (r: Vec<u8>)
    ensures
        r@ == nullsupp_region(values@),
{
    let mut out: Vec<u8> = Vec::new();
    out.push(SubTag::NullSuppressed.as_u8());
    write_varint(&mut out, values.len() as u64);
    let mut flags: Vec<bool> = Vec::new();
    let mut present: Vec<u8> = Vec::new();
    let mut i: usize = 0;
    assert(present_bytes(values@.subrange(0, 0)) =~= Seq::<u8>::empty());
    while i < values.len()
        invariant
            i <= values@.len(),
            flags@.len() == i,
            forall|j: int| 0 <= j < i ==> flags@[j] == (values@[j] is Some),
            present@ == present_bytes(values@.subrange(0, i as int)),
        decreases values.len() - i,
    {
        match values[i] {
            Some(x) => {
                flags.push(true);
                bytes::put_i64(&mut present, x);
            },
            None => {
                flags.push(false);
            },
        }
        proof {
            lemma_present_bytes_push(values@.subrange(0, i as int), values@[i as int]);
            assert(values@.subrange(0, i + 1) =~= values@.subrange(0, i as int).push(values@[i as int]));
            assert(present@ =~= present_bytes(values@.subrange(0, i + 1)));
        }
        i += 1;
    }
    assert(values@.subrange(0, i as int) =~= values@);
    assert(flags@ =~= presence(values@));
    bytes::put_bytes(&mut out, pack_bools(&flags).as_slice());
    bytes::put_bytes(&mut out, present.as_slice());
    assert(out@ =~= nullsupp_region(values@));
    out
}

/// The cells `i..count` of a null-suppressed region whose next present value
/// stands at `pos`.
pub open spec fn null_cells(s: Seq<u8>, bitmap: Seq<u8>, i: nat, count: nat, pos: int) -> std::result::Result<
    Seq<Option<i64>>,
    DecodeError,
>
    decreases count - i,
{
    if i >= count {
        Ok(Seq::empty())
    } else if stream_bit(bitmap, i as int) {
        if pos + 8 > s.len() {
            Err(DecodeError::Truncated)
        } else {
            match null_cells(s, bitmap, i + 1, count, pos + 8) {
                Ok(rest) => Ok(seq![Some(bytes::i64_at(s, pos))] + rest),
                Err(e) => Err(e),
            }
        }
    } else {
        match null_cells(s, bitmap, i + 1, count, pos) {
            Ok(rest) => Ok(seq![None::<i64>] + rest),
            Err(e) => Err(e),
        }
    }
}

/// What a null-suppressed region holds.
pub open spec fn nullsupp_model(s: Seq<u8>) -> std::result::Result<Seq<Option<i64>>, DecodeError> {
    if s.len() == 0 {
        Ok(Seq::empty())
    } else {
        match varint_prefix(s.skip(1), 0) {
            None => Err(DecodeError::BadEncoding),
            Some((count, used)) => {
                let at = 1int + used;
                let nbytes = (count + 7) / 8;
                if at + nbytes > s.len() {
                    Err(DecodeError::BadEncoding)
                } else {
                    null_cells(s, s.subrange(at, at + nbytes), 0, count, at + nbytes)
                }
            },
        }
    }
}

/// Decode a null-suppressed region.
pub fn decode_nullsupp(buf: &[u8]) -> (r: Result<Vec<Option<i64>>>)
    ensures
        agrees(r, nullsupp_model(buf@)),
{
    if buf.len() == 0 {
        return Ok(Vec::new());
    }
    match read_varint_at(buf, 1) {
        None => Err(Error::Decode(DecodeError::BadEncoding)),
        Some((count, used)) => {
            assert(1 + used <= buf.len());
            let at: usize = 1 + used;
            let need: u64 = count / 8 + if count % 8 == 0 {
                0u64
            } else {
                1u64
            };
            assert(need == (count + 7) / 8);
            if need > (buf.len() - at) as u64 {
                return Err(Error::Decode(DecodeError::BadEncoding));
            }
            let nbytes: usize = need as usize;
            let bitmap: &[u8] = slice_subrange(buf, at, at + nbytes);
            let mut pos: usize = at + nbytes;
            let mut out: Vec<Option<i64>> = Vec::new();
            let mut i: u64 = 0;
            let ghost model = null_cells(buf@, bitmap@, 0, count as nat, pos as int);
            proof {
                if model is Ok {
                    assert(Seq::<Option<i64>>::empty() + model->Ok_0 =~= model->Ok_0);
                }
            }
            while i < count
                invariant
                    i <= count,
                    count <= 8 * bitmap@.len(),
                    8 * bitmap@.len() <= count + 7,
                    bitmap@.len() <= buf@.len(),
                    pos <= buf@.len(),
                    nullsupp_model(buf@) == model,
                    model == null_cells(buf@, bitmap@, 0, count as nat, at + nbytes),
                    model == (match null_cells(buf@, bitmap@, i as nat, count as nat, pos as int) {
                        Ok(rest) => Ok(out@ + rest),
                        Err(e) => Err(e),
                    }),
                decreases count - i,
            {
                let ghost before = out@;
                let ghost here = null_cells(buf@, bitmap@, i as nat, count as nat, pos as int);
                assert(i / 8 < bitmap@.len());
                if get_stream_bit(bitmap, i as u128) {
                    if buf.len() - pos < 8 {
                        return Err(Error::Decode(DecodeError::Truncated));
                    }
                    let x: i64 = bytes::get_i64(buf, pos);
                    out.push(Some(x));
                    pos += 8;
                } else {
                    out.push(None);
                }
                proof {
                    let rest = null_cells(buf@, bitmap@, (i + 1) as nat, count as nat, pos as int);
                    if rest is Ok {
                        assert(before + (seq![out@.last()] + rest->Ok_0) =~= out@ + rest->Ok_0);
                    }
                }
                i += 1;
            }
            assert(out@ + Seq::<Option<i64>>::empty() =~= out@);
            Ok(out)
        },
    }
}

proof fn lemma_null_cells(s: Seq<u8>, bitmap: Seq<u8>, values: Seq<Option<i64>>, i: nat, pos: int)
    requires
        i <= values.len(),
        0 <= pos <= s.len(),
        s.skip(pos) == present_bytes(values.skip(i as int)),
        forall|j: int| 0 <= j < values.len() ==> #[trigger] stream_bit(bitmap, j) == (values[j] is Some),
    ensures
        null_cells(s, bitmap, i, values.len(), pos) == Ok::<Seq<Option<i64>>, DecodeError>(values.skip(i as int)),
    decreases values.len() - i,
{
    if i < values.len() {
        let vs = values.skip(i as int);
        assert(vs.drop_first() =~= values.skip(i as int + 1));
        assert(stream_bit(bitmap, i as int) == (values[i as int] is Some));
        match values[i as int] {
            Some(x) => {
                let b = bytes::le_i64(x);
                assert(s.skip(pos).len() == b.len() + present_bytes(vs.drop_first()).len());
                assert(s.subrange(pos, pos + 8) =~= s.skip(pos).subrange(0, 8));
                assert(s.subrange(pos, pos + 8) =~= b);
                bytes::lemma_i64_at(s, pos, x);
                assert(s.skip(pos + 8) =~= s.skip(pos).skip(8));
                assert(s.skip(pos + 8) =~= present_bytes(values.skip(i as int + 1)));
                lemma_null_cells(s, bitmap, values, i + 1, pos + 8);
            },
            None => {
                assert(s.skip(pos) =~= present_bytes(values.skip(i as int + 1)));
                lemma_null_cells(s, bitmap, values, i + 1, pos);
            },
        }
        assert(seq![values[i as int]] + values.skip(i as int + 1) =~= vs);
    } else {
        assert(values.skip(i as int) =~= Seq::<Option<i64>>::empty());
    }
}

/// Decoding a null-suppressed region gives back the cells that were encoded.
pub proof fn lemma_nullsupp_round_trip(values: Seq<Option<i64>>)
    requires
        values.len() <= u64::MAX,
    ensures
        nullsupp_model(nullsupp_region(values)) == Ok::<Seq<Option<i64>>, DecodeError>(values),
{
    let s = nullsupp_region(values);
    let bitmap = pack_digits(presence(values));
    let p = present_bytes(values);
    assert(s.skip(1) =~= varint(values.len()) + (bitmap + p));
    lemma_varint_word(values.len() as u64, bitmap + p);
    let at = 1int + varint(values.len()).len();
    assert(s.subrange(at, at + bitmap.len()) =~= bitmap);
    assert(s.skip(at + bitmap.len()) =~= p);
    assert(values.skip(0) =~= values);
    assert forall|j: int| 0 <= j < values.len() implies #[trigger] stream_bit(bitmap, j) == (values[j] is Some) by {
        lemma_pack_bits(presence(values), j);
    }
    lemma_null_cells(s, bitmap, values, 0, at + bitmap.len());
}

// Byte-array dictionary inline

/// The contents of a sequence of byte vectors.
pub open spec fn views(v: Seq<Vec<u8>>) -> Seq<Seq<u8>> {
    Seq::new(v.len(), |i: int| v[i]@)
}

/// The distinct values in order of first occurrence.
pub open spec fn dict_of(values: Seq<Seq<u8>>) -> Seq<Seq<u8>>
    decreases values.len(),
{
    if values.len() == 0 {
        Seq::empty()
    } else {
        let d = dict_of(values.drop_last());
        if d.contains(values.last()) {
            d
        } else {
            d.push(values.last())
        }
    }
}

/// The dictionary id of each value.
pub open spec fn ids_of(values: Seq<Seq<u8>>) -> Seq<u64>
    decreases values.len(),
{
    if values.len() == 0 {
        Seq::empty()
    } else {
        let p = values.drop_last();
        let d = dict_of(p);
        ids_of(p).push(
            if d.contains(values.last()) {
                d.index_of(values.last()) as u64
            } else {
                d.len() as u64
            },
        )
    }
}

/// Dictionary entries: length and bytes of each.
pub open spec fn entry_bytes(entries: Seq<Seq<u8>>) -> Seq<u8>
    decreases entries.len(),
{
    if entries.len() == 0 {
        Seq::empty()
    } else {
        varint(entries[0].len()) + entries[0] + entry_bytes(entries.drop_first())
    }
}

/// An inline-dictionary region: sub-tag, count, dictionary size, entries, ids.
pub open spec fn badict_region(values: Seq<Seq<u8>>) -> Seq<u8> {
    seq![SubTag::ByteArrayDict.code()] + varint(values.len()) + varint(dict_of(values).len()) + entry_bytes(
        dict_of(values),
    ) + varint_seq(ids_of(values))
}

proof fn lemma_dict_of(values: Seq<Seq<u8>>)
    requires
        values.len() <= u64::MAX,
    ensures
        dict_of(values).len() <= values.len(),
        dict_of(values).no_duplicates(),
        ids_of(values).len() == values.len(),
        forall|i: int|
            0 <= i < values.len() ==> #[trigger] ids_of(values)[i] < dict_of(values).len() && dict_of(values)[ids_of(
                values,
            )[i] as int] == values[i],
    decreases values.len(),
{
    if values.len() > 0 {
        let p = values.drop_last();
        lemma_dict_of(p);
        let d = dict_of(p);
        let last = values.last();
        if d.contains(last) {
            let k = d.index_of(last);
            assert(0 <= k < d.len() && d[k] == last);
        }
        assert forall|i: int| 0 <= i < values.len() implies #[trigger] ids_of(values)[i] < dict_of(values).len()
            && dict_of(values)[ids_of(values)[i] as int] == values[i] by {
            if i < p.len() {
                assert(ids_of(values)[i] == ids_of(p)[i]);
                assert(p[i] == values[i]);
            }
        }
    }
}

fn find_entry(entries: &Vec<Vec<u8>>, v: &Vec<u8>) -> (r: Option<usize>)
    ensures
        match r {
            Some(k) => k < entries@.len() && entries@[k as int]@ == v@,
            None => !views(entries@).contains(v@),
        },
{
    let mut k: usize = 0;
    while k < entries.len()
        invariant
            k <= entries@.len(),
            forall|j: int| 0 <= j < k ==> entries@[j]@ != v@,
        decreases entries.len() - k,
    {
        if bytes::bytes_eq(entries[k].as_slice(), v.as_slice()) {
            return Some(k);
        }
        k += 1;
    }
    None
}


proof fn lemma_entry_bytes_push(es: Seq<Seq<u8>>, e: Seq<u8>)
    ensures
        entry_bytes(es.push(e)) == entry_bytes(es) + varint(e.len()) + e,
    decreases es.len(),
{
    if es.len() == 0 {
        assert(es.push(e).drop_first() =~= Seq::<Seq<u8>>::empty());
        assert(entry_bytes(Seq::<Seq<u8>>::empty()) =~= Seq::<u8>::empty());
        assert(entry_bytes(es.push(e)) =~= entry_bytes(es) + varint(e.len()) + e);
    } else {
        assert(es.push(e).drop_first() =~= es.drop_first().push(e));
        lemma_entry_bytes_push(es.drop_first(), e);
        assert(entry_bytes(es.push(e)) =~= entry_bytes(es) + varint(e.len()) + e);
    }
}

/// Encode a slice of byte-arrays with an inline dictionary: each distinct byte
/// array is interned to an id, and the ids are stored as varints.
pub fn encode_badict(values: &[Vec<u8>]) -> (r: Vec<u8>)
    ensures
        r@ == badict_region(views(values@)),
{
    let mut entries: Vec<Vec<u8>> = Vec::new();
    let mut ids: Vec<u64> = Vec::new();
    let mut i: usize = 0;
    let ghost all = views(values@);
    assert(views(entries@) =~= dict_of(all.subrange(0, 0)));
    assert(ids@ =~= ids_of(all.subrange(0, 0)));
    while i < values.len()
        invariant
            i <= values@.len(),
            all == views(values@),
            entries@.len() <= i,
            views(entries@) == dict_of(all.subrange(0, i as int)),
            ids@ == ids_of(all.subrange(0, i as int)),
        decreases values.len() - i,
    {
        proof {
            let p = all.subrange(0, i + 1);
            assert(p.drop_last() =~= all.subrange(0, i as int));
            assert(p.last() == values@[i as int]@);
            lemma_dict_of(all.subrange(0, i as int));
        }
        let ghost d = views(entries@);
        match find_entry(&entries, &values[i]) {
            Some(k) => {
                ids.push(k as u64);
                proof {
                    assert(d[k as int] == values@[i as int]@);
                    assert(d.contains(values@[i as int]@));
                    assert(d.index_of(values@[i as int]@) == k);
                }
            },
            None => {
                ids.push(entries.len() as u64);
                let e: Vec<u8> = bytes::copy_range(values[i].as_slice(), 0, values[i].len());
                assert(e@ =~= values@[i as int]@);
                entries.push(e);
                assert(views(entries@) =~= d.push(values@[i as int]@));
            },
        }
        i += 1;
    }
    assert(all.subrange(0, i as int) =~= all);
    let mut out: Vec<u8> = Vec::new();
    out.push(SubTag::ByteArrayDict.as_u8());
    write_varint(&mut out, values.len() as u64);
    write_varint(&mut out, entries.len() as u64);
    let ghost head = out@;
    let ghost d = views(entries@);
    let mut k: usize = 0;
    assert(entry_bytes(d.subrange(0, 0)) =~= Seq::<u8>::empty());
    while k < entries.len()
        invariant
            k <= entries@.len(),
            d == views(entries@),
            out@ == head + entry_bytes(d.subrange(0, k as int)),
        decreases entries.len() - k,
    {
        write_varint(&mut out, entries[k].len() as u64);
        bytes::put_bytes(&mut out, entries[k].as_slice());
        proof {
            lemma_entry_bytes_push(d.subrange(0, k as int), d[k as int]);
            assert(d.subrange(0, k + 1) =~= d.subrange(0, k as int).push(d[k as int]));
            assert(out@ =~= head + entry_bytes(d.subrange(0, k + 1)));
        }
        k += 1;
    }
    assert(d.subrange(0, k as int) =~= d);
    let ghost head2 = out@;
    let mut j: usize = 0;
    assert(varint_seq(ids@.subrange(0, 0)) =~= Seq::<u8>::empty());
    while j < ids.len()
        invariant
            j <= ids@.len(),
            out@ == head2 + varint_seq(ids@.subrange(0, j as int)),
        decreases ids.len() - j,
    {
        write_varint(&mut out, ids[j]);
        proof {
            lemma_varint_seq_push(ids@.subrange(0, j as int), ids@[j as int]);
            assert(ids@.subrange(0, j + 1) =~= ids@.subrange(0, j as int).push(ids@[j as int]));
            assert(out@ =~= head2 + varint_seq(ids@.subrange(0, j + 1)));
        }
        j += 1;
    }
    assert(ids@.subrange(0, j as int) =~= ids@);
    assert(out@ =~= badict_region(all));
    out
}

/// The first `n` dictionary entries of `s` and the bytes they take.
pub open spec fn read_entries(s: Seq<u8>, n: nat) -> std::result::Result<(Seq<Seq<u8>>, nat), DecodeError>
    decreases n,
{
    if n == 0 {
        Ok((Seq::empty(), 0nat))
    } else {
        match varint_prefix(s, 0) {
            None => Err(DecodeError::BadEncoding),
            Some((len, used)) => if used + len > s.len() {
                Err(DecodeError::Truncated)
            } else {
                match read_entries(s.skip((used + len) as int), (n - 1) as nat) {
                    Err(e) => Err(e),
                    Ok((es, m)) => Ok((seq![s.subrange(used as int, (used + len) as int)] + es, used + len + m)),
                }
            },
        }
    }
}

/// The entries with the given ids, each of which must be there.
pub open spec fn pick_entries(es: Seq<Seq<u8>>, ids: Seq<u64>) -> std::result::Result<Seq<Seq<u8>>, DecodeError> {
    if forall|i: int| 0 <= i < ids.len() ==> ids[i] < es.len() {
        Ok(Seq::new(ids.len(), |i: int| es[ids[i] as int]))
    } else {
        Err(DecodeError::BadEncoding)
    }
}

/// What an inline-dictionary region holds.
pub open spec fn badict_model(s: Seq<u8>) -> std::result::Result<Seq<Seq<u8>>, DecodeError> {
    if s.len() == 0 {
        Ok(Seq::empty())
    } else {
        match varint_prefix(s.skip(1), 0) {
            None => Err(DecodeError::BadEncoding),
            Some((count, u1)) => match varint_prefix(s.skip(1int + u1), 0) {
                None => Err(DecodeError::BadEncoding),
                Some((size, u2)) => match read_entries(s.skip(1int + u1 + u2), size) {
                    Err(e) => Err(e),
                    Ok((es, m)) => match varints(s.skip(1int + u1 + u2 + m), count) {
                        None => Err(DecodeError::BadEncoding),
                        Some((ids, _k)) => pick_entries(es, ids),
                    },
                },
            },
        }
    }
}

fn decode_entries(buf: &[u8], start: usize, count: u64) -> (r: Result<(Vec<Vec<u8>>, usize)>)
    requires
        start <= buf@.len(),
    ensures
        match read_entries(buf@.skip(start as int), count as nat) {
            Err(e) => r is Err && r->Err_0 == Error::Decode(e),
            Ok((es, m)) => r is Ok && views(r->Ok_0.0@) == es && r->Ok_0.1 == start + m && start + m <= buf@.len(),
        },
{
    let mut out: Vec<Vec<u8>> = Vec::new();
    let mut pos: usize = start;
    let mut i: u64 = 0;
    let ghost s = buf@.skip(start as int);
    let ghost model = read_entries(s, count as nat);
    proof {
        if model is Ok {
            assert(views(out@) + (model->Ok_0).0 =~= (model->Ok_0).0);
        }
    }
    while i < count
        invariant
            start <= pos <= buf@.len(),
            i <= count,
            s == buf@.skip(start as int),
            model == read_entries(s, count as nat),
            model == (match read_entries(buf@.skip(pos as int), (count - i) as nat) {
                Err(e) => Err(e),
                Ok((es, m)) => Ok((views(out@) + es, (pos - start + m) as nat)),
            }),
        decreases count - i,
    {
        let ghost here = buf@.skip(pos as int);
        match read_varint_at(buf, pos) {
            None => {
                return Err(Error::Decode(DecodeError::BadEncoding));
            },
            Some((len, used)) => {
                assert(pos + used <= buf.len());
                if len > (buf.len() - pos - used) as u64 {
                    return Err(Error::Decode(DecodeError::Truncated));
                }
                let n: usize = len as usize;
                let from: usize = pos + used;
                let e: Vec<u8> = bytes::copy_range(buf, from, from + n);
                let ghost before = views(out@);
                out.push(e);
                proof {
                    assert(e@ =~= here.subrange(used as int, used + n));
                    assert(here.skip(used + n) =~= buf@.skip(from + n));
                    assert(views(out@) =~= before.push(e@));
                    let rest = read_entries(buf@.skip(from + n), (count - i - 1) as nat);
                    if rest is Ok {
                        assert(before + (seq![e@] + (rest->Ok_0).0) =~= views(out@) + (rest->Ok_0).0);
                    }
                }
                pos = from + n;
            },
        }
        i += 1;
    }
    assert(views(out@) + Seq::<Seq<u8>>::empty() =~= views(out@));
    Ok((out, pos))
}

/// Decode an inline-dictionary region.
pub fn decode_badict(buf: &[u8]) -> (r: Result<Vec<Vec<u8>>>)
    ensures
        match badict_model(buf@) {
            Ok(s) => r is Ok && views(r->Ok_0@) == s,
            Err(e) => r is Err && r->Err_0 == Error::Decode(e),
        },
{
    if buf.len() == 0 {
        let out: Vec<Vec<u8>> = Vec::new();
        assert(views(out@) =~= Seq::<Seq<u8>>::empty());
        return Ok(out);
    }
    let (count, u1) = match read_varint_at(buf, 1) {
        None => {
            return Err(Error::Decode(DecodeError::BadEncoding));
        },
        Some(p) => p,
    };
    assert(1 + u1 <= buf.len());
    let (size, u2) = match read_varint_at(buf, 1 + u1) {
        None => {
            return Err(Error::Decode(DecodeError::BadEncoding));
        },
        Some(p) => p,
    };
    assert(1 + u1 + u2 <= buf.len());
    let (entries, pos) = match decode_entries(buf, 1 + u1 + u2, size) {
        Err(e) => {
            return Err(e);
        },
        Ok(p) => p,
    };
    let ids: Vec<u64> = match read_varints(buf, pos, count) {
        None => {
            return Err(Error::Decode(DecodeError::BadEncoding));
        },
        Some((ids, _end)) => ids,
    };
    let mut out: Vec<Vec<u8>> = Vec::new();
    let mut i: usize = 0;
    while i < ids.len()
        invariant
            i <= ids@.len(),
            out@.len() == i,
            badict_model(buf@) == pick_entries(views(entries@), ids@),
            forall|j: int| 0 <= j < i ==> ids@[j] < entries@.len(),
            forall|j: int| 0 <= j < i ==> out@[j]@ == views(entries@)[#[trigger] ids@[j] as int],
        decreases ids.len() - i,
    {
        if ids[i] >= entries.len() as u64 {
            return Err(Error::Decode(DecodeError::BadEncoding));
        }
        let k: usize = ids[i] as usize;
        let e: Vec<u8> = bytes::copy_range(entries[k].as_slice(), 0, entries[k].len());
        assert(e@ =~= entries@[k as int]@);
        out.push(e);
        i += 1;
    }
    assert(views(out@) =~= Seq::new(ids@.len(), |i: int| views(entries@)[ids@[i] as int]));
    Ok(out)
}

proof fn lemma_read_entries(es: Seq<Seq<u8>>, rest: Seq<u8>)
    requires
        forall|i: int| 0 <= i < es.len() ==> (#[trigger] es[i]).len() <= u64::MAX,
    ensures
        read_entries(entry_bytes(es) + rest, es.len()) == Ok::<(Seq<Seq<u8>>, nat), DecodeError>(
            (es, entry_bytes(es).len()),
        ),
    decreases es.len(),
{
    let s = entry_bytes(es) + rest;
    if es.len() == 0 {
        assert(es =~= Seq::<Seq<u8>>::empty());
    } else {
        let e = es[0];
        let tail = entry_bytes(es.drop_first()) + rest;
        assert(s =~= varint(e.len()) + (e + tail));
        lemma_varint_word(e.len() as u64, e + tail);
        let u = varint(e.len()).len();
        assert(s.subrange(u as int, (u + e.len()) as int) =~= e);
        assert(s.skip((u + e.len()) as int) =~= tail);
        assert forall|i: int| 0 <= i < es.drop_first().len() implies (#[trigger] es.drop_first()[i]).len() <= u64::MAX by {
            assert(es.drop_first()[i] == es[i + 1]);
        }
        lemma_read_entries(es.drop_first(), rest);
        assert(seq![e] + es.drop_first() =~= es);
    }
}

/// Decoding an inline-dictionary region gives back the byte arrays that were
/// encoded.
pub proof fn lemma_badict_round_trip(values: Seq<Seq<u8>>)
    requires
        values.len() <= u64::MAX,
        forall|i: int| 0 <= i < values.len() ==> (#[trigger] values[i]).len() <= u64::MAX,
    ensures
        badict_model(badict_region(values)) == Ok::<Seq<Seq<u8>>, DecodeError>(values),
{
    let s = badict_region(values);
    let d = dict_of(values);
    let ids = ids_of(values);
    lemma_dict_of(values);
    lemma_dict_elements(values);
    let r3 = varint_seq(ids);
    let r2 = entry_bytes(d) + r3;
    let r1 = varint(d.len()) + r2;
    assert(s.skip(1) =~= varint(values.len()) + r1);
    lemma_varint_word(values.len() as u64, r1);
    let u1 = varint(values.len()).len();
    assert(s.skip(1int + u1) =~= varint(d.len()) + r2);
    lemma_varint_word(d.len() as u64, r2);
    let u2 = varint(d.len()).len();
    assert(s.skip(1int + u1 + u2) =~= r2);
    lemma_read_entries(d, r3);
    let m = entry_bytes(d).len();
    assert(s.skip(1int + u1 + u2 + m) =~= r3);
    lemma_varints_round_trip(ids, Seq::empty());
    assert(r3 + Seq::<u8>::empty() =~= r3);
    assert(Seq::new(ids.len(), |i: int| d[ids[i] as int]) =~= values);
}

proof fn lemma_dict_elements(values: Seq<Seq<u8>>)
    ensures
        forall|k: int| 0 <= k < dict_of(values).len() ==> values.contains(#[trigger] dict_of(values)[k]),
    decreases values.len(),
{
    if values.len() > 0 {
        let p = values.drop_last();
        lemma_dict_elements(p);
        assert forall|k: int| 0 <= k < dict_of(values).len() implies values.contains(#[trigger] dict_of(values)[k]) by {
            if k < dict_of(p).len() {
                let j = choose|j: int| 0 <= j < p.len() && p[j] == dict_of(p)[k];
                assert(p.contains(dict_of(p)[k]));
                assert(values[j] == dict_of(values)[k]);
            } else {
                assert(values[values.len() - 1] == dict_of(values)[k]);
            }
        }
    }
}

// Dispatch

/// All elements are equal.
pub open spec fn all_equal(s: Seq<i64>) -> bool {
    forall|i: int| 0 <= i < s.len() ==> #[trigger] s[i] == s[0]
}

/// The region that [`encode_ints_best`] picks: a constant run for a constant
/// slice, frame of reference for a range of at most 16 bits, delta-of-delta for
/// constant second differences (from four values on), delta for constant
/// differences (from three values on), bit-packing for small magnitudes, and
/// zig-zag varints for the rest.
pub open spec fn best_region(values: Seq<i64>) -> Seq<u8> {
    if values.len() == 0 {
        const_region(0, 0)
    } else if all_equal(values) {
        const_region(values[0], values.len())
    } else if seq_max_i64(values) - seq_min_i64(values) <= 0xFFFF {
        for_region(values)
    } else if values.len() > 3 && all_equal(diffs(diffs(values))) {
        dod_region(values)
    } else if values.len() > 2 && all_equal(diffs(values)) {
        delta_region(values)
    } else if bits::width_of(seq_max(zigzags(values)) as nat) <= 16 {
        bitpacked_region(values)
    } else {
        zigzag_region(values)
    }
}

fn is_constant(s: &Vec<i64>) -> (r: bool)
    ensures
        r == all_equal(s@),
{
    let mut i: usize = 0;
    while i < s.len()
        invariant
            i <= s@.len(),
            forall|j: int| 0 <= j < i ==> #[trigger] s@[j] == s@[0],
        decreases s.len() - i,
    {
        if s[i] != s[0] {
            return false;
        }
        i += 1;
    }
    true
}

fn differences(s: &[i64]) -> (r: Vec<i64>)
    requires
        s@.len() > 0,
    ensures
        r@ == diffs(s@),
{
    let mut out: Vec<i64> = Vec::new();
    let mut i: usize = 1;
    while i < s.len()
        invariant
            1 <= i <= s@.len(),
            out@.len() == i - 1,
            forall|j: int| 0 <= j < i - 1 ==> out@[j] == #[trigger] diffs(s@)[j],
        decreases s.len() - i,
    {
        out.push(s[i].wrapping_sub(s[i - 1]));
        assert(diffs(s@)[i - 1] == out@[i - 1]);
        i += 1;
    }
    assert(out@ =~= diffs(s@));
    out
}

/// Pick the best sub-encoding for a slice of non-null ints, returning the
/// encoded bytes. The heuristic prefers constant-run, then frame-of-reference,
/// then delta/delta-of-delta for monotonic data, then bit-packed, then plain
/// varint as a fallback.
pub fn encode_ints_best(values: &[i64]) -> (r: Vec<u8>)
    ensures
        r@ == best_region(values@),
{
    if values.len() == 0 {
        return encode_const(0, 0);
    }
    let mut own: Vec<i64> = Vec::new();
    let mut zs: Vec<u64> = Vec::new();
    let mut i: usize = 0;
    while i < values.len()
        invariant
            i <= values@.len(),
            own@ == values@.subrange(0, i as int),
            zs@.len() == i,
            forall|j: int| 0 <= j < i ==> zs@[j] == #[trigger] zigzags(values@)[j],
        decreases values.len() - i,
    {
        own.push(values[i]);
        zs.push(zigzag_encode(values[i]));
        assert(zigzags(values@)[i as int] == zs@[i as int]);
        i += 1;
        assert(values@.subrange(0, i as int) =~= values@.subrange(0, i - 1).push(values@[i - 1]));
    }
    assert(own@ =~= values@);
    assert(zs@ =~= zigzags(values@));
    if is_constant(&own) {
        return encode_const(values[0], values.len());
    }
    let (min, max) = min_max_i64(values);
    let range: i128 = max as i128 - min as i128;
    if range <= 0xFFFF {
        return encode_for(values);
    }
    let deltas: Vec<i64> = differences(values);
    if values.len() > 3 {
        let dod: Vec<i64> = differences(deltas.as_slice());
        if is_constant(&dod) {
            return encode_dod(values);
        }
    }
    if values.len() > 2 && is_constant(&deltas) {
        return encode_delta(values);
    }
    let width: u32 = width_for(zs.as_slice());
    if width <= 16 {
        return encode_bitpacked(values);
    }
    encode_zigzag(values)
}

/// What a sub-encoded integer buffer holds, by its sub-tag.
pub open spec fn ints_model(s: Seq<u8>) -> std::result::Result<Seq<i64>, DecodeError> {
    if s.len() == 0 || s[0] == SubTag::Plain.code() {
        Ok(Seq::empty())
    } else if s[0] == SubTag::BitPacked.code() {
        bitpacked_model(s)
    } else if s[0] == SubTag::FrameOfRef.code() {
        for_model(s)
    } else if s[0] == SubTag::Delta.code() {
        delta_model(s)
    } else if s[0] == SubTag::DeltaOfDelta.code() {
        dod_model(s)
    } else if s[0] == SubTag::NullSuppressed.code() {
        match nullsupp_model(s) {
            Ok(v) => Ok(Seq::new(v.len(), |i: int| match v[i] {
                Some(x) => x,
                None => 0i64,
            })),
            Err(e) => Err(e),
        }
    } else if s[0] == SubTag::ConstantRun.code() {
        const_model(s)
    } else if s[0] == SubTag::ZigZagVarint.code() {
        zigzag_model(s)
    } else {
        Err(DecodeError::BadEncoding)
    }
}

/// Decode ints from any sub-encoded buffer by dispatching on the sub-tag.
pub fn decode_ints(buf: &[u8]) -> (r: Result<Vec<i64>>)
    ensures
        agrees(r, ints_model(buf@)),
{
    if buf.len() == 0 {
        return Ok(Vec::new());
    }
    let tag: SubTag = match SubTag::from_u8(buf[0]) {
        Some(t) => t,
        None => {
            assert(SubTag::Plain.code() != buf@[0] && SubTag::BitPacked.code() != buf@[0]
                && SubTag::FrameOfRef.code() != buf@[0] && SubTag::Delta.code() != buf@[0]
                && SubTag::DeltaOfDelta.code() != buf@[0] && SubTag::NullSuppressed.code() != buf@[0]
                && SubTag::ConstantRun.code() != buf@[0] && SubTag::ZigZagVarint.code() != buf@[0]);
            return Err(Error::Decode(DecodeError::BadEncoding));
        },
    };
    match tag {
        SubTag::Plain => Ok(Vec::new()),
        SubTag::BitPacked => decode_bitpacked(buf),
        SubTag::FrameOfRef => decode_for(buf),
        SubTag::Delta => decode_delta(buf),
        SubTag::DeltaOfDelta => decode_dod(buf),
        SubTag::NullSuppressed => {
            match decode_nullsupp(buf) {
                Err(e) => Err(e),
                Ok(v) => {
                    let mut out: Vec<i64> = Vec::new();
                    let mut i: usize = 0;
                    while i < v.len()
                        invariant
                            i <= v@.len(),
                            out@.len() == i,
                            forall|j: int| 0 <= j < i ==> out@[j] == (match #[trigger] v@[j] {
                                Some(x) => x,
                                None => 0i64,
                            }),
                        decreases v.len() - i,
                    {
                        match v[i] {
                            Some(x) => out.push(x),
                            None => out.push(0),
                        }
                        i += 1;
                    }
                    assert(out@ =~= Seq::new(v@.len(), |i: int| match v@[i] {
                        Some(x) => x,
                        None => 0i64,
                    }));
                    Ok(out)
                },
            }
        },
        SubTag::ConstantRun => decode_const(buf),
        SubTag::ZigZagVarint => decode_zigzag(buf),
        SubTag::ByteArrayDict => Err(Error::Decode(DecodeError::BadEncoding)),
    }
}

/// Decoding what [`encode_ints_best`] wrote gives back the values, whichever
/// encoding it picked.
pub proof fn lemma_best_round_trip(values: Seq<i64>)
    requires
        values.len() <= usize::MAX,
    ensures
        ints_model(best_region(values)) == Ok::<Seq<i64>, DecodeError>(values),
{
    let s = best_region(values);
    if values.len() == 0 {
        lemma_const_round_trip(0, 0);
        assert(Seq::new(0, |i: int| 0i64) =~= values);
    } else if all_equal(values) {
        lemma_const_round_trip(values[0], values.len() as u64);
        let v0 = values[0];
        assert(Seq::new(values.len(), |i: int| v0) =~= values);
    } else if seq_max_i64(values) - seq_min_i64(values) <= 0xFFFF {
        lemma_for_round_trip(values);
        assert(s[0] == SubTag::FrameOfRef.code());
    } else if values.len() > 3 && all_equal(diffs(diffs(values))) {
        lemma_dod_round_trip(values);
        assert(s[0] == SubTag::DeltaOfDelta.code());
    } else if values.len() > 2 && all_equal(diffs(values)) {
        lemma_delta_round_trip(values);
        assert(s[0] == SubTag::Delta.code());
    } else {
        if bits::width_of(seq_max(zigzags(values)) as nat) <= 16 {
            let m = seq_max(zigzags(values));
            bits::lemma_width_of(m as nat);
            bits::lemma_pow2_mono(bits::width_of(m as nat), 16);
            bits::lemma_pow2_values();
            lemma_seq_max(zigzags(values));
            lemma_seq_min_max(values);
            let a = choose|j: int| 0 <= j < values.len() && values[j] == seq_min_i64(values);
            let b = choose|j: int| 0 <= j < values.len() && values[j] == seq_max_i64(values);
            assert(zigzags(values)[a] <= m);
            assert(zigzags(values)[b] <= m);
            assert(false);
        }
        lemma_zigzag_region_round_trip(values);
        assert(s[0] == SubTag::ZigZagVarint.code());
    }
}

/// The integer projections of a row of values (0 where there is none).
pub open spec fn int_projections(values: Seq<Value>) -> Seq<i64> {
    Seq::new(values.len(), |i: int| match values[i].spec_as_int() {
        Some(x) => x,
        None => 0i64,
    })
}

/// Encode a slice of `Value`s (ints only) with the best sub-encoding.
pub fn encode_values_best(values: &[Value]) -> (r: Vec<u8>)
    ensures
        r@ == best_region(int_projections(values@)),
{
    let mut ints: Vec<i64> = Vec::new();
    let mut i: usize = 0;
    while i < values.len()
        invariant
            i <= values@.len(),
            ints@.len() == i,
            forall|j: int| 0 <= j < i ==> ints@[j] == #[trigger] int_projections(values@)[j],
        decreases values.len() - i,
    {
        match values[i].as_int() {
            Some(x) => ints.push(x),
            None => ints.push(0),
        }
        assert(int_projections(values@)[i as int] == ints@[i as int]);
        i += 1;
    }
    assert(ints@ =~= int_projections(values@));
    encode_ints_best(ints.as_slice())
}

} // verus!
