//! Little-endian integers in byte sequences.
//!
//! Every on-disk structure of the engine is laid out with fixed-width
//! little-endian integers. This module says what those bytes are, reads and
//! writes them, and proves that a read gives back what was written.

use vstd::prelude::*;

verus! {

/// The `n` little-endian bytes of `v` (higher bytes are dropped).
pub open spec fn le_bytes(v: nat, n: nat) -> Seq<u8>
    decreases n,
{
    if n == 0 {
        Seq::empty()
    } else {
        seq![(v % 256) as u8] + le_bytes(v / 256, (n - 1) as nat)
    }
}

/// The number that a little-endian byte sequence stands for.
pub open spec fn le_value(s: Seq<u8>) -> nat
    decreases s.len(),
{
    if s.len() == 0 {
        0
    } else {
        s[0] as nat + 256 * le_value(s.drop_first())
    }
}

/// `256` to the power `n`.
pub open spec fn pow256(n: nat) -> nat
    decreases n,
{
    if n == 0 {
        1
    } else {
        256 * pow256((n - 1) as nat)
    }
}

/// The four little-endian bytes of `v`.
pub open spec fn le32(v: u32) -> Seq<u8> {
    le_bytes(v as nat, 4)
}

/// The eight little-endian bytes of `v`.
pub open spec fn le64(v: u64) -> Seq<u8> {
    le_bytes(v as nat, 8)
}

/// The two's complement bit pattern of `v`.
pub open spec fn twos(v: i64) -> u64 {
    if v >= 0 {
        v as u64
    } else {
        (v + 0x1_0000_0000_0000_0000) as u64
    }
}

/// The signed integer with the two's complement bit pattern `u`.
pub open spec fn untwos(u: u64) -> i64 {
    if u <= 0x7fff_ffff_ffff_ffff {
        u as i64
    } else {
        (u - 0x1_0000_0000_0000_0000) as i64
    }
}

/// The eight little-endian bytes of the signed integer `v`.
pub open spec fn le_i64(v: i64) -> Seq<u8> {
    le64(twos(v))
}

/// The `u32` stored at offset `pos` of `s`.
pub open spec fn u32_at(s: Seq<u8>, pos: int) -> u32 {
    le_value(s.subrange(pos, pos + 4)) as u32
}

/// The `u64` stored at offset `pos` of `s`.
pub open spec fn u64_at(s: Seq<u8>, pos: int) -> u64 {
    le_value(s.subrange(pos, pos + 8)) as u64
}

/// The `i64` stored at offset `pos` of `s`.
pub open spec fn i64_at(s: Seq<u8>, pos: int) -> i64 {
    untwos(u64_at(s, pos))
}

pub proof fn lemma_le_bytes_len(v: nat, n: nat)
    ensures
        le_bytes(v, n).len() == n,
    decreases n,
{
    if n > 0 {
        lemma_le_bytes_len(v / 256, (n - 1) as nat);
    }
}

/// A little-endian read gives back what a little-endian write wrote.
pub proof fn lemma_le_round_trip(v: nat, n: nat)
    requires
        v < pow256(n),
    ensures
        le_value(le_bytes(v, n)) == v,
    decreases n,
{
    if n > 0 {
        lemma_le_bytes_len(v / 256, (n - 1) as nat);
        lemma_le_round_trip(v / 256, (n - 1) as nat);
        assert(le_bytes(v, n).drop_first() =~= le_bytes(v / 256, (n - 1) as nat));
    }
}

pub proof fn lemma_le_value_bound(s: Seq<u8>)
    ensures
        le_value(s) < pow256(s.len()),
    decreases s.len(),
{
    if s.len() > 0 {
        lemma_le_value_bound(s.drop_first());
    }
}

pub proof fn lemma_pow256_values()
    ensures
        pow256(4) == 0x1_0000_0000,
        pow256(8) == 0x1_0000_0000_0000_0000,
{
    reveal_with_fuel(pow256, 9);
}

/// Lengths of the fixed-width integer encodings.
pub broadcast proof fn lemma_le32_len(v: u32)
    ensures
        #[trigger] le32(v).len() == 4,
{
    lemma_le_bytes_len(v as nat, 4);
}

pub broadcast proof fn lemma_le64_len(v: u64)
    ensures
        #[trigger] le64(v).len() == 8,
{
    lemma_le_bytes_len(v as nat, 8);
}

pub broadcast proof fn lemma_le_i64_len(v: i64)
    ensures
        #[trigger] le_i64(v).len() == 8,
{
    lemma_le_bytes_len(twos(v) as nat, 8);
}

pub broadcast group group_le_len {
    lemma_le32_len,
    lemma_le64_len,
    lemma_le_i64_len,
}

/// The two's complement pattern determines the integer.
pub proof fn lemma_twos_round_trip(v: i64)
    ensures
        untwos(twos(v)) == v,
{
}

/// Reading a `u32` where `le32(v)` stands gives `v`.
pub proof fn lemma_u32_at(s: Seq<u8>, pos: int, v: u32)
    requires
        0 <= pos,
        pos + 4 <= s.len(),
        s.subrange(pos, pos + 4) == le32(v),
    ensures
        u32_at(s, pos) == v,
{
    lemma_pow256_values();
    lemma_le_round_trip(v as nat, 4);
}

/// Reading a `u64` where `le64(v)` stands gives `v`.
pub proof fn lemma_u64_at(s: Seq<u8>, pos: int, v: u64)
    requires
        0 <= pos,
        pos + 8 <= s.len(),
        s.subrange(pos, pos + 8) == le64(v),
    ensures
        u64_at(s, pos) == v,
{
    lemma_pow256_values();
    lemma_le_round_trip(v as nat, 8);
}

/// Reading an `i64` where `le_i64(v)` stands gives `v`.
pub proof fn lemma_i64_at(s: Seq<u8>, pos: int, v: i64)
    requires
        0 <= pos,
        pos + 8 <= s.len(),
        s.subrange(pos, pos + 8) == le_i64(v),
    ensures
        i64_at(s, pos) == v,
{
    lemma_u64_at(s, pos, twos(v));
}

/// A `u32` written after `a` is read back at offset `a.len()`.
pub proof fn lemma_u32_between(a: Seq<u8>, v: u32, b: Seq<u8>)
    ensures
        u32_at(a + le32(v) + b, a.len() as int) == v,
        le32(v).len() == 4,
{
    lemma_le32_len(v);
    let s = a + le32(v) + b;
    assert(s.subrange(a.len() as int, a.len() as int + 4) =~= le32(v));
    lemma_u32_at(s, a.len() as int, v);
}

/// A `u64` written after `a` is read back at offset `a.len()`.
pub proof fn lemma_u64_between(a: Seq<u8>, v: u64, b: Seq<u8>)
    ensures
        u64_at(a + le64(v) + b, a.len() as int) == v,
        le64(v).len() == 8,
{
    lemma_le64_len(v);
    let s = a + le64(v) + b;
    assert(s.subrange(a.len() as int, a.len() as int + 8) =~= le64(v));
    lemma_u64_at(s, a.len() as int, v);
}

/// An `i64` written after `a` is read back at offset `a.len()`.
pub proof fn lemma_i64_between(a: Seq<u8>, v: i64, b: Seq<u8>)
    ensures
        i64_at(a + le_i64(v) + b, a.len() as int) == v,
        le_i64(v).len() == 8,
{
    lemma_u64_between(a, twos(v), b);
}

/// The two's complement bit pattern of a signed integer.
pub fn to_twos(v: i64) -> (u: u64)
    ensures
        u == twos(v),
{
    if v >= 0 {
        v as u64
    } else {
        (v as i128 + 0x1_0000_0000_0000_0000i128) as u64
    }
}

/// The signed integer with a given two's complement bit pattern.
pub fn from_twos(u: u64) -> (v: i64)
    ensures
        v == untwos(u),
{
    if u <= 0x7fff_ffff_ffff_ffff {
        u as i64
    } else {
        (u as i128 - 0x1_0000_0000_0000_0000i128) as i64
    }
}

/// Append a slice to a byte vector.
pub fn put_bytes(out: &mut Vec<u8>, b: &[u8])
    ensures
        final(out)@ == old(out)@ + b@,
{
    let mut i: usize = 0;
    while i < b.len()
        invariant
            i <= b.len(),
            out@ == old(out)@ + b@.subrange(0, i as int),
        decreases b.len() - i,
    {
        out.push(b[i]);
        i += 1;
        assert(b@.subrange(0, i as int) =~= b@.subrange(0, i - 1).push(b@[i - 1]));
    }
    assert(b@.subrange(0, i as int) =~= b@);
}

/// Append the four little-endian bytes of `v`.
pub fn put_u32(out: &mut Vec<u8>, v: u32)
    ensures
        final(out)@ == old(out)@ + le32(v),
{
    out.push((v % 256) as u8);
    out.push((v / 256 % 256) as u8);
    out.push((v / 65536 % 256) as u8);
    out.push((v / 16777216 % 256) as u8);
    proof {
        reveal_with_fuel(le_bytes, 5);
        assert(out@ =~= old(out)@ + le32(v));
    }
}

/// Append the eight little-endian bytes of `v`.
pub fn put_u64(out: &mut Vec<u8>, v: u64)
    ensures
        final(out)@ == old(out)@ + le64(v),
{
    let mut w: u64 = v;
    let mut k: usize = 0;
    proof {
        lemma_le64_len(v);
        assert(out@ + le_bytes(w as nat, 8) =~= old(out)@ + le64(v));
    }
    while k < 8
        invariant
            k <= 8,
            out@ + le_bytes(w as nat, (8 - k) as nat) == old(out)@ + le64(v),
        decreases 8 - k,
    {
        let ghost before = out@;
        let ghost w0 = w as nat;
        out.push((w % 256) as u8);
        w = w / 256;
        k += 1;
        proof {
            assert(out@ + le_bytes(w as nat, (8 - k) as nat) =~= before + le_bytes(w0, (8 - k + 1) as nat));
        }
    }
    assert(out@ =~= old(out)@ + le64(v));
}

/// Append the eight little-endian bytes of `v`.
pub fn put_i64(out: &mut Vec<u8>, v: i64)
    ensures
        final(out)@ == old(out)@ + le_i64(v),
{
    put_u64(out, to_twos(v));
}

/// Read the `u32` at `pos`.
pub fn get_u32(buf: &[u8], pos: usize) -> (v: u32)
    requires
        pos + 4 <= buf@.len(),
    ensures
        v == u32_at(buf@, pos as int),
{
    proof {
        let s = buf@.subrange(pos as int, pos + 4);
        reveal_with_fuel(le_value, 5);
        lemma_le_value_bound(s);
        lemma_pow256_values();
        assert(s.drop_first().drop_first().drop_first().drop_first() =~= Seq::<u8>::empty());
    }
    buf[pos] as u32 + 256 * (buf[pos + 1] as u32) + 65536 * (buf[pos + 2] as u32) + 16777216 * (
    buf[pos + 3] as u32)
}

/// Read the `u64` at `pos`.
pub fn get_u64(buf: &[u8], pos: usize) -> (v: u64)
    requires
        pos + 8 <= buf@.len(),
    ensures
        v == u64_at(buf@, pos as int),
{
    assert(pos + 8 <= buf.len());
    let lo: u32 = get_u32(buf, pos);
    let hi: u32 = get_u32(buf, pos + 4);
    proof {
        let s = buf@.subrange(pos as int, pos + 8);
        let a = buf@.subrange(pos as int, pos + 4);
        let b = buf@.subrange(pos + 4, pos + 8);
        assert(s =~= a + b);
        reveal_with_fuel(le_value, 5);
        assert(s.drop_first().drop_first().drop_first().drop_first() =~= b);
        assert(a.drop_first().drop_first().drop_first().drop_first() =~= Seq::<u8>::empty());
        lemma_le_value_bound(s);
        lemma_le_value_bound(a);
        lemma_le_value_bound(b);
        lemma_pow256_values();
        assert(le_value(s) == le_value(a) + 0x1_0000_0000 * le_value(b));
    }
    lo as u64 + 0x1_0000_0000 * (hi as u64)
}

/// Read the `i64` at `pos`.
pub fn get_i64(buf: &[u8], pos: usize) -> (v: i64)
    requires
        pos + 8 <= buf@.len(),
    ensures
        v == i64_at(buf@, pos as int),
{
    from_twos(get_u64(buf, pos))
}

/// Copy a range of bytes.
pub fn copy_range(buf: &[u8], from: usize, to: usize) -> (v: Vec<u8>)
    requires
        from <= to <= buf@.len(),
    ensures
        v@ == buf@.subrange(from as int, to as int),
{
    let mut v: Vec<u8> = Vec::new();
    let mut i: usize = from;
    while i < to
        invariant
            from <= i <= to <= buf@.len(),
            v@ == buf@.subrange(from as int, i as int),
        decreases to - i,
    {
        v.push(buf[i]);
        i += 1;
        assert(v@ =~= buf@.subrange(from as int, i as int));
    }
    v
}

/// Byte-wise equality.
pub fn bytes_eq(a: &[u8], b: &[u8]) -> (r: bool)
    ensures
        r == (a@ == b@),
{
    if a.len() != b.len() {
        return false;
    }
    let mut i: usize = 0;
    while i < a.len()
        invariant
            i <= a@.len(),
            a@.len() == b@.len(),
            forall|j: int| 0 <= j < i ==> a@[j] == b@[j],
        decreases a.len() - i,
    {
        if a[i] != b[i] {
            return false;
        }
        i += 1;
    }
    assert(a@ =~= b@);
    true
}

// Lists of words

/// `u64` values in order.
pub open spec fn u64s(v: Seq<u64>) -> Seq<u8>
    decreases v.len(),
{
    if v.len() == 0 {
        Seq::empty()
    } else {
        le64(v[0]) + u64s(v.drop_first())
    }
}

/// Up to `n` values, as far as the bytes reach.
pub open spec fn u64s_up_to(s: Seq<u8>, n: nat) -> Seq<u64>
    decreases n,
{
    if n == 0 || s.len() < 8 {
        Seq::empty()
    } else {
        seq![u64_at(s, 0)] + u64s_up_to(s.skip(8), (n - 1) as nat)
    }
}

/// A list of words is read back as it was written.
pub proof fn lemma_u64s(v: Seq<u64>, rest: Seq<u8>)
    ensures
        u64s_up_to(u64s(v) + rest, v.len()) == v,
        u64s(v).len() == 8 * v.len(),
    decreases v.len(),
{
    broadcast use group_le_len;

    if v.len() > 0 {
        let t = v.drop_first();
        let s = u64s(v) + rest;
        lemma_u64s(t, rest);
        lemma_u64_between(Seq::empty(), v[0], u64s(t) + rest);
        assert(s =~= Seq::<u8>::empty() + le64(v[0]) + (u64s(t) + rest));
        assert(s.skip(8) =~= u64s(t) + rest);
        assert(seq![v[0]] + t =~= v);
    }
}

/// Reading at an offset is reading what is left after skipping it.
pub proof fn lemma_at_skip(s: Seq<u8>, pos: int, k: int)
    requires
        0 <= pos <= s.len(),
        0 <= k,
    ensures
        pos + k + 4 <= s.len() ==> u32_at(s.skip(pos), k) == u32_at(s, pos + k),
        pos + k + 8 <= s.len() ==> u64_at(s.skip(pos), k) == u64_at(s, pos + k) && i64_at(s.skip(pos), k) == i64_at(
            s,
            pos + k,
        ),
{
    if pos + k + 4 <= s.len() {
        assert(s.skip(pos).subrange(k, k + 4) =~= s.subrange(pos + k, pos + k + 4));
    }
    if pos + k + 8 <= s.len() {
        assert(s.skip(pos).subrange(k, k + 8) =~= s.subrange(pos + k, pos + k + 8));
    }
}

/// Append a list of words.
pub fn put_u64s(out: &mut Vec<u8>, v: &Vec<u64>)
    ensures
        final(out)@ == old(out)@ + u64s(v@),
{
    let mut i: usize = 0;
    assert(v@.skip(0) =~= v@);
    while i < v.len()
        invariant
            i <= v.len(),
            out@ + u64s(v@.skip(i as int)) == old(out)@ + u64s(v@),
        decreases v.len() - i,
    {
        let ghost o = out@;
        put_u64(out, v[i]);
        proof {
            let s = v@.skip(i as int);
            assert(s.drop_first() =~= v@.skip(i + 1));
            assert(out@ + u64s(s.drop_first()) =~= o + u64s(s));
        }
        i += 1;
    }
    assert(out@ + u64s(v@.skip(i as int)) =~= out@);
}

/// Read up to `n` words from an offset on.
pub fn get_u64s(buf: &[u8], from: usize, n: u32) -> (v: Vec<u64>)
    requires
        from <= buf@.len(),
    ensures
        v@ == u64s_up_to(buf@.skip(from as int), n as nat),
        from + 8 * v@.len() <= buf@.len(),
{
    let mut v: Vec<u64> = Vec::new();
    let mut pos: usize = from;
    let mut i: u32 = 0;
    let ghost all = u64s_up_to(buf@.skip(from as int), n as nat);
    assert(v@ + all =~= all);
    while i < n && buf.len() - pos >= 8
        invariant
            i <= n,
            from <= pos <= buf@.len(),
            pos == from + 8 * v@.len(),
            v@ + u64s_up_to(buf@.skip(pos as int), (n - i) as nat) == all,
        decreases n - i,
    {
        let ghost r0 = v@;
        let ghost s = buf@.skip(pos as int);
        let w: u64 = get_u64(buf, pos);
        v.push(w);
        proof {
            lemma_at_skip(buf@, pos as int, 0);
            assert(s.skip(8) =~= buf@.skip(pos + 8));
            assert(v@ + u64s_up_to(s.skip(8), (n - i - 1) as nat) =~= r0 + u64s_up_to(s, (n - i) as nat));
        }
        pos += 8;
        i += 1;
    }
    assert(v@ + u64s_up_to(buf@.skip(pos as int), (n - i) as nat) =~= v@);
    v
}

} // verus!
