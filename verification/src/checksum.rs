//! Checksums and hashes used across the storage layer.
//!
//! The container format checksums each directory body with a CRC-32 so that a
//! corrupt page is rejected at decode. This module gathers the integrity
//! primitives in one place: a table-driven CRC-32 (IEEE polynomial), the
//! Adler-32 rolling checksum, and a 64-bit FxHash-style mixer used by the
//! in-memory hash structures.

use vstd::prelude::*;
use crate::bytes;

verus! {

/// One step of the polynomial division: the register shifts right by one bit,
/// and a bit that falls out is fed back through the reflected IEEE polynomial.
pub open spec fn crc_bit(c: u32) -> u32 {
    if c & 1 == 1 {
        (c >> 1) ^ 0xEDB88320u32
    } else {
        c >> 1
    }
}

/// Eight steps.
pub open spec fn crc_bits(c: u32) -> u32 {
    crc_bit(crc_bit(crc_bit(crc_bit(crc_bit(crc_bit(crc_bit(crc_bit(c))))))))
}

/// The register after the bytes of `s`, each mixed in by exclusive or and then
/// divided out.
pub open spec fn crc_register(c: u32, s: Seq<u8>) -> u32
    decreases s.len(),
{
    if s.len() == 0 {
        c
    } else {
        crc_bits(crc_register(c, s.drop_last()) ^ (s.last() as u32))
    }
}

/// The CRC-32 that follows from the CRC-32 `c` of what came before.
pub open spec fn crc_update(c: u32, s: Seq<u8>) -> u32 {
    crc_register(c ^ 0xFFFFFFFFu32, s) ^ 0xFFFFFFFFu32
}

/// Division is linear: the low byte can be divided out on its own.
proof fn lemma_crc_table(x: u32)
    ensures
        crc_bits(x) == (x >> 8) ^ crc_bits(x & 0xff),
        x & 0xff < 256,
{
    assert(crc_bits(x) == (x >> 8) ^ crc_bits(x & 0xff)) by (bit_vector);
    assert(x & 0xff < 256) by (bit_vector);
}

proof fn lemma_register_concat(c: u32, a: Seq<u8>, b: Seq<u8>)
    ensures
        crc_register(crc_register(c, a), b) == crc_register(c, a + b),
    decreases b.len(),
{
    if b.len() == 0 {
        assert(a + b =~= a);
    } else {
        assert((a + b).drop_last() =~= a + b.drop_last());
        lemma_register_concat(c, a, b.drop_last());
    }
}

/// Checksumming in pieces gives the checksum of the whole.
pub proof fn lemma_crc_incremental(c: u32, a: Seq<u8>, b: Seq<u8>)
    ensures
        crc_update(crc_update(c, a), b) == crc_update(c, a + b),
{
    let r = crc_register(c ^ 0xFFFFFFFFu32, a);
    assert((r ^ 0xFFFFFFFFu32) ^ 0xFFFFFFFFu32 == r) by (bit_vector);
    lemma_register_concat(c ^ 0xFFFFFFFFu32, a, b);
}

/// CRC-32 (IEEE 802.3 polynomial, reflected), computed with a precomputed
/// table.
pub struct Crc32 {
    table: Vec<u32>,
}

impl Crc32 {
    /// The table holds the division of every byte.
    pub closed spec fn wf(&self) -> bool {
        &&& self.table@.len() == 256
        &&& forall|i: int| 0 <= i < 256 ==> #[trigger] self.table@[i] == crc_bits(i as u32)
    }

    /// Build the lookup table.
    pub fn new() -> (r: Crc32)
        ensures
            r.wf(),
    {
        let mut table: Vec<u32> = Vec::new();
        let mut i: u32 = 0;
        while i < 256
            invariant
                i <= 256,
                table@.len() == i,
                forall|j: int| 0 <= j < i ==> #[trigger] table@[j] == crc_bits(j as u32),
            decreases 256 - i,
        {
            let c = step(step(step(step(step(step(step(step(i))))))));
            table.push(c);
            i += 1;
        }
        Crc32 { table }
    }

    /// Checksum a byte slice.
    pub fn checksum(&self, data: &[u8]) -> (r: u32)
        requires
            self.wf(),
        ensures
            r == crc_update(0, data@),
    {
        assert(0u32 ^ 0xFFFFFFFFu32 == 0xFFFFFFFFu32) by (bit_vector);
        self.run(0xFFFFFFFF, data) ^ 0xFFFFFFFF
    }

    /// Incrementally update a running CRC with more data.
    pub fn update(&self, crc: u32, data: &[u8]) -> (r: u32)
        requires
            self.wf(),
        ensures
            r == crc_update(crc, data@),
    {
        self.run(crc ^ 0xFFFFFFFF, data) ^ 0xFFFFFFFF
    }

    fn run(&self, start: u32, data: &[u8]) -> (r: u32)
        requires
            self.wf(),
        ensures
            r == crc_register(start, data@),
    {
        let mut crc: u32 = start;
        let mut i: usize = 0;
        while i < data.len()
            invariant
                self.wf(),
                i <= data@.len(),
                crc == crc_register(start, data@.subrange(0, i as int)),
            decreases data.len() - i,
        {
            let b: u32 = data[i] as u32;
            let x: u32 = crc ^ b;
            proof {
                let s = data@.subrange(0, i + 1);
                assert(s.drop_last() =~= data@.subrange(0, i as int));
                lemma_crc_table(x);
                assert(x >> 8 == crc >> 8) by (bit_vector)
                    requires
                        x == crc ^ b,
                        b < 256,
                ;
            }
            let idx: usize = (x & 0xFF) as usize;
            crc = (crc >> 8) ^ self.table[idx];
            i += 1;
        }
        assert(data@.subrange(0, i as int) =~= data@);
        crc
    }
}

/// One step of the polynomial division.
fn step(c: u32) -> (r: u32)
    ensures
        r == crc_bit(c),
{
    if c & 1 == 1 {
        (c >> 1) ^ 0xEDB88320
    } else {
        c >> 1
    }
}

impl Default for Crc32 {
    fn default() -> (r: Self)
        ensures
            r.wf(),
    {
        Crc32::new()
    }
}

/// CRC-32 of a slice.
pub fn crc32(data: &[u8]) -> (r: u32)
    ensures
        r == crc_update(0, data@),
{
    Crc32::new().checksum(data)
}

/// The Adler modulus: the largest prime below 2^16.
pub const ADLER_MOD: u32 = 65521;

/// One plus the sum of the bytes, modulo the Adler modulus.
pub open spec fn adler_a(s: Seq<u8>) -> nat
    decreases s.len(),
{
    if s.len() == 0 {
        1
    } else {
        (adler_a(s.drop_last()) + s.last() as nat) % ADLER_MOD as nat
    }
}

/// The sum of the running values of [`adler_a`], modulo the Adler modulus.
pub open spec fn adler_b(s: Seq<u8>) -> nat
    decreases s.len(),
{
    if s.len() == 0 {
        0
    } else {
        (adler_b(s.drop_last()) + adler_a(s)) % ADLER_MOD as nat
    }
}

/// Adler-32 rolling checksum.
pub fn adler32(data: &[u8]) -> (r: u32)
    ensures
        r == adler_b(data@) * 65536 + adler_a(data@),
{
    let mut a: u32 = 1;
    let mut b: u32 = 0;
    let mut i: usize = 0;
    while i < data.len()
        invariant
            i <= data@.len(),
            a == adler_a(data@.subrange(0, i as int)),
            b == adler_b(data@.subrange(0, i as int)),
            a < ADLER_MOD,
            b < ADLER_MOD,
        decreases data.len() - i,
    {
        proof {
            let s = data@.subrange(0, i + 1);
            assert(s.drop_last() =~= data@.subrange(0, i as int));
        }
        a = (a + data[i] as u32) % ADLER_MOD;
        b = (b + a) % ADLER_MOD;
        i += 1;
    }
    assert(data@.subrange(0, i as int) =~= data@);
    b * 65536 + a
}

/// The multiplier of the mixer.
pub const FX_SEED: u64 = 0x51_7c_c1_b7_27_22_0a_95;

/// The state rotated left by five bits.
pub open spec fn rotated(h: u64) -> u64 {
    (h << 5) | (h >> 59)
}

/// The state after one word.
pub open spec fn fx_word(h: u64, i: u64) -> u64 {
    (rotated(h) ^ i).wrapping_mul(FX_SEED)
}

/// The state after a byte string: eight bytes at a time, the rest padded with
/// zeros.
pub open spec fn fx_bytes(h: u64, s: Seq<u8>) -> u64
    decreases s.len(),
{
    if s.len() >= 8 {
        fx_bytes(fx_word(h, bytes::u64_at(s, 0)), s.skip(8))
    } else if s.len() == 0 {
        h
    } else {
        fx_word(h, bytes::le_value(s) as u64)
    }
}

/// A 64-bit FxHash-style mixing hasher, useful for hashing integer keys into
/// buckets.
#[derive(Clone)]
pub struct FxHasher {
    hash: u64,
}

impl FxHasher {
    pub closed spec fn state(&self) -> u64 {
        self.hash
    }

    /// A fresh hasher.
    pub fn new() -> (r: FxHasher)
        ensures
            r.state() == 0,
    {
        FxHasher { hash: 0 }
    }

    /// Fold one 64-bit word into the state.
    pub fn write_u64(&mut self, i: u64)
        ensures
            final(self).state() == fx_word(old(self).state(), i),
    {
        let h: u64 = self.hash;
        self.hash = (((h << 5) | (h >> 59)) ^ i).wrapping_mul(FX_SEED);
    }

    /// Fold a byte string into the state (8 bytes at a time).
    pub fn write(&mut self, bytes: &[u8])
        ensures
            final(self).state() == fx_bytes(old(self).state(), bytes@),
    {
        let mut pos: usize = 0;
        let ghost all = fx_bytes(self.hash, bytes@);
        assert(bytes@.skip(0) =~= bytes@);
        while bytes.len() - pos >= 8
            invariant
                pos <= bytes@.len(),
                fx_bytes(self.hash, bytes@.skip(pos as int)) == all,
            decreases bytes.len() - pos,
        {
            let word: u64 = bytes::get_u64(bytes, pos);
            self.write_u64(word);
            proof {
                let s = bytes@.skip(pos as int);
                bytes::lemma_at_skip(bytes@, pos as int, 0);
                assert(s.skip(8) =~= bytes@.skip(pos + 8));
            }
            pos += 8;
        }
        if pos < bytes.len() {
            let word = tail_word(bytes, pos);
            self.write_u64(word);
        }
    }

    /// The current hash value.
    pub fn finish(&self) -> (r: u64)
        ensures
            r == self.state(),
    {
        self.hash
    }
}

impl Default for FxHasher {
    fn default() -> (r: Self)
        ensures
            r.state() == 0,
    {
        FxHasher::new()
    }
}

/// The little-endian value of the bytes from `pos` on.
fn tail_word(bytes: &[u8], pos: usize) -> (r: u64)
    requires
        pos <= bytes@.len(),
        bytes@.len() - pos < 8,
    ensures
        r == bytes::le_value(bytes@.skip(pos as int)),
{
    let mut r: u64 = 0;
    let mut i: usize = bytes.len();
    proof {
        bytes::lemma_pow256_values();
        assert(bytes@.skip(i as int) =~= Seq::<u8>::empty());
    }
    while i > pos
        invariant
            pos <= i <= bytes@.len(),
            bytes@.len() - pos < 8,
            r == bytes::le_value(bytes@.skip(i as int)),
        decreases i,
    {
        proof {
            let s = bytes@.skip(i - 1);
            assert(s.drop_first() =~= bytes@.skip(i as int));
            bytes::lemma_le_value_bound(bytes@.skip(i as int));
            reveal_with_fuel(bytes::pow256, 8);
        }
        r = r * 256 + bytes[i - 1] as u64;
        i -= 1;
    }
    r
}

/// One-shot FxHash of a byte slice.
pub fn fxhash(bytes: &[u8]) -> (r: u64)
    ensures
        r == fx_bytes(0, bytes@),
{
    let mut h = FxHasher::new();
    h.write(bytes);
    h.finish()
}

/// One-shot FxHash of a 64-bit integer.
pub fn fxhash_u64(i: u64) -> (r: u64)
    ensures
        r == fx_word(0, i),
{
    let mut h = FxHasher::new();
    h.write_u64(i);
    h.finish()
}

// What checksums tell

/// Dividing out a byte: a low byte of zero shifts the register, one of 0x80 brings the
/// polynomial in, and the bytes of an exclusive or are divided out apart.
pub proof fn lemma_crc_byte(c: u32, d: u32, b: u8)
    ensures
        (c ^ (b as u32)) & 0xff == 0 ==> crc_register(c, seq![b]) == (c ^ (b as u32)) >> 8,
        (c ^ (b as u32)) & 0xff == 0x80 ==> crc_register(c, seq![b]) == ((c ^ (b as u32)) >> 8) ^ 0xEDB88320u32,
        crc_bits(c ^ d) == crc_bits(c) ^ crc_bits(d),
        crc_bits(c) == crc_bits(d) ==> c == d,
{
    assert(seq![b].drop_last() =~= Seq::<u8>::empty());
    assert(crc_register(c, seq![b].drop_last()) == c);
    let x = c ^ (b as u32);
    assert(x & 0xff == 0 ==> crc_bits(x) == x >> 8) by (bit_vector);
    assert(x & 0xff == 0x80 ==> crc_bits(x) == (x >> 8) ^ 0xEDB88320u32) by (bit_vector);
    lemma_crc_apart(c, d);
    assert(crc_bits(c) == crc_bits(d) ==> c == d) by (bit_vector);
}

proof fn lemma_crc_bit_apart(c: u32, d: u32)
    ensures
        crc_bit(c ^ d) == crc_bit(c) ^ crc_bit(d),
{
    assert(crc_bit(c ^ d) == crc_bit(c) ^ crc_bit(d)) by (bit_vector);
}

proof fn lemma_crc_apart(c: u32, d: u32)
    ensures
        crc_bits(c ^ d) == crc_bits(c) ^ crc_bits(d),
{
    let c1 = crc_bit(c);
    let d1 = crc_bit(d);
    let c2 = crc_bit(c1);
    let d2 = crc_bit(d1);
    let c3 = crc_bit(c2);
    let d3 = crc_bit(d2);
    let c4 = crc_bit(c3);
    let d4 = crc_bit(d3);
    let c5 = crc_bit(c4);
    let d5 = crc_bit(d4);
    let c6 = crc_bit(c5);
    let d6 = crc_bit(d5);
    let c7 = crc_bit(c6);
    let d7 = crc_bit(d6);
    lemma_crc_bit_apart(c, d);
    lemma_crc_bit_apart(c1, d1);
    lemma_crc_bit_apart(c2, d2);
    lemma_crc_bit_apart(c3, d3);
    lemma_crc_bit_apart(c4, d4);
    lemma_crc_bit_apart(c5, d5);
    lemma_crc_bit_apart(c6, d6);
    lemma_crc_bit_apart(c7, d7);
}

proof fn lemma_register_apart(c: u32, d: u32, s: Seq<u8>)
    requires
        c != d,
    ensures
        crc_register(c, s) != crc_register(d, s),
    decreases s.len(),
{
    if s.len() > 0 {
        lemma_register_apart(c, d, s.drop_last());
        let x = crc_register(c, s.drop_last());
        let y = crc_register(d, s.drop_last());
        let b = s.last() as u32;
        assert(x != y ==> x ^ b != y ^ b) by (bit_vector);
        lemma_crc_byte(x ^ b, y ^ b, 0);
    }
}

/// A CRC-32 tells two byte strings apart that differ in one byte alone.
pub proof fn lemma_crc_tells(c: u32, a: Seq<u8>, x: u8, y: u8, rest: Seq<u8>)
    requires
        x != y,
    ensures
        crc_update(c, a.push(x) + rest) != crc_update(c, a.push(y) + rest),
{
    let m: u32 = c ^ 0xFFFFFFFFu32;
    let r = crc_register(m, a);
    assert(a.push(x).drop_last() =~= a && a.push(y).drop_last() =~= a);
    let p = x as u32;
    let q = y as u32;
    assert(p != q ==> r ^ p != r ^ q) by (bit_vector);
    lemma_crc_byte(r ^ p, r ^ q, 0);
    let u = crc_register(m, a.push(x));
    let v = crc_register(m, a.push(y));
    assert(u == crc_bits(r ^ p) && v == crc_bits(r ^ q));
    lemma_register_apart(u, v, rest);
    lemma_register_concat(m, a.push(x), rest);
    lemma_register_concat(m, a.push(y), rest);
    let e = crc_register(u, rest);
    let f = crc_register(v, rest);
    assert(e != f ==> e ^ 0xFFFFFFFFu32 != f ^ 0xFFFFFFFFu32) by (bit_vector);
}

/// The first Adler sum starts at one and adds up bytes, so that parts can be summed
/// apart; the second adds up the first. Both are below 65521.
pub proof fn lemma_adler(a: Seq<u8>, b: Seq<u8>, x: u8)
    ensures
        adler_a(a) < 65521 && adler_b(a) < 65521,
        adler_a(a + b) == (adler_a(a) + adler_a(b) + 65520) % 65521,
        adler_b(a.push(x)) == (adler_b(a) + adler_a(a) + x) % 65521,
{
    assert(a.push(x).drop_last() =~= a);
    lemma_adler_below(a);
    lemma_adler_sum(a, b);
    lemma_remainder((adler_a(a) + x) as nat, adler_b(a) as nat);
    assert(adler_a(a.push(x)) == (adler_a(a) + x as nat) % 65521);
}

proof fn lemma_remainder(x: nat, y: nat)
    ensures
        (x % 65521 + y) % 65521 == (x + y) % 65521,
        (y + x % 65521) % 65521 == (x + y) % 65521,
{
}

proof fn lemma_adler_sum(a: Seq<u8>, b: Seq<u8>)
    ensures
        adler_a(a + b) == (adler_a(a) + adler_a(b) + 65520) % 65521,
    decreases b.len(),
{
    lemma_adler_below(a);
    if b.len() == 0 {
        assert(a + b =~= a);
    } else {
        let d = b.drop_last();
        assert((a + b).drop_last() =~= a + d);
        assert((a + b).last() == b.last());
        lemma_adler_sum(a, d);
        let x = b.last() as nat;
        let m: nat = adler_a(a);
        let n: nat = adler_a(d);
        lemma_remainder(m + n + 65520, x);
        lemma_remainder(n + x, m + 65520);
    }
}

proof fn lemma_adler_below(a: Seq<u8>)
    ensures
        adler_a(a) < 65521 && adler_b(a) < 65521,
{
}

/// The state after a word: the old one turned by five places, the word mixed in by
/// exclusive or, and the product with a constant.
pub proof fn lemma_fx_word(h: u64, i: u64)
    ensures
        rotated(h) as int == (h as int * 32) % 0x1_0000_0000_0000_0000 + h as int / 0x0800_0000_0000_0000,
        fx_word(h, i) as int == (rotated(h) ^ i) as int * 0x517c_c1b7_2722_0a95 % 0x1_0000_0000_0000_0000,
{
    assert(((h << 5) | (h >> 59)) as int == (h as int * 32) % 0x1_0000_0000_0000_0000int + h as int / 0x0800_0000_0000_0000int)
        by (bit_vector);
}

} // verus!
