//! A HyperLogLog distinct-count sketch.
//!
//! Column statistics need an approximate distinct count (NDV) to drive join
//! ordering and grouping decisions, and an exact count is too expensive to keep
//! current under mutation. HyperLogLog estimates cardinality in fixed memory:
//! the hash of each element is split into a register index and a run of leading
//! zeros; the maximum run seen per register, harmonic-averaged across
//! registers, estimates the cardinality with a standard error of about
//! `1.04 / sqrt(m)`. This module keeps the registers.

use crate::bits;
use crate::bloom;
use crate::bytes;
use vstd::prelude::*;

verus! {

/// A HyperLogLog sketch.
#[derive(Clone, Debug)]
pub struct HyperLogLog {
    registers: Vec<u8>,
    precision: u8,
    m: usize,
}

/// A precision kept to 4..=16.
pub open spec fn clamped(p: u8) -> u8 {
    if p < 4 {
        4
    } else if p > 16 {
        16
    } else {
        p
    }
}

/// The leading zeros of `x` as a number of `w` bits.
pub open spec fn leading(x: nat, w: nat) -> nat
    decreases w,
{
    if w == 0 || x >= bits::pow2((w - 1) as nat) {
        0
    } else {
        1 + leading(x, (w - 1) as nat)
    }
}

/// The register of a hash: its highest `p` bits.
pub open spec fn register_of(hash: u64, p: u8) -> int {
    hash as int / bits::pow2((64 - p) as nat) as int
}

/// The rank of a hash: one more than the zeros that lead its other bits.
pub open spec fn rank_of(hash: u64, p: u8) -> nat {
    let w = (64 - p) as nat;
    1 + leading(hash as nat % bits::pow2(w), w)
}

/// Registers with a hash added.
pub open spec fn with_hash(r: Seq<u8>, p: u8, hash: u64) -> Seq<u8> {
    let i = register_of(hash, p);
    if rank_of(hash, p) > r[i] {
        r.update(i, rank_of(hash, p) as u8)
    } else {
        r
    }
}

/// The larger of two registers in each place.
pub open spec fn larger(a: Seq<u8>, b: Seq<u8>) -> Seq<u8> {
    Seq::new(
        a.len(),
        |i: int|
            if a[i] >= b[i] {
                a[i]
            } else {
                b[i]
            },
    )
}

proof fn lemma_leading(x: nat, w: nat)
    ensures
        leading(x, w) <= w,
    decreases w,
{
    if w > 0 && x < bits::pow2((w - 1) as nat) {
        lemma_leading(x, (w - 1) as nat);
    }
}

proof fn lemma_register(hash: u64, p: u8)
    requires
        4 <= p <= 16,
    ensures
        0 <= register_of(hash, p) < bits::pow2(p as nat),
        rank_of(hash, p) <= 61,
        bits::pow2((64 - p) as nat) > 0,
        bits::pow2((64 - p) as nat) <= 0x1000_0000_0000_0000,
{
    let w = (64 - p) as nat;
    bits::lemma_pow2_add(p as nat, w);
    lemma_pow64();
    bits::lemma_pow2_pos(w);
    bits::lemma_pow2_mono(w, 60);
    lemma_leading(hash as nat % bits::pow2(w), w);
    let a = hash as int;
    let d = bits::pow2(w) as int;
    let n = bits::pow2(p as nat) as int;
    assert(0 <= a / d < n) by (nonlinear_arith)
        requires
            0 <= a < n * d,
            d > 0,
    ;
}

proof fn lemma_pow64()
    ensures
        bits::pow2(64) == 0x1_0000_0000_0000_0000,
        bits::pow2(60) == 0x1000_0000_0000_0000,
        bits::pow2(16) == 0x1_0000,
{
    assert(bits::pow2(16) == 0x1_0000 && bits::pow2(12) == 0x1000) by {
        reveal_with_fuel(bits::pow2, 17);
    }
    bits::lemma_pow2_add(16, 16);
    assert(bits::pow2(32) == 0x1_0000 * 0x1_0000);
    bits::lemma_pow2_add(32, 32);
    assert(bits::pow2(64) == 0x1_0000_0000 * 0x1_0000_0000);
    bits::lemma_pow2_add(16, 12);
    assert(bits::pow2(28) == 0x1_0000 * 0x1000);
    bits::lemma_pow2_add(32, 28);
    assert(bits::pow2(60) == 0x1_0000_0000 * 0x1000_0000);
}

/// Adding an element twice is adding it once.
pub proof fn lemma_add_idempotent(r: Seq<u8>, p: u8, hash: u64)
    requires
        4 <= p <= 16,
        r.len() == bits::pow2(p as nat),
    ensures
        with_hash(with_hash(r, p, hash), p, hash) == with_hash(r, p, hash),
{
    lemma_register(hash, p);
}

/// Elements can be added in any order.
pub proof fn lemma_add_commutes(r: Seq<u8>, p: u8, g: u64, h: u64)
    requires
        4 <= p <= 16,
        r.len() == bits::pow2(p as nat),
    ensures
        with_hash(with_hash(r, p, g), p, h) == with_hash(with_hash(r, p, h), p, g),
{
    lemma_register(g, p);
    lemma_register(h, p);
    assert(with_hash(with_hash(r, p, g), p, h) =~= with_hash(with_hash(r, p, h), p, g));
}

/// Merging is union: what was added to one side counts in the merged sketch.
pub proof fn lemma_merge_union(r: Seq<u8>, t: Seq<u8>, p: u8, hash: u64)
    requires
        4 <= p <= 16,
        r.len() == bits::pow2(p as nat),
        t.len() == r.len(),
    ensures
        larger(with_hash(r, p, hash), t) == with_hash(larger(r, t), p, hash),
{
    lemma_register(hash, p);
    assert(larger(with_hash(r, p, hash), t) =~= with_hash(larger(r, t), p, hash));
}

impl HyperLogLog {
    pub closed spec fn regs(self) -> Seq<u8> {
        self.registers@
    }

    pub closed spec fn prec(self) -> u8 {
        self.precision
    }

    pub closed spec fn wf(self) -> bool {
        &&& 4 <= self.precision <= 16
        &&& self.m == bits::pow2(self.precision as nat)
        &&& self.registers@.len() == self.m
    }

    /// What a sketch keeps.
    pub proof fn lemma_wf(self)
        requires
            self.wf(),
        ensures
            4 <= self.prec() <= 16,
            self.regs().len() == bits::pow2(self.prec() as nat),
    {
    }

    /// A sketch with `2^precision` registers (precision in 4..=16).
    pub fn new(precision: u8) -> (r: HyperLogLog)
        ensures
            r.wf(),
            r.prec() == clamped(precision),
            r.regs() == Seq::new(bits::pow2(clamped(precision) as nat), |i: int| 0u8),
    {
        let p: u8 = if precision < 4 {
            4
        } else if precision > 16 {
            16
        } else {
            precision
        };
        proof {
            lemma_pow64();
        }
        let mut m: usize = 1;
        let mut k: u8 = 0;
        while k < p
            invariant
                k <= p <= 16,
                m == bits::pow2(k as nat),
                bits::pow2(16) == 0x1_0000,
            decreases p - k,
        {
            proof {
                bits::lemma_pow2_mono((k + 1) as nat, 16);
            }
            m = m * 2;
            k += 1;
        }
        let mut registers: Vec<u8> = Vec::new();
        let mut i: usize = 0;
        while i < m
            invariant
                i <= m,
                registers@ == Seq::new(i as nat, |i: int| 0u8),
            decreases m - i,
        {
            registers.push(0);
            i += 1;
            assert(registers@ =~= Seq::new(i as nat, |i: int| 0u8));
        }
        HyperLogLog { registers, precision: p, m }
    }

    /// The sketch with the fewest registers from `wanted` on, or with the most
    /// there can be.
    pub fn for_registers(wanted: usize) -> (r: HyperLogLog)
        ensures
            r.wf(),
            r.prec() == 16 || r.regs().len() >= wanted,
            r.prec() == 4 || bits::pow2((r.prec() - 1) as nat) < wanted,
            r.regs() == Seq::new(r.regs().len(), |i: int| 0u8),
    {
        let mut p: u8 = 4;
        let mut m: usize = 16;
        proof {
            lemma_pow64();
            reveal_with_fuel(bits::pow2, 5);
        }
        while m < wanted && p < 16
            invariant
                4 <= p <= 16,
                m == bits::pow2(p as nat),
                p == 4 || bits::pow2((p - 1) as nat) < wanted,
                bits::pow2(16) == 0x1_0000,
            decreases 16 - p,
        {
            proof {
                bits::lemma_pow2_mono((p + 1) as nat, 16);
            }
            m = m * 2;
            p += 1;
        }
        HyperLogLog::new(p)
    }

    /// Register count.
    pub fn register_count(&self) -> (r: usize)
        requires
            self.wf(),
        ensures
            r == self.regs().len(),
    {
        self.m
    }

    /// The registers.
    pub fn registers(&self) -> (r: &[u8])
        ensures
            r@ == self.regs(),
    {
        self.registers.as_slice()
    }

    /// Add a pre-hashed 64-bit value.
    pub fn add_hash(&mut self, hash: u64)
        requires
            old(self).wf(),
        ensures
            final(self).wf(),
            final(self).prec() == old(self).prec(),
            final(self).regs() == with_hash(old(self).regs(), old(self).prec(), hash),
    {
        let p: u8 = self.precision;
        proof {
            lemma_register(hash, p);
        }
        let mut unit: u64 = 1;
        let mut k: u8 = 0;
        while k < 64 - p
            invariant
                4 <= p <= 16,
                k <= 64 - p,
                unit == bits::pow2(k as nat),
                bits::pow2((64 - p) as nat) <= 0x1000_0000_0000_0000,
            decreases 64 - p - k,
        {
            proof {
                bits::lemma_pow2_mono((k + 1) as nat, (64 - p) as nat);
            }
            unit = unit * 2;
            k += 1;
        }
        let idx: usize = (hash / unit) as usize;
        let low: u64 = hash % unit;
        let mut rank: u8 = 1;
        let mut w: u8 = 64 - p;
        let ghost w0 = w as nat;
        while w > 0 && low < unit / 2
            invariant
                4 <= p <= 16,
                w <= w0 <= 60,
                unit == bits::pow2(w as nat),
                rank + w == 1 + w0,
                (rank - 1) + leading(low as nat, w as nat) == leading(low as nat, w0),
            decreases w,
        {
            unit = unit / 2;
            rank += 1;
            w -= 1;
        }
        assert(rank == rank_of(hash, p));
        if rank > self.registers[idx] {
            self.registers.set(idx, rank);
        }
    }

    /// Add an integer element.
    pub fn add_i64(&mut self, v: i64)
        requires
            old(self).wf(),
        ensures
            final(self).wf(),
            final(self).prec() == old(self).prec(),
            final(self).regs() == with_hash(old(self).regs(), old(self).prec(), bloom::splitmix(bytes::twos(v))),
    {
        self.add_hash(bloom::splitmix64(bytes::to_twos(v)));
    }

    /// Add a byte-string element.
    pub fn add_bytes(&mut self, data: &[u8])
        requires
            old(self).wf(),
        ensures
            final(self).wf(),
            final(self).prec() == old(self).prec(),
            final(self).regs() == with_hash(
                old(self).regs(),
                old(self).prec(),
                bloom::splitmix(bloom::fnv(data@)),
            ),
    {
        self.add_hash(bloom::splitmix64(bloom::fnv1a(data)));
    }

    /// Merge another sketch of the same precision into this one.
    pub fn merge(&mut self, other: &HyperLogLog) -> (r: bool)
        requires
            old(self).wf(),
            other.wf(),
        ensures
            final(self).wf(),
            final(self).prec() == old(self).prec(),
            r == (old(self).prec() == other.prec()),
            final(self).regs() == (if r {
                larger(old(self).regs(), other.regs())
            } else {
                old(self).regs()
            }),
    {
        if other.precision != self.precision {
            return false;
        }
        let ghost s = self.registers@;
        let mut i: usize = 0;
        while i < self.registers.len()
            invariant
                i <= self.registers@.len(),
                self.wf(),
                self.precision == old(self).precision,
                self.registers@.len() == s.len(),
                self.registers@.len() == other.registers@.len(),
                forall|j: int| 0 <= j < i ==> #[trigger] self.registers@[j] == larger(s, other.registers@)[j],
                forall|j: int| i <= j < s.len() ==> #[trigger] self.registers@[j] == s[j],
            decreases self.registers@.len() - i,
        {
            if other.registers[i] > self.registers[i] {
                let v: u8 = other.registers[i];
                self.registers.set(i, v);
            }
            i += 1;
        }
        assert(self.registers@ =~= larger(s, other.registers@));
        true
    }
}

/// A hash raises the register that its first bits name to its rank, and no other; merged
/// registers hold the larger of both.
pub proof fn lemma_registers(r: Seq<u8>, t: Seq<u8>, p: u8, hash: u64, i: int)
    requires
        4 <= p <= 16,
        r.len() == bits::pow2(p as nat),
        t.len() == r.len(),
        0 <= i < r.len(),
    ensures
        ({
            let at = hash as int / bits::pow2((64 - p) as nat) as int;
            let w = with_hash(r, p, hash);
            &&& w.len() == r.len()
            &&& i != at ==> w[i] == r[i]
            &&& w[i] >= r[i]
            &&& i == at ==> w[i] >= rank_of(hash, p) && (w[i] == r[i] || w[i] == rank_of(hash, p))
        }),
        larger(r, t)[i] >= r[i] && larger(r, t)[i] >= t[i] && (larger(r, t)[i] == r[i] || larger(r, t)[i] == t[i]),
{
    lemma_register(hash, p);
}

} // verus!
