//! Bits of natural numbers and of machine words.
//!
//! Bit-level structures are specified through [`bit`], the `k`-th binary digit
//! of a natural number. The lemmas here tie it to the word operations.

use vstd::prelude::*;

verus! {

/// Two to the power `n`.
pub open spec fn pow2(n: nat) -> nat
    decreases n,
{
    if n == 0 {
        1
    } else {
        2 * pow2((n - 1) as nat)
    }
}

/// The `k`-th binary digit of `v`.
pub open spec fn bit(v: nat, k: nat) -> bool
    decreases k,
{
    if k == 0 {
        v % 2 == 1
    } else {
        bit(v / 2, (k - 1) as nat)
    }
}

pub proof fn lemma_pow2_pos(n: nat)
    ensures
        pow2(n) > 0,
    decreases n,
{
    if n > 0 {
        lemma_pow2_pos((n - 1) as nat);
    }
}

pub proof fn lemma_pow2_mono(m: nat, n: nat)
    requires
        m <= n,
    ensures
        pow2(m) <= pow2(n),
    decreases n,
{
    if m < n {
        lemma_pow2_mono(m, (n - 1) as nat);
        lemma_pow2_pos((n - 1) as nat);
    }
}

/// Exponents add.
pub proof fn lemma_pow2_add(a: nat, b: nat)
    ensures
        pow2(a + b) == pow2(a) * pow2(b),
    decreases b,
{
    if b > 0 {
        lemma_pow2_add(a, (b - 1) as nat);
        let x = pow2(a);
        let y = pow2((b - 1) as nat);
        assert(2 * (x * y) == x * (2 * y)) by (nonlinear_arith);
    } else {
        assert(pow2(a) * 1 == pow2(a)) by (nonlinear_arith);
    }
}

pub proof fn lemma_pow2_values()
    ensures
        pow2(3) == 8,
        pow2(6) == 64,
        pow2(8) == 256,
        pow2(16) == 0x1_0000,
        pow2(32) == 0x1_0000_0000,
        pow2(62) == 0x4000_0000_0000_0000,
        pow2(63) == 0x8000_0000_0000_0000,
        pow2(64) == 0x1_0000_0000_0000_0000,
{
    reveal_with_fuel(pow2, 17);
    assert(pow2(32) == 0x1_0000 * pow2(16));
    assert(pow2(48) == 0x1_0000 * pow2(32));
    assert(pow2(62) == 0x4000 * pow2(48));
    assert(pow2(63) == 2 * pow2(62));
    assert(pow2(64) == 2 * pow2(63));
}

pub proof fn lemma_bit_zero(k: nat)
    ensures
        !bit(0, k),
    decreases k,
{
    if k > 0 {
        lemma_bit_zero((k - 1) as nat);
    }
}

/// Digits at and above the size of a number are zero.
pub proof fn lemma_bit_high(v: nat, n: nat, k: nat)
    requires
        v < pow2(n),
        n <= k,
    ensures
        !bit(v, k),
    decreases k,
{
    if n == 0 {
        lemma_bit_zero(k);
    } else {
        lemma_bit_high(v / 2, (n - 1) as nat, (k - 1) as nat);
    }
}

/// A number below `2^n` is determined by its first `n` digits.
pub proof fn lemma_bits_determine(v: nat, w: nat, n: nat)
    requires
        v < pow2(n),
        w < pow2(n),
        forall|k: nat| k < n ==> bit(v, k) == bit(w, k),
    ensures
        v == w,
    decreases n,
{
    if n > 0 {
        assert(bit(v, 0) == bit(w, 0));
        let v2 = v / 2;
        let w2 = w / 2;
        assert forall|k: nat| k < n - 1 implies bit(v2, k) == bit(w2, k) by {
            assert(bit(v, k + 1) == bit(w, k + 1));
        }
        lemma_bits_determine(v2, w2, (n - 1) as nat);
    }
}

/// Adding `2^n` to a number below `2^n` sets digit `n` and keeps the others.
pub proof fn lemma_bit_add_pow2(v: nat, n: nat, k: nat)
    requires
        v < pow2(n),
    ensures
        bit(v + pow2(n), k) == (k == n || bit(v, k)),
    decreases n,
{
    if n == 0 {
        if k > 0 {
            lemma_bit_zero((k - 1) as nat);
            assert((v + pow2(n)) / 2 == 0);
        }
    } else if k == 0 {
        assert((v + pow2(n)) % 2 == v % 2);
    } else {
        assert((v + pow2(n)) / 2 == v / 2 + pow2((n - 1) as nat));
        lemma_bit_add_pow2(v / 2, (n - 1) as nat, (k - 1) as nat);
    }
}

/// The digit test in terms of the word shift.
pub proof fn lemma_bit_shr(v: u64, k: u64)
    requires
        k < 64,
    ensures
        bit(v as nat, k as nat) == ((v >> k) & 1 == 1),
    decreases k,
{
    if k == 0 {
        assert(((v >> 0) & 1 == 1) == (v % 2 == 1)) by (bit_vector);
    } else {
        let h = v / 2;
        let j = (k - 1) as u64;
        lemma_bit_shr(h, j);
        assert((v >> k) == (h >> j)) by (bit_vector)
            requires
                0 < k < 64,
                h == v / 2,
                j == k - 1,
        ;
    }
}

pub proof fn lemma_bit_and(a: u64, b: u64, k: nat)
    requires
        k < 64,
    ensures
        bit((a & b) as nat, k) == (bit(a as nat, k) && bit(b as nat, k)),
{
    let j = k as u64;
    lemma_bit_shr(a, j);
    lemma_bit_shr(b, j);
    lemma_bit_shr(a & b, j);
    assert((((a & b) >> j) & 1 == 1) == (((a >> j) & 1 == 1) && ((b >> j) & 1 == 1))) by (bit_vector);
}

pub proof fn lemma_bit_or(a: u64, b: u64, k: nat)
    requires
        k < 64,
    ensures
        bit((a | b) as nat, k) == (bit(a as nat, k) || bit(b as nat, k)),
{
    let j = k as u64;
    lemma_bit_shr(a, j);
    lemma_bit_shr(b, j);
    lemma_bit_shr(a | b, j);
    assert((((a | b) >> j) & 1 == 1) == (((a >> j) & 1 == 1) || ((b >> j) & 1 == 1))) by (bit_vector);
}

pub proof fn lemma_bit_not(a: u64, k: nat)
    requires
        k < 64,
    ensures
        bit((!a) as nat, k) == !bit(a as nat, k),
{
    let j = k as u64;
    lemma_bit_shr(a, j);
    lemma_bit_shr(!a, j);
    assert((((!a) >> j) & 1 == 1) == !((a >> j) & 1 == 1)) by (bit_vector)
        requires
            j < 64,
    ;
}

/// The single-bit word `1 << j`.
pub proof fn lemma_bit_one_shl(j: u64, k: nat)
    requires
        j < 64,
        k < 64,
    ensures
        bit((1u64 << j) as nat, k) == (k == j),
{
    let i = k as u64;
    lemma_bit_shr(1u64 << j, i);
    assert((((1u64 << j) >> i) & 1 == 1) == (i == j)) by (bit_vector)
        requires
            j < 64,
            i < 64,
    ;
}

/// Two words with the same digits are equal.
pub proof fn lemma_word_ext(a: u64, b: u64)
    requires
        forall|k: nat| k < 64 ==> bit(a as nat, k) == bit(b as nat, k),
    ensures
        a == b,
{
    lemma_pow2_values();
    lemma_bits_determine(a as nat, b as nat, 64);
}

/// Test digit `k` of a word.
pub fn test_bit(v: u64, k: u64) -> (r: bool)
    requires
        k < 64,
    ensures
        r == bit(v as nat, k as nat),
{
    proof {
        lemma_bit_shr(v, k);
    }
    (v >> k) & 1 == 1
}

/// Set digit `k` of a word.
pub fn with_bit(v: u64, k: u64) -> (r: u64)
    requires
        k < 64,
    ensures
        forall|j: nat| j < 64 ==> #[trigger] bit(r as nat, j) == (j == k || bit(v as nat, j)),
{
    let r: u64 = v | (1u64 << k);
    proof {
        assert forall|j: nat| j < 64 implies #[trigger] bit(r as nat, j) == (j == k || bit(v as nat, j)) by {
            lemma_bit_or(v, 1u64 << k, j);
            lemma_bit_one_shl(k, j);
        }
    }
    r
}

/// Clear digit `k` of a word.
pub fn without_bit(v: u64, k: u64) -> (r: u64)
    requires
        k < 64,
    ensures
        forall|j: nat| j < 64 ==> #[trigger] bit(r as nat, j) == (j != k && bit(v as nat, j)),
{
    let r: u64 = v & !(1u64 << k);
    proof {
        assert forall|j: nat| j < 64 implies #[trigger] bit(r as nat, j) == (j != k && bit(v as nat, j)) by {
            lemma_bit_and(v, !(1u64 << k), j);
            lemma_bit_not(1u64 << k, j);
            lemma_bit_one_shl(k, j);
        }
    }
    r
}

/// The number of set digits of `v` among the first `n`.
pub open spec fn ones(v: nat, n: nat) -> nat
    decreases n,
{
    if n == 0 {
        0
    } else {
        (v % 2) + ones(v / 2, (n - 1) as nat)
    }
}

/// Count the set digits of a word.
pub fn count_ones(v: u64) -> (c: u32)
    ensures
        c == ones(v as nat, 64),
        c <= 64,
{
    let mut w: u64 = v;
    let mut c: u32 = 0;
    let mut i: u32 = 0;
    while i < 64
        invariant
            i <= 64,
            c <= i,
            c + ones(w as nat, (64 - i) as nat) == ones(v as nat, 64),
        decreases 64 - i,
    {
        c += (w % 2) as u32;
        w = w / 2;
        i += 1;
    }
    c
}

/// The number of binary digits of `v`: the least `n` with `v < 2^n`.
pub open spec fn width_of(v: nat) -> nat
    decreases v,
{
    if v == 0 {
        0
    } else {
        1 + width_of(v / 2)
    }
}

/// [`width_of`] is the least width that holds the value.
pub proof fn lemma_width_of(v: nat)
    ensures
        v < pow2(width_of(v)),
        v > 0 ==> width_of(v) > 0 && v >= pow2((width_of(v) - 1) as nat),
    decreases v,
{
    if v > 0 {
        lemma_width_of(v / 2);
    }
}

pub proof fn lemma_width_of_bound(v: nat, n: nat)
    requires
        v < pow2(n),
    ensures
        width_of(v) <= n,
    decreases n,
{
    if v > 0 {
        if n > 0 {
            lemma_width_of_bound(v / 2, (n - 1) as nat);
        }
    }
}

} // verus!
