//! Cell values.

use crate::bits;
use std::cmp::Ordering;
use vstd::prelude::*;

verus! {

/// One cell value.
///
/// A real is held as the bit pattern of its IEEE 754 double, and a text as its
/// dictionary id.
#[derive(Debug, Clone, Copy, PartialEq, Eq, Structural)]
pub enum Value {
    Null,
    Bool(bool),
    Int(i64),
    Real(u64),
    Text(u32),
}

// Reals as bit patterns

/// The exponent field of a double.
pub open spec fn exponent(b: u64) -> nat {
    ((b / 0x10_0000_0000_0000) % 2048) as nat
}

/// The fraction field of a double.
pub open spec fn fraction(b: u64) -> nat {
    (b % 0x10_0000_0000_0000) as nat
}

/// The magnitude of a double as a multiple of the smallest positive one. An
/// infinity comes out above every finite number, and a NaN above the infinities.
pub open spec fn magnitude(b: u64) -> nat {
    if exponent(b) == 0 {
        fraction(b)
    } else {
        (fraction(b) + 0x10_0000_0000_0000) * bits::pow2((exponent(b) - 1) as nat)
    }
}

/// A double as a multiple of the smallest positive one.
pub open spec fn real_key(b: u64) -> int {
    if b < 0x8000_0000_0000_0000 {
        magnitude(b) as int
    } else {
        -(magnitude(b) as int)
    }
}

/// An integer as a multiple of the smallest positive double.
pub open spec fn int_key(i: i64) -> int {
    i * bits::pow2(1074)
}

/// `m` in units of `2^k`, to the nearest, a tie to the even one.
pub open spec fn rounded(m: nat, k: nat) -> nat {
    let q = m / bits::pow2(k);
    let r = m % bits::pow2(k);
    if 2 * r > bits::pow2(k) || (2 * r == bits::pow2(k) && q % 2 == 1) {
        q + 1
    } else {
        q
    }
}

/// The bits of the double nearest to a natural number below `2^64`.
pub open spec fn real_of_nat(m: nat) -> nat {
    let w = bits::width_of(m);
    if m == 0 {
        0
    } else {
        let q = if w <= 53 {
            m * bits::pow2((53 - w) as nat)
        } else {
            rounded(m, (w - 53) as nat)
        };
        // A carry out of the fraction lands in the exponent.
        ((w + 1022) * 0x10_0000_0000_0000 + q - 0x10_0000_0000_0000) as nat
    }
}

/// The bits of the double nearest to an integer.
pub open spec fn real_of_int(i: i64) -> u64 {
    if i >= 0 {
        real_of_nat(i as nat) as u64
    } else {
        (0x8000_0000_0000_0000 + real_of_nat((-i) as nat)) as u64
    }
}

proof fn lemma_rounded(m: nat, k: nat)
    requires
        0 < k,
        bits::pow2(52 + k) <= m < bits::pow2(53 + k),
    ensures
        0x10_0000_0000_0000 <= m / bits::pow2(k),
        rounded(m, k) <= 0x20_0000_0000_0000,
{
    bits::lemma_pow2_pos(k);
    bits::lemma_pow2_add(52, k);
    bits::lemma_pow2_add(53, k);
    bits::lemma_pow2_values();
    let p = bits::pow2(k) as int;
    let a = m as int;
    assert(bits::pow2(52) == 0x10_0000_0000_0000 && bits::pow2(53) == 0x20_0000_0000_0000) by {
        bits::lemma_pow2_add(26, 26);
        bits::lemma_pow2_add(26, 27);
        assert(bits::pow2(26) == 0x400_0000 && bits::pow2(27) == 0x800_0000) by {
            reveal_with_fuel(bits::pow2, 28);
        }
    }
    assert(0x10_0000_0000_0000 <= a / p < 0x20_0000_0000_0000) by (nonlinear_arith)
        requires
            0x10_0000_0000_0000 * p <= a < 0x20_0000_0000_0000 * p,
            p > 0,
    ;
}

/// The double nearest to a natural number, as bits.
pub fn nat_to_real(m: u64) -> (r: u64)
    ensures
        r == real_of_nat(m as nat),
        r < 0x8000_0000_0000_0000,
{
    if m == 0 {
        return 0;
    }
    let mut w: u64 = 0;
    let mut top: u64 = m;
    proof {
        assert(bits::pow2(0) == 1);
    }
    while top > 0
        invariant
            w <= 64,
            bits::width_of(m as nat) == w + bits::width_of(top as nat),
            top as nat == m as nat / bits::pow2(w as nat),
            top > 0 ==> w < 64,
        decreases top,
    {
        proof {
            let p = bits::pow2(w as nat) as int;
            let a = m as int;
            bits::lemma_pow2_pos(w as nat);
            vstd::arithmetic::div_mod::lemma_div_denominator(a, p, 2);
            assert(p * 2 == 2 * p);
            if w == 63 {
                lemma_pow_big();
                assert(a / 0x8000_0000_0000_0000 <= 1);
                assert(top / 2 == 0);
            }
        }
        top = top / 2;
        w += 1;
    }
    proof {
        bits::lemma_width_of(m as nat);
        lemma_pow_big();
    }
    let q: u64 = if w <= 53 {
        let mut q: u64 = m;
        let mut k: u64 = w;
        assert(m * 1 == m) by (nonlinear_arith);
        assert(bits::pow2(0) == 1);
        while k < 53
            invariant
                w <= k <= 53,
                q == m * bits::pow2((k - w) as nat),
                q < bits::pow2(k as nat),
                bits::pow2(53) == 0x20_0000_0000_0000,
            decreases 53 - k,
        {
            proof {
                bits::lemma_pow2_mono((k + 1) as nat, 53);
                let x = bits::pow2((k - w) as nat) as int;
                let y = m as int;
                assert(2 * (y * x) == y * (2 * x)) by (nonlinear_arith);
                assert(bits::pow2((k + 1 - w) as nat) == 2 * bits::pow2((k - w) as nat));
            }
            q = q * 2;
            k += 1;
        }
        q
    } else {
        let mut unit: u64 = 1;
        let mut k: u64 = 53;
        proof {
            assert(bits::pow2(0) == 1);
        }
        while k < w
            invariant
                53 <= k <= w <= 64,
                unit == bits::pow2((k - 53) as nat),
                unit <= 0x800,
                bits::pow2(11) == 0x800,
            decreases w - k,
        {
            proof {
                bits::lemma_pow2_mono((k + 1 - 53) as nat, 11);
                assert(bits::pow2((k + 1 - 53) as nat) == 2 * bits::pow2((k - 53) as nat));
            }
            unit = unit * 2;
            k += 1;
        }
        proof {
            lemma_rounded(m as nat, (w - 53) as nat);
        }
        proof {
            bits::lemma_pow2_pos((w - 53) as nat);
        }
        let q: u64 = m / unit;
        let r: u64 = m % unit;
        if 2 * r > unit || (2 * r == unit && q % 2 == 1) {
            q + 1
        } else {
            q
        }
    };
    assert(0x10_0000_0000_0000 <= q <= 0x20_0000_0000_0000) by {
        if w <= 53 {
            bits::lemma_pow2_add((w - 1) as nat, (53 - w) as nat);
            let x = bits::pow2((53 - w) as nat) as int;
            let y = m as int;
            let z = bits::pow2((w - 1) as nat) as int;
            bits::lemma_pow2_pos((53 - w) as nat);
            assert(y * x >= z * x) by (nonlinear_arith)
                requires
                    y >= z,
                    x > 0,
            ;
        } else {
            lemma_rounded(m as nat, (w - 53) as nat);
        }
    }
    let pattern: u64 = (w + 1022) * 0x10_0000_0000_0000 + (q - 0x10_0000_0000_0000);
    assert(pattern == real_of_nat(m as nat));
    pattern
}

/// The double nearest to an integer, as bits.
pub fn to_real(i: i64) -> (r: u64)
    ensures
        r == real_of_int(i),
{
    if i >= 0 {
        nat_to_real(i as u64)
    } else {
        let m: u64 = if i == i64::MIN {
            0x8000_0000_0000_0000
        } else {
            (-i) as u64
        };
        0x8000_0000_0000_0000 + nat_to_real(m)
    }
}

proof fn lemma_pow_big()
    ensures
        bits::pow2(11) == 0x800,
        bits::pow2(52) == 0x10_0000_0000_0000,
        bits::pow2(53) == 0x20_0000_0000_0000,
        bits::pow2(63) == 0x8000_0000_0000_0000,
        bits::pow2(64) == 0x1_0000_0000_0000_0000,
{
    assert(bits::pow2(26) == 0x400_0000 && bits::pow2(27) == 0x800_0000 && bits::pow2(11) == 0x800) by {
        reveal_with_fuel(bits::pow2, 28);
    }
    bits::lemma_pow2_add(26, 26);
    bits::lemma_pow2_add(26, 27);
    assert(bits::pow2(52) == 0x400_0000 * 0x400_0000);
    assert(bits::pow2(53) == 0x400_0000 * 0x800_0000);
    bits::lemma_pow2_add(52, 11);
    assert(bits::pow2(63) == 0x10_0000_0000_0000 * 0x800);
    bits::lemma_pow2_add(53, 11);
    assert(bits::pow2(64) == 0x20_0000_0000_0000 * 0x800);
}

// The order of values

/// How two keys compare.
#[derive(Debug, Clone, Copy, PartialEq, Eq, Structural)]
pub enum Side {
    Below,
    Same,
    Above,
}

/// How `a` stands to `b`.
pub open spec fn side(a: int, b: int) -> Side {
    if a < b {
        Side::Below
    } else if a == b {
        Side::Same
    } else {
        Side::Above
    }
}

proof fn lemma_fields(b: u64)
    requires
        b < 0x8000_0000_0000_0000,
    ensures
        b == exponent(b) * 0x10_0000_0000_0000 + fraction(b),
        exponent(b) < 2048,
        fraction(b) < 0x10_0000_0000_0000,
{
}

proof fn lemma_sign(b: u64)
    requires
        b >= 0x8000_0000_0000_0000,
    ensures
        magnitude(b) == magnitude((b - 0x8000_0000_0000_0000) as u64),
{
    let c = (b - 0x8000_0000_0000_0000) as u64;
    assert(exponent(b) == exponent(c));
    assert(fraction(b) == fraction(c));
}

/// Patterns without a sign order as their magnitudes do.
proof fn lemma_magnitude_monotone(a: u64, b: u64)
    requires
        a < b < 0x8000_0000_0000_0000,
    ensures
        magnitude(a) < magnitude(b),
{
    lemma_fields(a);
    lemma_fields(b);
    let x = exponent(a);
    let y = exponent(b);
    let f = fraction(a) as int;
    let g = fraction(b) as int;
    if x == y {
        if x > 0 {
            let p = bits::pow2((x - 1) as nat) as int;
            bits::lemma_pow2_pos((x - 1) as nat);
            assert((f + 0x10_0000_0000_0000) * p < (g + 0x10_0000_0000_0000) * p) by (nonlinear_arith)
                requires
                    f < g,
                    p > 0,
            ;
        }
    } else {
        let q = bits::pow2((y - 1) as nat) as int;
        bits::lemma_pow2_pos((y - 1) as nat);
        assert((g + 0x10_0000_0000_0000) * q >= 0x10_0000_0000_0000 * q) by (nonlinear_arith)
            requires
                g >= 0,
                q > 0,
        ;
        if x > 0 {
            let p = bits::pow2((x - 1) as nat) as int;
            bits::lemma_pow2_pos((x - 1) as nat);
            bits::lemma_pow2_mono(x, (y - 1) as nat);
            assert(bits::pow2(x) == 2 * p);
            assert((f + 0x10_0000_0000_0000) * p < 0x20_0000_0000_0000 * p) by (nonlinear_arith)
                requires
                    f < 0x10_0000_0000_0000,
                    p > 0,
            ;
        }
    }
}

/// How the magnitude of a whole number stands to that of a pattern without sign.
fn whole_side(m: u64, b: u64) -> (r: Side)
    requires
        b < 0x8000_0000_0000_0000,
    ensures
        r == side(m * bits::pow2(1074), magnitude(b) as int),
{
    let e: u64 = b / 0x10_0000_0000_0000;
    let f: u64 = b % 0x10_0000_0000_0000;
    proof {
        lemma_fields(b);
        lemma_pow_big();
        bits::lemma_pow2_pos(1074);
    }
    let ghost unit = bits::pow2(1074) as int;
    let ghost s = f + 0x10_0000_0000_0000;
    if e < 1023 {
        assert(magnitude(b) < unit) by {
            if e > 0 {
                let p = bits::pow2((e - 1) as nat) as int;
                bits::lemma_pow2_mono((e - 1) as nat, 1021);
                bits::lemma_pow2_add(53, 1021);
                let t = bits::pow2(1021) as int;
                assert(s * p < 0x20_0000_0000_0000 * t) by (nonlinear_arith)
                    requires
                        0 <= s < 0x20_0000_0000_0000,
                        0 <= p <= t,
                        0 < t,
                ;
            } else {
                bits::lemma_pow2_mono(52, 1074);
            }
        }
        if m == 0 {
            proof {
                if b != 0 {
                    lemma_magnitude_monotone(0, b);
                }
                assert(magnitude(0) == 0);
            }
            if b == 0 {
                Side::Same
            } else {
                Side::Below
            }
        } else {
            assert(m * unit >= unit) by (nonlinear_arith)
                requires
                    m >= 1,
                    unit > 0,
            ;
            Side::Above
        }
    } else if e >= 1087 {
        proof {
            let p = bits::pow2((e - 1) as nat) as int;
            bits::lemma_pow2_mono(1086, (e - 1) as nat);
            bits::lemma_pow2_pos((e - 1) as nat);
            bits::lemma_pow2_add(1074, 12);
            assert(bits::pow2(12) == 2 * bits::pow2(11));
            assert(s * p >= 0x10_0000_0000_0000 * p) by (nonlinear_arith)
                requires
                    s >= 0x10_0000_0000_0000,
                    p > 0,
            ;
            assert(m * unit < 0x1_0000_0000_0000_0000 * unit) by (nonlinear_arith)
                requires
                    m < 0x1_0000_0000_0000_0000,
                    unit > 0,
            ;
        }
        Side::Below
    } else {
        let k: u64 = e - 1023;
        let s: u64 = f + 0x10_0000_0000_0000;
        if k >= 52 {
            let mut t: u64 = s;
            let mut j: u64 = 52;
            assert(s * 1 == s) by (nonlinear_arith);
            assert(bits::pow2(0) == 1);
            while j < k
                invariant
                    52 <= j <= k <= 63,
                    t == s * bits::pow2((j - 52) as nat),
                    s < 0x20_0000_0000_0000,
                    t < bits::pow2((j + 1) as nat),
                    bits::pow2(64) == 0x1_0000_0000_0000_0000,
                decreases k - j,
            {
                proof {
                    bits::lemma_pow2_mono((j + 2) as nat, 64);
                    let x = bits::pow2((j - 52) as nat) as int;
                    let y = s as int;
                    assert(2 * (y * x) == y * (2 * x)) by (nonlinear_arith);
                    assert(bits::pow2((j + 1 - 52) as nat) == 2 * bits::pow2((j - 52) as nat));
                    assert(bits::pow2((j + 2) as nat) == 2 * bits::pow2((j + 1) as nat));
                }
                t = t * 2;
                j += 1;
            }
            proof {
                bits::lemma_pow2_add(1074, (k - 52) as nat);
                let x = bits::pow2((k - 52) as nat) as int;
                let y = s as int;
                assert(y * (unit * x) == (y * x) * unit) by (nonlinear_arith);
                assert(magnitude(b) == t * unit);
                lemma_scaled(m as int, t as int, unit);
            }
            if m < t {
                Side::Below
            } else if m == t {
                Side::Same
            } else {
                Side::Above
            }
        } else {
            let mut d: u64 = 1;
            let mut j: u64 = k;
            proof {
                bits::lemma_pow2_mono((52 - k) as nat, 52);
                assert(bits::pow2(0) == 1);
            }
            while j < 52
                invariant
                    k <= j <= 52,
                    d == bits::pow2((j - k) as nat),
                    bits::pow2(52) == 0x10_0000_0000_0000,
                decreases 52 - j,
            {
                proof {
                    bits::lemma_pow2_mono((j + 1 - k) as nat, 52);
                    assert(bits::pow2((j + 1 - k) as nat) == 2 * bits::pow2((j - k) as nat));
                }
                d = d * 2;
                j += 1;
            }
            proof {
                bits::lemma_pow2_pos((52 - k) as nat);
            }
            let t: u64 = s / d;
            let rest: u64 = s % d;
            proof {
                // The magnitude times d is s units.
                bits::lemma_pow2_add((e - 1) as nat, (52 - k) as nat);
                let p = bits::pow2((e - 1) as nat) as int;
                let y = s as int;
                let c = d as int;
                let a = m as int;
                let u = t as int;
                let r = rest as int;
                assert(p * c == unit);
                assert((y * p) * c == y * (p * c)) by (nonlinear_arith);
                vstd::arithmetic::div_mod::lemma_fundamental_div_mod(y, c);
                assert(y == c * u + r);
                assert(c * u == u * c) by (nonlinear_arith);
                assert((a * unit) * c == (a * c) * unit) by (nonlinear_arith);
                if a < u {
                    assert(a * c < y) by (nonlinear_arith)
                        requires
                            a < u,
                            y == u * c + r,
                            r >= 0,
                            c > 0,
                    ;
                } else if a > u {
                    assert(a * c > y) by (nonlinear_arith)
                        requires
                            a >= u + 1,
                            y == u * c + r,
                            r < c,
                            c > 0,
                    ;
                }
                lemma_scaled(a * c, y, unit);
                lemma_scaled(a * unit, y * p, c);
            }
            if m < t {
                Side::Below
            } else if m > t {
                Side::Above
            } else if rest == 0 {
                Side::Same
            } else {
                Side::Below
            }
        }
    }
}

/// Scaling by a positive factor keeps the order.
proof fn lemma_scaled(a: int, b: int, c: int)
    requires
        c > 0,
    ensures
        side(a * c, b * c) == side(a, b),
{
    assert((a < b ==> a * c < b * c) && (a > b ==> a * c > b * c)) by (nonlinear_arith)
        requires
            c > 0,
    ;
}

fn flipped(s: Side) -> (r: Side)
    ensures
        r == (match s {
            Side::Below => Side::Above,
            Side::Same => Side::Same,
            Side::Above => Side::Below,
        }),
{
    match s {
        Side::Below => Side::Above,
        Side::Same => Side::Same,
        Side::Above => Side::Below,
    }
}

proof fn lemma_signed(a: u64)
    ensures
        real_key(a) == (if a < 0x8000_0000_0000_0000 {
            magnitude(a % 0x8000_0000_0000_0000) as int
        } else {
            -(magnitude(a % 0x8000_0000_0000_0000) as int)
        }),
{
    if a >= 0x8000_0000_0000_0000 {
        lemma_sign(a);
        assert(a % 0x8000_0000_0000_0000 == a - 0x8000_0000_0000_0000);
    }
}

proof fn lemma_magnitude_order(x: u64, y: u64)
    requires
        x < 0x8000_0000_0000_0000,
        y < 0x8000_0000_0000_0000,
    ensures
        x < y ==> magnitude(x) < magnitude(y),
        y < x ==> magnitude(y) < magnitude(x),
        (magnitude(x) == 0) == (x == 0),
        (magnitude(y) == 0) == (y == 0),
{
    assert(magnitude(0) == 0);
    if x < y {
        lemma_magnitude_monotone(x, y);
    } else if y < x {
        lemma_magnitude_monotone(y, x);
    }
    if 0 < x {
        lemma_magnitude_monotone(0, x);
    }
    if 0 < y {
        lemma_magnitude_monotone(0, y);
    }
}

/// How two doubles compare.
pub fn real_side(a: u64, b: u64) -> (r: Side)
    ensures
        r == side(real_key(a), real_key(b)),
{
    let top: u64 = 0x8000_0000_0000_0000;
    let x: u64 = a % top;
    let y: u64 = b % top;
    proof {
        lemma_signed(a);
        lemma_signed(b);
        lemma_magnitude_order(x, y);
    }
    let plain: Side = if x < y {
        Side::Below
    } else if x == y {
        Side::Same
    } else {
        Side::Above
    };
    if a < top && b < top {
        plain
    } else if a >= top && b >= top {
        flipped(plain)
    } else if x == 0 && y == 0 {
        Side::Same
    } else if a >= top {
        Side::Below
    } else {
        Side::Above
    }
}

/// How an integer compares with a double.
pub fn int_real_side(i: i64, b: u64) -> (r: Side)
    ensures
        r == side(int_key(i), real_key(b)),
{
    let top: u64 = 0x8000_0000_0000_0000;
    let y: u64 = b % top;
    proof {
        bits::lemma_pow2_pos(1074);
        if b >= top {
            lemma_sign(b);
        }
        assert(magnitude(0) == 0);
        if 0 < y {
            lemma_magnitude_monotone(0, y);
        }
    }
    let ghost unit = bits::pow2(1074) as int;
    if i >= 0 {
        assert(i * unit >= 0) by (nonlinear_arith)
            requires
                i >= 0,
                unit > 0,
        ;
        if b < top {
            whole_side(i as u64, b)
        } else {
            proof {
                assert(i > 0 ==> i * unit > 0) by (nonlinear_arith)
                    requires
                        unit > 0,
                ;
                assert(0 * unit == 0) by (nonlinear_arith);
            }
            if i == 0 && y == 0 {
                Side::Same
            } else {
                Side::Above
            }
        }
    } else {
        assert(i * unit < 0) by (nonlinear_arith)
            requires
                i < 0,
                unit > 0,
        ;
        if b < top {
            Side::Below
        } else {
            let m: u64 = if i == i64::MIN {
                top
            } else {
                (-i) as u64
            };
            assert(i * unit == -(m * unit)) by (nonlinear_arith)
                requires
                    m == -i,
            ;
            flipped(whole_side(m, y))
        }
    }
}

/// The place of a value's class in the order of all values.
pub open spec fn class_of(v: Value) -> int {
    match v {
        Value::Null => 0,
        Value::Bool(_) => 1,
        Value::Int(_) => 2,
        Value::Real(_) => 2,
        Value::Text(_) => 3,
    }
}

/// The place of a value within its class. Integers and reals share a class and
/// compare by number.
pub open spec fn key_of(v: Value) -> int {
    match v {
        Value::Null => 0,
        Value::Bool(b) => if b {
            1
        } else {
            0
        },
        Value::Int(i) => int_key(i),
        Value::Real(r) => real_key(r),
        Value::Text(id) => id as int,
    }
}

/// How two values compare.
pub open spec fn value_side(a: Value, b: Value) -> Side {
    if class_of(a) != class_of(b) {
        side(class_of(a), class_of(b))
    } else {
        side(key_of(a), key_of(b))
    }
}

/// Two integers compare as integers.
pub proof fn lemma_int_side(a: i64, b: i64)
    ensures
        value_side(Value::Int(a), Value::Int(b)) == side(a as int, b as int),
{
    bits::lemma_pow2_pos(1074);
    lemma_scaled(a as int, b as int, bits::pow2(1074) as int);
}

/// The order of values is total and transitive.
pub proof fn lemma_value_order(a: Value, b: Value, c: Value)
    ensures
        value_side(a, a) == Side::Same,
        (value_side(a, b) == Side::Below) == (value_side(b, a) == Side::Above),
        (value_side(a, b) == Side::Same) == (value_side(b, a) == Side::Same),
        value_side(a, b) != Side::Above && value_side(b, c) != Side::Above ==> value_side(a, c) != Side::Above,
        value_side(a, b) == Side::Below && value_side(b, c) != Side::Above ==> value_side(a, c) == Side::Below,
        value_side(a, b) != Side::Above && value_side(b, c) == Side::Below ==> value_side(a, c) == Side::Below,
{
}

/// The order of all values: null, then false, then true, then the numbers, then the
/// texts by their ids. Integers stand among themselves as integers.
pub proof fn lemma_value_kinds(p: bool, q: bool, i: i64, j: i64, x: u64, s: u32, t: u32)
    ensures
        value_side(Value::Null, Value::Bool(p)) == Side::Below,
        value_side(Value::Bool(false), Value::Bool(true)) == Side::Below,
        value_side(Value::Bool(p), Value::Int(i)) == Side::Below,
        value_side(Value::Bool(p), Value::Real(x)) == Side::Below,
        value_side(Value::Int(i), Value::Text(s)) == Side::Below,
        value_side(Value::Real(x), Value::Text(s)) == Side::Below,
        value_side(Value::Int(i), Value::Int(j)) == Side::Below <==> i < j,
        value_side(Value::Int(i), Value::Int(j)) == Side::Same <==> i == j,
        value_side(Value::Text(s), Value::Text(t)) == Side::Below <==> s < t,
        value_side(Value::Text(s), Value::Text(t)) == Side::Same <==> s == t,
        value_side(Value::Bool(p), Value::Bool(q)) == Side::Same <==> p == q,
{
    lemma_int_side(i, j);
}

/// A real and its negation: they stand on either side of the integer zero, and
/// negating two reals turns their order round.
pub proof fn lemma_real_signs(x: u64, y: u64)
    requires
        x < 0x8000_0000_0000_0000,
        y < 0x8000_0000_0000_0000,
    ensures
        value_side(Value::Real(x), Value::Int(0)) != Side::Below,
        value_side(Value::Real(((x + 0x8000_0000_0000_0000) as u64)), Value::Int(0)) != Side::Above,
        value_side(Value::Real(x), Value::Int(0)) == Side::Same <==> x == 0,
        value_side(
            Value::Real(((x + 0x8000_0000_0000_0000) as u64)),
            Value::Real(((y + 0x8000_0000_0000_0000) as u64)),
        ) == value_side(Value::Real(y), Value::Real(x)),
{
    if exponent(x) > 0 {
        let p = bits::pow2((exponent(x) - 1) as nat);
        bits::lemma_pow2_pos((exponent(x) - 1) as nat);
        assert((fraction(x) + 0x10_0000_0000_0000) * p > 0) by (nonlinear_arith)
            requires
                p > 0,
        ;
    }
}

fn class_number(v: &Value) -> (r: u8)
    ensures
        r == class_of(*v),
{
    match v {
        Value::Null => 0,
        Value::Bool(_) => 1,
        Value::Int(_) => 2,
        Value::Real(_) => 2,
        Value::Text(_) => 3,
    }
}

/// How two values compare.
pub fn compare(a: &Value, b: &Value) -> (r: Side)
    ensures
        r == value_side(*a, *b),
{
    match (*a, *b) {
        (Value::Null, Value::Null) => Side::Same,
        (Value::Bool(x), Value::Bool(y)) => if x == y {
            Side::Same
        } else if y {
            Side::Below
        } else {
            Side::Above
        },
        (Value::Int(x), Value::Int(y)) => {
            proof {
                lemma_int_side(x, y);
            }
            if x < y {
                Side::Below
            } else if x == y {
                Side::Same
            } else {
                Side::Above
            }
        },
        (Value::Int(x), Value::Real(y)) => int_real_side(x, y),
        (Value::Real(x), Value::Int(y)) => flipped(int_real_side(y, x)),
        (Value::Real(x), Value::Real(y)) => real_side(x, y),
        (Value::Text(x), Value::Text(y)) => if x < y {
            Side::Below
        } else if x == y {
            Side::Same
        } else {
            Side::Above
        },
        _ => if class_number(a) < class_number(b) {
            Side::Below
        } else {
            Side::Above
        },
    }
}

impl Value {
    /// The integer projection of a value, if it has one.
    pub open spec fn spec_as_int(self) -> Option<i64> {
        match self {
            Value::Int(i) => Some(i),
            Value::Bool(b) => Some(if b {
                1i64
            } else {
                0i64
            }),
            _ => None,
        }
    }

    /// The bits of the real projection of a value, if it has one.
    pub open spec fn spec_as_real(self) -> Option<u64> {
        match self {
            Value::Int(i) => Some(real_of_int(i)),
            Value::Real(r) => Some(r),
            _ => None,
        }
    }

    /// `true` for the null value.
    pub fn is_null(&self) -> (r: bool)
        ensures
            r == (*self is Null),
    {
        match self {
            Value::Null => true,
            _ => false,
        }
    }

    /// The integer projection: an integer itself, or a boolean as 0 or 1.
    pub fn as_int(&self) -> (r: Option<i64>)
        ensures
            r == self.spec_as_int(),
    {
        match self {
            Value::Int(i) => Some(*i),
            Value::Bool(b) => if *b {
                Some(1)
            } else {
                Some(0)
            },
            _ => None,
        }
    }

    /// The real projection, as bits: a real itself, or the real nearest to an
    /// integer.
    pub fn as_real(&self) -> (r: Option<u64>)
        ensures
            r == self.spec_as_real(),
    {
        match self {
            Value::Int(i) => Some(to_real(*i)),
            Value::Real(r) => Some(*r),
            _ => None,
        }
    }

    /// The dictionary id of a text value.
    pub fn as_text_id(&self) -> (r: Option<u32>)
        ensures
            r == (match *self {
                Value::Text(id) => Some(id),
                _ => None::<u32>,
            }),
    {
        match self {
            Value::Text(id) => Some(*id),
            _ => None,
        }
    }

    /// The total order of values: nulls, booleans, numbers, texts.
    pub fn total_cmp(&self, other: &Value) -> (r: Ordering)
        ensures
            r == (match value_side(*self, *other) {
                Side::Below => Ordering::Less,
                Side::Same => Ordering::Equal,
                Side::Above => Ordering::Greater,
            }),
    {
        match compare(self, other) {
            Side::Below => Ordering::Less,
            Side::Same => Ordering::Equal,
            Side::Above => Ordering::Greater,
        }
    }
}

/// The bits are those of a NaN.
pub open spec fn is_nan(b: u64) -> bool {
    b % 0x8000_0000_0000_0000 > 0x7FF0_0000_0000_0000
}

/// Two values are equal. Reals are so as numbers: a zero whatever its sign, and a
/// NaN to nothing.
pub open spec fn equal(a: Value, b: Value) -> bool {
    match (a, b) {
        (Value::Real(x), Value::Real(y)) => !is_nan(x) && !is_nan(y) && real_key(x) == real_key(y),
        _ => a == b,
    }
}

/// Whether two values are equal.
pub fn is_equal(a: &Value, b: &Value) -> (r: bool)
    ensures
        r == equal(*a, *b),
{
    match (*a, *b) {
        (Value::Real(x), Value::Real(y)) => x % 0x8000_0000_0000_0000 <= 0x7FF0_0000_0000_0000 && y
            % 0x8000_0000_0000_0000 <= 0x7FF0_0000_0000_0000 && real_side(x, y) == Side::Same,
        _ => *a == *b,
    }
}

/// A comparison operator.
#[derive(Debug, Clone, Copy, PartialEq, Eq, Structural)]
pub enum CmpOp {
    Eq,
    Ne,
    Lt,
    Le,
    Gt,
    Ge,
}

/// A comparison holds between two values. None holds of a null.
pub open spec fn holds(op: CmpOp, a: Value, b: Value) -> bool {
    !(a is Null) && !(b is Null) && match op {
        CmpOp::Eq => value_side(a, b) == Side::Same,
        CmpOp::Ne => value_side(a, b) != Side::Same,
        CmpOp::Lt => value_side(a, b) == Side::Below,
        CmpOp::Le => value_side(a, b) != Side::Above,
        CmpOp::Gt => value_side(a, b) == Side::Above,
        CmpOp::Ge => value_side(a, b) != Side::Below,
    }
}

/// How the six comparisons hang together: of two values that are not null exactly
/// one of less, equal and greater holds, the others are made of these three, and
/// turning the values round turns the comparison round. On integers they are those
/// of integers. None holds of a null.
pub proof fn lemma_comparisons(a: Value, b: Value, i: i64, j: i64)
    ensures
        a is Null || b is Null ==> forall|op: CmpOp| !(#[trigger] holds(op, a, b)),
        !(a is Null) && !(b is Null) ==> {
            &&& holds(CmpOp::Lt, a, b) || holds(CmpOp::Eq, a, b) || holds(CmpOp::Gt, a, b)
            &&& !(holds(CmpOp::Lt, a, b) && holds(CmpOp::Eq, a, b))
            &&& !(holds(CmpOp::Lt, a, b) && holds(CmpOp::Gt, a, b))
            &&& !(holds(CmpOp::Eq, a, b) && holds(CmpOp::Gt, a, b))
            &&& holds(CmpOp::Ne, a, b) == !holds(CmpOp::Eq, a, b)
            &&& holds(CmpOp::Le, a, b) == (holds(CmpOp::Lt, a, b) || holds(CmpOp::Eq, a, b))
            &&& holds(CmpOp::Ge, a, b) == (holds(CmpOp::Gt, a, b) || holds(CmpOp::Eq, a, b))
            &&& holds(CmpOp::Gt, a, b) == holds(CmpOp::Lt, b, a)
            &&& holds(CmpOp::Eq, a, b) == holds(CmpOp::Eq, b, a)
        },
        holds(CmpOp::Eq, Value::Int(i), Value::Int(j)) == (i == j),
        holds(CmpOp::Lt, Value::Int(i), Value::Int(j)) == (i < j),
        holds(CmpOp::Gt, Value::Int(i), Value::Int(j)) == (i > j),
{
    lemma_int_side(i, j);
}

/// The operator that a sign names.
pub open spec fn op_named(s: Seq<char>) -> Option<CmpOp> {
    if s == seq!['='] || s == seq!['=', '='] {
        Some(CmpOp::Eq)
    } else if s == seq!['!', '='] || s == seq!['<', '>'] {
        Some(CmpOp::Ne)
    } else if s == seq!['<'] {
        Some(CmpOp::Lt)
    } else if s == seq!['<', '='] {
        Some(CmpOp::Le)
    } else if s == seq!['>'] {
        Some(CmpOp::Gt)
    } else if s == seq!['>', '='] {
        Some(CmpOp::Ge)
    } else {
        None
    }
}

impl CmpOp {
    /// The operator that a sign names.
    pub fn parse(sign: &str) -> (r: Option<CmpOp>)
        ensures
            r == op_named(sign@),
    {
        let v = crate::text::chars_of(sign);
        let n: usize = v.len();
        proof {
            if n == 1 {
                assert(v@ =~= seq![v@[0]]);
            } else if n == 2 {
                assert(v@ =~= seq![v@[0], v@[1]]);
            }
        }
        if n == 1 {
            if v[0] == '=' {
                Some(CmpOp::Eq)
            } else if v[0] == '<' {
                Some(CmpOp::Lt)
            } else if v[0] == '>' {
                Some(CmpOp::Gt)
            } else {
                proof {
                    assert(seq!['='][0] == '=' && seq!['<'][0] == '<' && seq!['>'][0] == '>');
                }
                None
            }
        } else if n == 2 && v[1] == '=' {
            if v[0] == '=' {
                Some(CmpOp::Eq)
            } else if v[0] == '!' {
                Some(CmpOp::Ne)
            } else if v[0] == '<' {
                Some(CmpOp::Le)
            } else if v[0] == '>' {
                Some(CmpOp::Ge)
            } else {
                proof {
                    assert(seq!['=', '='][0] == '=' && seq!['!', '='][0] == '!' && seq!['<', '='][0] == '<'
                        && seq!['>', '='][0] == '>' && seq!['<', '>'][0] == '<');
                }
                None
            }
        } else if n == 2 && v[0] == '<' && v[1] == '>' {
            Some(CmpOp::Ne)
        } else {
            proof {
                if n == 2 {
                    assert(seq!['=', '='][1] == '=' && seq!['!', '='][1] == '=' && seq!['<', '='][1] == '='
                        && seq!['>', '='][1] == '=' && seq!['<', '>'][0] == '<' && seq!['<', '>'][1] == '>');
                }
                assert(seq!['='].len() == 1 && seq!['=', '='].len() == 2);
            }
            None
        }
    }

    /// Whether the comparison holds between two values.
    pub fn apply(&self, a: &Value, b: &Value) -> (r: bool)
        ensures
            r == holds(*self, *a, *b),
    {
        if a.is_null() || b.is_null() {
            return false;
        }
        let s = compare(a, b);
        match self {
            CmpOp::Eq => s == Side::Same,
            CmpOp::Ne => s != Side::Same,
            CmpOp::Lt => s == Side::Below,
            CmpOp::Le => s != Side::Above,
            CmpOp::Gt => s == Side::Above,
            CmpOp::Ge => s != Side::Below,
        }
    }
}

} // verus!
