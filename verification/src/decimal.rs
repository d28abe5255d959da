//! Fixed-point decimal arithmetic.
//!
//! A [`Decimal`] is an `i128` unscaled mantissa plus a `u8` scale (number of
//! fractional digits). It gives exact base-10 arithmetic for money-like
//! columns where binary floating point would accumulate rounding error. The
//! type supports the four arithmetic operations with explicit rounding, and
//! parses and formats decimal strings. Mantissas that outgrow an `i128`
//! saturate.

use crate::text;
use std::cmp::Ordering;
use vstd::prelude::*;
use vstd::string::*;

verus! {

/// Rounding mode for operations that must reduce scale.
#[derive(Debug, Clone, Copy, PartialEq, Eq, Structural)]
pub enum Rounding {
    /// Round half away from zero (commercial rounding).
    HalfUp,
    /// Round half to even (banker's rounding).
    HalfEven,
    /// Truncate toward zero.
    Down,
}

/// A fixed-point decimal number.
#[derive(Debug, Clone, Copy, PartialEq, Eq, Structural)]
pub struct Decimal {
    mantissa: i128,
    scale: u8,
}

/// Error parsing a decimal string.
#[derive(Debug, Clone, PartialEq, Eq)]
pub struct ParseDecimalError(pub String);

impl ParseDecimalError {
    /// A message for people.
    pub fn to_string(&self) -> (r: String)
        ensures
            r@ == "invalid decimal: "@ + self.0@,
    {
        let mut r = "invalid decimal: ".to_owned();
        r.append(self.0.as_str());
        r
    }
}

/// The most fractional digits.
pub const MAX_SCALE: u8 = 38;

/// A power of ten.
pub open spec fn p10(n: nat) -> nat
    decreases n,
{
    if n == 0 {
        1
    } else {
        10 * p10((n - 1) as nat)
    }
}

/// The nearest value that an `i128` holds.
pub open spec fn sat(x: int) -> int {
    if x > i128::MAX {
        i128::MAX as int
    } else if x < i128::MIN {
        i128::MIN as int
    } else {
        x
    }
}

pub open spec fn magnitude(x: int) -> nat {
    if x < 0 {
        (-x) as nat
    } else {
        x as nat
    }
}

/// A quotient of naturals rounded to a natural.
pub open spec fn rounded_nat(n: nat, d: nat, mode: Rounding) -> nat {
    let q = n / d;
    let r = n % d;
    match mode {
        Rounding::Down => q,
        Rounding::HalfUp => if 2 * r >= d {
            q + 1
        } else {
            q
        },
        Rounding::HalfEven => if 2 * r > d || (2 * r == d && q % 2 == 1) {
            q + 1
        } else {
            q
        },
    }
}

/// A quotient rounded to an integer; the sign plays no part.
pub open spec fn rounded(n: int, d: int, mode: Rounding) -> int {
    let m = rounded_nat(magnitude(n), magnitude(d), mode) as int;
    if (n < 0) != (d < 0) {
        -m
    } else {
        m
    }
}

/// The larger of two scales.
pub open spec fn wider(a: u8, b: u8) -> u8 {
    if a >= b {
        a
    } else {
        b
    }
}

/// A scale cut down to the most that is kept.
pub open spec fn capped(s: int) -> u8 {
    if s > MAX_SCALE {
        MAX_SCALE
    } else {
        s as u8
    }
}

proof fn lemma_p10(n: nat)
    ensures
        p10(n) >= 1,
        n > 0 ==> p10(n) % 10 == 0,
    decreases n,
{
    if n > 0 {
        lemma_p10((n - 1) as nat);
    }
}

proof fn lemma_p10_values()
    ensures
        p10(38) == 100_000_000_000_000_000_000_000_000_000_000_000_000,
{
    reveal_with_fuel(p10, 20);
    assert(p10(19) == 10_000_000_000_000_000_000);
    assert(p10(38) == 100_000_000_000_000_000_000_000_000_000_000_000_000);
}

proof fn lemma_p10_mono(a: nat, b: nat)
    requires
        a <= b,
    ensures
        p10(a) <= p10(b),
    decreases b,
{
    if a < b {
        lemma_p10_mono(a, (b - 1) as nat);
    }
}

proof fn lemma_p10_sum(a: nat, b: nat)
    ensures
        p10(a + b) == p10(a) * p10(b),
    decreases b,
{
    if b > 0 {
        lemma_p10_sum(a, (b - 1) as nat);
        let x = p10(a);
        let y = p10((b - 1) as nat);
        assert(10 * (x * y) == x * (10 * y)) by (nonlinear_arith);
    } else {
        assert(p10(a) * 1 == p10(a)) by (nonlinear_arith);
    }
}

/// The absolute value of a mantissa.
fn mag_of(m: i128) -> (r: u128)
    ensures
        r == magnitude(m as int),
{
    if m < 0 {
        (-(m + 1)) as u128 + 1
    } else {
        m as u128
    }
}

/// A mantissa from its sign and absolute value.
fn signed(neg: bool, mag: u128) -> (r: i128)
    ensures
        r == sat(if neg {
            -(mag as int)
        } else {
            mag as int
        }),
{
    if mag > 170141183460469231731687303715884105727u128 {
        if neg {
            i128::MIN
        } else {
            i128::MAX
        }
    } else if neg {
        -(mag as i128)
    } else {
        mag as i128
    }
}

/// A number with `e` zeros appended, where that fits.
fn shifted(m: u128, e: u8) -> (r: Option<u128>)
    ensures
        match r {
            Some(v) => v == m * p10(e as nat),
            None => m * p10(e as nat) > u128::MAX,
        },
{
    let mut v: u128 = m;
    let mut i: u8 = 0;
    assert(m * 1 == m) by (nonlinear_arith);
    while i < e
        invariant
            i <= e,
            v == m * p10(i as nat),
        decreases e - i,
    {
        proof {
            let x = m as nat;
            let y = p10(i as nat);
            assert(x * (10 * y) == 10 * (x * y)) by (nonlinear_arith);
        }
        if v > u128::MAX / 10 {
            proof {
                lemma_p10_mono((i + 1) as nat, e as nat);
                let x = m as nat;
                let y = p10((i + 1) as nat);
                let z = p10(e as nat);
                assert(x * y <= x * z) by (nonlinear_arith)
                    requires
                        y <= z,
                ;
            }
            return None;
        }
        v = v * 10;
        i += 1;
    }
    Some(v)
}

/// A power of ten.
fn pow10(n: u8) -> (r: u128)
    requires
        n <= MAX_SCALE,
    ensures
        r == p10(n as nat),
{
    proof {
        lemma_p10_values();
        lemma_p10_mono(n as nat, 38);
        assert(1 * p10(n as nat) == p10(n as nat)) by (nonlinear_arith);
    }
    match shifted(1, n) {
        Some(v) => v,
        None => 0,
    }
}

/// A mantissa with `e` zeros appended, saturated.
fn times_pow10(m: i128, e: u8) -> (r: i128)
    ensures
        r == sat(m * p10(e as nat)),
{
    proof {
        let x = m as int;
        let y = p10(e as nat) as int;
        lemma_p10(e as nat);
        assert((-x) * y == -(x * y)) by (nonlinear_arith);
        if x < 0 {
            assert(x * y < 0) by (nonlinear_arith)
                requires
                    x < 0,
                    y > 0,
            ;
        } else {
            assert(x * y >= 0) by (nonlinear_arith)
                requires
                    x >= 0,
                    y > 0,
            ;
        }
    }
    match shifted(mag_of(m), e) {
        Some(v) => signed(m < 0, v),
        None => {
            if m < 0 {
                i128::MIN
            } else {
                i128::MAX
            }
        },
    }
}

/// A quotient of absolute values, rounded.
fn rounded_mag(n: u128, d: u128, mode: Rounding) -> (r: u128)
    requires
        d > 0,
        n <= 0x8000_0000_0000_0000_0000_0000_0000_0000u128,
    ensures
        r == rounded_nat(n as nat, d as nat, mode),
        r <= n,
{
    let q: u128 = n / d;
    let r: u128 = n % d;
    proof {
        let a = n as int;
        let b = d as int;
        assert(a / b <= a) by (nonlinear_arith)
            requires
                a >= 0,
                b > 0,
        ;
        if b >= 2 {
            assert(2 * (a / b) <= a) by (nonlinear_arith)
                requires
                    a >= 0,
                    b >= 2,
            ;
            if a > 0 && a / b == a {
                assert(false);
            }
        } else {
            assert(a % 1 == 0);
            assert(r == 0);
        }
        if r == 0 {
        } else {
            assert(a > 0) by {
                if a == 0 {
                    assert(0int % b == 0) by (nonlinear_arith)
                        requires
                            b > 0,
                    ;
                }
            }
        }
    }
    let up = match mode {
        Rounding::Down => false,
        Rounding::HalfUp => r >= d - r,
        Rounding::HalfEven => r > d - r || (r == d - r && q % 2 == 1),
    };
    if up {
        q + 1
    } else {
        q
    }
}

/// The whole part and the fraction of a number, the fraction at scale `to`.
fn parts_of(m: u128, scale: u8, to: u8) -> (r: (u128, u128))
    requires
        scale <= to <= MAX_SCALE,
    ensures
        r.1 < p10(to as nat),
        r.0 * p10(to as nat) + r.1 == m * p10((to - scale) as nat),
{
    let p: u128 = pow10(scale);
    proof {
        lemma_p10(scale as nat);
    }
    let whole: u128 = m / p;
    let part: u128 = m % p;
    let g: u128 = pow10(to - scale);
    proof {
        lemma_p10_sum(scale as nat, (to - scale) as nat);
        lemma_p10_values();
        lemma_p10_mono(to as nat, 38);
        let a = part as int;
        let b = p as int;
        let c = g as int;
        let w = whole as int;
        lemma_p10((to - scale) as nat);
        assert(a * c < b * c) by (nonlinear_arith)
            requires
                0 <= a < b,
                c >= 1,
        ;
        assert(a * c >= 0) by (nonlinear_arith)
            requires
                a >= 0,
                c >= 1,
        ;
        assert(m as int == b * w + a) by {
            vstd::arithmetic::div_mod::lemma_fundamental_div_mod(m as int, b);
        }
        assert((b * w + a) * c == w * (b * c) + a * c) by (nonlinear_arith);
    }
    (whole, part * g)
}

/// Whether one absolute value is less than another, whatever their scales.
fn less_mag(a: u128, sa: u8, b: u128, sb: u8) -> (r: bool)
    requires
        sa <= MAX_SCALE,
        sb <= MAX_SCALE,
    ensures
        r == (a * p10((wider(sa, sb) - sa) as nat) < b * p10((wider(sa, sb) - sb) as nat)),
{
    let s: u8 = if sa >= sb {
        sa
    } else {
        sb
    };
    let x = parts_of(a, sa, s);
    let y = parts_of(b, sb, s);
    proof {
        let p = p10(s as nat) as int;
        let i = x.0 as int;
        let j = y.0 as int;
        if i < j {
            assert((i + 1) * p <= j * p) by (nonlinear_arith)
                requires
                    i < j,
                    p >= 0,
            ;
            assert((i + 1) * p == i * p + p) by (nonlinear_arith);
        }
        if j < i {
            assert((j + 1) * p <= i * p) by (nonlinear_arith)
                requires
                    j < i,
                    p >= 0,
            ;
            assert((j + 1) * p == j * p + p) by (nonlinear_arith);
        }
    }
    x.0 < y.0 || (x.0 == y.0 && x.1 < y.1)
}

// Text

/// The digits of a mantissa with at least one before the point.
pub open spec fn padded(n: nat, scale: nat) -> Seq<char> {
    let d = text::digits(n);
    if d.len() <= scale {
        zeros((scale + 1 - d.len()) as nat) + d
    } else {
        d
    }
}

pub open spec fn zeros(n: nat) -> Seq<char> {
    Seq::new(n, |i: int| '0')
}

/// An absolute value as text: its digits with a point before the last `scale`.
pub open spec fn magnitude_text(n: nat, scale: nat) -> Seq<char> {
    let d = padded(n, scale);
    if scale == 0 {
        text::digits(n)
    } else {
        d.subrange(0, d.len() - scale) + seq!['.'] + d.skip(d.len() - scale)
    }
}

/// A decimal as text.
pub open spec fn decimal_text(m: int, scale: nat) -> Seq<char> {
    if m < 0 {
        seq!['-'] + magnitude_text(magnitude(m), scale)
    } else {
        magnitude_text(magnitude(m), scale)
    }
}

/// The digits of a text, in order.
pub open spec fn only_digits(s: Seq<char>) -> Seq<char>
    decreases s.len(),
{
    if s.len() == 0 {
        Seq::empty()
    } else if text::is_digit(s.last()) {
        only_digits(s.drop_last()).push(s.last())
    } else {
        only_digits(s.drop_last())
    }
}

/// Where the point stands; the length where there is none.
pub open spec fn point_at(s: Seq<char>) -> int
    decreases s.len(),
{
    if s.len() == 0 || s[0] == '.' {
        0
    } else {
        1 + point_at(s.drop_first())
    }
}

/// Digits and underscores only.
pub open spec fn plain(s: Seq<char>) -> bool {
    forall|i: int| 0 <= i < s.len() ==> text::is_digit(#[trigger] s[i]) || s[i] == '_'
}

/// A number without its sign as digits before and after the point.
pub open spec fn halves(s: Seq<char>) -> Option<(Seq<char>, Seq<char>)> {
    let p = point_at(s);
    let head = s.subrange(0, p);
    let tail = if p < s.len() {
        s.skip(p + 1)
    } else {
        Seq::empty()
    };
    if plain(head) && plain(tail) {
        Some((only_digits(head), only_digits(tail)))
    } else {
        None
    }
}

/// The mantissa and scale that a number without its sign reads as.
pub open spec fn unsigned_parts(s: Seq<char>) -> Option<(nat, u8)> {
    match halves(s) {
        None => None,
        Some((whole, part)) => {
            let scale = capped(part.len() as int);
            let n = text::number(whole + part.subrange(0, scale as int));
            if (whole.len() == 0 && part.len() == 0) || n > i128::MAX {
                None
            } else {
                Some((n, scale))
            }
        },
    }
}

/// The mantissa and scale that a trimmed text reads as. Underscores are passed
/// over, and digits beyond the largest scale are dropped.
pub open spec fn decimal_parts(s: Seq<char>) -> Option<(int, u8)> {
    if s.len() == 0 {
        None
    } else if s[0] == '-' {
        match unsigned_parts(s.drop_first()) {
            Some((n, e)) => Some((-(n as int), e)),
            None => None,
        }
    } else {
        let rest = if s[0] == '+' {
            s.drop_first()
        } else {
            s
        };
        match unsigned_parts(rest) {
            Some((n, e)) => Some((n as int, e)),
            None => None,
        }
    }
}

proof fn lemma_point(s: Seq<char>)
    ensures
        0 <= point_at(s) <= s.len(),
        forall|i: int| 0 <= i < point_at(s) ==> #[trigger] s[i] != '.',
        point_at(s) < s.len() ==> s[point_at(s)] == '.',
    decreases s.len(),
{
    if s.len() > 0 && s[0] != '.' {
        let t = s.drop_first();
        lemma_point(t);
        assert forall|i: int| 0 <= i < point_at(s) implies #[trigger] s[i] != '.' by {
            if i > 0 {
                assert(t[i - 1] == s[i]);
            }
        }
        if point_at(s) < s.len() {
            assert(t[point_at(t)] == s[point_at(s)]);
        }
    }
}

proof fn lemma_point_is(s: Seq<char>, p: int)
    requires
        0 <= p <= s.len(),
        forall|i: int| 0 <= i < p ==> #[trigger] s[i] != '.',
        p < s.len() ==> s[p] == '.',
    ensures
        point_at(s) == p,
{
    lemma_point(s);
    if point_at(s) < p {
        assert(s[point_at(s)] != '.');
    }
}

proof fn lemma_only_digits_all(s: Seq<char>)
    requires
        forall|i: int| 0 <= i < s.len() ==> text::is_digit(#[trigger] s[i]),
    ensures
        only_digits(s) == s,
    decreases s.len(),
{
    if s.len() > 0 {
        assert(text::is_digit(s[s.len() - 1]));
        lemma_only_digits_all(s.drop_last());
        assert(s.drop_last().push(s.last()) =~= s);
    }
}

proof fn lemma_only_digits(s: Seq<char>)
    ensures
        forall|i: int| 0 <= i < only_digits(s).len() ==> text::is_digit(#[trigger] only_digits(s)[i]),
        only_digits(s).len() <= s.len(),
    decreases s.len(),
{
    if s.len() > 0 {
        lemma_only_digits(s.drop_last());
    }
}

proof fn lemma_number_zeros(n: nat, d: Seq<char>)
    ensures
        text::number(zeros(n) + d) == text::number(d),
    decreases n + d.len(),
{
    let s = zeros(n) + d;
    if d.len() > 0 {
        assert(s.drop_last() =~= zeros(n) + d.drop_last());
        lemma_number_zeros(n, d.drop_last());
    } else if n > 0 {
        assert(s =~= zeros(n));
        assert(s.drop_last() =~= zeros((n - 1) as nat) + d);
        lemma_number_zeros((n - 1) as nat, d);
    } else {
        assert(s =~= d);
    }
}

proof fn lemma_padded(n: nat, k: nat)
    ensures
        padded(n, k).len() > k,
        text::number(padded(n, k)) == n,
        forall|i: int| 0 <= i < padded(n, k).len() ==> text::is_digit(#[trigger] padded(n, k)[i]),
{
    let d = padded(n, k);
    let dg = text::digits(n);
    text::lemma_digits(n);
    if dg.len() <= k {
        let z = k + 1 - dg.len();
        lemma_number_zeros(z as nat, dg);
        assert forall|i: int| 0 <= i < d.len() implies text::is_digit(#[trigger] d[i]) by {
            if i >= z {
                assert(d[i] == dg[i - z]);
            }
        }
    }
}

/// Digits around a point read back as those digits.
proof fn lemma_halves(head: Seq<char>, tail: Seq<char>)
    requires
        forall|i: int| 0 <= i < head.len() ==> text::is_digit(#[trigger] head[i]),
        forall|i: int| 0 <= i < tail.len() ==> text::is_digit(#[trigger] tail[i]),
    ensures
        halves(head + seq!['.'] + tail) == Some((head, tail)),
        halves(head) == Some((head, Seq::<char>::empty())),
{
    let s = head + seq!['.'] + tail;
    let p = head.len() as int;
    assert forall|i: int| 0 <= i < p implies #[trigger] s[i] != '.' by {
        assert(s[i] == head[i]);
    }
    lemma_point_is(s, p);
    lemma_point_is(head, p);
    assert(s.subrange(0, p) =~= head);
    assert(s.skip(p + 1) =~= tail);
    assert(head.subrange(0, p) =~= head);
    lemma_only_digits_all(head);
    lemma_only_digits_all(tail);
    assert(only_digits(Seq::<char>::empty()) =~= Seq::<char>::empty());
}

proof fn lemma_magnitude_text(n: nat, scale: u8)
    requires
        n <= i128::MAX,
        scale <= MAX_SCALE,
    ensures
        magnitude_text(n, scale as nat).len() > 0,
        text::is_digit(magnitude_text(n, scale as nat)[0]),
        text::is_digit(magnitude_text(n, scale as nat).last()),
        unsigned_parts(magnitude_text(n, scale as nat)) == Some((n, scale)),
{
    let k = scale as nat;
    let t = magnitude_text(n, k);
    if k == 0 {
        text::lemma_digits(n);
        lemma_halves(t, Seq::empty());
        assert(t + Seq::<char>::empty().subrange(0, 0) =~= t);
    } else {
        lemma_padded(n, k);
        let d = padded(n, k);
        let head = d.subrange(0, d.len() - k);
        let tail = d.skip(d.len() - k);
        assert forall|i: int| 0 <= i < tail.len() implies text::is_digit(#[trigger] tail[i]) by {
            assert(tail[i] == d[d.len() - k + i]);
        }
        assert forall|i: int| 0 <= i < head.len() implies text::is_digit(#[trigger] head[i]) by {
            assert(head[i] == d[i]);
        }
        lemma_halves(head, tail);
        assert(t[0] == head[0]);
        assert(t.last() == tail[k - 1]);
        assert(head + tail.subrange(0, k as int) =~= d);
    }
}

/// What a decimal is written as reads back as that decimal.
pub proof fn lemma_text_round_trip(m: int, scale: u8)
    requires
        i128::MIN < m <= i128::MAX,
        scale <= MAX_SCALE,
    ensures
        text::trimmed(decimal_text(m, scale as nat)) == decimal_text(m, scale as nat),
        decimal_parts(decimal_text(m, scale as nat)) == Some((m, scale)),
{
    let n = magnitude(m);
    let t = decimal_text(m, scale as nat);
    let body = magnitude_text(n, scale as nat);
    lemma_magnitude_text(n, scale);
    assert(t.last() == body.last());
    assert(t[0] == if m < 0 {
        '-'
    } else {
        body[0]
    });
    text::lemma_trimmed(t);
    if m < 0 {
        assert(t.drop_first() =~= body);
    }
}

impl Decimal {
    /// The unscaled mantissa.
    pub closed spec fn m(self) -> int {
        self.mantissa as int
    }

    /// The number of fractional digits.
    pub closed spec fn s(self) -> u8 {
        self.scale
    }

    /// Scales are capped, and mantissas are `i128`s.
    pub closed spec fn wf(self) -> bool {
        self.scale <= MAX_SCALE
    }

    /// The mantissa that the number would have at a larger scale.
    pub open spec fn at_scale(self, s: u8) -> int {
        self.m() * p10((s - self.s()) as nat)
    }

    pub proof fn lemma_wf(self)
        requires
            self.wf(),
        ensures
            i128::MIN <= self.m() <= i128::MAX,
            self.s() <= MAX_SCALE,
    {
    }

    /// A decimal from an unscaled mantissa and scale.
    pub fn new(mantissa: i128, scale: u8) -> (r: Decimal)
        ensures
            r.wf(),
            r.m() == mantissa,
            r.s() == capped(scale as int),
    {
        Decimal {
            mantissa,
            scale: if scale > MAX_SCALE {
                MAX_SCALE
            } else {
                scale
            },
        }
    }

    /// Zero at scale 0.
    pub fn zero() -> (r: Decimal)
        ensures
            r.wf(),
            r.m() == 0,
            r.s() == 0,
    {
        Decimal { mantissa: 0, scale: 0 }
    }

    /// An integer value at scale 0.
    pub fn from_i64(v: i64) -> (r: Decimal)
        ensures
            r.wf(),
            r.m() == v,
            r.s() == 0,
    {
        Decimal { mantissa: v as i128, scale: 0 }
    }

    /// The unscaled mantissa.
    pub fn mantissa(&self) -> (r: i128)
        ensures
            r == self.m(),
    {
        self.mantissa
    }

    /// The scale (fractional digit count).
    pub fn scale(&self) -> (r: u8)
        ensures
            r == self.s(),
    {
        self.scale
    }

    /// `true` if the value is zero.
    pub fn is_zero(&self) -> (r: bool)
        ensures
            r == (self.m() == 0),
    {
        self.mantissa == 0
    }

    /// The sign: -1, 0, or 1.
    pub fn signum(&self) -> (r: i32)
        ensures
            r == (if self.m() < 0 {
                -1int
            } else if self.m() == 0 {
                0
            } else {
                1
            }),
    {
        if self.mantissa < 0 {
            -1
        } else if self.mantissa == 0 {
            0
        } else {
            1
        }
    }

    /// Re-scale to a target scale, rounding if the scale decreases.
    pub fn rescale(&self, target: u8, mode: Rounding) -> (r: Decimal)
        requires
            self.wf(),
        ensures
            r.wf(),
            r.s() == capped(target as int),
            r.m() == (if r.s() >= self.s() {
                sat(self.at_scale(r.s()))
            } else {
                rounded(self.m(), p10((self.s() - r.s()) as nat) as int, mode)
            }),
    {
        let t: u8 = if target > MAX_SCALE {
            MAX_SCALE
        } else {
            target
        };
        if t >= self.scale {
            Decimal { mantissa: times_pow10(self.mantissa, t - self.scale), scale: t }
        } else {
            let d: u128 = pow10(self.scale - t);
            proof {
                lemma_p10((self.scale - t) as nat);
            }
            let q: u128 = rounded_mag(mag_of(self.mantissa), d, mode);
            Decimal { mantissa: signed(self.mantissa < 0, q), scale: t }
        }
    }

    /// The mantissas of two decimals at the larger of their scales.
    fn align(a: &Decimal, b: &Decimal) -> (r: (i128, i128, u8))
        requires
            a.wf(),
            b.wf(),
        ensures
            r.2 == wider(a.s(), b.s()),
            r.0 == sat(a.at_scale(r.2)),
            r.1 == sat(b.at_scale(r.2)),
    {
        let s: u8 = if a.scale >= b.scale {
            a.scale
        } else {
            b.scale
        };
        (times_pow10(a.mantissa, s - a.scale), times_pow10(b.mantissa, s - b.scale), s)
    }

    /// Add two decimals (result scale is the larger of the two).
    pub fn add(&self, other: &Decimal) -> (r: Decimal)
        requires
            self.wf(),
            other.wf(),
        ensures
            r.wf(),
            r.s() == wider(self.s(), other.s()),
            r.m() == sat(sat(self.at_scale(r.s())) + sat(other.at_scale(r.s()))),
    {
        let (a, b, scale) = Decimal::align(self, other);
        let m: i128 = match a.checked_add(b) {
            Some(m) => m,
            None => {
                if a < 0 {
                    i128::MIN
                } else {
                    i128::MAX
                }
            },
        };
        Decimal { mantissa: m, scale }
    }

    /// Subtract.
    pub fn sub(&self, other: &Decimal) -> (r: Decimal)
        requires
            self.wf(),
            other.wf(),
        ensures
            r.wf(),
            r.s() == wider(self.s(), other.s()),
            r.m() == sat(sat(self.at_scale(r.s())) - sat(other.at_scale(r.s()))),
    {
        let (a, b, scale) = Decimal::align(self, other);
        let m: i128 = match a.checked_sub(b) {
            Some(m) => m,
            None => {
                if a < 0 {
                    i128::MIN
                } else {
                    i128::MAX
                }
            },
        };
        Decimal { mantissa: m, scale }
    }

    /// Multiply (result scale is the sum of the two scales, capped). Digits
    /// beyond the cap are cut off.
    pub fn mul(&self, other: &Decimal) -> (r: Decimal)
        requires
            self.wf(),
            other.wf(),
        ensures
            r.wf(),
            r.s() == capped(self.s() + other.s()),
            r.m() == rounded(
                sat(self.m() * other.m()),
                p10((self.s() + other.s() - r.s()) as nat) as int,
                Rounding::Down,
            ),
    {
        let sum: u8 = self.scale + other.scale;
        let scale: u8 = if sum > MAX_SCALE {
            MAX_SCALE
        } else {
            sum
        };
        let raw: i128 = match self.mantissa.checked_mul(other.mantissa) {
            Some(m) => m,
            None => {
                proof {
                    let a = self.mantissa as int;
                    let b = other.mantissa as int;
                    if (a < 0) == (b < 0) {
                        assert(a * b >= 0) by (nonlinear_arith)
                            requires
                                (a < 0) == (b < 0),
                        ;
                    } else {
                        assert(a * b <= 0) by (nonlinear_arith)
                            requires
                                (a < 0) != (b < 0),
                        ;
                    }
                }
                if (self.mantissa < 0) != (other.mantissa < 0) {
                    i128::MIN
                } else {
                    i128::MAX
                }
            },
        };
        let d: u128 = pow10(sum - scale);
        proof {
            lemma_p10((sum - scale) as nat);
        }
        let q: u128 = rounded_mag(mag_of(raw), d, Rounding::Down);
        Decimal { mantissa: signed(raw < 0, q), scale }
    }

    /// The divisor's digits less the dividend's, at the scale of the result.
    pub open spec fn shift(self, other: Decimal, result_scale: u8) -> int {
        other.s() + capped(result_scale as int) - self.s()
    }

    /// What is divided and by what, as integers: numerator and denominator of
    /// the quotient at the scale of the result.
    pub open spec fn quotient(self, other: Decimal, result_scale: u8) -> (int, int) {
        let e = self.shift(other, result_scale);
        if e >= 0 {
            (sat(self.m() * p10(e as nat)), other.m())
        } else {
            (self.m(), other.m() * p10((-e) as nat))
        }
    }

    /// Divide to a target result scale with rounding. Returns `None` on divide
    /// by zero. The one quotient of two `i128`s that is no `i128` is left out.
    pub fn div(&self, other: &Decimal, result_scale: u8, mode: Rounding) -> (r: Option<Decimal>)
        requires
            self.wf(),
            other.wf(),
            self.quotient(*other, result_scale) != (i128::MIN as int, -1int),
        ensures
            r is None <==> other.m() == 0,
            r matches Some(d) ==> {
                let (num, den) = self.quotient(*other, result_scale);
                d.wf() && d.s() == capped(result_scale as int) && d.m() == rounded(num, den, mode)
            },
    {
        if other.mantissa == 0 {
            return None;
        }
        let scale: u8 = if result_scale > MAX_SCALE {
            MAX_SCALE
        } else {
            result_scale
        };
        let up: u8 = other.scale + scale;
        let neg = (self.mantissa < 0) != (other.mantissa < 0);
        if up >= self.scale {
            let num: i128 = times_pow10(self.mantissa, up - self.scale);
            proof {
                let x = self.mantissa as int;
                let y = p10((up - self.scale) as nat) as int;
                lemma_p10((up - self.scale) as nat);
                assert(x < 0 ==> x * y < 0) by (nonlinear_arith)
                    requires
                        y > 0,
                ;
                assert(x >= 0 ==> x * y >= 0) by (nonlinear_arith)
                    requires
                        y > 0,
                ;
                assert((num < 0) == (self.mantissa < 0));
            }
            let q: u128 = rounded_mag(mag_of(num), mag_of(other.mantissa), mode);
            proof {
                self.lemma_quotient_fits(*other, result_scale, mode, num as int, other.mantissa as int, q as int);
            }
            Some(Decimal { mantissa: signed(neg, q), scale })
        } else {
            let down: u8 = self.scale - up;
            let n: u128 = mag_of(self.mantissa);
            proof {
                let x = other.mantissa as int;
                let y = p10(down as nat) as int;
                lemma_p10(down as nat);
                assert((-x) * y == -(x * y)) by (nonlinear_arith);
                assert(x < 0 ==> x * y < 0) by (nonlinear_arith)
                    requires
                        y > 0,
                ;
                assert(x > 0 ==> x * y > 0) by (nonlinear_arith)
                    requires
                        y > 0,
                ;
                assert(magnitude(x * y) == magnitude(x) * p10(down as nat));
            }
            let q: u128 = match shifted(mag_of(other.mantissa), down) {
                Some(d) => rounded_mag(n, d, mode),
                None => {
                    proof {
                        lemma_far(n as nat, magnitude(other.m()), down as nat, mode);
                    }
                    0
                },
            };
            proof {
                self.lemma_quotient_fits(
                    *other,
                    result_scale,
                    mode,
                    self.mantissa as int,
                    other.mantissa * p10(down as nat),
                    q as int,
                );
            }
            Some(Decimal { mantissa: signed(neg, q), scale })
        }
    }

    proof fn lemma_quotient_fits(
        self,
        other: Decimal,
        result_scale: u8,
        mode: Rounding,
        num: int,
        den: int,
        q: int,
    )
        requires
            i128::MIN <= num <= i128::MAX,
            den != 0,
            (num, den) != (i128::MIN as int, -1int),
            q == rounded_nat(magnitude(num), magnitude(den), mode),
        ensures
            q == 0 ==> rounded(num, den, mode) == 0,
            i128::MIN <= rounded(num, den, mode) <= i128::MAX,
            rounded(num, den, mode) == (if (num < 0) != (den < 0) {
                -q
            } else {
                q
            }),
    {
        let a = magnitude(num) as int;
        let b = magnitude(den) as int;
        if b == 1 {
            assert(a % 1 == 0 && a / 1 == a);
        } else {
            assert(2 * (a / b) <= a) by (nonlinear_arith)
                requires
                    a >= 0,
                    b >= 2,
            ;
        }
    }

    /// Negate.
    pub fn neg(&self) -> (r: Decimal)
        requires
            self.wf(),
            self.m() != i128::MIN,
        ensures
            r.wf(),
            r.m() == -self.m(),
            r.s() == self.s(),
    {
        Decimal { mantissa: -self.mantissa, scale: self.scale }
    }

    /// Absolute value.
    pub fn abs(&self) -> (r: Decimal)
        requires
            self.wf(),
            self.m() != i128::MIN,
        ensures
            r.wf(),
            r.m() == magnitude(self.m()),
            r.s() == self.s(),
    {
        if self.mantissa < 0 {
            Decimal { mantissa: -self.mantissa, scale: self.scale }
        } else {
            *self
        }
    }

    /// Ordering comparison across differing scales.
    pub fn cmp(&self, other: &Decimal) -> (r: Ordering)
        requires
            self.wf(),
            other.wf(),
        ensures
            ({
                let s = wider(self.s(), other.s());
                r == (if self.at_scale(s) < other.at_scale(s) {
                    Ordering::Less
                } else if self.at_scale(s) == other.at_scale(s) {
                    Ordering::Equal
                } else {
                    Ordering::Greater
                })
            }),
    {
        proof {
            let s = wider(self.s(), other.s());
            self.lemma_sign(s);
            other.lemma_sign(s);
        }
        if self.mantissa < 0 && other.mantissa >= 0 {
            return Ordering::Less;
        }
        if self.mantissa >= 0 && other.mantissa < 0 {
            return Ordering::Greater;
        }
        let a: u128 = mag_of(self.mantissa);
        let b: u128 = mag_of(other.mantissa);
        let below = less_mag(a, self.scale, b, other.scale);
        let above = less_mag(b, other.scale, a, self.scale);
        if (self.mantissa < 0 && above) || (self.mantissa >= 0 && below) {
            Ordering::Less
        } else if below || above {
            Ordering::Greater
        } else {
            Ordering::Equal
        }
    }

    proof fn lemma_sign(self, s: u8)
        requires
            self.s() <= s,
        ensures
            self.m() < 0 ==> self.at_scale(s) < 0,
            self.m() >= 0 ==> self.at_scale(s) >= 0,
            magnitude(self.at_scale(s)) == magnitude(self.m()) * p10((s - self.s()) as nat),
    {
        let x = self.m();
        let y = p10((s - self.s()) as nat) as int;
        lemma_p10((s - self.s()) as nat);
        assert((-x) * y == -(x * y)) by (nonlinear_arith);
        assert(x < 0 ==> x * y < 0) by (nonlinear_arith)
            requires
                y > 0,
        ;
        assert(x >= 0 ==> x * y >= 0) by (nonlinear_arith)
            requires
                y > 0,
        ;
    }

    /// Parse a decimal string such as `-12.340`.
    pub fn parse(s: &str) -> (r: Result<Decimal, ParseDecimalError>)
        ensures
            match decimal_parts(text::trimmed(s@)) {
                Some((m, e)) => r is Ok && r->Ok_0.wf() && r->Ok_0.m() == m && r->Ok_0.s() == e,
                None => r is Err && r->Err_0.0@ == text::trimmed(s@),
            },
    {
        let v = text::trim(&text::chars_of(s));
        if v.len() == 0 {
            return Err(ParseDecimalError(text::string_of(&v)));
        }
        let neg = v[0] == '-';
        let rest: Vec<char> = if neg || v[0] == '+' {
            text::slice_chars(&v, 1, v.len())
        } else {
            text::slice_chars(&v, 0, v.len())
        };
        proof {
            if neg || v@[0] == '+' {
                assert(rest@ =~= v@.drop_first());
            } else {
                assert(rest@ =~= v@);
            }
        }
        match read_unsigned(&rest) {
            None => Err(ParseDecimalError(text::string_of(&v))),
            Some((n, scale)) => {
                Ok(Decimal { mantissa: signed(neg, n), scale })
            },
        }
    }

    /// The number as text.
    pub fn to_string(&self) -> (r: String)
        requires
            self.wf(),
        ensures
            r@ == decimal_text(self.m(), self.s() as nat),
    {
        let mut out: Vec<char> = Vec::new();
        if self.mantissa < 0 {
            out.push('-');
        }
        let n: u128 = mag_of(self.mantissa);
        if self.scale == 0 {
            text::push_number(&mut out, n);
            assert(out@ =~= decimal_text(self.m(), 0));
            return text::string_of(&out);
        }
        let ghost sign = out@;
        let scale: usize = self.scale as usize;
        let mut d: Vec<char> = Vec::new();
        text::push_number(&mut d, n);
        proof {
            text::lemma_digits(n as nat);
            assert(d@ =~= text::digits(n as nat));
        }
        let mut p: Vec<char> = Vec::new();
        if d.len() <= scale {
            let pad: usize = scale + 1 - d.len();
            let mut i: usize = 0;
            while i < pad
                invariant
                    i <= pad,
                    p@ == zeros(i as nat),
                decreases pad - i,
            {
                p.push('0');
                i += 1;
                assert(p@ =~= zeros(i as nat));
            }
        }
        p.append(&mut d);
        assert(p@ =~= padded(n as nat, scale as nat));
        let dot: usize = p.len() - scale;
        let mut whole = text::slice_chars(&p, 0, dot);
        let mut part = text::slice_chars(&p, dot, p.len());
        out.append(&mut whole);
        out.push('.');
        out.append(&mut part);
        assert(out@ =~= decimal_text(self.m(), self.s() as nat));
        text::string_of(&out)
    }
}

/// A quotient by a divisor beyond twice the dividend is nothing.
proof fn lemma_far(n: nat, d: nat, down: nat, mode: Rounding)
    requires
        n <= 0x8000_0000_0000_0000_0000_0000_0000_0000u128,
        down > 0,
        d * p10(down) > u128::MAX,
    ensures
        rounded_nat(n, d * p10(down), mode) == 0,
{
    let b = d * p10(down);
    lemma_p10(down);
    let y = p10((down - 1) as nat);
    assert(d * (10 * y) == 10 * (d * y)) by (nonlinear_arith);
    assert(b % 10 == 0);
    assert(b != 0x1_0000_0000_0000_0000_0000_0000_0000_0000int);
    let a = n as int;
    let c = b as int;
    assert(a / c == 0 && a % c == a) by (nonlinear_arith)
        requires
            0 <= a < c,
    ;
}

/// A number without its sign as digits before and after the point, read.
fn read_unsigned(v: &Vec<char>) -> (r: Option<(u128, u8)>)
    ensures
        match unsigned_parts(v@) {
            Some((n, e)) => r is Some && r.unwrap().0 == n && r.unwrap().1 == e && n <= i128::MAX && e <= MAX_SCALE,
            None => r is None,
        },
{
    let mut p: usize = 0;
    assert(v@.skip(0) =~= v@);
    while p < v.len() && v[p] != '.'
        invariant
            p <= v@.len(),
            p + point_at(v@.skip(p as int)) == point_at(v@),
        decreases v@.len() - p,
    {
        assert(v@.skip(p as int).drop_first() =~= v@.skip(p + 1));
        p += 1;
    }
    let ghost head = v@.subrange(0, p as int);
    let ghost tail = if p < v@.len() {
        v@.skip(p + 1)
    } else {
        Seq::empty()
    };
    let whole: Vec<char>;
    match keep_digits(v, 0, p) {
        None => {
            return None;
        },
        Some(w) => {
            whole = w;
        },
    }
    let from: usize = if p < v.len() {
        p + 1
    } else {
        p
    };
    let part: Vec<char>;
    assert(v@.subrange(from as int, v@.len() as int) =~= tail);
    match keep_digits(v, from, v.len()) {
        None => {
            return None;
        },
        Some(w) => {
            part = w;
        },
    }
    if whole.len() == 0 && part.len() == 0 {
        return None;
    }
    let scale: u8 = if part.len() > MAX_SCALE as usize {
        MAX_SCALE
    } else {
        part.len() as u8
    };
    let mut kept = text::slice_chars(&part, 0, scale as usize);
    let mut all = whole;
    let ghost w0 = all@;
    let ghost k0 = kept@;
    all.append(&mut kept);
    proof {
        lemma_only_digits(head);
        lemma_only_digits(tail);
        assert(all@ =~= w0 + k0);
        assert forall|i: int| 0 <= i < all@.len() implies text::is_digit(#[trigger] all@[i]) by {
            if i < w0.len() {
                assert(all@[i] == w0[i]);
            } else {
                assert(all@[i] == part@[i - w0.len()]);
            }
        }
    }
    match text::read_number(&all) {
        None => None,
        Some(n) => {
            if n > 170141183460469231731687303715884105727u128 {
                None
            } else {
                Some((n, scale))
            }
        },
    }
}

/// The digits of a range that holds nothing but digits and underscores.
fn keep_digits(v: &Vec<char>, from: usize, to: usize) -> (r: Option<Vec<char>>)
    requires
        from <= to <= v@.len(),
    ensures
        r is Some <==> plain(v@.subrange(from as int, to as int)),
        r matches Some(d) ==> d@ == only_digits(v@.subrange(from as int, to as int)),
{
    let ghost s = v@.subrange(from as int, to as int);
    let mut d: Vec<char> = Vec::new();
    let mut i: usize = from;
    assert(s.subrange(0, 0) =~= Seq::<char>::empty());
    while i < to
        invariant
            from <= i <= to <= v@.len(),
            s == v@.subrange(from as int, to as int),
            d@ == only_digits(s.subrange(0, i - from)),
            plain(s.subrange(0, i - from)),
        decreases to - i,
    {
        let c: char = v[i];
        let ghost next = s.subrange(0, i + 1 - from);
        assert(next.drop_last() =~= s.subrange(0, i - from));
        assert(s[i - from] == c);
        if text::digit(c) {
            d.push(c);
        } else if c != '_' {
            return None;
        }
        assert forall|k: int| 0 <= k < next.len() implies text::is_digit(#[trigger] next[k]) || next[k] == '_' by {
            if k < i - from {
                assert(next[k] == s.subrange(0, i - from)[k]);
            }
        }
        i += 1;
    }
    assert(s.subrange(0, to - from) =~= s);
    Some(d)
}

/// Rounding a fraction. Cut off, it is the nearest integer toward zero. To the nearest,
/// it is no further off than a half; a tie goes away from zero, or to the even one.
#[verifier::spinoff_prover]
pub proof fn lemma_rounded(n: int, d: int)
    requires
        d > 0,
    ensures
        ({
            let q = rounded(n, d, Rounding::Down);
            &&& n >= 0 ==> q * d <= n < q * d + d
            &&& n <= 0 ==> q * d - d < n <= q * d
        }),
        ({
            let q = rounded(n, d, Rounding::HalfUp);
            &&& -d <= 2 * (n - q * d) <= d
            &&& 2 * (n - q * d) == d ==> n < 0
            &&& 2 * (n - q * d) == -d ==> n > 0
        }),
        ({
            let q = rounded(n, d, Rounding::HalfEven);
            &&& -d <= 2 * (n - q * d) <= d
            &&& 2 * (n - q * d) == d || 2 * (n - q * d) == -d ==> q % 2 == 0
        }),
{
    let a = magnitude(n) as int;
    let k = a / d;
    let r = a % d;
    assert(a == k * d + r && 0 <= r < d && k >= 0) by (nonlinear_arith)
        requires
            k == a / d,
            r == a % d,
            d > 0,
            a >= 0,
    ;
    assert((k + 1) * d == k * d + d && (-k) * d == -(k * d) && (-(k + 1)) * d == -(k * d) - d) by (nonlinear_arith);
    assert((-k) % 2 == 0 <==> k % 2 == 0);
}

/// At a larger scale a number keeps its value: each decimal place multiplies by ten.
pub proof fn lemma_scaled(x: Decimal, s: u8)
    requires
        x.wf(),
        x.s() <= s < u8::MAX,
    ensures
        x.at_scale(x.s()) == x.m(),
        x.at_scale((s + 1) as u8) == 10 * x.at_scale(s),
{
    let k = (s - x.s()) as nat;
    assert(p10(0) == 1);
    assert(p10(k + 1) == 10 * p10(k));
    assert(x.m() * (10 * p10(k)) == 10 * (x.m() * p10(k))) by (nonlinear_arith);
    assert(x.m() * 1 == x.m());
}

} // verus!
