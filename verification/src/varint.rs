//! Variable-length unsigned integers: seven bits to a byte, the lowest first,
//! the high bit set on every byte but the last.

use vstd::prelude::*;

verus! {

/// Why bytes do not start with a number.
#[derive(Debug, Clone, Copy, PartialEq, Eq, Structural)]
pub enum VarintError {
    /// The bytes end within the number.
    Truncated,
    /// The number is longer than any that fits.
    Overflow,
}

/// The most bytes a number takes.
pub const MAX_BYTES: usize = 10;

/// The bytes of a number.
pub open spec fn uvarint(v: nat) -> Seq<u8>
    decreases v,
{
    if v < 128 {
        seq![v as u8]
    } else {
        seq![(128 + v % 128) as u8] + uvarint(v / 128)
    }
}

/// The number that bytes start with, and how many bytes it takes, of at most
/// `room`.
pub open spec fn uvarint_at(s: Seq<u8>, room: nat) -> Result<(nat, nat), VarintError>
    decreases room,
{
    if room == 0 {
        Err(VarintError::Overflow)
    } else if s.len() == 0 {
        Err(VarintError::Truncated)
    } else if s[0] < 128 {
        Ok((s[0] as nat, 1))
    } else {
        match uvarint_at(s.drop_first(), (room - 1) as nat) {
            Err(e) => Err(e),
            Ok((v, n)) => Ok(((s[0] - 128 + 128 * v) as nat, n + 1)),
        }
    }
}

/// The number that bytes start with, where it fits, and how many bytes it takes.
pub open spec fn uvarint_of(s: Seq<u8>) -> Result<(nat, nat), VarintError> {
    match uvarint_at(s, MAX_BYTES as nat) {
        Err(e) => Err(e),
        Ok((v, n)) => if v > u64::MAX {
            Err(VarintError::Overflow)
        } else {
            Ok((v, n))
        },
    }
}

pub open spec fn pow128(n: nat) -> nat
    decreases n,
{
    if n == 0 {
        1
    } else {
        128 * pow128((n - 1) as nat)
    }
}

proof fn lemma_uvarint(v: nat, room: nat, rest: Seq<u8>)
    requires
        v < pow128(room),
        room > 0,
    ensures
        1 <= uvarint(v).len() <= room,
        uvarint_at(uvarint(v) + rest, room) == Ok::<(nat, nat), VarintError>((v, uvarint(v).len())),
    decreases room,
{
    let s = uvarint(v) + rest;
    if v >= 128 {
        assert(pow128(room) == 128 * pow128((room - 1) as nat));
        if room == 1 {
            assert(pow128(0) == 1);
        }
        lemma_uvarint(v / 128, (room - 1) as nat, rest);
        assert(s.drop_first() =~= uvarint(v / 128) + rest);
        assert(s[0] == (128 + v % 128) as u8);
    }
}

/// Reading what was written gives the number back, whatever follows.
pub proof fn lemma_uvarint_round_trip(v: u64, rest: Seq<u8>)
    ensures
        uvarint_of(uvarint(v as nat) + rest) == Ok::<(nat, nat), VarintError>((v as nat, uvarint(v as nat).len())),
        1 <= uvarint(v as nat).len() <= MAX_BYTES,
{
    lemma_pow128_values();
    lemma_uvarint(v as nat, 10, rest);
}

proof fn lemma_pow128_values()
    ensures
        pow128(10) == 0x40_0000_0000_0000_0000,
{
    reveal_with_fuel(pow128, 11);
}

/// Append a number.
pub fn write_uvarint(out: &mut Vec<u8>, v: u64)
    ensures
        final(out)@ == old(out)@ + uvarint(v as nat),
{
    let mut rest: u64 = v;
    while rest >= 128
        invariant
            out@ + uvarint(rest as nat) == old(out)@ + uvarint(v as nat),
        decreases rest,
    {
        let ghost o = out@;
        let ghost r = rest;
        out.push((128 + rest % 128) as u8);
        rest = rest / 128;
        assert(out@ + uvarint(rest as nat) =~= o + uvarint(r as nat));
    }
    out.push(rest as u8);
    assert(out@ =~= old(out)@ + uvarint(v as nat));
}

/// Read the number that bytes start with; tells how many bytes it takes.
pub fn read_uvarint(buf: &[u8], from: usize) -> (r: Result<(u64, usize), VarintError>)
    requires
        from <= buf@.len(),
    ensures
        match uvarint_of(buf@.skip(from as int)) {
            Ok((v, n)) => r is Ok && r.unwrap().0 == v && r.unwrap().1 == n && from + n <= buf@.len(),
            Err(e) => r == Err::<(u64, usize), VarintError>(e),
        },
{
    let ghost s = buf@.skip(from as int);
    let mut value: u128 = 0;
    let mut scale: u128 = 1;
    let mut i: usize = 0;
    assert(buf.len() == buf@.len());
    assert(s.skip(0) =~= s);
    proof {
        lemma_pow128_values();
        if let Ok((v, n)) = uvarint_at(s, 10) {
            assert(0 + 1 * v == v) by (nonlinear_arith);
        }
    }
    while i < MAX_BYTES
        invariant
            i <= MAX_BYTES,
            buf.len() == buf@.len(),
            from + i <= buf@.len(),
            s == buf@.skip(from as int),
            scale == pow128(i as nat),
            value < scale,
            scale <= 0x40_0000_0000_0000_0000,
            pow128(10) == 0x40_0000_0000_0000_0000,
            match uvarint_at(s.skip(i as int), (MAX_BYTES - i) as nat) {
                Ok((v, n)) => uvarint_at(s, MAX_BYTES as nat) == Ok::<(nat, nat), VarintError>(
                    (value as nat + scale as nat * v, i as nat + n),
                ),
                Err(e) => uvarint_at(s, MAX_BYTES as nat) == Err::<(nat, nat), VarintError>(e),
            },
        decreases MAX_BYTES - i,
    {
        let ghost t = s.skip(i as int);
        if from + i >= buf.len() {
            return Err(VarintError::Truncated);
        }
        let b: u8 = buf[from + i];
        assert(t[0] == b);
        proof {
            lemma_pow128_mono((i + 1) as nat, 10);
            let x = scale as nat;
            let y = b as nat;
            assert(x * y <= x * 255) by (nonlinear_arith)
                requires
                    y <= 255,
            ;
        }
        if b < 128 {
            let v: u128 = value + scale * b as u128;
            if v > u64::MAX as u128 {
                return Err(VarintError::Overflow);
            }
            return Ok((v as u64, i + 1));
        }
        proof {
            let x = scale as int;
            let d = (b - 128) as int;
            let m = value as int;
            assert(x * d <= x * 127) by (nonlinear_arith)
                requires
                    0 <= d <= 127,
                    x >= 0,
            ;
            assert(x * d >= 0) by (nonlinear_arith)
                requires
                    0 <= d,
                    x >= 0,
            ;
            assert(t.drop_first() =~= s.skip(i + 1));
            if let Ok((v, n)) = uvarint_at(s.skip(i + 1), (MAX_BYTES - i - 1) as nat) {
                let w = v as int;
                assert(m + x * (d + 128 * w) == (m + x * d) + (x * 128) * w) by (nonlinear_arith);
            }
        }
        value = value + scale * (b - 128) as u128;
        scale = scale * 128;
        i += 1;
    }
    Err(VarintError::Overflow)
}

proof fn lemma_pow128_mono(a: nat, b: nat)
    requires
        a <= b,
    ensures
        pow128(a) <= pow128(b),
        pow128(a) > 0,
    decreases b,
{
    if a < b {
        lemma_pow128_mono(a, (b - 1) as nat);
    } else if a > 0 {
        lemma_pow128_mono((a - 1) as nat, (b - 1) as nat);
    }
}

} // verus!
