//! Block compression codecs for page bodies and checkpoint segments.
//!
//! These are byte-oriented, general-purpose codecs, distinct from the
//! column-aware encodings in [`crate::encoding`] (which understand value
//! widths and null suppression). A page body or a checkpoint segment is an
//! opaque byte string; before it is written it can be run through one of these
//! codecs and framed with a small header recording the codec id and the
//! original length, so the reader can restore the exact bytes.
//!
//! Three codecs are provided:
//!
//! - [`Codec::Store`]: no compression, the identity transform.
//! - [`Codec::Rle`]: byte run-length encoding, good for sparse/zeroed pages.
//! - [`Codec::Lz`]: a small LZ77-style compressor with a fixed window, good
//!   for pages with repeated structure.
//!
//! The [`frame`] / [`unframe`] pair chooses nothing automatically; callers pick
//! a codec (or call [`compress_best`], which tries all three and keeps the
//! smallest). Every framed block round-trips exactly.

use vstd::prelude::*;
use crate::bytes;
use crate::bits;

verus! {

broadcast use bytes::group_le_len;

/// The compression codec used for a framed block.
#[derive(Debug, Clone, Copy, PartialEq, Eq, Structural)]
pub enum Codec {
    /// Identity: the block is stored verbatim.
    Store,
    /// Byte run-length encoding.
    Rle,
    /// LZ77-style sliding-window compression.
    Lz,
}

impl Codec {
    pub open spec fn spec_tag(self) -> u8 {
        match self {
            Codec::Store => 0,
            Codec::Rle => 1,
            Codec::Lz => 2,
        }
    }

    pub open spec fn spec_from_tag(b: u8) -> Option<Codec> {
        if b == 0 {
            Some(Codec::Store)
        } else if b == 1 {
            Some(Codec::Rle)
        } else if b == 2 {
            Some(Codec::Lz)
        } else {
            None
        }
    }

    /// The on-disk tag byte.
    pub fn tag(self) -> (r: u8)
        ensures
            r == self.spec_tag(),
    {
        match self {
            Codec::Store => 0,
            Codec::Rle => 1,
            Codec::Lz => 2,
        }
    }

    /// Parse a tag byte.
    pub fn from_tag(b: u8) -> (r: Option<Codec>)
        ensures
            r == Codec::spec_from_tag(b),
    {
        match b {
            0 => Some(Codec::Store),
            1 => Some(Codec::Rle),
            2 => Some(Codec::Lz),
            _ => None,
        }
    }
}

/// Error returned when a framed block cannot be decoded.
#[derive(Debug, Clone, PartialEq, Eq)]
pub enum DecompressError {
    /// The frame header was truncated.
    ShortHeader,
    /// The codec tag byte was not recognized.
    BadCodec(u8),
    /// The compressed body was truncated or malformed.
    Truncated,
    /// The decompressed length did not match the framed original length.
    LengthMismatch { expected: usize, got: usize },
}

/// What a block decompresses to.
pub type Plain = Result<Seq<u8>, DecompressError>;

/// A result agrees with what is specified.
pub open spec fn agrees(r: Result<Vec<u8>, DecompressError>, m: Plain) -> bool {
    match (r, m) {
        (Ok(v), Ok(s)) => v@ == s,
        (Err(e), Err(f)) => e == f,
        _ => false,
    }
}

/// Bytes so far in front of what is decompressed next.
pub open spec fn joined(a: Seq<u8>, m: Plain) -> Plain {
    match m {
        Ok(b) => Ok(a + b),
        Err(e) => Err(e),
    }
}

/// The first byte of a frame.
pub const FRAME_MAGIC: u8 = 0xC5;

// Byte run-length encoding

/// The number of leading bytes equal to `b`, at most `cap`.
pub open spec fn run_of(s: Seq<u8>, b: u8, cap: nat) -> nat
    decreases cap,
{
    if s.len() == 0 || cap == 0 || s[0] != b {
        0
    } else {
        1 + run_of(s.drop_first(), b, (cap - 1) as nat)
    }
}

/// Literal runs of at most 128 bytes: a control byte below 128 is one less than
/// the number of bytes that follow.
pub open spec fn literals(s: Seq<u8>) -> Seq<u8>
    decreases s.len(),
{
    if s.len() == 0 {
        Seq::empty()
    } else if s.len() <= 128 {
        seq![(s.len() - 1) as u8] + s
    } else {
        seq![127u8] + s.subrange(0, 128) + literals(s.skip(128))
    }
}

/// The run-length encoding of `s` after the pending literals `lit`. A run of 3
/// to 130 equal bytes becomes a control byte from 128 on and the byte; all else
/// is literal.
pub open spec fn rle_text(s: Seq<u8>, lit: Seq<u8>) -> Seq<u8>
    decreases s.len(),
{
    if s.len() == 0 {
        literals(lit)
    } else {
        let run = run_of(s, s[0], 130);
        if 3 <= run <= s.len() {
            literals(lit) + seq![(125 + run) as u8, s[0]] + rle_text(s.skip(run as int), Seq::empty())
        } else {
            rle_text(s.drop_first(), lit.push(s[0]))
        }
    }
}

/// What run-length tokens stand for.
pub open spec fn rle_plain(t: Seq<u8>) -> Plain
    decreases t.len(),
{
    if t.len() == 0 {
        Ok(Seq::empty())
    } else if t[0] < 128 {
        let n = t[0] as int + 1;
        if t.len() < 1 + n {
            Err(DecompressError::Truncated)
        } else {
            joined(t.subrange(1, 1 + n), rle_plain(t.skip(1 + n)))
        }
    } else if t.len() < 2 {
        Err(DecompressError::Truncated)
    } else {
        let b = t[1];
        joined(Seq::new((t[0] - 125) as nat, |i: int| b), rle_plain(t.skip(2)))
    }
}

proof fn lemma_run_of(s: Seq<u8>, b: u8, cap: nat)
    ensures
        run_of(s, b, cap) <= s.len(),
        run_of(s, b, cap) <= cap,
        forall|i: int| 0 <= i < run_of(s, b, cap) ==> #[trigger] s[i] == b,
        s.len() > 0 && cap > 0 && s[0] == b ==> run_of(s, b, cap) > 0,
    decreases cap,
{
    if s.len() > 0 && cap > 0 && s[0] == b {
        let t = s.drop_first();
        lemma_run_of(t, b, (cap - 1) as nat);
        assert forall|i: int| 0 <= i < run_of(s, b, cap) implies #[trigger] s[i] == b by {
            if i > 0 {
                assert(s[i] == t[i - 1]);
            }
        }
    }
}

proof fn lemma_run_is(s: Seq<u8>, b: u8, cap: nat, r: nat)
    requires
        r <= s.len(),
        r <= cap,
        forall|i: int| 0 <= i < r ==> #[trigger] s[i] == b,
        r == s.len() || r == cap || s[r as int] != b,
    ensures
        run_of(s, b, cap) == r,
    decreases cap,
{
    if r > 0 {
        let t = s.drop_first();
        assert(s[0] == b);
        assert forall|i: int| 0 <= i < r - 1 implies #[trigger] t[i] == b by {
            assert(t[i] == s[i + 1]);
        }
        lemma_run_is(t, b, (cap - 1) as nat, (r - 1) as nat);
    }
}

proof fn lemma_joined(a: Seq<u8>, b: Seq<u8>, m: Plain)
    ensures
        joined(a, joined(b, m)) == joined(a + b, m),
{
    if let Ok(c) = m {
        assert(a + (b + c) =~= a + b + c);
    }
}

proof fn lemma_literals(s: Seq<u8>, rest: Seq<u8>)
    ensures
        rle_plain(literals(s) + rest) == joined(s, rle_plain(rest)),
    decreases s.len(),
{
    let t = literals(s) + rest;
    if s.len() == 0 {
        assert(t =~= rest);
        if let Ok(r) = rle_plain(rest) {
            assert(s + r =~= r);
        }
    } else if s.len() <= 128 {
        assert(t.subrange(1, 1 + s.len() as int) =~= s);
        assert(t.skip(1 + s.len() as int) =~= rest);
    } else {
        let h = s.subrange(0, 128);
        let l = s.skip(128);
        lemma_literals(l, rest);
        assert(t.subrange(1, 129) =~= h);
        assert(t.skip(129) =~= literals(l) + rest);
        lemma_joined(h, l, rle_plain(rest));
        assert(h + l =~= s);
    }
}

proof fn lemma_rle_text(s: Seq<u8>, lit: Seq<u8>)
    ensures
        rle_plain(rle_text(s, lit)) == Ok::<Seq<u8>, DecompressError>(lit + s),
    decreases s.len(),
{
    let e = Seq::<u8>::empty();
    if s.len() == 0 {
        lemma_literals(lit, e);
        assert(literals(lit) + e =~= literals(lit));
        assert(rle_plain(e) == Ok::<Seq<u8>, DecompressError>(e));
        assert(lit + e =~= lit + s);
    } else {
        let run = run_of(s, s[0], 130);
        lemma_run_of(s, s[0], 130);
        if 3 <= run <= s.len() {
            let r = s.skip(run as int);
            lemma_rle_text(r, e);
            let b = s[0];
            let tail = seq![(125 + run) as u8, b] + rle_text(r, e);
            assert(tail.skip(2) =~= rle_text(r, e));
            let rep = Seq::new(run, |i: int| b);
            assert(rep =~= s.subrange(0, run as int));
            assert(rle_plain(tail) == joined(rep, rle_plain(rle_text(r, e))));
            assert(rep + (e + r) =~= s);
            lemma_literals(lit, tail);
            assert(rle_text(s, lit) =~= literals(lit) + tail);
        } else {
            lemma_rle_text(s.drop_first(), lit.push(s[0]));
            assert(lit.push(s[0]) + s.drop_first() =~= lit + s);
        }
    }
}

/// Run-length encoding round-trips.
pub proof fn lemma_rle_round_trip(s: Seq<u8>)
    ensures
        rle_plain(rle_text(s, Seq::empty())) == Ok::<Seq<u8>, DecompressError>(s),
{
    lemma_rle_text(s, Seq::empty());
    assert(Seq::<u8>::empty() + s =~= s);
}

/// A run of literals takes a control byte for every 128 bytes begun.
proof fn lemma_literals_len(s: Seq<u8>)
    ensures
        literals(s).len() == s.len() + (s.len() + 127) / 128,
    decreases s.len(),
{
    if s.len() > 128 {
        lemma_literals_len(s.skip(128));
    }
}

proof fn lemma_rle_len(s: Seq<u8>, lit: Seq<u8>)
    ensures
        rle_text(s, lit).len() <= s.len() + lit.len() + (s.len() + lit.len() + 127) / 128,
    decreases s.len(),
{
    lemma_literals_len(lit);
    if s.len() > 0 {
        let run = run_of(s, s[0], 130);
        if 3 <= run <= s.len() {
            lemma_rle_len(s.skip(run as int), Seq::empty());
        } else {
            lemma_rle_len(s.drop_first(), lit.push(s[0]));
        }
    }
}

/// Run-length encoding never grows the input by more than one control byte per 128
/// bytes.
pub proof fn lemma_rle_bound(s: Seq<u8>)
    ensures
        rle_text(s, Seq::empty()).len() <= s.len() + (s.len() + 127) / 128,
{
    lemma_rle_len(s, Seq::empty());
}

/// Append literal runs of a range of the input.
fn flush_literals(out: &mut Vec<u8>, input: &[u8], from: usize, to: usize)
    requires
        from <= to <= input@.len(),
    ensures
        final(out)@ == old(out)@ + literals(input@.subrange(from as int, to as int)),
{
    let mut s: usize = from;
    let ghost all = literals(input@.subrange(from as int, to as int));
    while s < to
        invariant
            from <= s <= to,
            to <= input@.len(),
            out@ + literals(input@.subrange(s as int, to as int)) == old(out)@ + all,
        decreases to - s,
    {
        let ghost o = out@;
        let ghost l = input@.subrange(s as int, to as int);
        let chunk: usize = if to - s < 128 {
            to - s
        } else {
            128
        };
        out.push((chunk - 1) as u8);
        let part = bytes::copy_range(input, s, s + chunk);
        bytes::put_bytes(out, part.as_slice());
        proof {
            assert(l.skip(chunk as int) =~= input@.subrange(s + chunk, to as int));
            assert(part@ =~= l.subrange(0, chunk as int));
            if l.len() <= 128 {
                assert(l.subrange(0, chunk as int) =~= l);
                assert(literals(l.skip(chunk as int)) =~= Seq::<u8>::empty());
            }
            assert(out@ + literals(l.skip(chunk as int)) =~= o + literals(l));
        }
        s += chunk;
    }
    assert(out@ + literals(input@.subrange(s as int, to as int)) =~= out@);
}

/// Byte run-length encoding.
///
/// Encoding is a sequence of tokens. A control byte `c`:
/// - `c < 128`: a literal run; the next `c + 1` bytes are copied verbatim.
/// - `c >= 128`: a repeat run; the following byte is repeated `c - 128 + 3`
///   times (repeats are only emitted for runs of length >= 3).
pub fn rle_compress(input: &[u8]) -> (out: Vec<u8>)
    ensures
        out@ == rle_text(input@, Seq::empty()),
        out@.len() <= input@.len() + (input@.len() + 127) / 128,
{
    proof {
        lemma_rle_bound(input@);
    }
    let mut out: Vec<u8> = Vec::new();
    let n: usize = input.len();
    let mut i: usize = 0;
    let mut start: usize = 0;
    let ghost all = rle_text(input@, Seq::empty());
    proof {
        assert(input@.skip(0) =~= input@);
        assert(input@.subrange(0, 0) =~= Seq::<u8>::empty());
        assert(out@ + all =~= all);
    }
    while i < n
        invariant
            start <= i <= n,
            n == input@.len(),
            out@ + rle_text(input@.skip(i as int), input@.subrange(start as int, i as int)) == all,
        decreases n - i,
    {
        let ghost s = input@.skip(i as int);
        let ghost lit = input@.subrange(start as int, i as int);
        let ghost o = out@;
        let b: u8 = input[i];
        let mut run: usize = 1;
        while i + run < n && input[i + run] == b && run < 130
            invariant
                1 <= run <= 130,
                i + run <= n,
                i < n,
                n == input@.len(),
                s == input@.skip(i as int),
                forall|j: int| 0 <= j < run ==> #[trigger] s[j] == b,
            decreases n - run,
        {
            assert(s[run as int] == b);
            run += 1;
        }
        proof {
            lemma_run_is(s, b, 130, run as nat);
        }
        if run >= 3 {
            flush_literals(&mut out, input, start, i);
            out.push((125 + run) as u8);
            out.push(b);
            proof {
                assert(s.skip(run as int) =~= input@.skip(i + run));
                assert(input@.subrange(i + run, i + run) =~= Seq::<u8>::empty());
                assert(out@ + rle_text(s.skip(run as int), Seq::empty()) =~= o + rle_text(s, lit));
            }
            i += run;
            start = i;
        } else {
            proof {
                assert(s.drop_first() =~= input@.skip(i + 1));
                assert(lit.push(s[0]) =~= input@.subrange(start as int, i + 1));
            }
            i += 1;
        }
    }
    flush_literals(&mut out, input, start, n);
    out
}

/// Inverse of [`rle_compress`].
pub fn rle_decompress(input: &[u8]) -> (r: Result<Vec<u8>, DecompressError>)
    ensures
        agrees(r, rle_plain(input@)),
{
    let mut out: Vec<u8> = Vec::new();
    let n: usize = input.len();
    let mut i: usize = 0;
    let ghost all = rle_plain(input@);
    proof {
        assert(input@.skip(0) =~= input@);
        if all is Ok {
            assert(out@ + all->Ok_0 =~= all->Ok_0);
        }
    }
    while i < n
        invariant
            i <= n,
            n == input@.len(),
            all == rle_plain(input@),
            joined(out@, rle_plain(input@.skip(i as int))) == all,
        decreases n - i,
    {
        let ghost t = input@.skip(i as int);
        let ghost o = out@;
        let c: u8 = input[i];
        if c < 128 {
            let count: usize = c as usize + 1;
            if n - i - 1 < count {
                return Err(DecompressError::Truncated);
            }
            let part = bytes::copy_range(input, i + 1, i + 1 + count);
            bytes::put_bytes(&mut out, part.as_slice());
            proof {
                assert(part@ =~= t.subrange(1, 1 + count));
                assert(t.skip(1 + count) =~= input@.skip(i + 1 + count));
                lemma_joined(o, part@, rle_plain(t.skip(1 + count)));
            }
            i += 1 + count;
        } else {
            let count: usize = (c - 125) as usize;
            if n - i < 2 {
                return Err(DecompressError::Truncated);
            }
            let b: u8 = input[i + 1];
            let mut k: usize = 0;
            while k < count
                invariant
                    k <= count,
                    out@.len() == o.len() + k,
                    forall|j: int| 0 <= j < o.len() ==> out@[j] == o[j],
                    forall|j: int| o.len() <= j < out@.len() ==> #[trigger] out@[j] == b,
                decreases count - k,
            {
                out.push(b);
                k += 1;
            }
            proof {
                let rep = Seq::new(count as nat, |i: int| b);
                assert(out@ =~= o + rep);
                assert(t.skip(2) =~= input@.skip(i + 2));
                lemma_joined(o, rep, rle_plain(t.skip(2)));
            }
            i += 2;
        }
    }
    assert(out@ + Seq::<u8>::empty() =~= out@);
    Ok(out)
}

// LZ77

/// How far back a reference reaches.
pub const LZ_WINDOW: usize = 4096;

/// The shortest reference.
pub const LZ_MIN_MATCH: usize = 4;

/// The longest reference.
pub const LZ_MAX_MATCH: usize = 259;

/// How many bytes from `a` on equal those from `b` on, at most `cap`.
pub open spec fn common(s: Seq<u8>, a: int, b: int, cap: nat) -> nat
    decreases cap,
{
    if cap == 0 || s[a] != s[b] {
        0
    } else {
        1 + common(s, a + 1, b + 1, (cap - 1) as nat)
    }
}

/// The most that a reference at `pos` can copy.
pub open spec fn match_cap(s: Seq<u8>, pos: int) -> nat {
    if s.len() - pos < LZ_MAX_MATCH {
        (s.len() - pos) as nat
    } else {
        LZ_MAX_MATCH as nat
    }
}

/// The start of the window before `pos`.
pub open spec fn window_start(pos: int) -> int {
    if pos < LZ_WINDOW {
        0
    } else {
        pos - LZ_WINDOW
    }
}

/// The distance and length of the longest match for `pos` that starts in the
/// window before `end`; of equally long ones, the farthest.
pub open spec fn best_match(s: Seq<u8>, pos: int, end: int) -> (int, nat)
    decreases end,
{
    if end <= window_start(pos) {
        (0, 0)
    } else {
        let b = best_match(s, pos, end - 1);
        let l = common(s, end - 1, pos, match_cap(s, pos));
        if l > b.1 {
            (pos - (end - 1), l)
        } else {
            b
        }
    }
}

/// The reference for `pos`; the length is zero where there is room for none.
pub open spec fn reference(s: Seq<u8>, pos: int) -> (int, nat) {
    if match_cap(s, pos) < LZ_MIN_MATCH {
        (0, 0)
    } else {
        best_match(s, pos, pos)
    }
}

/// Up to `left` units from `i` on: the control bits (first unit lowest), the
/// bytes of the units, and where they end. A reference is a two-byte
/// little-endian distance and its length less the minimum.
pub open spec fn lz_units(s: Seq<u8>, i: int, left: nat) -> (nat, Seq<u8>, int)
    decreases left,
{
    if left == 0 || i >= s.len() {
        (0, Seq::empty(), i)
    } else {
        let (dist, len) = reference(s, i);
        if len >= LZ_MIN_MATCH {
            let r = lz_units(s, i + len, (left - 1) as nat);
            (
                1 + 2 * r.0,
                seq![(dist % 256) as u8, (dist / 256) as u8, (len - LZ_MIN_MATCH) as u8] + r.1,
                r.2,
            )
        } else {
            let r = lz_units(s, i + 1, (left - 1) as nat);
            (2 * r.0, seq![s[i]] + r.1, r.2)
        }
    }
}

/// The compressed form of `s` from `i` on: a control byte and eight units at a
/// time.
pub open spec fn lz_text(s: Seq<u8>, i: int) -> Seq<u8>
    decreases s.len() - i,
{
    if i >= s.len() {
        Seq::empty()
    } else {
        let g = lz_units(s, i, 8);
        if g.2 <= i || g.2 > s.len() {
            Seq::empty()
        } else {
            seq![g.0 as u8] + g.1 + lz_text(s, g.2)
        }
    }
}

/// `out` followed by `len` bytes, each copied from `dist` places before it.
pub open spec fn repeated(out: Seq<u8>, dist: int, len: nat) -> Seq<u8>
    decreases len,
{
    if len == 0 {
        out
    } else {
        repeated(out.push(out[out.len() - dist]), dist, (len - 1) as nat)
    }
}

/// Up to `left` units of `t` applied to `out`: what is left of the bytes, and
/// the result.
pub open spec fn lz_apply(t: Seq<u8>, control: nat, left: nat, out: Seq<u8>) -> Result<
    (Seq<u8>, Seq<u8>),
    DecompressError,
>
    decreases left,
{
    if left == 0 || t.len() == 0 {
        Ok((t, out))
    } else if control % 2 == 1 {
        if t.len() < 3 {
            Err(DecompressError::Truncated)
        } else {
            let dist = t[0] as int + 256 * t[1] as int;
            if dist == 0 || dist > out.len() {
                Err(DecompressError::Truncated)
            } else {
                lz_apply(
                    t.skip(3),
                    control / 2,
                    (left - 1) as nat,
                    repeated(out, dist, t[2] as nat + LZ_MIN_MATCH as nat),
                )
            }
        }
    } else {
        lz_apply(t.skip(1), control / 2, (left - 1) as nat, out.push(t[0]))
    }
}

/// What a compressed form stands for after `out`.
pub open spec fn lz_plain(t: Seq<u8>, out: Seq<u8>) -> Plain
    decreases t.len(),
{
    if t.len() == 0 {
        Ok(out)
    } else {
        match lz_apply(t.skip(1), t[0] as nat, 8, out) {
            Err(e) => Err(e),
            Ok((rest, o)) => if rest.len() < t.len() {
                lz_plain(rest, o)
            } else {
                Ok(o)
            },
        }
    }
}

/// The bytes `k` after `a` and `b` are equal.
pub open spec fn alike(s: Seq<u8>, a: int, b: int, k: int) -> bool {
    s[a + k] == s[b + k]
}

proof fn lemma_common(s: Seq<u8>, a: int, b: int, cap: nat)
    ensures
        common(s, a, b, cap) <= cap,
        forall|k: int| 0 <= k < common(s, a, b, cap) ==> #[trigger] alike(s, a, b, k),
        common(s, a, b, cap) < cap ==> s[a + common(s, a, b, cap)] != s[b + common(s, a, b, cap)],
    decreases cap,
{
    if cap > 0 && s[a] == s[b] {
        lemma_common(s, a + 1, b + 1, (cap - 1) as nat);
        let n = common(s, a, b, cap);
        assert forall|k: int| 0 <= k < n implies #[trigger] alike(s, a, b, k) by {
            if k > 0 {
                assert(alike(s, a + 1, b + 1, k - 1));
            }
        }
    }
}

proof fn lemma_common_is(s: Seq<u8>, a: int, b: int, cap: nat, n: nat)
    requires
        n <= cap,
        forall|k: int| 0 <= k < n ==> #[trigger] alike(s, a, b, k),
        n == cap || s[a + n] != s[b + n],
    ensures
        common(s, a, b, cap) == n,
{
    lemma_common(s, a, b, cap);
    let m = common(s, a, b, cap);
    if m < n {
        assert(alike(s, a, b, m as int));
    }
    if n < m {
        assert(alike(s, a, b, n as int));
    }
}

proof fn lemma_best_match(s: Seq<u8>, pos: int, end: int)
    requires
        0 <= pos <= s.len(),
        end <= pos,
    ensures
        ({
            let (dist, len) = best_match(s, pos, end);
            &&& len <= match_cap(s, pos)
            &&& len > 0 ==> 0 < dist <= LZ_WINDOW && dist <= pos
            &&& forall|k: int| 0 <= k < len ==> #[trigger] alike(s, pos - dist, pos, k)
        }),
    decreases end,
{
    if end > window_start(pos) {
        lemma_best_match(s, pos, end - 1);
        lemma_common(s, end - 1, pos, match_cap(s, pos));
        let (dist, len) = best_match(s, pos, end);
        assert forall|k: int| 0 <= k < len implies #[trigger] alike(s, pos - dist, pos, k) by {
            let b = best_match(s, pos, end - 1);
            let l = common(s, end - 1, pos, match_cap(s, pos));
            if l > b.1 {
                assert(alike(s, end - 1, pos, k));
            }
        }
    }
}

proof fn lemma_reference(s: Seq<u8>, pos: int)
    requires
        0 <= pos <= s.len(),
    ensures
        ({
            let (dist, len) = reference(s, pos);
            &&& pos + len <= s.len()
            &&& len <= LZ_MAX_MATCH
            &&& len > 0 ==> 0 < dist <= LZ_WINDOW && dist <= pos
            &&& forall|k: int| 0 <= k < len ==> #[trigger] alike(s, pos - dist, pos, k)
        }),
{
    lemma_best_match(s, pos, pos);
}

/// Copying a match extends the prefix.
proof fn lemma_repeated(s: Seq<u8>, pos: int, dist: int, len: nat)
    requires
        0 < dist <= pos,
        pos + len <= s.len(),
        forall|k: int| 0 <= k < len ==> #[trigger] alike(s, pos - dist, pos, k),
    ensures
        repeated(s.subrange(0, pos), dist, len) == s.subrange(0, pos + len),
    decreases len,
{
    if len > 0 {
        let o = s.subrange(0, pos);
        assert(alike(s, pos - dist, pos, 0));
        assert(o.push(o[o.len() - dist]) =~= s.subrange(0, pos + 1));
        assert forall|k: int| 0 <= k < len - 1 implies #[trigger] alike(s, pos + 1 - dist, pos + 1, k) by {
            assert(alike(s, pos - dist, pos, k + 1));
        }
        lemma_repeated(s, pos + 1, dist, (len - 1) as nat);
    }
}

proof fn lemma_lz_units(s: Seq<u8>, i: int, left: nat, rest: Seq<u8>)
    requires
        0 <= i <= s.len(),
        lz_units(s, i, left).2 >= s.len() ==> rest.len() == 0,
    ensures
        ({
            let g = lz_units(s, i, left);
            &&& i <= g.2 <= s.len()
            &&& left > 0 && i < s.len() ==> g.2 > i
            &&& g.0 < bits::pow2(left)
            &&& lz_apply(g.1 + rest, g.0, left, s.subrange(0, i)) == Ok::<(Seq<u8>, Seq<u8>), DecompressError>(
                (rest, s.subrange(0, g.2)),
            )
        }),
    decreases left,
{
    let g = lz_units(s, i, left);
    let t = g.1 + rest;
    let o = s.subrange(0, i);
    if left == 0 || i >= s.len() {
        assert(t =~= rest);
        bits::lemma_pow2_pos(left);
    } else {
        let (dist, len) = reference(s, i);
        lemma_reference(s, i);
        if len >= LZ_MIN_MATCH {
            lemma_lz_units(s, i + len, (left - 1) as nat, rest);
            let r = lz_units(s, i + len, (left - 1) as nat);
            assert(t[0] == (dist % 256) as u8 && t[1] == (dist / 256) as u8 && t[2] == (len - LZ_MIN_MATCH) as u8);
            assert(t.skip(3) =~= r.1 + rest);
            lemma_repeated(s, i, dist, len);
            assert(g.0 % 2 == 1 && g.0 / 2 == r.0);
        } else {
            lemma_lz_units(s, i + 1, (left - 1) as nat, rest);
            let r = lz_units(s, i + 1, (left - 1) as nat);
            assert(t.skip(1) =~= r.1 + rest);
            assert(o.push(s[i]) =~= s.subrange(0, i + 1));
            assert(g.0 % 2 == 0 && g.0 / 2 == r.0);
        }
    }
}

proof fn lemma_lz_text(s: Seq<u8>, i: int)
    requires
        0 <= i <= s.len(),
    ensures
        lz_plain(lz_text(s, i), s.subrange(0, i)) == Ok::<Seq<u8>, DecompressError>(s),
        i >= s.len() ==> lz_text(s, i).len() == 0,
    decreases s.len() - i,
{
    let t = lz_text(s, i);
    if i >= s.len() {
        assert(s.subrange(0, i) =~= s);
    } else {
        let g = lz_units(s, i, 8);
        let e = Seq::<u8>::empty();
        let rest = if g.2 > i {
            lz_text(s, g.2)
        } else {
            e
        };
        if g.2 >= s.len() && g.2 > i {
            assert(rest =~= e);
        }
        lemma_lz_units(s, i, 8, rest);
        bits::lemma_pow2_values();
        lemma_lz_text(s, g.2);
        assert(t.skip(1) =~= g.1 + rest);
        assert(t[0] as nat == g.0);
    }
}

/// LZ compression round-trips.
pub proof fn lemma_lz_round_trip(s: Seq<u8>)
    ensures
        lz_plain(lz_text(s, 0), Seq::empty()) == Ok::<Seq<u8>, DecompressError>(s),
{
    lemma_lz_text(s, 0);
    assert(s.subrange(0, 0) =~= Seq::<u8>::empty());
}

/// A small LZ77-style compressor.
///
/// The token stream alternates a control byte with 8 following units. Each bit
/// of the control byte (LSB first) says whether the corresponding unit is a
/// literal (0) or a back-reference (1). A literal is one byte. A back-reference
/// is a 2-byte little-endian distance followed by a 1-byte `(len - MIN_MATCH)`.
pub fn lz_compress(input: &[u8]) -> (out: Vec<u8>)
    ensures
        out@ == lz_text(input@, 0),
{
    let mut out: Vec<u8> = Vec::new();
    let n: usize = input.len();
    let mut i: usize = 0;
    let ghost all = lz_text(input@, 0);
    assert(out@ + all =~= all);
    while i < n
        invariant
            i <= n,
            n == input@.len(),
            out@ + lz_text(input@, i as int) == all,
        decreases n - i,
    {
        let ghost g = lz_units(input@, i as int, 8);
        let ghost i0 = i as int;
        let ghost o = out@;
        proof {
            lemma_lz_units(input@, i as int, 8, if g.2 >= n {
                Seq::empty()
            } else {
                seq![0u8]
            });
            bits::lemma_pow2_values();
        }
        let mut unit: Vec<u8> = Vec::new();
        let mut control: u32 = 0;
        let mut weight: u32 = 1;
        let mut left: u32 = 8;
        assert(unit@ + g.1 =~= g.1);
        while left > 0 && i < n
            invariant
                i <= n,
                n == input@.len(),
                left <= 8,
                weight == bits::pow2((8 - left) as nat),
                weight <= 256,
                control < weight,
                unit@ + lz_units(input@, i as int, left as nat).1 == g.1,
                lz_units(input@, i as int, left as nat).2 == g.2,
                control + weight * lz_units(input@, i as int, left as nat).0 == g.0,
            decreases left,
        {
            let ghost u = unit@;
            let ghost r = lz_units(input@, i as int, left as nat);
            proof {
                lemma_reference(input@, i as int);
                bits::lemma_pow2_values();
                bits::lemma_pow2_mono((8 - left + 1) as nat, 8);
                assert(weight <= 128) by {
                    bits::lemma_pow2_mono((8 - left) as nat, 7);
                    assert(bits::pow2(8) == 2 * bits::pow2(7));
                }
            }
            let (dist, len) = longest_match(input, i);
            if len >= LZ_MIN_MATCH {
                let ghost q = lz_units(input@, i + len, (left - 1) as nat);
                unit.push((dist % 256) as u8);
                unit.push((dist / 256) as u8);
                unit.push((len - LZ_MIN_MATCH) as u8);
                proof {
                    assert(unit@ + q.1 =~= u + r.1);
                    let w = weight as int;
                    let x = q.0 as int;
                    assert(control + w * (1 + 2 * x) == control + w + (2 * w) * x) by (nonlinear_arith);
                }
                control = control + weight;
                i += len;
            } else {
                let ghost q = lz_units(input@, i + 1, (left - 1) as nat);
                unit.push(input[i]);
                proof {
                    assert(unit@ + q.1 =~= u + r.1);
                    let w = weight as int;
                    let x = q.0 as int;
                    assert(control + w * (2 * x) == control + (2 * w) * x) by (nonlinear_arith);
                }
                i += 1;
            }
            weight = weight * 2;
            left -= 1;
        }
        proof {
            let z = lz_units(input@, i as int, left as nat);
            assert(z.0 == 0 && z.2 == i && z.1 =~= Seq::<u8>::empty());
            assert(weight * z.0 == 0) by (nonlinear_arith)
                requires
                    z.0 == 0,
            ;
            assert(unit@ + z.1 =~= unit@);
        }
        out.push(control as u8);
        bytes::put_bytes(&mut out, unit.as_slice());
        assert(out@ + lz_text(input@, i as int) =~= o + lz_text(input@, i0));
    }
    assert(out@ + lz_text(input@, i as int) =~= out@);
    out
}

/// Find the longest back-reference for the suffix starting at `pos`.
fn longest_match(input: &[u8], pos: usize) -> (r: (usize, usize))
    requires
        pos < input@.len(),
    ensures
        r.0 == reference(input@, pos as int).0,
        r.1 == reference(input@, pos as int).1,
{
    let n: usize = input.len();
    let window: usize = if pos < LZ_WINDOW {
        0
    } else {
        pos - LZ_WINDOW
    };
    let max_len: usize = if n - pos < LZ_MAX_MATCH {
        n - pos
    } else {
        LZ_MAX_MATCH
    };
    if max_len < LZ_MIN_MATCH {
        return (0, 0);
    }
    let mut best_len: usize = 0;
    let mut best_dist: usize = 0;
    let mut cand: usize = window;
    while cand < pos && best_len < max_len
        invariant
            window == window_start(pos as int),
            window <= cand <= pos,
            pos < input@.len(),
            n == input@.len(),
            max_len == match_cap(input@, pos as int),
            best_len <= max_len,
            best_dist == best_match(input@, pos as int, cand as int).0,
            best_len == best_match(input@, pos as int, cand as int).1,
        decreases pos - cand,
    {
        let mut l: usize = 0;
        while l < max_len && input[cand + l] == input[pos + l]
            invariant
                l <= max_len,
                cand < pos,
                pos + max_len <= n,
                n == input@.len(),
                forall|k: int| 0 <= k < l ==> #[trigger] alike(input@, cand as int, pos as int, k),
            decreases max_len - l,
        {
            l += 1;
        }
        proof {
            lemma_common_is(input@, cand as int, pos as int, max_len as nat, l as nat);
        }
        if l > best_len {
            best_len = l;
            best_dist = pos - cand;
        }
        cand += 1;
    }
    proof {
        lemma_full_match(input@, pos as int, cand as int, pos as int);
    }
    (best_dist, best_len)
}

/// A match of full length is not improved on.
proof fn lemma_full_match(s: Seq<u8>, pos: int, a: int, b: int)
    requires
        window_start(pos) <= a <= b <= pos,
        a == b || best_match(s, pos, a).1 >= match_cap(s, pos),
    ensures
        best_match(s, pos, b) == best_match(s, pos, a),
    decreases b - a,
{
    if a < b {
        lemma_full_match(s, pos, a, b - 1);
        lemma_common(s, b - 1, pos, match_cap(s, pos));
    }
}

/// Inverse of [`lz_compress`]. The result takes no account of `hint`, the
/// expected length.
pub fn lz_decompress(input: &[u8], hint: usize) -> (r: Result<Vec<u8>, DecompressError>)
    ensures
        agrees(r, lz_plain(input@, Seq::empty())),
{
    let mut out: Vec<u8> = Vec::new();
    let n: usize = input.len();
    let mut i: usize = 0;
    let ghost all = lz_plain(input@, Seq::empty());
    assert(input@.skip(0) =~= input@);
    while i < n
        invariant
            i <= n,
            n == input@.len(),
            all == lz_plain(input@, Seq::empty()),
            lz_plain(input@.skip(i as int), out@) == all,
        decreases n - i,
    {
        let ghost t = input@.skip(i as int);
        let ghost o = out@;
        let mut control: u8 = input[i];
        let ghost whole = lz_apply(t.skip(1), control as nat, 8, o);
        let ghost i0 = i as int;
        i += 1;
        let mut left: u32 = 8;
        assert(t.skip(1) =~= input@.skip(i as int));
        while left > 0 && i < n
            invariant
                i0 < i <= n,
                n == input@.len(),
                left <= 8,
                t == input@.skip(i0),
                0 <= i0,
                t[0] == input@[i0],
                whole == lz_apply(t.skip(1), t[0] as nat, 8, o),
                lz_apply(input@.skip(i as int), control as nat, left as nat, out@) == whole,
                all == lz_plain(input@, Seq::empty()),
                lz_plain(t, o) == all,
            decreases left,
        {
            let ghost u = input@.skip(i as int);
            let ghost o1 = out@;
            if control % 2 == 1 {
                if n - i < 3 {
                    return Err(DecompressError::Truncated);
                }
                let dist: usize = input[i] as usize + 256 * input[i + 1] as usize;
                let len: usize = input[i + 2] as usize + LZ_MIN_MATCH;
                if dist == 0 || dist > out.len() {
                    return Err(DecompressError::Truncated);
                }
                let mut k: usize = 0;
                while k < len
                    invariant
                        k <= len,
                        0 < dist <= out@.len(),
                        repeated(out@, dist as int, (len - k) as nat) == repeated(o1, dist as int, len as nat),
                    decreases len - k,
                {
                    let b: u8 = out[out.len() - dist];
                    out.push(b);
                    k += 1;
                }
                assert(u.skip(3) =~= input@.skip(i + 3));
                i += 3;
            } else {
                out.push(input[i]);
                assert(u.skip(1) =~= input@.skip(i + 1));
                i += 1;
            }
            control = control / 2;
            left -= 1;
        }
    }
    Ok(out)
}

// Frames

/// The body of a frame.
pub open spec fn body_of(codec: Codec, s: Seq<u8>) -> Seq<u8> {
    match codec {
        Codec::Store => s,
        Codec::Rle => rle_text(s, Seq::empty()),
        Codec::Lz => lz_text(s, 0),
    }
}

/// A frame: `[magic][codec][u32 orig_len][body]`.
pub open spec fn framed(codec: Codec, s: Seq<u8>) -> Seq<u8> {
    seq![FRAME_MAGIC, codec.spec_tag()] + bytes::le32(s.len() as u32) + body_of(codec, s)
}

/// What a frame stands for.
pub open spec fn unframed(t: Seq<u8>) -> Plain {
    if t.len() < 6 || t[0] != FRAME_MAGIC {
        Err(DecompressError::ShortHeader)
    } else {
        match Codec::spec_from_tag(t[1]) {
            None => Err(DecompressError::BadCodec(t[1])),
            Some(codec) => {
                let n = bytes::u32_at(t, 2);
                let body = t.skip(6);
                let plain = match codec {
                    Codec::Store => Ok(body),
                    Codec::Rle => rle_plain(body),
                    Codec::Lz => lz_plain(body, Seq::empty()),
                };
                match plain {
                    Err(e) => Err(e),
                    Ok(s) => if s.len() != n {
                        Err(DecompressError::LengthMismatch { expected: n as usize, got: s.len() as usize })
                    } else {
                        Ok(s)
                    },
                }
            },
        }
    }
}

/// Every framed block whose length fits its field round-trips exactly.
pub proof fn lemma_frame_round_trip(codec: Codec, s: Seq<u8>)
    requires
        s.len() <= u32::MAX,
    ensures
        unframed(framed(codec, s)) == Ok::<Seq<u8>, DecompressError>(s),
{
    let t = framed(codec, s);
    let h = seq![FRAME_MAGIC, codec.spec_tag()];
    bytes::lemma_u32_between(h, s.len() as u32, body_of(codec, s));
    assert(t.skip(6) =~= body_of(codec, s));
    assert(t[0] == FRAME_MAGIC && t[1] == codec.spec_tag());
    lemma_rle_round_trip(s);
    lemma_lz_round_trip(s);
}

/// The shortest frame; of equally short ones the first in the order store,
/// run-length, LZ.
pub open spec fn best_codec(s: Seq<u8>) -> Codec {
    let a = framed(Codec::Store, s).len();
    let b = framed(Codec::Rle, s).len();
    let c = framed(Codec::Lz, s).len();
    if a <= b && a <= c {
        Codec::Store
    } else if b <= c {
        Codec::Rle
    } else {
        Codec::Lz
    }
}

/// Frame a compressed block: `[magic][codec][u32 orig_len][body]`.
pub fn frame(codec: Codec, input: &[u8]) -> (out: Vec<u8>)
    ensures
        out@ == framed(codec, input@),
{
    let mut out: Vec<u8> = Vec::new();
    out.push(FRAME_MAGIC);
    out.push(codec.tag());
    bytes::put_u32(&mut out, input.len() as u32);
    match codec {
        Codec::Store => {
            bytes::put_bytes(&mut out, input);
        },
        Codec::Rle => {
            let body = rle_compress(input);
            bytes::put_bytes(&mut out, body.as_slice());
        },
        Codec::Lz => {
            let body = lz_compress(input);
            bytes::put_bytes(&mut out, body.as_slice());
        },
    }
    assert(out@ =~= framed(codec, input@));
    out
}

/// Compress with every codec and keep the smallest frame.
pub fn compress_best(input: &[u8]) -> (out: Vec<u8>)
    ensures
        out@ == framed(best_codec(input@), input@),
        forall|codec: Codec| out@.len() <= #[trigger] framed(codec, input@).len(),
{
    let a = frame(Codec::Store, input);
    let b = frame(Codec::Rle, input);
    let c = frame(Codec::Lz, input);
    proof {
        assert forall|codec: Codec| framed(best_codec(input@), input@).len() <= #[trigger] framed(
            codec,
            input@,
        ).len() by {
            match codec {
                Codec::Store => {},
                Codec::Rle => {},
                Codec::Lz => {},
            }
        }
    }
    if a.len() <= b.len() && a.len() <= c.len() {
        a
    } else if b.len() <= c.len() {
        b
    } else {
        c
    }
}

/// Decode a framed block back to the original bytes.
pub fn unframe(input: &[u8]) -> (r: Result<Vec<u8>, DecompressError>)
    ensures
        agrees(r, unframed(input@)),
{
    if input.len() < 6 {
        return Err(DecompressError::ShortHeader);
    }
    if input[0] != FRAME_MAGIC {
        return Err(DecompressError::ShortHeader);
    }
    let codec = match Codec::from_tag(input[1]) {
        Some(c) => c,
        None => {
            return Err(DecompressError::BadCodec(input[1]));
        },
    };
    let orig_len: usize = bytes::get_u32(input, 2) as usize;
    let body = bytes::copy_range(input, 6, input.len());
    assert(body@ =~= input@.skip(6));
    let plain = match codec {
        Codec::Store => Ok(body),
        Codec::Rle => rle_decompress(body.as_slice()),
        Codec::Lz => lz_decompress(body.as_slice(), orig_len),
    };
    match plain {
        Err(e) => Err(e),
        Ok(out) => {
            if out.len() != orig_len {
                Err(DecompressError::LengthMismatch { expected: orig_len, got: out.len() })
            } else {
                Ok(out)
            }
        },
    }
}

} // verus!
