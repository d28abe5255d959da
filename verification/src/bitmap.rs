//! A bitmap index.
//!
//! A bitmap index stores, for each distinct value in a column, a bitmap whose
//! `i`-th bit is set iff row `i` carries that value. Bitmap indexes are ideal
//! for low-cardinality columns and for combining multiple equality predicates
//! with bitwise AND/OR. This implementation stores bitmaps as run-length-
//! encoded word arrays (a simple WAH-like scheme) so sparse bitmaps stay small.

use vstd::prelude::*;
use crate::words;
use crate::order;
use crate::bytes;
use crate::bits;
use std::collections::BTreeMap;

verus! {

broadcast use {vstd::std_specs::btree::group_btree_axioms, bytes::group_le_len};

/// The high bit of a stored word. It is set in a fill run and clear in a
/// literal.
pub const FLAG_BIT: u64 = 0x8000_0000_0000_0000;

/// The greatest literal; a fill run of ones stands for words of this value.
pub const LITERAL_MAX: u64 = 0x7fff_ffff_ffff_ffff;

/// The fill value of a fill run.
pub const FILL_BIT: u64 = 0x4000_0000_0000_0000;

/// A fill run of ones without words: the next literal has its high bit set.
pub const HIGH_MARK: u64 = 0xc000_0000_0000_0000;

/// The words of a fill run.
pub open spec fn fill(w: u64) -> Seq<u64> {
    let v: u64 = if w - FLAG_BIT >= FILL_BIT {
        LITERAL_MAX
    } else {
        0
    };
    Seq::new(((w - FLAG_BIT) % FILL_BIT as int) as nat, |i: int| v)
}

/// The literal words that stored words stand for. A word with a clear high bit
/// is a literal. A word with a set high bit is a fill run: bit 62 is the fill
/// value, bits 0..61 are the run length; an empty run of ones marks the next
/// literal as having its high bit set.
pub open spec fn expand(words: Seq<u64>, high: bool) -> Seq<u64>
    decreases words.len(),
{
    if words.len() == 0 {
        Seq::empty()
    } else {
        let w = words[0];
        let t = words.drop_first();
        if w == HIGH_MARK {
            expand(t, true)
        } else if w >= FLAG_BIT {
            fill(w) + expand(t, false)
        } else {
            seq![
                if high {
                    (w + FLAG_BIT) as u64
                } else {
                    w
                },
            ] + expand(t, false)
        }
    }
}

/// The number of leading words equal to `w`, at most `cap`.
pub open spec fn run_length(lit: Seq<u64>, w: u64, cap: nat) -> nat
    decreases cap,
{
    if lit.len() == 0 || cap == 0 || lit[0] != w {
        0
    } else {
        1 + run_length(lit.drop_first(), w, (cap - 1) as nat)
    }
}

/// The stored words of literal words.
pub open spec fn packed(lit: Seq<u64>) -> Seq<u64>
    decreases lit.len(),
{
    if lit.len() == 0 {
        Seq::empty()
    } else {
        let w = lit[0];
        if w == 0 || w == LITERAL_MAX {
            let run = run_length(lit, w, (FILL_BIT - 1) as nat);
            let r = if 0 < run <= lit.len() {
                run
            } else {
                1
            };
            let f: int = if w == 0 {
                0
            } else {
                FILL_BIT as int
            };
            seq![(FLAG_BIT + f + run) as u64] + packed(lit.skip(r as int))
        } else if w >= FLAG_BIT {
            seq![HIGH_MARK, (w - FLAG_BIT) as u64] + packed(lit.skip(1))
        } else {
            seq![w] + packed(lit.skip(1))
        }
    }
}

proof fn lemma_run_length(lit: Seq<u64>, w: u64, cap: nat)
    ensures
        run_length(lit, w, cap) <= lit.len(),
        run_length(lit, w, cap) <= cap,
        forall|i: int| 0 <= i < run_length(lit, w, cap) ==> #[trigger] lit[i] == w,
        lit.len() > 0 && cap > 0 && lit[0] == w ==> run_length(lit, w, cap) > 0,
    decreases cap,
{
    if lit.len() > 0 && cap > 0 && lit[0] == w {
        let t = lit.drop_first();
        lemma_run_length(t, w, (cap - 1) as nat);
        assert forall|i: int| 0 <= i < run_length(lit, w, cap) implies #[trigger] lit[i] == w by {
            if i > 0 {
                assert(lit[i] == t[i - 1]);
            }
        }
    }
}

/// A run that stops at `r` has that length.
proof fn lemma_run_is(lit: Seq<u64>, w: u64, cap: nat, r: nat)
    requires
        r <= lit.len(),
        r <= cap,
        forall|i: int| 0 <= i < r ==> #[trigger] lit[i] == w,
        r == lit.len() || r == cap || lit[r as int] != w,
    ensures
        run_length(lit, w, cap) == r,
    decreases cap,
{
    if r > 0 {
        let t = lit.drop_first();
        assert(lit[0] == w);
        assert forall|i: int| 0 <= i < r - 1 implies #[trigger] t[i] == w by {
            assert(t[i] == lit[i + 1]);
        }
        lemma_run_is(t, w, (cap - 1) as nat, (r - 1) as nat);
    }
}

/// Stored words stand for the words that were packed.
pub proof fn lemma_pack_expand(lit: Seq<u64>)
    ensures
        expand(packed(lit), false) == lit,
    decreases lit.len(),
{
    let p = packed(lit);
    if lit.len() > 0 {
        let w = lit[0];
        if w == 0 || w == LITERAL_MAX {
            let cap = (FILL_BIT - 1) as nat;
            let run = run_length(lit, w, cap);
            lemma_run_length(lit, w, cap);
            lemma_pack_expand(lit.skip(run as int));
            let f = p[0];
            assert(p.drop_first() =~= packed(lit.skip(run as int)));
            assert(fill(f) =~= lit.subrange(0, run as int));
            assert(lit =~= lit.subrange(0, run as int) + lit.skip(run as int));
        } else if w >= FLAG_BIT {
            lemma_pack_expand(lit.skip(1));
            let t = p.drop_first();
            let v = (w - FLAG_BIT) as u64;
            assert(t =~= seq![v] + packed(lit.skip(1)));
            assert(t.drop_first() =~= packed(lit.skip(1)));
            assert(expand(t, true) =~= seq![w] + lit.skip(1));
            assert(lit =~= seq![w] + lit.skip(1));
        } else {
            lemma_pack_expand(lit.skip(1));
            assert(p.drop_first() =~= packed(lit.skip(1)));
            assert(lit =~= seq![w] + lit.skip(1));
        }
    }
}

/// `n` words: those given, cut off or followed by zeros.
pub open spec fn fitted(e: Seq<u64>, n: nat) -> Seq<u64> {
    Seq::new(
        n,
        |i: int|
            if i < e.len() {
                e[i]
            } else {
                0
            },
    )
}

/// Compress a literal word array.
pub fn compress(lit: &Vec<u64>) -> (out: Vec<u64>)
    ensures
        out@ == packed(lit@),
{
    let mut out: Vec<u64> = Vec::new();
    let mut i: usize = 0;
    assert(lit@.skip(0) =~= lit@);
    while i < lit.len()
        invariant
            i <= lit@.len(),
            out@ + packed(lit@.skip(i as int)) == packed(lit@),
        decreases lit.len() - i,
    {
        let ghost o = out@;
        let ghost s = lit@.skip(i as int);
        let w: u64 = lit[i];
        if w == 0 || w == LITERAL_MAX {
            let cap: u64 = FILL_BIT - 1;
            let mut run: usize = 1;
            while i + run < lit.len() && lit[i + run] == w && (run as u64) < cap
                invariant
                    1 <= run,
                    i + run <= lit@.len(),
                    i < lit@.len(),
                    run <= cap,
                    cap == FILL_BIT - 1,
                    s == lit@.skip(i as int),
                    forall|j: int| 0 <= j < run ==> #[trigger] s[j] == w,
                decreases lit.len() - run,
            {
                assert(s[run as int] == w);
                run += 1;
            }
            proof {
                lemma_run_is(s, w, cap as nat, run as nat);
                assert(s.skip(run as int) =~= lit@.skip(i + run));
            }
            let f: u64 = if w == 0 {
                0
            } else {
                FILL_BIT
            };
            out.push(FLAG_BIT + f + run as u64);
            assert(out@ + packed(s.skip(run as int)) =~= o + packed(s));
            i += run;
        } else {
            assert(s.skip(1) =~= lit@.skip(i + 1));
            if w >= FLAG_BIT {
                out.push(HIGH_MARK);
                out.push(w - FLAG_BIT);
            } else {
                out.push(w);
            }
            assert(out@ + packed(s.skip(1)) =~= o + packed(s));
            i += 1;
        }
    }
    assert(out@ + packed(lit@.skip(i as int)) =~= out@);
    out
}

/// Decompress back to a literal word array of `ceil(len/64)` words.
pub fn decompress(words: &Vec<u64>, len: u64) -> (out: Vec<u64>)
    requires
        len + 63 <= u64::MAX,
        (len + 63) / 64 <= usize::MAX,
    ensures
        out@ == fitted(expand(words@, false), ((len + 63) / 64) as nat),
{
    let n: usize = ((len + 63) / 64) as usize;
    let ghost e = expand(words@, false);
    let mut out: Vec<u64> = Vec::new();
    let mut high: bool = false;
    let mut k: usize = 0;
    assert(words@.skip(0) =~= words@);
    assert(e =~= out@ + expand(words@.skip(0), false));
    while k < words.len() && out.len() < n
        invariant
            k <= words@.len(),
            out@.len() <= n,
            e == expand(words@, false),
            out@.len() <= e.len(),
            out@ == e.subrange(0, out@.len() as int),
            out@.len() < n ==> e == out@ + expand(words@.skip(k as int), high),
        decreases words.len() - k,
    {
        let w: u64 = words[k];
        let ghost s = words@.skip(k as int);
        let ghost o = out@;
        proof {
            assert(s.drop_first() =~= words@.skip(k + 1));
        }
        if w == HIGH_MARK {
            high = true;
        } else if w >= FLAG_BIT {
            let v: u64 = if w - FLAG_BIT >= FILL_BIT {
                LITERAL_MAX
            } else {
                0
            };
            let run: u64 = (w - FLAG_BIT) % FILL_BIT;
            let ghost f = fill(w);
            let ghost rest = expand(s.drop_first(), false);
            let mut j: u64 = 0;
            assert(e =~= o + f + rest);
            while j < run && out.len() < n
                invariant
                    j <= run,
                    out@.len() <= n,
                    f.len() == run,
                    forall|x: int| 0 <= x < f.len() ==> f[x] == v,
                    e == o + f + rest,
                    out@.len() == o.len() + j,
                    out@ == e.subrange(0, out@.len() as int),
                decreases run - j,
            {
                out.push(v);
                j += 1;
                assert(out@ =~= e.subrange(0, out@.len() as int));
            }
            high = false;
            proof {
                if out@.len() < n {
                    assert(e =~= out@ + rest);
                }
            }
        } else {
            out.push(if high {
                w + FLAG_BIT
            } else {
                w
            });
            high = false;
            proof {
                assert(e =~= out@ + expand(s.drop_first(), false));
                assert(out@ =~= e.subrange(0, out@.len() as int));
            }
        }
        k += 1;
    }
    let ghost m = out@.len();
    proof {
        if m < n {
            assert(expand(words@.skip(k as int), high) =~= Seq::<u64>::empty());
            assert(e =~= out@);
        }
    }
    while out.len() < n
        invariant
            m <= out@.len() <= n,
            m <= e.len(),
            m < n ==> m == e.len(),
            forall|x: int| 0 <= x < m ==> #[trigger] out@[x] == e[x],
            forall|x: int| m <= x < out@.len() ==> #[trigger] out@[x] == 0,
        decreases n - out@.len(),
    {
        out.push(0);
    }
    assert(out@ =~= fitted(e, n as nat));
    out
}

/// A bitmap: its stored words and the number of rows it covers.
#[verifier::ext_equal]
pub struct BitmapParts {
    pub words: Seq<u64>,
    pub len: u64,
}

/// The rows of a bitmap.
pub open spec fn rows_of(t: BitmapParts) -> Set<nat> {
    Set::new(|i: nat| i < t.len && words::bit_at(fitted(expand(t.words, false), ((t.len + 63) / 64) as nat), i))
}

/// The rows of a bitmap can be addressed.
pub open spec fn addressable(len: int) -> bool {
    len + 63 <= u64::MAX && (len + 63) / 64 <= usize::MAX
}

/// `v` lists a set of rows in ascending order.
pub open spec fn lists(v: Seq<u64>, s: Set<nat>) -> bool {
    &&& forall|i: int, j: int| 0 <= i < j < v.len() ==> v[i] < v[j]
    &&& forall|x: u64| #[trigger] v.contains(x) <==> s.contains(x as nat)
}

/// The bytes of a bitmap: `[u64 len][u32 count][words...]`.
pub open spec fn bitmap_bytes(t: BitmapParts) -> Seq<u8> {
    bytes::le64(t.len) + bytes::le32(t.words.len() as u32) + bytes::u64s(t.words)
}

/// The bitmap in a buffer. A word list that the buffer cuts short ends where the
/// bytes do.
pub open spec fn bitmap_read(s: Seq<u8>) -> Option<BitmapParts> {
    if s.len() < 12 {
        None
    } else {
        Some(BitmapParts { words: bytes::u64s_up_to(s.skip(12), bytes::u32_at(s, 8) as nat), len: bytes::u64_at(s, 0) })
    }
}

/// A bitmap whose word count fits its field is read back as it was written.
pub proof fn lemma_bitmap_round_trip(t: BitmapParts)
    requires
        t.words.len() <= u32::MAX,
    ensures
        bitmap_read(bitmap_bytes(t)) == Some(t),
        bitmap_bytes(t).len() == 12 + 8 * t.words.len(),
{
    let s = bitmap_bytes(t);
    let n = t.words.len() as u32;
    let e = Seq::<u8>::empty();
    let b = bytes::u64s(t.words);
    bytes::lemma_u64_between(e, t.len, bytes::le32(n) + b);
    assert(s =~= e + bytes::le64(t.len) + (bytes::le32(n) + b));
    bytes::lemma_u32_between(bytes::le64(t.len), n, b);
    bytes::lemma_u64s(t.words, e);
    assert(b + e =~= b);
    assert(s.skip(12) =~= b);
}

/// A compressed bitmap.
#[derive(Debug, Clone)]
pub struct Bitmap {
    words: Vec<u64>,
    /// The logical bit length (number of rows this bitmap covers).
    len: u64,
}

impl Bitmap {
    pub closed spec fn parts(&self) -> BitmapParts {
        BitmapParts { words: self.words@, len: self.len }
    }

    /// The rows whose bit is set.
    pub open spec fn view(&self) -> Set<nat> {
        rows_of(self.parts())
    }

    pub open spec fn wf(&self) -> bool {
        addressable(self.parts().len as int)
    }

    pub fn new() -> (r: Bitmap)
        ensures
            r.wf(),
            r.parts().len == 0,
            r.parts().words == Seq::<u64>::empty(),
            r@ == Set::<nat>::empty(),
    {
        let r = Bitmap { words: Vec::new(), len: 0 };
        assert(r@ =~= Set::<nat>::empty());
        r
    }

    pub fn len(&self) -> (r: u64)
        ensures
            r == self.parts().len,
    {
        self.len
    }

    pub fn is_empty(&self) -> (r: bool)
        ensures
            r == (self.parts().len == 0),
    {
        self.len == 0
    }

    /// The bitmap of literal words whose bits beyond `len` are clear.
    fn of_words(lit: &Vec<u64>, len: u64) -> (r: Bitmap)
        requires
            addressable(len as int),
            lit@.len() == (len + 63) / 64,
            forall|i: nat| #[trigger] words::bit_at(lit@, i) ==> i < len,
        ensures
            r.wf(),
            r.parts().len == len,
            r.parts().words == packed(lit@),
            r@ == words::positions(lit@),
    {
        let r = Bitmap { words: compress(lit), len };
        proof {
            lemma_pack_expand(lit@);
            assert(fitted(lit@, lit@.len()) =~= lit@);
            assert(r@ =~= words::positions(lit@));
        }
        r
    }

    /// The literal words, with the bits beyond the last row clear.
    fn literal(&self) -> (lit: Vec<u64>)
        requires
            self.wf(),
        ensures
            lit@.len() == (self.parts().len + 63) / 64,
            words::positions(lit@) == self@,
            forall|i: nat| #[trigger] words::bit_at(lit@, i) == self@.contains(i),
    {
        let mut lit = decompress(&self.words, self.len);
        let ghost l0 = lit@;
        let n: usize = lit.len();
        if self.len % 64 != 0 {
            let mut k: usize = (self.len % 64) as usize;
            while k < 64
                invariant
                    self.len % 64 <= k <= 64,
                    self.len % 64 != 0,
                    n == lit@.len(),
                    n == l0.len(),
                    n == (self.len + 63) / 64,
                    forall|i: nat| #[trigger]
                        words::bit_at(lit@, i) == (words::bit_at(l0, i) && !(self.len <= i < 64 * (n - 1) + k)),
                decreases 64 - k,
            {
                let v: u64 = bits::without_bit(lit[n - 1], k as u64);
                let ghost l1 = lit@;
                lit.set(n - 1, v);
                proof {
                    assert forall|i: nat| #[trigger]
                        words::bit_at(lit@, i) == (words::bit_at(l0, i) && !(self.len <= i < 64 * (n - 1) + k + 1)) by {
                        assert(words::bit_at(l1, i) == (words::bit_at(l0, i) && !(self.len <= i < 64 * (n - 1) + k)));
                        if i / 64 == n - 1 {
                            assert(bits::bit(v as nat, i % 64) == (i % 64 != k && bits::bit(l1[n - 1] as nat, i % 64)));
                        }
                    }
                }
                k += 1;
            }
        }
        proof {
            assert forall|i: nat| #[trigger] words::bit_at(lit@, i) == self@.contains(i) by {}
            assert(words::positions(lit@) =~= self@);
        }
        lit
    }

    /// Build a bitmap from a list of set-bit positions, up to `len` rows.
    pub fn from_set_bits(set: &[u64], len: u64) -> (r: Bitmap)
        requires
            addressable(len as int),
        ensures
            r.wf(),
            r.parts().len == len,
            forall|i: nat| #[trigger] r@.contains(i) <==> i < len && exists|j: int| 0 <= j < set@.len() && set@[j] == i,
            exists|lit: Seq<u64>| lit.len() == (len + 63) / 64 && r.parts().words == #[trigger] packed(lit),
    {
        let n: usize = ((len + 63) / 64) as usize;
        let mut lit: Vec<u64> = words::zeroed(n);
        let mut k: usize = 0;
        while k < set.len()
            invariant
                k <= set@.len(),
                lit@.len() == n,
                n == (len + 63) / 64,
                forall|i: nat| #[trigger]
                    words::bit_at(lit@, i) <==> i < len && exists|j: int| 0 <= j < k && set@[j] == i,
            decreases set.len() - k,
        {
            let pos: u64 = set[k];
            let ghost l0 = lit@;
            if pos < len {
                let w: usize = (pos / 64) as usize;
                let v: u64 = bits::with_bit(lit[w], pos % 64);
                lit.set(w, v);
                proof {
                    assert forall|i: nat| #[trigger]
                        words::bit_at(lit@, i) <==> i < len && exists|j: int| 0 <= j < k + 1 && set@[j] == i by {
                        assert(words::bit_at(l0, i) <==> i < len && exists|j: int| 0 <= j < k && set@[j] == i);
                        if i / 64 == w {
                            assert(bits::bit(v as nat, i % 64) == (i % 64 == pos % 64 || bits::bit(l0[w as int] as nat, i % 64)));
                        }
                        if i == pos {
                            assert(set@[k as int] == i);
                        }
                        assert(words::bit_at(lit@, i) == (i == pos || words::bit_at(l0, i)));
                    }
                }
            } else {
                proof {
                    assert forall|i: nat| #[trigger]
                        words::bit_at(lit@, i) <==> i < len && exists|j: int| 0 <= j < k + 1 && set@[j] == i by {
                        assert(words::bit_at(l0, i) <==> i < len && exists|j: int| 0 <= j < k && set@[j] == i);
                    }
                }
            }
            k += 1;
        }
        let r = Bitmap::of_words(&lit, len);
        proof {
            assert forall|i: nat| #[trigger] r@.contains(i) <==> i < len && exists|j: int|
                0 <= j < set@.len() && set@[j] == i by {
                assert(r@.contains(i) == words::bit_at(lit@, i));
            }
        }
        r
    }

    /// Materialize the bitmap into a flat set of set-bit positions.
    pub fn to_set_bits(&self) -> (out: Vec<u64>)
        requires
            self.wf(),
        ensures
            lists(out@, self@),
    {
        let lit = self.literal();
        let mut out: Vec<u64> = Vec::new();
        let mut i: u64 = 0;
        while i < self.len
            invariant
                i <= self.len,
                self.wf(),
                lit@.len() == (self.len + 63) / 64,
                forall|x: nat| #[trigger] words::bit_at(lit@, x) == self@.contains(x),
                forall|x: int, y: int| 0 <= x < y < out@.len() ==> out@[x] < out@[y],
                forall|x: int| 0 <= x < out@.len() ==> (#[trigger] out@[x]) < i && self@.contains(out@[x] as nat),
                forall|x: u64| x < i && #[trigger] self@.contains(x as nat) ==> out@.contains(x),
            decreases self.len - i,
        {
            let ghost o = out@;
            let hit: bool = bits::test_bit(lit[(i / 64) as usize], i % 64);
            assert(hit == words::bit_at(lit@, i as nat));
            if hit {
                out.push(i);
                proof {
                    assert forall|x: u64| x < i + 1 && #[trigger] self@.contains(x as nat) implies out@.contains(x) by {
                        if x == i {
                            assert(out@[o.len() as int] == x);
                        } else {
                            assert(o.contains(x));
                            let j = choose|j: int| 0 <= j < o.len() && o[j] == x;
                            assert(out@[j] == x);
                        }
                    }
                }
            }
            i += 1;
        }
        out
    }

    /// Bitwise AND of two bitmaps (intersection of row sets).
    pub fn and(&self, other: &Bitmap) -> (r: Bitmap)
        requires
            self.wf(),
            other.wf(),
        ensures
            r.wf(),
            r.parts().len == (if self.parts().len < other.parts().len {
                self.parts().len
            } else {
                other.parts().len
            }),
            r@ == self@.intersect(other@),
    {
        let len: u64 = if self.len < other.len {
            self.len
        } else {
            other.len
        };
        let a = self.literal();
        let b = other.literal();
        let n: usize = ((len + 63) / 64) as usize;
        let mut lit: Vec<u64> = Vec::new();
        while lit.len() < n
            invariant
                lit@.len() <= n,
                n <= a@.len(),
                n <= b@.len(),
                forall|x: int| 0 <= x < lit@.len() ==> #[trigger] lit@[x] == a@[x] & b@[x],
            decreases n - lit@.len(),
        {
            let i: usize = lit.len();
            lit.push(a[i] & b[i]);
        }
        proof {
            assert forall|i: nat| #[trigger] words::bit_at(lit@, i) == (self@.contains(i) && other@.contains(i)) by {
                assert(words::bit_at(a@, i) == self@.contains(i));
                assert(words::bit_at(b@, i) == other@.contains(i));
                if i / 64 < n {
                    bits::lemma_bit_and(a@[(i / 64) as int], b@[(i / 64) as int], i % 64);
                }
            }
        }
        let r = Bitmap::of_words(&lit, len);
        assert(r@ =~= self@.intersect(other@));
        r
    }

    /// Bitwise OR of two bitmaps (union of row sets).
    pub fn or(&self, other: &Bitmap) -> (r: Bitmap)
        requires
            self.wf(),
            other.wf(),
        ensures
            r.wf(),
            r.parts().len == (if self.parts().len > other.parts().len {
                self.parts().len
            } else {
                other.parts().len
            }),
            r@ == self@.union(other@),
    {
        let len: u64 = if self.len > other.len {
            self.len
        } else {
            other.len
        };
        let a = self.literal();
        let b = other.literal();
        let n: usize = ((len + 63) / 64) as usize;
        let mut lit: Vec<u64> = Vec::new();
        while lit.len() < n
            invariant
                lit@.len() <= n,
                forall|x: int|
                    0 <= x < lit@.len() ==> #[trigger] lit@[x] == (if x < a@.len() {
                        a@[x]
                    } else {
                        0
                    }) | (if x < b@.len() {
                        b@[x]
                    } else {
                        0
                    }),
            decreases n - lit@.len(),
        {
            let i: usize = lit.len();
            let x: u64 = if i < a.len() {
                a[i]
            } else {
                0
            };
            let y: u64 = if i < b.len() {
                b[i]
            } else {
                0
            };
            lit.push(x | y);
        }
        proof {
            assert forall|i: nat| #[trigger] words::bit_at(lit@, i) == (self@.contains(i) || other@.contains(i)) by {
                assert(words::bit_at(a@, i) == self@.contains(i));
                assert(words::bit_at(b@, i) == other@.contains(i));
                let k = (i / 64) as int;
                if k < n {
                    let x = if k < a@.len() {
                        a@[k]
                    } else {
                        0
                    };
                    let y = if k < b@.len() {
                        b@[k]
                    } else {
                        0
                    };
                    bits::lemma_bit_or(x, y, i % 64);
                    bits::lemma_bit_zero(i % 64);
                }
            }
        }
        let r = Bitmap::of_words(&lit, len);
        assert(r@ =~= self@.union(other@));
        r
    }

    /// Bitwise NOT (complement), up to `len` rows.
    pub fn not(&self) -> (r: Bitmap)
        requires
            self.wf(),
        ensures
            r.wf(),
            r.parts().len == self.parts().len,
            forall|i: nat| #[trigger] r@.contains(i) <==> i < self.parts().len && !self@.contains(i),
    {
        let a = self.literal();
        let n: usize = a.len();
        let mut lit: Vec<u64> = words::zeroed(n);
        let mut i: u64 = 0;
        while i < self.len
            invariant
                i <= self.len,
                self.wf(),
                n == a@.len(),
                n == lit@.len(),
                n == (self.len + 63) / 64,
                forall|x: nat| #[trigger] words::bit_at(a@, x) == self@.contains(x),
                forall|x: nat| #[trigger] words::bit_at(lit@, x) <==> x < i && !self@.contains(x),
            decreases self.len - i,
        {
            let w: usize = (i / 64) as usize;
            let hit: bool = bits::test_bit(a[w], i % 64);
            assert(hit == words::bit_at(a@, i as nat));
            let ghost l0 = lit@;
            if !hit {
                let v: u64 = bits::with_bit(lit[w], i % 64);
                lit.set(w, v);
                proof {
                    assert forall|x: nat| #[trigger]
                        words::bit_at(lit@, x) <==> x < i + 1 && !self@.contains(x) by {
                        assert(words::bit_at(l0, x) <==> x < i && !self@.contains(x));
                        if x / 64 == w {
                            assert(bits::bit(v as nat, x % 64) == (x % 64 == i % 64 || bits::bit(l0[w as int] as nat, x % 64)));
                        }
                    }
                }
            }
            i += 1;
        }
        let r = Bitmap::of_words(&lit, self.len);
        proof {
            assert forall|x: nat| #[trigger] r@.contains(x) <==> x < self.parts().len && !self@.contains(x) by {
                assert(r@.contains(x) == words::bit_at(lit@, x));
            }
        }
        r
    }

    /// Population count (number of set bits).
    pub fn popcount(&self) -> (r: u64)
        requires
            self.wf(),
        ensures
            r == self@.len(),
    {
        let lit = self.literal();
        let mut total: u64 = 0;
        let mut i: usize = 0;
        proof {
            words::lemma_positions(lit@);
        }
        while i < lit.len()
            invariant
                i <= lit@.len(),
                lit@.len() == (self.len + 63) / 64,
                self.wf(),
                total == words::set_bits(lit@, 64 * i as nat),
            decreases lit.len() - i,
        {
            proof {
                words::lemma_set_bits_word(lit@, i as nat, 64);
                words::lemma_set_bits_len(lit@, 64 * i as nat);
                assert(64 * i as nat + 64 == 64 * (i + 1) as nat);
                words::lemma_set_bits_len(lit@, 64 * (i + 1) as nat);
            }
            total += bits::count_ones(lit[i]) as u64;
            i += 1;
        }
        total
    }

    pub fn encode(&self) -> (out: Vec<u8>)
        ensures
            out@ == bitmap_bytes(self.parts()),
    {
        let mut out: Vec<u8> = Vec::new();
        bytes::put_u64(&mut out, self.len);
        bytes::put_u32(&mut out, self.words.len() as u32);
        bytes::put_u64s(&mut out, &self.words);
        assert(out@ =~= bitmap_bytes(self.parts()));
        out
    }

    pub fn decode(buf: &[u8]) -> (r: Option<Bitmap>)
        ensures
            match r {
                None => bitmap_read(buf@) is None,
                Some(b) => bitmap_read(buf@) == Some(b.parts()),
            },
    {
        if buf.len() < 12 {
            return None;
        }
        let len: u64 = bytes::get_u64(buf, 0);
        let n: u32 = bytes::get_u32(buf, 8);
        let words = bytes::get_u64s(buf, 12, n);
        Some(Bitmap { words, len })
    }
}

impl Default for Bitmap {
    fn default() -> (r: Self)
        ensures
            r.wf(),
            r.parts().len == 0,
            r@ == Set::<nat>::empty(),
    {
        Bitmap::new()
    }
}

/// A bitmap index: its row count and the bitmap of each value.
#[verifier::ext_equal]
pub struct BitmapIndexParts {
    pub row_count: u64,
    pub maps: Map<i64, BitmapParts>,
}

/// The models of a bitmap table.
pub open spec fn bitmap_models(m: Map<i64, Bitmap>) -> Map<i64, BitmapParts> {
    Map::new(|v: i64| m.contains_key(v), |v: i64| m[v].parts())
}

/// The bitmaps of the given values: `[i64 value][u32 size][bitmap]` each.
pub open spec fn maps_bytes(m: Map<i64, BitmapParts>, vs: Seq<i64>) -> Seq<u8>
    decreases vs.len(),
{
    if vs.len() == 0 {
        Seq::empty()
    } else {
        let b = bitmap_bytes(m[vs[0]]);
        bytes::le_i64(vs[0]) + bytes::le32(b.len() as u32) + b + maps_bytes(m, vs.drop_first())
    }
}

/// Up to `n` bitmaps added to `acc`, as far as the bytes reach; nothing where an
/// entry holds no bitmap.
pub open spec fn maps_read(s: Seq<u8>, n: nat, acc: Map<i64, BitmapParts>) -> Option<Map<i64, BitmapParts>>
    decreases n,
{
    if n == 0 || s.len() < 12 || 12 + bytes::u32_at(s, 8) > s.len() {
        Some(acc)
    } else {
        let e = 12 + bytes::u32_at(s, 8);
        match bitmap_read(s.subrange(12, e)) {
            None => None,
            Some(b) => maps_read(s.skip(e), (n - 1) as nat, acc.insert(bytes::i64_at(s, 0), b)),
        }
    }
}

/// The bytes of a bitmap index.
pub open spec fn bitmap_index_bytes(t: BitmapIndexParts) -> Seq<u8> {
    bytes::le64(t.row_count) + bytes::le32(t.maps.dom().len() as u32) + maps_bytes(t.maps, order::ascending64(t.maps.dom()))
}

/// The bitmap index in a buffer.
pub open spec fn bitmap_index_read(s: Seq<u8>) -> Option<BitmapIndexParts> {
    if s.len() < 12 {
        None
    } else {
        match maps_read(s.skip(12), bytes::u32_at(s, 8) as nat, Map::empty()) {
            None => None,
            Some(maps) => Some(BitmapIndexParts { row_count: bytes::u64_at(s, 0), maps }),
        }
    }
}

proof fn lemma_maps_read(m: Map<i64, BitmapParts>, vs: Seq<i64>, acc: Map<i64, BitmapParts>)
    requires
        vs.no_duplicates(),
        forall|i: int| 0 <= i < vs.len() ==> 12 + 8 * m[#[trigger] vs[i]].words.len() <= u32::MAX,
    ensures
        maps_read(maps_bytes(m, vs), vs.len(), acc) matches Some(r) && r.dom() == acc.dom().union(vs.to_set())
            && forall|x: i64| #[trigger]
            r.contains_key(x) ==> r[x] == (if vs.contains(x) {
                m[x]
            } else {
                acc[x]
            }),
    decreases vs.len(),
{
    if vs.len() > 0 {
        let t = vs.drop_first();
        let x0 = vs[0];
        lemma_bitmap_round_trip(m[x0]);
        let b = bitmap_bytes(m[x0]);
        let n = b.len() as u32;
        let rest = maps_bytes(m, t);
        let s = maps_bytes(m, vs);
        bytes::lemma_i64_between(Seq::empty(), x0, bytes::le32(n) + b + rest);
        assert(s =~= Seq::<u8>::empty() + bytes::le_i64(x0) + (bytes::le32(n) + b + rest));
        bytes::lemma_u32_between(bytes::le_i64(x0), n, b + rest);
        assert(s =~= bytes::le_i64(x0) + bytes::le32(n) + (b + rest));
        assert(s.subrange(12, 12 + n as int) =~= b);
        assert(s.skip(12 + n as int) =~= rest);
        assert forall|i: int| 0 <= i < t.len() implies 12 + 8 * m[#[trigger] t[i]].words.len() <= u32::MAX by {
            assert(t[i] == vs[i + 1]);
        }
        let acc2 = acc.insert(x0, m[x0]);
        lemma_maps_read(m, t, acc2);
        let r = maps_read(rest, t.len(), acc2).unwrap();
        assert forall|x: i64| vs.contains(x) <==> x == x0 || t.contains(x) by {
            if vs.contains(x) {
                let i = choose|i: int| 0 <= i < vs.len() && vs[i] == x;
                if i > 0 {
                    assert(t[i - 1] == x);
                }
            }
            if t.contains(x) {
                let i = choose|i: int| 0 <= i < t.len() && t[i] == x;
                assert(vs[i + 1] == x);
            }
            assert(vs[0] == x0);
        }
        assert(r.dom() =~= acc.dom().union(vs.to_set()));
    } else {
        assert(acc.dom() =~= acc.dom().union(vs.to_set()));
    }
}

/// An index whose counts fit their fields is read back as it was written.
pub proof fn lemma_bitmap_index_round_trip(t: BitmapIndexParts)
    requires
        t.maps.dom().finite(),
        t.maps.dom().len() <= u32::MAX,
        forall|v: i64| #[trigger] t.maps.contains_key(v) ==> 12 + 8 * t.maps[v].words.len() <= u32::MAX,
    ensures
        bitmap_index_read(bitmap_index_bytes(t)) == Some(t),
{
    let vs = order::ascending64(t.maps.dom());
    order::lemma_ascending_set64(t.maps.dom());
    let s = bitmap_index_bytes(t);
    let body = maps_bytes(t.maps, vs);
    let n = t.maps.dom().len() as u32;
    bytes::lemma_u64_between(Seq::empty(), t.row_count, bytes::le32(n) + body);
    assert(s =~= Seq::<u8>::empty() + bytes::le64(t.row_count) + (bytes::le32(n) + body));
    bytes::lemma_u32_between(bytes::le64(t.row_count), n, body);
    assert(s.skip(12) =~= body);
    assert forall|i: int| 0 <= i < vs.len() implies 12 + 8 * t.maps[#[trigger] vs[i]].words.len() <= u32::MAX by {
        assert(vs.contains(vs[i]));
        assert(t.maps.contains_key(vs[i]));
    }
    lemma_maps_read(t.maps, vs, Map::empty());
    let m = maps_read(body, vs.len(), Map::empty()).unwrap();
    assert(m =~= t.maps) by {
        assert(m.dom() =~= t.maps.dom());
        assert forall|x: i64| #[trigger] m.contains_key(x) implies m[x] == t.maps[x] by {
            assert(vs.to_set().contains(x));
        }
    }
}

/// A bitmap index: `value -> Bitmap`.
#[derive(Debug, Clone)]
pub struct BitmapIndex {
    pub maps: BTreeMap<i64, Bitmap>,
    pub row_count: u64,
}

impl BitmapIndex {
    pub open spec fn parts(&self) -> BitmapIndexParts {
        BitmapIndexParts { row_count: self.row_count, maps: bitmap_models(self.maps@) }
    }

    /// Every bitmap can be addressed.
    pub open spec fn wf(&self) -> bool {
        forall|v: i64| #[trigger] self.maps@.contains_key(v) ==> self.maps@[v].wf()
    }

    /// The rows of a value; none for a value without a bitmap.
    pub open spec fn rows(&self, value: i64) -> Set<nat> {
        if self.maps@.contains_key(value) {
            self.maps@[value]@
        } else {
            Set::empty()
        }
    }

    pub fn new(row_count: u64) -> (r: BitmapIndex)
        ensures
            r.wf(),
            r.row_count == row_count,
            r.maps@ == Map::<i64, Bitmap>::empty(),
    {
        BitmapIndex { maps: BTreeMap::new(), row_count }
    }

    /// Build a bitmap index from a column of `(row_index, value)` pairs.
    pub fn build(rows: &[(u64, i64)], row_count: u64) -> (r: BitmapIndex)
        requires
            addressable(row_count as int),
        ensures
            r.wf(),
            r.row_count == row_count,
            forall|v: i64| #[trigger]
                r.maps@.contains_key(v) <==> exists|i: int| 0 <= i < rows@.len() && rows@[i].1 == v,
            forall|v: i64| #[trigger] r.maps@.contains_key(v) ==> r.maps@[v].parts().len == row_count,
            forall|v: i64, p: nat| #[trigger]
                r.rows(v).contains(p) <==> p < row_count && exists|i: int|
                    0 <= i < rows@.len() && rows@[i] == (p as u64, v),
    {
        let mut groups: BTreeMap<i64, Vec<u64>> = BTreeMap::new();
        let mut k: usize = 0;
        while k < rows.len()
            invariant
                k <= rows@.len(),
                forall|v: i64| #[trigger]
                    groups@.contains_key(v) <==> exists|i: int| 0 <= i < k && rows@[i].1 == v,
                forall|v: i64, p: u64| #[trigger]
                    group_has(groups@, v, p) <==> exists|i: int| 0 <= i < k && rows@[i] == (p, v),
            decreases rows.len() - k,
        {
            let (pos, value) = rows[k];
            let ghost g0 = groups@;
            let mut group: Vec<u64> = match groups.remove(&value) {
                Some(g) => g,
                None => Vec::new(),
            };
            let ghost old_group = group@;
            group.push(pos);
            groups.insert(value, group);
            proof {
                assert forall|v: i64| #[trigger]
                    groups@.contains_key(v) <==> exists|i: int| 0 <= i < k + 1 && rows@[i].1 == v by {
                    assert(g0.contains_key(v) <==> exists|i: int| 0 <= i < k && rows@[i].1 == v);
                    if v == value {
                        assert(rows@[k as int].1 == v);
                    }
                }
                assert forall|v: i64, p: u64| #[trigger]
                    group_has(groups@, v, p) <==> exists|i: int| 0 <= i < k + 1 && rows@[i] == (p, v) by {
                    assert(group_has(g0, v, p) <==> exists|i: int| 0 <= i < k && rows@[i] == (p, v));
                    if v == value {
                        let g = groups@[v]@;
                        assert(g == old_group.push(pos));
                        assert(g[old_group.len() as int] == pos);
                        if g0.contains_key(v) && g0[v]@.contains(p) {
                            let i = choose|i: int| 0 <= i < g0[v]@.len() && g0[v]@[i] == p;
                            assert(g[i] == p);
                        }
                        if p == pos {
                            assert(rows@[k as int] == (p, v));
                        }
                        if g.contains(p) {
                            let i = choose|i: int| 0 <= i < g.len() && g[i] == p;
                            if i < old_group.len() {
                                assert(old_group[i] == p);
                                assert(old_group.contains(p));
                            }
                        }
                    }
                }
            }
            k += 1;
        }
        let mut idx = BitmapIndex::new(row_count);
        let values = order::keys64(&groups);
        let mut j: usize = 0;
        while j < values.len()
            invariant
                j <= values@.len(),
                addressable(row_count as int),
                values@.to_set() == groups@.dom(),
                order::increasing64(values@),
                idx.row_count == row_count,
                forall|v: i64| #[trigger] idx.maps@.contains_key(v) <==> values@.subrange(0, j as int).contains(v),
                forall|v: i64| #[trigger]
                    idx.maps@.contains_key(v) ==> idx.maps@[v].wf() && idx.maps@[v].parts().len == row_count,
                forall|v: i64, p: nat|
                    idx.maps@.contains_key(v) ==> (#[trigger] idx.maps@[v]@.contains(p) <==> p < row_count
                        && groups@[v]@.contains(p as u64)),
            decreases values.len() - j,
        {
            let value: i64 = values[j];
            assert(values@.to_set().contains(values@[j as int]));
            assert(groups@.contains_key(value));
            let ghost m0 = idx.maps@;
            if let Some(set) = groups.get(&value) {
                let b = Bitmap::from_set_bits(set.as_slice(), row_count);
                proof {
                    assert forall|p: nat| #[trigger] b@.contains(p) <==> p < row_count && groups@[value]@.contains(
                        p as u64,
                    ) by {
                        if p < row_count && set@.contains(p as u64) {
                            let i = choose|i: int| 0 <= i < set@.len() && set@[i] == p as u64;
                            assert(set@[i] == p);
                        }
                    }
                }
                idx.maps.insert(value, b);
            }
            proof {
                let a = values@.subrange(0, j as int);
                let c = values@.subrange(0, j + 1);
                assert(c =~= a.push(value));
                assert forall|v: i64| #[trigger] idx.maps@.contains_key(v) <==> c.contains(v) by {
                    assert(m0.contains_key(v) <==> a.contains(v));
                    if a.contains(v) {
                        let i = choose|i: int| 0 <= i < a.len() && a[i] == v;
                        assert(c[i] == v);
                    }
                    if c.contains(v) {
                        let i = choose|i: int| 0 <= i < c.len() && c[i] == v;
                        if i < a.len() {
                            assert(a[i] == v);
                        }
                    }
                    assert(c[j as int] == value);
                }
            }
            j += 1;
        }
        proof {
            assert(values@.subrange(0, j as int) =~= values@);
            assert forall|v: i64| #[trigger] idx.maps@.contains_key(v) <==> groups@.contains_key(v) by {
                assert(values@.to_set().contains(v) <==> groups@.contains_key(v));
            }
            assert forall|v: i64, p: nat| #[trigger] idx.rows(v).contains(p) <==> p < row_count && exists|i: int|
                0 <= i < rows@.len() && rows@[i] == (p as u64, v) by {
                if p < row_count {
                    assert(group_has(groups@, v, p as u64) <==> exists|i: int|
                        0 <= i < rows@.len() && rows@[i] == (p as u64, v));
                    if idx.maps@.contains_key(v) {
                        assert(idx.maps@[v]@.contains(p) <==> p < row_count && groups@[v]@.contains(p as u64));
                    }
                } else {
                    if idx.maps@.contains_key(v) {
                        assert(!idx.maps@[v]@.contains(p));
                    }
                }
            }
        }
        idx
    }

    /// Look up the bitmap for a value.
    pub fn get(&self, value: i64) -> (r: Option<&Bitmap>)
        ensures
            match r {
                Some(b) => self.maps@.contains_key(value) && *b == self.maps@[value],
                None => !self.maps@.contains_key(value),
            },
    {
        self.maps.get(&value)
    }

    /// The row positions matching `value`.
    pub fn lookup(&self, value: i64) -> (out: Vec<u64>)
        requires
            self.wf(),
        ensures
            lists(out@, self.rows(value)),
    {
        match self.get(value) {
            Some(b) => b.to_set_bits(),
            None => Vec::new(),
        }
    }

    /// Rows matching `value1 AND value2` (intersection).
    pub fn lookup_and(&self, v1: i64, v2: i64) -> (out: Vec<u64>)
        requires
            self.wf(),
        ensures
            lists(out@, self.rows(v1).intersect(self.rows(v2))),
    {
        match self.get(v1) {
            Some(a) => match self.get(v2) {
                Some(b) => a.and(b).to_set_bits(),
                None => Vec::new(),
            },
            None => Vec::new(),
        }
    }

    /// Rows matching `value1 OR value2` (union).
    pub fn lookup_or(&self, v1: i64, v2: i64) -> (out: Vec<u64>)
        requires
            self.wf(),
        ensures
            lists(out@, self.rows(v1).union(self.rows(v2))),
    {
        let empty = Bitmap::new();
        let a = match self.get(v1) {
            Some(b) => b,
            None => &empty,
        };
        let b = match self.get(v2) {
            Some(b) => b,
            None => &empty,
        };
        a.or(b).to_set_bits()
    }

    pub fn cardinality(&self) -> (r: usize)
        ensures
            r == self.maps@.dom().len(),
    {
        self.maps.len()
    }

    pub fn encode(&self) -> (out: Vec<u8>)
        ensures
            out@ == bitmap_index_bytes(self.parts()),
    {
        let mut out: Vec<u8> = Vec::new();
        bytes::put_u64(&mut out, self.row_count);
        bytes::put_u32(&mut out, self.maps.len() as u32);
        let ghost m = self.parts().maps;
        assert(m.dom() =~= self.maps@.dom());
        let ghost h = out@;
        let vs = order::keys64(&self.maps);
        let mut i: usize = 0;
        assert(vs@.skip(0) =~= vs@);
        while i < vs.len()
            invariant
                i <= vs@.len(),
                m == self.parts().maps,
                m.dom() == self.maps@.dom(),
                vs@.to_set() == m.dom(),
                out@ + maps_bytes(m, vs@.skip(i as int)) == h + maps_bytes(m, vs@),
            decreases vs.len() - i,
        {
            let v: i64 = vs[i];
            let ghost o = out@;
            assert(vs@.to_set().contains(vs@[i as int]));
            assert(m.contains_key(v));
            if let Some(b) = self.maps.get(&v) {
                let enc = b.encode();
                bytes::put_i64(&mut out, v);
                bytes::put_u32(&mut out, enc.len() as u32);
                bytes::put_bytes(&mut out, enc.as_slice());
                proof {
                    let s = vs@.skip(i as int);
                    assert(s.drop_first() =~= vs@.skip(i + 1));
                    assert(s[0] == v);
                    assert(m[v] == b.parts());
                    assert(out@ + maps_bytes(m, s.drop_first()) =~= o + maps_bytes(m, s));
                }
            }
            i += 1;
        }
        assert(out@ + maps_bytes(m, vs@.skip(i as int)) =~= out@);
        assert(out@ =~= bitmap_index_bytes(self.parts()));
        out
    }

    pub fn decode(buf: &[u8]) -> (r: Option<BitmapIndex>)
        ensures
            match r {
                None => bitmap_index_read(buf@) is None,
                Some(b) => bitmap_index_read(buf@) == Some(b.parts()),
            },
    {
        if buf.len() < 12 {
            return None;
        }
        let row_count: u64 = bytes::get_u64(buf, 0);
        let n: u32 = bytes::get_u32(buf, 8);
        let mut maps: BTreeMap<i64, Bitmap> = BTreeMap::new();
        let mut pos: usize = 12;
        let mut i: u32 = 0;
        let ghost all = maps_read(buf@.skip(12), n as nat, Map::empty());
        assert(bitmap_models(maps@) =~= Map::<i64, BitmapParts>::empty());
        while i < n && buf.len() - pos >= 12
            invariant_except_break
                all == maps_read(buf@.skip(pos as int), (n - i) as nat, bitmap_models(maps@)),
            invariant
                i <= n,
                12 <= pos <= buf@.len(),
                n == bytes::u32_at(buf@, 8),
                all == maps_read(buf@.skip(12), n as nat, Map::empty()),
            ensures
                all == Some(bitmap_models(maps@)),
            decreases n - i,
        {
            let v: i64 = bytes::get_i64(buf, pos);
            let len: usize = bytes::get_u32(buf, pos + 8) as usize;
            let ghost s = buf@.skip(pos as int);
            proof {
                bytes::lemma_at_skip(buf@, pos as int, 0);
                bytes::lemma_at_skip(buf@, pos as int, 8);
            }
            if buf.len() - pos - 12 < len {
                break;
            }
            let part = bytes::copy_range(buf, pos + 12, pos + 12 + len);
            assert(part@ =~= s.subrange(12, 12 + len));
            match Bitmap::decode(part.as_slice()) {
                None => {
                    return None;
                },
                Some(b) => {
                    let ghost m0 = bitmap_models(maps@);
                    let ghost m = b.parts();
                    maps.insert(v, b);
                    proof {
                        assert(bitmap_models(maps@) =~= m0.insert(v, m));
                        assert(s.skip(12 + len) =~= buf@.skip(pos + 12 + len));
                    }
                },
            }
            pos += 12 + len;
            i += 1;
        }
        Some(BitmapIndex { maps, row_count })
    }
}

/// The group of a value holds a position.
spec fn group_has(g: Map<i64, Vec<u64>>, v: i64, p: u64) -> bool {
    g.contains_key(v) && g[v]@.contains(p)
}

} // verus!
