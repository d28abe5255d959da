//! Rabin-Karp rolling hashes and content-defined chunking.
//!
//! A rolling hash lets a fixed-width window slide over a byte stream while its
//! hash is updated in O(1) per step, which powers substring search (Rabin-Karp)
//! and content-defined chunking (splitting a stream at positions where the hash
//! matches a mask, so insertions shift only nearby boundaries). This module
//! provides both, plus a whole-buffer polynomial fingerprint used to key cached
//! page contents.

use crate::bits;
use vstd::prelude::*;

verus! {

/// A polynomial rolling hash over a fixed window width.
#[derive(Debug, Clone)]
pub struct RollingHash {
    base: u64,
    modulus: u64,
    /// `base^(width-1) mod modulus`, used to remove the leaving byte.
    top_power: u64,
    width: usize,
    hash: u64,
    filled: usize,
}

pub const DEFAULT_BASE: u64 = 257;

pub const DEFAULT_MOD: u64 = 1_000_000_007;

/// The bytes of a window as the digits of a number in the base, the first
/// highest.
pub open spec fn digits(s: Seq<u8>, base: int) -> int
    decreases s.len(),
{
    if s.len() == 0 {
        0
    } else {
        digits(s.drop_last(), base) * base + s.last()
    }
}

/// The hash of a window.
pub open spec fn poly(s: Seq<u8>, base: int, modulus: int) -> int {
    digits(s, base) % modulus
}

/// One byte added to a hash.
pub open spec fn pushed(h: int, b: int, base: int, modulus: int) -> int {
    (h * base + b) % modulus
}

/// The parameters leave room for the arithmetic in a `u64`.
pub open spec fn sound(base: int, modulus: int) -> bool {
    &&& modulus >= 1
    &&& base * modulus + 255 <= u64::MAX
    &&& 255 * modulus <= u64::MAX
    &&& 2 * modulus <= u64::MAX
}

proof fn lemma_pushed(s: Seq<u8>, b: u8, base: int, modulus: int)
    requires
        modulus >= 1,
    ensures
        poly(s.push(b), base, modulus) == pushed(poly(s, base, modulus), b as int, base, modulus),
{
    let d = digits(s, base);
    assert(s.push(b).drop_last() =~= s);
    vstd::arithmetic::div_mod::lemma_mul_mod_noop_left(d, base, modulus);
    vstd::arithmetic::div_mod::lemma_add_mod_noop(d * base, b as int, modulus);
    vstd::arithmetic::div_mod::lemma_add_mod_noop((d % modulus) * base, b as int, modulus);
}

/// The first byte stands highest.
proof fn lemma_first(s: Seq<u8>, base: int)
    requires
        s.len() > 0,
    ensures
        digits(s, base) == s[0] * vstd::arithmetic::power::pow(base, (s.len() - 1) as nat) + digits(s.drop_first(), base),
    decreases s.len(),
{
    let n = s.len();
    if n == 1 {
        assert(s.drop_last() =~= Seq::<u8>::empty());
        assert(s.drop_first() =~= Seq::<u8>::empty());
        vstd::arithmetic::power::lemma_pow0(base);
        assert(digits(s.drop_last(), base) == 0);
        assert(digits(s.drop_first(), base) == 0);
        assert(0 * base == 0) by (nonlinear_arith);
    } else {
        lemma_first(s.drop_last(), base);
        assert(s.drop_last().drop_first() =~= s.drop_first().drop_last());
        assert(s.drop_first().last() == s.last());
        vstd::arithmetic::power::lemma_pow_adds(base, (n - 2) as nat, 1);
        vstd::arithmetic::power::lemma_pow1(base);
        let a = s[0] as int;
        let p = vstd::arithmetic::power::pow(base, (n - 2) as nat);
        let d = digits(s.drop_first().drop_last(), base);
        assert((a * p + d) * base == a * (p * base) + d * base) by (nonlinear_arith);
    }
}

/// Sliding a window by one byte: what the rolling update computes is the hash
/// of the moved window.
pub proof fn lemma_roll(s: Seq<u8>, b: u8, base: int, modulus: int, top: int)
    requires
        modulus >= 1,
        s.len() > 0,
        top % modulus == vstd::arithmetic::power::pow(base, (s.len() - 1) as nat) % modulus,
    ensures
        poly(s.drop_first().push(b), base, modulus) == pushed(
            (poly(s, base, modulus) + modulus - (s[0] * top) % modulus) % modulus,
            b as int,
            base,
            modulus,
        ),
{
    let a = s[0] as int;
    let p = vstd::arithmetic::power::pow(base, (s.len() - 1) as nat);
    let t = digits(s.drop_first(), base);
    let d = digits(s, base);
    lemma_first(s, base);
    vstd::arithmetic::div_mod::lemma_mul_mod_noop_right(a, top, modulus);
    vstd::arithmetic::div_mod::lemma_mul_mod_noop_right(a, p, modulus);
    assert((a * top) % modulus == (a * p) % modulus);
    let x = (a * p) % modulus;
    // d = a * p + t, so d - a * p and t leave the same remainder.
    vstd::arithmetic::div_mod::lemma_sub_mod_noop(d, a * p, modulus);
    assert(t == d - a * p);
    assert(t % modulus == (d % modulus - x) % modulus);
    vstd::arithmetic::div_mod::lemma_mod_add_multiples_vanish(d % modulus - x, modulus);
    assert((d % modulus + modulus - x) % modulus == t % modulus) by {
        assert(d % modulus + modulus - x == modulus + (d % modulus - x));
    }
    lemma_pushed(s.drop_first(), b, base, modulus);
}

impl RollingHash {
    pub closed spec fn spec_base(self) -> int {
        self.base as int
    }

    pub closed spec fn spec_modulus(self) -> int {
        self.modulus as int
    }

    pub closed spec fn spec_top(self) -> int {
        self.top_power as int
    }

    pub closed spec fn spec_width(self) -> nat {
        self.width as nat
    }

    pub closed spec fn spec_hash(self) -> int {
        self.hash as int
    }

    pub closed spec fn spec_filled(self) -> nat {
        self.filled as nat
    }

    /// The parameters are the same.
    pub open spec fn like(self, other: RollingHash) -> bool {
        &&& self.spec_base() == other.spec_base()
        &&& self.spec_modulus() == other.spec_modulus()
        &&& self.spec_top() == other.spec_top()
        &&& self.spec_width() == other.spec_width()
    }

    pub closed spec fn wf(self) -> bool {
        &&& sound(self.base as int, self.modulus as int)
        &&& self.width >= 1
        &&& self.hash < self.modulus
        &&& self.top_power <= self.modulus
        &&& self.top_power as int % self.modulus as int == vstd::arithmetic::power::pow(self.base as int, (self.width - 1) as nat)
            % self.modulus as int
    }

    /// What well-formed hashes keep.
    pub proof fn lemma_wf(self)
        requires
            self.wf(),
        ensures
            self.spec_width() >= 1,
            self.spec_modulus() >= 1,
            self.spec_top() % self.spec_modulus() == vstd::arithmetic::power::pow(self.spec_base(), (self.spec_width() - 1) as nat)
                % self.spec_modulus(),
    {
    }

    /// A rolling hash for a window of `width` bytes.
    pub fn new(width: usize) -> (r: RollingHash)
        ensures
            r.wf(),
            r.spec_base() == DEFAULT_BASE,
            r.spec_modulus() == DEFAULT_MOD,
            r.spec_width() == (if width == 0 {
                1
            } else {
                width as nat
            }),
            r.spec_hash() == 0,
            r.spec_filled() == 0,
    {
        RollingHash::with_params(width, DEFAULT_BASE, DEFAULT_MOD)
    }

    /// A rolling hash with explicit base and modulus.
    pub fn with_params(width: usize, base: u64, modulus: u64) -> (r: RollingHash)
        requires
            sound(base as int, modulus as int),
        ensures
            r.wf(),
            r.spec_base() == base,
            r.spec_modulus() == modulus,
            r.spec_width() == (if width == 0 {
                1
            } else {
                width as nat
            }),
            r.spec_hash() == 0,
            r.spec_filled() == 0,
    {
        let width: usize = if width == 0 {
            1
        } else {
            width
        };
        let mut top_power: u64 = 1;
        let mut i: usize = 1;
        proof {
            vstd::arithmetic::power::lemma_pow0(base as int);
        }
        while i < width
            invariant
                1 <= i <= width,
                sound(base as int, modulus as int),
                top_power <= modulus,
                top_power as int % modulus as int == vstd::arithmetic::power::pow(base as int, (i - 1) as nat) % modulus as int,
            decreases width - i,
        {
            proof {
                let t = top_power as int;
                let b = base as int;
                let m = modulus as int;
                assert(t * b <= m * b) by (nonlinear_arith)
                    requires
                        0 <= t <= m,
                        b >= 0,
                ;
                assert(m * b == b * m) by (nonlinear_arith);
                let p = vstd::arithmetic::power::pow(b, (i - 1) as nat);
                vstd::arithmetic::power::lemma_pow_adds(b, (i - 1) as nat, 1);
                vstd::arithmetic::power::lemma_pow1(b);
                vstd::arithmetic::div_mod::lemma_mul_mod_noop_left(t, b, m);
                vstd::arithmetic::div_mod::lemma_mul_mod_noop_left(p, b, m);
                vstd::arithmetic::div_mod::lemma_mod_twice(t * b, m);
            }
            top_power = (top_power * base) % modulus;
            i += 1;
        }
        RollingHash { base, modulus, top_power, width, hash: 0, filled: 0 }
    }

    /// The window width.
    pub fn width(&self) -> (r: usize)
        ensures
            r == self.spec_width(),
    {
        self.width
    }

    /// The current hash value.
    pub fn hash(&self) -> (r: u64)
        ensures
            r == self.spec_hash(),
    {
        self.hash
    }

    /// `true` once at least `width` bytes have been fed.
    pub fn is_full(&self) -> (r: bool)
        ensures
            r == (self.spec_filled() >= self.spec_width()),
    {
        self.filled >= self.width
    }

    proof fn lemma_room(self)
        requires
            self.wf(),
        ensures
            self.hash * self.base <= self.modulus * self.base,
            self.modulus * self.base == self.base * self.modulus,
    {
        let h = self.hash as int;
        let b = self.base as int;
        let m = self.modulus as int;
        assert(h * b <= m * b) by (nonlinear_arith)
            requires
                0 <= h <= m,
                b >= 0,
        ;
        assert(m * b == b * m) by (nonlinear_arith);
    }

    /// Push one byte into the window (before it is full); use [`roll`] once full.
    pub fn push(&mut self, byte: u8)
        requires
            old(self).wf(),
            old(self).spec_filled() < usize::MAX,
        ensures
            final(self).wf(),
            final(self).like(*old(self)),
            final(self).spec_hash() == pushed(
                old(self).spec_hash(),
                byte as int,
                old(self).spec_base(),
                old(self).spec_modulus(),
            ),
            final(self).spec_filled() == old(self).spec_filled() + 1,
    {
        proof {
            self.lemma_room();
        }
        self.hash = (self.hash * self.base + byte as u64) % self.modulus;
        self.filled += 1;
    }

    /// Slide the window: add `incoming`, remove `outgoing` (the byte that was
    /// `width` positions back).
    pub fn roll(&mut self, outgoing: u8, incoming: u8)
        requires
            old(self).wf(),
        ensures
            final(self).wf(),
            final(self).like(*old(self)),
            final(self).spec_filled() == old(self).spec_filled(),
            final(self).spec_hash() == pushed(
                (old(self).spec_hash() + old(self).spec_modulus() - (outgoing * old(self).spec_top()) % old(
                    self,
                ).spec_modulus()) % old(self).spec_modulus(),
                incoming as int,
                old(self).spec_base(),
                old(self).spec_modulus(),
            ),
    {
        proof {
            let o = outgoing as int;
            let t = self.top_power as int;
            let m = self.modulus as int;
            assert(o * t <= 255 * m) by (nonlinear_arith)
                requires
                    0 <= o <= 255,
                    0 <= t <= m,
            ;
        }
        let out: u64 = (outgoing as u64 * self.top_power) % self.modulus;
        self.hash = (self.hash + self.modulus - out) % self.modulus;
        proof {
            self.lemma_room();
        }
        self.hash = (self.hash * self.base + incoming as u64) % self.modulus;
    }

    /// Hash a full window from scratch.
    pub fn hash_window(&self, window: &[u8]) -> (r: u64)
        requires
            self.wf(),
        ensures
            r == poly(
                window@.take(if window@.len() < self.spec_width() {
                    window@.len() as int
                } else {
                    self.spec_width() as int
                }),
                self.spec_base(),
                self.spec_modulus(),
            ),
    {
        let n: usize = if window.len() < self.width {
            window.len()
        } else {
            self.width
        };
        let mut h: u64 = 0;
        let mut i: usize = 0;
        assert(window@.take(0) =~= Seq::<u8>::empty());
        while i < n
            invariant
                i <= n <= window@.len(),
                self.wf(),
                h < self.modulus,
                h == poly(window@.take(i as int), self.spec_base(), self.spec_modulus()),
            decreases n - i,
        {
            proof {
                let x = h as int;
                let b = self.base as int;
                let m = self.modulus as int;
                assert(x * b <= m * b) by (nonlinear_arith)
                    requires
                        0 <= x <= m,
                        b >= 0,
                ;
                assert(m * b == b * m) by (nonlinear_arith);
                assert(window@.take(i + 1) =~= window@.take(i as int).push(window@[i as int]));
                lemma_pushed(window@.take(i as int), window@[i as int], self.spec_base(), self.spec_modulus());
            }
            h = (h * self.base + window[i] as u64) % self.modulus;
            i += 1;
        }
        h
    }
}

/// `needle` stands at `i`.
pub open spec fn occurs(haystack: Seq<u8>, needle: Seq<u8>, i: int) -> bool {
    haystack.subrange(i, i + needle.len()) == needle
}

/// The places below `n` where `needle` stands, ascending.
pub open spec fn places(haystack: Seq<u8>, needle: Seq<u8>, n: nat) -> Seq<usize>
    decreases n,
{
    if n == 0 {
        Seq::empty()
    } else {
        let before = places(haystack, needle, (n - 1) as nat);
        if occurs(haystack, needle, n - 1) {
            before.push((n - 1) as usize)
        } else {
            before
        }
    }
}

/// All places where `needle` stands; none where it is empty or too long.
pub open spec fn all_places(haystack: Seq<u8>, needle: Seq<u8>) -> Seq<usize> {
    if needle.len() == 0 || needle.len() > haystack.len() {
        Seq::empty()
    } else {
        places(haystack, needle, (haystack.len() - needle.len() + 1) as nat)
    }
}

/// Whether `needle` stands at `i`.
fn stands_at(haystack: &[u8], needle: &[u8], i: usize) -> (r: bool)
    requires
        i + needle@.len() <= haystack@.len(),
    ensures
        r == occurs(haystack@, needle@, i as int),
{
    let mut k: usize = 0;
    assert(haystack.len() == haystack@.len());
    while k < needle.len()
        invariant
            k <= needle@.len(),
            i + needle@.len() <= haystack@.len(),
            haystack.len() == haystack@.len(),
            forall|j: int| 0 <= j < k ==> haystack@[i + j] == needle@[j],
        decreases needle@.len() - k,
    {
        if haystack[i + k] != needle[k] {
            assert(haystack@.subrange(i as int, i + needle@.len())[k as int] != needle@[k as int]);
            return false;
        }
        k += 1;
    }
    assert(haystack@.subrange(i as int, i + needle@.len()) =~= needle@);
    true
}

/// Find all start offsets where `needle` occurs in `haystack` (Rabin-Karp).
pub fn find_all(haystack: &[u8], needle: &[u8]) -> (out: Vec<usize>)
    ensures
        out@ == all_places(haystack@, needle@),
{
    let mut out: Vec<usize> = Vec::new();
    if needle.len() == 0 || needle.len() > haystack.len() {
        return out;
    }
    let width: usize = needle.len();
    let rh = RollingHash::new(width);
    let needle_hash: u64 = rh.hash_window(needle);
    let ghost base = DEFAULT_BASE as int;
    let ghost modulus = DEFAULT_MOD as int;
    assert(needle@.take(width as int) =~= needle@);

    let mut window = RollingHash::new(width);
    let mut i: usize = 0;
    assert(haystack@.subrange(0, 0) =~= Seq::<u8>::empty());
    while i < width
        invariant
            i <= width <= haystack@.len(),
            window.wf(),
            window.spec_base() == base,
            window.spec_modulus() == modulus,
            window.spec_width() == width,
            window.spec_filled() == i,
            modulus >= 1,
            window.spec_hash() == poly(haystack@.subrange(0, i as int), base, modulus),
        decreases width - i,
    {
        proof {
            assert(haystack@.subrange(0, i + 1) =~= haystack@.subrange(0, i as int).push(haystack@[i as int]));
            lemma_pushed(haystack@.subrange(0, i as int), haystack@[i as int], base, modulus);
        }
        window.push(haystack[i]);
        i += 1;
    }
    assert(haystack.len() == haystack@.len());
    let mut start: usize = 0;
    let last: usize = haystack.len() - width;
    loop
        invariant_except_break
            out@ == places(haystack@, needle@, start as nat),
        invariant
            start <= last,
            last == haystack@.len() - width,
            haystack.len() == haystack@.len(),
            width == needle@.len(),
            width >= 1,
            needle_hash == poly(needle@, base, modulus),
            window.wf(),
            window.spec_base() == base,
            window.spec_modulus() == modulus,
            window.spec_width() == width,
            window.spec_hash() == poly(haystack@.subrange(start as int, start + width), base, modulus),
        ensures
            out@ == places(haystack@, needle@, (last + 1) as nat),
        decreases last - start,
    {
        if window.hash() == needle_hash && stands_at(haystack, needle, start) {
            out.push(start);
        }
        if start == last {
            break;
        }
        proof {
            let s = haystack@.subrange(start as int, start + width);
            window.lemma_wf();
            lemma_roll(s, haystack@[start + width], base, modulus, window.spec_top());
            assert(haystack@.subrange(start + 1, start + 1 + width) =~= s.drop_first().push(
                haystack@[start + width],
            ));
        }
        window.roll(haystack[start], haystack[start + width]);
        start += 1;
    }
    out
}

/// `true` if `needle` occurs anywhere in `haystack`.
pub fn contains(haystack: &[u8], needle: &[u8]) -> (r: bool)
    ensures
        r == (all_places(haystack@, needle@).len() > 0),
{
    find_all(haystack, needle).len() > 0
}

/// The places found are exactly those where the needle stands.
pub proof fn lemma_places(haystack: Seq<u8>, needle: Seq<u8>, n: nat)
    requires
        n <= usize::MAX,
    ensures
        forall|i: int|
            0 <= i < n ==> (#[trigger] places(haystack, needle, n).contains(i as usize) <==> occurs(
                haystack,
                needle,
                i,
            )),
        forall|j: int| 0 <= j < places(haystack, needle, n).len() ==> (#[trigger] places(haystack, needle, n)[j]) < n,
        forall|j: int, k: int|
            0 <= j < k < places(haystack, needle, n).len() ==> places(haystack, needle, n)[j] < places(
                haystack,
                needle,
                n,
            )[k],
    decreases n,
{
    let p = places(haystack, needle, n);
    if n > 0 {
        lemma_places(haystack, needle, (n - 1) as nat);
        let b = places(haystack, needle, (n - 1) as nat);
        assert forall|i: int| 0 <= i < n implies (#[trigger] p.contains(i as usize) <==> occurs(haystack, needle, i)) by {
            if p.contains(i as usize) {
                let j = choose|j: int| 0 <= j < p.len() && p[j] == i as usize;
                if j < b.len() {
                    assert(b[j] < n - 1);
                    assert(b.contains(i as usize));
                }
            }
            if occurs(haystack, needle, i) {
                if i < n - 1 {
                    assert(b.contains(i as usize));
                    let j = choose|j: int| 0 <= j < b.len() && b[j] == i as usize;
                    assert(p[j] == i as usize);
                } else {
                    assert(p[p.len() - 1] == i as usize);
                }
            }
        }
    }
}

/// A byte mixed into a fingerprint.
pub open spec fn mixed(h: u64, b: u8) -> u64 {
    vstd::wrapping::u64_specs::wrapping_mul(h ^ (b as u64), 1099511628211)
}

/// The fingerprint of a buffer: every byte mixed in, in order.
pub open spec fn fingerprint_of(s: Seq<u8>) -> u64
    decreases s.len(),
{
    if s.len() == 0 {
        1469598103934665603
    } else {
        mixed(fingerprint_of(s.drop_last()), s.last())
    }
}

/// A polynomial fingerprint of a whole buffer.
pub fn fingerprint(data: &[u8]) -> (h: u64)
    ensures
        h == fingerprint_of(data@),
{
    let mut h: u64 = 1469598103934665603;
    let mut i: usize = 0;
    assert(data@.take(0) =~= Seq::<u8>::empty());
    while i < data.len()
        invariant
            i <= data@.len(),
            h == fingerprint_of(data@.take(i as int)),
        decreases data@.len() - i,
    {
        assert(data@.take(i + 1).drop_last() =~= data@.take(i as int));
        h = (h ^ (data[i] as u64)).wrapping_mul(1099511628211);
        i += 1;
    }
    assert(data@.take(i as int) =~= data@);
    h
}

/// The hash of the window that ends with byte `i` has its low bits zero.
pub open spec fn is_hit(data: Seq<u8>, width: int, mask_bits: nat, i: int) -> bool {
    i + 1 >= width && poly(data.subrange(i + 1 - width, i + 1), DEFAULT_BASE as int, DEFAULT_MOD as int)
        % bits::pow2(mask_bits) as int == 0
}

/// The boundaries among the first `n` bytes, and where the next chunk starts.
pub open spec fn cuts(data: Seq<u8>, width: int, mask_bits: nat, min: int, max: int, n: nat) -> (Seq<usize>, int)
    decreases n,
{
    if n == 0 {
        (Seq::empty(), 0)
    } else {
        let (b, start) = cuts(data, width, mask_bits, min, max, (n - 1) as nat);
        let size = n - start;
        if (is_hit(data, width, mask_bits, n - 1) && size >= min) || size >= max {
            (b.push(n as usize), n as int)
        } else {
            (b, start)
        }
    }
}

/// The ends of the chunks of `data`.
pub open spec fn chunk_ends(data: Seq<u8>, width: int, mask_bits: nat, min: int, max: int) -> Seq<usize> {
    let (b, start) = cuts(data, width, mask_bits, min, max, data.len());
    if start < data.len() {
        b.push(data.len() as usize)
    } else {
        b
    }
}

/// Content-defined chunk boundaries: split `data` where the rolling hash over a
/// `window`-byte window (of at least one byte) has its low `mask_bits` bits
/// zero, subject to `[min_size, max_size]` bounds. Returns the end offset of
/// each chunk.
pub fn content_defined_chunks(
    data: &[u8],
    window: usize,
    mask_bits: u32,
    min_size: usize,
    max_size: usize,
) -> (boundaries: Vec<usize>)
    requires
        mask_bits < 64,
    ensures
        boundaries@ == chunk_ends(
            data@,
            if window == 0 {
                1
            } else {
                window as int
            },
            mask_bits as nat,
            min_size as int,
            max_size as int,
        ),
{
    let mut boundaries: Vec<usize> = Vec::new();
    if data.len() == 0 {
        return boundaries;
    }
    let mut unit: u64 = 1;
    let mut k: u32 = 0;
    while k < mask_bits
        invariant
            k <= mask_bits < 64,
            unit == bits::pow2(k as nat),
        decreases mask_bits - k,
    {
        proof {
            bits::lemma_pow2_mono((k + 1) as nat, 63);
            bits::lemma_pow2_values();
        }
        unit = unit * 2;
        k += 1;
    }
    proof {
        bits::lemma_pow2_pos(mask_bits as nat);
    }
    let mut rh = RollingHash::new(window);
    let width: usize = rh.width();
    let ghost base = DEFAULT_BASE as int;
    let ghost modulus = DEFAULT_MOD as int;
    let mut chunk_start: usize = 0;
    let mut i: usize = 0;
    assert(data@.subrange(0, 0) =~= Seq::<u8>::empty());
    while i < data.len()
        invariant
            i <= data@.len(),
            unit == bits::pow2(mask_bits as nat),
            unit > 0,
            width >= 1,
            rh.wf(),
            rh.spec_base() == base,
            rh.spec_modulus() == modulus,
            base == DEFAULT_BASE,
            modulus == DEFAULT_MOD,
            rh.spec_width() == width,
            rh.spec_filled() == (if i < width {
                i as nat
            } else {
                width as nat
            }),
            rh.spec_hash() == poly(
                data@.subrange(
                    if i < width {
                        0
                    } else {
                        i - width
                    },
                    i as int,
                ),
                base,
                modulus,
            ),
            chunk_start <= i,
            (boundaries@, chunk_start as int) == cuts(
                data@,
                width as int,
                mask_bits as nat,
                min_size as int,
                max_size as int,
                i as nat,
            ),
        decreases data@.len() - i,
    {
        let b: u8 = data[i];
        if rh.is_full() {
            proof {
                let s = data@.subrange(i - width, i as int);
                rh.lemma_wf();
                lemma_roll(s, b, base, modulus, rh.spec_top());
                assert(data@.subrange(i + 1 - width, i + 1) =~= s.drop_first().push(b));
            }
            rh.roll(data[i - width], b);
        } else {
            proof {
                let s = data@.subrange(0, i as int);
                lemma_pushed(s, b, base, modulus);
                assert(data@.subrange(0, i + 1) =~= s.push(b));
            }
            rh.push(b);
        }
        let size: usize = i - chunk_start + 1;
        let hit = rh.is_full() && rh.hash() % unit == 0 && size >= min_size;
        if hit || size >= max_size {
            boundaries.push(i + 1);
            chunk_start = i + 1;
        }
        i += 1;
    }
    if chunk_start < data.len() {
        boundaries.push(data.len());
    }
    boundaries
}

proof fn lemma_cuts(data: Seq<u8>, width: int, mask_bits: nat, min: int, max: int, n: nat)
    requires
        n <= usize::MAX,
        1 <= max,
    ensures
        ({
            let (b, start) = cuts(data, width, mask_bits, min, max, n);
            &&& 0 <= start <= n
            &&& n - start < max
            &&& start == (if b.len() == 0 {
                0
            } else {
                b.last() as int
            })
            &&& forall|i: int|
                0 <= i < b.len() ==> {
                    let from = if i == 0 {
                        0
                    } else {
                        b[i - 1] as int
                    };
                    from < #[trigger] b[i] && b[i] - from <= max && (b[i] - from >= min || b[i] - from == max)
                }
        }),
    decreases n,
{
    if n > 0 {
        lemma_cuts(data, width, mask_bits, min, max, (n - 1) as nat);
        let (b, start) = cuts(data, width, mask_bits, min, max, (n - 1) as nat);
        let (c, s2) = cuts(data, width, mask_bits, min, max, n);
        assert forall|i: int| 0 <= i < c.len() implies ({
            let from = if i == 0 {
                0
            } else {
                c[i - 1] as int
            };
            from < #[trigger] c[i] && c[i] - from <= max && (c[i] - from >= min || c[i] - from == max)
        }) by {
            if i < b.len() {
                assert(c[i] == b[i]);
            }
        }
    }
}

/// Chunks follow one another up to the end of the data, none is longer than the
/// largest size, and none but the last is shorter than the smallest unless the
/// largest is.
pub proof fn lemma_chunk_sizes(data: Seq<u8>, width: int, mask_bits: nat, min: int, max: int)
    requires
        0 < data.len() <= usize::MAX,
        1 <= max,
    ensures
        ({
            let b = chunk_ends(data, width, mask_bits, min, max);
            &&& b.len() > 0 && b.last() == data.len()
            &&& forall|i: int|
                0 <= i < b.len() ==> {
                    let from = if i == 0 {
                        0
                    } else {
                        b[i - 1] as int
                    };
                    from < #[trigger] b[i] && b[i] - from <= max && (i == b.len() - 1 || b[i] - from >= min
                        || b[i] - from == max)
                }
        }),
{
    lemma_cuts(data, width, mask_bits, min, max, data.len());
}

} // verus!
