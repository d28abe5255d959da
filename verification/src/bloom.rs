//! Bloom and counting-bloom filters for page/segment pruning.
//!
//! A per-page bloom filter lets a point-lookup skip a page whose filter says a
//! value is definitely absent, without touching the page body. The filters use
//! double hashing (two 64-bit hashes combined) to synthesize `k` probe
//! positions, which is the standard Kirsch-Mitzenmacher construction.
//!
//! The [`CountingBloom`] variant stores 4-bit counters instead of single bits,
//! so entries can be removed (a deletion decrements the counters); it is used
//! where a page's live set shrinks over its lifetime.

use vstd::prelude::*;
use crate::words;
use crate::bytes;
use crate::bits;

verus! {

broadcast use bytes::group_le_len;

/// The SplitMix64 finalizer.
pub open spec fn splitmix(x: u64) -> u64 {
    let z0 = x.wrapping_add(0x9E3779B97F4A7C15u64);
    let z1 = (z0 ^ (z0 >> 30)).wrapping_mul(0xBF58476D1CE4E5B9u64);
    let z2 = (z1 ^ (z1 >> 27)).wrapping_mul(0x94D049BB133111EBu64);
    z2 ^ (z2 >> 31)
}

/// The SplitMix64 finalizer - a fast, good-quality integer hash.
pub fn splitmix64(x: u64) -> (r: u64)
    ensures
        r == splitmix(x),
{
    let z0: u64 = x.wrapping_add(0x9E3779B97F4A7C15);
    let z1: u64 = (z0 ^ (z0 >> 30)).wrapping_mul(0xBF58476D1CE4E5B9);
    let z2: u64 = (z1 ^ (z1 >> 27)).wrapping_mul(0x94D049BB133111EB);
    z2 ^ (z2 >> 31)
}

/// The FNV-1a hash of a byte string: from the offset basis on, each byte is
/// mixed in by exclusive or and a multiplication with the FNV prime.
pub open spec fn fnv(s: Seq<u8>) -> u64
    decreases s.len(),
{
    if s.len() == 0 {
        0xCBF29CE484222325u64
    } else {
        (fnv(s.drop_last()) ^ (s.last() as u64)).wrapping_mul(0x100000001B3u64)
    }
}

/// FNV-1a hash of a byte string.
pub fn fnv1a(bytes: &[u8]) -> (h: u64)
    ensures
        h == fnv(bytes@),
{
    let mut h: u64 = 0xCBF29CE484222325;
    let mut i: usize = 0;
    while i < bytes.len()
        invariant
            i <= bytes@.len(),
            h == fnv(bytes@.subrange(0, i as int)),
        decreases bytes.len() - i,
    {
        proof {
            let s = bytes@.subrange(0, i + 1);
            assert(s.drop_last() =~= bytes@.subrange(0, i as int));
        }
        h = (h ^ (bytes[i] as u64)).wrapping_mul(0x100000001B3);
        i += 1;
    }
    assert(bytes@.subrange(0, i as int) =~= bytes@);
    h
}

/// Probe `i` of a key in a table of `n` places.
pub open spec fn probe(key: u64, i: u64, n: nat) -> nat {
    let h1 = splitmix(key);
    let h2 = splitmix(h1 ^ 0x9E3779B97F4A7C15u64) | 1;
    h1.wrapping_add(i.wrapping_mul(h2)) as nat % n
}

/// The `k` probes of a key in a table of `n` places.
pub open spec fn probes(key: u64, k: u32, n: nat) -> Seq<nat> {
    Seq::new(k as nat, |i: int| probe(key, i as u64, n))
}

/// The probe positions of a key.
fn probe_positions(key: u64, k: u32, n: usize) -> (r: Vec<usize>)
    requires
        n > 0,
    ensures
        r@.map_values(|p: usize| p as nat) == probes(key, k, n as nat),
        forall|i: int| 0 <= i < r@.len() ==> (#[trigger] r@[i]) < n,
        r@.len() == k,
        forall|i: int| 0 <= i < k ==> #[trigger] r@[i] == probes(key, k, n as nat)[i],
{
    let h1: u64 = splitmix64(key);
    let h2: u64 = splitmix64(h1 ^ 0x9E3779B97F4A7C15) | 1;
    let mut r: Vec<usize> = Vec::new();
    let mut i: u32 = 0;
    while i < k
        invariant
            i <= k,
            n > 0,
            h1 == splitmix(key),
            h2 == splitmix(h1 ^ 0x9E3779B97F4A7C15u64) | 1,
            r@.len() == i,
            forall|j: int| 0 <= j < i ==> (#[trigger] r@[j]) == probe(key, j as u64, n as nat) && r@[j] < n,
        decreases k - i,
    {
        let c: u64 = h1.wrapping_add((i as u64).wrapping_mul(h2));
        r.push((c % (n as u64)) as usize);
        i += 1;
    }
    assert(r@.map_values(|p: usize| p as nat) =~= probes(key, k, n as nat));
    r
}

/// A classic bit-array bloom filter.
#[derive(Clone, Debug, PartialEq, Eq)]
pub struct Bloom {
    bits: Vec<u64>,
    nbits: usize,
    k: u32,
}

/// A filter: its words, its number of bits and its number of probes.
#[verifier::ext_equal]
pub struct BloomParts {
    pub words: Seq<u64>,
    pub nbits: nat,
    pub k: u32,
}

/// Every probe of the key finds its bit set.
pub open spec fn may_contain(t: BloomParts, key: u64) -> bool {
    forall|i: int| 0 <= i < t.k ==> words::bit_at(t.words, #[trigger] probes(key, t.k, t.nbits)[i])
}

/// `u` is `t` with the bits of the key's probes set.
pub open spec fn with_key(t: BloomParts, u: BloomParts, key: u64) -> bool {
    &&& u.nbits == t.nbits
    &&& u.k == t.k
    &&& u.words.len() == t.words.len()
    &&& forall|j: nat| #[trigger] words::bit_at(u.words, j) == (words::bit_at(t.words, j) || probes(key, t.k, t.nbits).contains(j))
}

/// A key that was inserted may be contained, and no key is lost.
pub proof fn lemma_no_false_negatives(t: BloomParts, u: BloomParts, key: u64, other: u64)
    requires
        with_key(t, u, key),
    ensures
        may_contain(u, key),
        may_contain(t, other) ==> may_contain(u, other),
{
    let p = probes(key, t.k, t.nbits);
    assert forall|i: int| 0 <= i < u.k implies words::bit_at(u.words, #[trigger] p[i]) by {
        assert(p.contains(p[i]));
    }
}

/// Every key of a filter may be contained in a union with it.
pub proof fn lemma_union_keeps(t: BloomParts, u: BloomParts, key: u64)
    requires
        u.nbits == t.nbits,
        u.k == t.k,
        forall|j: nat| #[trigger] words::bit_at(t.words, j) ==> words::bit_at(u.words, j),
        may_contain(t, key),
    ensures
        may_contain(u, key),
{
    assert forall|i: int| 0 <= i < u.k implies words::bit_at(u.words, #[trigger] probes(key, u.k, u.nbits)[i]) by {
        assert(words::bit_at(t.words, probes(key, t.k, t.nbits)[i]));
    }
}

/// `n` words from the start of the bytes.
pub open spec fn words_read(s: Seq<u8>, n: nat) -> Seq<u64> {
    Seq::new(n, |i: int| bytes::u64_at(s, 8 * i))
}

/// The bytes of a filter: `[u32 nbits][u32 k][words...]`.
pub open spec fn bloom_bytes(t: BloomParts) -> Seq<u8> {
    bytes::le32(t.nbits as u32) + bytes::le32(t.k) + bytes::u64s(t.words)
}

/// The filter in a buffer, where the buffer holds all its words and the machine
/// can address its bits.
pub open spec fn bloom_read(s: Seq<u8>) -> Option<BloomParts> {
    if s.len() < 8 {
        None
    } else {
        let n = (bytes::u32_at(s, 0) as nat + 63) / 64;
        if s.len() < 8 + 8 * n || 64 * n > usize::MAX {
            None
        } else {
            Some(BloomParts { words: words_read(s.skip(8), n), nbits: 64 * n, k: bytes::u32_at(s, 4) })
        }
    }
}

proof fn lemma_words_read(w: Seq<u64>, rest: Seq<u8>)
    ensures
        bytes::u64s(w).len() == 8 * w.len(),
        words_read(bytes::u64s(w) + rest, w.len()) == w,
    decreases w.len(),
{
    let s = bytes::u64s(w) + rest;
    if w.len() > 0 {
        let t = w.drop_first();
        lemma_words_read(t, rest);
        let s2 = bytes::u64s(t) + rest;
        assert(s =~= Seq::<u8>::empty() + bytes::le64(w[0]) + s2);
        bytes::lemma_u64_between(Seq::empty(), w[0], s2);
        assert forall|i: int| 0 <= i < w.len() implies bytes::u64_at(s, 8 * i) == w[i] by {
            if i > 0 {
                assert(words_read(s2, t.len())[i - 1] == t[i - 1]);
                assert(s.subrange(8 * i, 8 * i + 8) =~= s2.subrange(8 * (i - 1), 8 * (i - 1) + 8));
            }
        }
    }
    assert(words_read(s, w.len()) =~= w);
}

/// A filter whose size fits its field is read back as it was written.
pub proof fn lemma_bloom_round_trip(t: BloomParts)
    requires
        t.nbits <= u32::MAX,
        t.nbits <= usize::MAX,
        t.nbits == 64 * t.words.len(),
    ensures
        bloom_read(bloom_bytes(t)) == Some(t),
{
    let s = bloom_bytes(t);
    let b = bytes::u64s(t.words);
    let e = Seq::<u8>::empty();
    bytes::lemma_u32_between(e, t.nbits as u32, bytes::le32(t.k) + b);
    assert(s =~= e + bytes::le32(t.nbits as u32) + (bytes::le32(t.k) + b));
    bytes::lemma_u32_between(bytes::le32(t.nbits as u32), t.k, b);
    lemma_words_read(t.words, e);
    assert(b + e =~= b);
    assert(s.skip(8) =~= b);
}

impl Bloom {
    pub closed spec fn parts(&self) -> BloomParts {
        BloomParts { words: self.bits@, nbits: self.nbits as nat, k: self.k }
    }

    /// The filter has bits, and words for all of them.
    pub open spec fn wf(&self) -> bool {
        &&& self.parts().nbits > 0
        &&& self.parts().nbits == 64 * self.parts().words.len()
    }

    /// Build with explicit sizing.
    pub fn new(nbits: usize, k: u32) -> (r: Bloom)
        requires
            nbits <= usize::MAX - 63,
        ensures
            r.wf(),
            r.parts().nbits == (if nbits == 0 {
                64
            } else {
                (nbits + 63) / 64 * 64
            }),
            r.parts().k == (if k == 0 {
                1
            } else if k > 30 {
                30
            } else {
                k
            }),
            forall|j: nat| !words::bit_at(r.parts().words, j),
    {
        let words: usize = if nbits == 0 {
            1
        } else {
            (nbits + 63) / 64
        };
        let k: u32 = if k == 0 {
            1
        } else if k > 30 {
            30
        } else {
            k
        };
        Bloom { bits: words::zeroed(words), nbits: words * 64, k }
    }

    /// Number of hash probes.
    pub fn hashes(&self) -> (r: u32)
        ensures
            r == self.parts().k,
    {
        self.k
    }

    /// Number of addressable bits.
    pub fn bit_capacity(&self) -> (r: usize)
        ensures
            r == self.parts().nbits,
    {
        self.nbits
    }

    /// Insert a 64-bit key.
    pub fn insert(&mut self, key: u64)
        requires
            old(self).wf(),
        ensures
            final(self).wf(),
            with_key(old(self).parts(), final(self).parts(), key),
    {
        let ps = probe_positions(key, self.k, self.nbits);
        let ghost w0 = self.bits@;
        let ghost pr = probes(key, self.k, self.nbits as nat);
        let mut i: usize = 0;
        while i < ps.len()
            invariant
                i <= ps@.len(),
                ps@.len() == pr.len(),
                forall|j: int| 0 <= j < ps@.len() ==> (#[trigger] ps@[j]) == pr[j] && ps@[j] < self.nbits,
                self.nbits == old(self).nbits,
                self.k == old(self).k,
                self.nbits == 64 * self.bits@.len(),
                self.bits@.len() == w0.len(),
                forall|j: nat| #[trigger]
                    words::bit_at(self.bits@, j) == (words::bit_at(w0, j) || pr.subrange(0, i as int).contains(j)),
            decreases ps.len() - i,
        {
            let ghost w1 = self.bits@;
            words::put(&mut self.bits, ps[i]);
            proof {
                let a = pr.subrange(0, i as int);
                let b = pr.subrange(0, i + 1);
                assert(b =~= a.push(pr[i as int]));
                assert forall|j: nat| #[trigger] words::bit_at(self.bits@, j) == (words::bit_at(w0, j) || b.contains(j)) by {
                    lemma_push_has(a, pr[i as int], j);
                    assert(words::bit_at(w1, j) == (words::bit_at(w0, j) || a.contains(j)));
                    assert(ps@[i as int] == pr[i as int]);
                }
            }
            i += 1;
        }
        assert(pr.subrange(0, i as int) =~= pr);
    }

    /// Insert an integer element.
    pub fn insert_i64(&mut self, v: i64)
        requires
            old(self).wf(),
        ensures
            final(self).wf(),
            with_key(old(self).parts(), final(self).parts(), bytes::twos(v)),
    {
        self.insert(bytes::to_twos(v));
    }

    /// Insert a byte string.
    pub fn insert_bytes(&mut self, b: &[u8])
        requires
            old(self).wf(),
        ensures
            final(self).wf(),
            with_key(old(self).parts(), final(self).parts(), fnv(b@)),
    {
        self.insert(fnv1a(b));
    }

    /// `true` if the key may be present (`false` means definitely absent).
    pub fn contains(&self, key: u64) -> (r: bool)
        requires
            self.wf(),
        ensures
            r == may_contain(self.parts(), key),
    {
        let ps = probe_positions(key, self.k, self.nbits);
        let ghost pr = probes(key, self.k, self.nbits as nat);
        let mut i: usize = 0;
        while i < ps.len()
            invariant
                i <= ps@.len(),
                ps@.len() == pr.len(),
                ps@.len() == self.k,
                pr == probes(key, self.k, self.nbits as nat),
                forall|j: int| 0 <= j < ps@.len() ==> (#[trigger] ps@[j]) == pr[j],
                forall|j: int| 0 <= j < i ==> words::bit_at(self.bits@, #[trigger] pr[j]),
            decreases ps.len() - i,
        {
            if !words::get(&self.bits, ps[i]) {
                assert(!words::bit_at(self.parts().words, probes(key, self.parts().k, self.parts().nbits)[i as int]));
                return false;
            }
            i += 1;
        }
        true
    }

    /// Membership query for an integer element.
    pub fn contains_i64(&self, v: i64) -> (r: bool)
        requires
            self.wf(),
        ensures
            r == may_contain(self.parts(), bytes::twos(v)),
    {
        self.contains(bytes::to_twos(v))
    }

    /// Membership query for a byte string.
    pub fn contains_bytes(&self, b: &[u8]) -> (r: bool)
        requires
            self.wf(),
        ensures
            r == may_contain(self.parts(), fnv(b@)),
    {
        self.contains(fnv1a(b))
    }

    /// Number of set bits, as a saturation measure.
    pub fn popcount(&self) -> (r: usize)
        requires
            self.wf(),
        ensures
            r == words::set_bits(self.parts().words, self.parts().nbits),
    {
        proof {
            words::lemma_set_bits_len(self.bits@, 64 * self.bits@.len());
        }
        words::count_range(&self.bits, 0, self.bits.len())
    }

    /// Union another filter of identical geometry into this one.
    pub fn union(&mut self, other: &Bloom) -> (r: bool)
        requires
            old(self).wf(),
            other.wf(),
        ensures
            final(self).wf(),
            r == (old(self).parts().nbits == other.parts().nbits && old(self).parts().k == other.parts().k),
            final(self).parts().nbits == old(self).parts().nbits,
            final(self).parts().k == old(self).parts().k,
            !r ==> final(self).parts() == old(self).parts(),
            r ==> forall|j: nat| #[trigger]
                words::bit_at(final(self).parts().words, j) == (words::bit_at(old(self).parts().words, j) || words::bit_at(
                    other.parts().words,
                    j,
                )),
    {
        if self.nbits != other.nbits || self.k != other.k {
            return false;
        }
        let ghost w0 = self.bits@;
        let mut i: usize = 0;
        while i < self.bits.len()
            invariant
                i <= self.bits@.len(),
                self.nbits == old(self).nbits,
                self.k == old(self).k,
                self.bits@.len() == w0.len(),
                self.nbits == 64 * self.bits@.len(),
                other.bits@.len() == w0.len(),
                forall|j: nat| #[trigger]
                    words::bit_at(self.bits@, j) == (words::bit_at(w0, j) || j < 64 * i && words::bit_at(other.bits@, j)),
                forall|x: int| i <= x < w0.len() ==> self.bits@[x] == w0[x],
            decreases self.bits.len() - i,
        {
            let ghost w1 = self.bits@;
            let a: u64 = self.bits[i];
            let b: u64 = other.bits[i];
            self.bits.set(i, a | b);
            proof {
                assert forall|j: nat| #[trigger]
                    words::bit_at(self.bits@, j) == (words::bit_at(w0, j) || j < 64 * (i + 1) && words::bit_at(other.bits@, j)) by {
                    bits::lemma_bit_or(a, b, j % 64);
                    assert(words::bit_at(w1, j) == (words::bit_at(w0, j) || j < 64 * i && words::bit_at(other.bits@, j)));
                }
            }
            i += 1;
        }
        true
    }

    /// Serialize to bytes: `[u32 nbits][u32 k][words...]`.
    pub fn encode(&self) -> (out: Vec<u8>)
        ensures
            out@ == bloom_bytes(self.parts()),
    {
        let mut out: Vec<u8> = Vec::new();
        bytes::put_u32(&mut out, self.nbits as u32);
        bytes::put_u32(&mut out, self.k);
        bytes::put_u64s(&mut out, &self.bits);
        out
    }

    /// Deserialize a filter produced by [`encode`](Self::encode).
    pub fn decode(buf: &[u8]) -> (r: Option<Bloom>)
        ensures
            match r {
                None => bloom_read(buf@) is None,
                Some(b) => bloom_read(buf@) == Some(b.parts()),
            },
    {
        if buf.len() < 8 {
            return None;
        }
        let nbits: u32 = bytes::get_u32(buf, 0);
        let k: u32 = bytes::get_u32(buf, 4);
        let words: usize = ((nbits as u64 + 63) / 64) as usize;
        if (buf.len() - 8) / 8 < words || words > usize::MAX / 64 {
            return None;
        }
        let mut bits: Vec<u64> = Vec::new();
        let mut i: usize = 0;
        while i < words
            invariant
                i <= words,
                8 + 8 * words <= buf@.len(),
                words <= usize::MAX / 64,
                bits@.len() == i,
                forall|j: int| 0 <= j < i ==> #[trigger] bits@[j] == bytes::u64_at(buf@.skip(8), 8 * j),
            decreases words - i,
        {
            assert(8 + 8 * i + 8 <= buf.len());
            proof {
                let s = buf@.skip(8);
                assert(s.subrange(8 * i, 8 * i + 8) =~= buf@.subrange(8 + 8 * i, 8 + 8 * i + 8));
            }
            bits.push(bytes::get_u64(buf, 8 + i * 8));
            i += 1;
        }
        assert(bits@ =~= words_read(buf@.skip(8), words as nat));
        Some(Bloom { bits, nbits: words * 64, k })
    }
}

proof fn lemma_push_has(s: Seq<nat>, y: nat, x: nat)
    ensures
        s.push(y).contains(x) <==> s.contains(x) || x == y,
{
    let t = s.push(y);
    assert(t[s.len() as int] == y);
    if s.contains(x) {
        let i = choose|i: int| 0 <= i < s.len() && s[i] == x;
        assert(t[i] == x);
    }
}

/// How often `q` occurs.
pub open spec fn occurrences(ps: Seq<nat>, q: nat) -> nat
    decreases ps.len(),
{
    if ps.len() == 0 {
        0
    } else {
        occurrences(ps.drop_last(), q) + (if ps.last() == q {
            1nat
        } else {
            0nat
        })
    }
}

proof fn lemma_occurs(ps: Seq<nat>, i: int)
    requires
        0 <= i < ps.len(),
    ensures
        occurrences(ps, ps[i]) > 0,
    decreases ps.len(),
{
    if i < ps.len() - 1 {
        lemma_occurs(ps.drop_last(), i);
    }
}

/// A counter raised `n` times saturates at 15.
pub open spec fn raised(c: nat, n: nat) -> nat {
    if c + n > 15 {
        15
    } else {
        c + n
    }
}

/// A counter lowered `n` times stops at 0.
pub open spec fn lowered(c: nat, n: nat) -> nat {
    if c < n {
        0
    } else {
        (c - n) as nat
    }
}

/// A counting bloom filter with 4-bit saturating counters.
#[derive(Clone, Debug, PartialEq, Eq)]
pub struct CountingBloom {
    /// Two counters per byte (low nibble = even slot, high nibble = odd slot).
    counters: Vec<u8>,
    nslots: usize,
    k: u32,
}

/// The nibble of a slot.
pub open spec fn nibble(c: Seq<u8>, slot: nat) -> nat {
    let b = c[(slot / 2) as int] as nat;
    if slot % 2 == 0 {
        b % 16
    } else {
        b / 16
    }
}

impl CountingBloom {
    /// The counter of a slot.
    pub closed spec fn count(&self, slot: nat) -> nat {
        nibble(self.counters@, slot)
    }

    pub closed spec fn slots(&self) -> nat {
        self.nslots as nat
    }

    pub closed spec fn hash_count(&self) -> u32 {
        self.k
    }

    /// There are slots, and counters for all of them.
    pub closed spec fn wf(&self) -> bool {
        &&& self.nslots > 0
        &&& self.counters@.len() == (self.nslots + 1) / 2
    }

    /// The probe slots of a key.
    pub open spec fn probed(&self, key: u64) -> Seq<nat> {
        probes(key, self.hash_count(), self.slots())
    }

    /// An empty filter with the geometry of a bloom filter.
    pub fn sized_like(template: &Bloom) -> (r: CountingBloom)
        requires
            template.wf(),
        ensures
            r.wf(),
            r.slots() == template.parts().nbits,
            r.hash_count() == template.parts().k,
            forall|s: nat| s < r.slots() ==> #[trigger] r.count(s) == 0,
    {
        let nslots: usize = template.nbits;
        CountingBloom { counters: vec![0u8; nslots / 2], nslots, k: template.k }
    }

    fn get(&self, slot: usize) -> (c: u8)
        requires
            self.wf(),
            slot < self.nslots,
        ensures
            c == self.count(slot as nat),
    {
        let byte: u8 = self.counters[slot / 2];
        if slot % 2 == 0 {
            byte % 16
        } else {
            byte / 16
        }
    }

    fn adjust(&mut self, slot: usize, up: bool)
        requires
            old(self).wf(),
            slot < old(self).nslots,
        ensures
            final(self).wf(),
            final(self).nslots == old(self).nslots,
            final(self).k == old(self).k,
            forall|s: nat|
                s < old(self).nslots ==> #[trigger] final(self).count(s) == (if s == slot {
                    if up {
                        raised(old(self).count(s), 1)
                    } else {
                        lowered(old(self).count(s), 1)
                    }
                } else {
                    old(self).count(s)
                }),
    {
        let idx: usize = slot / 2;
        let byte: u8 = self.counters[idx];
        let lo: u8 = byte % 16;
        let hi: u8 = byte / 16;
        let target: u8 = if slot % 2 == 0 {
            lo
        } else {
            hi
        };
        let moved: u8 = if up {
            if target < 15 {
                target + 1
            } else {
                target
            }
        } else if target > 0 {
            target - 1
        } else {
            target
        };
        let v: u8 = if slot % 2 == 0 {
            hi * 16 + moved
        } else {
            moved * 16 + lo
        };
        self.counters.set(idx, v);
    }

    /// Insert a key.
    pub fn insert(&mut self, key: u64)
        requires
            old(self).wf(),
        ensures
            final(self).wf(),
            final(self).slots() == old(self).slots(),
            final(self).hash_count() == old(self).hash_count(),
            forall|s: nat|
                s < old(self).slots() ==> #[trigger] final(self).count(s) == raised(
                    old(self).count(s),
                    occurrences(old(self).probed(key), s),
                ),
    {
        self.adjust_all(key, true);
    }

    fn adjust_all(&mut self, key: u64, up: bool)
        requires
            old(self).wf(),
        ensures
            final(self).wf(),
            final(self).nslots == old(self).nslots,
            final(self).k == old(self).k,
            forall|s: nat|
                s < old(self).nslots ==> #[trigger] final(self).count(s) == (if up {
                    raised(old(self).count(s), occurrences(old(self).probed(key), s))
                } else {
                    lowered(old(self).count(s), occurrences(old(self).probed(key), s))
                }),
    {
        let ps = probe_positions(key, self.k, self.nslots);
        let ghost pr = self.probed(key);
        let ghost c0 = *self;
        let mut i: usize = 0;
        proof {
            assert(pr.subrange(0, 0) =~= Seq::<nat>::empty());
            assert forall|s: nat| s < c0.nslots implies #[trigger] self.count(s) <= 15 by {}
        }
        while i < ps.len()
            invariant
                i <= ps@.len(),
                ps@.len() == pr.len(),
                pr == c0.probed(key),
                forall|j: int| 0 <= j < ps@.len() ==> (#[trigger] ps@[j]) == pr[j] && ps@[j] < self.nslots,
                self.wf(),
                self.nslots == c0.nslots,
                self.k == c0.k,
                forall|s: nat|
                    s < c0.nslots ==> #[trigger] self.count(s) == (if up {
                        raised(c0.count(s), occurrences(pr.subrange(0, i as int), s))
                    } else {
                        lowered(c0.count(s), occurrences(pr.subrange(0, i as int), s))
                    }),
            decreases ps.len() - i,
        {
            self.adjust(ps[i], up);
            proof {
                let b = pr.subrange(0, i + 1);
                assert(b.drop_last() =~= pr.subrange(0, i as int));
                assert(b.last() == ps@[i as int]);
            }
            i += 1;
        }
        assert(pr.subrange(0, i as int) =~= pr);
    }

    /// Remove a key (decrements counters; a no-op for an absent key up to
    /// counter saturation).
    pub fn remove(&mut self, key: u64)
        requires
            old(self).wf(),
        ensures
            final(self).wf(),
            final(self).slots() == old(self).slots(),
            final(self).hash_count() == old(self).hash_count(),
            forall|s: nat|
                s < old(self).slots() ==> #[trigger] final(self).count(s) == lowered(
                    old(self).count(s),
                    occurrences(old(self).probed(key), s),
                ),
    {
        self.adjust_all(key, false);
    }

    /// `true` if the key may be present.
    pub fn contains(&self, key: u64) -> (r: bool)
        requires
            self.wf(),
        ensures
            r == forall|i: int| 0 <= i < self.hash_count() ==> self.count(#[trigger] self.probed(key)[i]) > 0,
    {
        let ps = probe_positions(key, self.k, self.nslots);
        let ghost pr = self.probed(key);
        let mut i: usize = 0;
        while i < ps.len()
            invariant
                i <= ps@.len(),
                ps@.len() == pr.len(),
                ps@.len() == self.k,
                pr == self.probed(key),
                self.wf(),
                forall|j: int| 0 <= j < ps@.len() ==> (#[trigger] ps@[j]) == pr[j] && ps@[j] < self.nslots,
                forall|j: int| 0 <= j < i ==> self.count(#[trigger] pr[j]) > 0,
            decreases ps.len() - i,
        {
            if self.get(ps[i]) == 0 {
                assert(!(self.count(self.probed(key)[i as int]) > 0));
                return false;
            }
            i += 1;
        }
        true
    }
}

/// A key that was inserted is found in its slots.
pub proof fn lemma_counting_insert(c: nat, ps: Seq<nat>, i: int)
    requires
        0 <= i < ps.len(),
    ensures
        raised(c, occurrences(ps, ps[i])) > 0,
{
    lemma_occurs(ps, i);
}

/// Removing what was inserted restores every counter that did not saturate.
pub proof fn lemma_counting_remove(c: nat, n: nat)
    requires
        c + n <= 15,
    ensures
        lowered(raised(c, n), n) == c,
{
}

} // verus!
