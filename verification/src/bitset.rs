//! A growable dense bit set.
//!
//! Selection vectors, visited masks in graph traversals, and column-liveness
//! tracking all want a compact set of small non-negative integers with fast
//! membership, iteration, and set algebra. This is a word-packed bit set that
//! grows on demand, with population counts, rank/select, and the usual boolean
//! combinators.

use vstd::prelude::*;
use crate::words;
use crate::bits;

verus! {

/// A set of non-negative integers backed by a bit vector.
#[derive(Clone, Debug, PartialEq, Eq)]
pub struct BitSet {
    words: Vec<u64>,
}

impl BitSet {
    /// The members.
    pub closed spec fn view(&self) -> Set<nat> {
        words::positions(self.words@)
    }

    /// The bits are addressable.
    pub closed spec fn wf(&self) -> bool {
        64 * self.words@.len() <= usize::MAX + 1
    }

    /// The number of members below `n`.
    pub closed spec fn below(&self, n: nat) -> nat {
        words::set_bits(self.words@, n)
    }

    /// [`below`](Self::below) counts the members below a bound.
    pub proof fn lemma_below(&self, n: nat)
        ensures
            self.below(n) == Set::new(|i: nat| i < n && self@.contains(i)).len(),
            self@.finite(),
            self.below(n) <= self@.len(),
    {
        words::lemma_set_bits_len(self.words@, n);
        words::lemma_positions(self.words@);
        let s = Set::new(|i: nat| i < n && self@.contains(i));
        assert(s =~= words::positions_below(self.words@, n));
        assert(s.subset_of(self@));
        vstd::set_lib::lemma_len_subset(s, self@);
    }

    /// An empty set.
    pub fn new() -> (r: BitSet)
        ensures
            r.wf(),
            r@ == Set::<nat>::empty(),
    {
        let r = BitSet { words: Vec::new() };
        assert(r@ =~= Set::<nat>::empty());
        r
    }

    /// An empty set pre-sized to hold values up to `capacity - 1`.
    pub fn with_capacity(capacity: usize) -> (r: BitSet)
        ensures
            r.wf(),
            r@ == Set::<nat>::empty(),
    {
        let n: usize = capacity / 64 + (if capacity % 64 != 0 {
            1usize
        } else {
            0usize
        });
        let r = BitSet { words: words::zeroed(n) };
        assert(r@ =~= Set::<nat>::empty());
        r
    }

    /// A set containing `0..n`.
    pub fn full(n: usize) -> (r: BitSet)
        ensures
            r.wf(),
            forall|i: nat| #[trigger] r@.contains(i) <==> i < n,
    {
        let mut s = BitSet::with_capacity(n);
        let mut i: usize = 0;
        while i < n
            invariant
                i <= n,
                s.wf(),
                forall|j: nat| #[trigger] s@.contains(j) <==> j < i,
            decreases n - i,
        {
            s.insert(i);
            i += 1;
        }
        s
    }

    fn ensure(&mut self, word: usize)
        requires
            old(self).wf(),
            word <= usize::MAX / 64,
        ensures
            final(self).wf(),
            final(self)@ == old(self)@,
            final(self).words@.len() > word,
            final(self).words@.len() >= old(self).words@.len(),
            forall|i: nat| words::bit_at(final(self).words@, i) == words::bit_at(old(self).words@, i),
            final(self).words@.len() == (if old(self).words@.len() > word {
                old(self).words@.len()
            } else {
                word as nat + 1
            }),
    {
        let ghost w0 = self.words@;
        while self.words.len() <= word
            invariant
                self.wf(),
                word <= usize::MAX / 64,
                self.words@.len() >= w0.len(),
                self.words@.len() <= word + 1 || self.words@.len() == w0.len(),
                forall|i: int| 0 <= i < w0.len() ==> self.words@[i] == w0[i],
                forall|i: int| w0.len() <= i < self.words@.len() ==> self.words@[i] == 0,
            decreases word + 1 - self.words@.len(),
        {
            self.words.push(0);
        }
        proof {
            assert forall|i: nat| words::bit_at(self.words@, i) == words::bit_at(w0, i) by {
                bits::lemma_bit_zero(i % 64);
            }
            assert(self@ =~= old(self)@);
        }
    }

    /// Insert `bit`; returns `true` if newly added.
    pub fn insert(&mut self, bit: usize) -> (r: bool)
        requires
            old(self).wf(),
        ensures
            final(self).wf(),
            final(self)@ == old(self)@.insert(bit as nat),
            r == !old(self)@.contains(bit as nat),
    {
        self.ensure(bit / 64);
        let was = words::get(&self.words, bit);
        words::put(&mut self.words, bit);
        assert(self@ =~= old(self)@.insert(bit as nat));
        !was
    }

    /// Remove `bit`; returns `true` if it was present.
    pub fn remove(&mut self, bit: usize) -> (r: bool)
        requires
            old(self).wf(),
        ensures
            final(self).wf(),
            final(self)@ == old(self)@.remove(bit as nat),
            r == old(self)@.contains(bit as nat),
    {
        if bit / 64 >= self.words.len() {
            assert(self@ =~= old(self)@.remove(bit as nat));
            return false;
        }
        let was = words::get(&self.words, bit);
        words::unset(&mut self.words, bit);
        assert(self@ =~= old(self)@.remove(bit as nat));
        was
    }

    /// Membership test.
    pub fn contains(&self, bit: usize) -> (r: bool)
        ensures
            r == self@.contains(bit as nat),
    {
        words::get(&self.words, bit)
    }

    /// Number of set bits.
    pub fn count(&self) -> (r: usize)
        requires
            self@.len() <= usize::MAX,
        ensures
            r == self@.len(),
    {
        proof {
            words::lemma_positions(self.words@);
        }
        words::count_range(&self.words, 0, self.words.len())
    }

    /// `true` if no bits are set.
    pub fn is_empty(&self) -> (r: bool)
        ensures
            r == (self@ == Set::<nat>::empty()),
    {
        let mut i: usize = 0;
        while i < self.words.len()
            invariant
                i <= self.words@.len(),
                forall|j: int| 0 <= j < i ==> self.words@[j] == 0,
            decreases self.words.len() - i,
        {
            if self.words[i] != 0 {
                proof {
                    let k = words::lemma_nonzero(self.words@[i as int]);
                    assert((64 * i + k) / 64 == i && (64 * i + k) % 64 == k);
                    assert(self@.contains((64 * i + k) as nat));
                }
                return false;
            }
            i += 1;
        }
        proof {
            words::lemma_zeros(self.words@);
            assert(self@ =~= Set::<nat>::empty());
        }
        true
    }

    /// The largest set bit, if any.
    pub fn max(&self) -> (r: Option<usize>)
        requires
            self.wf(),
        ensures
            match r {
                Some(b) => self@.contains(b as nat) && forall|i: nat| #[trigger] self@.contains(i) ==> i <= b,
                None => self@ == Set::<nat>::empty(),
            },
    {
        let mut i: usize = self.words.len();
        while i > 0
            invariant
                self.wf(),
                i <= self.words@.len(),
                forall|j: nat| #[trigger] words::bit_at(self.words@, j) ==> j < 64 * i,
            decreases i,
        {
            let w: u64 = self.words[i - 1];
            let mut b: usize = 64;
            while b > 0
                invariant
                    self.wf(),
                    0 < i <= self.words@.len(),
                    b <= 64,
                    w == self.words@[i - 1],
                    forall|j: nat| #[trigger] words::bit_at(self.words@, j) ==> j < 64 * (i - 1) + b,
                decreases b,
            {
                if bits::test_bit(w, (b - 1) as u64) {
                    let r: usize = (i - 1) * 64 + (b - 1);
                    proof {
                        assert(r / 64 == i - 1 && r % 64 == b - 1);
                        assert(words::bit_at(self.words@, r as nat));
                    }
                    return Some(r);
                }
                b -= 1;
                proof {
                    let p = (64 * (i - 1) + b) as nat;
                    assert(p / 64 == i - 1 && p % 64 == b);
                    assert(!words::bit_at(self.words@, p));
                }
            }
            i -= 1;
        }
        assert(self@ =~= Set::<nat>::empty());
        None
    }

    /// The smallest set bit, if any.
    pub fn min(&self) -> (r: Option<usize>)
        requires
            self.wf(),
        ensures
            match r {
                Some(b) => self@.contains(b as nat) && forall|i: nat| #[trigger] self@.contains(i) ==> b <= i,
                None => self@ == Set::<nat>::empty(),
            },
    {
        self.find(0)
    }

    /// The first set bit of the words from `from` on.
    fn find(&self, from: usize) -> (r: Option<usize>)
        requires
            self.wf(),
            from <= self.words@.len(),
        ensures
            match r {
                Some(b) => 64 * from <= b && self@.contains(b as nat) && forall|i: nat| #[trigger]
                    self@.contains(i) && 64 * from <= i ==> b <= i,
                None => forall|i: nat| #[trigger] self@.contains(i) ==> i < 64 * from,
            },
    {
        let mut i: usize = from;
        while i < self.words.len()
            invariant
                self.wf(),
                from <= i <= self.words@.len(),
                forall|j: nat| #[trigger] words::bit_at(self.words@, j) && 64 * from <= j ==> 64 * i <= j,
            decreases self.words.len() - i,
        {
            let w: u64 = self.words[i];
            let mut b: usize = 0;
            while b < 64
                invariant
                    self.wf(),
                    from <= i < self.words@.len(),
                    b <= 64,
                    w == self.words@[i as int],
                    forall|j: nat| #[trigger] words::bit_at(self.words@, j) && 64 * from <= j ==> 64 * i + b <= j,
                decreases 64 - b,
            {
                if bits::test_bit(w, b as u64) {
                    let r: usize = i * 64 + b;
                    proof {
                        assert(r / 64 == i && r % 64 == b);
                        assert(words::bit_at(self.words@, r as nat));
                    }
                    return Some(r);
                }
                proof {
                    let p = (64 * i + b) as nat;
                    assert(p / 64 == i && p % 64 == b);
                    assert(!words::bit_at(self.words@, p));
                }
                b += 1;
            }
            i += 1;
        }
        None
    }

    /// Number of set bits strictly below `bit`.
    pub fn rank(&self, bit: usize) -> (r: usize)
        ensures
            r == self.below(bit as nat),
    {
        let w: usize = bit / 64;
        let n: usize = if w < self.words.len() {
            w
        } else {
            self.words.len()
        };
        proof {
            words::lemma_set_bits_len(self.words@, bit as nat);
            words::lemma_set_bits_mono(self.words@, 64 * n as nat, bit as nat);
        }
        let mut total = words::count_range(&self.words, 0, n);
        if w < self.words.len() {
            let v: u64 = self.words[w];
            let mut k: usize = 0;
            while k < bit % 64
                invariant
                    k <= bit % 64,
                    w == bit / 64,
                    w < self.words@.len(),
                    v == self.words@[w as int],
                    total == words::set_bits(self.words@, (64 * w + k) as nat),
                decreases bit % 64 - k,
            {
                proof {
                    let p = (64 * w + k) as nat;
                    assert(p / 64 == w && p % 64 == k);
                    words::lemma_set_bits_len(self.words@, p);
                }
                if bits::test_bit(v, k as u64) {
                    total += 1;
                }
                k += 1;
                assert((64 * w + k - 1) as nat == ((64 * w + k) as nat - 1) as nat);
            }
        } else {
            proof {
                lemma_beyond(self.words@, bit as nat);
            }
        }
        total
    }

    /// The position of the `n`-th set bit (0-indexed), if it exists.
    pub fn select(&self, n: usize) -> (r: Option<usize>)
        requires
            self.wf(),
        ensures
            match r {
                Some(b) => self@.contains(b as nat) && self.below(b as nat) == n,
                None => self@.len() <= n,
            },
    {
        let mut left: usize = n;
        let mut i: usize = 0;
        while i < self.words.len()
            invariant
                self.wf(),
                i <= self.words@.len(),
                left + words::set_bits(self.words@, 64 * i as nat) == n,
            decreases self.words.len() - i,
        {
            let w: u64 = self.words[i];
            let c: usize = bits::count_ones(w) as usize;
            proof {
                words::lemma_set_bits_word(self.words@, i as nat, 64);
                assert(64 * i as nat + 64 == 64 * (i + 1) as nat);
            }
            if left < c {
                let mut k: usize = 0;
                while k < 64
                    invariant
                        self.wf(),
                        i < self.words@.len(),
                        w == self.words@[i as int],
                        k <= 64,
                        left + words::set_bits(self.words@, (64 * i + k) as nat) == n,
                        n < words::set_bits(self.words@, 64 * (i + 1) as nat),
                    decreases 64 - k,
                {
                    proof {
                        let p = (64 * i + k) as nat;
                        assert(p / 64 == i && p % 64 == k);
                        assert((p + 1 - 1) as nat == p);
                    }
                    if bits::test_bit(w, k as u64) {
                        if left == 0 {
                            return Some(i * 64 + k);
                        }
                        left -= 1;
                    }
                    k += 1;
                }
                assert(64 * i + 64 == 64 * (i + 1));
            }
            left -= c;
            i += 1;
        }
        proof {
            words::lemma_positions(self.words@);
        }
        None
    }

    /// Collect all set bits in ascending order.
    pub fn to_vec(&self) -> (out: Vec<usize>)
        requires
            self.wf(),
        ensures
            forall|i: int, j: int| 0 <= i < j < out@.len() ==> out@[i] < out@[j],
            forall|x: usize| #[trigger] out@.contains(x) <==> self@.contains(x as nat),
            out@.len() == self@.len(),
    {
        let mut out: Vec<usize> = Vec::new();
        let mut i: usize = 0;
        while i < self.words.len()
            invariant
                self.wf(),
                i <= self.words@.len(),
                words::lists(out@, self.words@, 64 * i as nat),
            decreases self.words.len() - i,
        {
            let w: u64 = self.words[i];
            let mut k: usize = 0;
            while k < 64
                invariant
                    self.wf(),
                    i < self.words@.len(),
                    w == self.words@[i as int],
                    k <= 64,
                    words::lists(out@, self.words@, (64 * i + k) as nat),
                decreases 64 - k,
            {
                proof {
                    let p = (64 * i + k) as nat;
                    assert(p / 64 == i && p % 64 == k);
                    assert((p + 1 - 1) as nat == p);
                }
                if bits::test_bit(w, k as u64) {
                    out.push(i * 64 + k);
                }
                k += 1;
            }
            assert(64 * i + 64 == 64 * (i + 1));
            i += 1;
        }
        proof {
            let n = 64 * self.words@.len();
            words::lemma_positions(self.words@);
            assert forall|x: usize| #[trigger] out@.contains(x) <==> self@.contains(x as nat) by {
                if self@.contains(x as nat) {
                    words::lemma_lists_all(out@, self.words@, n, x);
                }
                if out@.contains(x) {
                    let j = choose|j: int| 0 <= j < out@.len() && out@[j] == x;
                    assert(words::bit_at(self.words@, out@[j] as nat));
                }
            }
        }
        out
    }

    /// In-place union.
    pub fn union_with(&mut self, other: &BitSet)
        requires
            old(self).wf(),
            other.wf(),
        ensures
            final(self).wf(),
            final(self)@ == old(self)@.union(other@),
    {
        let n: usize = other.words.len();
        self.ensure(if n > 0 {
            n - 1
        } else {
            0
        });
        let ghost w1 = self.words@;
        let mut i: usize = 0;
        while i < n
            invariant
                self.wf(),
                i <= n,
                n == other.words@.len(),
                n <= self.words@.len(),
                self.words@.len() == w1.len(),
                forall|j: nat| #[trigger]
                    words::bit_at(self.words@, j) == (words::bit_at(w1, j) || j < 64 * i && words::bit_at(other.words@, j)),
                forall|k: int| i <= k < w1.len() ==> self.words@[k] == w1[k],
            decreases n - i,
        {
            let ghost w2 = self.words@;
            let a: u64 = self.words[i];
            let b: u64 = other.words[i];
            self.words.set(i, a | b);
            proof {
                assert forall|j: nat| #[trigger]
                    words::bit_at(self.words@, j) == (words::bit_at(w1, j) || j < 64 * (i + 1) && words::bit_at(other.words@, j)) by {
                    bits::lemma_bit_or(a, b, j % 64);
                    assert(words::bit_at(w2, j) == (words::bit_at(w1, j) || j < 64 * i && words::bit_at(other.words@, j)));
                }
            }
            i += 1;
        }
        assert(self@ =~= old(self)@.union(other@));
    }

    /// In-place intersection.
    pub fn intersect_with(&mut self, other: &BitSet)
        requires
            old(self).wf(),
        ensures
            final(self).wf(),
            final(self)@ == old(self)@.intersect(other@),
    {
        let ghost w1 = self.words@;
        let mut i: usize = 0;
        while i < self.words.len()
            invariant
                self.wf(),
                i <= self.words@.len(),
                self.words@.len() == w1.len(),
                forall|j: nat| #[trigger]
                    words::bit_at(self.words@, j) == (words::bit_at(w1, j) && (j < 64 * i ==> words::bit_at(other.words@, j))),
                forall|k: int| i <= k < w1.len() ==> self.words@[k] == w1[k],
            decreases self.words.len() - i,
        {
            let ghost w2 = self.words@;
            let a: u64 = self.words[i];
            let b: u64 = word_or_zero(&other.words, i);
            self.words.set(i, a & b);
            proof {
                assert forall|j: nat| #[trigger]
                    words::bit_at(self.words@, j) == (words::bit_at(w1, j) && (j < 64 * (i + 1) ==> words::bit_at(other.words@, j))) by {
                    bits::lemma_bit_and(a, b, j % 64);
                    bits::lemma_bit_zero(j % 64);
                    assert(words::bit_at(w2, j) == (words::bit_at(w1, j) && (j < 64 * i ==> words::bit_at(other.words@, j))));
                }
            }
            i += 1;
        }
        assert(self@ =~= old(self)@.intersect(other@));
    }

    /// In-place difference (self minus other).
    pub fn difference_with(&mut self, other: &BitSet)
        requires
            old(self).wf(),
        ensures
            final(self).wf(),
            final(self)@ == old(self)@.difference(other@),
    {
        let ghost w1 = self.words@;
        let mut i: usize = 0;
        while i < self.words.len()
            invariant
                self.wf(),
                i <= self.words@.len(),
                self.words@.len() == w1.len(),
                forall|j: nat| #[trigger]
                    words::bit_at(self.words@, j) == (words::bit_at(w1, j) && !(j < 64 * i && words::bit_at(other.words@, j))),
                forall|k: int| i <= k < w1.len() ==> self.words@[k] == w1[k],
            decreases self.words.len() - i,
        {
            let ghost w2 = self.words@;
            let a: u64 = self.words[i];
            let b: u64 = word_or_zero(&other.words, i);
            self.words.set(i, a & !b);
            proof {
                assert forall|j: nat| #[trigger]
                    words::bit_at(self.words@, j) == (words::bit_at(w1, j) && !(j < 64 * (i + 1) && words::bit_at(other.words@, j))) by {
                    bits::lemma_bit_and(a, !b, j % 64);
                    bits::lemma_bit_not(b, j % 64);
                    bits::lemma_bit_zero(j % 64);
                    assert(words::bit_at(w2, j) == (words::bit_at(w1, j) && !(j < 64 * i && words::bit_at(other.words@, j))));
                }
            }
            i += 1;
        }
        assert(self@ =~= old(self)@.difference(other@));
    }

    /// `true` if every bit of `self` is also in `other`.
    pub fn is_subset_of(&self, other: &BitSet) -> (r: bool)
        ensures
            r == self@.subset_of(other@),
    {
        let mut i: usize = 0;
        while i < self.words.len()
            invariant
                i <= self.words@.len(),
                forall|j: nat| #[trigger] words::bit_at(self.words@, j) && j < 64 * i ==> words::bit_at(other.words@, j),
            decreases self.words.len() - i,
        {
            let a: u64 = self.words[i];
            let b: u64 = word_or_zero(&other.words, i);
            let d: u64 = a & !b;
            if d != 0 {
                proof {
                    let k = words::lemma_nonzero(d);
                    bits::lemma_bit_and(a, !b, k);
                    bits::lemma_bit_not(b, k);
                    let p = (64 * i + k) as nat;
                    assert(p / 64 == i && p % 64 == k);
                    assert(self@.contains(p) && !other@.contains(p));
                }
                return false;
            }
            proof {
                assert forall|j: nat| #[trigger]
                    words::bit_at(self.words@, j) && j < 64 * (i + 1) implies words::bit_at(other.words@, j) by {
                    if j / 64 == i {
                        bits::lemma_bit_and(a, !b, j % 64);
                        bits::lemma_bit_not(b, j % 64);
                        bits::lemma_bit_zero(j % 64);
                    }
                }
            }
            i += 1;
        }
        true
    }

    /// `true` if the two sets share no bits.
    pub fn is_disjoint(&self, other: &BitSet) -> (r: bool)
        ensures
            r == self@.disjoint(other@),
    {
        let n: usize = if self.words.len() < other.words.len() {
            self.words.len()
        } else {
            other.words.len()
        };
        let mut i: usize = 0;
        while i < n
            invariant
                i <= n,
                n <= self.words@.len(),
                n <= other.words@.len(),
                n == self.words@.len() || n == other.words@.len(),
                forall|j: nat| j < 64 * i ==> !(#[trigger] words::bit_at(self.words@, j) && words::bit_at(other.words@, j)),
            decreases n - i,
        {
            let a: u64 = self.words[i];
            let b: u64 = other.words[i];
            let d: u64 = a & b;
            if d != 0 {
                proof {
                    let k = words::lemma_nonzero(d);
                    bits::lemma_bit_and(a, b, k);
                    let p = (64 * i + k) as nat;
                    assert(p / 64 == i && p % 64 == k);
                    assert(self@.contains(p) && other@.contains(p));
                }
                return false;
            }
            proof {
                assert forall|j: nat| j < 64 * (i + 1) implies !(#[trigger] words::bit_at(self.words@, j) && words::bit_at(
                    other.words@,
                    j,
                )) by {
                    if j / 64 == i {
                        bits::lemma_bit_and(a, b, j % 64);
                        bits::lemma_bit_zero(j % 64);
                    }
                }
            }
            i += 1;
        }
        true
    }
}

impl Default for BitSet {
    fn default() -> (r: Self)
        ensures
            r.wf(),
            r@ == Set::<nat>::empty(),
    {
        BitSet::new()
    }
}

/// Word `i`, or zero beyond the end.
fn word_or_zero(w: &Vec<u64>, i: usize) -> (v: u64)
    ensures
        v == (if i < w@.len() {
            w@[i as int]
        } else {
            0
        }),
{
    if i < w.len() {
        w[i]
    } else {
        0
    }
}

/// Bounds beyond the array count every set bit.
proof fn lemma_beyond(w: Seq<u64>, n: nat)
    requires
        n >= 64 * w.len(),
    ensures
        words::set_bits(w, n) == words::set_bits(w, 64 * w.len()),
    decreases n,
{
    if n > 64 * w.len() {
        lemma_beyond(w, (n - 1) as nat);
    }
}

} // verus!
