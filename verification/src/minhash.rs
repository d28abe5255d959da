//! MinHash Jaccard-similarity sketches.
//!
//! Detecting near-duplicate columns or estimating join-key overlap between two
//! tables benefits from a compact set-similarity sketch. MinHash keeps, for each
//! of `k` independent hash functions, the minimum hash value seen over a set;
//! the fraction of the `k` slots that two sketches agree on is an unbiased
//! estimator of the Jaccard similarity of the underlying sets. The `k` hashes
//! are synthesized from one base hash with `k` random `(a, b)` multipliers, the
//! standard universal-hashing trick.

use crate::bloom;
use crate::bytes;
use crate::numeric;
use crate::numeric::{RealNeed, Reals};
use vstd::prelude::*;

verus! {

/// A MinHash sketch with a fixed number of hash slots.
#[derive(Debug, Clone, PartialEq, Eq)]
pub struct MinHash {
    mins: Vec<u64>,
    a: Vec<u64>,
    b: Vec<u64>,
}

/// The prime 2^61 - 1.
pub const MERSENNE: u64 = 0x1FFF_FFFF_FFFF_FFFF;

/// The generator state after `n` steps.
pub open spec fn state_after(seed: u64, n: nat) -> u64
    decreases n,
{
    if n == 0 {
        seed | 1
    } else {
        bloom::splitmix(state_after(seed, (n - 1) as nat))
    }
}

/// The multipliers of slot `i`.
pub open spec fn multiplier(seed: u64, i: int) -> (int, int) {
    (
        state_after(seed, (2 * i + 1) as nat) as int % (MERSENNE - 1) + 1,
        state_after(seed, (2 * i + 2) as nat) as int % MERSENNE as int,
    )
}

/// What slot hash `(a, b)` makes of a hashed element.
pub open spec fn slot_hash(a: int, b: int, h: u64) -> int {
    (a * (h as int % MERSENNE as int) + b) % MERSENNE as int
}

/// The state of a sketch.
#[verifier::ext_equal]
pub struct Sketch {
    pub mins: Seq<u64>,
    pub a: Seq<u64>,
    pub b: Seq<u64>,
}

/// A sketch with an element added.
pub open spec fn with_hash(s: Sketch, h: u64) -> Sketch {
    Sketch {
        mins: Seq::new(
            s.mins.len(),
            |i: int|
                if slot_hash(s.a[i] as int, s.b[i] as int, h) < s.mins[i] {
                    slot_hash(s.a[i] as int, s.b[i] as int, h) as u64
                } else {
                    s.mins[i]
                },
        ),
        ..s
    }
}

/// The smaller minimum of two sketches in each slot.
pub open spec fn lower_mins(a: Seq<u64>, b: Seq<u64>) -> Seq<u64> {
    Seq::new(
        a.len(),
        |i: int|
            if a[i] <= b[i] {
                a[i]
            } else {
                b[i]
            },
    )
}

/// How many of the first `n` slots two sketches agree on, empty slots apart.
pub open spec fn agreeing(a: Seq<u64>, b: Seq<u64>, n: nat) -> nat
    decreases n,
{
    if n == 0 {
        0
    } else {
        agreeing(a, b, (n - 1) as nat) + if a[n - 1] == b[n - 1] && a[n - 1] != u64::MAX {
            1nat
        } else {
            0nat
        }
    }
}

/// Adding an element twice is adding it once.
pub proof fn lemma_add_idempotent(s: Sketch, h: u64)
    ensures
        with_hash(with_hash(s, h), h) == with_hash(s, h),
{
    assert(with_hash(with_hash(s, h), h) =~= with_hash(s, h));
}

/// Elements can be added in any order.
pub proof fn lemma_add_commutes(s: Sketch, g: u64, h: u64)
    ensures
        with_hash(with_hash(s, g), h) == with_hash(with_hash(s, h), g),
{
    assert(with_hash(with_hash(s, g), h) =~= with_hash(with_hash(s, h), g));
}

/// Merging is union: what was added to either side counts in the merged sketch.
pub proof fn lemma_merge_union(s: Sketch, t: Sketch, h: u64)
    requires
        s.a == t.a,
        s.b == t.b,
        s.mins.len() == t.mins.len(),
    ensures
        lower_mins(with_hash(s, h).mins, t.mins) == with_hash(
            Sketch { mins: lower_mins(s.mins, t.mins), ..s },
            h,
        ).mins,
        lower_mins(s.mins, with_hash(t, h).mins) == with_hash(
            Sketch { mins: lower_mins(s.mins, t.mins), ..s },
            h,
        ).mins,
{
    let u = with_hash(Sketch { mins: lower_mins(s.mins, t.mins), ..s }, h).mins;
    assert(lower_mins(with_hash(s, h).mins, t.mins) =~= u);
    assert(lower_mins(s.mins, with_hash(t, h).mins) =~= u);
}

impl MinHash {
    pub closed spec fn sketch(self) -> Sketch {
        Sketch { mins: self.mins@, a: self.a@, b: self.b@ }
    }

    /// Every slot has its multipliers.
    pub closed spec fn wf(self) -> bool {
        &&& self.mins@.len() >= 1
        &&& self.a@.len() == self.mins@.len()
        &&& self.b@.len() == self.mins@.len()
        &&& forall|i: int| 0 <= i < self.a@.len() ==> (#[trigger] self.a@[i]) < MERSENNE
        &&& forall|i: int| 0 <= i < self.b@.len() ==> (#[trigger] self.b@[i]) < MERSENNE
    }

    /// A sketch with `k` slots, seeded deterministically.
    pub fn new(k: usize) -> (r: MinHash)
        ensures
            r.wf(),
            r.is_seeded(k as int, 0xA5A5_5A5A_1234_5678),
    {
        MinHash::with_seed(k, 0xA5A5_5A5A_1234_5678)
    }

    /// An empty sketch of at least one slot with the multipliers of a seed.
    pub open spec fn is_seeded(self, k: int, seed: u64) -> bool {
        let s = self.sketch();
        let n = if k <= 0 {
            1
        } else {
            k
        };
        &&& s.mins == Seq::new(n as nat, |i: int| u64::MAX)
        &&& s.a.len() == n
        &&& s.b.len() == n
        &&& forall|i: int|
            0 <= i < n ==> (#[trigger] s.a[i] as int, s.b[i] as int) == multiplier(seed, i)
    }

    /// A sketch with an explicit seed for the hash coefficients.
    pub fn with_seed(k: usize, seed: u64) -> (r: MinHash)
        ensures
            r.wf(),
            r.is_seeded(k as int, seed),
    {
        let n: usize = if k == 0 {
            1
        } else {
            k
        };
        let mut mins: Vec<u64> = Vec::new();
        let mut a: Vec<u64> = Vec::new();
        let mut b: Vec<u64> = Vec::new();
        let mut state: u64 = seed | 1;
        let mut i: usize = 0;
        while i < n
            invariant
                i <= n,
                mins@ == Seq::new(i as nat, |i: int| u64::MAX),
                a@.len() == i,
                b@.len() == i,
                state == state_after(seed, (2 * i) as nat),
                forall|j: int| 0 <= j < i ==> (#[trigger] a@[j] as int, b@[j] as int) == multiplier(seed, j),
            decreases n - i,
        {
            state = bloom::splitmix64(state);
            assert(state == state_after(seed, (2 * i + 1) as nat));
            a.push((state % (MERSENNE - 1)) + 1);
            state = bloom::splitmix64(state);
            assert(state == state_after(seed, (2 * i + 2) as nat));
            b.push(state % MERSENNE);
            mins.push(u64::MAX);
            assert(mins@ =~= Seq::new((i + 1) as nat, |i: int| u64::MAX));
            i += 1;
        }
        let r = MinHash { mins, a, b };
        proof {
            assert forall|j: int| 0 <= j < n implies (#[trigger] r.a@[j]) < MERSENNE by {
                assert((a@[j] as int, b@[j] as int) == multiplier(seed, j));
            }
            assert forall|j: int| 0 <= j < n implies (#[trigger] r.b@[j]) < MERSENNE by {
                assert((a@[j] as int, b@[j] as int) == multiplier(seed, j));
            }
        }
        r
    }

    /// Number of slots.
    pub fn slots(&self) -> (r: usize)
        ensures
            r == self.sketch().mins.len(),
    {
        self.mins.len()
    }

    /// Add an element (a pre-hashed 64-bit value).
    pub fn add_hash(&mut self, h: u64)
        requires
            old(self).wf(),
        ensures
            final(self).wf(),
            final(self).sketch() == with_hash(old(self).sketch(), h),
    {
        let x: u64 = h % MERSENNE;
        let mut i: usize = 0;
        let ghost s = self.sketch();
        while i < self.mins.len()
            invariant
                i <= self.mins@.len(),
                self.wf(),
                x == h as int % MERSENNE as int,
                x < MERSENNE,
                self.a@ == s.a,
                self.b@ == s.b,
                self.mins@.len() == s.mins.len(),
                forall|j: int| 0 <= j < i ==> #[trigger] self.mins@[j] == with_hash(s, h).mins[j],
                forall|j: int| i <= j < s.mins.len() ==> #[trigger] self.mins@[j] == s.mins[j],
            decreases self.mins@.len() - i,
        {
            assert(self.a@[i as int] < MERSENNE && self.b@[i as int] < MERSENNE);
            proof {
                let p = self.a@[i as int] as int;
                let q = x as int;
                assert(0 <= p * q <= 0x2000_0000_0000_0000 * 0x2000_0000_0000_0000) by (nonlinear_arith)
                    requires
                        0 <= p < 0x2000_0000_0000_0000,
                        0 <= q < 0x2000_0000_0000_0000,
                ;
            }
            let product: u128 = self.a[i] as u128 * x as u128;
            let hv: u64 = ((product % MERSENNE as u128) as u64 + self.b[i]) % MERSENNE;
            proof {
                let t = self.a@[i as int] * x as int;
                let m = MERSENNE as int;
                vstd::arithmetic::div_mod::lemma_add_mod_noop(t, self.b@[i as int] as int, m);
                vstd::arithmetic::div_mod::lemma_add_mod_noop(t % m, self.b@[i as int] as int, m);
                vstd::arithmetic::div_mod::lemma_mod_twice(t, m);
            }
            if hv < self.mins[i] {
                self.mins.set(i, hv);
            }
            i += 1;
        }
        assert(self.sketch() =~= with_hash(s, h));
    }

    /// Add an integer element.
    pub fn add_i64(&mut self, v: i64)
        requires
            old(self).wf(),
        ensures
            final(self).wf(),
            final(self).sketch() == with_hash(old(self).sketch(), bloom::splitmix(bytes::twos(v))),
    {
        self.add_hash(bloom::splitmix64(bytes::to_twos(v)));
    }

    /// Add a byte-string element.
    pub fn add_bytes(&mut self, data: &[u8])
        requires
            old(self).wf(),
        ensures
            final(self).wf(),
            final(self).sketch() == with_hash(old(self).sketch(), bloom::splitmix(bloom::fnv(data@))),
    {
        self.add_hash(bloom::splitmix64(bloom::fnv1a(data)));
    }

    /// The number of slots that two sketches agree on, and of all slots; nothing
    /// is agreed on where their numbers of slots differ.
    pub fn agreement(&self, other: &MinHash) -> (r: (usize, usize))
        ensures
            r.1 == self.sketch().mins.len(),
            r.0 == (if self.sketch().mins.len() != other.sketch().mins.len() {
                0
            } else {
                agreeing(self.sketch().mins, other.sketch().mins, self.sketch().mins.len())
            }),
    {
        let n: usize = self.mins.len();
        if n != other.mins.len() {
            return (0, n);
        }
        let mut c: usize = 0;
        let mut i: usize = 0;
        while i < n
            invariant
                i <= n,
                n == self.mins@.len(),
                n == other.mins@.len(),
                c <= i,
                c == agreeing(self.mins@, other.mins@, i as nat),
            decreases n - i,
        {
            if self.mins[i] == other.mins[i] && self.mins[i] != u64::MAX {
                c += 1;
            }
            i += 1;
        }
        (c, n)
    }

    /// Estimate the Jaccard similarity with another sketch (same k and seed), as
    /// the bits of a real.
    pub fn jaccard(&self, other: &MinHash, reals: &Reals) -> (r: Result<u64, RealNeed>)
        ensures
            numeric::asked(r) == (if self.sketch().mins.len() != other.sketch().mins.len() {
                Ok(0u64)
            } else {
                numeric::ratio_of(
                    agreeing(self.sketch().mins, other.sketch().mins, self.sketch().mins.len()),
                    self.sketch().mins.len(),
                    reals@,
                )
            }),
    {
        if self.mins.len() != other.mins.len() {
            return Ok(0);
        }
        let (same, slots) = self.agreement(other);
        numeric::ratio(same as u64, slots as u64, reals)
    }

    /// Merge another sketch (union of the underlying sets).
    pub fn merge(&mut self, other: &MinHash) -> (r: bool)
        requires
            old(self).wf(),
        ensures
            final(self).wf(),
            r == (old(self).sketch().mins.len() == other.sketch().mins.len()),
            final(self).sketch() == (if r {
                Sketch { mins: lower_mins(old(self).sketch().mins, other.sketch().mins), ..old(self).sketch() }
            } else {
                old(self).sketch()
            }),
    {
        if self.mins.len() != other.mins.len() {
            return false;
        }
        let ghost s = self.sketch();
        let mut i: usize = 0;
        while i < self.mins.len()
            invariant
                i <= self.mins@.len(),
                self.wf(),
                self.a@ == s.a,
                self.b@ == s.b,
                self.mins@.len() == s.mins.len(),
                self.mins@.len() == other.mins@.len(),
                forall|j: int| 0 <= j < i ==> #[trigger] self.mins@[j] == lower_mins(s.mins, other.mins@)[j],
                forall|j: int| i <= j < s.mins.len() ==> #[trigger] self.mins@[j] == s.mins[j],
            decreases self.mins@.len() - i,
        {
            if other.mins[i] < self.mins[i] {
                let m: u64 = other.mins[i];
                self.mins.set(i, m);
            }
            i += 1;
        }
        assert(self.sketch().mins =~= lower_mins(s.mins, other.mins@));
        true
    }

    /// The raw min-signature (for banding / LSH).
    pub fn signature(&self) -> (r: &[u64])
        ensures
            r@ == self.sketch().mins,
    {
        self.mins.as_slice()
    }
}

} // verus!
