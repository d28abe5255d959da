//! Bit vectors stored in arrays of 64-bit words, bit 0 first.

use vstd::prelude::*;
use crate::bits;

verus! {

/// Bit `i` of a word array; bits beyond the array are clear.
pub open spec fn bit_at(w: Seq<u64>, i: nat) -> bool {
    i / 64 < w.len() && bits::bit(w[(i / 64) as int] as nat, i % 64)
}

/// The number of set bits below `n`.
pub open spec fn set_bits(w: Seq<u64>, n: nat) -> nat
    decreases n,
{
    if n == 0 {
        0
    } else {
        set_bits(w, (n - 1) as nat) + (if bit_at(w, (n - 1) as nat) {
            1nat
        } else {
            0nat
        })
    }
}

/// The positions of the set bits.
pub open spec fn positions(w: Seq<u64>) -> Set<nat> {
    Set::new(|i: nat| bit_at(w, i))
}

/// The positions of the set bits below `n`.
pub open spec fn positions_below(w: Seq<u64>, n: nat) -> Set<nat> {
    Set::new(|i: nat| i < n && bit_at(w, i))
}

/// The number of set bits below `n` is the number of their positions.
pub proof fn lemma_set_bits_len(w: Seq<u64>, n: nat)
    ensures
        positions_below(w, n).finite(),
        positions_below(w, n).len() == set_bits(w, n),
        set_bits(w, n) <= n,
    decreases n,
{
    if n == 0 {
        assert(positions_below(w, n) =~= Set::empty());
    } else {
        let m = (n - 1) as nat;
        lemma_set_bits_len(w, m);
        let s = positions_below(w, m);
        if bit_at(w, m) {
            assert(positions_below(w, n) =~= s.insert(m));
        } else {
            assert(positions_below(w, n) =~= s);
        }
    }
}

/// All positions lie below the end of the array.
pub proof fn lemma_positions(w: Seq<u64>)
    ensures
        positions(w) == positions_below(w, 64 * w.len()),
        positions(w).finite(),
        positions(w).len() == set_bits(w, 64 * w.len()),
{
    assert forall|i: nat| bit_at(w, i) implies i < 64 * w.len() by {}
    assert(positions(w) =~= positions_below(w, 64 * w.len()));
    lemma_set_bits_len(w, 64 * w.len());
}

pub proof fn lemma_set_bits_mono(w: Seq<u64>, m: nat, n: nat)
    requires
        m <= n,
    ensures
        set_bits(w, m) <= set_bits(w, n),
        set_bits(w, n) <= set_bits(w, m) + (n - m),
    decreases n,
{
    if m < n {
        lemma_set_bits_mono(w, m, (n - 1) as nat);
    }
}

/// One more digit counts as that digit.
pub proof fn lemma_ones_step(v: nat, k: nat)
    ensures
        bits::ones(v, k + 1) == bits::ones(v, k) + (if bits::bit(v, k) {
            1nat
        } else {
            0nat
        }),
    decreases k,
{
    if k > 0 {
        lemma_ones_step(v / 2, (k - 1) as nat);
    } else {
        assert(bits::ones(v / 2, 0) == 0);
    }
}

/// The set bits of a word are the ones of that word.
pub proof fn lemma_set_bits_word(w: Seq<u64>, i: nat, k: nat)
    requires
        i < w.len(),
        k <= 64,
    ensures
        set_bits(w, 64 * i + k) == set_bits(w, 64 * i) + bits::ones(w[i as int] as nat, k),
    decreases k,
{
    if k > 0 {
        let j = (k - 1) as nat;
        lemma_set_bits_word(w, i, j);
        lemma_ones_step(w[i as int] as nat, j);
        assert((64 * i + j) / 64 == i && (64 * i + j) % 64 == j);
        assert((64 * i + k - 1) as nat == 64 * i + j);
    }
}

/// A word array of zeros has no set bit.
pub proof fn lemma_zeros(w: Seq<u64>)
    requires
        forall|i: int| 0 <= i < w.len() ==> w[i] == 0,
    ensures
        forall|i: nat| !bit_at(w, i),
{
    assert forall|i: nat| !bit_at(w, i) by {
        bits::lemma_bit_zero(i % 64);
    }
}

/// A word that is not zero has a set bit.
pub proof fn lemma_nonzero(v: u64) -> (k: nat)
    requires
        v != 0,
    ensures
        k < 64,
        bits::bit(v as nat, k),
{
    if forall|k: nat| k < 64 ==> !bits::bit(v as nat, k) {
        assert forall|k: nat| k < 64 implies bits::bit(v as nat, k) == bits::bit(0u64 as nat, k) by {
            bits::lemma_bit_zero(k);
        }
        bits::lemma_word_ext(v, 0);
    }
    choose|k: nat| k < 64 && bits::bit(v as nat, k)
}

/// An array of `n` zero words.
pub fn zeroed(n: usize) -> (w: Vec<u64>)
    ensures
        w@.len() == n,
        forall|i: int| 0 <= i < n ==> w@[i] == 0,
        forall|i: nat| !bit_at(w@, i),
{
    let w = vec![0u64; n];
    proof {
        lemma_zeros(w@);
    }
    w
}

/// Test bit `i`.
pub fn get(w: &Vec<u64>, i: usize) -> (r: bool)
    ensures
        r == bit_at(w@, i as nat),
{
    i / 64 < w.len() && bits::test_bit(w[i / 64], (i % 64) as u64)
}

/// Set bit `i`.
pub fn put(w: &mut Vec<u64>, i: usize)
    requires
        i / 64 < old(w)@.len(),
    ensures
        final(w)@.len() == old(w)@.len(),
        forall|j: nat| #[trigger] bit_at(final(w)@, j) == (j == i || bit_at(old(w)@, j)),
{
    let ghost w0 = w@;
    let v = bits::with_bit(w[i / 64], (i % 64) as u64);
    w.set(i / 64, v);
    proof {
        assert forall|j: nat| #[trigger] bit_at(w@, j) == (j == i || bit_at(w0, j)) by {
            if j / 64 == i / 64 {
                assert(bits::bit(v as nat, j % 64) == (j % 64 == i % 64 || bits::bit(w0[(i / 64) as int] as nat, j % 64)));
            }
        }
    }
}

/// Clear bit `i`.
pub fn unset(w: &mut Vec<u64>, i: usize)
    requires
        i / 64 < old(w)@.len(),
    ensures
        final(w)@.len() == old(w)@.len(),
        forall|j: nat| #[trigger] bit_at(final(w)@, j) == (j != i && bit_at(old(w)@, j)),
{
    let ghost w0 = w@;
    let v = bits::without_bit(w[i / 64], (i % 64) as u64);
    w.set(i / 64, v);
    proof {
        assert forall|j: nat| #[trigger] bit_at(w@, j) == (j != i && bit_at(w0, j)) by {
            if j / 64 == i / 64 {
                assert(bits::bit(v as nat, j % 64) == (j % 64 != i % 64 && bits::bit(w0[(i / 64) as int] as nat, j % 64)));
            }
        }
    }
}

/// The number of set bits in the words `[from, to)`.
pub fn count_range(w: &Vec<u64>, from: usize, to: usize) -> (c: usize)
    requires
        from <= to <= w@.len(),
        set_bits(w@, 64 * to as nat) - set_bits(w@, 64 * from as nat) <= usize::MAX,
    ensures
        c == set_bits(w@, 64 * to as nat) - set_bits(w@, 64 * from as nat),
{
    let mut c: usize = 0;
    let mut i: usize = from;
    while i < to
        invariant
            from <= i <= to,
            to <= w@.len(),
            c == set_bits(w@, 64 * i as nat) - set_bits(w@, 64 * from as nat),
            set_bits(w@, 64 * to as nat) - set_bits(w@, 64 * from as nat) <= usize::MAX,
        decreases to - i,
    {
        proof {
            lemma_set_bits_word(w@, i as nat, 64);
            assert(64 * i as nat + 64 == 64 * (i + 1) as nat);
            lemma_set_bits_mono(w@, 64 * (i + 1) as nat, 64 * to as nat);
        }
        c += bits::count_ones(w[i]) as usize;
        i += 1;
    }
    c
}

/// `v` lists the set bits below `n` in ascending order.
pub open spec fn lists(v: Seq<usize>, w: Seq<u64>, n: nat) -> bool {
    &&& forall|i: int, j: int| 0 <= i < j < v.len() ==> v[i] < v[j]
    &&& forall|i: int| 0 <= i < v.len() ==> (#[trigger] v[i]) < n && bit_at(w, v[i] as nat)
    &&& v.len() == set_bits(w, n)
}

/// A list of the set bits holds every one of them.
pub proof fn lemma_lists_all(v: Seq<usize>, w: Seq<u64>, n: nat, x: usize)
    requires
        lists(v, w, n),
        x < n,
        bit_at(w, x as nat),
    ensures
        v.contains(x),
{
    lemma_set_bits_len(w, n);
    let t = v.map_values(|u: usize| u as nat);
    let s = t.to_set();
    assert(t.no_duplicates()) by {
        assert forall|i: int, j: int| 0 <= i < t.len() && 0 <= j < t.len() && i != j implies t[i] != t[j] by {
            if i < j {
                assert(v[i] < v[j]);
            } else {
                assert(v[j] < v[i]);
            }
        }
    }
    t.unique_seq_to_set();
    assert(s.subset_of(positions_below(w, n))) by {
        assert forall|y: nat| s.contains(y) implies positions_below(w, n).contains(y) by {
            let i = choose|i: int| 0 <= i < t.len() && t[i] == y;
            assert(v[i] as nat == y);
        }
    }
    vstd::set_lib::lemma_subset_equality(s, positions_below(w, n));
    assert(s.contains(x as nat));
    let i = choose|i: int| 0 <= i < t.len() && t[i] == x as nat;
    assert(v[i] == x);
}

/// The positions of the set bits below `n`, in ascending order.
pub fn list(w: &Vec<u64>, n: usize) -> (v: Vec<usize>)
    ensures
        lists(v@, w@, n as nat),
{
    let mut v: Vec<usize> = Vec::new();
    let mut i: usize = 0;
    while i < n
        invariant
            i <= n,
            lists(v@, w@, i as nat),
        decreases n - i,
    {
        if get(w, i) {
            v.push(i);
        }
        i += 1;
    }
    v
}

} // verus!
