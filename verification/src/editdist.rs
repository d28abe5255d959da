//! String edit-distance and fuzzy-match helpers.
//!
//! Fuzzy predicate matching and "did you mean" column-name resolution use edit
//! distance. This module implements Levenshtein distance with the two-row
//! rolling optimization (linear memory), Damerau-Levenshtein (adding
//! transpositions), and a bounded variant that stops early once a threshold is
//! exceeded. Distances are computed over Unicode scalar values, not bytes.

use vstd::prelude::*;
use crate::numeric;
use crate::numeric::{ArithOp, ONE, RealNeed, Reals};
use crate::text;
use vstd::string::*;

verus! {

pub open spec fn least(a: nat, b: nat) -> nat {
    if a <= b {
        a
    } else {
        b
    }
}

/// The cost of putting one character in the place of another.
pub open spec fn change(x: char, y: char) -> nat {
    if x == y {
        0
    } else {
        1
    }
}

/// Edit distance between the first `i` characters of `a` and the first `j` of
/// `b`: the fewest insertions, deletions and substitutions.
pub open spec fn lev(a: Seq<char>, b: Seq<char>, i: nat, j: nat) -> nat
    decreases i + j,
{
    if i == 0 {
        j
    } else if j == 0 {
        i
    } else {
        least(
            least(lev(a, b, (i - 1) as nat, j) + 1, lev(a, b, i, (j - 1) as nat) + 1),
            lev(a, b, (i - 1) as nat, (j - 1) as nat) + change(a[i - 1], b[j - 1]),
        )
    }
}

/// Edit distance between two texts.
pub open spec fn distance(a: Seq<char>, b: Seq<char>) -> nat {
    lev(a, b, a.len(), b.len())
}

/// The characters that end the two prefixes are each other's neighbour, swapped.
pub open spec fn swapped(a: Seq<char>, b: Seq<char>, i: int, j: int) -> bool {
    i > 1 && j > 1 && a[i - 1] == b[j - 2] && a[i - 2] == b[j - 1]
}

/// As [`lev`], where swapping two neighbours counts as one edit.
pub open spec fn osa(a: Seq<char>, b: Seq<char>, i: nat, j: nat) -> nat
    decreases i + j,
{
    if i == 0 {
        j
    } else if j == 0 {
        i
    } else {
        let m = least(
            least(osa(a, b, (i - 1) as nat, j) + 1, osa(a, b, i, (j - 1) as nat) + 1),
            osa(a, b, (i - 1) as nat, (j - 1) as nat) + change(a[i - 1], b[j - 1]),
        );
        if i > 1 && j > 1 && swapped(a, b, i as int, j as int) {
            least(m, osa(a, b, (i - 2) as nat, (j - 2) as nat) + 1)
        } else {
            m
        }
    }
}

proof fn lemma_lev_bounds(a: Seq<char>, b: Seq<char>, i: nat, j: nat)
    ensures
        lev(a, b, i, j) <= i + j,
        lev(a, b, i, j) >= i - j,
        lev(a, b, i, j) >= j - i,
    decreases i + j,
{
    if i > 0 && j > 0 {
        lemma_lev_bounds(a, b, (i - 1) as nat, j);
        lemma_lev_bounds(a, b, i, (j - 1) as nat);
        lemma_lev_bounds(a, b, (i - 1) as nat, (j - 1) as nat);
    }
}

proof fn lemma_osa_bounds(a: Seq<char>, b: Seq<char>, i: nat, j: nat)
    ensures
        osa(a, b, i, j) <= i + j,
    decreases i + j,
{
    if i > 0 && j > 0 {
        lemma_osa_bounds(a, b, (i - 1) as nat, j);
        lemma_osa_bounds(a, b, i, (j - 1) as nat);
        lemma_osa_bounds(a, b, (i - 1) as nat, (j - 1) as nat);
    }
}

/// Every later distance is at least some entry of row `i`.
proof fn lemma_row_floor(a: Seq<char>, b: Seq<char>, i: nat, k: nat, j: nat, floor: nat)
    requires
        i <= k,
        forall|c: nat| c <= j ==> #[trigger] lev(a, b, i, c) >= floor,
    ensures
        lev(a, b, k, j) >= floor,
    decreases k + j,
{
    if i < k {
        if j == 0 {
            assert(lev(a, b, i, 0) >= floor);
            lemma_row_floor(a, b, i, (k - 1) as nat, j, floor);
        } else {
            lemma_row_floor(a, b, i, (k - 1) as nat, j, floor);
            lemma_row_floor(a, b, i, k, (j - 1) as nat, floor);
            lemma_row_floor(a, b, i, (k - 1) as nat, (j - 1) as nat, floor);
        }
    } else {
        assert(lev(a, b, i, j) >= floor);
    }
}

/// No edits are needed exactly between equal texts.
pub proof fn lemma_zero(a: Seq<char>, b: Seq<char>)
    ensures
        distance(a, b) == 0 <==> a == b,
{
    if a == b {
        lemma_diagonal(a, a.len());
    }
    if distance(a, b) == 0 {
        lemma_lev_bounds(a, b, a.len(), b.len());
        lemma_zero_same(a, b, a.len());
        assert(a =~= b);
    }
}

proof fn lemma_diagonal(a: Seq<char>, i: nat)
    ensures
        lev(a, a, i, i) == 0,
    decreases i,
{
    if i > 0 {
        lemma_diagonal(a, (i - 1) as nat);
    }
}

proof fn lemma_zero_same(a: Seq<char>, b: Seq<char>, i: nat)
    requires
        lev(a, b, i, i) == 0,
    ensures
        forall|k: int| 0 <= k < i ==> a[k] == b[k],
    decreases i,
{
    if i > 0 {
        lemma_lev_bounds(a, b, (i - 1) as nat, i);
        lemma_lev_bounds(a, b, i, (i - 1) as nat);
        lemma_zero_same(a, b, (i - 1) as nat);
    }
}

/// Editing back takes as many edits.
pub proof fn lemma_symmetric(a: Seq<char>, b: Seq<char>)
    ensures
        distance(a, b) == distance(b, a),
{
    lemma_lev_symmetric(a, b, a.len(), b.len());
}

proof fn lemma_lev_symmetric(a: Seq<char>, b: Seq<char>, i: nat, j: nat)
    ensures
        lev(a, b, i, j) == lev(b, a, j, i),
    decreases i + j,
{
    if i > 0 && j > 0 {
        lemma_lev_symmetric(a, b, (i - 1) as nat, j);
        lemma_lev_symmetric(a, b, i, (j - 1) as nat);
        lemma_lev_symmetric(a, b, (i - 1) as nat, (j - 1) as nat);
    }
}

/// Counting swaps of neighbours as one edit never takes more edits.
pub proof fn lemma_osa_at_most(a: Seq<char>, b: Seq<char>, i: nat, j: nat)
    ensures
        osa(a, b, i, j) <= lev(a, b, i, j),
    decreases i + j,
{
    if i > 0 && j > 0 {
        lemma_osa_at_most(a, b, (i - 1) as nat, j);
        lemma_osa_at_most(a, b, i, (j - 1) as nat);
        lemma_osa_at_most(a, b, (i - 1) as nat, (j - 1) as nat);
    }
}

/// The first row: the distance from the empty prefix.
fn first_row(n: usize) -> (r: Vec<usize>)
    requires
        n < usize::MAX,
    ensures
        r@.len() == n + 1,
        forall|j: int| 0 <= j <= n ==> r@[j] == j,
{
    let mut r: Vec<usize> = Vec::new();
    let mut j: usize = 0;
    while j <= n
        invariant
            j <= n + 1,
            n < usize::MAX,
            r@.len() == j,
            forall|k: int| 0 <= k < j ==> r@[k] == k,
        decreases n + 1 - j,
    {
        r.push(j);
        j += 1;
    }
    r
}

/// Row `i + 1` from row `i`, and a lower bound of its entries.
fn next_row(a: &Vec<char>, b: &Vec<char>, i: usize, prev: &Vec<usize>) -> (r: (Vec<usize>, usize))
    requires
        i < a@.len(),
        a@.len() + b@.len() + 2 <= usize::MAX,
        prev@.len() == b@.len() + 1,
        forall|j: int| 0 <= j <= b@.len() ==> prev@[j] == lev(a@, b@, i as nat, j as nat),
    ensures
        r.0@.len() == b@.len() + 1,
        forall|j: int| 0 <= j <= b@.len() ==> r.0@[j] == lev(a@, b@, (i + 1) as nat, j as nat),
        forall|j: int| 0 <= j <= b@.len() ==> r.1 <= r.0@[j],
{
    let mut cur: Vec<usize> = Vec::new();
    cur.push(i + 1);
    let mut low: usize = i + 1;
    let mut j: usize = 0;
    while j < b.len()
        invariant
            j <= b@.len(),
            i < a@.len(),
            a@.len() + b@.len() + 2 <= usize::MAX,
            prev@.len() == b@.len() + 1,
            forall|k: int| 0 <= k <= b@.len() ==> prev@[k] == lev(a@, b@, i as nat, k as nat),
            cur@.len() == j + 1,
            forall|k: int| 0 <= k <= j ==> cur@[k] == lev(a@, b@, (i + 1) as nat, k as nat),
            forall|k: int| 0 <= k <= j ==> low <= cur@[k],
        decreases b@.len() - j,
    {
        proof {
            lemma_lev_bounds(a@, b@, i as nat, j as nat);
            lemma_lev_bounds(a@, b@, i as nat, (j + 1) as nat);
            lemma_lev_bounds(a@, b@, (i + 1) as nat, j as nat);
        }
        let cost: usize = if a[i] == b[j] {
            0
        } else {
            1
        };
        let mut best: usize = prev[j + 1] + 1;
        if cur[j] + 1 < best {
            best = cur[j] + 1;
        }
        if prev[j] + cost < best {
            best = prev[j] + cost;
        }
        assert(best == lev(a@, b@, (i + 1) as nat, (j + 1) as nat));
        cur.push(best);
        if best < low {
            low = best;
        }
        j += 1;
    }
    (cur, low)
}

/// Levenshtein edit distance (insertions, deletions, substitutions).
pub fn levenshtein(a: &str, b: &str) -> (r: usize)
    requires
        a@.len() + b@.len() + 2 <= usize::MAX,
    ensures
        r == distance(a@, b@),
{
    let x = text::chars_of(a);
    let y = text::chars_of(b);
    let mut prev: Vec<usize> = first_row(y.len());
    let mut i: usize = 0;
    while i < x.len()
        invariant
            i <= x@.len(),
            x@.len() + y@.len() + 2 <= usize::MAX,
            prev@.len() == y@.len() + 1,
            forall|j: int| 0 <= j <= y@.len() ==> prev@[j] == lev(x@, y@, i as nat, j as nat),
        decreases x@.len() - i,
    {
        let (cur, _low) = next_row(&x, &y, i, &prev);
        prev = cur;
        i += 1;
    }
    prev[y.len()]
}

/// Levenshtein distance that returns `None` as soon as it provably exceeds
/// `max` (a cheap early-out for threshold queries).
pub fn levenshtein_bounded(a: &str, b: &str, max: usize) -> (r: Option<usize>)
    requires
        a@.len() + b@.len() + 2 <= usize::MAX,
    ensures
        r == (if distance(a@, b@) <= max {
            Some(distance(a@, b@) as usize)
        } else {
            None
        }),
{
    let x = text::chars_of(a);
    let y = text::chars_of(b);
    proof {
        lemma_lev_bounds(x@, y@, x@.len(), y@.len());
    }
    let gap: usize = if x.len() < y.len() {
        y.len() - x.len()
    } else {
        x.len() - y.len()
    };
    if gap > max {
        return None;
    }
    let mut prev: Vec<usize> = first_row(y.len());
    let mut i: usize = 0;
    while i < x.len()
        invariant
            i <= x@.len(),
            x@ == a@,
            y@ == b@,
            x@.len() + y@.len() + 2 <= usize::MAX,
            prev@.len() == y@.len() + 1,
            forall|j: int| 0 <= j <= y@.len() ==> prev@[j] == lev(x@, y@, i as nat, j as nat),
        decreases x@.len() - i,
    {
        let (cur, low) = next_row(&x, &y, i, &prev);
        if low > max {
            proof {
                assert forall|c: nat| c <= y@.len() implies #[trigger] lev(x@, y@, (i + 1) as nat, c) >= low by {
                    assert(low <= cur@[c as int]);
                }
                lemma_row_floor(x@, y@, (i + 1) as nat, x@.len(), y@.len(), low as nat);
            }
            return None;
        }
        prev = cur;
        i += 1;
    }
    let d: usize = prev[y.len()];
    if d > max {
        None
    } else {
        Some(d)
    }
}

/// Damerau-Levenshtein distance (adds adjacent transpositions).
pub fn damerau_levenshtein(a: &str, b: &str) -> (r: usize)
    requires
        a@.len() + b@.len() + 2 <= usize::MAX,
    ensures
        r == osa(a@, b@, a@.len(), b@.len()),
{
    let x = text::chars_of(a);
    let y = text::chars_of(b);
    let mut d: Vec<Vec<usize>> = Vec::new();
    d.push(first_row(y.len()));
    let mut i: usize = 0;
    while i < x.len()
        invariant
            i <= x@.len(),
            x@.len() + y@.len() + 2 <= usize::MAX,
            d@.len() == i + 1,
            forall|k: int| 0 <= k <= i ==> (#[trigger] d@[k])@.len() == y@.len() + 1,
            forall|k: int, j: int|
                0 <= k <= i && 0 <= j <= y@.len() ==> #[trigger] d@[k]@[j] == osa(x@, y@, k as nat, j as nat),
        decreases x@.len() - i,
    {
        let mut cur: Vec<usize> = Vec::new();
        cur.push(i + 1);
        let mut j: usize = 0;
        while j < y.len()
            invariant
                j <= y@.len(),
                i < x@.len(),
                x@.len() + y@.len() + 2 <= usize::MAX,
                d@.len() == i + 1,
                forall|k: int| 0 <= k <= i ==> (#[trigger] d@[k])@.len() == y@.len() + 1,
                forall|k: int, j: int|
                    0 <= k <= i && 0 <= j <= y@.len() ==> #[trigger] d@[k]@[j] == osa(x@, y@, k as nat, j as nat),
                cur@.len() == j + 1,
                forall|k: int| 0 <= k <= j ==> cur@[k] == osa(x@, y@, (i + 1) as nat, k as nat),
            decreases y@.len() - j,
        {
            proof {
                lemma_osa_bounds(x@, y@, i as nat, j as nat);
                lemma_osa_bounds(x@, y@, i as nat, (j + 1) as nat);
                lemma_osa_bounds(x@, y@, (i + 1) as nat, j as nat);
                assert(d@[i as int]@.len() == y@.len() + 1);
            }
            let cost: usize = if x[i] == y[j] {
                0
            } else {
                1
            };
            let mut best: usize = d[i][j + 1] + 1;
            if cur[j] + 1 < best {
                best = cur[j] + 1;
            }
            if d[i][j] + cost < best {
                best = d[i][j] + cost;
            }
            if i >= 1 && j >= 1 && x[i] == y[j - 1] && x[i - 1] == y[j] {
                proof {
                    lemma_osa_bounds(x@, y@, (i - 1) as nat, (j - 1) as nat);
                    assert(d@[i - 1]@.len() == y@.len() + 1);
                    assert(swapped(x@, y@, i + 1, j + 1));
                    assert(d@[i - 1]@[j - 1] == osa(x@, y@, (i - 1) as nat, (j - 1) as nat));
                }
                if d[i - 1][j - 1] + 1 < best {
                    best = d[i - 1][j - 1] + 1;
                }
            }
            assert(best == osa(x@, y@, (i + 1) as nat, (j + 1) as nat));
            cur.push(best);
            j += 1;
        }
        d.push(cur);
        i += 1;
    }
    assert(d@[i as int]@.len() == y@.len() + 1);
    d[x.len()][y.len()]
}

/// The number of leading characters that two texts share.
pub open spec fn shared(a: Seq<char>, b: Seq<char>) -> nat
    decreases a.len(),
{
    if a.len() == 0 || b.len() == 0 || a[0] != b[0] {
        0
    } else {
        1 + shared(a.drop_first(), b.drop_first())
    }
}

/// The length of the longer of two strings.
pub open spec fn longer(a: Seq<char>, b: Seq<char>) -> nat {
    if a.len() > b.len() {
        a.len()
    } else {
        b.len()
    }
}

/// One less the share of the longer string that has to be edited.
pub open spec fn likeness(a: Seq<char>, b: Seq<char>, reals: numeric::RealFacts) -> Result<u64, numeric::Need> {
    if longer(a, b) == 0 {
        Ok(ONE)
    } else {
        match numeric::ratio_of(distance(a, b), longer(a, b), reals) {
            Ok(q) => numeric::real_op(ArithOp::Sub, ONE, q, reals),
            Err(n) => Err(n),
        }
    }
}

/// A normalized similarity ratio in `[0, 1]` (1.0 = identical), as the bits of a
/// real.
pub fn similarity(a: &str, b: &str, reals: &Reals) -> (r: Result<u64, RealNeed>)
    requires
        a@.len() + b@.len() + 2 <= usize::MAX,
    ensures
        numeric::asked(r) == likeness(a@, b@, reals@),
{
    let x = text::chars_of(a).len();
    let y = text::chars_of(b).len();
    let longest: usize = if x > y {
        x
    } else {
        y
    };
    if longest == 0 {
        return Ok(ONE);
    }
    match numeric::ratio(levenshtein(a, b) as u64, longest as u64, reals) {
        Ok(q) => numeric::do_real_op(ArithOp::Sub, ONE, q, reals),
        Err(n) => Err(n),
    }
}

/// The prefix length two strings share (in characters).
pub fn common_prefix(a: &str, b: &str) -> (r: usize)
    ensures
        r == shared(a@, b@),
{
    let x = text::chars_of(a);
    let y = text::chars_of(b);
    let mut n: usize = 0;
    assert(x@.skip(0) =~= x@ && y@.skip(0) =~= y@);
    while n < x.len() && n < y.len() && x[n] == y[n]
        invariant
            n <= x@.len(),
            n <= y@.len(),
            n + shared(x@.skip(n as int), y@.skip(n as int)) == shared(x@, y@),
        decreases x@.len() - n,
    {
        proof {
            assert(x@.skip(n as int).drop_first() =~= x@.skip(n + 1));
            assert(y@.skip(n as int).drop_first() =~= y@.skip(n + 1));
        }
        n += 1;
    }
    n
}

/// The index of the first of the closest candidates among the first `n`, where
/// one is within `max`.
pub open spec fn closest_at(query: Seq<char>, cands: Seq<Seq<char>>, n: nat, max: nat) -> Option<int>
    decreases n,
{
    if n == 0 {
        None
    } else {
        let before = closest_at(query, cands, (n - 1) as nat, max);
        let d = distance(query, cands[n - 1]);
        if d <= max && (before is None || d < distance(query, cands[before->0])) {
            Some(n - 1)
        } else {
            before
        }
    }
}

/// The texts of a list of string slices.
pub open spec fn texts(s: Seq<&str>) -> Seq<Seq<char>> {
    s.map_values(|x: &str| x@)
}

/// The closest candidate is within the limit, no candidate is closer, and none
/// before it is as close; where there is none, every candidate is beyond the
/// limit.
pub proof fn lemma_closest(query: Seq<char>, cands: Seq<Seq<char>>, n: nat, max: nat)
    requires
        n <= cands.len(),
    ensures
        match closest_at(query, cands, n, max) {
            Some(k) => {
                &&& 0 <= k < n
                &&& distance(query, cands[k]) <= max
                &&& forall|j: int|
                    0 <= j < n ==> distance(query, cands[k]) <= distance(query, #[trigger] cands[j])
                &&& forall|j: int|
                    0 <= j < k ==> distance(query, cands[k]) < distance(query, #[trigger] cands[j])
            },
            None => forall|j: int| 0 <= j < n ==> distance(query, #[trigger] cands[j]) > max,
        },
    decreases n,
{
    if n > 0 {
        lemma_closest(query, cands, (n - 1) as nat, max);
    }
}

/// Find the closest candidate to `query` within `max_distance`, if any.
pub fn closest<'a>(query: &str, candidates: &'a [&'a str], max_distance: usize) -> (r: Option<&'a str>)
    requires
        forall|i: int|
            0 <= i < candidates@.len() ==> query@.len() + (#[trigger] candidates@[i])@.len() + 2
                <= usize::MAX,
    ensures
        match closest_at(query@, texts(candidates@), candidates@.len(), max_distance as nat) {
            Some(k) => r is Some && r->0 == candidates@[k],
            None => r is None,
        },
{
    let mut best: Option<(usize, usize)> = None;
    let mut i: usize = 0;
    while i < candidates.len()
        invariant
            i <= candidates@.len(),
            forall|i: int|
                0 <= i < candidates@.len() ==> query@.len() + (#[trigger] candidates@[i])@.len() + 2
                    <= usize::MAX,
            match closest_at(query@, texts(candidates@), i as nat, max_distance as nat) {
                Some(k) => 0 <= k < i && best is Some && best.unwrap().0 == k && best.unwrap().1 == distance(
                    query@,
                    candidates@[k]@,
                ),
                None => best is None,
            },
        decreases candidates@.len() - i,
    {
        let d = levenshtein_bounded(query, candidates[i], max_distance);
        assert(texts(candidates@)[i as int] == candidates@[i as int]@);
        if let Some(x) = d {
            let better = match best {
                None => true,
                Some((_, y)) => x < y,
            };
            if better {
                best = Some((i, x));
            }
        }
        i += 1;
    }
    match best {
        None => None,
        Some((k, _)) => Some(candidates[k]),
    }
}

/// One edit: a character more or less at the end is at most one apart, a changed one too,
/// and none for an equal one. So a text and itself with a character added are one apart.
pub proof fn lemma_one_edit(a: Seq<char>, b: Seq<char>, x: char, y: char)
    ensures
        distance(a.push(x), b) <= distance(a, b) + 1,
        distance(a, b.push(y)) <= distance(a, b) + 1,
        distance(a.push(x), b.push(y)) <= distance(a, b) + (if x == y {
            0nat
        } else {
            1
        }),
        distance(a, a.push(x)) == 1,
        distance(a, Seq::empty()) == a.len(),
{
    let c = a.push(x);
    let d = b.push(y);
    lemma_prefix(a, b, c, d, a.len(), b.len());
    lemma_prefix(a, b, c, b, a.len(), b.len());
    lemma_prefix(a, b, a, d, a.len(), b.len());
    lemma_zero(a, a);
    lemma_prefix(a, a, a, c, a.len(), a.len());
    lemma_zero(a, c);
    assert(a != c) by {
        assert(a.len() != c.len());
    }
    let none = Seq::<char>::empty();
    if b.len() == 0 {
        assert(lev(c, b, c.len(), 0) == c.len());
    }
}

/// The distance of prefixes does not look behind them.
proof fn lemma_prefix(a: Seq<char>, b: Seq<char>, c: Seq<char>, d: Seq<char>, i: nat, j: nat)
    requires
        i <= a.len() <= c.len(),
        j <= b.len() <= d.len(),
        forall|k: int| 0 <= k < a.len() ==> #[trigger] c[k] == a[k],
        forall|k: int| 0 <= k < b.len() ==> #[trigger] d[k] == b[k],
    ensures
        lev(c, d, i, j) == lev(a, b, i, j),
    decreases i + j,
{
    if i > 0 && j > 0 {
        lemma_prefix(a, b, c, d, (i - 1) as nat, j);
        lemma_prefix(a, b, c, d, i, (j - 1) as nat);
        lemma_prefix(a, b, c, d, (i - 1) as nat, (j - 1) as nat);
        assert(c[i - 1] == a[i - 1] && d[j - 1] == b[j - 1]);
    }
}

/// Two neighbours swapped at the end count as one edit at most.
pub proof fn lemma_swap(a: Seq<char>, x: char, y: char)
    ensures
        ({
            let p = a.push(x).push(y);
            let q = a.push(y).push(x);
            osa(p, q, p.len(), q.len()) <= 1
        }),
{
    let p = a.push(x).push(y);
    let q = a.push(y).push(x);
    lemma_osa_same(p, q, a.len());
    assert(swapped(p, q, p.len() as int, q.len() as int));
}

proof fn lemma_osa_same(a: Seq<char>, b: Seq<char>, n: nat)
    requires
        n <= a.len(),
        n <= b.len(),
        forall|k: int| 0 <= k < n ==> #[trigger] a[k] == b[k],
    ensures
        osa(a, b, n, n) == 0,
    decreases n,
{
    if n > 0 {
        lemma_osa_same(a, b, (n - 1) as nat);
        assert(a[n - 1] == b[n - 1]);
    }
}

/// The shared front of two texts: they agree on it, and differ or end behind it.
pub proof fn lemma_shared(a: Seq<char>, b: Seq<char>)
    ensures
        shared(a, b) <= a.len(),
        shared(a, b) <= b.len(),
        forall|k: int| 0 <= k < shared(a, b) ==> #[trigger] a[k] == b[k],
        shared(a, b) < a.len() && shared(a, b) < b.len() ==> a[shared(a, b) as int] != b[shared(a, b) as int],
    decreases a.len(),
{
    if a.len() > 0 && b.len() > 0 && a[0] == b[0] {
        let c = a.drop_first();
        let d = b.drop_first();
        lemma_shared(c, d);
        assert forall|k: int| 0 <= k < shared(a, b) implies #[trigger] a[k] == b[k] by {
            if k > 0 {
                assert(c[k - 1] == d[k - 1]);
            }
        }
    }
}

} // verus!
