//! K-way merge of sorted streams with a loser tree.
//!
//! External sort and sort-merge join both merge many already-sorted runs into
//! one sorted output. A loser tree (tournament tree) is the efficient way to do
//! this: it keeps the current head of each run in a tournament, so producing the
//! next smallest element costs one root-to-leaf replay rather than a scan of all
//! runs. This module merges runs of `i64` keys; the generic ordering is by the
//! key, and each element carries the index of the run it came from so callers
//! can recover the associated payload.

use vstd::prelude::*;

verus! {

/// One merged element: its key and the source run it came from.
#[derive(Debug, Clone, Copy, PartialEq, Eq, Structural)]
pub struct Merged {
    pub key: i64,
    pub run: usize,
}

/// A loser-tree merger over a fixed set of sorted runs.
pub struct LoserTree {
    runs: Vec<Vec<i64>>,
    cursors: Vec<usize>,
    /// The internal nodes store the index of the "loser" leaf at each position.
    tree: Vec<usize>,
    k: usize,
    winner: usize,
    /// The leaf that won at each node; leaf `i` is node `k + i`.
    wins: Ghost<Seq<int>>,
    /// Whether every leaf below a node has been played.
    ready: Ghost<Seq<bool>>,
}

const EMPTY: usize = usize::MAX;

/// A run has no head left, or a larger one.
spec fn beats(rest: Seq<Seq<i64>>, a: int, b: int) -> bool {
    rest[b].len() == 0 || (rest[a].len() > 0 && rest[a][0] <= rest[b][0])
}

/// Node `x` is node `y` or stands above it.
spec fn over(x: int, y: int) -> bool
    decreases y,
{
    y == x || (y > x && y > 1 && over(x, y / 2))
}

/// The tournament at node `q`, as far as its two sides are settled: with one
/// side settled its winner waits in the slot, with both the loser stays there.
spec fn node_ok(rest: Seq<Seq<i64>>, tree: Seq<usize>, w: Seq<int>, ready: Seq<bool>, q: int) -> bool {
    let l = 2 * q;
    let r = 2 * q + 1;
    &&& ready[q] == (ready[l] && ready[r])
    &&& !ready[l] && !ready[r] ==> tree[q] == EMPTY
    &&& ready[l] && !ready[r] ==> tree[q] == w[l]
    &&& !ready[l] && ready[r] ==> tree[q] == w[r]
    &&& ready[l] && ready[r] ==> {
        &&& (w[q] == w[l] && tree[q] == w[r]) || (w[q] == w[r] && tree[q] == w[l])
        &&& beats(rest, w[q], tree[q] as int)
    }
}

/// The tournament is settled at the nodes that are ready.
spec fn settled(rest: Seq<Seq<i64>>, tree: Seq<usize>, w: Seq<int>, ready: Seq<bool>, k: int) -> bool {
    &&& k >= 1
    &&& rest.len() == k
    &&& tree.len() == k
    &&& w.len() == 2 * k
    &&& ready.len() == 2 * k
    &&& forall|q: int| 1 <= q < k ==> #[trigger] node_ok(rest, tree, w, ready, q)
    &&& winners(w, ready, k)
}

/// What is known of winners: each is a leaf below its node.
spec fn winners(w: Seq<int>, ready: Seq<bool>, k: int) -> bool {
    &&& forall|i: int| 0 <= i < k && ready[k + i] ==> #[trigger] w[k + i] == i
    &&& forall|x: int| 1 <= x < 2 * k && ready[x] ==> 0 <= #[trigger] w[x] < k && over(x, k + w[x])
}

spec fn all_ready(k: int) -> Seq<bool> {
    Seq::new((2 * k) as nat, |i: int| true)
}

proof fn lemma_beats(rest: Seq<Seq<i64>>, a: int, b: int, c: int)
    ensures
        beats(rest, a, a),
        beats(rest, a, b) && beats(rest, b, c) ==> beats(rest, a, c),
        beats(rest, a, b) || beats(rest, b, a),
{
}

proof fn lemma_over_pos(x: int, y: int)
    requires
        over(x, y),
        y >= 1,
    ensures
        x <= y,
        x >= 1 || x == y,
    decreases y,
{
    if y > x && y > 1 {
        lemma_over_pos(x, y / 2);
    }
}

/// Above a node there is one node at each height: of two children one at most.
proof fn lemma_over_child(q: int, y: int)
    requires
        q >= 1,
        y > q,
    ensures
        over(q, y) == (over(2 * q, y) || over(2 * q + 1, y)),
        !(over(2 * q, y) && over(2 * q + 1, y)),
    decreases y,
{
    if y == 2 * q || y == 2 * q + 1 {
        assert(over(q, q));
        assert(y / 2 == q);
        assert(over(q, y));
        if y == 2 * q + 1 {
            assert(!over(2 * q, y)) by {
                if over(2 * q, y / 2) {
                    lemma_over_pos(2 * q, y / 2);
                }
            }
        } else {
            assert(!over(2 * q + 1, y)) by {
                if over(2 * q + 1, y) {
                    lemma_over_pos(2 * q + 1, y);
                }
            }
        }
    } else if y / 2 > q {
        lemma_over_child(q, y / 2);
        if y < 2 * q + 1 {
            assert(false);
        }
    } else {
        assert(y / 2 <= q);
        assert(y < 2 * q);
        assert(!over(q, y)) by {
            if over(q, y) {
                assert(over(q, y / 2));
                lemma_over_pos(q, y / 2);
                assert(y / 2 == q);
            }
        }
        if over(2 * q, y) {
            lemma_over_pos(2 * q, y);
        }
        if over(2 * q + 1, y) {
            lemma_over_pos(2 * q + 1, y);
        }
    }
}

/// The overall winner beats every leaf.
proof fn lemma_champion(rest: Seq<Seq<i64>>, tree: Seq<usize>, w: Seq<int>, k: int, x: int)
    requires
        settled(rest, tree, w, all_ready(k), k),
        1 <= x < 2 * k,
    ensures
        beats(rest, w[1], w[x]),
    decreases x,
{
    if x > 1 {
        let q = x / 2;
        lemma_champion(rest, tree, w, k, q);
        assert(node_ok(rest, tree, w, all_ready(k), q));
        lemma_beats(rest, w[1], w[q], w[x]);
        lemma_beats(rest, w[q], w[q], w[q]);
    }
}

/// The overall winner won at every node above its leaf.
proof fn lemma_path(rest: Seq<Seq<i64>>, tree: Seq<usize>, w: Seq<int>, k: int, x: int)
    requires
        settled(rest, tree, w, all_ready(k), k),
        1 <= x < 2 * k,
        over(x, k + w[1]),
    ensures
        w[x] == w[1],
    decreases x,
{
    if x > 1 {
        let q = x / 2;
        let y = k + w[1];
        assert(all_ready(k)[1]);
        assert(0 <= w[1] < k);
        lemma_over_pos(x, y);
        lemma_over_child(q, y);
        lemma_path(rest, tree, w, k, q);
        assert(node_ok(rest, tree, w, all_ready(k), q));
        let s = if x == 2 * q {
            2 * q + 1
        } else {
            2 * q
        };
        assert(all_ready(k)[s] && all_ready(k)[x]);
        if w[s] == w[1] {
            assert(over(s, k + w[s]));
        }
    }
}

/// Advancing the winner's run undoes the matches on its path only.
proof fn lemma_unsettle(rest: Seq<Seq<i64>>, next: Seq<Seq<i64>>, tree: Seq<usize>, w: Seq<int>, k: int)
    requires
        settled(rest, tree, w, all_ready(k), k),
        next.len() == k,
        forall|i: int| 0 <= i < k && i != w[1] ==> #[trigger] next[i] == rest[i],
    ensures
        settled(next, tree, w, Seq::new((2 * k) as nat, |x: int| !over(x, k + w[1])), k),
        0 <= w[1] < k,
{
    let y = k + w[1];
    let full = all_ready(k);
    let ready = Seq::new((2 * k) as nat, |x: int| !over(x, y));
    assert(full[1]);
    assert(0 <= w[1] < k);
    assert forall|q: int| 1 <= q < k implies #[trigger] node_ok(next, tree, w, ready, q) by {
        assert(node_ok(rest, tree, w, full, q));
        lemma_over_child(q, y);
        let l = 2 * q;
        let r = 2 * q + 1;
        assert(full[l] && full[r]);
        if over(q, y) {
            if over(l, y) {
                lemma_path(rest, tree, w, k, l);
                lemma_path(rest, tree, w, k, q);
                if w[r] == w[1] {
                    assert(over(r, k + w[r]));
                }
            } else {
                lemma_path(rest, tree, w, k, r);
                lemma_path(rest, tree, w, k, q);
                if w[l] == w[1] {
                    assert(over(l, k + w[l]));
                }
            }
        } else {
            assert(over(l, k + w[l]) && over(r, k + w[r]));
            assert(w[l] != w[1] && w[r] != w[1]);
            assert(next[w[l]] == rest[w[l]] && next[w[r]] == rest[w[r]]);
        }
    }
}

// The tournament

/// A tournament: the run that waits at each inner node, from node 1 on, and the
/// run that won.
#[verifier::ext_equal]
pub struct Board {
    pub losers: Seq<usize>,
    pub winner: usize,
}

/// Run `a` has a head, and run `b` has none or a larger one.
pub open spec fn leads(rest: Seq<Seq<i64>>, a: int, b: int) -> bool {
    rest[a].len() > 0 && (rest[b].len() == 0 || rest[a][0] < rest[b][0])
}

/// A run goes up from a node. Where nobody waits it stays there; a run that waits
/// goes on in its place if it leads, so that on equal heads the one that comes up
/// wins. Who passes node 1 has won.
pub open spec fn settle(rest: Seq<Seq<i64>>, b: Board, at: int, comer: usize) -> Board
    decreases at,
{
    if at <= 0 {
        Board { winner: comer, ..b }
    } else if b.losers[at] == usize::MAX {
        Board { losers: b.losers.update(at, comer), ..b }
    } else if leads(rest, b.losers[at] as int, comer as int) {
        settle(rest, Board { losers: b.losers.update(at, comer), ..b }, at / 2, b.losers[at])
    } else {
        settle(rest, b, at / 2, comer)
    }
}

/// The tournament once the first `n` runs have come up, in order.
pub open spec fn opened(rest: Seq<Seq<i64>>, n: nat) -> Board
    decreases n,
{
    if n == 0 {
        Board { losers: Seq::new(rest.len(), |i: int| usize::MAX), winner: 0 }
    } else {
        settle(rest, opened(rest, (n - 1) as nat), (rest.len() + n - 1) / 2, (n - 1) as usize)
    }
}

/// `out` takes the winner's head and lets its run come up again, until every run
/// is exhausted.
pub open spec fn plays(rest: Seq<Seq<i64>>, b: Board, out: Seq<Merged>) -> bool
    decreases out.len(),
{
    if out.len() == 0 {
        exhausted(rest)
    } else {
        let next = taken(rest, out[0]);
        &&& is_next(rest, out[0])
        &&& out[0].run == b.winner
        &&& plays(next, settle(next, b, (rest.len() + b.winner) / 2, b.winner), out.drop_first())
    }
}

/// What a tournament plays is a merge, and there is just one play of it.
pub proof fn lemma_plays(rest: Seq<Seq<i64>>, b: Board, out: Seq<Merged>, other: Seq<Merged>)
    requires
        plays(rest, b, out),
    ensures
        merges(rest, out),
        plays(rest, b, other) ==> other == out,
    decreases out.len(),
{
    if out.len() > 0 {
        let next = taken(rest, out[0]);
        let c = settle(next, b, (rest.len() + b.winner) / 2, b.winner);
        lemma_plays(next, c, out.drop_first(), out.drop_first());
        if plays(rest, b, other) {
            if other.len() > 0 {
                assert(other[0] == out[0]);
                lemma_plays(next, c, out.drop_first(), other.drop_first());
                assert(other =~= seq![other[0]] + other.drop_first());
                assert(out =~= seq![out[0]] + out.drop_first());
            } else {
                assert(rest[out[0].run as int].len() == 0);
            }
        }
    } else if other.len() > 0 && plays(rest, b, other) {
        assert(rest[other[0].run as int].len() == 0);
    } else {
        assert(other.len() == 0 ==> other =~= out);
    }
}

// Merging

/// `m` heads one of the runs, and no run has a smaller head.
pub open spec fn is_next(rest: Seq<Seq<i64>>, m: Merged) -> bool {
    &&& m.run < rest.len()
    &&& rest[m.run as int].len() > 0
    &&& rest[m.run as int][0] == m.key
    &&& forall|i: int| 0 <= i < rest.len() && (#[trigger] rest[i]).len() > 0 ==> m.key <= rest[i][0]
}

/// The runs once `m` has been taken.
pub open spec fn taken(rest: Seq<Seq<i64>>, m: Merged) -> Seq<Seq<i64>> {
    rest.update(m.run as int, rest[m.run as int].drop_first())
}

/// Every run is exhausted.
pub open spec fn exhausted(rest: Seq<Seq<i64>>) -> bool {
    forall|i: int| 0 <= i < rest.len() ==> (#[trigger] rest[i]).len() == 0
}

/// `out` takes a smallest head of the runs, again and again, until there is none.
pub open spec fn merges(rest: Seq<Seq<i64>>, out: Seq<Merged>) -> bool
    decreases out.len(),
{
    if out.len() == 0 {
        exhausted(rest)
    } else {
        is_next(rest, out[0]) && merges(taken(rest, out[0]), out.drop_first())
    }
}

/// The keys of merged elements.
pub open spec fn keys(out: Seq<Merged>) -> Seq<i64> {
    out.map_values(|m: Merged| m.key)
}

/// The keys that came from one run.
pub open spec fn from_run(out: Seq<Merged>, run: int) -> Seq<i64>
    decreases out.len(),
{
    if out.len() == 0 {
        Seq::empty()
    } else if out[0].run == run {
        seq![out[0].key] + from_run(out.drop_first(), run)
    } else {
        from_run(out.drop_first(), run)
    }
}

pub open spec fn rising(s: Seq<i64>) -> bool {
    forall|i: int, j: int| 0 <= i < j < s.len() ==> s[i] <= s[j]
}

/// The runs that a list of vectors stands for; there is always one.
pub open spec fn runs_of(v: Seq<Vec<i64>>) -> Seq<Seq<i64>> {
    if v.len() == 0 {
        seq![Seq::empty()]
    } else {
        v.map_values(|r: Vec<i64>| r@)
    }
}

/// A merge gives out every run, in its order.
pub proof fn lemma_merge_complete(rest: Seq<Seq<i64>>, out: Seq<Merged>, run: int)
    requires
        merges(rest, out),
        0 <= run < rest.len(),
    ensures
        from_run(out, run) == rest[run],
    decreases out.len(),
{
    if out.len() > 0 {
        lemma_merge_complete(taken(rest, out[0]), out.drop_first(), run);
        if out[0].run == run {
            assert(seq![out[0].key] + rest[run].drop_first() =~= rest[run]);
        }
    } else {
        assert(rest[run] =~= Seq::<i64>::empty());
    }
}

/// A merge of sorted runs is sorted.
pub proof fn lemma_merge_sorted(rest: Seq<Seq<i64>>, out: Seq<Merged>)
    requires
        merges(rest, out),
        forall|i: int| 0 <= i < rest.len() ==> rising(#[trigger] rest[i]),
    ensures
        rising(keys(out)),
{
    lemma_merge_bound(rest, out, i64::MIN);
}

proof fn lemma_merge_bound(rest: Seq<Seq<i64>>, out: Seq<Merged>, low: i64)
    requires
        merges(rest, out),
        forall|i: int| 0 <= i < rest.len() ==> rising(#[trigger] rest[i]),
        forall|i: int| 0 <= i < rest.len() && (#[trigger] rest[i]).len() > 0 ==> low <= rest[i][0],
    ensures
        rising(keys(out)),
        forall|j: int| 0 <= j < out.len() ==> low <= (#[trigger] out[j]).key,
    decreases out.len(),
{
    if out.len() > 0 {
        let m = out[0];
        let t = taken(rest, m);
        let o = out.drop_first();
        assert forall|i: int| 0 <= i < t.len() implies rising(#[trigger] t[i]) by {
            assert(rising(rest[i]));
            if i == m.run {
                assert forall|a: int, b: int| 0 <= a < b < t[i].len() implies t[i][a] <= t[i][b] by {
                    assert(rest[i][a + 1] <= rest[i][b + 1]);
                }
            }
        }
        assert forall|i: int| 0 <= i < t.len() && (#[trigger] t[i]).len() > 0 implies m.key <= t[i][0] by {
            assert(rising(rest[i]));
            if i == m.run {
                assert(rest[i][0] <= rest[i][1]);
            } else {
                assert(rest[i].len() > 0);
            }
        }
        lemma_merge_bound(t, o, m.key);
        assert(low <= m.key) by {
            assert(rest[m.run as int].len() > 0);
        }
        assert forall|j: int| 0 <= j < out.len() implies low <= (#[trigger] out[j]).key by {
            if j > 0 {
                assert(out[j] == o[j - 1]);
            }
        }
        assert forall|i: int, j: int| 0 <= i < j < out.len() implies keys(out)[i] <= keys(out)[j] by {
            assert(out[j] == o[j - 1]);
            if i > 0 {
                assert(keys(o)[i - 1] <= keys(o)[j - 1]);
            }
        }
    }
}

/// How many elements are left.
spec fn left(rest: Seq<Seq<i64>>) -> nat
    decreases rest.len(),
{
    if rest.len() == 0 {
        0
    } else {
        left(rest.drop_last()) + rest.last().len()
    }
}

proof fn lemma_left(rest: Seq<Seq<i64>>, i: int)
    requires
        0 <= i < rest.len(),
        rest[i].len() > 0,
    ensures
        left(rest.update(i, rest[i].drop_first())) == left(rest) - 1,
        left(rest) > 0,
    decreases rest.len(),
{
    let u = rest.update(i, rest[i].drop_first());
    if i < rest.len() - 1 {
        lemma_left(rest.drop_last(), i);
        assert(u.drop_last() =~= rest.drop_last().update(i, rest[i].drop_first()));
    } else {
        assert(u.drop_last() =~= rest.drop_last());
    }
}

/// What is left of each run after a cursor.
spec fn rests(runs: Seq<Vec<i64>>, cursors: Seq<usize>) -> Seq<Seq<i64>> {
    Seq::new(runs.len(), |i: int| runs[i]@.skip(cursors[i] as int))
}

impl LoserTree {
    /// What is left of each run.
    pub closed spec fn rest(self) -> Seq<Seq<i64>> {
        rests(self.runs@, self.cursors@)
    }

    /// The tournament.
    pub closed spec fn board(self) -> Board {
        Board { losers: self.tree@, winner: self.winner }
    }

    spec fn shape(self) -> bool {
        &&& self.k >= 1
        &&& 2 * self.k <= usize::MAX
        &&& self.runs@.len() == self.k
        &&& self.cursors@.len() == self.k
        &&& forall|i: int| 0 <= i < self.k ==> (#[trigger] self.cursors@[i]) <= self.runs@[i]@.len()
    }

    /// The tournament is settled.
    pub closed spec fn wf(self) -> bool {
        &&& self.shape()
        &&& settled(self.rest(), self.tree@, self.wins@, all_ready(self.k as int), self.k as int)
        &&& self.winner == self.wins@[1]
    }

    /// Build a merger over the given sorted runs.
    pub fn new(runs: Vec<Vec<i64>>) -> (r: LoserTree)
        requires
            2 * runs@.len() + 2 <= usize::MAX,
        ensures
            r.wf(),
            r.rest() == runs_of(runs@),
            r.board() == opened(r.rest(), r.rest().len()),
    {
        let mut runs = runs;
        let ghost given = runs@;
        if runs.len() == 0 {
            runs.push(Vec::new());
        }
        let k: usize = runs.len();
        let mut cursors: Vec<usize> = Vec::new();
        let mut tree: Vec<usize> = Vec::new();
        let mut i: usize = 0;
        while i < k
            invariant
                i <= k,
                cursors@.len() == i,
                tree@.len() == i,
                forall|j: int| 0 <= j < i ==> cursors@[j] == 0 && tree@[j] == EMPTY,
            decreases k - i,
        {
            cursors.push(0);
            tree.push(EMPTY);
            i += 1;
        }
        let mut lt = LoserTree {
            runs,
            cursors,
            tree,
            k,
            winner: 0,
            wins: Ghost(Seq::new((2 * k) as nat, |i: int| 0int)),
            ready: Ghost(Seq::new((2 * k) as nat, |i: int| false)),
        };
        lt.build();
        proof {
            assert(lt.rest() =~= runs_of(given)) by {
                assert forall|j: int| 0 <= j < lt.rest().len() implies lt.rest()[j] == runs_of(given)[j] by {
                    assert(lt.cursors@[j] == 0);
                    assert(lt.runs@[j]@.skip(0) =~= lt.runs@[j]@);
                    if given.len() == 0 {
                        assert(lt.runs@[j]@ =~= Seq::<i64>::empty());
                    }
                }
            }
        }
        lt
    }

    /// Whether the head of run `a` is smaller than that of run `b`.
    fn less(&self, a: usize, b: usize) -> (r: bool)
        requires
            self.shape(),
            a < self.k,
            b < self.k,
        ensures
            r == !beats(self.rest(), b as int, a as int),
    {
        let i: usize = self.cursors[a];
        let j: usize = self.cursors[b];
        assert(self.cursors@[a as int] <= self.runs@[a as int]@.len());
        assert(self.cursors@[b as int] <= self.runs@[b as int]@.len());
        if i >= self.runs[a].len() {
            false
        } else if j >= self.runs[b].len() {
            true
        } else {
            self.runs[a][i] < self.runs[b][j]
        }
    }

    fn build(&mut self)
        requires
            old(self).shape(),
            old(self).tree@.len() == old(self).k,
            old(self).wins@.len() == 2 * old(self).k,
            old(self).ready@ == Seq::new((2 * old(self).k) as nat, |i: int| false),
            forall|j: int| 0 <= j < old(self).k ==> old(self).tree@[j] == EMPTY,
            old(self).winner == 0,
        ensures
            final(self).wf(),
            final(self).board() == opened(final(self).rest(), final(self).rest().len()),
            final(self).rest() == old(self).rest(),
            final(self).runs == old(self).runs,
            final(self).cursors == old(self).cursors,
    {
        let k: usize = self.k;
        let mut leaf: usize = 0;
        proof {
            assert forall|q: int| 1 <= q < k implies #[trigger] node_ok(
                self.rest(),
                self.tree@,
                self.wins@,
                self.ready@,
                q,
            ) by {}
            assert(self.board() =~= opened(self.rest(), 0)) by {
                assert(self.tree@ =~= opened(self.rest(), 0).losers);
            }
        }
        while leaf < k
            invariant
                leaf <= k,
                k == self.k,
                self.shape(),
                self.runs == old(self).runs,
                self.cursors == old(self).cursors,
                settled(self.rest(), self.tree@, self.wins@, self.ready@, k as int),
                forall|i: int| 0 <= i < k ==> #[trigger] self.ready@[k + i] == (i < leaf),
                self.ready@[1] ==> self.winner == self.wins@[1],
                self.board() == opened(self.rest(), leaf as nat),
            decreases k - leaf,
        {
            let ghost was = self.ready@;
            assert(self.ready@[k + leaf] == false);
            self.play(leaf);
            proof {
                assert forall|i: int| 0 <= i < k implies #[trigger] self.ready@[k + i] == (i < leaf + 1) by {
                    assert(was[k + i] == (i < leaf));
                }
            }
            leaf += 1;
        }
        proof {
            lemma_settle_all(self.rest(), self.tree@, self.wins@, self.ready@, k as int);
        }
    }

    /// Play leaf `leaf` up the tree, settling losers and finding the winner.
    fn play(&mut self, leaf: usize)
        requires
            old(self).shape(),
            leaf < old(self).k,
            settled(old(self).rest(), old(self).tree@, old(self).wins@, old(self).ready@, old(self).k as int),
            !old(self).ready@[old(self).k + leaf],
        ensures
            final(self).shape(),
            final(self).runs == old(self).runs,
            final(self).cursors == old(self).cursors,
            final(self).k == old(self).k,
            settled(
                final(self).rest(),
                final(self).tree@,
                final(self).wins@,
                final(self).ready@,
                final(self).k as int,
            ),
            forall|i: int|
                0 <= i < final(self).k ==> #[trigger] final(self).ready@[final(self).k + i] == (i == leaf
                    || old(self).ready@[final(self).k + i]),
            final(self).ready@[1] ==> final(self).winner == final(self).wins@[1],
            final(self).board() == settle(
                final(self).rest(),
                old(self).board(),
                (old(self).k + leaf) / 2,
                leaf,
            ),
    {
        let k: usize = self.k;
        let mut c: usize = k + leaf;
        let mut winner: usize = leaf;
        proof {
            let w0 = self.wins@;
            let r0 = self.ready@;
            self.wins@ = w0.update(c as int, leaf as int);
            self.ready@ = r0.update(c as int, true);
            let w = self.wins@;
            let r = self.ready@;
            assert forall|q: int| 1 <= q < k && q != c / 2 implies #[trigger] node_ok(self.rest(), self.tree@, w, r, q) by {
                assert(node_ok(self.rest(), self.tree@, w0, r0, q));
            }
            if c > 1 {
                assert(r.update(c as int, false) =~= r0);
                assert(node_ok(self.rest(), self.tree@, w0, r0, c as int / 2));
                assert(node_ok(self.rest(), self.tree@, w, r.update(c as int, false), c as int / 2));
            }
        }
        while c > 1
            invariant
                1 <= c < 2 * k,
                k == self.k,
                k == old(self).k,
                self.shape(),
                self.runs == old(self).runs,
                self.cursors == old(self).cursors,
                self.tree@.len() == k,
                self.wins@.len() == 2 * k,
                self.ready@.len() == 2 * k,
                self.ready@[c as int],
                self.wins@[c as int] == winner,
                winner < k,
                winners(self.wins@, self.ready@, k as int),
                forall|q: int|
                    1 <= q < k && q != c / 2 ==> #[trigger] node_ok(
                        self.rest(),
                        self.tree@,
                        self.wins@,
                        self.ready@,
                        q,
                    ),
                c > 1 ==> node_ok(
                    self.rest(),
                    self.tree@,
                    self.wins@,
                    self.ready@.update(c as int, false),
                    c as int / 2,
                ),
                forall|i: int|
                    0 <= i < k ==> #[trigger] self.ready@[k + i] == (i == leaf || old(self).ready@[k + i]),
                self.winner == old(self).winner,
                settle(self.rest(), self.board(), c as int / 2, winner) == settle(
                    self.rest(),
                    old(self).board(),
                    (k + leaf) / 2,
                    leaf,
                ),
            decreases c,
        {
            let parent: usize = c / 2;
            let slot: usize = self.tree[parent];
            let ghost t0 = self.tree@;
            let ghost w0 = self.wins@;
            let ghost r0 = self.ready@;
            let ghost p = parent as int;
            let ghost s = if c % 2 == 0 {
                c + 1
            } else {
                c - 1
            };
            proof {
                assert(c == 2 * p || c == 2 * p + 1);
                assert(s == 2 * p || s == 2 * p + 1);
                if r0[s] {
                    assert(0 <= w0[s] < k);
                }
            }
            if slot == EMPTY {
                self.tree.set(parent, winner);
                proof {
                    assert(!r0[s]);
                    assert forall|q: int| 1 <= q < k implies #[trigger] node_ok(self.rest(), self.tree@, w0, r0, q) by {
                        if q != p {
                            assert(node_ok(self.rest(), t0, w0, r0, q));
                        }
                    }
                    if r0[1] {
                        lemma_ready_down(self.rest(), self.tree@, w0, r0, k as int, p);
                    }
                }
                return;
            }
            proof {
                assert(r0[s] && slot == w0[s]);
                assert(over(c as int, k + w0[c as int]) && over(s, k + w0[s]));
                lemma_over_pos(c as int, k + w0[c as int]);
                lemma_over_pos(s, k + w0[s]);
                lemma_over_child(p, k + w0[c as int]);
                lemma_over_child(p, k + w0[s]);
                lemma_beats(self.rest(), slot as int, winner as int, winner as int);
            }
            if self.less(slot, winner) {
                self.tree.set(parent, winner);
                winner = slot;
            }
            proof {
                self.wins@ = w0.update(p, winner as int);
                self.ready@ = r0.update(p, true);
                let w = self.wins@;
                let r = self.ready@;
                assert(!r0.update(c as int, false)[p]);
                assert forall|q: int| 1 <= q < k && q != p / 2 implies #[trigger] node_ok(
                    self.rest(),
                    self.tree@,
                    w,
                    r,
                    q,
                ) by {
                    if q != p {
                        assert(node_ok(self.rest(), t0, w0, r0, q));
                    }
                }
                if p > 1 {
                    assert(r.update(p, false) =~= r0);
                    assert(node_ok(self.rest(), t0, w0, r0, p / 2));
                    assert(node_ok(self.rest(), self.tree@, w, r.update(p, false), p / 2));
                }
                assert forall|x: int| 1 <= x < 2 * k && r[x] implies 0 <= #[trigger] w[x] < k && over(x, k + w[x]) by {
                    if x != p {
                        assert(w[x] == w0[x]);
                        assert(r0[x]);
                    }
                }
                assert forall|i: int| 0 <= i < k && r[k + i] implies #[trigger] w[k + i] == i by {
                    assert(w0[k + i] == i);
                }
            }
            c = parent;
        }
        proof {
            assert(c == 1);
            assert forall|q: int| 1 <= q < k implies #[trigger] node_ok(
                self.rest(),
                self.tree@,
                self.wins@,
                self.ready@,
                q,
            ) by {
                assert(c / 2 == 0usize);
            }
        }
        assert(settled(self.rest(), self.tree@, self.wins@, self.ready@, k as int));
        let ghost was = *self;
        self.winner = winner;
        assert(self.rest() == was.rest());
        assert(self.ready@ == was.ready@ && self.wins@ == was.wins@ && self.tree@ == was.tree@);
    }

    /// `true` if every run is exhausted.
    pub fn is_empty(&self) -> (r: bool)
        requires
            self.wf(),
        ensures
            r == exhausted(self.rest()),
    {
        let mut i: usize = 0;
        while i < self.k
            invariant
                i <= self.k,
                self.shape(),
                forall|j: int| 0 <= j < i ==> (#[trigger] self.rest()[j]).len() == 0,
            decreases self.k - i,
        {
            assert(self.cursors@[i as int] <= self.runs@[i as int]@.len());
            if self.cursors[i] < self.runs[i].len() {
                assert(self.rest()[i as int].len() > 0);
                return false;
            }
            i += 1;
        }
        true
    }

    /// Produce the next smallest element, advancing its run.
    pub fn next(&mut self) -> (r: Option<Merged>)
        requires
            old(self).wf(),
        ensures
            final(self).wf(),
            r is None <==> exhausted(old(self).rest()),
            match r {
                None => final(self).rest() == old(self).rest() && final(self).board() == old(self).board(),
                Some(m) => {
                    &&& is_next(old(self).rest(), m)
                    &&& m.run == old(self).board().winner
                    &&& final(self).rest() == taken(old(self).rest(), m)
                    &&& final(self).board() == settle(
                        final(self).rest(),
                        old(self).board(),
                        (old(self).rest().len() + m.run) / 2,
                        m.run,
                    )
                },
            },
    {
        let ghost rest = self.rest();
        let k: usize = self.k;
        let leaf: usize = self.winner;
        proof {
            assert(all_ready(k as int)[1]);
            assert(0 <= self.wins@[1] < k);
            assert forall|i: int| 0 <= i < k implies beats(rest, leaf as int, i) by {
                assert(all_ready(k as int)[k + i]);
                assert(self.wins@[k + i] == i);
                lemma_champion(rest, self.tree@, self.wins@, k as int, k + i);
            }
            assert(self.cursors@[leaf as int] <= self.runs@[leaf as int]@.len());
        }
        let at: usize = self.cursors[leaf];
        if at >= self.runs[leaf].len() {
            proof {
                assert forall|i: int| 0 <= i < rest.len() implies (#[trigger] rest[i]).len() == 0 by {
                    assert(beats(rest, leaf as int, i));
                }
            }
            return None;
        }
        let key: i64 = self.runs[leaf][at];
        let m = Merged { key, run: leaf };
        proof {
            assert(rest[leaf as int].len() > 0);
            assert forall|i: int| 0 <= i < rest.len() && (#[trigger] rest[i]).len() > 0 implies m.key <= rest[i][0] by {
                assert(beats(rest, leaf as int, i));
            }
        }
        self.cursors.set(leaf, at + 1);
        proof {
            let next = self.rest();
            assert(next =~= taken(rest, m)) by {
                assert(self.runs@[leaf as int]@.skip(at + 1) =~= rest[leaf as int].drop_first());
            }
            lemma_unsettle(rest, next, self.tree@, self.wins@, k as int);
            self.ready@ = Seq::new((2 * k) as nat, |x: int| !over(x, k + self.wins@[1]));
        }
        let ghost before = self.ready@;
        assert(over(k + leaf as int, k + leaf as int));
        self.play(leaf);
        proof {
            assert forall|i: int| 0 <= i < k implies #[trigger] self.ready@[k + i] by {
                if i != leaf {
                    assert(before[k + i]) by {
                        if over(k + i, k + leaf as int) {
                            lemma_over_leaf(k as int, i, leaf as int);
                        }
                    }
                }
            }
            lemma_settle_all(self.rest(), self.tree@, self.wins@, self.ready@, k as int);
        }
        Some(m)
    }

    /// Drain the entire merge into a vector.
    pub fn collect(self) -> (out: Vec<Merged>)
        requires
            self.wf(),
        ensures
            plays(self.rest(), self.board(), out@),
            merges(self.rest(), out@),
    {
        let mut lt = self;
        let mut out: Vec<Merged> = Vec::new();
        proof {
            assert forall|tail: Seq<Merged>| #[trigger] plays(lt.rest(), lt.board(), tail) implies plays(
                self.rest(),
                self.board(),
                out@ + tail,
            ) by {
                assert(out@ + tail =~= tail);
            }
        }
        loop
            invariant
                lt.wf(),
                forall|tail: Seq<Merged>|
                    #[trigger] plays(lt.rest(), lt.board(), tail) ==> plays(self.rest(), self.board(), out@ + tail),
            ensures
                plays(self.rest(), self.board(), out@),
            decreases left(lt.rest()),
        {
            let ghost was = lt.rest();
            let ghost b = lt.board();
            let ghost o = out@;
            match lt.next() {
                None => {
                    proof {
                        let e = Seq::<Merged>::empty();
                        assert(plays(was, b, e));
                        assert(o + e =~= o);
                    }
                    break;
                },
                Some(m) => {
                    out.push(m);
                    proof {
                        lemma_left(was, m.run as int);
                        assert forall|tail: Seq<Merged>| #[trigger] plays(lt.rest(), lt.board(), tail) implies plays(
                            self.rest(),
                            self.board(),
                            out@ + tail,
                        ) by {
                            let longer = seq![m] + tail;
                            assert(longer.drop_first() =~= tail);
                            assert(plays(was, b, longer));
                            assert(o + longer =~= out@ + tail);
                        }
                    }
                },
            }
        }
        proof {
            lemma_plays(self.rest(), self.board(), out@, out@);
        }
        out
    }
}

proof fn lemma_over_leaf(k: int, i: int, j: int)
    requires
        1 <= k,
        0 <= i < k,
        0 <= j < k,
        over(k + i, k + j),
    ensures
        i == j,
{
    if i != j {
        lemma_over_pos(k + i, (k + j) / 2);
    }
}

/// Below a settled node all nodes are settled.
proof fn lemma_ready_down(rest: Seq<Seq<i64>>, tree: Seq<usize>, w: Seq<int>, ready: Seq<bool>, k: int, x: int)
    requires
        settled(rest, tree, w, ready, k),
        ready[1],
        1 <= x < 2 * k,
    ensures
        ready[x],
    decreases x,
{
    if x > 1 {
        lemma_ready_down(rest, tree, w, ready, k, x / 2);
        assert(node_ok(rest, tree, w, ready, x / 2));
    }
}

/// With all leaves played, all nodes are settled.
proof fn lemma_settle_all(rest: Seq<Seq<i64>>, tree: Seq<usize>, w: Seq<int>, ready: Seq<bool>, k: int)
    requires
        settled(rest, tree, w, ready, k),
        forall|i: int| 0 <= i < k ==> #[trigger] ready[k + i],
    ensures
        settled(rest, tree, w, all_ready(k), k),
        ready[1],
{
    assert forall|x: int| 1 <= x < 2 * k implies #[trigger] ready[x] by {
        lemma_ready_up(rest, tree, w, ready, k, x);
    }
    assert forall|q: int| 1 <= q < k implies #[trigger] node_ok(rest, tree, w, all_ready(k), q) by {
        assert(node_ok(rest, tree, w, ready, q));
        assert(ready[2 * q] && ready[2 * q + 1]);
    }
    assert forall|x: int| 1 <= x < 2 * k && all_ready(k)[x] implies 0 <= #[trigger] w[x] < k && over(x, k + w[x]) by {
        assert(ready[x]);
    }
    assert forall|i: int| 0 <= i < k && all_ready(k)[k + i] implies #[trigger] w[k + i] == i by {
        assert(ready[k + i]);
    }
}

proof fn lemma_ready_up(rest: Seq<Seq<i64>>, tree: Seq<usize>, w: Seq<int>, ready: Seq<bool>, k: int, x: int)
    requires
        settled(rest, tree, w, ready, k),
        forall|i: int| 0 <= i < k ==> #[trigger] ready[k + i],
        1 <= x < 2 * k,
    ensures
        ready[x],
    decreases 2 * k - x,
{
    if x >= k {
        assert(ready[k + (x - k)]);
    } else {
        lemma_ready_up(rest, tree, w, ready, k, 2 * x);
        lemma_ready_up(rest, tree, w, ready, k, 2 * x + 1);
        assert(node_ok(rest, tree, w, ready, x));
    }
}

/// Merge sorted runs and return the merged keys (dropping run provenance).
pub fn merge_runs(runs: Vec<Vec<i64>>) -> (r: Vec<i64>)
    requires
        2 * runs@.len() + 2 <= usize::MAX,
    ensures
        exists|out: Seq<Merged>|
            #[trigger] plays(runs_of(runs@), opened(runs_of(runs@), runs_of(runs@).len()), out) && r@ == keys(out),
        (forall|i: int| 0 <= i < runs@.len() ==> rising((#[trigger] runs@[i])@)) ==> rising(r@),
{
    let ghost given = runs@;
    let out = LoserTree::new(runs).collect();
    let mut r: Vec<i64> = Vec::new();
    let mut i: usize = 0;
    while i < out.len()
        invariant
            i <= out@.len(),
            r@.len() == i,
            forall|k: int| 0 <= k < i ==> r@[k] == out@[k].key,
        decreases out@.len() - i,
    {
        r.push(out[i].key);
        i += 1;
    }
    proof {
        assert(r@ =~= keys(out@));
        if forall|i: int| 0 <= i < given.len() ==> rising((#[trigger] given[i])@) {
            assert forall|i: int| 0 <= i < runs_of(given).len() implies rising(#[trigger] runs_of(given)[i]) by {
                if given.len() > 0 {
                    assert(rising(given[i]@));
                }
            }
            lemma_merge_sorted(runs_of(given), out@);
        }
    }
    r
}

} // verus!
