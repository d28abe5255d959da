//! What joins give: which rows, and how often.
//!
//! Every row of a join comes from one place: a left and a right row that meet, or one
//! row on its own. The laws here name these places and say which of them a join of
//! each kind has.

use crate::join;
use crate::join::{JoinKind, Meeting};
use crate::value;
use crate::value::{CmpOp, Side, Value};
use vstd::prelude::*;

verus! {

/// Rows with their places: each row stands for a place that is owed, no place comes
/// twice, and no owed place is left out.
spec fn accounts(
    owed: spec_fn((int, int)) -> bool,
    row: spec_fn((int, int)) -> Seq<Value>,
    out: Seq<Seq<Value>>,
    o: Seq<(int, int)>,
) -> bool {
    &&& o.len() == out.len()
    &&& o.no_duplicates()
    &&& forall|k: int| 0 <= k < o.len() ==> owed(#[trigger] o[k]) && out[k] == row(o[k])
    &&& forall|x: (int, int)| owed(x) ==> #[trigger] o.contains(x)
}

proof fn lemma_concat(
    f: spec_fn((int, int)) -> bool,
    g: spec_fn((int, int)) -> bool,
    h: spec_fn((int, int)) -> bool,
    row: spec_fn((int, int)) -> Seq<Value>,
    x: Seq<Seq<Value>>,
    y: Seq<Seq<Value>>,
    p: Seq<(int, int)>,
    q: Seq<(int, int)>,
)
    requires
        accounts(f, row, x, p),
        accounts(g, row, y, q),
        forall|t: (int, int)| #![trigger h(t)] h(t) == (f(t) || g(t)),
        forall|t: (int, int)| #![trigger f(t)] #![trigger g(t)] !(f(t) && g(t)),
    ensures
        accounts(h, row, x + y, p + q),
{
    let o = p + q;
    let out = x + y;
    assert forall|k: int| 0 <= k < o.len() implies h(#[trigger] o[k]) && out[k] == row(o[k]) by {
        if k < p.len() {
            assert(o[k] == p[k]);
            assert(f(p[k]));
        } else {
            assert(o[k] == q[k - p.len()]);
            assert(g(q[k - p.len()]));
        }
    }
    assert(o.no_duplicates()) by {
        assert forall|i: int, j: int| 0 <= i < o.len() && 0 <= j < o.len() && i != j implies o[i] != o[j] by {
            if i < p.len() && j < p.len() {
                assert(p[i] != p[j]);
            } else if i >= p.len() && j >= p.len() {
                assert(q[i - p.len()] != q[j - p.len()]);
            } else if i < p.len() {
                assert(f(p[i]) && g(q[j - p.len()]));
            } else {
                assert(f(p[j]) && g(q[i - p.len()]));
            }
        }
    }
    assert forall|t: (int, int)| h(t) implies #[trigger] o.contains(t) by {
        assert(h(t) == (f(t) || g(t)));
        if f(t) {
            assert(p.contains(t));
            let k = p.index_of(t);
            assert(o[k] == t);
        } else {
            assert(q.contains(t));
            let k = q.index_of(t);
            assert(o[k + p.len()] == t);
        }
    }
}

/// What is owed of a place where the rows meet as `meet` says. A place is a left and a
/// right row; -1 stands for no row.
spec fn owed(nl: nat, nr: nat, meet: spec_fn(int, int) -> bool, kind: JoinKind, x: (int, int)) -> bool {
    let (a, b) = x;
    match kind {
        JoinKind::Semi => 0 <= a < nl && b == -1 && exists|j: int| 0 <= j < nr && #[trigger] meet(a, j),
        JoinKind::Anti => 0 <= a < nl && b == -1 && !exists|j: int| 0 <= j < nr && #[trigger] meet(a, j),
        _ => {
            ||| 0 <= a < nl && 0 <= b < nr && meet(a, b)
            ||| (kind == JoinKind::LeftOuter || kind == JoinKind::FullOuter) && 0 <= a < nl && b == -1 && !exists|j: int|
                0 <= j < nr && #[trigger] meet(a, j)
            ||| (kind == JoinKind::RightOuter || kind == JoinKind::FullOuter) && a == -1 && 0 <= b < nr && !exists|i: int|
                0 <= i < nl && #[trigger] meet(i, b)
        },
    }
}

spec fn row_at(l: Seq<Seq<Value>>, r: Seq<Seq<Value>>, wl: nat, wr: nat, kind: JoinKind, x: (int, int)) -> Seq<Value> {
    let (a, b) = x;
    if kind == JoinKind::Semi || kind == JoinKind::Anti {
        l[a]
    } else if a == -1 {
        Seq::new(wl, |i: int| Value::Null) + r[b]
    } else if b == -1 {
        l[a] + Seq::new(wr, |i: int| Value::Null)
    } else {
        l[a] + r[b]
    }
}

/// The places of the rows that a key meets.
proof fn lemma_found(s: Seq<Seq<Value>>, c: int, m: Meeting, k: Value, left: bool) -> (at: Seq<int>)
    ensures
        at.len() == join::found(s, c, m, k, left).len(),
        forall|t: int| 0 <= t < at.len() ==> 0 <= #[trigger] at[t] < s.len() && join::found(s, c, m, k, left)[t] == s[at[t]],
        forall|t: int, u: int| 0 <= t < u < at.len() ==> at[t] < at[u],
        forall|i: int|
            0 <= i < s.len() ==> (#[trigger] at.contains(i) <==> if left {
                join::meets(m, k, join::cell(s[i], c))
            } else {
                join::meets(m, join::cell(s[i], c), k)
            }),
    decreases s.len(),
{
    if s.len() == 0 {
        Seq::empty()
    } else {
        let d = s.drop_last();
        let before = lemma_found(d, c, m, k, left);
        let n = s.len() - 1;
        let hit = if left {
            join::meets(m, k, join::cell(s[n], c))
        } else {
            join::meets(m, join::cell(s[n], c), k)
        };
        let at = if hit {
            before.push(n)
        } else {
            before
        };
        assert forall|i: int| 0 <= i < s.len() implies (#[trigger] at.contains(i) <==> if left {
            join::meets(m, k, join::cell(s[i], c))
        } else {
            join::meets(m, join::cell(s[i], c), k)
        }) by {
            if i < n {
                assert(d[i] == s[i]);
                if before.contains(i) {
                    assert(at[before.index_of(i)] == i);
                }
                if at.contains(i) {
                    let t = at.index_of(i);
                    assert(before[t] == i);
                }
            } else if hit {
                assert(at[before.len() as int] == i);
            } else if at.contains(i) {
                assert(before[before.index_of(i)] < d.len());
            }
        }
        at
    }
}

/// The places of what a join makes of left row `a`.
proof fn lemma_one_left(
    l: Seq<Seq<Value>>,
    r: Seq<Seq<Value>>,
    lc: int,
    rc: int,
    m: Meeting,
    kind: JoinKind,
    meet: spec_fn(int, int) -> bool,
    row: spec_fn((int, int)) -> Seq<Value>,
    f: spec_fn((int, int)) -> bool,
    wl: nat,
    a: int,
) -> (o: Seq<(int, int)>)
    requires
        0 <= a < l.len(),
        forall|i: int, j: int| #[trigger] meet(i, j) == join::meets(m, join::cell(l[i], lc), join::cell(r[j], rc)),
        forall|x: (int, int)| #[trigger] row(x) == row_at(l, r, wl, join::width(r), kind, x),
        forall|x: (int, int)| #[trigger] f(x) == (x.0 == a && owed(l.len(), r.len(), meet, kind, x)),
    ensures
        ({
            let found = join::found(r, rc, m, join::cell(l[a], lc), true);
            accounts(
                f,
                row,
                if found.len() == 0 {
                    join::left_alone(l[a], kind, join::width(r))
                } else {
                    join::met(l[a], found, kind)
                },
                o,
            )
        }),
{
    let found = join::found(r, rc, m, join::cell(l[a], lc), true);
    let at = lemma_found(r, rc, m, join::cell(l[a], lc), true);
    assert forall|j: int| 0 <= j < r.len() implies at.contains(j) == #[trigger] meet(a, j) by {}
    let out = if found.len() == 0 {
        join::left_alone(l[a], kind, join::width(r))
    } else {
        join::met(l[a], found, kind)
    };
    if found.len() > 0 {
        assert(at.contains(at[0]));
        assert(meet(a, at[0]));
    }
    if kind == JoinKind::Semi || kind == JoinKind::Anti || found.len() == 0 {
        let o = if out.len() == 0 {
            Seq::empty()
        } else {
            seq![(a, -1int)]
        };
        assert(join::nulls(join::width(r)) =~= Seq::new(join::width(r), |i: int| Value::Null));
        assert(f((a, -1int)) == (out.len() > 0));
        assert forall|x: (int, int)| f(x) implies #[trigger] o.contains(x) by {
            if x.1 != -1 {
                assert(meet(a, x.1));
            }
            assert(x == (a, -1int));
            assert(o[0] == x);
        }
        if out.len() > 0 {
            assert(out[0] == row((a, -1int)));
        }
        o
    } else {
        let o = Seq::new(at.len(), |t: int| (a, at[t]));
        assert forall|t: int| 0 <= t < o.len() implies f(#[trigger] o[t]) && out[t] == row(o[t]) by {
            assert(at.contains(at[t]));
            assert(meet(a, at[t]));
        }
        assert forall|x: (int, int)| f(x) implies #[trigger] o.contains(x) by {
            if x.1 == -1 {
                assert(meet(a, at[0]));
            } else {
                assert(at.contains(x.1));
                assert(o[at.index_of(x.1)] == x);
            }
        }
        o
    }
}

proof fn lemma_left_places(
    l: Seq<Seq<Value>>,
    r: Seq<Seq<Value>>,
    lc: int,
    rc: int,
    m: Meeting,
    kind: JoinKind,
    meet: spec_fn(int, int) -> bool,
    row: spec_fn((int, int)) -> Seq<Value>,
    f: spec_fn((int, int)) -> bool,
    wl: nat,
    n: int,
) -> (o: Seq<(int, int)>)
    requires
        0 <= n <= l.len(),
        forall|i: int, j: int| #[trigger] meet(i, j) == join::meets(m, join::cell(l[i], lc), join::cell(r[j], rc)),
        forall|x: (int, int)| #[trigger] row(x) == row_at(l, r, wl, join::width(r), kind, x),
        forall|x: (int, int)| #[trigger] f(x) == (0 <= x.0 < n && owed(l.len(), r.len(), meet, kind, x)),
    ensures
        accounts(f, row, join::by_left(l.take(n), r, lc, rc, m, kind), o),
    decreases n,
{
    if n == 0 {
        Seq::empty()
    } else {
        let g = |x: (int, int)| 0 <= x.0 < n - 1 && owed(l.len(), r.len(), meet, kind, x);
        let h = |x: (int, int)| x.0 == n - 1 && owed(l.len(), r.len(), meet, kind, x);
        let p = lemma_left_places(l, r, lc, rc, m, kind, meet, row, g, wl, n - 1);
        let q = lemma_one_left(l, r, lc, rc, m, kind, meet, row, h, wl, n - 1);
        assert(l.take(n).drop_last() =~= l.take(n - 1));
        assert(l.take(n).last() == l[n - 1]);
        let found = join::found(r, rc, m, join::cell(l[n - 1], lc), true);
        let more = if found.len() == 0 {
            join::left_alone(l[n - 1], kind, join::width(r))
        } else {
            join::met(l[n - 1], found, kind)
        };
        lemma_concat(g, h, f, row, join::by_left(l.take(n - 1), r, lc, rc, m, kind), more, p, q);
        p + q
    }
}

proof fn lemma_stray_places(
    l: Seq<Seq<Value>>,
    r: Seq<Seq<Value>>,
    lc: int,
    rc: int,
    m: Meeting,
    kind: JoinKind,
    meet: spec_fn(int, int) -> bool,
    row: spec_fn((int, int)) -> Seq<Value>,
    f: spec_fn((int, int)) -> bool,
    wr: nat,
    n: int,
) -> (o: Seq<(int, int)>)
    requires
        0 <= n <= r.len(),
        forall|i: int, j: int| #[trigger] meet(i, j) == join::meets(m, join::cell(l[i], lc), join::cell(r[j], rc)),
        forall|x: (int, int)| #[trigger] row(x) == row_at(l, r, join::width(l), wr, kind, x),
        forall|x: (int, int)| #[trigger] f(x) == (x.0 == -1 && x.1 < n && owed(l.len(), r.len(), meet, kind, x)),
    ensures
        accounts(f, row, join::strays(l, r.take(n), lc, rc, m, kind), o),
    decreases n,
{
    if n == 0 {
        Seq::empty()
    } else {
        let g = |x: (int, int)| x.0 == -1 && x.1 < n - 1 && owed(l.len(), r.len(), meet, kind, x);
        let h = |x: (int, int)| x.0 == -1 && x.1 == n - 1 && owed(l.len(), r.len(), meet, kind, x);
        let p = lemma_stray_places(l, r, lc, rc, m, kind, meet, row, g, wr, n - 1);
        assert(r.take(n).drop_last() =~= r.take(n - 1));
        assert(r.take(n).last() == r[n - 1]);
        let found = join::found(l, lc, m, join::cell(r[n - 1], rc), false);
        let at = lemma_found(l, lc, m, join::cell(r[n - 1], rc), false);
        assert forall|i: int| 0 <= i < l.len() implies at.contains(i) == #[trigger] meet(i, n - 1) by {}
        if found.len() > 0 {
            assert(at.contains(at[0]));
            assert(meet(at[0], n - 1));
        }
        let more = if found.len() == 0 {
            join::right_alone(r[n - 1], kind, join::width(l))
        } else {
            Seq::empty()
        };
        let q = if more.len() == 0 {
            Seq::empty()
        } else {
            seq![(-1int, n - 1)]
        };
        assert(join::nulls(join::width(l)) =~= Seq::new(join::width(l), |i: int| Value::Null));
        assert(h((-1int, n - 1)) == (more.len() > 0));
        assert(accounts(h, row, more, q)) by {
            assert forall|x: (int, int)| h(x) implies #[trigger] q.contains(x) by {
                assert(x == (-1int, n - 1));
                assert(q[0] == x);
            }
            if more.len() > 0 {
                assert(more[0] == row((-1int, n - 1)));
            }
        }
        lemma_concat(g, h, f, row, join::strays(l, r.take(n - 1), lc, rc, m, kind), more, p, q);
        p + q
    }
}

/// What a nested-loop join gives. Its rows have places, none of them twice. An inner
/// or outer join has the place of every left and right row that meet, and there the
/// left row followed by the right one. A left or full outer join has also each left
/// row that meets nothing, followed by nulls; a right or full outer join each right
/// row that meets nothing, after nulls. A semi join has the left rows that meet
/// something, an anti join those that meet nothing, each by itself. There is no other
/// row. (Place -1 stands for no row.)
#[verifier::spinoff_prover]
#[verifier::rlimit(100)]
pub proof fn lemma_nested_rows(
    l: Seq<Seq<Value>>,
    r: Seq<Seq<Value>>,
    lc: int,
    rc: int,
    m: Meeting,
    kind: JoinKind,
) -> (o: Seq<(int, int)>)
    ensures
        o.len() == join::nested(l, r, lc, rc, m, kind).len(),
        o.no_duplicates(),
        forall|a: int, b: int|
            0 <= a < l.len() && 0 <= b < r.len() ==> (#[trigger] o.contains((a, b)) <==> join::meets(
                m,
                join::cell(l[a], lc),
                join::cell(r[b], rc),
            ) && (kind == JoinKind::Inner || kind == JoinKind::LeftOuter || kind == JoinKind::RightOuter || kind
                == JoinKind::FullOuter)),
        kind == JoinKind::LeftOuter || kind == JoinKind::FullOuter || kind == JoinKind::Anti ==> forall|a: int|
            0 <= a < l.len() ==> (#[trigger] o.contains((a, -1)) <==> forall|b: int|
                0 <= b < r.len() ==> !join::meets(m, join::cell(l[a], lc), join::cell(#[trigger] r[b], rc))),
        kind == JoinKind::Semi ==> forall|a: int|
            0 <= a < l.len() ==> (#[trigger] o.contains((a, -1)) <==> exists|b: int|
                0 <= b < r.len() && join::meets(m, join::cell(l[a], lc), join::cell(#[trigger] r[b], rc))),
        kind == JoinKind::Inner || kind == JoinKind::RightOuter ==> forall|a: int| !#[trigger] o.contains((a, -1)),
        kind == JoinKind::RightOuter || kind == JoinKind::FullOuter ==> forall|b: int|
            0 <= b < r.len() ==> (#[trigger] o.contains((-1, b)) <==> forall|a: int|
                0 <= a < l.len() ==> !join::meets(m, join::cell(#[trigger] l[a], lc), join::cell(r[b], rc))),
        kind != JoinKind::RightOuter && kind != JoinKind::FullOuter ==> forall|b: int| !#[trigger] o.contains((-1, b)),
        forall|k: int|
            0 <= k < o.len() ==> {
                let (a, b) = #[trigger] o[k];
                let row = join::nested(l, r, lc, rc, m, kind)[k];
                &&& -1 <= a < l.len() && -1 <= b < r.len() && !(a == -1 && b == -1)
                &&& a >= 0 && b >= 0 ==> row == l[a] + r[b]
                &&& b == -1 && (kind == JoinKind::Semi || kind == JoinKind::Anti) ==> row == l[a]
                &&& b == -1 && (kind == JoinKind::LeftOuter || kind == JoinKind::FullOuter) ==> {
                    &&& row.len() == l[a].len() + (if r.len() == 0 { 0 } else { r[0].len() })
                    &&& row.take(l[a].len() as int) == l[a]
                    &&& forall|i: int| l[a].len() <= i < row.len() ==> #[trigger] row[i] is Null
                }
                &&& a == -1 ==> {
                    &&& row.len() == (if l.len() == 0 { 0 } else { l[0].len() }) + r[b].len()
                    &&& row.skip(row.len() - r[b].len()) == r[b]
                    &&& forall|i: int| 0 <= i < row.len() - r[b].len() ==> #[trigger] row[i] is Null
                }
            },
{
    let wl = join::width(l);
    let wr = join::width(r);
    let meet = |a: int, b: int| join::meets(m, join::cell(l[a], lc), join::cell(r[b], rc));
    let row = |x: (int, int)| row_at(l, r, wl, wr, kind, x);
    let f = |x: (int, int)| 0 <= x.0 < l.len() && owed(l.len(), r.len(), meet, kind, x);
    let g = |x: (int, int)| x.0 == -1 && x.1 < r.len() && owed(l.len(), r.len(), meet, kind, x);
    let h = |x: (int, int)| owed(l.len(), r.len(), meet, kind, x);
    let p = lemma_left_places(l, r, lc, rc, m, kind, meet, row, f, wl, l.len() as int);
    let q = lemma_stray_places(l, r, lc, rc, m, kind, meet, row, g, wr, r.len() as int);
    assert(l.take(l.len() as int) =~= l);
    assert(r.take(r.len() as int) =~= r);
    lemma_concat(f, g, h, row, join::by_left(l, r, lc, rc, m, kind), join::strays(l, r, lc, rc, m, kind), p, q);
    let o = p + q;
    assert(accounts(h, row, join::nested(l, r, lc, rc, m, kind), o));
    assert forall|x: (int, int)| #[trigger] o.contains(x) implies owed(l.len(), r.len(), meet, kind, x) by {
        let k = o.index_of(x);
        assert(h(o[k]));
    }
    assert forall|a: int, b: int| 0 <= a < l.len() && 0 <= b < r.len() && owed(l.len(), r.len(), meet, kind, (a, b)) implies
        #[trigger] o.contains((a, b)) by {
        assert(h((a, b)));
    }
    assert forall|a: int| owed(l.len(), r.len(), meet, kind, (a, -1)) implies #[trigger] o.contains((a, -1)) by {
        assert(h((a, -1)));
    }
    assert forall|b: int| owed(l.len(), r.len(), meet, kind, (-1, b)) implies #[trigger] o.contains((-1, b)) by {
        assert(h((-1, b)));
    }
    let out = join::nested(l, r, lc, rc, m, kind);
    assert forall|a: int| #![trigger l[a]] 0 <= a < l.len() && exists|b: int|
        0 <= b < r.len() && join::meets(m, join::cell(l[a], lc), join::cell(#[trigger] r[b], rc)) implies exists|j: int|
        0 <= j < r.len() && #[trigger] meet(a, j) by {
        let b = choose|b: int| 0 <= b < r.len() && join::meets(m, join::cell(l[a], lc), join::cell(#[trigger] r[b], rc));
        assert(meet(a, b));
    }
    assert forall|b: int| #![trigger r[b]] 0 <= b < r.len() && exists|a: int|
        0 <= a < l.len() && join::meets(m, join::cell(#[trigger] l[a], lc), join::cell(r[b], rc)) implies exists|i: int|
        0 <= i < l.len() && #[trigger] meet(i, b) by {
        let a = choose|a: int| 0 <= a < l.len() && join::meets(m, join::cell(#[trigger] l[a], lc), join::cell(r[b], rc));
        assert(meet(a, b));
    }
    assert forall|a: int, b: int| #[trigger] o.contains((a, b)) implies owed(l.len(), r.len(), meet, kind, (a, b)) by {}
    assert forall|k: int| 0 <= k < o.len() implies {
        let (a, b) = #[trigger] o[k];
        let row = out[k];
        &&& -1 <= a < l.len() && -1 <= b < r.len() && !(a == -1 && b == -1)
        &&& a >= 0 && b >= 0 ==> row == l[a] + r[b]
        &&& b == -1 && (kind == JoinKind::Semi || kind == JoinKind::Anti) ==> row == l[a]
        &&& b == -1 && (kind == JoinKind::LeftOuter || kind == JoinKind::FullOuter) ==> {
            &&& row.len() == l[a].len() + (if r.len() == 0 { 0 } else { r[0].len() })
            &&& row.take(l[a].len() as int) == l[a]
            &&& forall|i: int| l[a].len() <= i < row.len() ==> #[trigger] row[i] is Null
        }
        &&& a == -1 ==> {
            &&& row.len() == (if l.len() == 0 { 0 } else { l[0].len() }) + r[b].len()
            &&& row.skip(row.len() - r[b].len()) == r[b]
            &&& forall|i: int| 0 <= i < row.len() - r[b].len() ==> #[trigger] row[i] is Null
        }
    } by {
        let (a, b) = o[k];
        assert(h(o[k]));
        assert(out[k] == row_at(l, r, wl, wr, kind, (a, b)));
        if b == -1 && (kind == JoinKind::LeftOuter || kind == JoinKind::FullOuter) {
            assert(out[k].take(l[a].len() as int) =~= l[a]);
        }
        if a == -1 {
            assert(out[k].skip(out[k].len() - r[b].len()) =~= r[b]);
        }
    }
    o
}

/// When keys meet: under a comparison, where it holds of the two; otherwise where they
/// are one and the same value. A key is the row's value in its column, and null in a
/// row that is too short.
pub proof fn lemma_keys_meet(x: Seq<Value>, y: Seq<Value>, c: int, d: int, op: CmpOp)
    requires
        0 <= c < x.len(),
        0 <= d < y.len(),
    ensures
        join::meets(Meeting::Same, join::cell(x, c), join::cell(y, d)) <==> x[c] == y[d],
        join::meets(Meeting::Compared(op), join::cell(x, c), join::cell(y, d)) <==> value::holds(op, x[c], y[d]),
        join::cell(x, x.len() as int) is Null,
{
}

/// Two keys that are level: the order does not tell them apart.
spec fn level(l: Seq<Seq<Value>>, r: Seq<Seq<Value>>, lc: int, rc: int, a: int, b: int) -> bool {
    value::value_side(join::cell(l[a], lc), join::cell(r[b], rc)) == Side::Same
}

/// A list sorted by key, in which keys that are level are equal or the same.
spec fn in_runs(s: Seq<Seq<Value>>, c: int) -> bool {
    forall|i: int, j: int|
        #![trigger s[i], s[j]]
        0 <= i < j < s.len() ==> {
            let x = join::cell(s[i], c);
            let y = join::cell(s[j], c);
            &&& value::value_side(y, x) != Side::Below
            &&& value::value_side(y, x) == Side::Same ==> value::equal(y, x) || y == x
        }
}

/// A run of alike keys at the front of what is left of a sorted list.
proof fn lemma_run_ends(s: Seq<Seq<Value>>, c: int, i: int, k: Value) -> (m: int)
    requires
        in_runs(s, c),
        0 <= i <= s.len(),
    ensures
        m == i + join::run(s.skip(i), c, k),
        i <= m <= s.len(),
        forall|a: int| i <= a < m ==> join::alike(join::cell(#[trigger] s[a], c), k),
        m < s.len() ==> !join::alike(join::cell(s[m], c), k),
    decreases s.len() - i,
{
    let t = s.skip(i);
    if i == s.len() {
        i
    } else {
        assert(t[0] == s[i]);
        assert(t.skip(1) =~= s.skip(i + 1));
        if join::alike(join::cell(s[i], c), k) {
            lemma_run_ends(s, c, i + 1, k)
        } else {
            i
        }
    }
}

/// Keys that are alike are level.
proof fn lemma_alike_level(a: Value, b: Value)
    ensures
        join::alike(a, b) ==> value::value_side(a, b) == Side::Same,
{
    value::lemma_value_order(a, a, a);
}

proof fn lemma_block_places(
    l: Seq<Seq<Value>>,
    r: Seq<Seq<Value>>,
    kind: JoinKind,
    meet: spec_fn(int, int) -> bool,
    row: spec_fn((int, int)) -> Seq<Value>,
    f: spec_fn((int, int)) -> bool,
    wl: nat,
    wr: nat,
    i: int,
    m: int,
    j: int,
    n: int,
) -> (o: Seq<(int, int)>)
    requires
        0 <= i <= m <= l.len(),
        0 <= j < n <= r.len(),
        forall|x: (int, int)| #[trigger] row(x) == row_at(l, r, wl, wr, kind, x),
        forall|a: int, b: int| i <= a < m && 0 <= b < r.len() ==> (#[trigger] meet(a, b) == (j <= b < n)),
        forall|x: (int, int)| #[trigger] f(x) == (i <= x.0 < m && owed(l.len(), r.len(), meet, kind, x)),
    ensures
        accounts(f, row, join::block(l.subrange(i, m), r.subrange(j, n), kind), o),
    decreases m - i,
{
    if m == i {
        Seq::empty()
    } else {
        let a = m - 1;
        let g = |x: (int, int)| i <= x.0 < a && owed(l.len(), r.len(), meet, kind, x);
        let h = |x: (int, int)| x.0 == a && owed(l.len(), r.len(), meet, kind, x);
        let p = lemma_block_places(l, r, kind, meet, row, g, wl, wr, i, a, j, n);
        let s = l.subrange(i, m);
        let t = r.subrange(j, n);
        assert(s.drop_last() =~= l.subrange(i, a));
        assert(s.last() == l[a]);
        let more = join::met(l[a], t, kind);
        assert(meet(a, j));
        let q = if kind == JoinKind::Semi {
            seq![(a, -1int)]
        } else if kind == JoinKind::Anti {
            Seq::empty()
        } else {
            Seq::new(t.len(), |k: int| (a, j + k))
        };
        assert(accounts(h, row, more, q)) by {
            assert forall|k: int| 0 <= k < q.len() implies h(#[trigger] q[k]) && more[k] == row(q[k]) by {
                if kind != JoinKind::Semi {
                    assert(meet(a, j + k));
                    assert(t[k] == r[j + k]);
                }
            }
            assert forall|x: (int, int)| h(x) implies #[trigger] q.contains(x) by {
                if kind == JoinKind::Semi {
                    assert(q[0] == x);
                } else {
                    assert(meet(a, j));
                    assert(x.1 >= 0);
                    assert(meet(a, x.1));
                    assert(q[x.1 - j] == x);
                }
            }
        }
        lemma_concat(g, h, f, row, join::block(l.subrange(i, a), t, kind), more, p, q);
        p + q
    }
}

#[verifier::spinoff_prover]
#[verifier::rlimit(60)]
proof fn lemma_merged_places(
    l: Seq<Seq<Value>>,
    r: Seq<Seq<Value>>,
    lc: int,
    rc: int,
    kind: JoinKind,
    meet: spec_fn(int, int) -> bool,
    row: spec_fn((int, int)) -> Seq<Value>,
    f: spec_fn((int, int)) -> bool,
    wl: nat,
    wr: nat,
    i: int,
    j: int,
) -> (o: Seq<(int, int)>)
    requires
        0 <= i <= l.len(),
        0 <= j <= r.len(),
        in_runs(l, lc),
        in_runs(r, rc),
        forall|a: int, b: int| #[trigger] meet(a, b) == level(l, r, lc, rc, a, b),
        forall|x: (int, int)| #[trigger] row(x) == row_at(l, r, wl, wr, kind, x),
        forall|x: (int, int)| #[trigger] f(x) == ((x.0 == -1 || x.0 >= i) && (x.1 == -1 || x.1 >= j) && owed(
            l.len(),
            r.len(),
            meet,
            kind,
            x,
        )),
        forall|a: int, b: int| 0 <= a < i && j <= b < r.len() ==> !#[trigger] meet(a, b),
        forall|a: int, b: int| i <= a < l.len() && 0 <= b < j ==> !#[trigger] meet(a, b),
    ensures
        accounts(f, row, join::merged(l.skip(i), r.skip(j), lc, rc, kind, wl, wr), o),
    decreases l.len() - i + r.len() - j, 1int,
{
    let sl = l.skip(i);
    let sr = r.skip(j);
    if i == l.len() && j == r.len() {
        assert(join::merged(sl, sr, lc, rc, kind, wl, wr) =~= Seq::<Seq<Value>>::empty());
        assert forall|x: (int, int)| !#[trigger] f(x) by {}
        Seq::empty()
    } else {
        if i < l.len() {
            assert(sl[0] == l[i]);
        }
        if j < r.len() {
            assert(sr[0] == r[j]);
        }
        let side = if j >= r.len() {
            Side::Below
        } else if i >= l.len() {
            Side::Above
        } else {
            value::value_side(join::cell(l[i], lc), join::cell(r[j], rc))
        };
        match side {
            Side::Below => {
                assert forall|b: int| 0 <= b < r.len() implies !#[trigger] meet(i, b) by {
                    if b >= j {
                        if b > j {
                            assert(value::value_side(join::cell(r[b], rc), join::cell(r[j], rc)) != Side::Below);
                        }
                        value::lemma_value_order(join::cell(l[i], lc), join::cell(r[j], rc), join::cell(r[b], rc));
                        value::lemma_value_order(join::cell(r[b], rc), join::cell(r[j], rc), join::cell(r[b], rc));
                        value::lemma_value_order(join::cell(r[j], rc), join::cell(r[b], rc), join::cell(r[j], rc));
                    }
                }
                let g = |x: (int, int)| (x.0 == -1 || x.0 >= i + 1) && (x.1 == -1 || x.1 >= j) && owed(
                    l.len(),
                    r.len(),
                    meet,
                    kind,
                    x,
                );
                let h = |x: (int, int)| x.0 == i && owed(l.len(), r.len(), meet, kind, x);
                let q = lemma_merged_places(l, r, lc, rc, kind, meet, row, g, wl, wr, i + 1, j);
                assert(sl.skip(1) =~= l.skip(i + 1));
                let one = join::left_alone(l[i], kind, wr);
                let p = if one.len() == 0 {
                    Seq::empty()
                } else {
                    seq![(i, -1int)]
                };
                assert(join::nulls(wr) =~= Seq::new(wr, |k: int| Value::Null));
                assert(h((i, -1int)) == (one.len() > 0));
                assert(accounts(h, row, one, p)) by {
                    assert forall|x: (int, int)| h(x) implies #[trigger] p.contains(x) by {
                        if x.1 != -1 {
                            assert(meet(i, x.1));
                        }
                        assert(p[0] == x);
                    }
                    if one.len() > 0 {
                        assert(one[0] == row((i, -1int)));
                    }
                }
                assert forall|x: (int, int)| #[trigger] f(x) == (h(x) || g(x)) by {
                    if x.0 == i && x.1 >= 0 && owed(l.len(), r.len(), meet, kind, x) {
                        assert(meet(i, x.1));
                    }
                }
                lemma_concat(h, g, f, row, one, join::merged(l.skip(i + 1), sr, lc, rc, kind, wl, wr), p, q);
                p + q
            },
            Side::Above => {
                assert forall|a: int| 0 <= a < l.len() implies !#[trigger] meet(a, j) by {
                    if a >= i {
                        if a > i {
                            assert(value::value_side(join::cell(l[a], lc), join::cell(l[i], lc)) != Side::Below);
                        }
                        value::lemma_value_order(join::cell(l[i], lc), join::cell(r[j], rc), join::cell(l[a], lc));
                        value::lemma_value_order(join::cell(r[j], rc), join::cell(l[i], lc), join::cell(l[a], lc));
                        value::lemma_value_order(join::cell(l[a], lc), join::cell(l[i], lc), join::cell(r[j], rc));
                        value::lemma_value_order(join::cell(l[i], lc), join::cell(l[a], lc), join::cell(l[i], lc));
                    }
                }
                let g = |x: (int, int)| (x.0 == -1 || x.0 >= i) && (x.1 == -1 || x.1 >= j + 1) && owed(
                    l.len(),
                    r.len(),
                    meet,
                    kind,
                    x,
                );
                let h = |x: (int, int)| x.1 == j && owed(l.len(), r.len(), meet, kind, x);
                let q = lemma_merged_places(l, r, lc, rc, kind, meet, row, g, wl, wr, i, j + 1);
                assert(sr.skip(1) =~= r.skip(j + 1));
                let one = join::right_alone(r[j], kind, wl);
                let p = if one.len() == 0 {
                    Seq::empty()
                } else {
                    seq![(-1int, j)]
                };
                assert(join::nulls(wl) =~= Seq::new(wl, |k: int| Value::Null));
                assert(h((-1int, j)) == (one.len() > 0));
                assert(accounts(h, row, one, p)) by {
                    assert forall|x: (int, int)| h(x) implies #[trigger] p.contains(x) by {
                        if x.0 != -1 {
                            assert(meet(x.0, j));
                        }
                        assert(p[0] == x);
                    }
                    if one.len() > 0 {
                        assert(one[0] == row((-1int, j)));
                    }
                }
                assert forall|x: (int, int)| #[trigger] f(x) == (h(x) || g(x)) by {
                    if x.1 == j && x.0 >= 0 && owed(l.len(), r.len(), meet, kind, x) {
                        assert(meet(x.0, j));
                    }
                }
                lemma_concat(h, g, f, row, one, join::merged(sl, r.skip(j + 1), lc, rc, kind, wl, wr), p, q);
                p + q
            },
            Side::Same => lemma_merged_level(l, r, lc, rc, kind, meet, row, f, wl, wr, i, j),
        }
    }
}

#[verifier::spinoff_prover]
#[verifier::rlimit(60)]
proof fn lemma_merged_level(
    l: Seq<Seq<Value>>,
    r: Seq<Seq<Value>>,
    lc: int,
    rc: int,
    kind: JoinKind,
    meet: spec_fn(int, int) -> bool,
    row: spec_fn((int, int)) -> Seq<Value>,
    f: spec_fn((int, int)) -> bool,
    wl: nat,
    wr: nat,
    i: int,
    j: int,
) -> (o: Seq<(int, int)>)
    requires
        0 <= i < l.len(),
        0 <= j < r.len(),
        in_runs(l, lc),
        in_runs(r, rc),
        value::value_side(join::cell(l[i], lc), join::cell(r[j], rc)) == Side::Same,
        forall|a: int, b: int| #[trigger] meet(a, b) == level(l, r, lc, rc, a, b),
        forall|x: (int, int)| #[trigger] row(x) == row_at(l, r, wl, wr, kind, x),
        forall|x: (int, int)| #[trigger] f(x) == ((x.0 == -1 || x.0 >= i) && (x.1 == -1 || x.1 >= j) && owed(
            l.len(),
            r.len(),
            meet,
            kind,
            x,
        )),
        forall|a: int, b: int| 0 <= a < i && j <= b < r.len() ==> !#[trigger] meet(a, b),
        forall|a: int, b: int| i <= a < l.len() && 0 <= b < j ==> !#[trigger] meet(a, b),
    ensures
        accounts(f, row, join::merged(l.skip(i), r.skip(j), lc, rc, kind, wl, wr), o),
    decreases l.len() - i + r.len() - j, 0int,
{
    let sl = l.skip(i);
    let sr = r.skip(j);
    assert(sl[0] == l[i] && sr[0] == r[j]);
    let x0 = join::cell(l[i], lc);
    let y0 = join::cell(r[j], rc);
    let m = lemma_run_ends(l, lc, i, x0);
    let n = lemma_run_ends(r, rc, j, y0);
    assert(join::alike(x0, x0) && join::alike(y0, y0));
    assert(m > i && n > j);
    assert forall|a: int, b: int| i <= a < l.len() && j <= b < r.len() implies (#[trigger] meet(a, b) ==> (a < m) == (b < n)) && (a
        < m && b < n ==> meet(a, b)) by {
        let x = join::cell(l[a], lc);
        let y = join::cell(r[b], rc);
        lemma_spread(l, lc, i, m, a);
        lemma_spread(r, rc, j, n, b);
        value::lemma_value_order(x, x0, y0);
        value::lemma_value_order(x0, x, y0);
        value::lemma_value_order(x, y0, y);
        value::lemma_value_order(y, y0, x);
        value::lemma_value_order(y0, y, x);
        value::lemma_value_order(x0, y0, y);
        value::lemma_value_order(y0, x0, x);
        value::lemma_value_order(y, y0, x0);
    }
    let g = |x: (int, int)| (x.0 == -1 || x.0 >= m) && (x.1 == -1 || x.1 >= n) && owed(l.len(), r.len(), meet, kind, x);
    let h = |x: (int, int)| i <= x.0 < m && owed(l.len(), r.len(), meet, kind, x);
    assert forall|a: int, b: int| i <= a < m && 0 <= b < r.len() implies (#[trigger] meet(a, b) == (j <= b < n)) by {}
    let p = lemma_block_places(l, r, kind, meet, row, h, wl, wr, i, m, j, n);
    let q = lemma_merged_places(l, r, lc, rc, kind, meet, row, g, wl, wr, m, n);
    assert(sl.take(m - i) =~= l.subrange(i, m));
    assert(sr.take(n - j) =~= r.subrange(j, n));
    assert(sl.skip(m - i) =~= l.skip(m));
    assert(sr.skip(n - j) =~= r.skip(n));
    assert forall|x: (int, int)| #[trigger] f(x) == (h(x) || g(x)) by {
        if owed(l.len(), r.len(), meet, kind, x) {
            if x.0 >= 0 && x.1 >= 0 {
                assert(meet(x.0, x.1));
            }
            if x.0 == -1 && j <= x.1 < n {
                assert(meet(i, x.1));
            }
            if i <= x.0 < m && x.1 >= 0 {
                assert(meet(x.0, x.1));
            }
        }
    }
    lemma_concat(
        h,
        g,
        f,
        row,
        join::block(l.subrange(i, m), r.subrange(j, n), kind),
        join::merged(l.skip(m), r.skip(n), lc, rc, kind, wl, wr),
        p,
        q,
    );
    p + q
}

/// In a sorted list, what is in a run is level with its first key, and what is behind
/// it is above.
proof fn lemma_spread(s: Seq<Seq<Value>>, c: int, i: int, m: int, a: int)
    requires
        in_runs(s, c),
        0 <= i < m <= s.len(),
        i <= a < s.len(),
        forall|k: int| i <= k < m ==> join::alike(join::cell(#[trigger] s[k], c), join::cell(s[i], c)),
        m < s.len() ==> !join::alike(join::cell(s[m], c), join::cell(s[i], c)),
    ensures
        a < m ==> value::value_side(join::cell(s[a], c), join::cell(s[i], c)) == Side::Same,
        a >= m ==> value::value_side(join::cell(s[a], c), join::cell(s[i], c)) == Side::Above,
{
    let x = join::cell(s[a], c);
    let k = join::cell(s[i], c);
    if a < m {
        lemma_alike_level(x, k);
    } else {
        let y = join::cell(s[m], c);
        assert(s[i] == s[i] && s[m] == s[m]);
        assert(value::value_side(y, k) == Side::Above);
        if a > m {
            assert(value::value_side(x, y) != Side::Below);
        }
        value::lemma_value_order(k, y, x);
        value::lemma_value_order(y, k, y);
        value::lemma_value_order(x, y, x);
        value::lemma_value_order(x, k, x);
    }
}

/// What a sort-merge join gives of two lists sorted by key, whatever they are padded
/// to: what a nested-loop join gives where keys meet that the order does not tell
/// apart. This leaves out a list that has an integer and a real of the same number as
/// keys. (Place -1 stands for no row.)
pub proof fn lemma_merged_rows(
    l: Seq<Seq<Value>>,
    r: Seq<Seq<Value>>,
    lc: int,
    rc: int,
    kind: JoinKind,
    wl: nat,
    wr: nat,
) -> (o: Seq<(int, int)>)
    requires
        forall|i: int, j: int|
            0 <= i < j < l.len() ==> value::value_side(join::cell(#[trigger] l[j], lc), join::cell(#[trigger] l[i], lc))
                != Side::Below,
        forall|i: int, j: int|
            0 <= i < j < r.len() ==> value::value_side(join::cell(#[trigger] r[j], rc), join::cell(#[trigger] r[i], rc))
                != Side::Below,
        forall|i: int, j: int|
            0 <= i < j < l.len() && value::value_side(join::cell(#[trigger] l[j], lc), join::cell(#[trigger] l[i], lc))
                == Side::Same ==> value::equal(join::cell(l[j], lc), join::cell(l[i], lc)) || join::cell(l[j], lc) == join::cell(
                l[i],
                lc,
            ),
        forall|i: int, j: int|
            0 <= i < j < r.len() && value::value_side(join::cell(#[trigger] r[j], rc), join::cell(#[trigger] r[i], rc))
                == Side::Same ==> value::equal(join::cell(r[j], rc), join::cell(r[i], rc)) || join::cell(r[j], rc) == join::cell(
                r[i],
                rc,
            ),
    ensures
        o.len() == join::merged(l, r, lc, rc, kind, wl, wr).len(),
        o.no_duplicates(),
        forall|a: int, b: int|
            0 <= a < l.len() && 0 <= b < r.len() ==> (#[trigger] o.contains((a, b)) <==> value::value_side(
                join::cell(l[a], lc),
                join::cell(r[b], rc),
            ) == Side::Same && (kind == JoinKind::Inner || kind == JoinKind::LeftOuter || kind == JoinKind::RightOuter || kind
                == JoinKind::FullOuter)),
        kind == JoinKind::LeftOuter || kind == JoinKind::FullOuter || kind == JoinKind::Anti ==> forall|a: int|
            0 <= a < l.len() ==> (#[trigger] o.contains((a, -1)) <==> forall|b: int|
                0 <= b < r.len() ==> value::value_side(join::cell(l[a], lc), join::cell(#[trigger] r[b], rc)) != Side::Same),
        kind == JoinKind::Semi ==> forall|a: int|
            0 <= a < l.len() ==> (#[trigger] o.contains((a, -1)) <==> exists|b: int|
                0 <= b < r.len() && value::value_side(join::cell(l[a], lc), join::cell(#[trigger] r[b], rc)) == Side::Same),
        kind == JoinKind::Inner || kind == JoinKind::RightOuter ==> forall|a: int| !#[trigger] o.contains((a, -1)),
        kind == JoinKind::RightOuter || kind == JoinKind::FullOuter ==> forall|b: int|
            0 <= b < r.len() ==> (#[trigger] o.contains((-1, b)) <==> forall|a: int|
                0 <= a < l.len() ==> value::value_side(join::cell(#[trigger] l[a], lc), join::cell(r[b], rc)) != Side::Same),
        kind != JoinKind::RightOuter && kind != JoinKind::FullOuter ==> forall|b: int| !#[trigger] o.contains((-1, b)),
        forall|k: int|
            0 <= k < o.len() ==> {
                let (a, b) = #[trigger] o[k];
                let row = join::merged(l, r, lc, rc, kind, wl, wr)[k];
                &&& -1 <= a < l.len() && -1 <= b < r.len() && !(a == -1 && b == -1)
                &&& a >= 0 && b >= 0 ==> row == l[a] + r[b]
                &&& b == -1 && (kind == JoinKind::Semi || kind == JoinKind::Anti) ==> row == l[a]
                &&& b == -1 && (kind == JoinKind::LeftOuter || kind == JoinKind::FullOuter) ==> {
                    &&& row.len() == l[a].len() + wr
                    &&& row.take(l[a].len() as int) == l[a]
                    &&& forall|i: int| l[a].len() <= i < row.len() ==> #[trigger] row[i] is Null
                }
                &&& a == -1 ==> {
                    &&& row.len() == wl + r[b].len()
                    &&& row.skip(row.len() - r[b].len()) == r[b]
                    &&& forall|i: int| 0 <= i < row.len() - r[b].len() ==> #[trigger] row[i] is Null
                }
            },
{
    let meet = |a: int, b: int| level(l, r, lc, rc, a, b);
    let row = |x: (int, int)| row_at(l, r, wl, wr, kind, x);
    let h = |x: (int, int)| (x.0 == -1 || x.0 >= 0) && (x.1 == -1 || x.1 >= 0) && owed(l.len(), r.len(), meet, kind, x);
    assert(in_runs(l, lc));
    assert(in_runs(r, rc));
    let o = lemma_merged_places(l, r, lc, rc, kind, meet, row, h, wl, wr, 0, 0);
    assert(l.skip(0) =~= l);
    assert(r.skip(0) =~= r);
    let out = join::merged(l, r, lc, rc, kind, wl, wr);
    assert forall|x: (int, int)| #[trigger] o.contains(x) implies owed(l.len(), r.len(), meet, kind, x) by {
        let k = o.index_of(x);
        assert(h(o[k]));
    }
    assert forall|a: int, b: int| 0 <= a < l.len() && 0 <= b < r.len() && owed(l.len(), r.len(), meet, kind, (a, b)) implies
        #[trigger] o.contains((a, b)) by {
        assert(h((a, b)));
    }
    assert forall|a: int| owed(l.len(), r.len(), meet, kind, (a, -1)) implies #[trigger] o.contains((a, -1)) by {
        assert(h((a, -1)));
    }
    assert forall|b: int| owed(l.len(), r.len(), meet, kind, (-1, b)) implies #[trigger] o.contains((-1, b)) by {
        assert(h((-1, b)));
    }
    assert forall|a: int| #![trigger l[a]] 0 <= a < l.len() && exists|b: int|
        0 <= b < r.len() && value::value_side(join::cell(l[a], lc), join::cell(#[trigger] r[b], rc)) == Side::Same implies exists|
        j: int,
    | 0 <= j < r.len() && #[trigger] meet(a, j) by {
        let b = choose|b: int|
            0 <= b < r.len() && value::value_side(join::cell(l[a], lc), join::cell(#[trigger] r[b], rc)) == Side::Same;
        assert(meet(a, b));
    }
    assert forall|b: int| #![trigger r[b]] 0 <= b < r.len() && exists|a: int|
        0 <= a < l.len() && value::value_side(join::cell(#[trigger] l[a], lc), join::cell(r[b], rc)) == Side::Same implies exists|
        i: int,
    | 0 <= i < l.len() && #[trigger] meet(i, b) by {
        let a = choose|a: int|
            0 <= a < l.len() && value::value_side(join::cell(#[trigger] l[a], lc), join::cell(r[b], rc)) == Side::Same;
        assert(meet(a, b));
    }
    assert forall|a: int, b: int| #[trigger] o.contains((a, b)) implies owed(l.len(), r.len(), meet, kind, (a, b)) by {}
    assert forall|k: int| 0 <= k < o.len() implies {
        let (a, b) = #[trigger] o[k];
        let row = out[k];
        &&& -1 <= a < l.len() && -1 <= b < r.len() && !(a == -1 && b == -1)
        &&& a >= 0 && b >= 0 ==> row == l[a] + r[b]
        &&& b == -1 && (kind == JoinKind::Semi || kind == JoinKind::Anti) ==> row == l[a]
        &&& b == -1 && (kind == JoinKind::LeftOuter || kind == JoinKind::FullOuter) ==> {
            &&& row.len() == l[a].len() + wr
            &&& row.take(l[a].len() as int) == l[a]
            &&& forall|i: int| l[a].len() <= i < row.len() ==> #[trigger] row[i] is Null
        }
        &&& a == -1 ==> {
            &&& row.len() == wl + r[b].len()
            &&& row.skip(row.len() - r[b].len()) == r[b]
            &&& forall|i: int| 0 <= i < row.len() - r[b].len() ==> #[trigger] row[i] is Null
        }
    } by {
        let (a, b) = o[k];
        assert(h(o[k]));
        assert(out[k] == row_at(l, r, wl, wr, kind, (a, b)));
        if b == -1 && (kind == JoinKind::LeftOuter || kind == JoinKind::FullOuter) {
            assert(out[k].take(l[a].len() as int) =~= l[a]);
        }
        if a == -1 {
            assert(out[k].skip(out[k].len() - r[b].len()) =~= r[b]);
        }
    }
    o
}

/// What a cross join gives: every left row with every right row, in order.
pub proof fn lemma_crossed_rows(l: Seq<Seq<Value>>, r: Seq<Seq<Value>>, a: int, b: int)
    requires
        0 <= a < l.len(),
        0 <= b < r.len(),
    ensures
        join::crossed(l, r).len() == l.len() * r.len(),
        0 <= a * r.len() + b < join::crossed(l, r).len(),
        join::crossed(l, r)[a * r.len() + b] == l[a] + r[b],
    decreases l.len(),
{
    let d = l.drop_last();
    let n = r.len() as int;
    let more = join::met(l.last(), r, JoinKind::Inner);
    lemma_crossed_len(d, r);
    assert(l.len() * n == d.len() * n + n) by (nonlinear_arith)
        requires
            l.len() == d.len() + 1,
    ;
    if a < d.len() {
        lemma_crossed_rows(d, r, a, b);
    } else {
        assert(a * n == d.len() * n) by (nonlinear_arith)
            requires
                a == d.len(),
        ;
        assert(0 <= d.len() * n) by (nonlinear_arith)
            requires
                0 <= n,
                0 <= d.len(),
        ;
    }
}

proof fn lemma_crossed_len(l: Seq<Seq<Value>>, r: Seq<Seq<Value>>)
    ensures
        join::crossed(l, r).len() == l.len() * r.len(),
    decreases l.len(),
{
    if l.len() > 0 {
        lemma_crossed_len(l.drop_last(), r);
        let d = l.len() - 1;
        assert(l.len() * r.len() == d * r.len() + r.len()) by (nonlinear_arith)
            requires
                l.len() == d + 1,
        ;
    }
}

} // verus!
