//! Join algorithms: hash join, nested-loop join, sort-merge join, and the
//! semi/anti variants.
//!
//! Each algorithm takes two streams of rows plus an equality predicate on one
//! column from each, and produces the joined output. The caller picks the
//! algorithm based on whether the inputs are sorted, whether one side fits in
//! memory, and whether an index is available.
use std::collections::HashMap;
use vstd::prelude::*;

use crate::bytes;
use crate::sort;
use crate::sort::Ranked;
use crate::value;
use crate::value::{CmpOp, Side, Value};

verus! {

broadcast use vstd::std_specs::hash::group_hash_axioms;

/// The kind of join.
#[derive(Debug, Clone, Copy, PartialEq, Eq, Structural)]
pub enum JoinKind {
    /// Inner: keep matching pairs.
    Inner,
    /// Left outer: keep every left row, padding the right with nulls.
    LeftOuter,
    /// Right outer: keep every right row, padding the left with nulls.
    RightOuter,
    /// Full outer.
    FullOuter,
    /// Semi: keep left rows that have at least one match (no right columns).
    Semi,
    /// Anti: keep left rows with no match.
    Anti,
}

/// A joined row: left columns followed by right columns (for non-semi/anti
/// joins).
pub type Joined = Vec<Value>;

/// When two keys meet.
pub enum Meeting {
    /// A comparison holds of them; it never holds of a null.
    Compared(CmpOp),
    /// They are one and the same value.
    Same,
}

pub open spec fn meets(m: Meeting, a: Value, b: Value) -> bool {
    match m {
        Meeting::Compared(op) => value::holds(op, a, b),
        Meeting::Same => a == b,
    }
}

/// The values of a list of rows.
pub open spec fn rows(s: Seq<Vec<Value>>) -> Seq<Seq<Value>> {
    Seq::new(s.len(), |i: int| s[i]@)
}

/// A row's value in a column; a row that is too short has a null there.
pub open spec fn cell(row: Seq<Value>, c: int) -> Value {
    if 0 <= c < row.len() {
        row[c]
    } else {
        Value::Null
    }
}

/// `n` nulls.
pub open spec fn nulls(n: nat) -> Seq<Value> {
    Seq::new(n, |i: int| Value::Null)
}

/// The width of a list's rows, which its first row tells.
pub open spec fn width(s: Seq<Seq<Value>>) -> nat {
    if s.len() == 0 {
        0
    } else {
        s[0].len()
    }
}

/// Whether a join keeps left rows that meet nothing, padded.
pub open spec fn keeps_left(kind: JoinKind) -> bool {
    kind == JoinKind::LeftOuter || kind == JoinKind::FullOuter
}

/// Whether a join keeps right rows that meet nothing, padded.
pub open spec fn keeps_right(kind: JoinKind) -> bool {
    kind == JoinKind::RightOuter || kind == JoinKind::FullOuter
}

/// Whether a join gives left rows only.
pub open spec fn left_only(kind: JoinKind) -> bool {
    kind == JoinKind::Semi || kind == JoinKind::Anti
}

/// What a join makes of a left row that meets no right row.
pub open spec fn left_alone(l: Seq<Value>, kind: JoinKind, w: nat) -> Seq<Seq<Value>> {
    if kind == JoinKind::Anti {
        seq![l]
    } else if keeps_left(kind) {
        seq![l + nulls(w)]
    } else {
        Seq::empty()
    }
}

/// What a join makes of a right row that meets no left row.
pub open spec fn right_alone(r: Seq<Value>, kind: JoinKind, w: nat) -> Seq<Seq<Value>> {
    if keeps_right(kind) {
        seq![nulls(w) + r]
    } else {
        Seq::empty()
    }
}

/// What a join makes of a left row and the right rows that it meets.
pub open spec fn met(l: Seq<Value>, found: Seq<Seq<Value>>, kind: JoinKind) -> Seq<Seq<Value>> {
    if kind == JoinKind::Semi {
        seq![l]
    } else if kind == JoinKind::Anti {
        Seq::empty()
    } else {
        Seq::new(found.len(), |i: int| l + found[i])
    }
}

/// The rows of a list that a key meets, in order; `k` is the left key where `left`
/// is set.
pub open spec fn found(s: Seq<Seq<Value>>, c: int, m: Meeting, k: Value, left: bool) -> Seq<Seq<Value>>
    decreases s.len(),
{
    if s.len() == 0 {
        Seq::empty()
    } else {
        let d = found(s.drop_last(), c, m, k, left);
        let v = cell(s.last(), c);
        if left && meets(m, k, v) || !left && meets(m, v, k) {
            d.push(s.last())
        } else {
            d
        }
    }
}

/// What the left rows give, in order.
pub open spec fn by_left(
    l: Seq<Seq<Value>>,
    r: Seq<Seq<Value>>,
    lc: int,
    rc: int,
    m: Meeting,
    kind: JoinKind,
) -> Seq<Seq<Value>>
    decreases l.len(),
{
    if l.len() == 0 {
        Seq::empty()
    } else {
        let f = found(r, rc, m, cell(l.last(), lc), true);
        by_left(l.drop_last(), r, lc, rc, m, kind) + (if f.len() == 0 {
            left_alone(l.last(), kind, width(r))
        } else {
            met(l.last(), f, kind)
        })
    }
}

/// What the right rows that meet nothing give, in order.
pub open spec fn strays(
    l: Seq<Seq<Value>>,
    r: Seq<Seq<Value>>,
    lc: int,
    rc: int,
    m: Meeting,
    kind: JoinKind,
) -> Seq<Seq<Value>>
    decreases r.len(),
{
    if r.len() == 0 {
        Seq::empty()
    } else {
        strays(l, r.drop_last(), lc, rc, m, kind) + (if found(l, lc, m, cell(r.last(), rc), false).len() == 0 {
            right_alone(r.last(), kind, width(l))
        } else {
            Seq::empty()
        })
    }
}

/// The join of two lists, left row by left row; the right rows that meet nothing
/// come last.
pub open spec fn nested(
    l: Seq<Seq<Value>>,
    r: Seq<Seq<Value>>,
    lc: int,
    rc: int,
    m: Meeting,
    kind: JoinKind,
) -> Seq<Seq<Value>> {
    by_left(l, r, lc, rc, m, kind) + strays(l, r, lc, rc, m, kind)
}

fn cell_in(row: &Vec<Value>, c: usize) -> (v: Value)
    ensures
        v == cell(row@, c as int),
{
    if c < row.len() {
        row[c]
    } else {
        Value::Null
    }
}

/// The values of two rows, one after the other.
fn joined(l: &Vec<Value>, r: &Vec<Value>) -> (v: Vec<Value>)
    ensures
        v@ == l@ + r@,
{
    let mut v: Vec<Value> = copied(l);
    let mut i: usize = 0;
    while i < r.len()
        invariant
            i <= r.len(),
            v@ == l@ + r@.take(i as int),
        decreases r.len() - i,
    {
        v.push(r[i]);
        assert(r@.take(i + 1) =~= r@.take(i as int).push(r@[i as int]));
        i += 1;
    }
    assert(r@.take(r@.len() as int) =~= r@);
    v
}

fn copied(l: &Vec<Value>) -> (v: Vec<Value>)
    ensures
        v@ == l@,
{
    let mut v: Vec<Value> = Vec::new();
    let mut i: usize = 0;
    while i < l.len()
        invariant
            i <= l.len(),
            v@ == l@.take(i as int),
        decreases l.len() - i,
    {
        v.push(l[i]);
        assert(l@.take(i + 1) =~= l@.take(i as int).push(l@[i as int]));
        i += 1;
    }
    assert(l@.take(l@.len() as int) =~= l@);
    v
}

fn null_row(s: &[Vec<Value>]) -> (v: Vec<Value>)
    ensures
        v@ == nulls(width(rows(s@))),
{
    let n: usize = if s.len() == 0 {
        0
    } else {
        s[0].len()
    };
    let mut v: Vec<Value> = Vec::new();
    while v.len() < n
        invariant
            v.len() <= n,
            forall|i: int| 0 <= i < v.len() ==> v[i] == Value::Null,
        decreases n - v.len(),
    {
        v.push(Value::Null);
    }
    assert(v@ =~= nulls(n as nat));
    v
}

fn put(out: &mut Vec<Joined>, row: Joined)
    ensures
        rows(final(out)@) == rows(old(out)@).push(row@),
{
    let ghost was = out@;
    out.push(row);
    assert(rows(out@) =~= rows(was).push(row@));
}

fn put_left_alone(out: &mut Vec<Joined>, l: &Vec<Value>, kind: JoinKind, pad: &Vec<Value>)
    ensures
        forall|w: nat|
            pad@ == #[trigger] nulls(w) ==> rows(final(out)@) == rows(old(out)@) + left_alone(l@, kind, w),
{
    if matches!(kind, JoinKind::Anti) {
        put(out, copied(l));
    } else if matches!(kind, JoinKind::LeftOuter) || matches!(kind, JoinKind::FullOuter) {
        put(out, joined(l, pad));
    }
}

fn put_right_alone(out: &mut Vec<Joined>, r: &Vec<Value>, kind: JoinKind, pad: &Vec<Value>)
    ensures
        forall|w: nat|
            pad@ == #[trigger] nulls(w) ==> rows(final(out)@) == rows(old(out)@) + right_alone(r@, kind, w),
{
    if matches!(kind, JoinKind::RightOuter) || matches!(kind, JoinKind::FullOuter) {
        put(out, joined(pad, r));
    }
}

fn do_meet(m: &Meeting, a: &Value, b: &Value) -> (r: bool)
    ensures
        r == meets(*m, *a, *b),
{
    match m {
        Meeting::Compared(op) => op.apply(a, b),
        Meeting::Same => *a == *b,
    }
}

/// What a join makes of a left row: all that it meets, or the row alone.
fn put_left(
    out: &mut Vec<Joined>,
    l: &Vec<Value>,
    right: &[Vec<Value>],
    lc: usize,
    rc: usize,
    m: &Meeting,
    kind: JoinKind,
    pad: &Vec<Value>,
)
    requires
        pad@ == nulls(width(rows(right@))),
    ensures
        ({
            let f = found(rows(right@), rc as int, *m, cell(l@, lc as int), true);
            rows(final(out)@) == rows(old(out)@) + (if f.len() == 0 {
                left_alone(l@, kind, width(rows(right@)))
            } else {
                met(l@, f, kind)
            })
        }),
{
    let k = cell_in(l, lc);
    let ghost rs = rows(right@);
    let ghost was = rows(out@);
    let pairs = !(matches!(kind, JoinKind::Semi) || matches!(kind, JoinKind::Anti));
    let mut any = false;
    let mut j: usize = 0;
    while j < right.len()
        invariant
            j <= right.len(),
            rs == rows(right@),
            k == cell(l@, lc as int),
            pairs == !left_only(kind),
            any == (found(rs.take(j as int), rc as int, *m, k, true).len() > 0),
            rows(out@) == was + (if pairs {
                met(l@, found(rs.take(j as int), rc as int, *m, k, true), kind)
            } else {
                Seq::empty()
            }),
        decreases right.len() - j,
    {
        let ghost f = found(rs.take(j as int), rc as int, *m, k, true);
        proof {
            assert(rs.take(j + 1).drop_last() =~= rs.take(j as int));
            assert(rs.take(j + 1).last() == right@[j as int]@);
        }
        let v = cell_in(&right[j], rc);
        if do_meet(m, &k, &v) {
            any = true;
            if pairs {
                put(out, joined(l, &right[j]));
                assert(met(l@, f.push(right@[j as int]@), kind) =~= met(l@, f, kind).push(l@ + right@[j as int]@));
            }
        }
        j += 1;
    }
    assert(rs.take(rs.len() as int) =~= rs);
    if !any {
        put_left_alone(out, l, kind, pad);
    } else if matches!(kind, JoinKind::Semi) {
        put(out, copied(l));
    }
}

/// Whether a right key meets any left row.
fn meets_any(left: &[Vec<Value>], lc: usize, m: &Meeting, k: &Value) -> (r: bool)
    ensures
        r == (found(rows(left@), lc as int, *m, *k, false).len() > 0),
{
    let ghost ls = rows(left@);
    let mut i: usize = 0;
    let mut any = false;
    while i < left.len()
        invariant
            i <= left.len(),
            ls == rows(left@),
            any == (found(ls.take(i as int), lc as int, *m, *k, false).len() > 0),
        decreases left.len() - i,
    {
        proof {
            assert(ls.take(i + 1).drop_last() =~= ls.take(i as int));
            assert(ls.take(i + 1).last() == left@[i as int]@);
        }
        let v = cell_in(&left[i], lc);
        if do_meet(m, &v, k) {
            any = true;
        }
        i += 1;
    }
    assert(ls.take(ls.len() as int) =~= ls);
    any
}

/// Nested-loop join: works for any predicate given as a comparator, but is
/// O(n*m). Used for small inputs or non-equi joins.
pub fn nested_loop_join(
    left: &[Vec<Value>],
    right: &[Vec<Value>],
    left_col: usize,
    right_col: usize,
    op: CmpOp,
    kind: JoinKind,
) -> (out: Vec<Joined>)
    ensures
        rows(out@) == nested(
            rows(left@),
            rows(right@),
            left_col as int,
            right_col as int,
            Meeting::Compared(op),
            kind,
        ),
{
    let m = Meeting::Compared(op);
    let ghost ls = rows(left@);
    let ghost rs = rows(right@);
    let ghost lc = left_col as int;
    let ghost rc = right_col as int;
    let mut out: Vec<Joined> = Vec::new();
    let right_pad = null_row(right);
    let mut i: usize = 0;
    assert(rows(out@) =~= Seq::<Seq<Value>>::empty());
    while i < left.len()
        invariant
            i <= left.len(),
            ls == rows(left@),
            rs == rows(right@),
            lc == left_col,
            rc == right_col,
            right_pad@ == nulls(width(rs)),
            rows(out@) == by_left(ls.take(i as int), rs, lc, rc, m, kind),
        decreases left.len() - i,
    {
        proof {
            assert(ls.take(i + 1).drop_last() =~= ls.take(i as int));
            assert(ls.take(i + 1).last() == left@[i as int]@);
        }
        put_left(&mut out, &left[i], right, left_col, right_col, &m, kind, &right_pad);
        i += 1;
    }
    assert(ls.take(ls.len() as int) =~= ls);
    let left_pad = null_row(left);
    let ghost a = by_left(ls, rs, lc, rc, m, kind);
    let mut j: usize = 0;
    assert(a + Seq::<Seq<Value>>::empty() =~= a);
    while j < right.len()
        invariant
            j <= right.len(),
            ls == rows(left@),
            rs == rows(right@),
            lc == left_col,
            rc == right_col,
            left_pad@ == nulls(width(ls)),
            rows(out@) == a + strays(ls, rs.take(j as int), lc, rc, m, kind),
        decreases right.len() - j,
    {
        proof {
            assert(rs.take(j + 1).drop_last() =~= rs.take(j as int));
            assert(rs.take(j + 1).last() == right@[j as int]@);
        }
        let k = cell_in(&right[j], right_col);
        if !meets_any(left, left_col, &m, &k) {
            put_right_alone(&mut out, &right[j], kind, &left_pad);
        }
        j += 1;
    }
    assert(rs.take(rs.len() as int) =~= rs);
    out
}

// Hash join

/// What the right rows give, in order, each with the left rows that have its key.
pub open spec fn by_right(l: Seq<Seq<Value>>, r: Seq<Seq<Value>>, lc: int, rc: int, kind: JoinKind) -> Seq<Seq<Value>>
    decreases r.len(),
{
    if r.len() == 0 {
        Seq::empty()
    } else {
        let f = found(l, lc, Meeting::Same, cell(r.last(), rc), false);
        by_right(l, r.drop_last(), lc, rc, kind) + (if f.len() == 0 {
            right_alone(r.last(), kind, width(l))
        } else if left_only(kind) {
            Seq::empty()
        } else {
            Seq::new(f.len(), |i: int| f[i] + r.last())
        })
    }
}

/// What a join owes to the left rows beside their pairs, in order.
pub open spec fn left_rest(l: Seq<Seq<Value>>, r: Seq<Seq<Value>>, lc: int, rc: int, kind: JoinKind) -> Seq<Seq<Value>>
    decreases l.len(),
{
    if l.len() == 0 {
        Seq::empty()
    } else {
        left_rest(l.drop_last(), r, lc, rc, kind) + (if found(r, rc, Meeting::Same, cell(l.last(), lc), true).len()
            == 0 {
            left_alone(l.last(), kind, width(r))
        } else if kind == JoinKind::Semi {
            seq![l.last()]
        } else {
            Seq::empty()
        })
    }
}

/// A left row in front of each of a list of right rows.
pub open spec fn ahead(y: Seq<Value>, f: Seq<Seq<Value>>) -> Seq<Seq<Value>> {
    Seq::new(f.len(), |i: int| y + f[i])
}

/// Each of a list of left rows in front of a right row.
pub open spec fn behind(f: Seq<Seq<Value>>, x: Seq<Value>) -> Seq<Seq<Value>> {
    Seq::new(f.len(), |i: int| f[i] + x)
}

/// The pairs with the same key, left row by left row.
pub open spec fn left_pairs(l: Seq<Seq<Value>>, r: Seq<Seq<Value>>, lc: int, rc: int) -> Seq<Seq<Value>>
    decreases l.len(),
{
    if l.len() == 0 {
        Seq::empty()
    } else {
        left_pairs(l.drop_last(), r, lc, rc) + ahead(l.last(), found(r, rc, Meeting::Same, cell(l.last(), lc), true))
    }
}

/// The pairs with the same key, right row by right row.
pub open spec fn right_pairs(l: Seq<Seq<Value>>, r: Seq<Seq<Value>>, lc: int, rc: int) -> Seq<Seq<Value>>
    decreases r.len(),
{
    if r.len() == 0 {
        Seq::empty()
    } else {
        right_pairs(l, r.drop_last(), lc, rc) + behind(found(l, lc, Meeting::Same, cell(r.last(), rc), false), r.last())
    }
}

/// One more right row gives its pairs with the left rows that have its key.
proof fn lemma_right_row(l: Seq<Seq<Value>>, r: Seq<Seq<Value>>, lc: int, rc: int)
    requires
        r.len() > 0,
    ensures
        left_pairs(l, r, lc, rc).to_multiset() =~= left_pairs(l, r.drop_last(), lc, rc).to_multiset().add(
            behind(found(l, lc, Meeting::Same, cell(r.last(), rc), false), r.last()).to_multiset(),
        ),
    decreases l.len(),
{
    let d = r.drop_last();
    let x = r.last();
    let g = found(l, lc, Meeting::Same, cell(x, rc), false);
    if l.len() == 0 {
        assert(behind(g, x) =~= Seq::<Seq<Value>>::empty());
        assert(left_pairs(l, r, lc, rc) + behind(g, x) =~= left_pairs(l, r, lc, rc));
        vstd::seq_lib::lemma_multiset_commutative(left_pairs(l, d, lc, rc), behind(g, x));
    } else {
        let e = l.drop_last();
        let y = l.last();
        let h = found(e, lc, Meeting::Same, cell(x, rc), false);
        let a = found(d, rc, Meeting::Same, cell(y, lc), true);
        let b = found(r, rc, Meeting::Same, cell(y, lc), true);
        lemma_right_row(e, r, lc, rc);
        vstd::seq_lib::lemma_multiset_commutative(left_pairs(e, r, lc, rc), ahead(y, b));
        vstd::seq_lib::lemma_multiset_commutative(left_pairs(e, d, lc, rc), ahead(y, a));
        if cell(y, lc) == cell(x, rc) {
            assert(ahead(y, b) =~= ahead(y, a).push(y + x));
            assert(behind(g, x) =~= behind(h, x).push(y + x));
            ahead(y, a).to_multiset_ensures();
            behind(h, x).to_multiset_ensures();
        }
    }
}

/// The pairs are the same from either side.
proof fn lemma_pairs(l: Seq<Seq<Value>>, r: Seq<Seq<Value>>, lc: int, rc: int)
    ensures
        left_pairs(l, r, lc, rc).to_multiset() =~= right_pairs(l, r, lc, rc).to_multiset(),
    decreases r.len(),
{
    if r.len() == 0 {
        lemma_no_pairs(l, r, lc, rc);
    } else {
        let g = found(l, lc, Meeting::Same, cell(r.last(), rc), false);
        lemma_pairs(l, r.drop_last(), lc, rc);
        lemma_right_row(l, r, lc, rc);
        vstd::seq_lib::lemma_multiset_commutative(right_pairs(l, r.drop_last(), lc, rc), behind(g, r.last()));
    }
}

proof fn lemma_no_pairs(l: Seq<Seq<Value>>, r: Seq<Seq<Value>>, lc: int, rc: int)
    requires
        r.len() == 0,
    ensures
        left_pairs(l, r, lc, rc) == Seq::<Seq<Value>>::empty(),
    decreases l.len(),
{
    if l.len() > 0 {
        lemma_no_pairs(l.drop_last(), r, lc, rc);
        assert(left_pairs(l, r, lc, rc) =~= Seq::<Seq<Value>>::empty());
    }
}

/// What the left rows give: their pairs, and the rest.
proof fn lemma_by_left(l: Seq<Seq<Value>>, r: Seq<Seq<Value>>, lc: int, rc: int, kind: JoinKind)
    ensures
        by_left(l, r, lc, rc, Meeting::Same, kind).to_multiset() =~= if left_only(kind) {
            left_rest(l, r, lc, rc, kind).to_multiset()
        } else {
            left_pairs(l, r, lc, rc).to_multiset().add(left_rest(l, r, lc, rc, kind).to_multiset())
        },
    decreases l.len(),
{
    if l.len() > 0 {
        let d = l.drop_last();
        let y = l.last();
        let f = found(r, rc, Meeting::Same, cell(y, lc), true);
        let more = if f.len() == 0 {
            left_alone(y, kind, width(r))
        } else {
            met(y, f, kind)
        };
        let rest = if f.len() == 0 {
            left_alone(y, kind, width(r))
        } else if kind == JoinKind::Semi {
            seq![y]
        } else {
            Seq::empty()
        };
        lemma_by_left(d, r, lc, rc, kind);
        vstd::seq_lib::lemma_multiset_commutative(by_left(d, r, lc, rc, Meeting::Same, kind), more);
        vstd::seq_lib::lemma_multiset_commutative(left_rest(d, r, lc, rc, kind), rest);
        if !left_only(kind) {
            vstd::seq_lib::lemma_multiset_commutative(left_pairs(d, r, lc, rc), ahead(y, f));
            if f.len() == 0 {
                assert(ahead(y, f) =~= Seq::<Seq<Value>>::empty());
                assert(ahead(y, f) + more =~= more);
            } else {
                assert(more =~= ahead(y, f));
                assert(ahead(y, f) + rest =~= more);
            }
            vstd::seq_lib::lemma_multiset_commutative(ahead(y, f), rest);
        }
    } else {
        let none = Seq::<Seq<Value>>::empty();
        assert(none + none =~= none);
        vstd::seq_lib::lemma_multiset_commutative(none, none);
    }
}

/// What the right rows give: their pairs, and those that meet nothing.
proof fn lemma_by_right(l: Seq<Seq<Value>>, r: Seq<Seq<Value>>, lc: int, rc: int, kind: JoinKind)
    ensures
        by_right(l, r, lc, rc, kind).to_multiset() =~= if left_only(kind) {
            strays(l, r, lc, rc, Meeting::Same, kind).to_multiset()
        } else {
            right_pairs(l, r, lc, rc).to_multiset().add(strays(l, r, lc, rc, Meeting::Same, kind).to_multiset())
        },
    decreases r.len(),
{
    if r.len() > 0 {
        let d = r.drop_last();
        let x = r.last();
        let f = found(l, lc, Meeting::Same, cell(x, rc), false);
        let more = if f.len() == 0 {
            right_alone(x, kind, width(l))
        } else if left_only(kind) {
            Seq::empty()
        } else {
            behind(f, x)
        };
        let rest = if f.len() == 0 {
            right_alone(x, kind, width(l))
        } else {
            Seq::empty()
        };
        lemma_by_right(l, d, lc, rc, kind);
        assert(by_right(l, r, lc, rc, kind) =~= by_right(l, d, lc, rc, kind) + more);
        vstd::seq_lib::lemma_multiset_commutative(by_right(l, d, lc, rc, kind), more);
        vstd::seq_lib::lemma_multiset_commutative(strays(l, d, lc, rc, Meeting::Same, kind), rest);
        if !left_only(kind) {
            vstd::seq_lib::lemma_multiset_commutative(right_pairs(l, d, lc, rc), behind(f, x));
            if f.len() == 0 {
                assert(behind(f, x) =~= Seq::<Seq<Value>>::empty());
            }
            assert(behind(f, x) + rest =~= more);
            vstd::seq_lib::lemma_multiset_commutative(behind(f, x), rest);
        }
    } else {
        let none = Seq::<Seq<Value>>::empty();
        assert(none + none =~= none);
        vstd::seq_lib::lemma_multiset_commutative(none, none);
    }
}

/// A hash join gives the rows that a nested-loop join on the same key gives,
/// whatever the order.
pub proof fn lemma_hash_join(l: Seq<Seq<Value>>, r: Seq<Seq<Value>>, lc: int, rc: int, kind: JoinKind)
    ensures
        (by_right(l, r, lc, rc, kind) + left_rest(l, r, lc, rc, kind)).to_multiset() == nested(
            l,
            r,
            lc,
            rc,
            Meeting::Same,
            kind,
        ).to_multiset(),
{
    lemma_by_left(l, r, lc, rc, kind);
    lemma_by_right(l, r, lc, rc, kind);
    lemma_pairs(l, r, lc, rc);
    vstd::seq_lib::lemma_multiset_commutative(by_right(l, r, lc, rc, kind), left_rest(l, r, lc, rc, kind));
    vstd::seq_lib::lemma_multiset_commutative(
        by_left(l, r, lc, rc, Meeting::Same, kind),
        strays(l, r, lc, rc, Meeting::Same, kind),
    );
    assert((by_right(l, r, lc, rc, kind) + left_rest(l, r, lc, rc, kind)).to_multiset() =~= nested(
        l,
        r,
        lc,
        rc,
        Meeting::Same,
        kind,
    ).to_multiset());
}

/// The number under which a value is filed.
pub open spec fn payload(v: Value) -> u64 {
    match v {
        Value::Null => 0,
        Value::Bool(b) => if b {
            1
        } else {
            0
        },
        Value::Int(i) => bytes::twos(i),
        Value::Real(b) => b,
        Value::Text(id) => id as u64,
    }
}

fn payload_of(v: &Value) -> (p: u64)
    ensures
        p == payload(*v),
{
    match v {
        Value::Null => 0,
        Value::Bool(b) => if *b {
            1
        } else {
            0
        },
        Value::Int(i) => bytes::to_twos(*i),
        Value::Real(b) => *b,
        Value::Text(id) => *id as u64,
    }
}

/// The places of the rows whose key is filed under `p`, in order.
pub open spec fn bucket(s: Seq<Seq<Value>>, c: int, p: u64) -> Seq<usize>
    decreases s.len(),
{
    if s.len() == 0 {
        Seq::empty()
    } else {
        let d = bucket(s.drop_last(), c, p);
        if payload(cell(s.last(), c)) == p {
            d.push((s.len() - 1) as usize)
        } else {
            d
        }
    }
}

/// Rows filed by key.
struct Build {
    map: HashMap<u64, Vec<usize>>,
}

impl Build {
    spec fn at(self, p: u64) -> Seq<usize> {
        if self.map@.contains_key(p) {
            self.map@[p]@
        } else {
            Seq::empty()
        }
    }

    spec fn files(self, s: Seq<Seq<Value>>, c: int) -> bool {
        forall|p: u64| #[trigger] self.at(p) == bucket(s, c, p)
    }

    /// File the rows of a list by a column.
    fn over(s: &[Vec<Value>], c: usize) -> (b: Build)
        ensures
            b.files(rows(s@), c as int),
    {
        let ghost rs = rows(s@);
        let mut b = Build { map: HashMap::new() };
        let mut i: usize = 0;
        assert(b.files(rs.take(0), c as int));
        while i < s.len()
            invariant
                i <= s.len(),
                rs == rows(s@),
                b.files(rs.take(i as int), c as int),
            decreases s.len() - i,
        {
            let p = payload_of(&cell_in(&s[i], c));
            let ghost was = b;
            let mut v: Vec<usize> = match b.map.remove(&p) {
                Some(v) => v,
                None => Vec::new(),
            };
            assert(v@ == was.at(p));
            v.push(i);
            b.map.insert(p, v);
            proof {
                assert(rs.take(i + 1).drop_last() =~= rs.take(i as int));
                assert(rs.take(i + 1).last() == s@[i as int]@);
                assert forall|q: u64| #[trigger] b.at(q) == bucket(rs.take(i + 1), c as int, q) by {
                    assert(was.at(q) == bucket(rs.take(i as int), c as int, q));
                    if q != p {
                        assert(b.at(q) == was.at(q));
                    }
                }
            }
            i += 1;
        }
        assert(rs.take(rs.len() as int) =~= rs);
        b
    }
}

/// The rows at the places `b` that have the key `k`, in order.
pub open spec fn picked(s: Seq<Seq<Value>>, c: int, b: Seq<usize>, k: Value) -> Seq<Seq<Value>>
    decreases b.len(),
{
    if b.len() == 0 {
        Seq::empty()
    } else {
        let d = picked(s, c, b.drop_last(), k);
        if cell(s[b.last() as int], c) == k {
            d.push(s[b.last() as int])
        } else {
            d
        }
    }
}

/// The rows filed under a key's number that have the key are all that have it.
proof fn lemma_bucket(s: Seq<Seq<Value>>, c: int, k: Value, left: bool, n: int)
    requires
        0 <= n <= s.len() <= usize::MAX,
    ensures
        picked(s, c, bucket(s.take(n), c, payload(k)), k) == found(s.take(n), c, Meeting::Same, k, left),
        forall|i: int|
            0 <= i < bucket(s.take(n), c, payload(k)).len() ==> (#[trigger] bucket(s.take(n), c, payload(k))[i]) < n,
    decreases n,
{
    if n > 0 {
        lemma_bucket(s, c, k, left, n - 1);
        assert(s.take(n).drop_last() =~= s.take(n - 1));
        let d = bucket(s.take(n - 1), c, payload(k));
        assert(d.push((n - 1) as usize).drop_last() =~= d);
    }
}

/// Pair a right row with the left rows at the places `b` that have its key.
fn put_right(
    out: &mut Vec<Joined>,
    left: &[Vec<Value>],
    b: &[usize],
    r: &Vec<Value>,
    lc: usize,
    k: &Value,
    kind: JoinKind,
) -> (any: bool)
    requires
        forall|i: int| 0 <= i < b@.len() ==> (#[trigger] b@[i]) < left@.len(),
    ensures
        ({
            let f = picked(rows(left@), lc as int, b@, *k);
            &&& any == (f.len() > 0)
            &&& rows(final(out)@) == rows(old(out)@) + (if left_only(kind) {
                Seq::empty()
            } else {
                Seq::new(f.len(), |i: int| f[i] + r@)
            })
        }),
{
    let ghost ls = rows(left@);
    let ghost c = lc as int;
    let ghost was = rows(out@);
    let pairs = !(matches!(kind, JoinKind::Semi) || matches!(kind, JoinKind::Anti));
    let mut any = false;
    let mut q: usize = 0;
    assert(picked(ls, c, b@.take(0), *k) =~= Seq::empty());
    while q < b.len()
        invariant
            q <= b.len(),
            ls == rows(left@),
            c == lc,
            pairs == !left_only(kind),
            forall|i: int| 0 <= i < b@.len() ==> (#[trigger] b@[i]) < left@.len(),
            any == (picked(ls, c, b@.take(q as int), *k).len() > 0),
            rows(out@) == was + (if pairs {
                let f = picked(ls, c, b@.take(q as int), *k);
                Seq::new(f.len(), |i: int| f[i] + r@)
            } else {
                Seq::empty()
            }),
        decreases b.len() - q,
    {
        let i: usize = b[q];
        let ghost f = picked(ls, c, b@.take(q as int), *k);
        proof {
            assert(b@.take(q + 1).drop_last() =~= b@.take(q as int));
            assert(b@.take(q + 1).last() == i);
        }
        if cell_in(&left[i], lc) == *k {
            any = true;
            if pairs {
                put(out, joined(&left[i], r));
                let ghost g = f.push(ls[i as int]);
                assert(Seq::new(g.len(), |i: int| g[i] + r@) =~= Seq::new(f.len(), |i: int| f[i] + r@).push(
                    ls[i as int] + r@,
                ));
            }
        }
        q += 1;
    }
    assert(b@.take(b@.len() as int) =~= b@);
    any
}

/// Whether any of the rows at the places `b` has the key `k`.
fn any_picked(s: &[Vec<Value>], b: &[usize], c: usize, k: &Value) -> (any: bool)
    requires
        forall|i: int| 0 <= i < b@.len() ==> (#[trigger] b@[i]) < s@.len(),
    ensures
        any == (picked(rows(s@), c as int, b@, *k).len() > 0),
{
    let ghost rs = rows(s@);
    let mut any = false;
    let mut q: usize = 0;
    while q < b.len()
        invariant
            q <= b.len(),
            rs == rows(s@),
            forall|i: int| 0 <= i < b@.len() ==> (#[trigger] b@[i]) < s@.len(),
            any == (picked(rs, c as int, b@.take(q as int), *k).len() > 0),
        decreases b.len() - q,
    {
        proof {
            assert(b@.take(q + 1).drop_last() =~= b@.take(q as int));
        }
        if cell_in(&s[b[q]], c) == *k {
            any = true;
        }
        q += 1;
    }
    assert(b@.take(b@.len() as int) =~= b@);
    any
}

/// Hash join on `left[left_col] == right[right_col]`. The left side is the
/// build side (hashed); the right side is probed. A null key meets a null key.
pub fn hash_join(
    left: &[Vec<Value>],
    right: &[Vec<Value>],
    left_col: usize,
    right_col: usize,
    kind: JoinKind,
) -> (out: Vec<Joined>)
    ensures
        rows(out@) == by_right(rows(left@), rows(right@), left_col as int, right_col as int, kind) + left_rest(
            rows(left@),
            rows(right@),
            left_col as int,
            right_col as int,
            kind,
        ),
{
    let ghost ls = rows(left@);
    let ghost rs = rows(right@);
    let ghost lc = left_col as int;
    let ghost rc = right_col as int;
    let build = Build::over(left, left_col);
    let left_pad = null_row(left);
    let mut out: Vec<Joined> = Vec::new();
    assert(rows(out@) =~= Seq::<Seq<Value>>::empty());
    let nl: usize = left.len();
    let mut j: usize = 0;
    while j < right.len()
        invariant
            j <= right.len(),
            nl == ls.len(),
            ls == rows(left@),
            rs == rows(right@),
            lc == left_col,
            rc == right_col,
            left_pad@ == nulls(width(ls)),
            build.files(ls, lc),
            rows(out@) == by_right(ls, rs.take(j as int), lc, rc, kind),
        decreases right.len() - j,
    {
        let k = cell_in(&right[j], right_col);
        let p = payload_of(&k);
        proof {
            assert(rs.take(j + 1).drop_last() =~= rs.take(j as int));
            assert(rs.take(j + 1).last() == right@[j as int]@);
            lemma_bucket(ls, lc, k, false, ls.len() as int);
            assert(ls.take(ls.len() as int) =~= ls);
            assert(build.at(p) == bucket(ls, lc, p));
        }
        let any = match build.map.get(&p) {
            Some(b) => put_right(&mut out, left, b.as_slice(), &right[j], left_col, &k, kind),
            None => false,
        };
        if !any {
            put_right_alone(&mut out, &right[j], kind, &left_pad);
        }
        j += 1;
    }
    assert(rs.take(rs.len() as int) =~= rs);
    let probe = Build::over(right, right_col);
    let right_pad = null_row(right);
    let ghost a = by_right(ls, rs, lc, rc, kind);
    assert(a + Seq::<Seq<Value>>::empty() =~= a);
    let nr: usize = right.len();
    let mut i: usize = 0;
    while i < left.len()
        invariant
            i <= left.len(),
            nr == rs.len(),
            ls == rows(left@),
            rs == rows(right@),
            lc == left_col,
            rc == right_col,
            right_pad@ == nulls(width(rs)),
            probe.files(rs, rc),
            rows(out@) == a + left_rest(ls.take(i as int), rs, lc, rc, kind),
        decreases left.len() - i,
    {
        let k = cell_in(&left[i], left_col);
        let p = payload_of(&k);
        proof {
            assert(ls.take(i + 1).drop_last() =~= ls.take(i as int));
            assert(ls.take(i + 1).last() == left@[i as int]@);
            lemma_bucket(rs, rc, k, true, rs.len() as int);
            assert(rs.take(rs.len() as int) =~= rs);
            assert(probe.at(p) == bucket(rs, rc, p));
        }
        let any = match probe.map.get(&p) {
            Some(b) => any_picked(right, b.as_slice(), right_col, &k),
            None => false,
        };
        if !any {
            put_left_alone(&mut out, &left[i], kind, &right_pad);
        } else if matches!(kind, JoinKind::Semi) {
            put(&mut out, copied(&left[i]));
        }
        i += 1;
    }
    assert(ls.take(ls.len() as int) =~= ls);
    out
}

// Sort-merge join

impl Ranked for Value {
    open spec fn before(self, other: Value) -> bool {
        value::value_side(self, other) == Side::Below
    }

    proof fn lemma_weak_order(a: Value, b: Value, c: Value) {
        value::lemma_value_order(a, b, c);
        value::lemma_value_order(c, b, a);
        value::lemma_value_order(a, c, a);
    }

    fn is_before(&self, other: &Value) -> (r: bool) {
        matches!(value::compare(self, other), Side::Below)
    }
}

/// The keys of a list of rows.
pub open spec fn keys(s: Seq<Seq<Value>>, c: int) -> Seq<Value> {
    Seq::new(s.len(), |i: int| cell(s[i], c))
}

/// Two keys belong to one run: they are equal, or one and the same.
pub open spec fn alike(a: Value, b: Value) -> bool {
    value::equal(a, b) || a == b
}

/// How many leading rows have a key that is alike.
pub open spec fn run(s: Seq<Seq<Value>>, c: int, k: Value) -> nat
    decreases s.len(),
{
    if s.len() == 0 || !alike(cell(s[0], c), k) {
        0
    } else {
        1 + run(s.skip(1), c, k)
    }
}

/// Left rows that all meet the rows `f`.
pub open spec fn block(l: Seq<Seq<Value>>, f: Seq<Seq<Value>>, kind: JoinKind) -> Seq<Seq<Value>>
    decreases l.len(),
{
    if l.len() == 0 {
        Seq::empty()
    } else {
        block(l.drop_last(), f, kind) + met(l.last(), f, kind)
    }
}

/// The join of two sorted lists, whose rows are padded to the widths `wl` and
/// `wr`.
pub open spec fn merged(
    l: Seq<Seq<Value>>,
    r: Seq<Seq<Value>>,
    lc: int,
    rc: int,
    kind: JoinKind,
    wl: nat,
    wr: nat,
) -> Seq<Seq<Value>>
    decreases l.len() + r.len(),
{
    if l.len() == 0 && r.len() == 0 {
        Seq::empty()
    } else if r.len() == 0 {
        left_alone(l[0], kind, wr) + merged(l.skip(1), r, lc, rc, kind, wl, wr)
    } else if l.len() == 0 {
        right_alone(r[0], kind, wl) + merged(l, r.skip(1), lc, rc, kind, wl, wr)
    } else {
        let a = cell(l[0], lc);
        let b = cell(r[0], rc);
        match value::value_side(a, b) {
            Side::Below => left_alone(l[0], kind, wr) + merged(l.skip(1), r, lc, rc, kind, wl, wr),
            Side::Above => right_alone(r[0], kind, wl) + merged(l, r.skip(1), lc, rc, kind, wl, wr),
            Side::Same => {
                let m = run(l, lc, a) as int;
                let n = run(r, rc, b) as int;
                if 0 < m <= l.len() && 0 < n <= r.len() {
                    block(l.take(m), r.take(n), kind) + merged(l.skip(m), r.skip(n), lc, rc, kind, wl, wr)
                } else {
                    Seq::empty()
                }
            },
        }
    }
}

proof fn lemma_run(s: Seq<Seq<Value>>, c: int, k: Value)
    ensures
        run(s, c, k) <= s.len(),
        s.len() > 0 && alike(cell(s[0], c), k) ==> run(s, c, k) > 0,
    decreases s.len(),
{
    if s.len() > 0 {
        lemma_run(s.skip(1), c, k);
    }
}

/// A left row below all that is left of the right ones.
proof fn lemma_below(
    ls: Seq<Seq<Value>>,
    rs: Seq<Seq<Value>>,
    i: int,
    j: int,
    lc: int,
    rc: int,
    kind: JoinKind,
    wl: nat,
    wr: nat,
    out: Seq<Seq<Value>>,
)
    requires
        0 <= i < ls.len(),
        0 <= j <= rs.len(),
        j < rs.len() ==> value::value_side(cell(ls[i], lc), cell(rs[j], rc)) == Side::Below,
    ensures
        out + merged(ls.skip(i), rs.skip(j), lc, rc, kind, wl, wr) == out + left_alone(ls[i], kind, wr) + merged(
            ls.skip(i + 1),
            rs.skip(j),
            lc,
            rc,
            kind,
            wl,
            wr,
        ),
{
    let sl = ls.skip(i);
    let sr = rs.skip(j);
    assert(sl[0] == ls[i]);
    assert(sl.skip(1) =~= ls.skip(i + 1));
    if j < rs.len() {
        assert(sr[0] == rs[j]);
    }
    let x = left_alone(ls[i], kind, wr);
    let y = merged(ls.skip(i + 1), sr, lc, rc, kind, wl, wr);
    assert(merged(sl, sr, lc, rc, kind, wl, wr) == x + y);
    assert(out + (x + y) =~= out + x + y);
}

/// A right row below all that is left of the left ones.
proof fn lemma_above(
    ls: Seq<Seq<Value>>,
    rs: Seq<Seq<Value>>,
    i: int,
    j: int,
    lc: int,
    rc: int,
    kind: JoinKind,
    wl: nat,
    wr: nat,
    out: Seq<Seq<Value>>,
)
    requires
        0 <= i <= ls.len(),
        0 <= j < rs.len(),
        i < ls.len() ==> value::value_side(cell(ls[i], lc), cell(rs[j], rc)) == Side::Above,
    ensures
        out + merged(ls.skip(i), rs.skip(j), lc, rc, kind, wl, wr) == out + right_alone(rs[j], kind, wl) + merged(
            ls.skip(i),
            rs.skip(j + 1),
            lc,
            rc,
            kind,
            wl,
            wr,
        ),
{
    let sl = ls.skip(i);
    let sr = rs.skip(j);
    assert(sr[0] == rs[j]);
    assert(sr.skip(1) =~= rs.skip(j + 1));
    if i < ls.len() {
        assert(sl[0] == ls[i]);
    }
    let x = right_alone(rs[j], kind, wl);
    let y = merged(sl, rs.skip(j + 1), lc, rc, kind, wl, wr);
    assert(merged(sl, sr, lc, rc, kind, wl, wr) == x + y);
    assert(out + (x + y) =~= out + x + y);
}

/// Rows that are level.
proof fn lemma_level(
    ls: Seq<Seq<Value>>,
    rs: Seq<Seq<Value>>,
    i: int,
    j: int,
    m: int,
    n: int,
    lc: int,
    rc: int,
    kind: JoinKind,
    wl: nat,
    wr: nat,
    out: Seq<Seq<Value>>,
)
    requires
        0 <= i < ls.len(),
        0 <= j < rs.len(),
        value::value_side(cell(ls[i], lc), cell(rs[j], rc)) == Side::Same,
        m == i + run(ls.skip(i), lc, cell(ls[i], lc)),
        n == j + run(rs.skip(j), rc, cell(rs[j], rc)),
    ensures
        i < m <= ls.len(),
        j < n <= rs.len(),
        out + merged(ls.skip(i), rs.skip(j), lc, rc, kind, wl, wr) == out + block(
            ls.subrange(i, m),
            rs.subrange(j, n),
            kind,
        ) + merged(ls.skip(m), rs.skip(n), lc, rc, kind, wl, wr),
{
    let sl = ls.skip(i);
    let sr = rs.skip(j);
    let a = cell(ls[i], lc);
    let b = cell(rs[j], rc);
    assert(sl[0] == ls[i] && sr[0] == rs[j]);
    lemma_run(sl, lc, a);
    lemma_run(sr, rc, b);
    assert(sl.take(m - i) =~= ls.subrange(i, m));
    assert(sr.take(n - j) =~= rs.subrange(j, n));
    assert(sl.skip(m - i) =~= ls.skip(m));
    assert(sr.skip(n - j) =~= rs.skip(n));
    let x = block(ls.subrange(i, m), rs.subrange(j, n), kind);
    let y = merged(ls.skip(m), rs.skip(n), lc, rc, kind, wl, wr);
    assert(merged(sl, sr, lc, rc, kind, wl, wr) == x + y);
    assert(out + (x + y) =~= out + x + y);
}

/// The end of the run of rows, from `from` on, whose key is alike.
fn run_end(s: &Vec<Vec<Value>>, from: usize, c: usize, k: &Value) -> (to: usize)
    requires
        from <= s.len(),
    ensures
        to <= s.len(),
        to == from + run(rows(s@).skip(from as int), c as int, *k),
{
    let ghost rs = rows(s@);
    let mut i: usize = from;
    while i < s.len()
        invariant
            from <= i <= s.len(),
            rs == rows(s@),
            from + run(rs.skip(from as int), c as int, *k) == i + run(rs.skip(i as int), c as int, *k),
        decreases s.len() - i,
    {
        let v = cell_in(&s[i], c);
        proof {
            assert(rs.skip(i as int)[0] == s@[i as int]@);
            assert(rs.skip(i as int).skip(1) =~= rs.skip(i + 1));
        }
        if !value::is_equal(&v, k) && v != *k {
            return i;
        }
        i += 1;
    }
    i
}

/// Pair each left row from `i` to `m` with each right row from `j` to `n`.
fn put_block(
    out: &mut Vec<Joined>,
    left: &Vec<Vec<Value>>,
    i: usize,
    m: usize,
    right: &Vec<Vec<Value>>,
    j: usize,
    n: usize,
    kind: JoinKind,
)
    requires
        i <= m <= left.len(),
        j < n <= right.len(),
    ensures
        rows(final(out)@) == rows(old(out)@) + block(
            rows(left@).subrange(i as int, m as int),
            rows(right@).subrange(j as int, n as int),
            kind,
        ),
{
    let ghost was = rows(out@);
    let ghost f = rows(right@).subrange(j as int, n as int);
    let ghost s = rows(left@).subrange(i as int, m as int);
    let mut a: usize = i;
    assert(was + block(s.take(0), f, kind) =~= was);
    while a < m
        invariant
            i <= a <= m <= left.len(),
            j < n <= right.len(),
            f == rows(right@).subrange(j as int, n as int),
            s == rows(left@).subrange(i as int, m as int),
            rows(out@) == was + block(s.take(a - i), f, kind),
        decreases m - a,
    {
        let ghost mid = rows(out@);
        proof {
            assert(s.take(a - i + 1).drop_last() =~= s.take(a - i));
            assert(s.take(a - i + 1).last() == left@[a as int]@);
        }
        if matches!(kind, JoinKind::Semi) {
            put(out, copied(&left[a]));
        } else if !matches!(kind, JoinKind::Anti) {
            let mut b: usize = j;
            assert(mid =~= mid + met(left@[a as int]@, f.take(0), kind));
            while b < n
                invariant
                    j <= b <= n <= right.len(),
                    a < left.len(),
                    f == rows(right@).subrange(j as int, n as int),
                    !left_only(kind),
                    rows(out@) == mid + met(left@[a as int]@, f.take(b - j), kind),
                decreases n - b,
            {
                put(out, joined(&left[a], &right[b]));
                proof {
                    assert(f.take(b - j + 1) =~= f.take(b - j).push(right@[b as int]@));
                    assert(met(left@[a as int]@, f.take(b - j + 1), kind) =~= met(
                        left@[a as int]@,
                        f.take(b - j),
                        kind,
                    ).push(left@[a as int]@ + right@[b as int]@));
                }
                b += 1;
            }
            assert(f.take(n - j) =~= f);
        }
        a += 1;
    }
    assert(s.take(m - i) =~= s);
}

/// The rows of a list in the stable order of a column.
fn sorted_rows(s: &Vec<Vec<Value>>, c: usize) -> (r: (Vec<Vec<Value>>, Ghost<Seq<usize>>))
    ensures
        sort::is_order(keys(rows(s@), c as int), r.1@),
        rows(r.0@) == sort::arranged(rows(s@), r.1@),
{
    let mut ks: Vec<Value> = Vec::new();
    let mut i: usize = 0;
    while i < s.len()
        invariant
            i <= s.len(),
            ks@ == keys(rows(s@), c as int).take(i as int),
        decreases s.len() - i,
    {
        ks.push(cell_in(&s[i], c));
        assert(keys(rows(s@), c as int).take(i + 1) =~= keys(rows(s@), c as int).take(i as int).push(
            cell(s@[i as int]@, c as int),
        ));
        i += 1;
    }
    assert(ks@ =~= keys(rows(s@), c as int));
    let p = sort::stable_order(&ks);
    let mut t: Vec<Vec<Value>> = Vec::new();
    let mut k: usize = 0;
    while k < p.len()
        invariant
            k <= p.len(),
            sort::is_order(keys(rows(s@), c as int), p@),
            rows(t@) == sort::arranged(rows(s@), p@).take(k as int),
        decreases p.len() - k,
    {
        assert(p@[k as int] < s@.len());
        put(&mut t, copied(&s[p[k]]));
        assert(sort::arranged(rows(s@), p@).take(k + 1) =~= sort::arranged(rows(s@), p@).take(k as int).push(
            s@[p@[k as int] as int]@,
        ));
        k += 1;
    }
    assert(rows(t@) =~= sort::arranged(rows(s@), p@));
    (t, Ghost(p@))
}

/// Sort-merge join on an equality predicate. Both inputs must be sorted on the
/// join columns (this function sorts copies if needed). Where the total order
/// does not tell two keys apart, the run of keys equal to the left one meets the
/// run of keys equal to the right one.
pub fn sort_merge_join(
    left: Vec<Vec<Value>>,
    right: Vec<Vec<Value>>,
    left_col: usize,
    right_col: usize,
    kind: JoinKind,
) -> (out: Vec<Joined>)
    ensures
        exists|p: Seq<usize>, q: Seq<usize>|
            #![trigger sort::arranged(rows(left@), p), sort::arranged(rows(right@), q)]
            {
                let l = sort::arranged(rows(left@), p);
                let r = sort::arranged(rows(right@), q);
                &&& sort::is_order(keys(rows(left@), left_col as int), p)
                &&& sort::is_order(keys(rows(right@), right_col as int), q)
                &&& rows(out@) == merged(l, r, left_col as int, right_col as int, kind, width(l), width(r))
            },
{
    let ghost lc = left_col as int;
    let ghost rc = right_col as int;
    let (l, Ghost(p)) = sorted_rows(&left, left_col);
    let (r, Ghost(q)) = sorted_rows(&right, right_col);
    let ghost ls = sort::arranged(rows(left@), p);
    let ghost rs = sort::arranged(rows(right@), q);
    let ghost wl = width(ls);
    let ghost wr = width(rs);
    let ghost all = merged(ls, rs, lc, rc, kind, wl, wr);
    let left_pad = null_row(l.as_slice());
    let right_pad = null_row(r.as_slice());
    let mut out: Vec<Joined> = Vec::new();
    let mut i: usize = 0;
    let mut j: usize = 0;
    proof {
        assert(rows(out@) =~= Seq::<Seq<Value>>::empty());
        assert(ls.skip(0) =~= ls);
        assert(rs.skip(0) =~= rs);
        assert(rows(out@) + all =~= all);
    }
    while i < l.len() || j < r.len()
        invariant
            i <= l.len(),
            j <= r.len(),
            rows(l@) == ls,
            rows(r@) == rs,
            lc == left_col,
            rc == right_col,
            left_pad@ == nulls(wl),
            right_pad@ == nulls(wr),
            rows(out@) + merged(ls.skip(i as int), rs.skip(j as int), lc, rc, kind, wl, wr) == all,
        decreases l.len() - i + r.len() - j,
    {
        let ghost was = rows(out@);
        let side = if j >= r.len() {
            Side::Below
        } else if i >= l.len() {
            Side::Above
        } else {
            value::compare(&cell_in(&l[i], left_col), &cell_in(&r[j], right_col))
        };
        match side {
            Side::Below => {
                put_left_alone(&mut out, &l[i], kind, &right_pad);
                proof {
                    lemma_below(ls, rs, i as int, j as int, lc, rc, kind, wl, wr, was);
                }
                i += 1;
            },
            Side::Above => {
                put_right_alone(&mut out, &r[j], kind, &left_pad);
                proof {
                    lemma_above(ls, rs, i as int, j as int, lc, rc, kind, wl, wr, was);
                }
                j += 1;
            },
            Side::Same => {
                let a = cell_in(&l[i], left_col);
                let b = cell_in(&r[j], right_col);
                let m = run_end(&l, i, left_col, &a);
                let n = run_end(&r, j, right_col, &b);
                proof {
                    lemma_level(ls, rs, i as int, j as int, m as int, n as int, lc, rc, kind, wl, wr, was);
                }
                put_block(&mut out, &l, i, m, &r, j, n, kind);
                i = m;
                j = n;
            },
        }
    }
    assert(rows(out@) + Seq::<Seq<Value>>::empty() =~= rows(out@));
    out
}

/// Every pair of rows, left row by left row.
pub open spec fn crossed(l: Seq<Seq<Value>>, r: Seq<Seq<Value>>) -> Seq<Seq<Value>> {
    block(l, r, JoinKind::Inner)
}

/// Cross (Cartesian) join: every left row with every right row.
pub fn cross_join(left: &[Vec<Value>], right: &[Vec<Value>]) -> (out: Vec<Joined>)
    ensures
        rows(out@) == crossed(rows(left@), rows(right@)),
{
    let ghost ls = rows(left@);
    let ghost rs = rows(right@);
    let mut out: Vec<Joined> = Vec::new();
    let mut i: usize = 0;
    assert(rows(out@) =~= Seq::<Seq<Value>>::empty());
    while i < left.len()
        invariant
            i <= left.len(),
            ls == rows(left@),
            rs == rows(right@),
            rows(out@) == block(ls.take(i as int), rs, JoinKind::Inner),
        decreases left.len() - i,
    {
        let ghost mid = rows(out@);
        let ghost l = left@[i as int]@;
        proof {
            assert(ls.take(i + 1).drop_last() =~= ls.take(i as int));
            assert(ls.take(i + 1).last() == l);
            assert(mid =~= mid + met(l, rs.take(0), JoinKind::Inner));
        }
        let mut j: usize = 0;
        while j < right.len()
            invariant
                i < left.len(),
                j <= right.len(),
                l == left@[i as int]@,
                rs == rows(right@),
                rows(out@) == mid + met(l, rs.take(j as int), JoinKind::Inner),
            decreases right.len() - j,
        {
            put(&mut out, joined(&left[i], &right[j]));
            proof {
                assert(rs.take(j + 1) =~= rs.take(j as int).push(right@[j as int]@));
                assert(met(l, rs.take(j + 1), JoinKind::Inner) =~= met(l, rs.take(j as int), JoinKind::Inner).push(
                    l + right@[j as int]@,
                ));
            }
            j += 1;
        }
        assert(rs.take(rs.len() as int) =~= rs);
        i += 1;
    }
    assert(ls.take(ls.len() as int) =~= ls);
    out
}

} // verus!
