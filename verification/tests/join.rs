use schist::join::{cross_join, hash_join, nested_loop_join, sort_merge_join, JoinKind};
use schist::value::Value;

fn lr() -> (Vec<Vec<Value>>, Vec<Vec<Value>>) {
    let left = vec![
        vec![Value::Int(1), Value::Int(10)],
        vec![Value::Int(2), Value::Int(20)],
        vec![Value::Int(3), Value::Int(30)],
    ];
    let right = vec![
        vec![Value::Int(1), Value::Int(100)],
        vec![Value::Int(1), Value::Int(101)],
        vec![Value::Int(3), Value::Int(300)],
    ];
    (left, right)
}

fn ints(row: &[i64]) -> Vec<Value> {
    row.iter().map(|i| Value::Int(*i)).collect()
}

#[test]
fn hash_join_inner() {
    let (l, r) = lr();
    let out = hash_join(&l, &r, 0, 0, JoinKind::Inner);
    assert_eq!(out.len(), 3);
}

#[test]
fn hash_join_left_outer() {
    let (l, r) = lr();
    let out = hash_join(&l, &r, 0, 0, JoinKind::LeftOuter);
    assert_eq!(out.len(), 4); // 2 from id=1, 1 from id=3, 1 unmatched id=2
}

#[test]
fn nested_loop_semi() {
    let (l, r) = lr();
    let out = nested_loop_join(&l, &r, 0, 0, schist::value::CmpOp::Eq, JoinKind::Semi);
    assert_eq!(out.len(), 2); // ids 1 and 3 match
}

#[test]
fn nested_loop_anti() {
    let (l, r) = lr();
    let out = nested_loop_join(&l, &r, 0, 0, schist::value::CmpOp::Eq, JoinKind::Anti);
    assert_eq!(out.len(), 1); // id 2 has no match
    assert_eq!(out[0][0], Value::Int(2));
}

#[test]
fn sort_merge_join_inner() {
    let (l, r) = lr();
    let out = sort_merge_join(l, r, 0, 0, JoinKind::Inner);
    assert_eq!(out.len(), 3);
}

#[test]
fn cross_join_cardinality() {
    let l = vec![vec![Value::Int(1)], vec![Value::Int(2)]];
    let r = vec![vec![Value::Int(9)], vec![Value::Int(8)], vec![Value::Int(7)]];
    assert_eq!(cross_join(&l, &r).len(), 6);
}

#[test]
fn nested_loop_pairs_in_order() {
    let (l, r) = lr();
    let out = nested_loop_join(&l, &r, 0, 0, schist::value::CmpOp::Eq, JoinKind::Inner);
    assert_eq!(out, vec![ints(&[1, 10, 1, 100]), ints(&[1, 10, 1, 101]), ints(&[3, 30, 3, 300])]);
}

#[test]
fn merge_join_rows() {
    let (l, r) = lr();
    let out = sort_merge_join(l, r, 0, 0, JoinKind::Inner);
    assert_eq!(out, vec![ints(&[1, 10, 1, 100]), ints(&[1, 10, 1, 101]), ints(&[3, 30, 3, 300])]);
}

#[test]
fn outer_join_pads_with_nulls() {
    let (l, r) = lr();
    let out = nested_loop_join(&l, &r, 0, 0, schist::value::CmpOp::Eq, JoinKind::LeftOuter);
    assert!(out.contains(&vec![Value::Int(2), Value::Int(20), Value::Null, Value::Null]));
}

#[test]
fn sort_merge_runs_hold_equal_keys() {
    let left = vec![vec![Value::Int(1)], vec![Value::Real(1.0f64.to_bits())]];
    let right = vec![vec![Value::Int(1)]];
    let out = sort_merge_join(left, right, 0, 0, JoinKind::Inner);
    assert_eq!(out, vec![vec![Value::Int(1), Value::Int(1)]]);
}

#[test]
fn hash_and_nested_joins_give_the_same_rows() {
    let sorted = |rows: Vec<Vec<Value>>| {
        let mut t: Vec<String> = rows.iter().map(|r| format!("{:?}", r)).collect();
        t.sort();
        t
    };
    let (mut l, mut r) = lr();
    l.push(ints(&[1, 11]));
    l.push(ints(&[7, 70]));
    r.push(ints(&[9, 900]));
    for kind in [
        JoinKind::Inner,
        JoinKind::LeftOuter,
        JoinKind::RightOuter,
        JoinKind::FullOuter,
        JoinKind::Semi,
        JoinKind::Anti,
    ] {
        let a = hash_join(&l, &r, 0, 0, kind);
        let b = nested_loop_join(&l, &r, 0, 0, schist::value::CmpOp::Eq, kind);
        assert_eq!(sorted(a), sorted(b));
    }
}
