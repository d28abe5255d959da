use schist::interval::{Interval, IntervalTree};

fn tree() -> IntervalTree {
    IntervalTree::build(vec![
        Interval::new(1, 5, 0),
        Interval::new(10, 20, 1),
        Interval::new(15, 25, 2),
        Interval::new(30, 40, 3),
        Interval::new(3, 8, 4),
    ])
}

#[test]
fn overlap_query() {
    let t = tree();
    let mut ids: Vec<u32> = t.query_overlapping(4, 12).iter().map(|iv| iv.id).collect();
    ids.sort();
    assert_eq!(ids, vec![0, 1, 4]);
}

#[test]
fn point_query() {
    let t = tree();
    let mut ids: Vec<u32> = t.query_point(18).iter().map(|iv| iv.id).collect();
    ids.sort();
    assert_eq!(ids, vec![1, 2]);
}

#[test]
fn no_overlap() {
    let t = tree();
    assert!(t.query_overlapping(26, 29).is_empty());
    assert!(!t.any_overlap(26, 29));
    assert!(t.any_overlap(35, 100));
}

#[test]
fn reversed_endpoints_normalized() {
    let iv = Interval::new(20, 10, 7);
    assert_eq!(iv.lo, 10);
    assert_eq!(iv.hi, 20);
    assert!(iv.contains(15));
}

#[test]
fn empty_tree() {
    let t = IntervalTree::build(vec![]);
    assert!(t.is_empty());
    assert!(t.query_point(5).is_empty());
    assert!(!t.any_overlap(0, 100));
}

#[test]
fn large_build_and_query_matches_bruteforce() {
    let mut ivs = Vec::new();
    let mut state = 1u64;
    for id in 0..500u32 {
        state = state.wrapping_mul(2862933555777941757).wrapping_add(3037000493);
        let lo = (state >> 40) as i64 % 1000;
        let len = (state >> 20) as i64 % 50;
        ivs.push(Interval::new(lo, lo + len, id));
    }
    let t = IntervalTree::build(ivs.clone());
    for &(qlo, qhi) in &[(100i64, 150i64), (0, 10), (900, 1000), (500, 501)] {
        let mut expected: Vec<u32> = ivs
            .iter()
            .filter(|iv| iv.overlaps(qlo, qhi))
            .map(|iv| iv.id)
            .collect();
        expected.sort();
        let mut got: Vec<u32> = t
            .query_overlapping(qlo, qhi)
            .iter()
            .map(|iv| iv.id)
            .collect();
        got.sort();
        assert_eq!(got, expected);
    }
}

#[test]
fn a_query_lists_every_overlapping_interval_by_start_and_end() {
    let t = IntervalTree::build(vec![
        Interval::new(3, 9, 0),
        Interval::new(1, 4, 1),
        Interval::new(3, 5, 2),
        Interval::new(1, 4, 1),
        Interval::new(20, 30, 3),
    ]);
    let got: Vec<(i64, i64, u32)> = t.query_overlapping(4, 19).iter().map(|iv| (iv.lo, iv.hi, iv.id)).collect();
    assert_eq!(got, vec![(1, 4, 1), (1, 4, 1), (3, 5, 2), (3, 9, 0)]);
    assert!(t.any_overlap(4, 19));
    assert!(t.query_overlapping(10, 19).is_empty());
    assert!(!t.any_overlap(10, 19));
}
