use schist::bitset::{BitSet};

#[test]
fn insert_contains_remove() {
    let mut s = BitSet::new();
    assert!(s.insert(5));
    assert!(!s.insert(5));
    assert!(s.contains(5));
    assert!(!s.contains(6));
    assert!(s.remove(5));
    assert!(!s.contains(5));
}

#[test]
fn count_min_max() {
    let mut s = BitSet::new();
    for b in [3, 64, 65, 200] {
        s.insert(b);
    }
    assert_eq!(s.count(), 4);
    assert_eq!(s.min(), Some(3));
    assert_eq!(s.max(), Some(200));
}

#[test]
fn rank_and_select() {
    let mut s = BitSet::new();
    for b in [1, 4, 9, 70] {
        s.insert(b);
    }
    assert_eq!(s.rank(9), 2); // bits below 9: {1,4}
    assert_eq!(s.rank(10), 3);
    assert_eq!(s.select(0), Some(1));
    assert_eq!(s.select(2), Some(9));
    assert_eq!(s.select(3), Some(70));
    assert_eq!(s.select(4), None);
}

#[test]
fn set_algebra() {
    let mut a = BitSet::new();
    for b in [1, 2, 3] {
        a.insert(b);
    }
    let mut b = BitSet::new();
    for x in [2, 3, 4] {
        b.insert(x);
    }
    let mut u = a.clone();
    u.union_with(&b);
    assert_eq!(u.to_vec(), vec![1, 2, 3, 4]);
    let mut i = a.clone();
    i.intersect_with(&b);
    assert_eq!(i.to_vec(), vec![2, 3]);
    let mut d = a.clone();
    d.difference_with(&b);
    assert_eq!(d.to_vec(), vec![1]);
}

#[test]
fn subset_and_disjoint() {
    let full = BitSet::full(10);
    let mut sub = BitSet::new();
    sub.insert(2);
    sub.insert(7);
    assert!(sub.is_subset_of(&full));
    assert!(!full.is_subset_of(&sub));
    let mut other = BitSet::new();
    other.insert(20);
    assert!(sub.is_disjoint(&other));
}
