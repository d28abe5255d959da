use schist::dsu::{DisjointSet};

#[test]
fn singletons() {
    let mut d = DisjointSet::new(5);
    assert_eq!(d.count_sets(), 5);
    assert!(!d.connected(0, 1));
}

#[test]
fn union_and_connected() {
    let mut d = DisjointSet::new(6);
    d.union(0, 1);
    d.union(1, 2);
    assert!(d.connected(0, 2));
    assert!(!d.connected(0, 3));
    assert_eq!(d.set_size(0), 3);
    assert_eq!(d.count_sets(), 4);
}

#[test]
fn duplicate_union_no_op() {
    let mut d = DisjointSet::new(3);
    assert!(d.union(0, 1));
    assert!(!d.union(0, 1));
    assert_eq!(d.count_sets(), 2);
}

#[test]
fn classes_grouped() {
    let mut d = DisjointSet::new(6);
    d.union(0, 2);
    d.union(2, 4);
    d.union(1, 3);
    let classes = d.classes();
    assert!(classes.contains(&vec![0, 2, 4]));
    assert!(classes.contains(&vec![1, 3]));
    assert!(classes.contains(&vec![5]));
}

#[test]
fn dsu_dynamic_growth() {
    let mut d = DisjointSet::new(2);
    d.ensure(5);
    assert_eq!(d.len(), 5);
    d.union(3, 4);
    assert!(d.connected(3, 4));
}

#[test]
fn the_set_of_higher_rank_gives_the_name() {
    let mut d = DisjointSet::new(5);
    assert!(d.union(0, 1));
    assert_eq!(d.find(1), 0);
    assert!(d.union(2, 1));
    assert_eq!(d.find(2), 0);
    assert!(d.union(3, 4));
    assert!(d.union(4, 2));
    assert_eq!(d.find(0), 3);
}
