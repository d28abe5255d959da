use schist::btree::{BTree};

#[test]
fn insert_and_lookup() {
    let mut t = BTree::new();
    t.insert(5, 1);
    t.insert(5, 2);
    t.insert(10, 3);
    t.insert(1, 4);
    assert_eq!(t.lookup(5), vec![1, 2]);
    assert_eq!(t.lookup(10), vec![3]);
    assert_eq!(t.lookup(1), vec![4]);
    assert_eq!(t.lookup(7), Vec::<u64>::new());
}

#[test]
fn many_inserts_split() {
    let mut t = BTree::new();
    for i in 0..200u64 {
        t.insert(i as i64, i);
    }
    for i in 0..200u64 {
        assert_eq!(t.lookup(i as i64), vec![i], "key {} missing", i);
    }
    assert!(t.height() >= 2);
    assert!(t.page_count() > 1);
}

#[test]
fn range_scan() {
    let mut t = BTree::new();
    for i in 0..100u64 {
        t.insert(i as i64, i);
    }
    let r = t.range(10, 15);
    let keys: Vec<i64> = r.iter().map(|(k, _)| *k).collect();
    assert_eq!(keys, vec![10, 11, 12, 13, 14, 15]);
}

#[test]
fn remove_drops_row() {
    let mut t = BTree::new();
    t.insert(5, 1);
    t.insert(5, 2);
    assert!(t.remove(5, 1));
    assert_eq!(t.lookup(5), vec![2]);
    assert!(t.remove(5, 2));
    assert!(t.lookup(5).is_empty());
}

#[test]
fn btree_encode_decode_round_trips() {
    let mut t = BTree::new();
    for i in 0..50u64 {
        t.insert(i as i64, i * 2);
    }
    let bytes = t.encode();
    let t2 = BTree::decode(&bytes).unwrap();
    assert_eq!(t2.len(), t.len());
    for i in 0..50u64 {
        assert_eq!(t2.lookup(i as i64), vec![i * 2]);
    }
}

#[test]
fn iter_is_sorted() {
    let mut t = BTree::new();
    for i in [50, 10, 30, 20, 40] {
        t.insert(i, i as u64);
    }
    let pairs = t.iter();
    let keys: Vec<i64> = pairs.iter().map(|(k, _)| *k).collect();
    assert_eq!(keys, vec![10, 20, 30, 40, 50]);
}

#[test]
fn the_ninth_key_splits_the_root() {
    let mut t = BTree::new();
    for i in 0..8u64 {
        t.insert(i as i64, i);
    }
    assert_eq!((t.root(), t.height(), t.page_count()), (0, 1, 1));
    t.insert(8, 8);
    assert_eq!((t.root(), t.height(), t.page_count()), (2, 2, 3));
    assert_eq!(t.iter().len(), 9);
}

#[test]
fn a_tree_read_from_a_buffer_can_be_checked() {
    let mut t = BTree::new();
    for i in 0..100u64 {
        t.insert((i * 37 % 101) as i64, i);
    }
    assert!(t.is_sound());
    let bytes = t.encode();
    assert!(BTree::decode(&bytes).unwrap().is_sound());
    let mut bent = bytes.clone();
    bent[8] = bent[8].wrapping_add(1);
    assert!(!BTree::decode(&bent).unwrap().is_sound());
    let mut lost = bytes;
    lost[4] = 1;
    assert!(!BTree::decode(&lost).unwrap().is_sound());
}

#[test]
fn a_removal_counts_an_entry_less_only_with_its_last_row() {
    let mut t = BTree::new();
    for k in 0..20i64 {
        t.insert(k, k as u64 + 100);
    }
    t.insert(7, 1);
    let pages = t.page_count();
    assert_eq!(t.len(), 20);
    assert!(t.remove(7, 1));
    assert_eq!(t.len(), 20);
    assert!(!t.remove(7, 1));
    assert_eq!(t.len(), 20);
    assert!(t.remove(7, 107));
    assert_eq!(t.len(), 19);
    assert_eq!(t.page_count(), pages);
    assert_eq!(t.lookup(8), vec![108]);
}
