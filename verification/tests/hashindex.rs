use schist::hashindex::{HashIndex};

#[test]
fn insert_lookup_remove() {
    let mut h = HashIndex::new(8);
    h.insert(5, 1);
    h.insert(5, 2);
    h.insert(100, 3);
    assert_eq!(h.lookup(5), vec![1, 2]);
    assert_eq!(h.lookup(100), vec![3]);
    assert!(h.remove(5, 1));
    assert_eq!(h.lookup(5), vec![2]);
}

#[test]
fn overflow_chains() {
    let mut h = HashIndex::new(4);
    for i in 0..120u64 {
        h.insert(i as i64, i);
    }
    for i in 0..120u64 {
        assert_eq!(h.lookup(i as i64), vec![i]);
    }
    assert!(!h.overflow.is_empty());
}

#[test]
fn rehash_preserves_entries() {
    let mut h = HashIndex::new(4);
    for i in 0..40u64 {
        h.insert(i as i64, i);
    }
    h.rehash(16);
    for i in 0..40u64 {
        assert_eq!(h.lookup(i as i64), vec![i]);
    }
}

#[test]
fn hashindex_encode_decode_round_trips() {
    let mut h = HashIndex::new(4);
    for i in 0..30u64 {
        h.insert(i as i64, i * 3);
    }
    let bytes = h.encode();
    let h2 = HashIndex::decode(&bytes).unwrap();
    assert_eq!(h2.len, h.len);
    for i in 0..30u64 {
        assert_eq!(h2.lookup(i as i64), vec![i * 3]);
    }
}

#[test]
fn a_reread_index_is_as_long_as_its_entries() {
    let mut h = HashIndex::new(4);
    for i in 0..60u64 {
        h.insert((i % 7) as i64, i);
    }
    let back = HashIndex::decode(&h.encode()).unwrap();
    assert_eq!(back.len(), back.iter().len());
    assert_eq!(back.iter(), h.iter());
    assert_eq!(back.bucket_count(), h.bucket_count());
    assert!(HashIndex::decode(&[1, 2, 3]).is_none());
    assert!(h.is_sound());
    assert!(back.is_sound());
    let mut short = back.clone();
    short.len = 0;
    assert!(!short.is_sound());
    let mut cut = back;
    cut.next_overflow = 0;
    assert!(!cut.is_sound());
}
