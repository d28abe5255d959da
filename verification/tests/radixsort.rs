use schist::radixsort::{sort_u64, to_sortable, from_sortable, sort_i64, sort_pairs, is_sorted_u64};

#[test]
fn sorts_unsigned() {
    let mut keys = vec![5u64, 3, 8, 1, 9, 2, 7, 0, u64::MAX, 100];
    sort_u64(&mut keys);
    assert!(is_sorted_u64(&keys));
    assert_eq!(keys[0], 0);
    assert_eq!(keys[keys.len() - 1], u64::MAX);
}

#[test]
fn sorts_signed() {
    let mut keys = vec![3i64, -5, 0, i64::MIN, i64::MAX, -1, 2];
    sort_i64(&mut keys);
    let mut expected = keys.clone();
    expected.sort();
    assert_eq!(keys, expected);
}

#[test]
fn sortable_mapping_preserves_order() {
    assert!(to_sortable(-1) < to_sortable(0));
    assert!(to_sortable(0) < to_sortable(1));
    assert!(to_sortable(i64::MIN) < to_sortable(i64::MAX));
    assert_eq!(from_sortable(to_sortable(-42)), -42);
}

#[test]
fn sorts_pairs_stably() {
    let mut pairs = vec![(3u64, 0u32), (1, 1), (3, 2), (2, 3), (1, 4)];
    sort_pairs(&mut pairs);
    let keys: Vec<u64> = pairs.iter().map(|(k, _)| *k).collect();
    assert!(is_sorted_u64(&keys));
    // Stability: equal keys keep their original payload order.
    let ones: Vec<u32> = pairs.iter().filter(|(k, _)| *k == 1).map(|(_, p)| *p).collect();
    assert_eq!(ones, vec![1, 4]);
}

#[test]
fn handles_trivial() {
    let mut empty: Vec<u64> = vec![];
    sort_u64(&mut empty);
    let mut one = vec![42u64];
    sort_u64(&mut one);
    assert_eq!(one, vec![42]);
}

#[test]
fn large_random() {
    let mut keys = Vec::new();
    let mut state = 12345u64;
    for _ in 0..5000 {
        state = state.wrapping_mul(6364136223846793005).wrapping_add(1);
        keys.push(state >> 33);
    }
    let mut expected = keys.clone();
    expected.sort();
    sort_u64(&mut keys);
    assert_eq!(keys, expected);
}
