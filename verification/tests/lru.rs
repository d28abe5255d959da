use schist::lru::{LruCache};

#[test]
fn get_put_basic() {
    let mut c: LruCache<i32, &str> = LruCache::new(2);
    assert_eq!(c.put(1, "a"), None);
    assert_eq!(c.put(2, "b"), None);
    assert_eq!(c.get(&1), Some(&"a"));
    assert_eq!(c.len(), 2);
}

#[test]
fn evicts_least_recently_used() {
    let mut c: LruCache<i32, i32> = LruCache::new(2);
    c.put(1, 10);
    c.put(2, 20);
    // Touch 1 so 2 becomes LRU.
    let _ = c.get(&1);
    let evicted = c.put(3, 30);
    assert_eq!(evicted, Some((2, 20)));
    assert!(!c.contains(&2));
    assert!(c.contains(&1));
    assert!(c.contains(&3));
}

#[test]
fn update_moves_to_front() {
    let mut c: LruCache<i32, i32> = LruCache::new(2);
    c.put(1, 1);
    c.put(2, 2);
    c.put(1, 100); // update, 1 now MRU
    c.put(3, 3); // evicts 2
    assert_eq!(c.peek(&1), Some(&100));
    assert!(!c.contains(&2));
}

#[test]
fn remove_frees_slot() {
    let mut c: LruCache<i32, &str> = LruCache::new(4);
    c.put(1, "x");
    c.put(2, "y");
    assert_eq!(c.remove(&1), Some("x"));
    assert!(!c.contains(&1));
    assert_eq!(c.len(), 1);
    // Reinsert reuses the freed slot.
    c.put(3, "z");
    assert_eq!(c.peek(&3), Some(&"z"));
}

#[test]
fn mru_order_and_stats() {
    let mut c: LruCache<i32, i32> = LruCache::new(3);
    c.put(1, 1);
    c.put(2, 2);
    c.put(3, 3);
    let _ = c.get(&1);
    assert_eq!(c.keys_mru(), vec![1, 3, 2]);
    let _ = c.get(&99);
    let (hits, misses) = c.stats();
    assert_eq!(hits, 1);
    assert_eq!(misses, 1);
}

#[test]
fn holds_owned_values() {
    let mut c: LruCache<String, String> = LruCache::new(1);
    c.put("k".into(), "v".into());
    let evicted = c.put("k2".into(), "v2".into());
    assert_eq!(evicted, Some(("k".to_string(), "v".to_string())));
}
