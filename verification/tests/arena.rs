use schist::arena::{Arena};

#[test]
fn insert_get_remove() {
    let mut a: Arena<String> = Arena::new();
    let h = a.insert("hello".to_string());
    assert_eq!(a.get(h).map(|s| s.as_str()), Some("hello"));
    assert_eq!(a.len(), 1);
    assert_eq!(a.remove(h).unwrap(), "hello");
    assert!(a.get(h).is_none());
    assert_eq!(a.len(), 0);
}

#[test]
fn stale_handle_after_reuse() {
    let mut a: Arena<i32> = Arena::new();
    let h1 = a.insert(1);
    a.remove(h1);
    let h2 = a.insert(2);
    // Slot is reused but the generation differs.
    assert_eq!(h1.index(), h2.index());
    assert_ne!(h1.generation(), h2.generation());
    assert!(a.get(h1).is_none());
    assert_eq!(a.get(h2), Some(&2));
}

#[test]
fn mutation_through_handle() {
    let mut a: Arena<i32> = Arena::new();
    let h = a.insert(10);
    *a.get_mut(h).unwrap() += 5;
    assert_eq!(a.get(h), Some(&15));
}

#[test]
fn iteration_skips_freed() {
    let mut a: Arena<i32> = Arena::new();
    let h1 = a.insert(1);
    let _h2 = a.insert(2);
    let h3 = a.insert(3);
    a.remove(h1);
    let mut vals: Vec<i32> = a.iter().into_iter().map(|(_, v)| *v).collect();
    vals.sort();
    assert_eq!(vals, vec![2, 3]);
    assert!(a.contains(h3));
}

#[test]
fn clear_invalidates_all() {
    let mut a: Arena<i32> = Arena::new();
    let h = a.insert(1);
    a.insert(2);
    a.clear();
    assert_eq!(a.len(), 0);
    assert!(a.get(h).is_none());
    // Capacity is retained for reuse.
    assert!(a.capacity() >= 2);
}

#[test]
fn freed_slots_are_reused_last_in_first_out() {
    let mut a: Arena<i32> = Arena::new();
    let h0 = a.insert(10);
    let h1 = a.insert(11);
    a.insert(12);
    a.remove(h0);
    a.remove(h1);
    let again = a.insert(20);
    assert_eq!((again.index(), again.generation()), (1, h1.generation() + 1));
    let next = a.insert(21);
    assert_eq!((next.index(), next.generation()), (0, h0.generation() + 1));
    let fresh = a.insert(22);
    assert_eq!((fresh.index(), fresh.generation()), (3, h0.generation()));
}

#[test]
fn clearing_frees_the_slots_in_order() {
    let mut a: Arena<i32> = Arena::new();
    let h0 = a.insert(10);
    let h1 = a.insert(11);
    a.insert(12);
    a.remove(h1);
    a.clear();
    // Slot 1 was free already; 0 and 2 followed it.
    assert_eq!(a.insert(1).index(), 2);
    let zero = a.insert(2);
    assert_eq!((zero.index(), zero.generation()), (0, h0.generation() + 1));
    let one = a.insert(3);
    assert_eq!((one.index(), one.generation()), (1, h1.generation() + 1));
}
