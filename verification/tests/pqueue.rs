use schist::pqueue::{PriorityQueue};

#[test]
fn push_pop_order() {
    let mut pq = PriorityQueue::new();
    pq.push(1, 30);
    pq.push(2, 10);
    pq.push(3, 20);
    assert_eq!(pq.pop(), Some((10, 2)));
    assert_eq!(pq.pop(), Some((20, 3)));
    assert_eq!(pq.pop(), Some((30, 1)));
    assert!(pq.is_empty());
}

#[test]
fn decrease_key_reorders() {
    let mut pq = PriorityQueue::new();
    pq.push(1, 100);
    pq.push(2, 50);
    assert!(pq.decrease_key(1, 10));
    assert_eq!(pq.peek(), Some((10, 1)));
    // A non-decrease is ignored.
    assert!(!pq.decrease_key(1, 20));
}

#[test]
fn push_existing_updates() {
    let mut pq = PriorityQueue::new();
    pq.push(5, 40);
    pq.push(5, 15);
    assert_eq!(pq.len(), 1);
    assert_eq!(pq.priority_of(5), Some(15));
}

#[test]
fn remove_arbitrary() {
    let mut pq = PriorityQueue::new();
    for (k, p) in [(1, 5), (2, 3), (3, 8), (4, 1)] {
        pq.push(k, p);
    }
    assert_eq!(pq.remove(3), Some(8));
    assert!(!pq.contains(3));
    assert_eq!(pq.len(), 3);
}

#[test]
fn into_sorted_is_ascending() {
    let mut pq = PriorityQueue::new();
    for (k, p) in [(1, 9), (2, 2), (3, 7), (4, 4), (5, 1)] {
        pq.push(k, p);
    }
    let sorted = pq.into_sorted();
    let prios: Vec<i64> = sorted.iter().map(|(p, _)| *p).collect();
    assert_eq!(prios, vec![1, 2, 4, 7, 9]);
}

#[test]
fn equal_priorities_leave_in_the_order_of_the_heap() {
    let mut pq = PriorityQueue::new();
    pq.push(1, 5);
    pq.push(2, 5);
    pq.push(3, 5);
    assert_eq!(pq.peek(), Some((5, 1)));
    assert_eq!(pq.into_sorted(), vec![(5, 1), (5, 3), (5, 2)]);
}
