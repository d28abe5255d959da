use schist::bufferpool::{PoolError, Writeback, BufferPool};

#[test]
fn install_and_pin() {
    let mut pool = BufferPool::new(2, 8);
    pool.install(1, vec![1, 2, 3]).unwrap();
    pool.unpin(1);
    let bytes = pool.pin(1).unwrap();
    assert_eq!(&bytes[..3], &[1, 2, 3]);
    assert_eq!(pool.stats().hits, 1);
}

#[test]
fn miss_reports_not_resident() {
    let mut pool = BufferPool::new(2, 8);
    assert_eq!(pool.pin(99), Err(PoolError::NotResident(99)));
    assert_eq!(pool.stats().misses, 1);
}

#[test]
fn second_chance_eviction_order() {
    let mut pool = BufferPool::new(2, 4);
    pool.install(1, vec![0; 4]).unwrap();
    pool.unpin(1);
    pool.install(2, vec![0; 4]).unwrap();
    pool.unpin(2);
    // Both frames have their reference bit set; the clock sweep clears both
    // and evicts the first one it revisits (page 1).
    pool.install(3, vec![0; 4]).unwrap();
    pool.unpin(3);
    assert!(!pool.is_resident(1));
    assert!(pool.is_resident(2));
    assert!(pool.is_resident(3));
    assert_eq!(pool.stats().evictions, 1);
    // Page 2's reference bit was cleared during that sweep and never reset,
    // so it is the next victim while the freshly-referenced page 3 survives.
    pool.install(4, vec![0; 4]).unwrap();
    pool.unpin(4);
    assert!(!pool.is_resident(2));
    assert!(pool.is_resident(3));
    assert!(pool.is_resident(4));
}

#[test]
fn dirty_eviction_writes_back() {
    let mut pool = BufferPool::new(1, 4);
    pool.install(1, vec![9; 4]).unwrap();
    pool.unpin(1);
    let wb = pool.install(2, vec![7; 4]).unwrap();
    assert_eq!(wb, Some(Writeback { page_id: 1, data: vec![9; 4] }));
}

#[test]
fn all_pinned_errors() {
    let mut pool = BufferPool::new(1, 4);
    pool.install(1, vec![0; 4]).unwrap(); // pinned
    assert_eq!(pool.install(2, vec![0; 4]), Err(PoolError::AllFramesPinned));
}

#[test]
fn flush_clears_dirty() {
    let mut pool = BufferPool::new(2, 4);
    pool.install(1, vec![5; 4]).unwrap();
    let wb = pool.flush(1).unwrap();
    assert_eq!(wb.page_id, 1);
    assert!(pool.flush(1).is_none());
}

#[test]
fn hit_ratio_of_counts() {
    let mut reals = schist::numeric::Reals::new();
    let mut stats = schist::bufferpool::PoolStats::default();
    assert_eq!(stats.hit_ratio(&reals), Ok(0.0f64.to_bits()));
    stats.hits = 3;
    stats.misses = 1;
    assert!(stats.hit_ratio(&reals).is_err());
    let (a, b) = (3.0f64.to_bits(), 4.0f64.to_bits());
    reals.note_result(schist::numeric::ArithOp::Div, a, b, 0.75f64.to_bits());
    assert_eq!(stats.hit_ratio(&reals), Ok(0.75f64.to_bits()));
}

#[test]
fn a_full_pinned_pool_refuses_a_page() {
    let mut pool = BufferPool::new(2, 4);
    pool.install(1, vec![1]).unwrap();
    assert_eq!(pool.resident(), 1);
    pool.install(2, vec![2]).unwrap();
    assert_eq!((pool.resident(), pool.capacity()), (2, 2));
    assert_eq!(pool.install(3, vec![3]), Err(PoolError::AllFramesPinned));
    pool.unpin(1);
    assert!(pool.install(3, vec![3]).unwrap().is_some());
}

#[test]
fn a_full_pool_gives_up_just_one_unpinned_page() {
    let mut pool = BufferPool::new(3, 4);
    for page in 1..4 {
        assert_eq!(pool.install(page, vec![page as u8]), Ok(None));
        assert_eq!(pool.pin_count(page), 1);
    }
    pool.unpin(1);
    pool.unpin(3);
    let _ = pool.flush(1);
    let _ = pool.flush(3);
    assert_eq!(pool.install(4, vec![4]), Ok(None));
    assert_eq!(pool.resident(), 3);
    assert!(pool.is_resident(2) && pool.is_resident(4));
    assert!(pool.is_resident(1) != pool.is_resident(3));
    assert_eq!((pool.pin_count(2), pool.pin_count(4)), (1, 1));
}
