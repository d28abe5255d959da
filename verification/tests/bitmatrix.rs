use schist::bitmatrix::{BitMatrix};

#[test]
fn set_get() {
    let mut m = BitMatrix::new(3, 100);
    m.set(1, 70, true);
    assert!(m.get(1, 70));
    assert!(!m.get(1, 71));
    assert_eq!(m.row_popcount(1), 1);
    m.set(1, 70, false);
    assert!(!m.get(1, 70));
}

#[test]
fn identity_matrix() {
    let m = BitMatrix::identity(4);
    assert_eq!(m.popcount(), 4);
    assert!(m.get(2, 2));
    assert!(!m.get(2, 3));
}

#[test]
fn transitive_closure_reachability() {
    // 0 -> 1 -> 2 -> 3, plus self-loops from identity semantics.
    let mut m = BitMatrix::new(4, 4);
    m.set(0, 1, true);
    m.set(1, 2, true);
    m.set(2, 3, true);
    m.transitive_closure();
    assert!(m.reachable(0, 3));
    assert!(m.reachable(1, 3));
    assert!(!m.reachable(3, 0));
}

#[test]
fn closure_with_cycle() {
    let mut m = BitMatrix::new(3, 3);
    m.set(0, 1, true);
    m.set(1, 2, true);
    m.set(2, 0, true);
    m.transitive_closure();
    // Everything reaches everything.
    for i in 0..3 {
        for j in 0..3 {
            assert!(m.reachable(i, j));
        }
    }
}

#[test]
fn row_indices_listed() {
    let mut m = BitMatrix::new(2, 10);
    m.set(0, 1, true);
    m.set(0, 5, true);
    m.set(0, 9, true);
    assert_eq!(m.row_indices(0), vec![1, 5, 9]);
    assert!(m.row_indices(1).is_empty());
}

#[test]
fn out_of_bounds_safe() {
    let mut m = BitMatrix::new(2, 2);
    m.set(5, 5, true); // no-op
    assert!(!m.get(5, 5));
    assert_eq!(m.row_popcount(9), 0);
}
