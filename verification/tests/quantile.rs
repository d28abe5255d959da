use schist::quantile::{merge_sorted, QuantileSketch, Reservoir};

fn quantile(r: &Reservoir, q: f64) -> Option<i64> {
    let n = r.samples().len();
    if n == 0 {
        return None;
    }
    r.order_statistic(((n - 1) as f64 * q.clamp(0.0, 1.0)).round() as usize)
}

#[test]
fn reservoir_fills_and_bounds() {
    let mut r = Reservoir::new(100);
    for i in 0..10_000i64 {
        r.offer(i);
    }
    assert_eq!(r.samples().len(), 100);
    assert_eq!(r.count(), 10_000);
}

#[test]
fn reservoir_quantile_reasonable() {
    let mut r = Reservoir::with_seed(500, 99);
    for i in 0..10_000i64 {
        r.offer(i);
    }
    let median = quantile(&r, 0.5).unwrap();
    // Should be near 5000.
    assert!((median - 5000).abs() < 1500, "median {median}");
}

#[test]
fn sketch_exact_when_small() {
    let mut s = QuantileSketch::new(1000);
    for i in 0..=100i64 {
        s.add(i);
    }
    assert_eq!(s.min(), Some(0));
    assert_eq!(s.max(), Some(100));
    assert_eq!(s.median(), Some(50));
}

#[test]
fn sketch_quantiles_within_error() {
    let mut s = QuantileSketch::new(200);
    for i in 0..100_000i64 {
        s.add(i);
    }
    let p90 = quantile(s.reservoir(), 0.9).unwrap();
    let err = (p90 - 90_000).abs();
    // A 200-sample reservoir estimates a quantile to within a few percent.
    assert!(err < 6000, "p90 {p90}");
    assert_eq!(s.min(), Some(0));
    assert_eq!(s.max(), Some(99_999));
}

#[test]
fn merge_sorted_works() {
    assert_eq!(merge_sorted(&[1, 3, 5], &[2, 4, 6]), vec![1, 2, 3, 4, 5, 6]);
    assert_eq!(merge_sorted(&[], &[1, 2]), vec![1, 2]);
}
