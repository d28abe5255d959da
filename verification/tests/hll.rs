use schist::hll::HyperLogLog;

/// The cardinality that the registers stand for.
fn estimate(hll: &HyperLogLog) -> f64 {
    let m = hll.register_count() as f64;
    let alpha = match hll.register_count() {
        16 => 0.673,
        32 => 0.697,
        64 => 0.709,
        _ => 0.7213 / (1.0 + 1.079 / m),
    };
    let mut sum = 0.0;
    let mut zeros = 0usize;
    for &r in hll.registers() {
        sum += 2f64.powi(-(r as i32));
        if r == 0 {
            zeros += 1;
        }
    }
    let raw = alpha * m * m / sum;
    if raw <= 2.5 * m && zeros != 0 {
        return m * (m / zeros as f64).ln();
    }
    raw
}

#[test]
fn estimates_small_exact() {
    let mut hll = HyperLogLog::new(14);
    for i in 0..100i64 {
        hll.add_i64(i);
    }
    let est = estimate(&hll);
    assert!((est - 100.0).abs() < 5.0, "estimate {est}");
}

#[test]
fn estimates_large_within_error() {
    let mut hll = HyperLogLog::new(14);
    let n = 100_000i64;
    for i in 0..n {
        hll.add_i64(i.wrapping_mul(2654435761));
    }
    let est = estimate(&hll);
    let err = (est - n as f64).abs() / n as f64;
    assert!(err < 0.05, "relative error {err} (est {est})");
}

#[test]
fn duplicates_do_not_inflate() {
    let mut hll = HyperLogLog::new(12);
    for _ in 0..1000 {
        hll.add_i64(42);
    }
    assert!(estimate(&hll) < 5.0);
}

#[test]
fn merge_unions_cardinality() {
    let mut a = HyperLogLog::new(12);
    let mut b = HyperLogLog::new(12);
    for i in 0..5000i64 {
        a.add_i64(i);
    }
    for i in 4000..9000i64 {
        b.add_i64(i);
    }
    assert!(a.merge(&b));
    let est = estimate(&a);
    // Union has 9000 distinct.
    let err = (est - 9000.0).abs() / 9000.0;
    assert!(err < 0.06, "relative error {err}");
}

#[test]
fn for_error_sizes_registers() {
    let hll = HyperLogLog::for_registers((1.04f64 / 0.01).powi(2).ceil() as usize);
    assert!(hll.register_count() >= 4096);
}

#[test]
fn hll_byte_elements() {
    let mut hll = HyperLogLog::new(12);
    for i in 0..500 {
        hll.add_bytes(format!("item-{i}").as_bytes());
    }
    let est = estimate(&hll);
    assert!((est - 500.0).abs() < 40.0, "estimate {est}");
}
