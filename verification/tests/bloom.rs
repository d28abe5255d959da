use schist::bloom::{Bloom, CountingBloom};

/// The filter that holds `expected` keys at the false positive rate `fpr`.
fn sized(expected: usize, fpr: f64) -> Bloom {
    let expected = expected.max(1);
    let fpr = fpr.clamp(1e-6, 0.5);
    let ln2 = std::f64::consts::LN_2;
    let m = (-(expected as f64) * fpr.ln() / (ln2 * ln2)).ceil() as usize;
    let m = m.max(64);
    let k = ((m as f64 / expected as f64) * ln2).round().max(1.0) as u32;
    Bloom::new(m, k)
}

fn counting(expected: usize, fpr: f64) -> CountingBloom {
    CountingBloom::sized_like(&sized(expected, fpr))
}

#[test]
fn no_false_negatives() {
    let mut b = sized(1000, 0.01);
    for i in 0..1000i64 {
        b.insert_i64(i * 7);
    }
    for i in 0..1000i64 {
        assert!(b.contains_i64(i * 7), "missing {i}");
    }
}

#[test]
fn fpr_is_reasonable() {
    let mut b = sized(2000, 0.01);
    for i in 0..2000i64 {
        b.insert_i64(i);
    }
    let mut fp = 0;
    for i in 10_000i64..12_000 {
        if b.contains_i64(i) {
            fp += 1;
        }
    }
    // Allow generous slack over the 1% target.
    assert!(fp < 100, "false positive rate too high: {fp}/2000");
}

#[test]
fn bytes_membership() {
    let mut b = sized(16, 0.01);
    b.insert_bytes(b"alpha");
    b.insert_bytes(b"beta");
    assert!(b.contains_bytes(b"alpha"));
    assert!(b.contains_bytes(b"beta"));
}

#[test]
fn encode_decode_roundtrip() {
    let mut b = sized(64, 0.02);
    for i in 0..64i64 {
        b.insert_i64(i);
    }
    let bytes = b.encode();
    let b2 = Bloom::decode(&bytes).unwrap();
    assert_eq!(b, b2);
}

#[test]
fn union_merges() {
    let mut a = Bloom::new(1024, 4);
    let mut b = Bloom::new(1024, 4);
    a.insert(1);
    b.insert(2);
    assert!(a.union(&b));
    assert!(a.contains(1));
    assert!(a.contains(2));
}

#[test]
fn counting_remove() {
    let mut c = counting(100, 0.01);
    c.insert(42);
    assert!(c.contains(42));
    c.remove(42);
    assert!(!c.contains(42));
}
