use schist::minhash::MinHash;
use schist::numeric::{ArithOp, RealNeed, Reals};

fn told(f: &dyn Fn(&Reals) -> Result<u64, RealNeed>) -> f64 {
    let mut reals = Reals::new();
    loop {
        match f(&reals) {
            Ok(b) => return f64::from_bits(b),
            Err(RealNeed::Arith(op, a, b)) => {
                let (x, y) = (f64::from_bits(a), f64::from_bits(b));
                let z = match op {
                    ArithOp::Div => x / y,
                    ArithOp::Sub => x - y,
                    _ => panic!("unexpected need"),
                };
                reals.note_result(op, a, b, z.to_bits());
            }
            Err(_) => panic!("unexpected need"),
        }
    }
}

fn jaccard(a: &MinHash, b: &MinHash) -> f64 {
    told(&|r| a.jaccard(b, r))
}

fn sketch_of(range: std::ops::Range<i64>, k: usize) -> MinHash {
    let mut m = MinHash::new(k);
    for i in range {
        m.add_i64(i);
    }
    m
}

#[test]
fn identical_sets_similar() {
    let a = sketch_of(0..1000, 128);
    let b = sketch_of(0..1000, 128);
    assert!((jaccard(&a, &b) - 1.0).abs() < 0.001);
}

#[test]
fn disjoint_sets_dissimilar() {
    let a = sketch_of(0..1000, 128);
    let b = sketch_of(10_000..11_000, 128);
    assert!(jaccard(&a, &b) < 0.05);
}

#[test]
fn half_overlap_estimated() {
    // A = [0,1000), B = [500,1500): Jaccard = 500/1500 = 0.333.
    let a = sketch_of(0..1000, 256);
    let b = sketch_of(500..1500, 256);
    let est = jaccard(&a, &b);
    assert!((est - 0.333).abs() < 0.1, "estimate {est}");
}

#[test]
fn merge_is_union() {
    let mut a = sketch_of(0..500, 128);
    let b = sketch_of(500..1000, 128);
    assert!(a.merge(&b));
    let full = sketch_of(0..1000, 128);
    // Merged signature should match the union's signature.
    assert!((jaccard(&a, &full) - 1.0).abs() < 0.001);
}

#[test]
fn minhash_byte_elements() {
    let mut a = MinHash::new(64);
    let mut b = MinHash::new(64);
    for w in ["apple", "banana", "cherry"] {
        a.add_bytes(w.as_bytes());
    }
    for w in ["banana", "cherry", "date"] {
        b.add_bytes(w.as_bytes());
    }
    // Jaccard of {a,b,c} and {b,c,d} = 2/4 = 0.5.
    let est = jaccard(&a, &b);
    assert!(est > 0.2 && est < 0.8, "estimate {est}");
}

#[test]
fn sketches_of_other_sizes_do_not_compare() {
    let a = sketch_of(0..10, 64);
    let b = sketch_of(0..10, 128);
    assert_eq!(jaccard(&a, &b), 0.0);
    assert_eq!(a.agreement(&b), (0, 64));
}
