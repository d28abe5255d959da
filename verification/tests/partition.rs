use schist::partition::{copartition, partition_of, Partitioner};
use schist::numeric::{ArithOp, RealNeed, Reals};

fn told(f: &dyn Fn(&Reals) -> Result<u64, RealNeed>) -> f64 {
    let mut reals = Reals::new();
    loop {
        match f(&reals) {
            Ok(b) => return f64::from_bits(b),
            Err(RealNeed::Arith(op, a, b)) => {
                let (x, y) = (f64::from_bits(a), f64::from_bits(b));
                let z = match op {
                    ArithOp::Div => x / y,
                    ArithOp::Sub => x - y,
                    _ => panic!("unexpected need"),
                };
                reals.note_result(op, a, b, z.to_bits());
            }
            Err(_) => panic!("unexpected need"),
        }
    }
}

fn skew(p: &Partitioner) -> f64 {
    told(&|r| p.skew(r))
}

#[test]
fn partition_is_stable() {
    assert_eq!(partition_of(42, 16), partition_of(42, 16));
}

#[test]
fn rounds_up_to_power_of_two() {
    let p = Partitioner::new(6);
    assert_eq!(p.partition_count(), 8);
}

#[test]
fn distributes_keys() {
    let mut p = Partitioner::new(8);
    let keys: Vec<i64> = (0..800).collect();
    p.push_keys(&keys);
    assert_eq!(p.total(), 800);
    let hist = p.histogram();
    assert_eq!(hist.iter().sum::<usize>(), 800);
    // Reasonably even.
    assert!(skew(&p) < 1.5, "skew {}", skew(&p));
}

#[test]
fn equal_keys_same_partition() {
    let mut p = Partitioner::new(8);
    p.push(1234, 0);
    p.push(1234, 1);
    let counts: Vec<usize> = p.histogram().iter().filter(|&&c| c > 0).copied().collect();
    assert_eq!(counts, vec![2]);
}

#[test]
fn copartition_aligns_keys() {
    let left = vec![1, 2, 3, 4];
    let right = vec![3, 4, 5, 6];
    let (lp, rp) = copartition(&left, &right, 8);
    // Key 3 appears in left[2] and right[0]; they must share a partition.
    let p3 = partition_of(3, 8);
    assert!(lp[p3].contains(&2));
    assert!(rp[p3].contains(&0));
}

#[test]
fn empty_skew_is_zero() {
    let p = Partitioner::new(4);
    assert_eq!(skew(&p), 0.0);
}

#[test]
fn skew_of_one_key() {
    let mut p = Partitioner::new(4);
    p.push(7, 0);
    p.push(7, 1);
    assert_eq!(skew(&p), 4.0);
}
