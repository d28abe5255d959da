use schist::analyze::{profile_array, profile_batch, sketch_array, ColumnProfile};
use schist::array::{Array, RecordBatch};
use schist::numeric::{ArithOp, RealNeed, Reals};
use schist::schema::ColKind;
use schist::value::Value;

/// The cardinality that the registers of a sketch stand for.
fn estimate(array: &Array) -> u64 {
    let sketch = sketch_array(array);
    let registers = sketch.registers();
    let m = registers.len() as f64;
    let alpha = 0.7213 / (1.0 + 1.079 / m);
    let sum: f64 = registers.iter().map(|r| 2f64.powi(-(*r as i32))).sum();
    let raw = alpha * m * m / sum;
    let zeros = registers.iter().filter(|r| **r == 0).count();
    let e = if raw <= 2.5 * m && zeros > 0 { m * (m / zeros as f64).ln() } else { raw };
    e.round() as u64
}

fn profile(array: &Array) -> ColumnProfile {
    profile_array(array, estimate(array))
}

fn told(f: &dyn Fn(&Reals) -> Result<u64, RealNeed>) -> f64 {
    let mut reals = Reals::new();
    loop {
        match f(&reals) {
            Ok(b) => return f64::from_bits(b),
            Err(RealNeed::Arith(ArithOp::Div, a, b)) => {
                let q = f64::from_bits(a) / f64::from_bits(b);
                reals.note_result(ArithOp::Div, a, b, q.to_bits());
            }
            Err(_) => panic!("unexpected need"),
        }
    }
}

#[test]
fn profiles_integer_column() {
    let mut values = Vec::new();
    for i in 0..1000i64 {
        values.push(Value::Int(i % 100));
    }
    let arr = Array::from_values(ColKind::Int, &values);
    let p = profile(&arr);
    assert_eq!(p.row_count, 1000);
    assert_eq!(p.null_count, 0);
    assert_eq!(p.min, Some(Value::Int(0)));
    assert_eq!(p.max, Some(Value::Int(99)));
    // ~100 distinct.
    assert!((p.distinct_estimate as i64 - 100).abs() < 20, "ndv {}", p.distinct_estimate);
    assert!(!p.histogram.is_empty());
}

#[test]
fn counts_nulls() {
    let values = vec![Value::Int(1), Value::Null, Value::Int(3), Value::Null];
    let arr = Array::from_values(ColKind::Int, &values);
    let p = profile(&arr);
    assert_eq!(p.null_count, 2);
    assert_eq!(told(&|r| p.null_fraction(r)), 0.5);
}

#[test]
fn distinct_selectivity() {
    let values: Vec<Value> = (0..400).map(|i| Value::Int(i % 4)).collect();
    let arr = Array::from_values(ColKind::Int, &values);
    let p = profile(&arr);
    // 4 distinct → selectivity ~0.25, avg 100 rows/value.
    assert!((told(&|r| p.equality_selectivity(r)) - 0.25).abs() < 0.1);
    assert!(told(&|r| p.avg_rows_per_value(r)) > 50.0);
}

#[test]
fn histogram_is_monotone() {
    let values: Vec<Value> = (0..1000).map(Value::Int).collect();
    let arr = Array::from_values(ColKind::Int, &values);
    let p = profile(&arr);
    for w in p.histogram.windows(2) {
        assert!(w[0] <= w[1]);
    }
}

#[test]
fn profiles_batch() {
    let a = Array::from_values(ColKind::Int, &[Value::Int(1), Value::Int(2)]);
    let b = Array::from_values(ColKind::Bool, &[Value::Bool(true), Value::Bool(false)]);
    let estimates = [estimate(&a), estimate(&b)];
    let batch = RecordBatch::new(vec![("n".into(), a), ("b".into(), b)]);
    let profiles = profile_batch(&batch, &estimates);
    assert_eq!(profiles.len(), 2);
    assert_eq!(profiles[0].0, "n");
    assert_eq!(profiles[1].1.kind, ColKind::Bool);
}

#[test]
fn histogram_of_a_short_column() {
    let values: Vec<Value> = (0..9).map(|i| Value::Int(10 * i)).collect();
    let p = profile(&Array::from_values(ColKind::Int, &values));
    assert_eq!(p.histogram, vec![0, 10, 20, 30, 40, 50, 60, 70, 80]);
    let same = profile(&Array::from_values(ColKind::Int, &[Value::Int(5), Value::Int(5)]));
    assert_eq!(same.histogram, vec![5]);
    assert_eq!(same.distinct_estimate, 1);
}

#[test]
fn empty_column() {
    let p = profile(&Array::from_values(ColKind::Int, &[]));
    assert_eq!((p.row_count, p.distinct_estimate, p.min, p.max), (0, 0, None, None));
    assert!(p.histogram.is_empty());
    assert_eq!(told(&|r| p.equality_selectivity(r)), 1.0);
}
