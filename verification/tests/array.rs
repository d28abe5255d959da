use schist::array::{Array, ArrayBuilder, RecordBatch, Validity};
use schist::schema::ColKind;
use schist::value::Value;

#[test]
fn validity_push_and_query() {
    let mut v = Validity::all_valid(0);
    v.push(true);
    v.push(false);
    v.push(true);
    assert_eq!(v.len(), 3);
    assert!(v.get(0));
    assert!(!v.get(1));
    assert!(v.get(2));
    assert_eq!(v.null_count(), 1);
}

#[test]
fn validity_set_densifies() {
    let mut v = Validity::all_valid(4);
    assert!(v.all_set());
    v.set(2, false);
    assert!(!v.get(2));
    assert_eq!(v.null_count(), 1);
    v.set(2, true);
    assert!(v.all_set());
}

#[test]
fn int_array_stats() {
    let a = Array::from_values(ColKind::Int, &[Value::Int(3), Value::Null, Value::Int(5)]);
    if let Array::Int(ia) = &a {
        assert_eq!(ia.sum(), 8);
        assert_eq!(ia.min(), Some(3));
        assert_eq!(ia.max(), Some(5));
    } else {
        panic!("expected int array");
    }
    assert_eq!(a.null_count(), 1);
    assert_eq!(a.value(1), Value::Null);
}

#[test]
fn array_filter_and_take() {
    let a = Array::from_values(
        ColKind::Int,
        &[Value::Int(1), Value::Int(2), Value::Int(3), Value::Int(4)],
    );
    let f = a.filter(&[true, false, true, false]);
    assert_eq!(f.len(), 2);
    assert_eq!(f.value(0), Value::Int(1));
    assert_eq!(f.value(1), Value::Int(3));
    let t = a.take(&[3, 0, 9]);
    assert_eq!(t.value(0), Value::Int(4));
    assert_eq!(t.value(1), Value::Int(1));
    assert_eq!(t.value(2), Value::Null);
}

#[test]
fn record_batch_ops() {
    let a = Array::from_values(ColKind::Int, &[Value::Int(1), Value::Int(2)]);
    let b = Array::from_values(ColKind::Bool, &[Value::Bool(true), Value::Bool(false)]);
    let batch = RecordBatch::new(vec![("n".into(), a), ("b".into(), b)]);
    assert_eq!(batch.rows(), 2);
    assert_eq!(batch.width(), 2);
    assert_eq!(batch.row(0), vec![Value::Int(1), Value::Bool(true)]);
    let f = batch.filter(&[false, true]);
    assert_eq!(f.rows(), 1);
    assert_eq!(f.row(0), vec![Value::Int(2), Value::Bool(false)]);
}

#[test]
fn record_batch_concat() {
    let a = Array::from_values(ColKind::Int, &[Value::Int(1)]);
    let b = Array::from_values(ColKind::Int, &[Value::Int(2)]);
    let ba = RecordBatch::new(vec![("n".into(), a)]);
    let bb = RecordBatch::new(vec![("n".into(), b)]);
    let c = ba.concat(&bb);
    assert_eq!(c.rows(), 2);
    assert_eq!(c.row(1), vec![Value::Int(2)]);
}

#[test]
fn builder_keeps_nulls() {
    let mut b = ArrayBuilder::new(ColKind::Int);
    b.push(Value::Int(4));
    b.push_null();
    b.push(Value::Text(3));
    let a = b.finish();
    assert_eq!(a.to_values(), vec![Value::Int(4), Value::Null, Value::Null]);
}

#[test]
fn validity_meets() {
    let a = Validity::from_bools(&[true, true, false, false]);
    let b = Validity::from_bools(&[true, false, true, false]);
    assert_eq!(a.and(&b).iter(), vec![true, false, false, false]);
    assert_eq!(Validity::all_null(3).null_count(), 3);
}

#[test]
fn slice_stops_at_the_end() {
    let a = Array::from_values(ColKind::Int, &[Value::Int(1), Value::Int(2), Value::Int(3)]);
    assert_eq!(a.slice(1, 2).to_values(), vec![Value::Int(2), Value::Int(3)]);
}
