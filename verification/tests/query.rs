use schist::database::Database;
use schist::query::{scan_all, scan_where, aggregate};
use schist::mutation::insert;
use schist::value::{CmpOp, Value};
use schist::schema::{ColKind, Column, Encoding, Schema};

fn int_db() -> Database {
    let mut cols = vec![Column::row_id()];
    cols.push(Column::new("x", ColKind::Int, Encoding::Plain));
    Database::new(Schema::new(cols))
}

#[test]
fn scan_all_returns_inserted_rows() {
    let mut db = int_db();
    insert(&mut db, &[Value::Int(0), Value::Int(10)]).unwrap();
    insert(&mut db, &[Value::Int(0), Value::Int(20)]).unwrap();
    let rows = scan_all(&mut db);
    assert_eq!(rows.len(), 2);
    assert_eq!(rows[0].values[1], Value::Int(10));
}

#[test]
fn point_lookup_uses_fast_path() {
    let mut db = int_db();
    let id = insert(&mut db, &[Value::Int(0), Value::Int(7)]).unwrap();
    let rows = scan_where(&mut db, 0, CmpOp::Eq, Value::Int(id as i64)).unwrap();
    assert_eq!(rows.len(), 1);
    assert_eq!(rows[0].values[1], Value::Int(7));
}

#[test]
fn aggregate_counts_and_sums() {
    let mut db = int_db();
    insert(&mut db, &[Value::Int(0), Value::Int(3)]).unwrap();
    insert(&mut db, &[Value::Int(0), Value::Int(5)]).unwrap();
    let agg = aggregate(&mut db, 1);
    assert_eq!(agg.count, 2);
    assert_eq!(agg.sum, 8);
    assert_eq!(agg.min, Some(Value::Int(3)));
    assert_eq!(agg.max, Some(Value::Int(5)));
}
