use schist::database::Database;
use schist::mutation::{read_row_cell, insert, delete_where};
use schist::value::Value;
use schist::schema::{ColKind, Column, Encoding, Schema};

fn int_db() -> Database {
    let mut cols = vec![Column::row_id()];
    cols.push(Column::new("x", ColKind::Int, Encoding::Plain));
    Database::new(Schema::new(cols))
}

#[test]
fn insert_then_read() {
    let mut db = int_db();
    let id = insert(&mut db, &[Value::Int(0), Value::Int(42)]).unwrap();
    assert_eq!(id, 1);
    assert_eq!(read_row_cell(&db, id, 1), Some(Value::Int(42)));
}

#[test]
fn delete_tombstones() {
    let mut db = int_db();
    let a = insert(&mut db, &[Value::Int(0), Value::Int(1)]).unwrap();
    let b = insert(&mut db, &[Value::Int(0), Value::Int(2)]).unwrap();
    let n = delete_where(&mut db, 1, schist::value::CmpOp::Eq, Value::Int(1)).unwrap();
    assert_eq!(n, 1);
    assert!(db.rowid_map.get(a).is_none());
    assert!(db.rowid_map.get(b).is_some());
}

#[test]
fn an_index_can_be_changed_in_place() {
    let mut cols = vec![Column::row_id()];
    let mut x = Column::new("x", ColKind::Int, Encoding::Plain);
    x.index_page = Some(9);
    cols.push(x);
    let mut db = Database::new(Schema::new(cols));
    db.index_of_mut(1).unwrap().add_or_append(3, 0, 0, 7);
    assert_eq!(db.index_of(1).unwrap().all_rows(), vec![7]);
    assert!(db.index_of_mut(0).is_none());
    assert!(db.index_of_mut(9).is_none());
}

#[test]
fn a_row_of_another_length_changes_nothing() {
    let mut db = int_db();
    let before = db.next_row_id;
    assert!(insert(&mut db, &[Value::Int(0)]).is_err());
    assert!(insert(&mut db, &[Value::Int(0), Value::Int(1), Value::Int(2)]).is_err());
    assert_eq!(db.next_row_id, before);
    assert_eq!(db.pager.count(), 0);
    assert_eq!(insert(&mut db, &[Value::Int(0), Value::Int(1)]).unwrap(), before);
}
