use schist::database::Database;
use schist::compact::{repack};
use schist::mutation::{insert, read_row_cell};
use schist::schema::{ColKind, Column, Encoding, Schema};
use schist::value::Value;

fn int_db() -> Database {
    let mut cols = vec![Column::row_id()];
    cols.push(Column::new("x", ColKind::Int, Encoding::Plain));
    Database::new(Schema::new(cols))
}

#[test]
fn repack_removes_tombstones_and_preserves_live_rows() {
    let mut db = int_db();
    let r1 = insert(&mut db, &[Value::Int(0), Value::Int(10)]).unwrap();
    let _r2 = insert(&mut db, &[Value::Int(0), Value::Int(20)]).unwrap();
    let _r3 = insert(&mut db, &[Value::Int(0), Value::Int(30)]).unwrap();
    // Delete the middle row to create a tombstone.
    schist::mutation::delete_where(&mut db, 1, schist::value::CmpOp::Eq, Value::Int(20)).unwrap();
    let page = db.pager.get(0).unwrap();
    assert_eq!(page.slot_count(), 3);
    repack(&mut db, 0).unwrap();
    let page = db.pager.get(0).unwrap();
    assert_eq!(page.slot_count(), 2, "tombstone should be removed");
    // r1 was at slot 0 and stays at slot 0, so the safe read still works.
    assert_eq!(read_row_cell(&db, r1, 1), Some(Value::Int(10)));
}
