use schist::diag::{dump_rows, summary};
use schist::mutation::insert;
use schist::numeric::RealTexts;
use schist::schema::{ColKind, Column, Encoding, Schema};
use schist::value::Value;
use schist::Database;

#[test]
fn summary_and_dump() {
    let mut db = Database::new(Schema::new(vec![
        Column::row_id(),
        Column::new("x", ColKind::Int, Encoding::Plain),
    ]));
    insert(&mut db, &[Value::Int(0), Value::Int(5)]).unwrap();
    let s = summary(&db);
    assert!(s.contains("1 rows"));
    let rows = dump_rows(&mut db, &RealTexts::new());
    assert_eq!(rows.len(), 1);
    assert!(rows[0].contains("5"));
}
