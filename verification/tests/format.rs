use schist::database::Database;
use schist::body::{decode_body, encode_body, ColumnRegion, DataPageBody};
use schist::format::{decode, encode_database};
use schist::schema::{ColKind, Column, Encoding, Schema};

#[test]
fn empty_database_round_trips() {
    let mut cols = vec![Column::row_id()];
    cols.push(Column::new("x", ColKind::Int, Encoding::Plain));
    let db = Database::new(Schema::new(cols));
    let bytes = encode_database(&db);
    let db2 = decode(&bytes).unwrap();
    assert_eq!(db2.schema, db.schema);
    assert_eq!(db2.pager.count(), 0);
}

#[test]
fn body_round_trips() {
    let mut body = DataPageBody {
        num_rows: 2,
        regions: vec![ColumnRegion::new(ColKind::Int, Encoding::Plain)],
    };
    body.regions[0].data.extend_from_slice(&1i64.to_le_bytes());
    body.regions[0].data.extend_from_slice(&2i64.to_le_bytes());
    let bytes = encode_body(&body);
    let back = decode_body(&bytes).unwrap();
    assert_eq!(back.num_rows, 2);
    assert_eq!(back.regions.len(), 1);
    assert_eq!(back.regions[0].data.len(), 16);
}

#[test]
fn a_page_record_without_a_page_id_takes_the_next_one() {
    let mut db = Database::new(Schema::new(vec![
        Column::row_id(),
        Column::new("n", ColKind::Int, Encoding::Plain),
    ]));
    schist::mutation::insert(&mut db, &[schist::value::Value::Int(0), schist::value::Value::Int(5)]).unwrap();
    let mut bytes = encode_database(&db);
    let count = u32::from_le_bytes([bytes[12], bytes[13], bytes[14], bytes[15]]) as usize;
    for i in 0..count {
        let at = 16 + 17 * i;
        if bytes[at] == 1 {
            for k in 1..5 {
                bytes[at + k] = 0xff;
            }
        }
    }
    let back = decode(&bytes).unwrap();
    assert_eq!(back.pager.data_pages(), vec![0]);
    assert_eq!(schist::mutation::read_row_cell(&back, 1, 1), Some(schist::value::Value::Int(5)));
}
