use schist::compact::{compact, merge, repack, split};
use schist::database::Database;
use schist::format::{decode, encode_database};
use schist::mutation::{delete_where, insert, read_row_cell, update_where};
use schist::query::scan_all;
use schist::schema::{ColKind, Column, Encoding, Schema};
use schist::value::{CmpOp, Value};

fn two_columns() -> Database {
    Database::new(Schema::new(vec![
        Column::row_id(),
        Column::new("n", ColKind::Int, Encoding::Plain),
        Column::new("flag", ColKind::Bool, Encoding::Rle),
    ]))
}

fn filled(n: i64) -> (Database, Vec<u64>) {
    let mut db = two_columns();
    let mut ids = Vec::new();
    for i in 0..n {
        let row = [Value::Int(0), Value::Int(i * 10), Value::Bool(i % 3 == 0)];
        ids.push(insert(&mut db, &row).unwrap());
    }
    (db, ids)
}

fn cells(db: &Database, ids: &[u64]) -> Vec<(Option<Value>, Option<Value>)> {
    ids.iter().map(|id| (read_row_cell(db, *id, 1), read_row_cell(db, *id, 2))).collect()
}

fn scanned(db: &mut Database) -> Vec<(u64, i64)> {
    let mut rows: Vec<(u64, i64)> = scan_all(db)
        .iter()
        .map(|r| match r.values[1] {
            Value::Int(i) => (r.id, i),
            _ => panic!("the column holds integers"),
        })
        .collect();
    rows.sort();
    rows
}

#[test]
fn a_delete_leaves_the_other_rows_readable() {
    let (mut db, ids) = filled(12);
    let before = cells(&db, &ids);
    assert_eq!(delete_where(&mut db, 1, CmpOp::Lt, Value::Int(40)).unwrap(), 4);
    let after = cells(&db, &ids);
    for k in 0..12 {
        if k < 4 {
            assert_eq!(after[k], (None, None));
        } else {
            assert_eq!(after[k], before[k]);
        }
    }
}

#[test]
fn an_update_writes_the_matching_rows_only() {
    let (mut db, ids) = filled(12);
    let before = cells(&db, &ids);
    let n = update_where(&mut db, 1, Value::Int(-7), 1, CmpOp::Ge, Value::Int(90)).unwrap();
    assert_eq!(n, 3);
    let after = cells(&db, &ids);
    for k in 0..12 {
        if k < 9 {
            assert_eq!(after[k], before[k]);
        } else {
            assert_eq!(after[k], (Some(Value::Int(-7)), before[k].1));
        }
    }
    let n = update_where(&mut db, 2, Value::Bool(true), 1, CmpOp::Eq, Value::Int(10)).unwrap();
    assert_eq!(n, 1);
    assert_eq!(read_row_cell(&db, ids[1], 2), Some(Value::Bool(true)));
    assert_eq!(read_row_cell(&db, ids[2], 2), Some(Value::Bool(false)));
}

#[test]
fn a_split_moves_the_second_half_of_the_live_rows() {
    let (mut db, ids) = filled(7);
    delete_where(&mut db, 1, CmpOp::Eq, Value::Int(20)).unwrap();
    let before = cells(&db, &ids);
    let pages = db.pager.data_pages();
    assert_eq!(pages, vec![0]);
    split(&mut db, 0).unwrap();
    assert_eq!(db.pager.data_pages(), vec![0, 1]);
    let left: Vec<u64> = db.pager.get(0).unwrap().slots().iter().map(|s| s.row_id).collect();
    let right: Vec<u64> = db.pager.get(1).unwrap().slots().iter().map(|s| s.row_id).collect();
    assert_eq!(left, vec![ids[0], ids[1], ids[3]]);
    assert_eq!(right, vec![ids[4], ids[5], ids[6]]);
    assert_eq!(db.pager.get(0).unwrap().live_count(), 3);
    assert_eq!(cells(&db, &ids), before);
}

#[test]
fn a_split_of_three_rows_does_nothing() {
    let (mut db, ids) = filled(3);
    let before = cells(&db, &ids);
    split(&mut db, 0).unwrap();
    assert_eq!(db.pager.data_pages(), vec![0]);
    assert_eq!(cells(&db, &ids), before);
}

#[test]
fn a_merge_appends_the_live_rows_to_the_first_other_page() {
    let (mut db, ids) = filled(8);
    let before = cells(&db, &ids);
    split(&mut db, 0).unwrap();
    merge(&mut db, 1).unwrap();
    assert_eq!(db.pager.data_pages(), vec![0]);
    assert!(db.pager.get(1).is_none());
    let rows: Vec<u64> = db.pager.get(0).unwrap().slots().iter().map(|s| s.row_id).collect();
    assert_eq!(rows, ids);
    assert_eq!(cells(&db, &ids), before);
}

#[test]
fn a_repack_leaves_every_row_readable() {
    let (mut db, ids) = filled(9);
    delete_where(&mut db, 1, CmpOp::Lt, Value::Int(50)).unwrap();
    let before = cells(&db, &ids);
    repack(&mut db, 0).unwrap();
    assert_eq!(db.pager.get(0).unwrap().slot_count(), 4);
    assert_eq!(cells(&db, &ids), before);
}

#[test]
fn a_compaction_keeps_the_rows() {
    let (mut db, ids) = filled(60);
    delete_where(&mut db, 2, CmpOp::Eq, Value::Bool(true)).unwrap();
    let before = cells(&db, &ids);
    let rows = scanned(&mut db);
    let pages = db.pager.data_pages().len();
    let k = compact(&mut db).unwrap();
    assert!(k <= pages);
    assert_eq!(db.stats.compactions, 1);
    assert_eq!(cells(&db, &ids), before);
    assert_eq!(scanned(&mut db), rows);
    assert_eq!(rows.len(), 40);
}

#[test]
fn rows_are_readable_once_reopened() {
    let (mut db, ids) = filled(20);
    delete_where(&mut db, 1, CmpOp::Eq, Value::Int(50)).unwrap();
    let before = cells(&db, &ids);
    let again = decode(&encode_database(&db)).unwrap();
    assert_eq!(cells(&again, &ids), before);
}

#[test]
fn pages_that_can_be_read_are_split_merged_and_compacted() {
    let (mut db, ids) = filled(16);
    let before = cells(&db, &ids);
    assert!(split(&mut db, 0).is_ok());
    let pages = db.pager.data_pages();
    assert_eq!(pages.len(), 2);
    assert!(merge(&mut db, pages[1]).is_ok());
    assert_eq!(db.pager.data_pages().len(), 1);
    assert!(compact(&mut db).is_ok());
    assert_eq!(cells(&db, &ids), before);
}
