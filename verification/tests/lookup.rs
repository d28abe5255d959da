use schist::compact::compact;
use schist::database::Database;
use schist::format::{decode, encode_database};
use schist::mutation::{collect_matching, delete_where, insert, intern_text, update_where};
use schist::query::{index_scan, scan_all, scan_where, Row};
use schist::schema::{ColKind, Column, Encoding, Schema};
use schist::value::{CmpOp, Value};

fn text_column(name: &str, encoding: Encoding, page: u32) -> Column {
    let mut c = Column::new(name, ColKind::Text, encoding);
    c.index_page = Some(page);
    c
}

// Two indexed text columns, each with a dictionary page of its own.
fn people() -> (Database, [u32; 3], [u32; 2]) {
    let mut db = Database::new(Schema::new(vec![
        Column::row_id(),
        text_column("name", Encoding::Plain, 90),
        Column::new("age", ColKind::Int, Encoding::Plain),
        text_column("town", Encoding::Dictionary, 91),
    ]));
    let ann = intern_text(&mut db, 1, b"ann").unwrap();
    let rome = intern_text(&mut db, 3, b"rome").unwrap();
    insert(&mut db, &[Value::Int(0), Value::Text(ann), Value::Int(1), Value::Text(rome)]).unwrap();
    let bob = intern_text(&mut db, 1, b"bob").unwrap();
    let cat = intern_text(&mut db, 1, b"a name that makes the page of the words grow beyond its first size").unwrap();
    let oslo = intern_text(&mut db, 3, b"oslo").unwrap();
    let names = [ann, bob, cat];
    let towns = [rome, oslo];
    for i in 1..9usize {
        let row = [
            Value::Int(0),
            Value::Text(names[i % 3]),
            Value::Int(i as i64 + 1),
            Value::Text(towns[i % 2]),
        ];
        insert(&mut db, &row).unwrap();
    }
    (db, names, towns)
}

fn ids(rows: &[Row]) -> Vec<u64> {
    rows.iter().map(|r| r.id).collect()
}

fn scanned(db: &mut Database, col: usize, v: Value) -> Vec<u64> {
    let mut out: Vec<u64> = scan_all(db).iter().filter(|r| r.values[col] == v).map(|r| r.id).collect();
    out.sort();
    out
}

fn same_everywhere(db: &mut Database, names: &[u32], towns: &[u32]) {
    for n in names {
        let v = Value::Text(*n);
        let want = scanned(db, 1, v);
        assert_eq!(ids(&index_scan(db, 1, v).unwrap()), want);
        assert_eq!(ids(&scan_where(db, 1, CmpOp::Eq, v).unwrap()), want);
        assert_eq!(collect_matching(db, 1, CmpOp::Eq, v).unwrap(), want);
    }
    for t in towns {
        let v = Value::Text(*t);
        let want = scanned(db, 3, v);
        assert_eq!(ids(&index_scan(db, 3, v).unwrap()), want);
        assert_eq!(ids(&scan_where(db, 3, CmpOp::Eq, v).unwrap()), want);
        assert_eq!(collect_matching(db, 3, CmpOp::Eq, v).unwrap(), want);
    }
}

#[test]
fn an_index_scan_finds_the_rows_of_its_own_column() {
    let (mut db, names, towns) = people();
    assert_eq!(ids(&index_scan(&mut db, 1, Value::Text(names[0])).unwrap()), vec![1, 4, 7]);
    assert_eq!(ids(&index_scan(&mut db, 1, Value::Text(names[1])).unwrap()), vec![2, 5, 8]);
    assert_eq!(ids(&index_scan(&mut db, 1, Value::Text(names[2])).unwrap()), vec![3, 6, 9]);
    assert_eq!(ids(&index_scan(&mut db, 3, Value::Text(towns[0])).unwrap()), vec![1, 3, 5, 7, 9]);
    assert_eq!(ids(&index_scan(&mut db, 3, Value::Text(towns[1])).unwrap()), vec![2, 4, 6, 8]);
    let rows = index_scan(&mut db, 3, Value::Text(towns[1])).unwrap();
    assert_eq!(
        rows[1].values,
        vec![Value::Int(4), Value::Text(names[0]), Value::Int(4), Value::Text(towns[1])]
    );
    assert_ne!(db.index_of(1).unwrap().dict_page, db.index_of(3).unwrap().dict_page);
    same_everywhere(&mut db, &names, &towns);
}

#[test]
fn an_update_moves_rows_between_the_values_of_an_index() {
    let (mut db, names, towns) = people();
    let n = update_where(&mut db, 1, Value::Text(names[0]), 3, CmpOp::Eq, Value::Text(towns[1])).unwrap();
    assert_eq!(n, 4);
    assert_eq!(ids(&index_scan(&mut db, 1, Value::Text(names[0])).unwrap()), vec![1, 2, 4, 6, 7, 8]);
    assert_eq!(ids(&index_scan(&mut db, 1, Value::Text(names[1])).unwrap()), vec![5]);
    assert_eq!(ids(&index_scan(&mut db, 1, Value::Text(names[2])).unwrap()), vec![3, 9]);
    assert_eq!(ids(&index_scan(&mut db, 3, Value::Text(towns[1])).unwrap()), vec![2, 4, 6, 8]);
    same_everywhere(&mut db, &names, &towns);
}

#[test]
fn a_delete_takes_rows_out_of_every_index() {
    let (mut db, names, towns) = people();
    assert_eq!(delete_where(&mut db, 1, CmpOp::Eq, Value::Text(names[1])).unwrap(), 3);
    assert_eq!(index_scan(&mut db, 1, Value::Text(names[1])).unwrap().len(), 0);
    assert_eq!(ids(&index_scan(&mut db, 3, Value::Text(towns[0])).unwrap()), vec![1, 3, 7, 9]);
    assert_eq!(ids(&index_scan(&mut db, 3, Value::Text(towns[1])).unwrap()), vec![4, 6]);
    same_everywhere(&mut db, &names, &towns);
}

#[test]
fn interning_and_compaction_leave_the_indexes_in_order() {
    let (mut db, names, towns) = people();
    delete_where(&mut db, 2, CmpOp::Lt, Value::Int(4)).unwrap();
    compact(&mut db).unwrap();
    same_everywhere(&mut db, &names, &towns);
    for i in 0..40u32 {
        let word = format!("one more word, number {}", i);
        intern_text(&mut db, 1, word.as_bytes()).unwrap();
    }
    same_everywhere(&mut db, &names, &towns);
    assert_eq!(intern_text(&mut db, 1, b"bob").unwrap(), names[1]);
}

#[test]
fn a_stored_index_answers_when_it_is_read_again() {
    let (db, names, towns) = people();
    let mut back = decode(&encode_database(&db)).unwrap();
    assert_eq!(ids(&index_scan(&mut back, 1, Value::Text(names[2])).unwrap()), vec![3, 6, 9]);
    same_everywhere(&mut back, &names, &towns);
}

#[test]
fn an_index_keeps_row_ids_ascending() {
    let (mut db, names, towns) = people();
    for id in [40i64, 20, 30] {
        insert(&mut db, &[Value::Int(id), Value::Text(names[1]), Value::Int(0), Value::Text(towns[0])]).unwrap();
    }
    assert_eq!(
        ids(&index_scan(&mut db, 1, Value::Text(names[1])).unwrap()),
        vec![2, 5, 8, 20, 30, 40]
    );
    same_everywhere(&mut db, &names, &towns);
}

#[test]
fn an_index_scan_reports_what_is_missing() {
    let (mut db, _, _) = people();
    assert!(index_scan(&mut db, 2, Value::Int(1)).is_err());
    assert!(index_scan(&mut db, 1, Value::Text(77)).is_err());
    assert!(index_scan(&mut db, 9, Value::Text(0)).is_err());
}

#[test]
fn a_filtered_scan_gives_the_rows_that_meet_the_comparison() {
    let (mut db, names, towns) = people();
    assert_eq!(ids(&scan_where(&mut db, 2, CmpOp::Gt, Value::Int(6)).unwrap()), vec![7, 8, 9]);
    assert_eq!(ids(&scan_where(&mut db, 2, CmpOp::Ne, Value::Int(2)).unwrap()), vec![1, 3, 4, 5, 6, 7, 8, 9]);
    assert_eq!(ids(&scan_where(&mut db, 1, CmpOp::Ne, Value::Text(names[0])).unwrap()), vec![2, 3, 5, 6, 8, 9]);
    let point = scan_where(&mut db, 0, CmpOp::Eq, Value::Int(4)).unwrap();
    assert_eq!(ids(&point), vec![4]);
    assert_eq!(
        point[0].values,
        vec![Value::Int(4), Value::Text(names[0]), Value::Int(4), Value::Text(towns[1])]
    );
    assert!(scan_where(&mut db, 0, CmpOp::Eq, Value::Int(44)).unwrap().is_empty());
}

#[test]
fn a_delete_leaves_the_rows_that_do_not_meet_the_comparison() {
    let (mut db, _, _) = people();
    assert_eq!(delete_where(&mut db, 2, CmpOp::Ge, Value::Int(4)).unwrap(), 6);
    let mut left = ids(&scan_all(&mut db));
    left.sort();
    assert_eq!(left, vec![1, 2, 3]);
}

#[test]
fn an_insert_widens_the_zone_of_its_page() {
    let mut db = Database::new(Schema::new(vec![
        Column::row_id(),
        Column::new("n", ColKind::Int, Encoding::Plain),
    ]));
    for n in [5i64, -3, 9, 0] {
        insert(&mut db, &[Value::Int(0), Value::Int(n)]).unwrap();
    }
    let (page, _) = db.rowid_map.get(1).unwrap();
    let z = db.zone_maps[1].get(page).unwrap();
    assert_eq!((z.min, z.max, z.live_rows), (Value::Int(-3), Value::Int(9), 4));
}
