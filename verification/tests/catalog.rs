use schist::catalog::{Catalog, CatalogError, ColumnDef, IndexKind};
use schist::schema::ColKind;

fn sample() -> Catalog {
    let mut c = Catalog::new();
    c.create_table(
        "users",
        vec![
            ColumnDef::new("id", ColKind::Int).primary_key(),
            ColumnDef::new("name", ColKind::Text),
            ColumnDef::new("age", ColKind::Int),
        ],
    )
    .unwrap();
    c
}

#[test]
fn create_and_lookup_table() {
    let c = sample();
    let t = c.table("users").unwrap();
    assert_eq!(t.columns.len(), 3);
    assert_eq!(t.primary_key_columns(), vec![0]);
    assert_eq!(t.column_index("age"), Some(2));
}

#[test]
fn duplicate_table_rejected() {
    let mut c = sample();
    assert_eq!(
        c.create_table("users", vec![]),
        Err(CatalogError::DuplicateName("users".to_string()))
    );
}

#[test]
fn index_lifecycle() {
    let mut c = sample();
    c.create_index("idx_age", "users", &["age"], IndexKind::BTree, false)
        .unwrap();
    assert_eq!(c.indexes_on("users").len(), 1);
    // Cannot drop a table with a dependent index.
    assert!(matches!(
        c.drop_table("users"),
        Err(CatalogError::DependencyExists { .. })
    ));
    c.drop_index("idx_age").unwrap();
    assert!(c.drop_table("users").is_ok());
}

#[test]
fn index_unknown_column() {
    let mut c = sample();
    assert!(matches!(
        c.create_index("bad", "users", &["nope"], IndexKind::Hash, false),
        Err(CatalogError::UnknownColumn { .. })
    ));
}

#[test]
fn sequences_advance() {
    let mut c = Catalog::new();
    c.create_sequence("s", 100, 5).unwrap();
    assert_eq!(c.next_sequence_value("s"), Some(100));
    assert_eq!(c.next_sequence_value("s"), Some(105));
    assert_eq!(c.next_sequence_value("missing"), None);
}

#[test]
fn views_and_counts() {
    let mut c = sample();
    c.create_view("adults", "select * from users where age >= 18")
        .unwrap();
    assert!(c.view("adults").is_some());
    assert_eq!(c.object_counts(), (1, 0, 0, 1));
}

#[test]
fn no_id_is_given_twice() {
    let mut c = sample();
    let first = c.table("users").unwrap().id;
    let index = c.create_index("idx_age", "users", &["age"], IndexKind::BTree, false).unwrap();
    c.drop_index("idx_age").unwrap();
    c.drop_table("users").unwrap();
    let again = c.create_table("users", vec![ColumnDef::new("id", ColKind::Int)]).unwrap();
    let view = c.create_view("v", "select").unwrap();
    assert!(first < index && index < again && again < view);
    assert!(c.table_by_id(first).is_none());
    assert_eq!(c.table_by_id(again).unwrap().name, "users");
}
