use schist::numeric::RealTexts;
use schist::pretty::{render_expanded, render_table, truncate, value_to_string, RenderOptions};
use schist::value::Value;

fn texts() -> RealTexts {
    let mut t = RealTexts::new();
    t.note(2.0f64.to_bits(), "2.0");
    t
}

#[test]
fn renders_aligned_table() {
    let headers = vec!["id".to_string(), "name".to_string()];
    let rows = vec![
        vec![Value::Int(1), Value::Text(0)],
        vec![Value::Int(100), Value::Text(1)],
    ];
    let table = render_table(&headers, &rows, &RenderOptions::default(), &texts());
    // Every rendered line should have the same length.
    let lens: Vec<usize> = table.lines().map(|l| l.chars().count()).collect();
    assert!(lens.windows(2).all(|w| w[0] == w[1]));
    assert!(table.contains("id"));
}

#[test]
fn nulls_and_numbers() {
    let headers = vec!["v".to_string()];
    let rows = vec![vec![Value::Null], vec![Value::Int(-5)], vec![Value::Real(2.0f64.to_bits())]];
    let table = render_table(&headers, &rows, &RenderOptions::default(), &texts());
    assert!(table.contains("NULL"));
    assert!(table.contains("2.0"));
}

#[test]
fn truncates_wide_cells() {
    let headers = vec!["x".to_string()];
    let long = "a".repeat(100);
    // Build a text value; render via value_to_string won't be long, so test
    // truncate directly.
    assert_eq!(truncate(&long, 5).chars().count(), 5);
    assert!(truncate(&long, 5).ends_with('…'));
    let _ = headers;
}

#[test]
fn expanded_layout() {
    let headers = vec!["a".to_string(), "bb".to_string()];
    let rows = vec![vec![Value::Int(1), Value::Null]];
    let out = render_expanded(&headers, &rows, "NULL", &texts());
    assert!(out.contains("row 1"));
    assert!(out.contains("bb"));
    assert!(out.contains("NULL"));
}

#[test]
fn empty_headers() {
    assert_eq!(render_table(&[], &[], &RenderOptions::default(), &texts()), "");
}

#[test]
fn table_is_drawn() {
    let headers = vec!["id".to_string()];
    let rows = vec![vec![Value::Int(7)]];
    let out = render_table(&headers, &rows, &RenderOptions::default(), &texts());
    assert_eq!(out, "+----+\n| id |\n+----+\n|  7 |\n+----+\n");
    assert_eq!(value_to_string(&Value::Text(3), "-", &texts()), "#3");
}
