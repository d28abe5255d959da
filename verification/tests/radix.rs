use schist::radix::{RadixTree};

#[test]
fn insert_and_get() {
    let mut t = RadixTree::new();
    assert_eq!(t.insert_str("apple", 1), None);
    assert_eq!(t.insert_str("app", 2), None);
    assert_eq!(t.insert_str("application", 3), None);
    assert_eq!(t.get_str("apple"), Some(1));
    assert_eq!(t.get_str("app"), Some(2));
    assert_eq!(t.get_str("application"), Some(3));
    assert_eq!(t.get_str("ap"), None);
    assert_eq!(t.len(), 3);
}

#[test]
fn update_returns_old() {
    let mut t = RadixTree::new();
    t.insert_str("key", 10);
    assert_eq!(t.insert_str("key", 20), Some(10));
    assert_eq!(t.get_str("key"), Some(20));
    assert_eq!(t.len(), 1);
}

#[test]
fn ordered_entries() {
    let mut t = RadixTree::new();
    for (k, v) in [("banana", 1), ("apple", 2), ("cherry", 3), ("apricot", 4)] {
        t.insert_str(k, v);
    }
    let keys: Vec<String> = t
        .entries()
        .into_iter()
        .map(|(k, _)| String::from_utf8(k).unwrap())
        .collect();
    assert_eq!(keys, vec!["apple", "apricot", "banana", "cherry"]);
}

#[test]
fn prefix_query() {
    let mut t = RadixTree::new();
    for (k, v) in [("foobar", 1), ("foobaz", 2), ("foo", 3), ("frob", 4)] {
        t.insert_str(k, v);
    }
    let mut got: Vec<String> = t
        .with_prefix(b"foo")
        .into_iter()
        .map(|(k, _)| String::from_utf8(k).unwrap())
        .collect();
    got.sort();
    assert_eq!(got, vec!["foo", "foobar", "foobaz"]);
    assert!(t.with_prefix(b"xyz").is_empty());
}

#[test]
fn edge_split_preserves_values() {
    let mut t = RadixTree::new();
    t.insert_str("test", 1);
    t.insert_str("team", 2);
    // 'te' edge should split.
    assert_eq!(t.get_str("test"), Some(1));
    assert_eq!(t.get_str("team"), Some(2));
    assert!(t.node_count() >= 4);
}

#[test]
fn paths_are_collapsed() {
    let mut t = RadixTree::new();
    t.insert_str("internationalization", 1);
    assert_eq!(t.node_count(), 2);
    t.insert_str("internationally", 2);
    assert_eq!(t.node_count(), 4);
    t.insert_str("international", 3);
    assert!(t.node_count() <= 2 * t.len() + 1);
    let n = t.node_count();
    t.insert_str("internationally", 4);
    assert_eq!(t.node_count(), n);
}

#[test]
fn a_split_edge_makes_two_nodes() {
    let mut t = RadixTree::new();
    assert_eq!(t.node_count(), 1);
    t.insert_str("test", 1);
    assert_eq!(t.node_count(), 2);
    t.insert_str("team", 2);
    assert_eq!(t.node_count(), 4);
    t.insert_str("te", 3);
    assert_eq!(t.node_count(), 4);
}
