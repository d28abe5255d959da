use schist::intern::{Symbol, Interner};

#[test]
fn intern_is_idempotent() {
    let mut it = Interner::new();
    let a = it.intern("hello");
    let b = it.intern("hello");
    assert_eq!(a, b);
    assert_eq!(it.len(), 1);
}

#[test]
fn distinct_strings_distinct_symbols() {
    let mut it = Interner::new();
    let a = it.intern("a");
    let b = it.intern("b");
    assert_ne!(a, b);
    assert_eq!(it.resolve(a), Some("a"));
    assert_eq!(it.resolve(b), Some("b"));
}

#[test]
fn get_and_contains() {
    let mut it = Interner::new();
    it.intern("x");
    assert!(it.contains("x"));
    assert!(it.get("x").is_some());
    assert!(it.get("y").is_none());
}

#[test]
fn symbols_are_stable_order() {
    let mut it = Interner::new();
    for (i, s) in ["one", "two", "three"].iter().enumerate() {
        assert_eq!(it.intern(s), Symbol(i as u32));
    }
    assert_eq!(it.strings().len(), 3);
}
