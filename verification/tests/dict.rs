use schist::dict::{Dict, DICT_PAGE_CAPACITY};
use schist::pager::{PageId, Pager};

fn fresh_pager_and_dict() -> (Pager, PageId, Dict) {
    let mut pager = Pager::new();
    let pid = Dict::allocate(&mut pager);
    let dict = Dict::new(pid);
    (pager, pid, dict)
}

#[test]
fn intern_and_lookup() {
    let (mut pager, pid, mut dict) = fresh_pager_and_dict();
    let id = dict.intern(&mut pager, b"hello").unwrap();
    assert_eq!(dict.bytes_of(&pager, id), Some(b"hello" as &[u8]));
    assert_eq!(dict.id_of(b"hello"), Some(id));
    assert_eq!(pid, dict.page_id);
}

#[test]
fn grow_bumps_gen_and_preserves_entries() {
    let (mut pager, _pid, mut dict) = fresh_pager_and_dict();
    // Fill past the initial capacity with many distinct values.
    let mut ids = Vec::new();
    for i in 0..30u32 {
        let s = format!("value-{i}");
        ids.push(dict.intern(&mut pager, s.as_bytes()).unwrap());
    }
    assert!(dict.capacity > DICT_PAGE_CAPACITY);
    // Every entry is still readable.
    for (i, &id) in ids.iter().enumerate() {
        let s = format!("value-{i}");
        assert_eq!(dict.bytes_of(&pager, id), Some(s.as_bytes()));
    }
    // Generation must have advanced at least once.
    assert!(dict.gen > 0);
}

#[test]
fn a_known_word_needs_no_page() {
    let (mut pager, _pid, mut dict) = fresh_pager_and_dict();
    let id = dict.intern(&mut pager, b"hello").unwrap();
    let mut empty = Pager::new();
    assert_eq!(dict.intern(&mut empty, b"hello").unwrap(), id);
    assert_eq!(empty.count(), 0);
}
