use schist::index::{IndexCache};
use schist::dict::Dict;
use schist::pager::{PageKind, Pager};

#[test]
fn probe_finds_matching_rows() {
    let mut pager = Pager::new();
    let pid = Dict::allocate(&mut pager);
    let mut dict = Dict::new(pid);
    let id_hello = dict.intern(&mut pager, b"hello").unwrap();
    let id_world = dict.intern(&mut pager, b"world").unwrap();

    let page = pager.get(pid).unwrap();
    let (off_hello, _) = dict.location_of(id_hello).unwrap();
    let (off_world, _) = dict.location_of(id_world).unwrap();
    let gen = page.gen;
    let mut idx = IndexCache::with_dict("t".to_string(), pid);
    idx.add_or_append(id_hello, IndexCache::capture_ptr(page, off_hello as usize), gen, 1);
    idx.add_or_append(id_hello, IndexCache::capture_ptr(page, off_hello as usize), gen, 2);
    idx.add_or_append(id_world, IndexCache::capture_ptr(page, off_world as usize), gen, 3);

    let rows = idx.probe(&pager, b"hello");
    assert_eq!(rows, vec![1, 2]);
    let rows = idx.probe(&pager, b"world");
    assert_eq!(rows, vec![3]);
    let rows = idx.probe(&pager, b"missing");
    assert!(rows.is_empty());
}

#[test]
fn rebind_after_grow_keeps_probe_working() {
    let mut pager = Pager::new();
    let pid = Dict::allocate(&mut pager);
    let mut dict = Dict::new(pid);
    let mut idx = IndexCache::with_dict("t".to_string(), pid);
    // Intern one value, capture ptr.
    let id = dict.intern(&mut pager, b"abc").unwrap();
    let (off, _) = dict.location_of(id).unwrap();
    let gen = pager.get(pid).unwrap().gen;
    idx.add_or_append(id, IndexCache::capture_ptr(pager.get(pid).unwrap(), off as usize), gen, 7);
    // Force several grows.
    for i in 0..20u32 {
        dict.intern(&mut pager, format!("v{i}").as_bytes()).unwrap();
    }
    // Re-bind using the dictionary's current offsets.
    let mut offsets = vec![(0u32, 0u32); dict.next_id as usize];
    for (vid, off, len) in dict.locations() {
        offsets[vid as usize] = (off, len);
    }
    idx.rebind(&pager, &offsets, dict.gen);
    assert_eq!(idx.probe(&pager, b"abc"), vec![7]);
}

#[test]
fn page_kind_for_dict() {
    // sanity: dict pages are tagged Dict
    let mut pager = Pager::new();
    let pid = Dict::allocate(&mut pager);
    assert_eq!(pager.get(pid).unwrap().kind, PageKind::Dict);
}

#[test]
fn rows_of_an_entry_ascend() {
    let mut idx = IndexCache::empty("c".to_string());
    for row in [5, 3, 9, 4, 3] {
        idx.add_or_append(1, 8, 0, row);
    }
    idx.add_or_append(2, 20, 0, 1);
    assert_eq!(idx.entries[0].row_ids, vec![3, 4, 5, 9]);
    assert_eq!(idx.all_rows(), vec![3, 4, 5, 9, 1]);
    idx.drop_row(4);
    assert_eq!(idx.entries[0].row_ids, vec![3, 5, 9]);
}
