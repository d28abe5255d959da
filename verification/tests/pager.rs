use schist::pager::{PageKind, SlotEntry, Page, Pager};

#[test]
fn alloc_and_free_recycles_ids() {
    let mut p = Pager::new();
    let a = p.allocate(PageKind::Data, vec![0u8; 16]);
    let b = p.allocate(PageKind::Data, vec![1u8; 16]);
    assert_eq!(a, 0);
    assert_eq!(b, 1);
    assert_eq!(p.count(), 2);
    p.free(a);
    assert_eq!(p.count(), 1);
    let c = p.allocate(PageKind::Data, vec![2u8; 16]);
    assert_eq!(c, 0, "freed id should be recycled");
    assert_eq!(p.count(), 2);
}

#[test]
fn slot_dir_round_trips() {
    let page = Page::new(0, PageKind::Data, vec![0u8; 64])
        .with_slots(vec![
            SlotEntry::new(1, 0, 8),
            SlotEntry::new(2, 8, 8),
        ]);
    assert_eq!(page.slot_count(), 2);
    assert_eq!(page.slot_at(0).unwrap().row_id, 1);
    assert_eq!(page.slot_at_unchecked(1).row_id, 2);
}

#[test]
fn replace_buf_bumps_gen() {
    let mut page = Page::new(0, PageKind::Dict, vec![0u8; 8]);
    let g0 = page.gen;
    page.replace_buf(vec![9u8; 8]);
    assert_eq!(page.gen, g0 + 1);
    assert_eq!(page.buf[0], 9);
}
