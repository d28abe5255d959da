use schist::fsm::{Fsm};

#[test]
fn free_page_round_trip() {
    let mut f = Fsm::new();
    f.return_page(3);
    f.return_page(1);
    assert_eq!(f.take_free_page(), Some(1));
    assert_eq!(f.take_free_page(), Some(3));
    assert_eq!(f.take_free_page(), None);
}

#[test]
fn page_with_space_picks_most() {
    let mut f = Fsm::new();
    f.set_space(0, 10);
    f.set_space(1, 50);
    f.set_space(2, 30);
    assert_eq!(f.page_with_space(20), Some(1));
}

#[test]
fn fsm_encode_decode_round_trips() {
    let mut f = Fsm::new();
    f.return_page(7);
    f.set_space(1, 100);
    f.set_space(2, 40);
    let bytes = f.encode();
    let g = Fsm::decode(&bytes);
    assert_eq!(g.free_page_count(), 1);
    assert_eq!(g.space_of(1), 100);
    assert_eq!(g.space_of(2), 40);
}
