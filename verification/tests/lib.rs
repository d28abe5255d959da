use schist::{run_combined, split_combined};

#[test]
fn split_combined_round_trips() {
    let script = b"scan;";
    let db = b"SCHIST1dummy";
    let mut blob = (script.len() as u32).to_le_bytes().to_vec();
    blob.extend_from_slice(script);
    blob.extend_from_slice(db);
    let (s, d) = split_combined(&blob);
    assert_eq!(s, script);
    assert_eq!(d, db);
}

#[test]
fn split_combined_malformed_falls_back() {
    let (s, d) = split_combined(&[9, 9, 9]);
    assert!(s.is_empty());
    assert_eq!(d.len(), 3);
    let (s, d) = split_combined(&[0xff, 0xff, 0xff, 0xff, 0x00]);
    assert!(s.is_empty());
    assert_eq!(d.len(), 5);
}

#[test]
fn combined_input_without_a_database() {
    assert!(run_combined(&[5, 0, 0, 0, b's', b'c', b'a', b'n', b';']).is_none());
}
