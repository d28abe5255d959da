use schist::bitmap::{LITERAL_MAX, compress, decompress, Bitmap, BitmapIndex};

#[test]
fn bitmap_set_and_get() {
    let b = Bitmap::from_set_bits(&[0, 3, 7, 100], 200);
    assert_eq!(b.to_set_bits(), vec![0, 3, 7, 100]);
    assert_eq!(b.popcount(), 4);
}

#[test]
fn bitmap_and_or() {
    let a = Bitmap::from_set_bits(&[1, 2, 3, 4], 64);
    let b = Bitmap::from_set_bits(&[2, 3, 5], 64);
    assert_eq!(a.and(&b).to_set_bits(), vec![2, 3]);
    assert_eq!(a.or(&b).to_set_bits(), vec![1, 2, 3, 4, 5]);
}

#[test]
fn bitmap_compression_fill_runs() {
    let mut lit = vec![0u64; 200];
    for i in 0..200 {
        lit[i] = LITERAL_MAX;
    }
    let comp = compress(&lit);
    assert!(comp.len() < lit.len(), "fill runs should compress");
    let back = decompress(&comp, 200 * 64);
    assert_eq!(back, lit);
}

#[test]
fn bitmap_index_build_lookup() {
    let rows = vec![(0, 10), (1, 20), (2, 10), (3, 30), (4, 10)];
    let idx = BitmapIndex::build(&rows, 5);
    assert_eq!(idx.lookup(10), vec![0, 2, 4]);
    assert_eq!(idx.lookup_and(10, 30), Vec::<u64>::new());
    assert_eq!(idx.lookup_or(10, 20), vec![0, 1, 2, 4]);
}

#[test]
fn bitmap_index_encode_decode() {
    let rows = vec![(0, 1), (1, 1), (2, 2)];
    let idx = BitmapIndex::build(&rows, 3);
    let bytes = idx.encode();
    let idx2 = BitmapIndex::decode(&bytes).unwrap();
    assert_eq!(idx2.lookup(1), vec![0, 1]);
    assert_eq!(idx2.lookup(2), vec![2]);
}
