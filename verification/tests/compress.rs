use schist::compress::{Codec, DecompressError, FRAME_MAGIC, frame, compress_best, rle_compress, unframe};

fn roundtrip(codec: Codec, data: &[u8]) {
    let framed = frame(codec, data);
    let back = unframe(&framed).expect("unframe");
    assert_eq!(back, data, "codec {codec:?} failed round trip");
}

#[test]
fn store_roundtrip() {
    roundtrip(Codec::Store, b"hello world");
    roundtrip(Codec::Store, &[]);
}

#[test]
fn rle_roundtrip() {
    roundtrip(Codec::Rle, &[0u8; 100]);
    roundtrip(Codec::Rle, b"aaaaabbbbbcccccabcabcabc");
    roundtrip(Codec::Rle, b"no repeats here!");
    let mut mixed = vec![7u8; 50];
    mixed.extend_from_slice(b"literals");
    mixed.extend(std::iter::repeat(9u8).take(40));
    roundtrip(Codec::Rle, &mixed);
}

#[test]
fn rle_shrinks_runs() {
    let data = vec![0u8; 1000];
    let framed = frame(Codec::Rle, &data);
    assert!(framed.len() < 100, "rle should shrink a zeroed block");
}

#[test]
fn lz_roundtrip() {
    roundtrip(Codec::Lz, b"abcabcabcabcabcabcabc");
    roundtrip(Codec::Lz, b"the quick brown fox the quick brown fox");
    roundtrip(Codec::Lz, &[]);
    let mut big = Vec::new();
    for _ in 0..200 {
        big.extend_from_slice(b"schist columnar ");
    }
    roundtrip(Codec::Lz, &big);
}

#[test]
fn lz_shrinks_repetitive() {
    let mut data = Vec::new();
    for _ in 0..500 {
        data.extend_from_slice(b"0123456789");
    }
    let framed = frame(Codec::Lz, &data);
    assert!(framed.len() < data.len() / 2);
}

#[test]
fn compress_best_picks_smallest() {
    let data = vec![42u8; 4096];
    let best = compress_best(&data);
    assert!(best.len() < 64);
    assert_eq!(unframe(&best).unwrap(), data);
}

#[test]
fn unframe_rejects_garbage() {
    assert!(unframe(&[]).is_err());
    assert!(unframe(&[0, 0, 0, 0, 0, 0]).is_err());
    assert!(matches!(
        unframe(&[FRAME_MAGIC, 9, 0, 0, 0, 0]),
        Err(DecompressError::BadCodec(9))
    ));
}

#[test]
fn rle_grows_by_a_control_byte_per_128_bytes() {
    for n in [0usize, 1, 127, 128, 129, 256, 257, 1000] {
        let data: Vec<u8> = (0..n).map(|i| (i % 251) as u8).collect();
        assert_eq!(rle_compress(&data).len(), n + (n + 127) / 128);
    }
    let mut mixed: Vec<u8> = vec![7; 3];
    mixed.extend(0..100u8);
    assert_eq!(rle_compress(&mixed).len(), 2 + 1 + 100);
}
