use schist::encoding::{SubTag, zigzag_encode, zigzag_decode, write_varint, read_varint, bitpack, bitunpack, encode_nullsupp, decode_nullsupp, encode_badict, decode_badict, encode_ints_best, decode_ints};

#[test]
fn zigzag_round_trips() {
    for i in [-1000i64, -1, 0, 1, 1000, i64::MAX / 2, i64::MIN / 2] {
        assert_eq!(zigzag_decode(zigzag_encode(i)), i);
    }
}

#[test]
fn varint_round_trips() {
    for v in [0u64, 1, 127, 128, 255, 16384, 1 << 35, u64::MAX] {
        let mut buf = Vec::new();
        write_varint(&mut buf, v);
        let (back, n) = read_varint(&buf).unwrap();
        assert_eq!(back, v);
        assert_eq!(n, buf.len());
    }
}

#[test]
fn bitpack_round_trips() {
    let vals = vec![0u64, 1, 3, 7, 5, 2, 6, 4];
    let packed = bitpack(&vals, 3);
    let back = bitunpack(&packed, vals.len(), 3);
    assert_eq!(back, vals);
}

#[test]
fn encode_best_const() {
    let bytes = encode_ints_best(&[5, 5, 5, 5]);
    let back = decode_ints(&bytes).unwrap();
    assert_eq!(back, vec![5, 5, 5, 5]);
}

#[test]
fn encode_best_for() {
    let bytes = encode_ints_best(&[100, 101, 102, 103]);
    let back = decode_ints(&bytes).unwrap();
    assert_eq!(back, vec![100, 101, 102, 103]);
}

#[test]
fn encode_best_delta() {
    let bytes = encode_ints_best(&[10, 20, 30, 40, 50]);
    let back = decode_ints(&bytes).unwrap();
    assert_eq!(back, vec![10, 20, 30, 40, 50]);
}

#[test]
fn encode_best_dod() {
    let bytes = encode_ints_best(&[1, 4, 9, 16, 25]);
    let back = decode_ints(&bytes).unwrap();
    assert_eq!(back, vec![1, 4, 9, 16, 25]);
}

#[test]
fn nullsupp_round_trips() {
    let vals = vec![Some(1), None, Some(3), None, Some(5)];
    let bytes = encode_nullsupp(&vals);
    let back = decode_nullsupp(&bytes).unwrap();
    assert_eq!(back, vals);
}

#[test]
fn badict_round_trips() {
    let vals = vec![b"alpha".to_vec(), b"beta".to_vec(), b"alpha".to_vec()];
    let bytes = encode_badict(&vals);
    let back = decode_badict(&bytes).unwrap();
    assert_eq!(back, vals);
}

#[test]
fn sub_tag_round_trips() {
    for s in [
        SubTag::Plain,
        SubTag::BitPacked,
        SubTag::FrameOfRef,
        SubTag::Delta,
        SubTag::DeltaOfDelta,
        SubTag::NullSuppressed,
        SubTag::ConstantRun,
        SubTag::ZigZagVarint,
        SubTag::ByteArrayDict,
    ] {
        assert_eq!(SubTag::from_u8(s.as_u8()), Some(s));
    }
}

#[test]
fn narrow_ints_take_the_frame_of_reference() {
    let bytes = encode_ints_best(&[100, 101, 102, 103]);
    assert_eq!(bytes[0], 0x02);
    assert_eq!(decode_ints(&bytes).unwrap(), vec![100, 101, 102, 103]);
}

#[test]
fn no_ints_round_trip() {
    let none: Vec<i64> = Vec::new();
    assert_eq!(decode_ints(&encode_ints_best(&none)).unwrap(), none);
}

#[test]
fn packed_values_take_the_bytes_that_their_bits_need() {
    for (n, w) in [(0usize, 5u32), (1, 1), (7, 3), (8, 8), (5, 64), (9, 0)] {
        let values = vec![0u64; n];
        assert_eq!(bitpack(&values, w).len(), (n * w as usize + 7) / 8);
    }
}
