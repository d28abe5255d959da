use schist::checksum::{Crc32, crc32, adler32, fxhash, fxhash_u64};

#[test]
fn crc32_known_vectors() {
    // CRC-32/IEEE of "123456789" is 0xCBF43926.
    assert_eq!(crc32(b"123456789"), 0xCBF43926);
    assert_eq!(crc32(b""), 0x00000000);
}

#[test]
fn crc32_incremental_matches_oneshot() {
    let c = Crc32::new();
    let data = b"the quick brown fox jumps over the lazy dog";
    let one = c.checksum(data);
    let mut crc = 0u32;
    crc = c.update(crc, &data[..10]);
    crc = c.update(crc, &data[10..]);
    assert_eq!(one, crc);
}

#[test]
fn adler32_known_vector() {
    // Adler-32 of "Wikipedia" is 0x11E60398.
    assert_eq!(adler32(b"Wikipedia"), 0x11E60398);
}

#[test]
fn fxhash_is_deterministic_and_distinct() {
    assert_eq!(fxhash(b"hello"), fxhash(b"hello"));
    assert_ne!(fxhash(b"hello"), fxhash(b"world"));
    assert_ne!(fxhash_u64(1), fxhash_u64(2));
}
