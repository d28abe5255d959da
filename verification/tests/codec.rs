use schist::codec::{CodecError, hex_encode, hex_decode, base64_encode, base64_decode};

#[test]
fn hex_roundtrip() {
    for data in [&b""[..], &b"hello"[..], &[0u8, 255, 16, 127][..]] {
        let enc = hex_encode(data);
        assert_eq!(hex_decode(&enc).unwrap(), data);
    }
    assert_eq!(hex_encode(b"\xde\xad"), "dead");
}

#[test]
fn hex_rejects_bad() {
    assert_eq!(hex_decode("abc"), Err(CodecError::BadLength));
    assert!(matches!(hex_decode("zz"), Err(CodecError::InvalidChar(_))));
    assert_eq!(hex_decode("DEAD").unwrap(), vec![0xDE, 0xAD]);
}

#[test]
fn base64_known_vectors() {
    assert_eq!(base64_encode(b""), "");
    assert_eq!(base64_encode(b"f"), "Zg==");
    assert_eq!(base64_encode(b"fo"), "Zm8=");
    assert_eq!(base64_encode(b"foo"), "Zm9v");
    assert_eq!(base64_encode(b"foobar"), "Zm9vYmFy");
}

#[test]
fn base64_roundtrip() {
    for data in [&b""[..], &b"a"[..], &b"ab"[..], &b"abc"[..], &b"any carnal pleasure"[..]] {
        let enc = base64_encode(data);
        assert_eq!(base64_decode(&enc).unwrap(), data);
    }
}

#[test]
fn base64_rejects_bad() {
    assert_eq!(base64_decode("Zg="), Err(CodecError::BadLength));
    assert!(matches!(base64_decode("Zg@="), Err(CodecError::InvalidChar(_))));
    assert_eq!(base64_decode("Z=g="), Err(CodecError::BadPadding));
}

#[test]
fn base64_ignores_whitespace() {
    assert_eq!(base64_decode("Zm9v\nYmFy").unwrap(), b"foobar");
}
