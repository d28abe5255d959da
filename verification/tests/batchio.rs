use schist::array::{Array, RecordBatch};
use schist::batchio::{decode, decode_compressed, encode, encode_compressed, BatchError};
use schist::schema::ColKind;
use schist::value::Value;

fn bits(x: f64) -> Value {
    Value::Real(x.to_bits())
}

fn sample() -> RecordBatch {
    let a = Array::from_values(
        ColKind::Int,
        &[Value::Int(1), Value::Null, Value::Int(-42), Value::Int(1000)],
    );
    let b = Array::from_values(
        ColKind::Real,
        &[bits(1.5), bits(2.5), Value::Null, bits(9.0)],
    );
    let c = Array::from_values(
        ColKind::Bool,
        &[Value::Bool(true), Value::Bool(false), Value::Bool(true), Value::Null],
    );
    RecordBatch::new(vec![("n".into(), a), ("r".into(), b), ("flag".into(), c)])
}

#[test]
fn roundtrip() {
    let batch = sample();
    let bytes = encode(&batch);
    let back = decode(&bytes).unwrap();
    assert_eq!(back.rows(), 4);
    assert_eq!(back.column("n").unwrap().value(2), Value::Int(-42));
    assert_eq!(back.column("r").unwrap().value(2), Value::Null);
    assert_eq!(back.column("flag").unwrap().value(3), Value::Null);
}

#[test]
fn compressed_roundtrip() {
    let batch = sample();
    let bytes = encode_compressed(&batch);
    let back = decode_compressed(&bytes).unwrap();
    assert_eq!(back.column("n").unwrap().value(0), Value::Int(1));
}

#[test]
fn text_column() {
    let arr = Array::from_values(ColKind::Text, &[Value::Text(5), Value::Text(9)]);
    let batch = RecordBatch::new(vec![("t".into(), arr)]);
    let back = decode(&encode(&batch)).unwrap();
    assert_eq!(back.column("t").unwrap().value(1), Value::Text(9));
}

#[test]
fn rejects_bad_magic() {
    let mut bytes = encode(&sample());
    bytes[0] = b'X';
    assert_eq!(decode(&bytes), Err(BatchError::BadMagic));
}

#[test]
fn rejects_truncated() {
    let bytes = encode(&sample());
    assert!(decode(&bytes[..7]).is_err());
}

#[test]
fn empty_batch() {
    let arr = Array::from_values(ColKind::Int, &[]);
    let batch = RecordBatch::new(vec![("n".into(), arr)]);
    let back = decode(&encode(&batch)).unwrap();
    assert_eq!(back.rows(), 0);
}

#[test]
fn stored_form() {
    let arr = Array::from_values(ColKind::Int, &[Value::Int(-1), Value::Null, Value::Int(150)]);
    let batch = RecordBatch::new(vec![("n".into(), arr)]);
    assert_eq!(encode(&batch), vec![b'S', b'B', b'T', b'C', 1, 3, 1, b'n', 1, 0b101, 1, 0xAC, 2]);
}

#[test]
fn decode_errors() {
    assert_eq!(decode(b"SBT"), Err(BatchError::Truncated));
    assert_eq!(decode(b"SBTC\x01\x00\x01n\x09"), Err(BatchError::BadKind(0)));
    assert_eq!(decode(b"SBTC\x01\x00\x01\xff\x01"), Err(BatchError::BadUtf8));
    assert_eq!(decode_compressed(b"nothing"), Err(BatchError::Truncated));
    assert_eq!(BatchError::BadKind(7).to_string(), "unknown column kind 7");
}

#[test]
fn rows_without_columns() {
    let back = decode(b"SBTC\x00\x02").unwrap();
    assert_eq!(back.rows(), 2);
    assert_eq!(back.names(), ["_".to_string()]);
    assert_eq!(back.row(1), vec![Value::Null]);
}
