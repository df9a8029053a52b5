use db::proto::{deserialize_request, serialize_request, serialize_response, QuerySet, Response};
use db::tuple::serialize;
use db::types::{Column, DataType, DecodeError, EncodeError, Schema, Value};

#[test]
fn request_framing() {
    let bytes = serialize_request("SELECT 1;").unwrap();
    let mut expected = vec![9u8, 0, 0, 0];
    expected.extend_from_slice(b"SELECT 1;");
    assert_eq!(bytes, expected);
}

#[test]
fn request_round_trip() {
    let sql = "SELECT * FROM tëst;";
    let mut bytes = serialize_request(sql).unwrap();
    let framed = bytes.len();
    bytes.extend_from_slice(b"next");
    let (back, used) = deserialize_request(&bytes).unwrap();
    assert_eq!(back, sql);
    assert_eq!(used, framed);
}

#[test]
fn request_errors() {
    assert_eq!(deserialize_request(&[3, 0, 0]), Err(DecodeError::Truncated));
    assert_eq!(deserialize_request(&[3, 0, 0, 0, b'a']), Err(DecodeError::Truncated));
    assert_eq!(
        deserialize_request(&[2, 0, 0, 0, 0xff, 0xfe]),
        Err(DecodeError::InvalidUtf8)
    );
}

#[test]
fn empty_set_response() {
    let bytes = serialize_response(&Response::EmptySet(9)).unwrap();
    assert_eq!(bytes, vec![5, 0, 0, 0, b'!', 9, 0, 0, 0]);
}

#[test]
fn error_response() {
    let bytes = serialize_response(&Response::Error("bad".into())).unwrap();
    assert_eq!(bytes, vec![4, 0, 0, 0, b'-', b'b', b'a', b'd']);
}

#[test]
fn rows_response_without_rows() {
    let schema = Schema::new(vec![Column::new("ok".into(), DataType::Bool)]);
    let response = Response::QuerySet(QuerySet {
        schema,
        tuples: vec![],
    });
    let bytes = serialize_response(&response).unwrap();
    let payload: Vec<u8> = vec![b'+', 1, 0, 2, 0, b'o', b'k', 0, 0, 0, 0, 0];
    assert_eq!(payload.len(), 12);
    let mut expected = vec![12u8, 0, 0, 0];
    expected.extend_from_slice(&payload);
    assert_eq!(bytes, expected);
    // Without its one-byte discriminator the payload is 2 + (2 + 2 + 1) + 4 bytes.
    assert_eq!(bytes.len() - 4 - 1, 11);
}

#[test]
fn rows_response_with_rows() {
    let schema = Schema::new(vec![
        Column::new("id".into(), DataType::BigInt),
        Column::new("msg".into(), DataType::Varchar(255)),
        Column::new("num".into(), DataType::Int),
    ]);
    let rows = vec![
        vec![Value::Number(1), Value::String("hello".into()), Value::Number(2)],
        vec![Value::Number(2), Value::String("world".into()), Value::Number(4)],
    ];
    let mut expected_payload: Vec<u8> = vec![b'+', 3, 0];
    expected_payload.extend_from_slice(&[2, 0, b'i', b'd', 3]);
    expected_payload.extend_from_slice(&[3, 0, b'm', b's', b'g', 5, 255, 0, 0, 0]);
    expected_payload.extend_from_slice(&[3, 0, b'n', b'u', b'm', 1]);
    expected_payload.extend_from_slice(&[2, 0, 0, 0]);
    for row in &rows {
        expected_payload.extend(serialize(&schema, row).unwrap());
    }
    let response = Response::QuerySet(QuerySet {
        schema,
        tuples: rows,
    });
    let bytes = serialize_response(&response).unwrap();
    assert_eq!(expected_payload.len(), 66);
    assert_eq!(&bytes[..4], &[66, 0, 0, 0]);
    assert_eq!(&bytes[4..], &expected_payload[..]);
}

#[test]
fn rows_response_errors() {
    let schema = Schema::new(vec![Column::new("n".into(), DataType::UnsignedInt)]);
    let response = Response::QuerySet(QuerySet {
        schema,
        tuples: vec![vec![Value::Number(1)], vec![Value::Number(-1)]],
    });
    assert_eq!(serialize_response(&response), Err(EncodeError::OutOfRange));
    let long_name = "n".repeat(70000);
    let schema = Schema::new(vec![Column::new(long_name, DataType::Bool)]);
    let response = Response::QuerySet(QuerySet {
        schema,
        tuples: vec![],
    });
    assert_eq!(serialize_response(&response), Err(EncodeError::TooLong));
}
