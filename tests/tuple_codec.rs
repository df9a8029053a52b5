use db::tuple::{
    byte_length_of_integer_type, deserialize, deserialize_row_id, integer_is_within_range,
    read_from, serialize, serialize_key, serialize_row_id, size_of, utf8_length_prefix_bytes,
};
use db::types::{Column, DataType, DecodeError, EncodeError, Schema, Value};

fn schema_of(types: &[DataType]) -> Schema {
    let columns = types
        .iter()
        .enumerate()
        .map(|(i, t)| Column::new(format!("c{i}"), *t))
        .collect();
    Schema::new(columns)
}

fn round_trip(t: DataType, v: Value) {
    let schema = schema_of(&[t]);
    let values = vec![v];
    let bytes = serialize(&schema, &values).unwrap();
    assert_eq!(bytes.len(), size_of(&values, &schema));
    assert_eq!(deserialize(&bytes, &schema).unwrap(), values);
}

#[test]
fn module_example_layout() {
    let schema = schema_of(&[DataType::BigInt, DataType::Varchar(255), DataType::Int]);
    let values = vec![
        Value::Number(1),
        Value::String("hello".into()),
        Value::Number(2),
    ];
    let bytes = serialize(&schema, &values).unwrap();
    let expected: Vec<u8> = vec![
        0, 0, 0, 0, 0, 0, 0, 1, 5, 0, b'h', b'e', b'l', b'l', b'o', 0, 0, 0, 2,
    ];
    assert_eq!(bytes, expected);
    assert_eq!(size_of(&values, &schema), 19);
    assert_eq!(deserialize(&bytes, &schema).unwrap(), values);
}

#[test]
fn round_trip_every_type() {
    round_trip(DataType::Bool, Value::Bool(true));
    round_trip(DataType::Bool, Value::Bool(false));
    round_trip(DataType::Int, Value::Number(-123456));
    round_trip(DataType::UnsignedInt, Value::Number(123456));
    round_trip(DataType::BigInt, Value::Number(-9_876_543_210));
    round_trip(DataType::UnsignedBigInt, Value::Number(9_876_543_210));
    round_trip(DataType::Varchar(10), Value::String("héllo wörld".into()));
    round_trip(DataType::Varchar(1000), Value::String(String::new()));
}

#[test]
fn signed_extremes_round_trip() {
    for v in [i32::MIN as i128, i32::MAX as i128, 0, -1] {
        round_trip(DataType::Int, Value::Number(v));
    }
    for v in [i64::MIN as i128, i64::MAX as i128, 0, -1] {
        round_trip(DataType::BigInt, Value::Number(v));
    }
    round_trip(DataType::UnsignedInt, Value::Number(u32::MAX as i128));
    round_trip(DataType::UnsignedBigInt, Value::Number(u64::MAX as i128));
}

#[test]
fn integers_are_big_endian_twos_complement() {
    assert_eq!(
        serialize_key(&DataType::Int, &Value::Number(-1)).unwrap(),
        vec![0xff, 0xff, 0xff, 0xff]
    );
    assert_eq!(
        serialize_key(&DataType::BigInt, &Value::Number(258)).unwrap(),
        vec![0, 0, 0, 0, 0, 0, 1, 2]
    );
    assert_eq!(
        serialize_key(&DataType::Int, &Value::Number(i32::MIN as i128)).unwrap(),
        vec![0x80, 0, 0, 0]
    );
}

#[test]
fn keys_keep_integer_order() {
    let pairs: [(DataType, i128, i128); 6] = [
        (DataType::UnsignedInt, 1, 256),
        (DataType::UnsignedInt, 255, 256),
        (DataType::UnsignedBigInt, 0, u64::MAX as i128),
        (DataType::Int, 0, i32::MAX as i128),
        (DataType::Int, i32::MIN as i128, -1),
        (DataType::BigInt, -300, -2),
    ];
    for (t, a, b) in pairs {
        let ka = serialize_key(&t, &Value::Number(a)).unwrap();
        let kb = serialize_key(&t, &Value::Number(b)).unwrap();
        assert!(ka < kb, "{t:?}: {a} vs {b}");
    }
}

#[test]
fn size_of_matches_serialized_length() {
    let schema = schema_of(&[
        DataType::Bool,
        DataType::UnsignedBigInt,
        DataType::Varchar(100000),
        DataType::Int,
    ]);
    let values = vec![
        Value::Bool(true),
        Value::Number(7),
        Value::String("ünïcödé".into()),
        Value::Number(-7),
    ];
    let bytes = serialize(&schema, &values).unwrap();
    assert_eq!(size_of(&values, &schema), bytes.len());
    assert_eq!(bytes.len(), 1 + 8 + 4 + "ünïcödé".len() + 4);
}

#[test]
fn prefix_width_follows_character_limit() {
    assert_eq!(utf8_length_prefix_bytes(10), 1);
    assert_eq!(utf8_length_prefix_bytes(63), 1);
    assert_eq!(utf8_length_prefix_bytes(64), 2);
    assert_eq!(utf8_length_prefix_bytes(1000), 2);
    assert_eq!(utf8_length_prefix_bytes(16383), 2);
    assert_eq!(utf8_length_prefix_bytes(16384), 4);
    assert_eq!(utf8_length_prefix_bytes(100000), 4);
    let text = "abcdefg";
    for (limit, width) in [(10usize, 1usize), (1000, 2), (100000, 4)] {
        let key = serialize_key(&DataType::Varchar(limit), &Value::String(text.into())).unwrap();
        assert_eq!(key.len(), width + text.len());
        assert_eq!(key[0], 7);
        assert!(key[1..width].iter().all(|b| *b == 0));
        assert_eq!(&key[width..], text.as_bytes());
    }
}

#[test]
fn truncated_input_is_reported() {
    let schema = schema_of(&[DataType::Int, DataType::Varchar(100), DataType::Bool]);
    let values = vec![
        Value::Number(42),
        Value::String("truncate me".into()),
        Value::Bool(true),
    ];
    let bytes = serialize(&schema, &values).unwrap();
    let size = size_of(&values, &schema);
    for k in 0..size {
        assert_eq!(deserialize(&bytes[..k], &schema), Err(DecodeError::Truncated));
    }
    assert_eq!(deserialize(&bytes, &schema).unwrap(), values);
}

#[test]
fn invalid_utf8_is_reported() {
    let schema = schema_of(&[DataType::Varchar(10)]);
    let bytes = [2u8, 0xc3, 0x28];
    assert_eq!(deserialize(&bytes, &schema), Err(DecodeError::InvalidUtf8));
}

#[test]
fn encode_errors() {
    let schema = schema_of(&[DataType::Int, DataType::Bool]);
    assert_eq!(
        serialize(&schema, &[Value::Number(1)]),
        Err(EncodeError::ArityMismatch)
    );
    assert_eq!(
        serialize(&schema, &[Value::Number(1), Value::Number(1)]),
        Err(EncodeError::TypeMismatch)
    );
    assert_eq!(
        serialize(&schema, &[Value::Number(1i128 << 31), Value::Bool(true)]),
        Err(EncodeError::OutOfRange)
    );
    assert_eq!(
        serialize_key(&DataType::UnsignedInt, &Value::Number(-1)),
        Err(EncodeError::OutOfRange)
    );
    let long = "x".repeat(256);
    assert_eq!(
        serialize_key(&DataType::Varchar(10), &Value::String(long.clone())),
        Err(EncodeError::TooLong)
    );
    assert_eq!(
        serialize_key(&DataType::Varchar(100), &Value::String(long)).unwrap().len(),
        2 + 256
    );
    assert_eq!(
        serialize_key(&DataType::Varchar(10), &Value::Bool(true)),
        Err(EncodeError::TypeMismatch)
    );
}

#[test]
fn range_checks() {
    assert!(integer_is_within_range(&(i32::MIN as i128), &DataType::Int));
    assert!(!integer_is_within_range(&(i32::MIN as i128 - 1), &DataType::Int));
    assert!(!integer_is_within_range(&-1, &DataType::UnsignedBigInt));
    assert!(integer_is_within_range(&(u64::MAX as i128), &DataType::UnsignedBigInt));
    assert!(!integer_is_within_range(&(u64::MAX as i128 + 1), &DataType::UnsignedBigInt));
    assert_eq!(byte_length_of_integer_type(&DataType::UnsignedInt), 4);
    assert_eq!(byte_length_of_integer_type(&DataType::BigInt), 8);
}

#[test]
fn row_ids_are_big_endian() {
    let bytes = serialize_row_id(0x0102030405060708);
    assert_eq!(bytes, [1, 2, 3, 4, 5, 6, 7, 8]);
    let mut buf = bytes.to_vec();
    buf.extend_from_slice(&[9, 9]);
    assert_eq!(deserialize_row_id(&buf), 0x0102030405060708);
}

#[test]
fn read_from_walks_consecutive_tuples() {
    let schema = schema_of(&[DataType::UnsignedInt, DataType::Varchar(20)]);
    let first = vec![Value::Number(1), Value::String("one".into())];
    let second = vec![Value::Number(2), Value::String("two!".into())];
    let mut bytes = serialize(&schema, &first).unwrap();
    bytes.extend(serialize(&schema, &second).unwrap());
    let mut pos = 0usize;
    assert_eq!(read_from(&bytes, &mut pos, &schema).unwrap(), first);
    assert_eq!(pos, 8);
    assert_eq!(read_from(&bytes, &mut pos, &schema).unwrap(), second);
    assert_eq!(pos, bytes.len());
    assert_eq!(read_from(&bytes, &mut pos, &schema), Err(DecodeError::Truncated));
    assert_eq!(pos, bytes.len());
}
