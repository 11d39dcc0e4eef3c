use engine::codec::{decode_value, encode_value, TAG_NULL, TAG_OBJECT, TAG_STRING};
use engine::error::DbError;
use engine::types::Fields;
use engine::Value;

fn round_trip(value: Value) {
    let encoded = encode_value(&value).unwrap();
    let (decoded, used) = decode_value(&encoded).unwrap();
    assert_eq!(decoded, value);
    assert_eq!(used, encoded.len());
}

fn text(s: &str) -> Value {
    Value::String(s.to_string())
}

#[test]
fn encode_decode_primitive_values() {
    round_trip(Value::Null);
    round_trip(Value::Bool(false));
    round_trip(Value::Bool(true));
    round_trip(Value::Int(-42));
    round_trip(Value::Float(3.5f64.to_bits()));
    round_trip(Value::String("hello".to_string()));
    round_trip(Value::Blob(vec![1, 2, 3, 4]));
}

#[test]
fn encode_decode_nested_object() {
    let mut nested = Fields::new();
    nested.insert("email".to_string(), text("a@example.com"));
    nested.insert("active".to_string(), Value::Bool(true));

    let mut root = Fields::new();
    root.insert("_id".to_string(), text("u1"));
    root.insert("profile".to_string(), Value::Object(nested));

    round_trip(Value::Object(root));
}

#[test]
fn encode_decode_nested_array() {
    round_trip(Value::Array(vec![
        Value::Int(1),
        Value::Array(vec![Value::String("x".to_string()), Value::Null]),
        Value::Bool(true),
    ]));
}

#[test]
fn encode_decode_object_with_multiple_fields() {
    let value = Value::from_json_str(
        r#"{"_id":"u1","age":30,"name":"Anna","profile":{"email":"a@example.com"}}"#,
    )
    .unwrap();
    round_trip(value);
}

#[test]
fn decoder_rejects_truncated_headers() {
    let err = decode_value(&[TAG_STRING]).unwrap_err();
    assert!(matches!(err, DbError::InvalidFormat(_)));
}

#[test]
fn decoder_rejects_out_of_bounds_offsets() {
    let mut bytes = vec![TAG_OBJECT];
    bytes.extend_from_slice(&(9u64).to_le_bytes());
    bytes.extend_from_slice(&(1u32).to_le_bytes());
    bytes.extend_from_slice(&(8u32).to_le_bytes());
    bytes.extend_from_slice(&(1u16).to_le_bytes());
    bytes.extend_from_slice(b"a");
    bytes.push(TAG_NULL);
    bytes.extend_from_slice(&(5u32).to_le_bytes());
    bytes.push(TAG_NULL);

    let err = decode_value(&bytes).unwrap_err();
    assert!(matches!(err, DbError::InvalidFormat(_)));
}

#[test]
fn root_object_encoding_round_trip() {
    let value =
        Value::from_json_str(r#"{"_id":"u1","name":"Anna","items":[1,2,{"nested":true}]}"#)
            .unwrap();
    let encoded = encode_value(&value).unwrap();
    let (decoded, used) = decode_value(&encoded).unwrap();
    assert_eq!(decoded, value);
    assert_eq!(used, encoded.len());
}

#[test]
fn scalar_encodings_are_exact() {
    assert_eq!(encode_value(&Value::Null).unwrap(), vec![0]);
    assert_eq!(encode_value(&Value::Bool(false)).unwrap(), vec![1]);
    assert_eq!(encode_value(&Value::Bool(true)).unwrap(), vec![2]);
    assert_eq!(
        encode_value(&Value::Int(-2)).unwrap(),
        vec![3, 0xfe, 0xff, 0xff, 0xff, 0xff, 0xff, 0xff, 0xff]
    );
    assert_eq!(
        encode_value(&text("hi")).unwrap(),
        vec![5, 2, 0, 0, 0, b'h', b'i']
    );
    assert_eq!(
        encode_value(&Value::Blob(vec![7])).unwrap(),
        vec![6, 1, 0, 0, 0, 7]
    );
}

#[test]
fn decode_reports_bytes_used_with_trailing_input() {
    let mut bytes = encode_value(&Value::Int(5)).unwrap();
    let used_alone = bytes.len();
    bytes.extend_from_slice(&[0xaa, 0xbb]);
    let (value, used) = decode_value(&bytes).unwrap();
    assert_eq!(value, Value::Int(5));
    assert_eq!(used, used_alone);
}

#[test]
fn decoder_rejects_unknown_tag() {
    let err = decode_value(&[42]).unwrap_err();
    assert!(matches!(err, DbError::InvalidFormat(_)));
}

#[test]
fn decoder_rejects_empty_input() {
    let err = decode_value(&[]).unwrap_err();
    assert!(matches!(err, DbError::InvalidFormat(_)));
}

#[test]
fn decoder_rejects_invalid_utf8_string() {
    let err = decode_value(&[TAG_STRING, 1, 0, 0, 0, 0xff]).unwrap_err();
    assert!(matches!(err, DbError::Utf8(_)));
}

#[test]
fn object_keys_round_trip_in_key_order() {
    let value = Value::from_json_str(r#"{"b":1,"a":2,"c":{"z":null,"y":[true]}}"#).unwrap();
    round_trip(value);
}
