use engine::paths::set_path;
use engine::json::JsonTree;
use engine::types::Fields;
use engine::Value;

fn serde_value(tree: JsonTree) -> serde_json::Value {
    match tree {
        JsonTree::Null => serde_json::Value::Null,
        JsonTree::Bool(b) => serde_json::Value::Bool(b),
        JsonTree::Number(Some(i), _) => serde_json::Value::Number(i.into()),
        JsonTree::Number(None, bits) => serde_json::Number::from_f64(f64::from_bits(bits))
            .map(serde_json::Value::Number)
            .unwrap_or(serde_json::Value::Null),
        JsonTree::String(s) => serde_json::Value::String(s),
        JsonTree::Array(items) => {
            serde_json::Value::Array(items.into_iter().map(serde_value).collect())
        }
        JsonTree::Object(entries) => serde_json::Value::Object(
            entries
                .into_iter()
                .map(|(key, item)| (key, serde_value(item)))
                .collect(),
        ),
    }
}

fn to_json(value: &Value) -> serde_json::Value {
    serde_value(value.to_json_value())
}

#[test]
fn json_object_round_trip() {
    let value = Value::from_json_str(r#"{"_id":"u1","name":"Anna","age":30}"#).unwrap();
    let round_trip = Value::from_json_value(value.to_json_value()).unwrap();
    assert_eq!(value, round_trip);
}

#[test]
fn nested_arrays_and_objects_round_trip() {
    let value = Value::from_json_str(
        r#"{"_id":"u1","profile":{"tags":["a",{"nested":true}],"score":1.5}}"#,
    )
    .unwrap();
    let json = serde_json::to_string_pretty(&to_json(&value)).unwrap();
    let reparsed = Value::from_json_str(&json).unwrap();
    assert_eq!(value, reparsed);
}

#[test]
fn get_path_reads_nested_field() {
    let value = Value::from_json_str(
        r#"{"_id":"u1","profile":{"email":"a@example.com","flags":{"active":true}}}"#,
    )
    .unwrap();

    assert_eq!(
        value.get_path("profile.email"),
        Some(&Value::String("a@example.com".to_string()))
    );
    assert_eq!(
        value.get_path("profile.flags.active"),
        Some(&Value::Bool(true))
    );
}

#[test]
fn get_path_missing_returns_none() {
    let value =
        Value::from_json_str(r#"{"_id":"u1","profile":{"email":"a@example.com"}}"#).unwrap();
    assert_eq!(value.get_path("profile.phone"), None);
    assert_eq!(value.get_path("profile.email.domain"), None);
}

#[test]
fn get_path_empty_returns_whole_value() {
    let value = Value::from_json_str(r#"{"_id":"u1"}"#).unwrap();
    assert_eq!(value.get_path(""), Some(&value));
}

#[test]
fn json_numbers_become_int_or_float() {
    let value = Value::from_json_str(r#"[1, -7, 1.0, 2.5, 18446744073709551615]"#).unwrap();
    assert_eq!(
        value,
        Value::Array(vec![
            Value::Int(1),
            Value::Int(-7),
            Value::Float(1.0f64.to_bits()),
            Value::Float(2.5f64.to_bits()),
            Value::Float(18446744073709551615.0f64.to_bits()),
        ])
    );
}

#[test]
fn json_object_keys_are_kept_in_order() {
    let value = Value::from_json_str(r#"{"b":1,"a":2}"#).unwrap();
    match value {
        Value::Object(fields) => {
            assert_eq!(fields.len(), 2);
            assert_eq!(fields.entry(0).0, "a");
            assert_eq!(fields.entry(1).0, "b");
        }
        _ => panic!("expected an object"),
    }
}

#[test]
fn invalid_json_is_a_json_error() {
    let err = Value::from_json_str("{not json").unwrap_err();
    assert!(matches!(err, engine::DbError::Json(_)));
}

#[test]
fn id_str_reads_string_id_only() {
    let value = Value::from_json_str(r#"{"_id":"u1"}"#).unwrap();
    assert_eq!(value.id_str(), Some("u1"));
    let numeric = Value::from_json_str(r#"{"_id":1}"#).unwrap();
    assert_eq!(numeric.id_str(), None);
    assert_eq!(Value::Null.id_str(), None);
}

#[test]
fn set_then_get_gives_value_back() {
    let mut value = Value::from_json_str(r#"{"_id":"u1","a":{"b":1}}"#).unwrap();
    set_path(&mut value, "a.c.d", Value::Int(9)).unwrap();
    assert_eq!(value.get_path("a.c.d"), Some(&Value::Int(9)));
    assert_eq!(value.get_path("a.b"), Some(&Value::Int(1)));
}

#[test]
fn set_through_a_non_object_is_a_type_mismatch() {
    let mut value = Value::from_json_str(r#"{"_id":"u1","a":5}"#).unwrap();
    let err = set_path(&mut value, "a.b", Value::Null).unwrap_err();
    assert!(matches!(err, engine::DbError::TypeMismatch(_)));
}

#[test]
fn set_with_invalid_path_is_invalid_data() {
    let mut value = Value::from_json_str(r#"{"_id":"u1"}"#).unwrap();
    let err = set_path(&mut value, "a..b", Value::Null).unwrap_err();
    assert!(matches!(err, engine::DbError::InvalidData(_)));
    let err = set_path(&mut value, "", Value::Null).unwrap_err();
    assert!(matches!(err, engine::DbError::InvalidData(_)));
}

#[test]
fn unset_then_get_gives_none() {
    let mut value = Value::from_json_str(r#"{"_id":"u1","a":{"b":1,"c":2}}"#).unwrap();
    engine::unset_path(&mut value, "a.b").unwrap();
    assert_eq!(value.get_path("a.b"), None);
    assert_eq!(value.get_path("a.c"), Some(&Value::Int(2)));
    engine::unset_path(&mut value, "x.y").unwrap();
    assert_eq!(value.get_path("a.c"), Some(&Value::Int(2)));
}

#[test]
fn set_on_non_object_root_is_a_type_mismatch() {
    let mut value = Value::Int(1);
    let err = set_path(&mut value, "a", Value::Null).unwrap_err();
    assert!(matches!(err, engine::DbError::TypeMismatch(_)));
}

#[test]
fn fields_insert_replaces_and_orders() {
    let mut fields = Fields::new();
    assert!(fields.insert("b".to_string(), Value::Int(1)).is_none());
    assert!(fields.insert("a".to_string(), Value::Int(2)).is_none());
    assert_eq!(fields.insert("b".to_string(), Value::Int(3)), Some(Value::Int(1)));
    assert_eq!(fields.len(), 2);
    assert_eq!(fields.entry(0).0, "a");
    assert_eq!(fields.get("b"), Some(&Value::Int(3)));
    assert_eq!(fields.remove("a"), Some(Value::Int(2)));
    assert!(!fields.contains_key("a"));
}

#[test]
fn int_and_float_values_differ() {
    assert!(!Value::Int(1).equals(&Value::Float(1.0f64.to_bits())));
    assert!(Value::Float(0.0f64.to_bits()).equals(&Value::Float((-0.0f64).to_bits())));
    assert!(!Value::Float(f64::NAN.to_bits()).equals(&Value::Float(f64::NAN.to_bits())));
}

#[test]
fn get_path_mut_changes_the_nested_value() {
    let mut value =
        Value::from_json_str(r#"{"_id":"u1","profile":{"email":"a@example.com"}}"#).unwrap();
    *value.get_path_mut("profile.email").unwrap() = Value::String("b@example.com".to_string());
    assert_eq!(
        value.get_path("profile.email"),
        Some(&Value::String("b@example.com".to_string()))
    );
    assert_eq!(value.get_path("_id"), Some(&Value::String("u1".to_string())));
}

#[test]
fn get_path_mut_missing_returns_none() {
    let mut value = Value::from_json_str(r#"{"_id":"u1","profile":{"n":1}}"#).unwrap();
    assert!(value.get_path_mut("profile.phone").is_none());
    assert!(value.get_path_mut("profile.n.x").is_none());
    assert!(value.get_path_mut("nothing").is_none());
}

#[test]
fn get_path_mut_stops_where_no_text_is_left() {
    let mut value = Value::from_json_str(r#"{"a":{"b":1}}"#).unwrap();
    assert_eq!(
        value.get_path_mut("a.").map(|v| &*v),
        Some(&Value::from_json_str(r#"{"b":1}"#).unwrap())
    );
    let whole = Value::from_json_str(r#"{"a":{"b":1}}"#).unwrap();
    assert_eq!(value.get_path_mut("").map(|v| &*v), Some(&whole));
}

#[test]
fn json_trees_convert_exactly() {
    let tree = JsonTree::Object(vec![
        ("b".to_string(), JsonTree::Number(Some(1), 0)),
        ("a".to_string(), JsonTree::Number(None, 1.0f64.to_bits())),
        ("b".to_string(), JsonTree::String("later".to_string())),
    ]);
    let value = Value::from_json_value(tree).unwrap();
    assert_eq!(
        value,
        Value::from_json_str(r#"{"a":1.0,"b":"later"}"#).unwrap()
    );
}

#[test]
fn large_unsigned_integer_becomes_float() {
    let value = Value::from_json_str("18446744073709551615").unwrap();
    assert_eq!(value, Value::Float(18446744073709551615.0f64.to_bits()));
    assert_eq!(Value::from_json_str("1").unwrap(), Value::Int(1));
    assert_eq!(Value::from_json_str("1.0").unwrap(), Value::Float(1.0f64.to_bits()));
}

#[test]
fn blobs_and_non_finite_floats_render_as_numbers_and_null() {
    let blob = Value::Blob(vec![0, 255]);
    match blob.to_json_value() {
        JsonTree::Array(items) => {
            assert_eq!(items.len(), 2);
            assert!(matches!(items[1], JsonTree::Number(Some(255), _)));
        }
        _ => panic!("expected an array"),
    }
    assert!(matches!(
        Value::Float(f64::INFINITY.to_bits()).to_json_value(),
        JsonTree::Null
    ));
    assert!(matches!(
        Value::Float(2.5f64.to_bits()).to_json_value(),
        JsonTree::Number(None, bits) if bits == 2.5f64.to_bits()
    ));
}
