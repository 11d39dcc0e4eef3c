use engine::abi::{
    call_outcome, engine_error, null_text_argument, text_argument, CallError, CallResult,
    PAPYRITE_STATUS_ENGINE_ERROR, PAPYRITE_STATUS_INVALID_ARGUMENT, PAPYRITE_STATUS_OK,
    PAPYRITE_STATUS_PANIC,
};
use engine::json::JsonTree;
use engine::{Database, Value};
use tempfile::NamedTempFile;

fn serde_value(tree: JsonTree) -> serde_json::Value {
    match tree {
        JsonTree::Null => serde_json::Value::Null,
        JsonTree::Bool(b) => serde_json::Value::Bool(b),
        JsonTree::Number(Some(i), _) => serde_json::Value::Number(i.into()),
        JsonTree::Number(None, bits) => serde_json::Number::from_f64(f64::from_bits(bits))
            .map(serde_json::Value::Number)
            .unwrap_or(serde_json::Value::Null),
        JsonTree::String(s) => serde_json::Value::String(s),
        JsonTree::Array(items) => {
            serde_json::Value::Array(items.into_iter().map(serde_value).collect())
        }
        JsonTree::Object(entries) => serde_json::Value::Object(
            entries
                .into_iter()
                .map(|(key, item)| (key, serde_value(item)))
                .collect(),
        ),
    }
}

fn to_json(value: &Value) -> serde_json::Value {
    serde_value(value.to_json_value())
}

fn render(value: &Value) -> String {
    serde_json::to_string_pretty(&to_json(value)).unwrap()
}

fn render_all(values: &[Value]) -> String {
    let items = values.iter().map(to_json).collect();
    serde_json::to_string_pretty(&serde_json::Value::Array(items)).unwrap()
}

fn read_json_data(result: &CallResult) -> serde_json::Value {
    if result.data.is_empty() {
        return serde_json::Value::Null;
    }
    serde_json::from_slice(&result.data).unwrap()
}

fn temp_path() -> (NamedTempFile, String) {
    let file = NamedTempFile::new().unwrap();
    let path = file.path().to_str().unwrap().to_string();
    (file, path)
}

#[test]
fn create_get_delete_round_trip_through_abi() {
    let (_file, path) = temp_path();
    let mut db = Database::open(&path);

    let create = call_outcome(Some(
        db.create_json(r#"{"_id":"u1","name":"Anna"}"#)
            .map(|_| CallResult::ok())
            .map_err(|e| engine_error(&e)),
    ));
    assert_eq!(create.code, PAPYRITE_STATUS_OK);

    let get = call_outcome(Some(
        db.get_json(r#"{"_id":"u1"}"#)
            .map(|doc| CallResult::found(doc.as_ref().map(render)))
            .map_err(|e| engine_error(&e)),
    ));
    assert_eq!(get.code, PAPYRITE_STATUS_OK);
    assert!(get.bool_value != 0);
    assert_eq!(read_json_data(&get)["name"], "Anna");

    let delete = call_outcome(Some(
        db.delete_json(r#"{"_id":"u1"}"#)
            .map(CallResult::deleted)
            .map_err(|e| engine_error(&e)),
    ));
    assert_eq!(delete.code, PAPYRITE_STATUS_OK);
    assert!(delete.bool_value != 0);

    let missing = call_outcome(Some(
        db.get_json(r#"{"_id":"u1"}"#)
            .map(|doc| CallResult::found(doc.as_ref().map(render)))
            .map_err(|e| engine_error(&e)),
    ));
    assert_eq!(missing.code, PAPYRITE_STATUS_OK);
    assert!(missing.bool_value == 0);
    assert!(missing.data.is_empty());
}

#[test]
fn update_find_and_dump_through_abi() {
    let (_file, path) = temp_path();
    let mut db = Database::open(&path);

    let created = call_outcome(Some(
        db.create_json(r#"{"_id":"u1","name":"Anna","profile":{}}"#)
            .map(|_| CallResult::ok())
            .map_err(|e| engine_error(&e)),
    ));
    assert_eq!(created.code, PAPYRITE_STATUS_OK);
    let updated = call_outcome(Some(
        db.update_json(r#"{"filter":{"_id":"u1"},"set":{"profile.active":true}}"#)
            .map(|_| CallResult::ok())
            .map_err(|e| engine_error(&e)),
    ));
    assert_eq!(updated.code, PAPYRITE_STATUS_OK);

    let found = call_outcome(Some(
        db.find_json(r#"{"path":"profile.active","eq":true}"#)
            .map(|docs| CallResult::with_text(render_all(&docs)))
            .map_err(|e| engine_error(&e)),
    ));
    assert_eq!(found.code, PAPYRITE_STATUS_OK);
    assert_eq!(read_json_data(&found).as_array().unwrap().len(), 1);

    let dumped = call_outcome(Some(
        db.dump_json()
            .map(|docs| CallResult::with_text(render_all(&docs)))
            .map_err(|e| engine_error(&e)),
    ));
    assert_eq!(dumped.code, PAPYRITE_STATUS_OK);
    assert_eq!(read_json_data(&dumped).as_array().unwrap().len(), 1);
}

#[test]
fn invalid_arguments_return_error_instead_of_panicking() {
    let body = null_text_argument("path", 1).map(|_| CallResult::ok());
    let result = call_outcome(Some(body));
    assert_eq!(result.code, PAPYRITE_STATUS_INVALID_ARGUMENT);
    assert!(!result.error.is_empty());
}

#[test]
fn null_argument_message_names_the_length() {
    match null_text_argument("json", 12) {
        Err(CallError::InvalidArgument(m)) => {
            assert_eq!(m, "json pointer is null but length is 12")
        }
        _ => panic!("expected an invalid argument"),
    }
    assert_eq!(null_text_argument("json", 0).ok(), Some(""));
}

#[test]
fn invalid_utf8_argument_is_refused() {
    match text_argument("json", &[0x66, 0xff]) {
        Err(CallError::InvalidArgument(m)) => {
            assert!(m.starts_with("json is not valid UTF-8: "))
        }
        _ => panic!("expected an invalid argument"),
    }
    assert_eq!(text_argument("json", b"{}").ok(), Some("{}"));
}

#[test]
fn engine_error_and_panic_outcomes() {
    let mut db = Database::open("unused");
    let err = db.create_json(r#"{"name":"Anna"}"#).unwrap_err();
    let result = call_outcome(Some(Err(engine_error(&err))));
    assert_eq!(result.code, PAPYRITE_STATUS_ENGINE_ERROR);
    assert_eq!(
        result.error,
        b"document is missing required string _id".to_vec()
    );

    let panicked = call_outcome(None);
    assert_eq!(panicked.code, PAPYRITE_STATUS_PANIC);
    assert_eq!(
        panicked.error,
        b"panic caught inside Papyrite FFI boundary".to_vec()
    );
}

#[test]
fn delete_result_flag_follows_outcome() {
    assert_eq!(CallResult::deleted(true).bool_value, 1);
    assert_eq!(CallResult::deleted(false).bool_value, 0);
    let found = CallResult::found(None);
    assert_eq!(found.bool_value, 0);
    assert!(found.data.is_empty());
}
