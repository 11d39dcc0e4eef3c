use engine::codec::{decode_value, encode_value};
use engine::record::Record;
use engine::query::{parse_find_json, parse_id_filter_json, parse_update_json};
use engine::{Database, DbError, Value};

fn fresh() -> Database {
    Database::open("store.db")
}

#[test]
fn read_after_create_gives_the_document() {
    let mut db = fresh();
    db.create_json(r#"{"_id":"a","n":1}"#).unwrap();
    db.create_json(r#"{"_id":"b","n":2}"#).unwrap();
    let a = db.get_by_id("a").unwrap().unwrap();
    assert_eq!(a, Value::from_json_str(r#"{"_id":"a","n":1}"#).unwrap());
    assert_eq!(db.get_by_id("c").unwrap(), None);
}

#[test]
fn delete_leaves_other_documents() {
    let mut db = fresh();
    db.create_json(r#"{"_id":"a"}"#).unwrap();
    db.create_json(r#"{"_id":"b"}"#).unwrap();
    assert!(db.delete_by_id("a").unwrap());
    assert_eq!(db.get_by_id("a").unwrap(), None);
    assert_eq!(
        db.get_by_id("b").unwrap().unwrap(),
        Value::from_json_str(r#"{"_id":"b"}"#).unwrap()
    );
    let before = db.log().to_vec();
    assert!(!db.delete_by_id("a").unwrap());
    assert_eq!(db.log(), before.as_slice());
}

#[test]
fn log_only_grows() {
    let mut db = fresh();
    db.create_json(r#"{"_id":"a","x":1}"#).unwrap();
    let after_create = db.log().to_vec();
    db.update_json(r#"{"filter":{"_id":"a"},"set":{"x":2}}"#).unwrap();
    let after_update = db.log().to_vec();
    assert!(after_update.starts_with(&after_create));
    db.delete_json(r#"{"_id":"a"}"#).unwrap();
    assert!(db.log().starts_with(&after_update));
}

#[test]
fn failed_writes_leave_the_log_unchanged() {
    let mut db = fresh();
    db.create_json(r#"{"_id":"a","x":5}"#).unwrap();
    let before = db.log().to_vec();
    assert!(db.create_json(r#"{"_id":"a"}"#).is_err());
    assert!(db.create_json("not json").is_err());
    assert!(db.update_json(r#"{"filter":{"_id":"zz"},"set":{"x":1}}"#).is_err());
    assert!(db.update_json(r#"{"filter":{"_id":"a"},"set":{"x.y":1}}"#).is_err());
    assert!(db.update_json(r#"{"filter":{"_id":"a"},"unset":["_id"]}"#).is_err());
    assert!(db.delete_json(r#"{"_id":1}"#).is_err());
    assert_eq!(db.log(), before.as_slice());
}

#[test]
fn dump_agrees_with_get_and_is_in_id_order() {
    let mut db = fresh();
    db.create_json(r#"{"_id":"c","v":3}"#).unwrap();
    db.create_json(r#"{"_id":"a","v":1}"#).unwrap();
    db.create_json(r#"{"_id":"b","v":2}"#).unwrap();
    db.delete_by_id("b").unwrap();
    db.update_json(r#"{"filter":{"_id":"c"},"set":{"v":30}}"#).unwrap();

    let docs = db.dump().unwrap();
    let ids: Vec<&str> = docs.iter().map(|d| d.id_str().unwrap()).collect();
    assert_eq!(ids, vec!["a", "c"]);
    for doc in &docs {
        let id = doc.id_str().unwrap();
        assert_eq!(db.get_by_id(id).unwrap().as_ref(), Some(doc));
    }
    assert_eq!(db.get_by_id("b").unwrap(), None);
}

#[test]
fn update_keeps_the_id() {
    let mut db = fresh();
    db.create_json(r#"{"_id":"a","x":1}"#).unwrap();
    db.update_json(r#"{"filter":{"_id":"a"},"set":{"_id":"a","x":2}}"#).unwrap();
    let doc = db.get_by_id("a").unwrap().unwrap();
    assert_eq!(doc.id_str(), Some("a"));
    assert_eq!(doc.get_path("x"), Some(&Value::Int(2)));
}

#[test]
fn corrupt_log_is_reported() {
    let db = Database::with_log("store.db", vec![1, 1, 0]);
    assert!(matches!(db.get_by_id("a"), Err(DbError::InvalidFormat(_))));
    assert!(matches!(db.dump(), Err(DbError::InvalidFormat(_))));
}

#[test]
fn id_filter_requires_a_single_string_id() {
    assert_eq!(parse_id_filter_json(r#"{"_id":"u1"}"#).unwrap(), "u1");
    assert!(matches!(
        parse_id_filter_json(r#"{"_id":1}"#),
        Err(DbError::InvalidData(_))
    ));
    assert!(matches!(
        parse_id_filter_json(r#"{"_id":"u1","x":1}"#),
        Err(DbError::UnsupportedQuery(_))
    ));
    assert!(matches!(
        parse_id_filter_json(r#"["u1"]"#),
        Err(DbError::UnsupportedQuery(_))
    ));
    assert!(matches!(parse_id_filter_json("{"), Err(DbError::Json(_))));
}

#[test]
fn find_query_needs_path_and_eq() {
    let request = parse_find_json(r#"{"path":"a.b","eq":[1]}"#).unwrap();
    assert_eq!(request.path, "a.b");
    assert_eq!(request.eq, Value::Array(vec![Value::Int(1)]));
    assert!(matches!(
        parse_find_json(r#"{"path":"a"}"#),
        Err(DbError::UnsupportedQuery(_))
    ));
    assert!(matches!(
        parse_find_json(r#"{"path":"","eq":1}"#),
        Err(DbError::InvalidData(_))
    ));
    assert!(matches!(
        parse_find_json(r#"{"path":1,"eq":1}"#),
        Err(DbError::InvalidData(_))
    ));
}

#[test]
fn update_request_reads_filter_set_and_unset() {
    let request =
        parse_update_json(r#"{"filter":{"_id":"u1"},"set":{"a":1},"unset":["b","c.d"]}"#)
            .unwrap();
    assert_eq!(request.id, "u1");
    assert_eq!(request.set.get("a"), Some(&Value::Int(1)));
    assert_eq!(request.unset, vec!["b".to_string(), "c.d".to_string()]);
    assert!(matches!(
        parse_update_json(r#"{"set":{"a":1}}"#),
        Err(DbError::UnsupportedQuery(_))
    ));
    assert!(matches!(
        parse_update_json(r#"{"filter":{"_id":"u1"},"unset":[1]}"#),
        Err(DbError::InvalidData(_))
    ));
}

#[test]
fn error_texts_follow_their_kind() {
    assert_eq!(
        DbError::InvalidFormat("x".to_string()).to_string(),
        "invalid format: x"
    );
    assert_eq!(DbError::MissingId.to_string(), "document is missing required string _id");
    assert_eq!(DbError::DuplicateId("u1".to_string()).to_string(), "duplicate _id: u1");
    assert_eq!(DbError::NotFound("u1".to_string()).to_string(), "document not found: u1");
    assert_eq!(
        DbError::InvalidRootDocument.to_string(),
        "root document must be an object"
    );
    let json = Value::from_json_str("{").unwrap_err();
    assert!(json.to_string().starts_with("JSON error: "));
}

#[test]
fn mismatched_record_id_is_reported_with_both_ids() {
    let mut db = fresh();
    db.create_json(r#"{"_id":"a"}"#).unwrap();
    let mut log = db.log().to_vec();
    // Rename the record's id from "a" to "b": the stored document still says "a".
    log[9] = b'b';
    let broken = Database::with_log("store.db", log);
    match broken.get_by_id("b") {
        Err(DbError::InvalidData(m)) => {
            assert_eq!(m, "record id 'b' does not match document _id 'a'")
        }
        other => panic!("unexpected {:?}", other),
    }
}

#[test]
fn unknown_tags_are_named_in_messages() {
    match engine::codec::decode_value(&[200]) {
        Err(DbError::InvalidFormat(m)) => assert_eq!(m, "unknown value tag: 200"),
        other => panic!("unexpected {:?}", other),
    }
    let bytes = vec![9, 0, 0, 0, 0, 0, 0, 0, 0];
    match engine::record::Record::read_from(&mut bytes.as_slice()) {
        Err(DbError::InvalidFormat(m)) => assert_eq!(m, "unknown record tag: 9"),
        other => panic!("unexpected {:?}", other),
    }
}

fn detail(e: DbError) -> String {
    match e {
        DbError::InvalidData(m)
        | DbError::InvalidFormat(m)
        | DbError::UnsupportedQuery(m)
        | DbError::TypeMismatch(m) => m,
        other => panic!("unexpected {:?}", other),
    }
}

#[test]
fn update_refusals_name_their_rule() {
    let mut db = fresh();
    db.create_json(r#"{"_id":"a","x":1}"#).unwrap();
    let e = db.update_json(r#"{"filter":{"_id":"a"},"set":{"_id":"b"}}"#).unwrap_err();
    assert_eq!(detail(e), "updating _id to a different value is not allowed");
    let e = db.update_json(r#"{"filter":{"_id":"a"},"unset":["_id"]}"#).unwrap_err();
    assert_eq!(detail(e), "unsetting _id is not allowed");
    let e = db.update_json(r#"{"filter":{"_id":"a"},"set":{"a..b":1}}"#).unwrap_err();
    assert_eq!(detail(e), "invalid set path: a..b");
    let e = db.update_json(r#"{"filter":{"_id":"a"},"unset":["ok","x."]}"#).unwrap_err();
    assert_eq!(detail(e), "invalid unset path: x.");
    let e = db.update_json(r#"{"filter":{"_id":"a"},"other":1}"#).unwrap_err();
    assert_eq!(detail(e), "update contains unsupported keys");
}

#[test]
fn query_refusals_name_their_rule() {
    assert_eq!(
        detail(parse_id_filter_json(r#"{"_id":1}"#).unwrap_err()),
        "_id filter must be a string"
    );
    assert_eq!(
        detail(parse_id_filter_json("[]").unwrap_err()),
        "expected object filter"
    );
    assert_eq!(
        detail(parse_find_json(r#"{"path":"","eq":1}"#).unwrap_err()),
        "path must not be empty"
    );
    assert_eq!(
        detail(parse_find_json(r#"{"path":1,"eq":1}"#).unwrap_err()),
        "path must be a string"
    );
    let mut db = fresh();
    assert_eq!(
        detail(db.create_json(r#"{"_id":7}"#).unwrap_err()),
        "document _id must be a string"
    );
}

#[test]
fn decode_errors_carry_their_messages() {
    assert_eq!(detail(decode_value(&[]).unwrap_err()), "missing value tag");
    assert_eq!(detail(decode_value(&[3, 1, 2]).unwrap_err()), "truncated int payload");
    assert_eq!(detail(decode_value(&[5, 1]).unwrap_err()), "truncated string header");
    assert_eq!(
        detail(decode_value(&[6, 9, 0, 0, 0, 1]).unwrap_err()),
        "truncated blob payload"
    );
    assert_eq!(
        detail(decode_value(&[7, 0xff, 0xff, 0xff, 0xff, 0xff, 0xff, 0xff, 0xff, 0, 0, 0, 0]).unwrap_err()),
        "array length overflow"
    );
    assert_eq!(detail(decode_value(&[8, 0, 0]).unwrap_err()), "truncated object header");
}

#[test]
fn decoding_a_prefix_gives_the_same_value() {
    let value = Value::from_json_str(r#"{"a":[1,"x"],"b":null}"#).unwrap();
    let mut bytes = encode_value(&value).unwrap();
    bytes.extend_from_slice(&[1, 2, 3]);
    let (whole, used) = decode_value(&bytes).unwrap();
    let (prefix, used_prefix) = decode_value(&bytes[..used]).unwrap();
    assert_eq!(whole, prefix);
    assert_eq!(used, used_prefix);
}

#[test]
fn record_errors_carry_their_messages() {
    let short = vec![1, 0, 0];
    assert_eq!(
        detail(Record::read_from(&mut short.as_slice()).unwrap_err()),
        "truncated record id length"
    );
    let bytes = vec![1, 0, 0, 0, 0, 5, 0, 0, 0];
    assert_eq!(
        detail(Record::read_from(&mut bytes.as_slice()).unwrap_err()),
        "truncated record document bytes"
    );
}

#[test]
fn a_log_of_operations_reads_back_record_by_record() {
    let mut db = fresh();
    db.create_json(r#"{"_id":"a"}"#).unwrap();
    db.create_json(r#"{"_id":"b"}"#).unwrap();
    db.delete_json(r#"{"_id":"a"}"#).unwrap();
    let log = db.log().to_vec();
    let mut rest = log.as_slice();
    let mut ids = Vec::new();
    while let Some(record) = Record::read_from(&mut rest).unwrap() {
        match record {
            Record::Put { id, doc } => {
                let value = engine::db::decode_document(&id, &doc).unwrap();
                assert_eq!(value.id_str(), Some(id.as_str()));
                ids.push(format!("put {id}"));
            }
            Record::Delete { id } => ids.push(format!("delete {id}")),
        }
    }
    assert_eq!(ids, vec!["put a", "put b", "delete a"]);
    assert!(rest.is_empty());
}

#[test]
fn path_errors_carry_their_messages() {
    let mut db = fresh();
    db.create_json(r#"{"_id":"a","x":5}"#).unwrap();
    let e = db.update_json(r#"{"filter":{"_id":"a"},"set":{"x.y":1}}"#).unwrap_err();
    assert_eq!(detail(e), "path segment 'x' is not an object");
    let mut value = Value::Int(3);
    let e = engine::set_path(&mut value, "a", Value::Null).unwrap_err();
    assert_eq!(detail(e), "root document must be an object");
    let e = engine::unset_path(&mut value, "a").unwrap_err();
    assert_eq!(detail(e), "root document must be an object");
    let e = engine::unset_path(&mut value, "a..b").unwrap_err();
    assert_eq!(detail(e), "invalid path: a..b");
}
