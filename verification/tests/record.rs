use engine::error::DbError;
use engine::record::Record;

#[test]
fn write_read_put_record() {
    let record = Record::Put {
        id: "u1".to_string(),
        doc: vec![1, 2, 3],
    };

    let mut bytes = Vec::new();
    record.write_to(&mut bytes).unwrap();

    let decoded = Record::read_from(&mut bytes.as_slice()).unwrap();
    assert_eq!(decoded, Some(record));
}

#[test]
fn write_read_delete_record() {
    let record = Record::Delete {
        id: "u1".to_string(),
    };

    let mut bytes = Vec::new();
    record.write_to(&mut bytes).unwrap();

    let decoded = Record::read_from(&mut bytes.as_slice()).unwrap();
    assert_eq!(decoded, Some(record));
}

#[test]
fn truncated_record_returns_error() {
    let bytes = vec![1, 1, 0, 0];
    let err = Record::read_from(&mut bytes.as_slice()).unwrap_err();
    assert!(matches!(err, DbError::InvalidFormat(_)));
}

#[test]
fn unknown_record_tag_returns_error() {
    let bytes = vec![9, 0, 0, 0, 0, 0, 0, 0, 0];
    let err = Record::read_from(&mut bytes.as_slice()).unwrap_err();
    assert!(matches!(err, DbError::InvalidFormat(_)));
}

#[test]
fn empty_input_reads_no_record() {
    let bytes: Vec<u8> = Vec::new();
    let mut rest = bytes.as_slice();
    assert_eq!(Record::read_from(&mut rest).unwrap(), None);
}

#[test]
fn records_read_back_in_order() {
    let first = Record::Put {
        id: "a".to_string(),
        doc: vec![7],
    };
    let second = Record::Delete {
        id: "a".to_string(),
    };
    let mut bytes = Vec::new();
    first.write_to(&mut bytes).unwrap();
    second.write_to(&mut bytes).unwrap();

    let mut rest = bytes.as_slice();
    assert_eq!(Record::read_from(&mut rest).unwrap(), Some(first));
    assert_eq!(Record::read_from(&mut rest).unwrap(), Some(second));
    assert_eq!(Record::read_from(&mut rest).unwrap(), None);
}

#[test]
fn put_record_layout_is_exact() {
    let record = Record::Put {
        id: "ab".to_string(),
        doc: vec![9, 8],
    };
    let mut bytes = Vec::new();
    record.write_to(&mut bytes).unwrap();
    assert_eq!(bytes, vec![1, 2, 0, 0, 0, 2, 0, 0, 0, b'a', b'b', 9, 8]);
}

#[test]
fn delete_record_with_document_bytes_is_refused() {
    let bytes = vec![2, 1, 0, 0, 0, 1, 0, 0, 0, b'a', 0];
    let err = Record::read_from(&mut bytes.as_slice()).unwrap_err();
    assert!(matches!(err, DbError::InvalidFormat(_)));
}
