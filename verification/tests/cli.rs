use engine::command::{parse_command, parse_payload, Command};
use engine::Database;
use tempfile::NamedTempFile;

fn temp_db() -> (NamedTempFile, Database) {
    let file = NamedTempFile::new().unwrap();
    let db = Database::open(file.path().to_str().unwrap());
    (file, db)
}

fn run_create(db: &mut Database, command: &str) {
    match parse_command(command).unwrap() {
        Command::Create(payload) => db.create_json(payload).unwrap(),
        _ => panic!("expected a create command"),
    }
}

#[test]
fn create_prints_ok() {
    let (_file, mut db) = temp_db();
    match parse_command(r#"create({"_id":"u1","name":"Anna"})"#).unwrap() {
        Command::Create(payload) => {
            assert_eq!(payload, r#"{"_id":"u1","name":"Anna"}"#);
            assert!(db.create_json(payload).is_ok());
        }
        _ => panic!("expected a create command"),
    }
}

#[test]
fn get_prints_json() {
    let (_file, mut db) = temp_db();
    run_create(&mut db, r#"create({"_id":"u1","name":"Anna"})"#);

    match parse_command(r#"get({"_id":"u1"})"#).unwrap() {
        Command::Get(payload) => {
            let doc = db.get_json(payload).unwrap().unwrap();
            assert_eq!(
                doc.get_path("name"),
                Some(&engine::Value::String("Anna".to_string()))
            );
        }
        _ => panic!("expected a get command"),
    }
}

#[test]
fn delete_prints_boolean() {
    let (_file, mut db) = temp_db();
    run_create(&mut db, r#"create({"_id":"u1","name":"Anna"})"#);

    match parse_command(r#"delete({"_id":"u1"})"#).unwrap() {
        Command::Delete(payload) => assert!(db.delete_json(payload).unwrap()),
        _ => panic!("expected a delete command"),
    }
}

#[test]
fn dump_prints_json_array() {
    let (_file, mut db) = temp_db();
    run_create(&mut db, r#"create({"_id":"u1","name":"Anna"})"#);

    match parse_command("dump()").unwrap() {
        Command::Dump => assert_eq!(db.dump_json().unwrap().len(), 1),
        _ => panic!("expected a dump command"),
    }
}

#[test]
fn invalid_command_exits_nonzero() {
    let err = parse_command("wat()").err().unwrap();
    assert!(err.contains("unknown command"));
}

#[test]
fn command_is_trimmed_before_parsing() {
    assert!(matches!(parse_command("  dump()\n"), Ok(Command::Dump)));
    match parse_command("\tfind( {\"path\":\"a\",\"eq\":1} ) \n").unwrap() {
        Command::Find(payload) => assert_eq!(payload, "{\"path\":\"a\",\"eq\":1}"),
        _ => panic!("expected a find command"),
    }
}

#[test]
fn command_without_closing_parenthesis_is_refused() {
    let err = parse_command(r#"create({"_id":"u1"}"#).err().unwrap();
    assert_eq!(err, "command must end with ')'");
}

#[test]
fn command_with_blank_payload_is_refused() {
    let err = parse_command("update(   )").err().unwrap();
    assert_eq!(err, "command payload must not be empty");
}

#[test]
fn each_command_word_is_recognised() {
    assert!(matches!(parse_command("get(x)"), Ok(Command::Get("x"))));
    assert!(matches!(parse_command("delete(x)"), Ok(Command::Delete("x"))));
    assert!(matches!(parse_command("update(x)"), Ok(Command::Update("x"))));
    assert!(matches!(parse_command("find(x)"), Ok(Command::Find("x"))));
    assert!(matches!(parse_command("create(x)"), Ok(Command::Create("x"))));
    assert_eq!(parse_command("dump( )").err().unwrap(), "unknown command");
}

#[test]
fn payload_of_other_prefix_is_none() {
    assert_eq!(parse_payload("get(x)", "create(").unwrap(), None);
    assert_eq!(parse_payload("get( x )", "get(").unwrap(), Some("x"));
}
