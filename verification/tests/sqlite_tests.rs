use snippet_store::collection::{Collection, Snippet};
use snippet_store::command::{dispatch, parse_command, Command, Outcome};
use snippet_store::config::{parse_config, Provider};
use snippet_store::sqlite::SqliteStorage;
use snippet_store::timestamp::Timestamp;

fn stamp(second: u8) -> Timestamp {
    Timestamp { year: 2024, month: 3, day: 4, hour: 5, minute: 6, second, offset_minutes: 0 }
}

fn fresh_path(tag: &str) -> String {
    let nanos = time::OffsetDateTime::now_utc().unix_timestamp_nanos();
    format!("/tmp/snippet_store_{tag}_{nanos}.db")
}

#[test]
fn fresh_database_loads_empty() {
    let storage = SqliteStorage::new(fresh_path("fresh")).expect("open and create schema");
    let col = storage.load().expect("schema-only database loads");
    assert_eq!(col.len(), 0);
}

#[test]
fn sqlite_save_then_load_round_trip() {
    let storage = SqliteStorage::new(fresh_path("roundtrip")).expect("open");
    let mut col = Collection::new();
    col.insert(
        "foo".to_string(),
        Snippet { content: "hello\nworld \"quoted\"".to_string(), created_at: stamp(1) },
    );
    col.insert(
        "bar".to_string(),
        Snippet { content: String::new(), created_at: stamp(2) },
    );
    storage.save(&col).expect("save");
    let back = storage.load().expect("load");
    assert_eq!(back.len(), 2);
    let foo = back.get("foo").expect("foo survives");
    assert_eq!(foo.content, "hello\nworld \"quoted\"");
    assert_eq!(foo.created_at, stamp(1));
    let bar = back.get("bar").expect("bar survives");
    assert_eq!(bar.content, "");
    assert_eq!(bar.created_at, stamp(2));
}

#[test]
fn schema_creation_is_idempotent() {
    let path = fresh_path("idempotent");
    let first = SqliteStorage::new(path.clone()).expect("first open");
    let mut col = Collection::new();
    col.insert("keep".to_string(), Snippet { content: "data".to_string(), created_at: stamp(7) });
    first.save(&col).expect("save");
    // Constructing the backend again against the same path must not fail and
    // must not duplicate or alter the stored data.
    let second = SqliteStorage::new(path).expect("second open succeeds");
    let back = second.load().expect("load");
    assert_eq!(back.len(), 1);
    let kept = back.get("keep").expect("row kept");
    assert_eq!(kept.content, "data");
    assert_eq!(kept.created_at, stamp(7));
}

#[test]
fn sqlite_full_replace_drops_old_rows() {
    let storage = SqliteStorage::new(fresh_path("replace")).expect("open");
    let mut a = Collection::new();
    a.insert("a1".to_string(), Snippet { content: "one".to_string(), created_at: stamp(1) });
    a.insert("a2".to_string(), Snippet { content: "two".to_string(), created_at: stamp(2) });
    storage.save(&a).expect("save a");
    let mut b = Collection::new();
    b.insert("b1".to_string(), Snippet { content: "three".to_string(), created_at: stamp(3) });
    storage.save(&b).expect("save b");
    let back = storage.load().expect("load");
    assert_eq!(back.len(), 1);
    assert!(back.get("a1").is_none());
    assert!(back.get("a2").is_none());
    assert_eq!(back.get("b1").expect("b1").content, "three");
}

#[test]
fn scenario_save_delete_read_through_sqlite() {
    // Config selects the relational backend; a snippet is saved from input
    // text, deleted, and a later read reports a miss.
    let (provider, _path) = parse_config("SQLITE:/tmp/s.db").expect("valid config");
    assert_eq!(provider, Provider::Sqlite);
    let storage = SqliteStorage::new(fresh_path("scenario")).expect("open");

    let mut col = storage.load().expect("load");
    let save_cmd = parse_command(
        &vec!["prog".to_string(), "--name".to_string(), "bar".to_string()],
        "world".to_string(),
    );
    let out = dispatch(&mut col, save_cmd, stamp(9));
    assert!(matches!(out, Outcome::Saved));
    storage.save(&col).expect("persist");

    let mut col2 = storage.load().expect("load again");
    let del_cmd = parse_command(
        &vec!["prog".to_string(), "--delete".to_string(), "bar".to_string()],
        String::new(),
    );
    let out2 = dispatch(&mut col2, del_cmd, stamp(9));
    assert!(matches!(out2, Outcome::Deleted));
    assert!(out2.needs_save());
    storage.save(&col2).expect("persist deletion");

    let mut col3 = storage.load().expect("load third time");
    let read_cmd = parse_command(
        &vec!["prog".to_string(), "--read".to_string(), "bar".to_string()],
        String::new(),
    );
    let out3 = dispatch(&mut col3, read_cmd, stamp(9));
    assert!(matches!(out3, Outcome::NotFound));
}

#[test]
fn cross_backend_stamp_compatibility() {
    // A stamp persisted by the file backend parses losslessly on the
    // relational backend's path and the other way round: both store the
    // same fixed format.
    let t = Timestamp { year: 2030, month: 11, day: 30, hour: 22, minute: 33, second: 44, offset_minutes: -765 };
    let rendered = t.format();
    let storage = SqliteStorage::new(fresh_path("cross")).expect("open");
    let mut col = Collection::new();
    col.insert("x".to_string(), Snippet { content: "c".to_string(), created_at: t });
    storage.save(&col).expect("save");
    let back = storage.load().expect("load");
    let got = back.get("x").expect("row");
    assert_eq!(got.created_at, t);
    assert_eq!(got.created_at.format(), rendered);
    assert_eq!(
        snippet_store::timestamp::parse_rfc3339(&rendered),
        Ok(t)
    );
}

#[test]
fn command_to_save_a_snippet_matches(){
    let cmd = parse_command(
        &vec!["prog".to_string(), "--name".to_string(), "n".to_string()],
        "text".to_string(),
    );
    match cmd {
        Command::Save { name, content } => {
            assert_eq!(name, "n");
            assert_eq!(content, "text");
        },
        _ => panic!("expected a save command"),
    }
}
