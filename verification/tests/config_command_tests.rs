use snippet_store::collection::Collection;
use snippet_store::command::{dispatch, parse_command, Command, Outcome};
use snippet_store::config::{parse_config, Provider};
use snippet_store::error::ConfigError;
use snippet_store::json::JsonStorage;
use snippet_store::timestamp::Timestamp;

fn stamp() -> Timestamp {
    Timestamp { year: 2024, month: 5, day: 6, hour: 7, minute: 8, second: 9, offset_minutes: 0 }
}

#[test]
fn config_selects_json() {
    assert_eq!(
        parse_config("JSON:/tmp/s.json"),
        Ok((Provider::Json, "/tmp/s.json".to_string()))
    );
}

#[test]
fn config_selects_sqlite() {
    assert_eq!(
        parse_config("SQLITE:/tmp/s.db"),
        Ok((Provider::Sqlite, "/tmp/s.db".to_string()))
    );
}

#[test]
fn config_without_separator_is_fatal() {
    // An invalid configuration aborts before any load is attempted.
    assert_eq!(parse_config("BOGUS"), Err(ConfigError::Malformed));
    assert_eq!(parse_config(""), Err(ConfigError::Malformed));
}

#[test]
fn config_with_two_separators_is_fatal() {
    assert_eq!(parse_config("JSON:a:b"), Err(ConfigError::Malformed));
}

#[test]
fn config_unknown_provider_is_fatal() {
    assert_eq!(parse_config("XML:/tmp/s.xml"), Err(ConfigError::UnknownProvider));
    assert_eq!(parse_config("json:/tmp/s.json"), Err(ConfigError::UnknownProvider));
    assert_eq!(parse_config(":/tmp/s.json"), Err(ConfigError::UnknownProvider));
}

#[test]
fn config_empty_path_is_accepted() {
    assert_eq!(parse_config("JSON:"), Ok((Provider::Json, String::new())));
}

fn args(list: &[&str]) -> Vec<String> {
    list.iter().map(|a| a.to_string()).collect()
}

#[test]
fn unrecognised_arguments_ask_for_usage() {
    let cmd = parse_command(&args(&["prog"]), String::new());
    assert!(matches!(cmd, Command::Usage));
    let cmd = parse_command(&args(&["prog", "--frobnicate", "x"]), String::new());
    assert!(matches!(cmd, Command::Usage));
    let cmd = parse_command(&args(&["prog", "--read"]), String::new());
    assert!(matches!(cmd, Command::Usage));
}

#[test]
fn scenario_save_then_read_through_file_backend() {
    // Config selects the file backend, a snippet is saved from input text,
    // and a later read reports the stamp and the text.
    let (provider, path) = parse_config("JSON:/tmp/s.json").expect("valid config");
    assert_eq!(provider, Provider::Json);
    let storage = JsonStorage::new(path);

    let mut col = storage.load(None).expect("fresh store is empty");
    let cmd = parse_command(&args(&["prog", "--name", "foo"]), "hello".to_string());
    let out = dispatch(&mut col, cmd, stamp());
    assert!(matches!(out, Outcome::Saved));
    assert!(out.needs_save());
    let written = storage.save(&col);

    let mut col2 = storage.load(Some(&written)).expect("document parses");
    let cmd2 = parse_command(&args(&["prog", "--read", "foo"]), String::new());
    let out2 = dispatch(&mut col2, cmd2, stamp());
    match out2 {
        Outcome::Found { content, created_at } => {
            assert_eq!(content, "hello");
            assert_eq!(created_at, stamp());
        },
        _ => panic!("expected the stored snippet"),
    }
    let cmd3 = parse_command(&args(&["prog", "--read", "missing"]), String::new());
    let out3 = dispatch(&mut col2, cmd3, stamp());
    assert!(matches!(out3, Outcome::NotFound));
    assert!(!out3.needs_save());
}

#[test]
fn delete_persists_only_when_something_changed() {
    let mut col = Collection::new();
    let cmd = parse_command(&args(&["prog", "--name", "bar"]), "world".to_string());
    let _ = dispatch(&mut col, cmd, stamp());
    let del = parse_command(&args(&["prog", "--delete", "bar"]), String::new());
    let out = dispatch(&mut col, del, stamp());
    assert!(matches!(out, Outcome::Deleted));
    assert!(out.needs_save());
    let del_again = parse_command(&args(&["prog", "--delete", "bar"]), String::new());
    let out2 = dispatch(&mut col, del_again, stamp());
    assert!(matches!(out2, Outcome::NotFound));
    assert!(!out2.needs_save());
}
