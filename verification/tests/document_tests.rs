use snippet_store::collection::{Collection, Snippet};
use snippet_store::error::StorageError;
use snippet_store::json::JsonStorage;
use snippet_store::timestamp::Timestamp;

fn stamp(second: u8) -> Timestamp {
    Timestamp { year: 2024, month: 1, day: 2, hour: 3, minute: 4, second, offset_minutes: 0 }
}

fn snip(text: &str, second: u8) -> Snippet {
    Snippet { content: text.to_string(), created_at: stamp(second) }
}

#[test]
fn render_empty_document() {
    let storage = JsonStorage::new("/tmp/ignored.json".to_string());
    let col = Collection::new();
    assert_eq!(storage.save(&col), "{}");
}

#[test]
fn render_one_entry_exact() {
    let storage = JsonStorage::new("/tmp/ignored.json".to_string());
    let mut col = Collection::new();
    col.insert("foo".to_string(), snip("hello", 5));
    assert_eq!(
        storage.save(&col),
        "{\n  \"foo\": { \"content\": \"hello\", \"created_at\": \"2024-01-02T03:04:05Z\" }\n}"
    );
}

#[test]
fn render_escapes_specials() {
    let storage = JsonStorage::new("/tmp/ignored.json".to_string());
    let mut col = Collection::new();
    col.insert("a\"b".to_string(), snip("line1\nline2\\end", 9));
    assert_eq!(
        storage.save(&col),
        "{\n  \"a\\u0022b\": { \"content\": \"line1\\nline2\\\\end\", \"created_at\": \"2024-01-02T03:04:09Z\" }\n}"
    );
}

#[test]
fn missing_file_loads_empty() {
    let storage = JsonStorage::new("/tmp/does_not_matter.json".to_string());
    let col = storage.load(None).expect("missing resource is not an error");
    assert_eq!(col.len(), 0);
    assert!(col.get("anything").is_none());
}

#[test]
fn malformed_document_is_parse_error() {
    let storage = JsonStorage::new("/tmp/ignored.json".to_string());
    for bad in [
        "",
        "{",
        "nonsense",
        "{\n}",
        "{\n  \"a\": { \"content\": \"x\", \"created_at\": \"not-a-stamp\" }\n}",
        "{\n  \"a\": { \"content\": \"x\", \"created_at\": \"2024-01-02T03:04:05Z\" }\n",
        "{\n  \"a\": { \"content\": \"x\" }\n}",
    ] {
        match storage.load(Some(bad)) {
            Err(e) => assert_eq!(e, StorageError::Parse),
            Ok(_) => panic!("malformed document accepted: {bad}"),
        }
    }
}

#[test]
fn canonical_document_always_parses() {
    // The acceptance direction: a document in the canonical form is never
    // rejected, whoever wrote it.
    let storage = JsonStorage::new("/tmp/ignored.json".to_string());
    let text = "{\n  \"a\": { \"content\": \"x\", \"created_at\": \"2024-01-02T03:04:05Z\" },\n  \"b\": { \"content\": \"\", \"created_at\": \"1999-12-31T23:59:59+05:30\" }\n}";
    let col = storage.load(Some(text)).expect("canonical document parses");
    assert_eq!(col.len(), 2);
    assert_eq!(col.get("a").expect("a").content, "x");
    assert_eq!(col.get("b").expect("b").content, "");
    assert_eq!(
        col.get("b").expect("b").created_at,
        Timestamp { year: 1999, month: 12, day: 31, hour: 23, minute: 59, second: 59, offset_minutes: 330 }
    );
    assert_eq!(storage.save(&col), text);
}

#[test]
fn save_then_load_round_trip() {
    let storage = JsonStorage::new("/tmp/ignored.json".to_string());
    let mut col = Collection::new();
    col.insert("foo".to_string(), snip("hello", 1));
    col.insert("bar".to_string(), snip("with \"quotes\" and\nnewlines \\ too", 2));
    col.insert("baz".to_string(), snip("", 3));
    let text = storage.save(&col);
    let back = storage.load(Some(&text)).expect("canonical document parses");
    assert_eq!(back.len(), 3);
    for (name, want_text, want_sec) in [
        ("foo", "hello", 1),
        ("bar", "with \"quotes\" and\nnewlines \\ too", 2),
        ("baz", "", 3),
    ] {
        let sn = back.get(name).expect("entry survives the round trip");
        assert_eq!(sn.content, want_text);
        assert_eq!(sn.created_at, stamp(want_sec));
    }
}

#[test]
fn full_replace_drops_old_entries() {
    let storage = JsonStorage::new("/tmp/ignored.json".to_string());
    let mut first = Collection::new();
    first.insert("old".to_string(), snip("gone", 1));
    let _ = storage.save(&first);
    let mut second = Collection::new();
    second.insert("new".to_string(), snip("kept", 2));
    let text = storage.save(&second);
    let back = storage.load(Some(&text)).expect("canonical document parses");
    assert_eq!(back.len(), 1);
    assert!(back.get("old").is_none());
    assert_eq!(back.get("new").expect("kept").content, "kept");
}

#[test]
fn duplicate_keys_replace_in_collection() {
    let mut col = Collection::new();
    col.insert("k".to_string(), snip("first", 1));
    col.insert("k".to_string(), snip("second", 2));
    assert_eq!(col.len(), 1);
    assert_eq!(col.get("k").expect("present").content, "second");
    assert!(col.remove("k"));
    assert!(!col.remove("k"));
    assert_eq!(col.len(), 0);
}
