use notestore::codec::parse_notes;
use notestore::codec::serialize_notes;
use notestore::note::Note;
use notestore::store::load_notes;
use notestore::store::save_note;
use notestore::store::write_with_note;

#[test]
fn load_without_file_is_empty() {
    let loaded = load_notes(None).expect("missing file must not be an error");
    assert_eq!(loaded.len(), 0);
}

#[test]
fn save_then_load_single_note() {
    let before = chrono::Utc::now().timestamp();
    let saved = save_note(None, "T", "C");
    let after = chrono::Utc::now().timestamp();
    let loaded = load_notes(Some(&saved.contents)).expect("fresh save must load");
    assert_eq!(loaded.len(), 1);
    assert_eq!(loaded[0].title, "T");
    assert_eq!(loaded[0].content, "C");
    assert_eq!(loaded[0].id, saved.id);
    assert!(!loaded[0].id.is_empty());
    assert!(before <= loaded[0].timestamp && loaded[0].timestamp <= after);
}

#[test]
fn sequential_saves_append_in_order() {
    let first = save_note(None, "a", "1");
    let second = save_note(Some(&first.contents), "b", "2");
    let third = save_note(Some(&second.contents), "c", "3");
    let loaded = load_notes(Some(&third.contents)).expect("chained saves must load");
    assert_eq!(loaded.len(), 3);
    assert_eq!(loaded[0].title, "a");
    assert_eq!(loaded[1].title, "b");
    assert_eq!(loaded[2].title, "c");
    assert_ne!(loaded[0].id, loaded[1].id);
    assert_ne!(loaded[0].id, loaded[2].id);
    assert_ne!(loaded[1].id, loaded[2].id);
}

#[test]
fn round_trip_keeps_every_field() {
    let notes = vec![
        Note {
            id: "one".to_string(),
            title: "plain".to_string(),
            content: "text".to_string(),
            timestamp: 0,
        },
        Note {
            id: "two".to_string(),
            title: "with \"quotes\" and \\slashes\\".to_string(),
            content: "line\nbreak\ttab\rreturn".to_string(),
            timestamp: -12345,
        },
        Note {
            id: "three".to_string(),
            title: "unicode \u{00e9}\u{1f600}".to_string(),
            content: "control \u{0001}\u{001f} end".to_string(),
            timestamp: i64::MAX,
        },
        Note {
            id: String::new(),
            title: String::new(),
            content: String::new(),
            timestamp: i64::MIN,
        },
    ];
    let text = serialize_notes(&notes);
    let back = parse_notes(&text).expect("serialized text must parse");
    assert_eq!(back.len(), notes.len());
    for (a, b) in notes.iter().zip(back.iter()) {
        assert_eq!(a.id, b.id);
        assert_eq!(a.title, b.title);
        assert_eq!(a.content, b.content);
        assert_eq!(a.timestamp, b.timestamp);
    }
}

#[test]
fn save_discards_malformed_file_and_load_reports_it() {
    let garbage = "this is { not a note collection ]";
    assert!(load_notes(Some(garbage)).is_err());
    let saved = save_note(Some(garbage), "fresh", "start");
    let loaded = load_notes(Some(&saved.contents)).expect("save over garbage must load");
    assert_eq!(loaded.len(), 1);
    assert_eq!(loaded[0].title, "fresh");
    assert_eq!(loaded[0].content, "start");
}

#[test]
fn save_accepts_empty_title_and_content() {
    let saved = save_note(None, "", "");
    let loaded = load_notes(Some(&saved.contents)).expect("empty fields must be stored");
    assert_eq!(loaded.len(), 1);
    assert_eq!(loaded[0].title, "");
    assert_eq!(loaded[0].content, "");
}

#[test]
fn fresh_identifiers_do_not_collide() {
    let first = save_note(None, "x", "y");
    let second = save_note(Some(&first.contents), "x", "y");
    assert_eq!(first.id.len(), 36);
    assert_eq!(second.id.len(), 36);
    assert_ne!(first.id, second.id);
}

#[test]
fn parser_accepts_compact_form() {
    let text = "[{\"id\":\"a\",\"title\":\"b\",\"content\":\"c\",\"timestamp\":5}]";
    let notes = parse_notes(text).expect("compact form must parse");
    assert_eq!(notes.len(), 1);
    assert_eq!(notes[0].id, "a");
    assert_eq!(notes[0].title, "b");
    assert_eq!(notes[0].content, "c");
    assert_eq!(notes[0].timestamp, 5);
}

#[test]
fn parser_accepts_empty_array_forms() {
    assert_eq!(parse_notes("[]").expect("empty array").len(), 0);
    assert_eq!(parse_notes("  [\n]\n").expect("spaced empty array").len(), 0);
}

#[test]
fn parser_decodes_escapes() {
    let text = "[{\"id\":\"\\u0009\",\"title\":\"\\\"\\\\\",\"content\":\"\\n\\r\\t\\b\\f\\/\",\"timestamp\":-7}]";
    let notes = parse_notes(text).expect("escapes must parse");
    assert_eq!(notes[0].id, "\t");
    assert_eq!(notes[0].title, "\"\\");
    assert_eq!(notes[0].content, "\n\r\t\u{8}\u{c}/");
    assert_eq!(notes[0].timestamp, -7);
}

#[test]
fn parser_rejects_broken_text() {
    assert!(parse_notes("").is_none());
    assert!(parse_notes("[").is_none());
    assert!(parse_notes("[]x").is_none());
    assert!(parse_notes("[{}]").is_none());
    assert!(parse_notes("[{\"id\":\"a\",\"title\":\"b\",\"content\":\"c\",\"timestamp\":}]").is_none());
    assert!(parse_notes("[{\"id\":\"a\",\"title\":\"b\",\"content\":\"c\",\"timestamp\":05}]").is_none());
    assert!(
        parse_notes(
            "[{\"id\":\"a\",\"title\":\"b\",\"content\":\"c\",\"timestamp\":99999999999999999999}]",
        )
        .is_none()
    );
    assert!(parse_notes("[{\"id\":\"a\",\"title\":\"b\",\"content\":\"c\",\"timestamp\":5},]").is_none());
}

#[test]
fn write_with_note_is_deterministic_in_its_inputs() {
    let a = write_with_note(None, "t", "c", "fixed-id", 99);
    let b = write_with_note(None, "t", "c", "fixed-id", 99);
    assert_eq!(a, b);
    let reloaded = parse_notes(&a).expect("written text must parse");
    assert_eq!(reloaded.len(), 1);
    assert_eq!(reloaded[0].id, "fixed-id");
    assert_eq!(reloaded[0].timestamp, 99);
}

#[test]
fn serde_json_reads_what_the_store_writes() {
    let saved = save_note(None, "inter \"op\"", "line\none");
    let value: serde_json::Value =
        serde_json::from_str(&saved.contents).expect("store output must be well-formed");
    let entries = value.as_array().expect("an array");
    assert_eq!(entries.len(), 1);
    let entry = entries[0].as_object().expect("an object");
    assert_eq!(entry.get("title").and_then(|v| v.as_str()), Some("inter \"op\""));
    assert_eq!(entry.get("content").and_then(|v| v.as_str()), Some("line\none"));
    assert_eq!(entry.get("id").and_then(|v| v.as_str()), Some(saved.id.as_str()));
}

#[test]
fn store_reads_other_pretty_layouts() {
    let pretty = "[\r\n    {\r\n        \"id\": \"11111111-2222-3333-4444-555555555555\",\r\n        \"title\": \"from elsewhere\",\r\n        \"content\": \"tab\\there \\\"and\\\" quote\",\r\n        \"timestamp\": 1700000000\r\n    }\r\n]\r\n";
    let as_value: serde_json::Value =
        serde_json::from_str(pretty).expect("the sample must be well-formed");
    assert!(as_value.is_array());
    let notes = load_notes(Some(pretty)).expect("other layouts must load");
    assert_eq!(notes.len(), 1);
    assert_eq!(notes[0].id, "11111111-2222-3333-4444-555555555555");
    assert_eq!(notes[0].title, "from elsewhere");
    assert_eq!(notes[0].content, "tab\there \"and\" quote");
    assert_eq!(notes[0].timestamp, 1700000000);
}

#[test]
fn file_name_is_fixed() {
    assert_eq!(notestore::notes_file_name(), "notes.json");
}

#[test]
fn malformed_load_reports_context_and_cause() {
    let err = load_notes(Some("nonsense")).unwrap_err();
    let msg = err.message();
    assert!(msg.starts_with("Failed to parse notes file: "));
    assert_eq!(
        msg,
        "Failed to parse notes file: the text does not hold a well-formed note collection"
    );
}
