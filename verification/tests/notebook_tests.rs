use notebook::codec::{decode_notes, encode_notes, load_notes, DecodeError};
use notebook::note::Note;
use notebook::store::NotebookStore;
use notebook::tags::{join_tags, parse_tags};
use notebook::timestamp::Timestamp;

fn ts(year: u32, month: u32, day: u32, hour: u32, minute: u32, second: u32, nanos: u32) -> Timestamp {
    Timestamp { year, month, day, hour, minute, second, nanos }
}

fn note(title: &str, content: &str, tags: &[&str], at: Timestamp) -> Note {
    Note {
        title: title.to_string(),
        content: content.to_string(),
        created_at: at,
        updated_at: at,
        tags: tags.iter().map(|t| t.to_string()).collect(),
    }
}

fn store_with(notes: Vec<Note>) -> NotebookStore {
    NotebookStore::from_notes(notes)
}

fn three_notes() -> Vec<Note> {
    let t = ts(2024, 1, 1, 0, 0, 0, 0);
    vec![
        note("A", "first", &["x"], t),
        note("B", "second", &[], t),
        note("C", "third", &["y", "z"], t),
    ]
}

#[test]
fn tag_parsing_splits_trims_and_drops_empties() {
    assert_eq!(parse_tags(" a, b ,, c "), vec!["a".to_string(), "b".to_string(), "c".to_string()]);
}

#[test]
fn tag_parsing_of_blank_input_is_empty() {
    assert_eq!(parse_tags(""), Vec::<String>::new());
    assert_eq!(parse_tags("   "), Vec::<String>::new());
    assert_eq!(parse_tags(" , ,  , "), Vec::<String>::new());
}

#[test]
fn tag_parsing_trims_unicode_whitespace() {
    // No-break space, em space and ideographic space carry the Unicode
    // White_Space property and are trimmed like ASCII blanks.
    assert_eq!(
        parse_tags("\u{a0}a\u{a0}, \u{2003}b\u{2003}c\u{2003},\u{3000}\u{85}"),
        vec!["a".to_string(), "b\u{2003}c".to_string()]
    );
}

#[test]
fn tag_parsing_keeps_order_and_duplicates() {
    assert_eq!(
        parse_tags("b,a,b"),
        vec!["b".to_string(), "a".to_string(), "b".to_string()]
    );
}

#[test]
fn tag_parsing_is_idempotent_through_joining() {
    for raw in ["", "  ", " a, b ,, c ", "x,,y , z z ", ","] {
        let once = parse_tags(raw);
        let again = parse_tags(&join_tags(&once));
        assert_eq!(again, once);
    }
}

#[test]
fn tag_join_of_none_or_one_adds_no_separator() {
    assert_eq!(join_tags(&Vec::new()), "");
    assert_eq!(join_tags(&vec!["solo".to_string()]), "solo");
}

#[test]
fn tag_join_then_parse_round_trips() {
    let tags = vec!["alpha".to_string(), "beta gamma".to_string(), "d".to_string()];
    let joined = join_tags(&tags);
    assert_eq!(joined, "alpha, beta gamma, d");
    assert_eq!(parse_tags(&joined), tags);
}

#[test]
fn add_note_appends_at_end_with_equal_timestamps() {
    let mut store = store_with(three_notes());
    store.new_title = "D".to_string();
    store.new_content = "fourth".to_string();
    store.new_tags = "p, q".to_string();
    let now = ts(2024, 2, 2, 10, 30, 0, 5);
    store.add_note(now);
    assert_eq!(store.notes.len(), 4);
    let added = &store.notes[3];
    assert_eq!(added.title, "D");
    assert_eq!(added.content, "fourth");
    assert_eq!(added.tags, vec!["p".to_string(), "q".to_string()]);
    assert_eq!(added.created_at, now);
    assert_eq!(added.updated_at, now);
    assert_eq!(store.new_title, "");
    assert_eq!(store.new_content, "");
    assert_eq!(store.new_tags, "");
}

#[test]
fn update_refreshes_timestamp_but_not_created_at() {
    let mut store = store_with(three_notes());
    let before = store.notes[1].clone();
    let later = ts(2025, 6, 7, 8, 9, 10, 11);
    store.update_note_by_index(1, "changed".to_string(), later);
    let after = &store.notes[1];
    assert_eq!(after.content, "changed");
    assert_eq!(after.title, before.title);
    assert_eq!(after.tags, before.tags);
    assert_eq!(after.created_at, before.created_at);
    assert_eq!(after.updated_at, later);
    assert!(after.created_at.le(&after.updated_at));
}

#[test]
fn update_never_moves_updated_at_backwards() {
    let mut store = store_with(vec![note("A", "a", &[], ts(2024, 5, 5, 5, 5, 5, 0))]);
    let earlier = ts(2020, 1, 1, 0, 0, 0, 0);
    store.update_note_by_index(0, "rewound".to_string(), earlier);
    assert_eq!(store.notes[0].content, "rewound");
    assert_eq!(store.notes[0].updated_at, ts(2024, 5, 5, 5, 5, 5, 0));
}

#[test]
fn update_note_replaces_title_content_and_tags() {
    let mut store = store_with(three_notes());
    let later = ts(2026, 1, 1, 0, 0, 0, 0);
    store.update_note(2, "C2".to_string(), "third, revised".to_string(), "m , n", later);
    let n = &store.notes[2];
    assert_eq!(n.title, "C2");
    assert_eq!(n.content, "third, revised");
    assert_eq!(n.tags, vec!["m".to_string(), "n".to_string()]);
    assert_eq!(n.created_at, ts(2024, 1, 1, 0, 0, 0, 0));
    assert_eq!(n.updated_at, later);
}

#[test]
fn delete_shifts_later_indices_down() {
    let mut store = store_with(three_notes());
    store.delete_note_by_index(1);
    assert_eq!(store.notes.len(), 2);
    assert_eq!(store.notes[0].title, "A");
    assert_eq!(store.notes[1].title, "C");
}

#[test]
fn batch_delete_must_run_in_descending_order() {
    // Deleting indices 2 then 0 leaves exactly the middle note.
    let mut descending = store_with(three_notes());
    descending.delete_note_by_index(2);
    descending.delete_note_by_index(0);
    assert_eq!(descending.notes.len(), 1);
    assert_eq!(descending.notes[0].title, "B");

    // The same indices in ascending order hit shifted positions: the
    // second delete is out of bounds and the store keeps two notes.
    let mut ascending = store_with(three_notes());
    ascending.delete_note_by_index(0);
    ascending.delete_note_by_index(2);
    assert_eq!(ascending.notes.len(), 2);
    assert_eq!(ascending.notes[0].title, "B");
    assert_eq!(ascending.notes[1].title, "C");
    assert_ne!(ascending.notes.len(), descending.notes.len());
}

#[test]
fn batch_delete_removes_each_index_in_turn() {
    let mut store = store_with(three_notes());
    store.delete_notes(&vec![2usize, 0usize]);
    assert_eq!(store.notes.len(), 1);
    assert_eq!(store.notes[0].title, "B");

    // Ascending indices from one snapshot hit shifted positions instead.
    let mut wrong = store_with(three_notes());
    wrong.delete_notes(&vec![0usize, 2usize]);
    assert_eq!(wrong.notes.len(), 2);
}

#[test]
fn out_of_bounds_operations_are_silent_no_ops() {
    let mut store = store_with(three_notes());
    let before = store.notes.clone();
    store.delete_note_by_index(99);
    assert_eq!(store.notes, before);
    store.update_note_by_index(99, "nope".to_string(), ts(2030, 1, 1, 0, 0, 0, 0));
    assert_eq!(store.notes, before);
    store.update_note(99, "t".to_string(), "c".to_string(), "x", ts(2030, 1, 1, 0, 0, 0, 0));
    assert_eq!(store.notes, before);
}

#[test]
fn encode_of_known_note_is_exact() {
    let n = note("a", "b", &["x"], ts(2024, 1, 1, 0, 0, 0, 0));
    let payload = encode_notes(&vec![n]);
    assert_eq!(
        payload,
        "[{\"title\":\"a\",\"content\":\"b\",\"created_at\":\"2024-01-01T00:00:00Z\",\"updated_at\":\"2024-01-01T00:00:00Z\",\"tags\":[\"x\"]}]"
    );
}

#[test]
fn encode_empty_collection_is_empty_array() {
    assert_eq!(encode_notes(&Vec::new()), "[]");
}

#[test]
fn encode_writes_nanosecond_fraction_only_when_nonzero() {
    let n = note("a", "b", &[], ts(2024, 12, 31, 23, 59, 59, 123));
    let payload = encode_notes(&vec![n]);
    assert!(payload.contains("\"2024-12-31T23:59:59.000000123Z\""));
}

#[test]
fn encode_escapes_quotes_backslashes_and_controls() {
    let n = note("q\"t", "line\nback\\slash\ttab\u{1}", &[], ts(2024, 1, 1, 0, 0, 0, 0));
    let payload = encode_notes(&vec![n]);
    assert!(payload.contains("q\\\"t"));
    assert!(payload.contains("line\\u000aback\\\\slash\\u0009tab\\u0001"));
}

#[test]
fn decode_of_encode_is_identity() {
    let t1 = ts(2024, 3, 4, 5, 6, 7, 890000001);
    let mut n1 = note("Notiz \"eins\"", "first\nline two\\done", &["a", "b b", "a"], t1);
    n1.updated_at = ts(2024, 3, 5, 0, 0, 0, 0);
    let n2 = note("", "", &[], ts(0, 1, 1, 0, 0, 0, 0));
    let n3 = note("unicode \u{e4}\u{f6}\u{fc} \u{1f600}", "ctrl:\u{1}\u{1f}", &["\u{e9}"], ts(9999, 12, 31, 23, 59, 59, 999999999));
    let notes = vec![n1, n2, n3];
    let decoded = decode_notes(&encode_notes(&notes)).expect("round trip must decode");
    assert_eq!(decoded, notes);
}

#[test]
fn decode_reads_short_escapes_and_short_fractions() {
    // The shape an earlier writer using compact JSON emits: \n-style
    // escapes and a three-digit subsecond fraction.
    let payload = "[{\"title\":\"a\",\"content\":\"x\\ny\\tz\\b\\f\\r\\/\",\"created_at\":\"2024-01-01T00:00:00.123Z\",\"updated_at\":\"2024-01-01T00:00:00.123456Z\",\"tags\":[]}]";
    let notes = decode_notes(payload).expect("short escapes and fractions decode");
    assert_eq!(notes.len(), 1);
    assert_eq!(notes[0].content, "x\ny\tz\u{8}\u{c}\r/");
    assert_eq!(notes[0].created_at.nanos, 123_000_000);
    assert_eq!(notes[0].updated_at.nanos, 123_456_000);
}

#[test]
fn decode_rejects_bad_fractions() {
    // An empty fraction and a ten-digit fraction are both malformed.
    let empty = "[{\"title\":\"a\",\"content\":\"b\",\"created_at\":\"2024-01-01T00:00:00.Z\",\"updated_at\":\"2024-01-01T00:00:00Z\",\"tags\":[]}]";
    assert_eq!(decode_notes(empty), Err(DecodeError::Malformed));
    let long = "[{\"title\":\"a\",\"content\":\"b\",\"created_at\":\"2024-01-01T00:00:00.0123456789Z\",\"updated_at\":\"2024-01-01T00:00:00Z\",\"tags\":[]}]";
    assert_eq!(decode_notes(long), Err(DecodeError::Malformed));
}

#[test]
fn decode_of_empty_array_is_empty_collection() {
    assert_eq!(decode_notes("[]").expect("empty array decodes"), Vec::<Note>::new());
}

#[test]
fn decode_rejects_malformed_text() {
    assert_eq!(decode_notes(""), Err(DecodeError::Malformed));
    assert_eq!(decode_notes("not json"), Err(DecodeError::Malformed));
    assert_eq!(decode_notes("["), Err(DecodeError::Malformed));
    assert_eq!(decode_notes("[]x"), Err(DecodeError::Malformed));
    assert_eq!(
        decode_notes("[{\"title\":\"a\"}]"),
        Err(DecodeError::Malformed)
    );
    // updated_at before created_at is not a valid collection
    assert_eq!(
        decode_notes("[{\"title\":\"a\",\"content\":\"b\",\"created_at\":\"2024-01-01T00:00:00Z\",\"updated_at\":\"2023-01-01T00:00:00Z\",\"tags\":[]}]"),
        Err(DecodeError::Malformed)
    );
}

#[test]
fn load_notes_without_storage_is_fresh_start() {
    assert_eq!(load_notes(None).expect("fresh start"), Vec::<Note>::new());
}

#[test]
fn load_notes_with_storage_decodes_it() {
    let notes = three_notes();
    let payload = encode_notes(&notes);
    assert_eq!(load_notes(Some(&payload)).expect("stored text decodes"), notes);
    assert_eq!(load_notes(Some("broken")), Err(DecodeError::Malformed));
}

#[test]
fn persisted_payload_reloads_to_in_memory_state_after_each_mutation() {
    let mut store = store_with(three_notes());

    store.new_title = "D".to_string();
    store.new_content = "d".to_string();
    store.new_tags = "t1,t2".to_string();
    store.add_note(ts(2024, 6, 1, 12, 0, 0, 0));
    assert_eq!(decode_notes(&store.persist_payload()).unwrap(), store.notes);

    store.update_note_by_index(0, "A changed".to_string(), ts(2024, 6, 2, 12, 0, 0, 0));
    assert_eq!(decode_notes(&store.persist_payload()).unwrap(), store.notes);

    store.delete_note_by_index(1);
    assert_eq!(decode_notes(&store.persist_payload()).unwrap(), store.notes);
}

#[test]
fn edit_session_populates_drafts_and_commits() {
    let mut store = store_with(three_notes());
    store.begin_edit(2);
    assert_eq!(store.edit_index, Some(2));
    assert_eq!(store.new_title, "C");
    assert_eq!(store.new_content, "third");
    assert_eq!(store.new_tags, "y, z");

    store.new_content = "third v2".to_string();
    store.save_changes(ts(2024, 8, 8, 8, 8, 8, 8));
    assert_eq!(store.edit_index, None);
    assert_eq!(store.new_title, "");
    assert_eq!(store.new_content, "");
    assert_eq!(store.new_tags, "");
    assert_eq!(store.notes[2].content, "third v2");
    assert_eq!(store.notes[2].tags, vec!["y".to_string(), "z".to_string()]);
}

#[test]
fn save_changes_with_empty_content_or_no_session_changes_nothing() {
    let mut idle = store_with(three_notes());
    let before = idle.notes.clone();
    idle.save_changes(ts(2024, 9, 9, 9, 9, 9, 9));
    assert_eq!(idle.notes, before);

    let mut editing = store_with(three_notes());
    editing.begin_edit(0);
    editing.new_content = String::new();
    editing.save_changes(ts(2024, 9, 9, 9, 9, 9, 9));
    assert_eq!(editing.notes, before);
    assert_eq!(editing.edit_index, Some(0));
}

#[test]
fn save_changes_with_stale_index_returns_to_idle_without_writing() {
    let mut store = store_with(three_notes());
    store.begin_edit(2);
    store.delete_note_by_index(2);
    store.delete_note_by_index(1);
    store.new_content = "stale".to_string();
    store.save_changes(ts(2024, 10, 10, 10, 10, 10, 10));
    assert_eq!(store.edit_index, None);
    assert_eq!(store.notes.len(), 1);
    assert_eq!(store.notes[0].content, "first");
}

#[test]
fn clock_reading_is_well_formed() {
    let now = Timestamp::now();
    assert!(now.month >= 1 && now.month <= 12);
    assert!(now.day >= 1 && now.day <= 31);
    assert!(now.hour <= 23);
    assert!(now.minute <= 59);
    assert!(now.second <= 59);
    assert!(now.nanos <= 999_999_999);
    assert!(now.year >= 2020);
}

#[test]
fn note_construction_sets_both_timestamps() {
    let at = ts(2024, 4, 4, 4, 4, 4, 4);
    let n = Note::new("t".to_string(), "c".to_string(), vec!["x".to_string()], at);
    assert_eq!(n.created_at, at);
    assert_eq!(n.updated_at, at);
    let n2 = Note::new_now("t".to_string(), "c".to_string(), Vec::new());
    assert_eq!(n2.created_at, n2.updated_at);
}

#[test]
fn empty_store_is_idle_with_empty_drafts() {
    let store = NotebookStore::empty();
    assert!(store.notes.is_empty());
    assert_eq!(store.edit_index, None);
    assert_eq!(store.new_title, "");
    assert_eq!(store.new_content, "");
    assert_eq!(store.new_tags, "");
}
