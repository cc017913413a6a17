use vault::envelope::derive_key;
use vault::store::{parse_notes, serialize_notes, Note};
use vault::vault::{create_note, delete_notes, list_titles, read_note, ReadOutcome};

fn read_plain(notes: &Vec<Note>, title: &str, key: &[u8]) -> Option<Vec<u8>> {
    match read_note(notes, title, key) {
        ReadOutcome::Plaintext(p) => Some(p),
        _ => None,
    }
}

#[test]
fn create_then_read() {
    let key = derive_key(b"abc123");
    let mut notes: Vec<Note> = Vec::new();
    create_note(&mut notes, "shopping".to_string(), b"milk, eggs", &key);
    assert_eq!(read_plain(&notes, "shopping", &key), Some(b"milk, eggs".to_vec()));
    // The same holds after a trip through the persisted text.
    let reloaded = parse_notes(&serialize_notes(&notes)).expect("saved vault must load");
    assert_eq!(read_plain(&reloaded, "shopping", &key), Some(b"milk, eggs".to_vec()));
}

#[test]
fn wrong_password_on_read() {
    let key = derive_key(b"hunter2");
    let wrong = derive_key(b"wrongpass");
    let mut notes: Vec<Note> = Vec::new();
    create_note(&mut notes, "diary".to_string(), b"secret", &key);
    assert!(matches!(read_note(&notes, "diary", &wrong), ReadOutcome::DecryptFailed));
    assert_eq!(read_plain(&notes, "diary", &key), Some(b"secret".to_vec()));
}

#[test]
fn read_missing_title() {
    let key = derive_key(b"pw");
    let notes: Vec<Note> = Vec::new();
    assert!(matches!(read_note(&notes, "absent", &key), ReadOutcome::Missing));
}

#[test]
fn read_finds_first_match_only() {
    let key = derive_key(b"pw");
    let mut notes: Vec<Note> = Vec::new();
    create_note(&mut notes, "dup".to_string(), b"first", &key);
    create_note(&mut notes, "dup".to_string(), b"second", &key);
    assert_eq!(read_plain(&notes, "dup", &key), Some(b"first".to_vec()));
}

#[test]
fn list_filters_by_key() {
    let key_a = derive_key(b"A");
    let key_b = derive_key(b"B");
    let mut notes: Vec<Note> = Vec::new();
    create_note(&mut notes, "one".to_string(), b"1", &key_a);
    create_note(&mut notes, "two".to_string(), b"2", &key_a);
    assert_eq!(list_titles(&notes, &key_b), Vec::<String>::new());
    assert_eq!(list_titles(&notes, &key_a), vec!["one".to_string(), "two".to_string()]);
}

#[test]
fn list_of_empty_vault_is_empty() {
    let key = derive_key(b"A");
    assert_eq!(list_titles(&Vec::new(), &key), Vec::<String>::new());
}

#[test]
fn delete_requires_correct_password() {
    let key1 = derive_key(b"pw1");
    let key2 = derive_key(b"pw2");
    let mut notes: Vec<Note> = Vec::new();
    create_note(&mut notes, "temp".to_string(), b"x", &key1);

    let report = delete_notes(&mut notes, "temp", &key2);
    assert_eq!(report, vec![false]);
    assert_eq!(notes.len(), 1);
    assert_eq!(read_plain(&notes, "temp", &key1), Some(b"x".to_vec()));

    let report = delete_notes(&mut notes, "temp", &key1);
    assert_eq!(report, vec![true]);
    assert_eq!(notes.len(), 0);
    let text = serialize_notes(&notes);
    assert_eq!(text, "[]");
    assert!(!text.contains("temp"));
}

#[test]
fn delete_with_duplicate_titles_removes_all_that_decrypt() {
    let key = derive_key(b"pw");
    let mut notes: Vec<Note> = Vec::new();
    create_note(&mut notes, "dup".to_string(), b"a", &key);
    create_note(&mut notes, "dup".to_string(), b"b", &key);
    let report = delete_notes(&mut notes, "dup", &key);
    assert_eq!(report, vec![true, true]);
    assert!(notes.iter().all(|n| n.title != "dup"));
    assert_eq!(notes.len(), 0);
}

#[test]
fn delete_keeps_foreign_and_unmatched_notes() {
    let key_a = derive_key(b"A");
    let key_b = derive_key(b"B");
    let mut notes: Vec<Note> = Vec::new();
    create_note(&mut notes, "dup".to_string(), b"mine", &key_a);
    create_note(&mut notes, "dup".to_string(), b"theirs", &key_b);
    create_note(&mut notes, "other".to_string(), b"stays", &key_a);
    let report = delete_notes(&mut notes, "dup", &key_a);
    assert_eq!(report, vec![true, false]);
    assert_eq!(notes.len(), 2);
    assert_eq!(notes[0].title, "dup");
    assert_eq!(read_plain(&notes, "dup", &key_b), Some(b"theirs".to_vec()));
    assert_eq!(read_plain(&notes, "other", &key_a), Some(b"stays".to_vec()));
}

#[test]
fn delete_missing_title_reports_nothing() {
    let key = derive_key(b"pw");
    let mut notes: Vec<Note> = Vec::new();
    create_note(&mut notes, "kept".to_string(), b"x", &key);
    let report = delete_notes(&mut notes, "absent", &key);
    assert_eq!(report, Vec::<bool>::new());
    assert_eq!(notes.len(), 1);
}
