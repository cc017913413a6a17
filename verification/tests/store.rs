use vault::store::{parse_notes, serialize_notes, serialize_parse_roundtrip, Note};

fn note(title: &str, content: &str, nonce: &str) -> Note {
    Note { title: title.to_string(), content: content.to_string(), nonce: nonce.to_string() }
}

fn fields(n: &Note) -> (String, String, String) {
    (n.title.clone(), n.content.clone(), n.nonce.clone())
}

#[test]
fn serialize_one_note_exactly() {
    let notes = vec![note("t", "c", "n")];
    assert_eq!(
        serialize_notes(&notes),
        "[{\"title\":\"t\",\"content\":\"c\",\"nonce\":\"n\"}]"
    );
}

#[test]
fn serialize_empty_collection_exactly() {
    assert_eq!(serialize_notes(&Vec::new()), "[]");
}

#[test]
fn round_trip_preserves_collection_and_order() {
    let notes = vec![
        note("shopping", "Y2lwaGVy", "bm9uY2Ux"),
        note("diary", "c2VjcmV0", "bm9uY2Uy"),
        note("shopping", "ZHVw", "bm9uY2Uz"),
    ];
    let text = serialize_notes(&notes);
    let back = parse_notes(&text).expect("round trip must parse");
    assert_eq!(back.len(), 3);
    for (a, b) in notes.iter().zip(back.iter()) {
        assert_eq!(fields(a), fields(b));
    }
}

#[test]
fn round_trip_escapes_quotes_and_backslashes() {
    let notes = vec![note("a\"b\\c", "d\\\"e", "\\"), note("", "", "")];
    let text = serialize_notes(&notes);
    let back = parse_notes(&text).expect("escaped text must parse");
    assert_eq!(back.len(), 2);
    for (a, b) in notes.iter().zip(back.iter()) {
        assert_eq!(fields(a), fields(b));
    }
}

#[test]
fn round_trip_keeps_unicode_titles() {
    let notes = vec![note("déjà vu ☃", "Y3Q=", "bg==")];
    let text = serialize_notes(&notes);
    let back = parse_notes(&text).expect("unicode text must parse");
    assert_eq!(fields(&back[0]), fields(&notes[0]));
}

#[test]
fn roundtrip_law_holds_on_values() {
    let notes = vec![note("a\"b", "Y2lwaGVy", "bm9uY2U="), note("plain", "", "x")];
    let back = serialize_parse_roundtrip(&notes).expect("law function must return the notes");
    assert_eq!(back.len(), 2);
    for (a, b) in notes.iter().zip(back.iter()) {
        assert_eq!(fields(a), fields(b));
    }
}

#[test]
fn parse_rejects_malformed_text() {
    assert!(parse_notes("").is_none());
    assert!(parse_notes("[").is_none());
    assert!(parse_notes("]").is_none());
    assert!(parse_notes("{}").is_none());
    assert!(parse_notes("[{}]").is_none());
    assert!(parse_notes("[]x").is_none());
    assert!(parse_notes("[{\"title\":\"t\"}]").is_none());
    assert!(parse_notes("[{\"nonce\":\"n\",\"content\":\"c\",\"title\":\"t\"}]").is_none());
    // A truncated record is refused whole, not half-read.
    let good = "[{\"title\":\"t\",\"content\":\"c\",\"nonce\":\"n\"}]";
    assert!(parse_notes(&good[..good.len() - 1]).is_none());
    assert!(parse_notes(good).is_some());
}

#[test]
fn parse_accepts_only_the_exact_format() {
    assert!(parse_notes("[]").is_some());
    assert_eq!(parse_notes("[]").unwrap().len(), 0);
    // Whitespace is not part of the format.
    assert!(parse_notes("[ ]").is_none());
    assert!(parse_notes("[{\"title\": \"t\",\"content\":\"c\",\"nonce\":\"n\"}]").is_none());
}
