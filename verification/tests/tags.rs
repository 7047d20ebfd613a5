use dialog::note::{is_valid_note_id, parse_hashtags, ContentEvent};
use dialog::query::extract_tags;

fn event_with_tags(tags: Vec<Vec<String>>) -> ContentEvent {
    ContentEvent {
        id: dialog::mock_data::hex_id(1),
        author: String::from("00ab"),
        kind: 1059,
        created_at: 64,
        tags,
        content: String::from("encrypted content"),
    }
}

#[test]
fn test_parse_hashtags() {
    let text = "This is a #Test note with #Multiple #TAGS";
    let tags = parse_hashtags(text);
    assert_eq!(tags, vec!["test", "multiple", "tags"]);
}

#[test]
fn test_parse_hashtags_empty() {
    let text = "This has no hashtags";
    let tags = parse_hashtags(text);
    assert!(tags.is_empty());
}

#[test]
fn test_parse_hashtags_just_hash() {
    let text = "This has just # and nothing else";
    let tags = parse_hashtags(text);
    assert!(tags.is_empty());
}

#[test]
fn test_extract_tags() {
    let tags = vec![
        vec![String::from("t"), String::from("test")],
        vec![String::from("t"), String::from("example")],
        vec![String::from("p"), String::from("00ab")],
    ];
    let event = event_with_tags(tags);
    let extracted = extract_tags(&event);
    assert_eq!(extracted, vec!["test", "example"]);
}

#[test]
fn parse_hashtags_keeps_duplicates_and_order() {
    let tags = parse_hashtags("#b #a #b");
    assert_eq!(tags, vec!["b", "a", "b"]);
}

#[test]
fn parse_hashtags_whitespace_separators() {
    let tags = parse_hashtags("#One\t#two\n#THREE");
    assert_eq!(tags, vec!["one", "two", "three"]);
}

#[test]
fn extract_tags_skips_malformed_markers() {
    let tags = vec![
        vec![String::from("t")],
        vec![String::from("t"), String::from("ok"), String::from("extra")],
        vec![String::from("e"), String::from("nope")],
        vec![String::from("t"), String::from("kept")],
    ];
    let event = event_with_tags(tags);
    assert_eq!(extract_tags(&event), vec!["kept"]);
}

#[test]
fn note_id_validity() {
    assert!(is_valid_note_id(dialog::mock_data::hex_id(5).as_str()));
    assert!(is_valid_note_id(&("A".repeat(64))));
    assert!(!is_valid_note_id("xyz"));
    assert!(!is_valid_note_id(&("0".repeat(63))));
    assert!(!is_valid_note_id(&("g".repeat(64))));
}
