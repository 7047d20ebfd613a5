use dialog::keys::KeysHelper;
use dialog::overlay::Overlay;
use dialog::query::content_event_from_draft;
use dialog::Dialog;
use dialog::DialogError;

fn new_dialog() -> Dialog {
    let nsec = KeysHelper::new().generate_nsec();
    Dialog::new(nsec.as_str()).expect("generated key must parse")
}

#[test]
fn encrypt_decrypt_roundtrip() {
    let dialog = new_dialog();
    let text = "Secret message with unicode and special chars!";
    let out = dialog.identity.encrypt_decrypt_roundtrip(text).expect("encryptable");
    assert_eq!(out, text);
}

#[test]
fn create_produces_decryptable_content() {
    let dialog = new_dialog();
    let text = "Test note #test #example";
    let draft = dialog.create_note(text).expect("create succeeds");
    assert_eq!(draft.hashtags, vec!["test", "example"]);
    let author = dialog.public_key();
    let event = content_event_from_draft(draft, dialog::mock_data::hex_id(7), author, 100);
    let decrypted = dialog.decrypt_event(&event).expect("own ciphertext decrypts");
    assert_eq!(decrypted, text);
}

#[test]
fn create_rejects_empty_text() {
    let dialog = new_dialog();
    match dialog.create_note("") {
        Err(DialogError::CryptoFailure) => {}
        _ => panic!("empty text must fail with a crypto failure"),
    }
}

#[test]
fn create_then_list_returns_the_note() {
    let dialog = new_dialog();
    let overlay = Overlay::new();
    let text = "Test note #test #example";
    let draft = dialog.create_note(text).expect("create succeeds");
    let author = dialog.public_key();
    let event = content_event_from_draft(draft, dialog::mock_data::hex_id(1), author, 50);
    let events = vec![event];
    let notes = dialog.list_notes(&events, &overlay, 10);
    assert_eq!(notes.len(), 1);
    assert_eq!(notes[0].text, text);
    assert!(notes[0].tags.contains(&String::from("test")));
    assert!(notes[0].tags.contains(&String::from("example")));
    assert_eq!(notes[0].tags.len(), 2);
    assert!(!notes[0].is_read);
    assert!(notes[0].is_synced);
}

#[test]
fn list_skips_foreign_content() {
    let dialog = new_dialog();
    let overlay = Overlay::new();
    let good = {
        let draft = dialog.create_note("readable #ok").expect("create succeeds");
        content_event_from_draft(draft, dialog::mock_data::hex_id(1), dialog.public_key(), 10)
    };
    let bad = dialog::note::ContentEvent {
        id: dialog::mock_data::hex_id(2),
        author: dialog.public_key(),
        kind: 1059,
        created_at: 20,
        tags: Vec::new(),
        content: String::from("not a valid payload"),
    };
    let events = vec![bad, good];
    let notes = dialog.list_notes(&events, &overlay, 10);
    assert_eq!(notes.len(), 1);
    assert_eq!(notes[0].text, "readable #ok");
}

#[test]
fn list_orders_newest_first_and_truncates() {
    let dialog = new_dialog();
    let overlay = Overlay::new();
    let mut events = Vec::new();
    let stamps: Vec<u64> = vec![5, 30, 10, 30, 20];
    for (i, stamp) in stamps.iter().enumerate() {
        let draft = dialog
            .create_note(&format!("note {} #all", i))
            .expect("create succeeds");
        events.push(content_event_from_draft(
            draft,
            dialog::mock_data::hex_id(i as u32 + 1),
            dialog.public_key(),
            *stamp,
        ));
    }
    let notes = dialog.list_notes(&events, &overlay, 10);
    assert_eq!(notes.len(), 5);
    for w in notes.windows(2) {
        assert!(w[0].created_at >= w[1].created_at);
    }
    // ties keep response order: both stamps of 30 appear, index 1 before 3
    assert_eq!(notes[0].text, "note 1 #all");
    assert_eq!(notes[1].text, "note 3 #all");
    let top = dialog.list_notes(&events, &overlay, 2);
    assert_eq!(top.len(), 2);
    assert_eq!(top[0].created_at, 30);
    assert_eq!(top[1].created_at, 30);
}

#[test]
fn list_by_tag_is_case_insensitive() {
    let dialog = new_dialog();
    let overlay = Overlay::new();
    let texts = ["Note A #alpha #beta", "Note B #alpha #gamma", "Note C #beta #delta",
        "Note D #gamma #delta"];
    let mut events = Vec::new();
    for (i, t) in texts.iter().enumerate() {
        let draft = dialog.create_note(t).expect("create succeeds");
        events.push(content_event_from_draft(
            draft,
            dialog::mock_data::hex_id(i as u32 + 1),
            dialog.public_key(),
            i as u64,
        ));
    }
    let upper = dialog.list_by_tag(&events, &overlay, "GAMMA", 10);
    let lower = dialog.list_by_tag(&events, &overlay, "gamma", 10);
    assert_eq!(upper.len(), 2);
    let upper_ids: Vec<String> = upper.iter().map(|n| n.id.clone()).collect();
    let lower_ids: Vec<String> = lower.iter().map(|n| n.id.clone()).collect();
    assert_eq!(upper_ids, lower_ids);
    let beta = dialog.list_by_tag(&events, &overlay, "beta", 10);
    assert_eq!(beta.len(), 2);
}

#[test]
fn list_resolves_read_status_from_overlay() {
    let dialog = new_dialog();
    let mut overlay = Overlay::new();
    let draft = dialog.create_note("a note #x").expect("create succeeds");
    let id = dialog::mock_data::hex_id(9);
    let event = content_event_from_draft(draft, id.clone(), dialog.public_key(), 5);
    let events = vec![event];
    let before = dialog.list_notes(&events, &overlay, 10);
    assert!(!before[0].is_read);
    dialog.mark_as_read(&mut overlay, id.as_str(), 1000);
    let after = dialog.list_notes(&events, &overlay, 10);
    assert!(after[0].is_read);
}

#[test]
fn duplicate_core_shares_the_identity() {
    let dialog = new_dialog();
    let copy = dialog.duplicate();
    let draft = dialog.create_note("shared secret #dup").expect("create succeeds");
    let event = content_event_from_draft(draft, dialog::mock_data::hex_id(3), dialog.public_key(), 7);
    let decrypted = copy.decrypt_event(&event).expect("the copy decrypts it");
    assert_eq!(decrypted, "shared secret #dup");
    assert_eq!(dialog.public_key(), copy.public_key());
}
