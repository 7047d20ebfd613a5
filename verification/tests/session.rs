use dialog::keys::{derive_npub, validate_nsec, KeysHelper};
use dialog::mock_data::{generate_mock_notes, hex_id};
use dialog::models::{Event, SyncMode};
use dialog::note::Note;
use dialog::overlay::{Overlay, StatusKind};
use dialog::query::content_event_from_draft;
use dialog::state::DialogClient;
use dialog::sync::{initial_sync_mode, SyncCoordinator, SyncStep};
use dialog::watch::{Notification, WatchCursor};
use dialog::Dialog;
use dialog::DialogError;

fn new_dialog() -> Dialog {
    let nsec = KeysHelper::new().generate_nsec();
    Dialog::new(nsec.as_str()).expect("generated key must parse")
}

fn note(id: u32, text: &str, tags: &[&str], created_at: u64, is_read: bool) -> Note {
    Note {
        id: hex_id(id),
        text: String::from(text),
        tags: tags.iter().map(|t| String::from(*t)).collect(),
        created_at,
        is_read,
        is_synced: false,
    }
}

#[test]
fn keys_validate_and_derive() {
    let helper = KeysHelper::new();
    let nsec = helper.generate_nsec();
    assert!(validate_nsec(nsec.as_str()));
    assert!(helper.validate_nsec(nsec.clone()));
    assert!(!validate_nsec("not-a-key"));
    let npub = derive_npub(nsec.as_str());
    assert!(npub.starts_with("npub"));
    assert_eq!(derive_npub("not-a-key"), "");
}

#[test]
fn hex_id_is_64_zero_padded_digits() {
    let one = hex_id(1);
    assert_eq!(one.len(), 64);
    assert!(one.starts_with("0"));
    assert!(one.ends_with("1"));
    assert_eq!(&one[..63], "0".repeat(63).as_str());
    let big = hex_id(255);
    assert_eq!(big.len(), 64);
    assert!(big.ends_with("ff"));
}

#[test]
fn mock_notes_shape() {
    let now: u64 = 1_000_000;
    let notes = generate_mock_notes(now);
    assert_eq!(notes.len(), 16);
    for (i, n) in notes.iter().enumerate() {
        assert_eq!(n.id, hex_id(i as u32 + 1));
        assert!(n.created_at < now);
    }
    assert_eq!(notes[0].created_at, now - 120);
    assert!(!notes[2].is_read);
    assert!(!notes[4].is_synced);
    // the identifiers are pairwise distinct: caching them keeps all sixteen
    let mut client = DialogClient::new(SyncMode::Negentropy);
    for n in &notes {
        assert!(!client.insert_note(n.clone()));
    }
    assert_eq!(client.get_notes(100, None).len(), 16);
}

#[test]
fn mark_read_is_idempotent_and_sticky() {
    let dialog = new_dialog();
    let mut overlay = Overlay::new();
    let id = hex_id(3);
    assert!(!dialog.get_read_status(&overlay, id.as_str()));
    dialog.mark_as_read(&mut overlay, id.as_str(), 100);
    assert!(dialog.get_read_status(&overlay, id.as_str()));
    dialog.mark_as_read(&mut overlay, id.as_str(), 200);
    assert!(dialog.get_read_status(&overlay, id.as_str()));
    // other notes and the other kind stay untouched
    assert!(!dialog.get_read_status(&overlay, hex_id(4).as_str()));
    assert!(!overlay.get_status(id.as_str(), StatusKind::Synced));
    let rec = overlay.mark_synced(id.as_str(), 300);
    assert!(rec.value);
    assert!(overlay.get_status(id.as_str(), StatusKind::Synced));
}

#[test]
fn watch_deduplicates_across_delivery_paths() {
    let dialog = new_dialog();
    let draft = dialog.create_note("live note #watch").expect("create succeeds");
    let event = content_event_from_draft(draft, hex_id(5), dialog.public_key(), 42);
    let mut cursor = WatchCursor::new(String::from("sub-1"), dialog.public_key(), 0);
    let push = Notification { subscription_id: Some(String::from("sub-1")), event };
    let first = dialog.process_notification(&mut cursor, &push);
    let delivered = first.expect("first delivery passes");
    assert_eq!(delivered.text, "live note #watch");
    assert!(!delivered.is_read);
    assert!(!delivered.is_synced);
    // the same underlying event again, by the subscription path
    assert!(dialog.process_notification(&mut cursor, &push).is_none());
    // and again by the broadcast path
    let broadcast = Notification { subscription_id: None, event: push.event };
    assert!(dialog.process_notification(&mut cursor, &broadcast).is_none());
}

#[test]
fn watch_discards_foreign_or_mismatched_notifications() {
    let dialog = new_dialog();
    let other = new_dialog();
    let mut cursor = WatchCursor::new(String::from("sub-1"), dialog.public_key(), 0);

    // wrong subscription identifier
    let draft = dialog.create_note("note #a").expect("create succeeds");
    let event = content_event_from_draft(draft, hex_id(1), dialog.public_key(), 1);
    let wrong_sub = Notification { subscription_id: Some(String::from("sub-2")), event };
    assert!(dialog.process_notification(&mut cursor, &wrong_sub).is_none());

    // wrong author
    let draft = dialog.create_note("note #b").expect("create succeeds");
    let event = content_event_from_draft(draft, hex_id(2), other.public_key(), 2);
    let wrong_author = Notification { subscription_id: Some(String::from("sub-1")), event };
    assert!(dialog.process_notification(&mut cursor, &wrong_author).is_none());

    // undecryptable content is dropped silently
    let foreign = other.create_note("note #c").expect("create succeeds");
    let event = content_event_from_draft(foreign, hex_id(3), dialog.public_key(), 3);
    let unreadable = Notification { subscription_id: Some(String::from("sub-1")), event };
    assert!(dialog.process_notification(&mut cursor, &unreadable).is_none());
}

#[test]
fn sync_falls_back_once_and_sticks() {
    let mut coordinator = SyncCoordinator::new(SyncMode::Negentropy);
    assert_eq!(coordinator.begin(), SyncStep::Reconcile);
    // the backend lacks the reconciliation capability
    let step = coordinator.after_reconcile(false);
    assert_eq!(step, SyncStep::Fetch { limit: 500 });
    assert_eq!(coordinator.current_mode(), SyncMode::Subscribe);
    // the fallback fetch succeeds: the pass ends without error
    assert!(coordinator.after_fetch(true).is_ok());
    // the degraded mode is kept for the rest of the session
    assert_eq!(coordinator.begin(), SyncStep::Fetch { limit: 500 });
}

#[test]
fn sync_reports_fetch_failure() {
    let coordinator = SyncCoordinator::new(SyncMode::Subscribe);
    match coordinator.after_fetch(false) {
        Err(DialogError::SyncFailure) => {}
        _ => panic!("a failed bulk fetch must surface as a sync failure"),
    }
}

#[test]
fn sync_mode_resolution() {
    assert_eq!(initial_sync_mode(Some("subscribe")), SyncMode::Subscribe);
    assert_eq!(initial_sync_mode(Some("anything")), SyncMode::Negentropy);
    assert_eq!(initial_sync_mode(None), SyncMode::Negentropy);
}

#[test]
fn cache_insert_and_get() {
    let mut client = DialogClient::new(SyncMode::Negentropy);
    assert!(!client.insert_note(note(1, "first", &["a"], 10, false)));
    assert!(!client.insert_note(note(2, "second", &["b"], 20, false)));
    // replacing an existing note reports an update
    assert!(client.insert_note(note(1, "first revised", &["a"], 10, false)));
    let got = client.get_note(hex_id(1).as_str()).expect("cached");
    assert_eq!(got.text, "first revised");
    assert!(client.get_note(hex_id(9).as_str()).is_none());
}

#[test]
fn cache_get_notes_sorted_ascending_with_filter_and_limit() {
    let mut client = DialogClient::new(SyncMode::Negentropy);
    client.insert_note(note(1, "one", &["x"], 30, false));
    client.insert_note(note(2, "two", &["y"], 10, false));
    client.insert_note(note(3, "three", &["x"], 20, false));
    let all = client.get_notes(10, None);
    let stamps: Vec<u64> = all.iter().map(|n| n.created_at).collect();
    assert_eq!(stamps, vec![10, 20, 30]);
    let only_x = client.get_notes(10, Some(String::from("x")));
    assert_eq!(only_x.len(), 2);
    assert_eq!(only_x[0].created_at, 20);
    let capped = client.get_notes(1, None);
    assert_eq!(capped.len(), 1);
    assert_eq!(capped[0].created_at, 10);
}

#[test]
fn cache_tags_and_counts() {
    let mut client = DialogClient::new(SyncMode::Negentropy);
    client.insert_note(note(1, "one", &["work", "coffee"], 1, false));
    client.insert_note(note(2, "two", &["coffee"], 2, false));
    client.insert_note(note(3, "three", &["coffee", "coffee"], 3, false));
    let tags = client.get_all_tags();
    assert_eq!(tags, vec!["coffee", "work"]);
    let counts = client.get_tag_counts();
    assert_eq!(counts.len(), 2);
    assert_eq!(counts[0].tag, "coffee");
    assert_eq!(counts[0].count, 4);
    assert_eq!(counts[1].tag, "work");
    assert_eq!(counts[1].count, 1);
}

#[test]
fn cache_unread_count() {
    let mut client = DialogClient::new(SyncMode::Negentropy);
    client.insert_note(note(1, "one", &["x"], 1, false));
    client.insert_note(note(2, "two", &["y"], 2, true));
    client.insert_note(note(3, "three", &["x"], 3, false));
    assert_eq!(client.get_unread_count(None), 2);
    assert_eq!(client.get_unread_count(Some(String::from("x"))), 2);
    assert_eq!(client.get_unread_count(Some(String::from("y"))), 0);
}

#[test]
fn cache_delete_and_mark_read() {
    let mut client = DialogClient::new(SyncMode::Negentropy);
    client.insert_note(note(1, "one", &["x"], 1, false));
    let updated = client.mark_read_local(hex_id(1).as_str()).expect("present");
    assert!(updated.is_read);
    assert_eq!(client.get_unread_count(None), 0);
    assert!(client.mark_read_local(hex_id(2).as_str()).is_none());
    assert!(client.delete_note(hex_id(1).as_str()));
    assert!(!client.delete_note(hex_id(1).as_str()));
    assert!(client.get_note(hex_id(1).as_str()).is_none());
}

#[test]
fn cache_search_is_case_insensitive() {
    let mut client = DialogClient::new(SyncMode::Negentropy);
    client.insert_note(note(1, "Remember the Coffee", &[], 1, false));
    client.insert_note(note(2, "nothing here", &[], 2, false));
    let found = client.search_notes("COFFEE");
    assert_eq!(found.len(), 1);
    assert_eq!(found[0].id, hex_id(1));
    assert!(client.search_notes("tea").is_empty());
}

#[test]
fn cache_watch_merge_decides_added_or_updated() {
    let mut client = DialogClient::new(SyncMode::Negentropy);
    match client.apply_watched_note(note(1, "fresh", &[], 1, false)) {
        Event::NoteAdded { note: n } => assert_eq!(n.text, "fresh"),
        _ => panic!("a new note must be announced as an addition"),
    }
    match client.apply_watched_note(note(1, "fresh again", &[], 1, false)) {
        Event::NoteUpdated { note: n } => assert_eq!(n.text, "fresh again"),
        _ => panic!("a known note must be announced as an update"),
    }
}

#[test]
fn cache_filter_state() {
    let mut client = DialogClient::new(SyncMode::Negentropy);
    assert!(client.current_filter().is_none());
    client.set_filter(Some(String::from("work")));
    assert_eq!(client.current_filter().expect("set"), "work");
    client.set_filter(None);
    assert!(client.current_filter().is_none());
    client.set_sync_mode(SyncMode::Subscribe);
    assert_eq!(client.sync_mode(), SyncMode::Subscribe);
}

#[test]
fn create_list_sync_scenario() {
    let dialog = new_dialog();
    let overlay = Overlay::new();
    let mut events = Vec::new();
    let draft = dialog.create_note("Test note #test #example").expect("create succeeds");
    events.push(content_event_from_draft(draft, hex_id(100), dialog.public_key(), 1000));
    let notes = dialog.list_notes(&events, &overlay, 10);
    assert!(notes.iter().any(|n| n.id == hex_id(100)));
    let created = notes.iter().find(|n| n.id == hex_id(100)).expect("present");
    assert_eq!(created.text, "Test note #test #example");
    assert!(created.tags.contains(&String::from("test")));
    assert!(created.tags.contains(&String::from("example")));

    for i in 0..10u32 {
        let text = format!("Batch note {} #batch #stress", i);
        let draft = dialog.create_note(&text).expect("create succeeds");
        events.push(content_event_from_draft(
            draft,
            hex_id(101 + i),
            dialog.public_key(),
            2000 + i as u64,
        ));
    }
    let batch = dialog.list_by_tag(&events, &overlay, "batch", 20);
    assert!(batch.len() >= 10);

    // a backend without reconciliation: the coordinator falls back and the
    // sync still reports success
    let mut coordinator = SyncCoordinator::new(SyncMode::Negentropy);
    assert_eq!(coordinator.begin(), SyncStep::Reconcile);
    assert_eq!(coordinator.after_reconcile(false), SyncStep::Fetch { limit: 500 });
    assert!(coordinator.after_fetch(true).is_ok());
    assert_eq!(coordinator.current_mode(), SyncMode::Subscribe);

    let still_there = dialog.list_notes(&events, &overlay, 100);
    assert_eq!(still_there.len(), 11);
}
