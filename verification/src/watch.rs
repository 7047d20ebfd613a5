use vstd::prelude::*;

use crate::keys::decrypt_of;
use crate::note::{ContentEvent, Note, NoteView, NOTE_KIND};
use crate::query::{extract_tags, spec_extract_tags};
use crate::text::{str_eq, strings_contain};
use crate::Dialog;

verus! {

/// One notification from the backend's push stream, reduced to plain values.
/// A subscription push carries its subscription identifier; a legacy
/// broadcast of the same underlying event carries none.
pub struct Notification {
    pub subscription_id: Option<String>,
    pub event: ContentEvent,
}

pub ghost struct NotificationView {
    pub subscription_id: Option<Seq<char>>,
    pub event: crate::note::EventView,
}

impl View for Notification {
    type V = NotificationView;

    open spec fn view(&self) -> NotificationView {
        NotificationView {
            subscription_id: match self.subscription_id {
                Some(ref s) => Some(s@),
                None => None,
            },
            event: self.event@,
        }
    }
}

/// Session-local watch state: the subscription this watch owns, the local
/// author it follows, the moment watching began, and the identifiers already
/// delivered in this session. Discarded when watching stops.
pub struct WatchCursor {
    pub subscription_id: String,
    pub author: String,
    pub since: u64,
    seen: Vec<String>,
}

pub ghost struct WatchCursorView {
    pub subscription_id: Seq<char>,
    pub author: Seq<char>,
    pub since: u64,
    pub seen: Seq<Seq<char>>,
}

impl View for WatchCursor {
    type V = WatchCursorView;

    closed spec fn view(&self) -> WatchCursorView {
        WatchCursorView {
            subscription_id: self.subscription_id@,
            author: self.author@,
            since: self.since,
            seen: self.seen.deep_view(),
        }
    }
}

impl WatchCursor {
    /// Open a fresh cursor when watching begins: nothing delivered yet.
    pub fn new(subscription_id: String, author: String, since: u64) -> (r: WatchCursor)
        ensures
            r@.subscription_id == subscription_id@,
            r@.author == author@,
            r@.since == since,
            r@.seen == Seq::<Seq<char>>::empty(),
    {
        let r = WatchCursor { subscription_id, author, since, seen: Vec::new() };
        proof {
            assert(r@.seen =~= Seq::<Seq<char>>::empty());
        }
        r
    }
}

/// A notification passes the guards of the watch pipeline: it belongs to this
/// watch's subscription (a broadcast belongs to every watch), carries a note
/// event authored by the local identity, and its note was not yet delivered
/// in this session.
pub open spec fn spec_admits(c: WatchCursorView, n: NotificationView) -> bool {
    &&& match n.subscription_id {
        None => true,
        Some(sid) => sid == c.subscription_id,
    }
    &&& n.event.kind == NOTE_KIND
    &&& n.event.author == c.author
    &&& !c.seen.contains(n.event.id)
}

impl Dialog {
    /// Handle one incoming notification: discard it unless it passes the
    /// guards and decrypts; otherwise record its identifier as delivered and
    /// return the materialized note — a freshly observed note has no overlay
    /// records yet, so it is unread and unsynced.
    pub fn process_notification(&self, cursor: &mut WatchCursor, n: &Notification) -> (r: Option<
        Note,
    >)
        ensures
            r is Some <==> spec_admits(old(cursor)@, n@) && decrypt_of(
                self.nsec(),
                n@.event.content,
            ) is Some,
            r is Some ==> final(cursor)@.seen == old(cursor)@.seen.push(n@.event.id),
            r is None ==> final(cursor)@.seen == old(cursor)@.seen,
            final(cursor)@.subscription_id == old(cursor)@.subscription_id,
            final(cursor)@.author == old(cursor)@.author,
            final(cursor)@.since == old(cursor)@.since,
            r matches Some(note) ==> note@ == (NoteView {
                id: n@.event.id,
                text: decrypt_of(self.nsec(), n@.event.content)->0,
                tags: spec_extract_tags(n@.event.tags),
                created_at: n@.event.created_at,
                is_read: false,
                is_synced: false,
            }),
    {
        let subscription_ok = match n.subscription_id {
            None => true,
            Some(ref sid) => str_eq(sid.as_str(), cursor.subscription_id.as_str()),
        };
        if !subscription_ok || n.event.kind != NOTE_KIND {
            return None;
        }
        if !str_eq(n.event.author.as_str(), cursor.author.as_str()) {
            return None;
        }
        if strings_contain(&cursor.seen, n.event.id.as_str()) {
            return None;
        }
        match self.decrypt_event(&n.event) {
            Some(text) => {
                let tags = extract_tags(&n.event);
                let ghost pre_seen = cursor@.seen;
                cursor.seen.push(n.event.id.clone());
                proof {
                    assert(cursor@.seen =~= pre_seen.push(n@.event.id));
                }
                Some(
                    Note {
                        id: n.event.id.clone(),
                        text,
                        tags,
                        created_at: n.event.created_at,
                        is_read: false,
                        is_synced: false,
                    },
                )
            },
            None => None,
        }
    }
}

/// Within one session the same underlying note is delivered at most once:
/// after a notification for a note has been admitted and its identifier
/// recorded, no later notification carrying that identifier is admitted,
/// whichever path it arrives by.
pub proof fn lemma_watch_dedup(
    c0: WatchCursorView,
    c1: WatchCursorView,
    n1: NotificationView,
    n2: NotificationView,
)
    requires
        spec_admits(c0, n1),
        c1.seen == c0.seen.push(n1.event.id),
        n2.event.id == n1.event.id,
    ensures
        !spec_admits(c1, n2),
{
    assert(c1.seen[c0.seen.len() as int] == n1.event.id);
    assert(c1.seen.contains(n2.event.id));
}

} // verus!
