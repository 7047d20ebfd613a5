use vstd::prelude::*;

use crate::note::Note;

verus! {

/// What a session emits towards its consumer.
#[derive(Clone)]
pub enum Event {
    /// The core finished loading its initial state.
    Ready,
    /// A full (possibly filtered) snapshot of the cached notes.
    NotesLoaded { notes: Vec<Note> },
    NoteAdded { note: Note },
    NoteUpdated { note: Note },
    NoteDeleted { id: String },
    TagFilterChanged { tag: Option<String> },
    SyncStatusChanged { syncing: bool },
    Error { message: String },
}

/// How a session reconciles with the relay: the efficient set-reconciliation
/// protocol, or the plain subscribe-and-fetch fallback.
#[derive(Clone, Copy, PartialEq, Eq, Structural, Debug)]
pub enum SyncMode {
    Negentropy,
    Subscribe,
}

/// How many cached notes carry a tag.
#[derive(Debug)]
pub struct TagCount {
    pub tag: String,
    pub count: u32,
}

/// What a consumer asks a session to do.
pub enum Command {
    ConnectRelay { relay_url: String },
    CreateNote { text: String },
    DeleteNote { id: String },
    MarkAsRead { id: String },
    SetTagFilter { tag: Option<String> },
    LoadNotes { limit: u32 },
    SearchNotes { query: String },
    SetSyncMode { mode: SyncMode },
}

} // verus!
