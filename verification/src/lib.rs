use vstd::prelude::*;

pub mod keys;
pub mod mock_data;
pub mod models;
pub mod note;
pub mod overlay;
pub mod query;
pub mod state;
pub mod sync;
pub mod text;
pub mod watch;

use crate::keys::{is_valid_nsec, pubkey_hex_of, Identity};
use crate::overlay::{spec_status, Overlay, OverlayRecord, StatusKind};

pub use crate::keys::KeysHelper;
pub use crate::models::{Command, Event, SyncMode, TagCount};
pub use crate::note::Note;
pub use crate::state::DialogClient;

verus! {

/// The error taxonomy of the orchestration layer.
#[derive(Clone, Copy, PartialEq, Eq, Structural, Debug)]
pub enum DialogError {
    /// The encryption or decryption capability failed.
    CryptoFailure,
    /// A durable write through the event backend failed.
    BackendWriteFailure,
    /// A query against the event backend failed.
    BackendQueryFailure,
    /// The bulk-fetch reconciliation path failed.
    SyncFailure,
    /// The relay or transport is unavailable.
    ConnectionFailure,
}

/// The orchestration core for one authoring identity. The event backend and
/// the clock stay outside: callers hand in the events, overlay records and
/// timestamps they obtained, and receive plain values to persist or send.
pub struct Dialog {
    pub identity: Identity,
}

impl Dialog {
    /// The secret key string this core was built from.
    pub open spec fn nsec(&self) -> Seq<char> {
        self.identity.nsec_view()
    }

    /// Build the core for the identity a secret key string denotes; `None`
    /// exactly when the string does not parse as a secret key.
    pub fn new(nsec: &str) -> (r: Option<Dialog>)
        ensures
            r is Some <==> is_valid_nsec(nsec@),
            r is Some ==> r->0.nsec() == nsec@,
    {
        match Identity::from_nsec(nsec) {
            Some(identity) => Some(Dialog { identity }),
            None => None,
        }
    }

    /// A second handle on the same core, for a concurrently running watch
    /// task.
    pub fn duplicate(&self) -> (r: Dialog)
        ensures
            r.nsec() == self.nsec(),
    {
        Dialog { identity: self.identity.clone() }
    }

    /// The authoring identity's public key, hex encoded.
    pub fn public_key(&self) -> (r: String)
        ensures
            r@ == pubkey_hex_of(self.nsec()),
    {
        self.identity.public_key()
    }

    /// Append a read-status marker for a note; the caller persists the
    /// returned record locally and never sends it to the remote backend.
    pub fn mark_as_read(&self, overlay: &mut Overlay, note_id: &str, now: u64) -> (r: OverlayRecord)
        ensures
            final(overlay)@ == old(overlay)@.push(r@),
            r@.note_id == note_id@ && r@.kind == StatusKind::Read && r@.value && r@.timestamp
                == now,
            crate::overlay::all_true(old(overlay)@, note_id@, StatusKind::Read) ==> spec_status(
                final(overlay)@,
                note_id@,
                StatusKind::Read,
            ),
    {
        overlay.mark_read(note_id, now)
    }

    /// Append a sync-status marker for a note.
    pub fn mark_as_synced(
        &self,
        overlay: &mut Overlay,
        note_id: &str,
        now: u64,
    ) -> (r: OverlayRecord)
        ensures
            final(overlay)@ == old(overlay)@.push(r@),
            r@.note_id == note_id@ && r@.kind == StatusKind::Synced && r@.value && r@.timestamp
                == now,
            crate::overlay::all_true(old(overlay)@, note_id@, StatusKind::Synced) ==> spec_status(
                final(overlay)@,
                note_id@,
                StatusKind::Synced,
            ),
    {
        overlay.mark_synced(note_id, now)
    }

    /// The current read status of a note, resolved from the overlay records
    /// held locally; `false` when none exists.
    pub fn get_read_status(&self, overlay: &Overlay, note_id: &str) -> (r: bool)
        ensures
            r == spec_status(overlay@, note_id@, StatusKind::Read),
    {
        overlay.get_status(note_id, StatusKind::Read)
    }
}

} // verus!
