use vstd::prelude::*;

use crate::models::SyncMode;
use crate::text::str_eq;
use crate::DialogError;

verus! {

/// The fixed cap on a bulk fetch; a caller may only narrow it.
pub const BULK_FETCH_LIMIT: u64 = 500;

/// The next outside action a sync pass asks its caller to perform.
#[derive(Clone, Copy, PartialEq, Eq, Structural, Debug)]
pub enum SyncStep {
    /// Invoke the backend's set-reconciliation capability.
    Reconcile,
    /// Fetch up to `limit` of the identity's content events and persist each.
    Fetch { limit: u64 },
    /// Nothing further: this sync pass succeeded.
    Done,
}

pub open spec fn spec_begin(m: SyncMode) -> SyncStep {
    match m {
        SyncMode::Negentropy => SyncStep::Reconcile,
        SyncMode::Subscribe => SyncStep::Fetch { limit: BULK_FETCH_LIMIT },
    }
}

pub open spec fn spec_after_reconcile(m: SyncMode, ok: bool) -> (SyncMode, SyncStep) {
    if ok {
        (m, SyncStep::Done)
    } else {
        (SyncMode::Subscribe, SyncStep::Fetch { limit: BULK_FETCH_LIMIT })
    }
}

pub open spec fn spec_after_fetch(ok: bool) -> Result<(), DialogError> {
    if ok {
        Ok(())
    } else {
        Err(DialogError::SyncFailure)
    }
}

/// The two-mode reconciliation state machine of one session: it starts in
/// the preferred mode and degrades to plain bulk fetch on the first observed
/// reconciliation failure, never returning within the session.
pub struct SyncCoordinator {
    mode: SyncMode,
}

impl SyncCoordinator {
    pub closed spec fn spec_mode(&self) -> SyncMode {
        self.mode
    }

    pub fn new(mode: SyncMode) -> (r: SyncCoordinator)
        ensures
            r.spec_mode() == mode,
    {
        SyncCoordinator { mode }
    }

    pub fn current_mode(&self) -> (r: SyncMode)
        ensures
            r == self.spec_mode(),
    {
        self.mode
    }

    /// The first action of a sync pass, decided by the session's mode.
    pub fn begin(&self) -> (r: SyncStep)
        ensures
            r == spec_begin(self.spec_mode()),
    {
        match self.mode {
            SyncMode::Negentropy => SyncStep::Reconcile,
            SyncMode::Subscribe => SyncStep::Fetch { limit: BULK_FETCH_LIMIT },
        }
    }

    /// Digest the reconciliation outcome: success ends the pass; the first
    /// failure moves the session to the fallback mode — for good — and asks
    /// for a bulk fetch within the same pass, surfacing no error.
    pub fn after_reconcile(&mut self, ok: bool) -> (r: SyncStep)
        ensures
            final(self).spec_mode() == spec_after_reconcile(old(self).spec_mode(), ok).0,
            r == spec_after_reconcile(old(self).spec_mode(), ok).1,
    {
        if ok {
            SyncStep::Done
        } else {
            self.mode = SyncMode::Subscribe;
            SyncStep::Fetch { limit: BULK_FETCH_LIMIT }
        }
    }

    /// Digest the bulk-fetch outcome: a failure here, and only here, is what
    /// the caller sees as a sync failure.
    pub fn after_fetch(&self, ok: bool) -> (r: Result<(), DialogError>)
        ensures
            r == spec_after_fetch(ok),
    {
        if ok {
            Ok(())
        } else {
            Err(DialogError::SyncFailure)
        }
    }
}

/// The mode a session starts in, resolved from an optional configuration
/// value: the fallback mode when so configured, else the preferred mode.
pub open spec fn spec_initial_sync_mode(setting: Option<Seq<char>>) -> SyncMode {
    match setting {
        Some(s) => if s == "subscribe"@ {
            SyncMode::Subscribe
        } else {
            SyncMode::Negentropy
        },
        None => SyncMode::Negentropy,
    }
}

pub fn initial_sync_mode(setting: Option<&str>) -> (r: SyncMode)
    ensures
        r == spec_initial_sync_mode(
            match setting {
                Some(s) => Some(s@),
                None => None,
            },
        ),
{
    match setting {
        Some(s) => if str_eq(s, "subscribe") {
            SyncMode::Subscribe
        } else {
            SyncMode::Negentropy
        },
        None => SyncMode::Negentropy,
    }
}

/// Degradation is graceful and sticky: against a backend without the
/// reconciliation capability, a pass that starts in the preferred mode moves
/// to bulk fetch, completes by fallback without surfacing an error, and the
/// session never attempts reconciliation again.
pub proof fn lemma_sync_fallback()
    ensures
        spec_begin(SyncMode::Negentropy) == SyncStep::Reconcile,
        spec_after_reconcile(SyncMode::Negentropy, false) == (
            SyncMode::Subscribe,
            SyncStep::Fetch { limit: BULK_FETCH_LIMIT },
        ),
        spec_after_fetch(true) == Result::<(), DialogError>::Ok(()),
        spec_begin(SyncMode::Subscribe) == (SyncStep::Fetch { limit: BULK_FETCH_LIMIT }),
        forall|ok: bool| spec_after_reconcile(SyncMode::Subscribe, ok).0 == SyncMode::Subscribe,
{
}

} // verus!
