use vstd::prelude::*;

use crate::text::str_eq;

verus! {

/// Which local-only status a record carries.
#[derive(Clone, Copy, PartialEq, Eq, Structural, Debug)]
pub enum StatusKind {
    Read,
    Synced,
}

/// A local-only, append-only status marker layered over one immutable note.
/// Records are never transmitted to the remote backend.
pub struct OverlayRecord {
    pub note_id: String,
    pub kind: StatusKind,
    pub value: bool,
    pub timestamp: u64,
}

pub ghost struct OverlayRecordView {
    pub note_id: Seq<char>,
    pub kind: StatusKind,
    pub value: bool,
    pub timestamp: u64,
}

impl View for OverlayRecord {
    type V = OverlayRecordView;

    open spec fn view(&self) -> OverlayRecordView {
        OverlayRecordView {
            note_id: self.note_id@,
            kind: self.kind,
            value: self.value,
            timestamp: self.timestamp,
        }
    }
}

impl DeepView for OverlayRecord {
    type V = OverlayRecordView;

    open spec fn deep_view(&self) -> OverlayRecordView {
        self.view()
    }
}

pub open spec fn record_matches(r: OverlayRecordView, id: Seq<char>, kind: StatusKind) -> bool {
    r.note_id == id && r.kind == kind
}

/// The latest assignment for a (note, kind) pair: the record with the greatest
/// timestamp, ties resolved in favour of the most recently observed record.
pub open spec fn spec_resolve(
    ov: Seq<OverlayRecordView>,
    id: Seq<char>,
    kind: StatusKind,
) -> Option<(u64, bool)>
    decreases ov.len(),
{
    if ov.len() == 0 {
        None
    } else {
        let prev = spec_resolve(ov.drop_last(), id, kind);
        let r = ov.last();
        if record_matches(r, id, kind) {
            match prev {
                None => Some((r.timestamp, r.value)),
                Some(p) => if r.timestamp >= p.0 {
                    Some((r.timestamp, r.value))
                } else {
                    Some(p)
                },
            }
        } else {
            prev
        }
    }
}

/// The current status of a (note, kind) pair; `false` when no record exists.
pub open spec fn spec_status(ov: Seq<OverlayRecordView>, id: Seq<char>, kind: StatusKind) -> bool {
    match spec_resolve(ov, id, kind) {
        None => false,
        Some(p) => p.1,
    }
}

/// The locally held set of overlay records, in observation order.
pub struct Overlay {
    records: Vec<OverlayRecord>,
}

impl View for Overlay {
    type V = Seq<OverlayRecordView>;

    closed spec fn view(&self) -> Seq<OverlayRecordView> {
        self.records.deep_view()
    }
}

impl Overlay {
    pub fn new() -> (r: Overlay)
        ensures
            r@ == Seq::<OverlayRecordView>::empty(),
    {
        let r = Overlay { records: Vec::new() };
        proof {
            assert(r@ =~= Seq::<OverlayRecordView>::empty());
        }
        r
    }

    /// Record a previously persisted or freshly produced marker.
    pub fn add_record(&mut self, rec: OverlayRecord)
        ensures
            final(self)@ == old(self)@.push(rec@),
    {
        let ghost pre = self@;
        self.records.push(rec);
        proof {
            assert(self@ =~= pre.push(rec@));
        }
    }

    /// Append a read-status marker stamped `now`; the returned record is what
    /// the caller persists locally.
    pub fn mark_read(&mut self, note_id: &str, now: u64) -> (r: OverlayRecord)
        ensures
            r@ == (OverlayRecordView {
                note_id: note_id@,
                kind: StatusKind::Read,
                value: true,
                timestamp: now,
            }),
            final(self)@ == old(self)@.push(r@),
            all_true(old(self)@, note_id@, StatusKind::Read) ==> spec_status(
                final(self)@,
                note_id@,
                StatusKind::Read,
            ),
    {
        self.mark(note_id, StatusKind::Read, now)
    }

    /// Append a sync-status marker stamped `now`.
    pub fn mark_synced(&mut self, note_id: &str, now: u64) -> (r: OverlayRecord)
        ensures
            r@ == (OverlayRecordView {
                note_id: note_id@,
                kind: StatusKind::Synced,
                value: true,
                timestamp: now,
            }),
            final(self)@ == old(self)@.push(r@),
            all_true(old(self)@, note_id@, StatusKind::Synced) ==> spec_status(
                final(self)@,
                note_id@,
                StatusKind::Synced,
            ),
    {
        self.mark(note_id, StatusKind::Synced, now)
    }

    fn mark(&mut self, note_id: &str, kind: StatusKind, now: u64) -> (r: OverlayRecord)
        ensures
            r@ == (OverlayRecordView { note_id: note_id@, kind, value: true, timestamp: now }),
            final(self)@ == old(self)@.push(r@),
            all_true(old(self)@, note_id@, kind) ==> spec_status(final(self)@, note_id@, kind),
    {
        // one record is appended, its twin handed back for persistence
        let rec = OverlayRecord { note_id: note_id.to_owned(), kind, value: true, timestamp: now };
        let returned = OverlayRecord {
            note_id: note_id.to_owned(),
            kind,
            value: true,
            timestamp: now,
        };
        let ghost pre = self@;
        self.add_record(rec);
        proof {
            let ov1 = self@;
            assert(ov1[pre.len() as int]
                == (OverlayRecordView { note_id: note_id@, kind, value: true, timestamp: now }));
            if all_true(pre, note_id@, kind) {
                assert(all_true(ov1, note_id@, kind)) by {
                    assert(forall|i: int| 0 <= i < pre.len() ==> #[trigger] ov1[i] == pre[i]);
                }
                lemma_status_all_true(ov1, note_id@, kind);
            }
        }
        returned
    }

    /// Resolve the current status of a (note, kind) pair by one linear scan.
    pub fn get_status(&self, note_id: &str, kind: StatusKind) -> (r: bool)
        ensures
            r == spec_status(self@, note_id@, kind),
    {
        let n = self.records.len();
        let mut best: Option<(u64, bool)> = None;
        assert(self@.subrange(0, 0) =~= Seq::<OverlayRecordView>::empty());
        let mut i: usize = 0;
        while i < n
            invariant
                n == self.records.len(),
                i <= n,
                best == spec_resolve(self@.subrange(0, i as int), note_id@, kind),
            decreases n - i,
        {
            let rec = &self.records[i];
            let matches = str_eq(rec.note_id.as_str(), note_id) && rec.kind == kind;
            if matches {
                best = match best {
                    None => Some((rec.timestamp, rec.value)),
                    Some(p) => if rec.timestamp >= p.0 {
                        Some((rec.timestamp, rec.value))
                    } else {
                        Some(p)
                    },
                };
            }
            proof {
                assert(self@.subrange(0, i + 1).drop_last() =~= self@.subrange(0, i as int));
                assert(self@.subrange(0, i + 1).last() == self.records[i as int]@);
            }
            i = i + 1;
        }
        proof {
            assert(self@.subrange(0, n as int) =~= self@);
        }
        match best {
            None => false,
            Some(p) => p.1,
        }
    }
}

/// Every record held for this (note, kind) pair carries `true` — the only
/// value this library ever writes.
pub open spec fn all_true(ov: Seq<OverlayRecordView>, id: Seq<char>, kind: StatusKind) -> bool {
    forall|i: int| 0 <= i < ov.len() && record_matches(#[trigger] ov[i], id, kind) ==> ov[i].value
}

pub open spec fn has_record(ov: Seq<OverlayRecordView>, id: Seq<char>, kind: StatusKind) -> bool {
    exists|i: int| 0 <= i < ov.len() && record_matches(#[trigger] ov[i], id, kind)
}

pub proof fn lemma_resolve_some_iff_has_record(
    ov: Seq<OverlayRecordView>,
    id: Seq<char>,
    kind: StatusKind,
)
    ensures
        spec_resolve(ov, id, kind) is Some <==> has_record(ov, id, kind),
    decreases ov.len(),
{
    if ov.len() > 0 {
        lemma_resolve_some_iff_has_record(ov.drop_last(), id, kind);
        if record_matches(ov.last(), id, kind) {
            assert(ov[ov.len() - 1] == ov.last());
        } else {
            if has_record(ov.drop_last(), id, kind) {
                let i = choose|i: int|
                    0 <= i < ov.drop_last().len() && record_matches(
                        #[trigger] ov.drop_last()[i],
                        id,
                        kind,
                    );
                assert(record_matches(ov[i], id, kind));
            }
            if has_record(ov, id, kind) {
                let i = choose|i: int|
                    0 <= i < ov.len() && record_matches(#[trigger] ov[i], id, kind);
                assert(i < ov.len() - 1);
                assert(record_matches(ov.drop_last()[i], id, kind));
            }
        }
    }
}

/// The status of a pair whose records all carry `true` resolves to `true`
/// whenever any record exists: marking is idempotent, and re-marking can never
/// turn the status back to `false`.
pub proof fn lemma_status_all_true(ov: Seq<OverlayRecordView>, id: Seq<char>, kind: StatusKind)
    requires
        has_record(ov, id, kind),
        all_true(ov, id, kind),
    ensures
        spec_status(ov, id, kind) == true,
    decreases ov.len(),
{
    lemma_resolve_some_iff_has_record(ov, id, kind);
    if ov.len() > 0 {
        if record_matches(ov.last(), id, kind) {
            assert(ov[ov.len() - 1] == ov.last());
            assert(ov.last().value);
            if spec_resolve(ov.drop_last(), id, kind) is Some {
                assert(all_true(ov.drop_last(), id, kind)) by {
                    assert(forall|i: int|
                        0 <= i < ov.drop_last().len() ==> #[trigger] ov.drop_last()[i] == ov[i]);
                }
                lemma_resolve_some_iff_has_record(ov.drop_last(), id, kind);
                lemma_status_all_true(ov.drop_last(), id, kind);
            }
        } else {
            assert(all_true(ov.drop_last(), id, kind)) by {
                assert(forall|i: int|
                    0 <= i < ov.drop_last().len() ==> #[trigger] ov.drop_last()[i] == ov[i]);
            }
            assert(has_record(ov.drop_last(), id, kind)) by {
                let i = choose|i: int|
                    0 <= i < ov.len() && record_matches(#[trigger] ov[i], id, kind);
                assert(i < ov.len() - 1);
                assert(record_matches(ov.drop_last()[i], id, kind));
            }
            lemma_status_all_true(ov.drop_last(), id, kind);
        }
    }
}

/// Marking a note read is idempotent: after one mark, and after a second, the
/// resolved read status is `true`, provided the library alone has written the
/// overlay (all held records carry `true`).
pub proof fn lemma_mark_read_idempotent(
    ov: Seq<OverlayRecordView>,
    id: Seq<char>,
    t1: u64,
    t2: u64,
)
    requires
        all_true(ov, id, StatusKind::Read),
    ensures
        spec_status(
            ov.push(
                OverlayRecordView { note_id: id, kind: StatusKind::Read, value: true, timestamp: t1 },
            ),
            id,
            StatusKind::Read,
        ) == true,
        spec_status(
            ov.push(
                OverlayRecordView { note_id: id, kind: StatusKind::Read, value: true, timestamp: t1 },
            ).push(
                OverlayRecordView { note_id: id, kind: StatusKind::Read, value: true, timestamp: t2 },
            ),
            id,
            StatusKind::Read,
        ) == true,
{
    let r1 = OverlayRecordView { note_id: id, kind: StatusKind::Read, value: true, timestamp: t1 };
    let r2 = OverlayRecordView { note_id: id, kind: StatusKind::Read, value: true, timestamp: t2 };
    let ov1 = ov.push(r1);
    let ov2 = ov1.push(r2);
    assert(ov1[ov.len() as int] == r1);
    assert(all_true(ov1, id, StatusKind::Read)) by {
        assert(forall|i: int| 0 <= i < ov.len() ==> #[trigger] ov1[i] == ov[i]);
    }
    lemma_status_all_true(ov1, id, StatusKind::Read);
    assert(ov2[ov.len() as int] == r1);
    assert(all_true(ov2, id, StatusKind::Read)) by {
        assert(forall|i: int| 0 <= i < ov1.len() ==> #[trigger] ov2[i] == ov1[i]);
    }
    lemma_status_all_true(ov2, id, StatusKind::Read);
}

} // verus!
