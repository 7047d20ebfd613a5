use vstd::prelude::*;

use crate::keys::decrypt_of;
use crate::note::{ContentEvent, EventView, Note, NoteDraft, NoteView, NOTE_KIND};
use crate::overlay::{spec_status, Overlay, OverlayRecordView, StatusKind};
use crate::text::{lower_of, lowercase, str_eq, strings_contain};
use crate::Dialog;

verus! {

/// The hashtag values among an event's tag markers: the second entry of every
/// two-entry marker whose first entry is the hashtag letter.
pub open spec fn spec_extract_tags(tags: Seq<Seq<Seq<char>>>) -> Seq<Seq<char>>
    decreases tags.len(),
{
    if tags.len() == 0 {
        Seq::empty()
    } else {
        let rest = spec_extract_tags(tags.drop_first());
        if tags[0].len() == 2 && tags[0][0] == "t"@ {
            seq![tags[0][1]] + rest
        } else {
            rest
        }
    }
}

/// Collect the hashtag values carried by an event's tag markers, in order.
pub fn extract_tags(event: &ContentEvent) -> (r: Vec<String>)
    ensures
        r.deep_view() == spec_extract_tags(event.tags.deep_view()),
{
    let ghost all = event.tags.deep_view();
    let mut out: Vec<String> = Vec::new();
    proof {
        assert(all.skip(0) =~= all);
        assert(out.deep_view() =~= Seq::<Seq<char>>::empty());
        assert(Seq::<Seq<char>>::empty() + spec_extract_tags(all) =~= spec_extract_tags(all));
    }
    let mut i: usize = 0;
    while i < event.tags.len()
        invariant
            all == event.tags.deep_view(),
            i <= event.tags.len(),
            spec_extract_tags(all) == out.deep_view() + spec_extract_tags(all.skip(i as int)),
        decreases event.tags.len() - i,
    {
        proof {
            assert(all.skip(i as int)[0] == all[i as int]);
            assert(all.skip(i as int).drop_first() =~= all.skip(i + 1));
        }
        let marker = &event.tags[i];
        if marker.len() == 2 && str_eq(marker[0].as_str(), "t") {
            let ghost pre_out = out.deep_view();
            out.push(marker[1].clone());
            proof {
                assert(all[i as int][1] == marker.deep_view()[1]);
                assert(out.deep_view() =~= pre_out.push(all[i as int][1]));
                assert(pre_out + (seq![all[i as int][1]] + spec_extract_tags(all.skip(i + 1)))
                    =~= out.deep_view() + spec_extract_tags(all.skip(i + 1)));
            }
        }
        i = i + 1;
    }
    proof {
        assert(all.skip(event.tags.len() as int).len() == 0);
        assert(out.deep_view() + Seq::<Seq<char>>::empty() =~= out.deep_view());
    }
    out
}

/// The note materialized from one decrypted event obtained from local
/// storage: overlay-resolved read status, and synced by virtue of presence.
pub open spec fn spec_note_of(e: EventView, text: Seq<char>, ov: Seq<OverlayRecordView>) -> NoteView {
    NoteView {
        id: e.id,
        text,
        tags: spec_extract_tags(e.tags),
        created_at: e.created_at,
        is_read: spec_status(ov, e.id, StatusKind::Read),
        is_synced: true,
    }
}

/// The notes a query materializes, in backend response order: events that
/// fail to decrypt are skipped, and an optional tag filter keeps only events
/// carrying that (already lowercased) tag.
pub open spec fn spec_selected_notes(
    nsec: Seq<char>,
    evs: Seq<EventView>,
    ov: Seq<OverlayRecordView>,
    tag: Option<Seq<char>>,
) -> Seq<NoteView>
    decreases evs.len(),
{
    if evs.len() == 0 {
        Seq::empty()
    } else {
        let rest = spec_selected_notes(nsec, evs.drop_first(), ov, tag);
        let keep = match tag {
            None => true,
            Some(t) => spec_extract_tags(evs[0].tags).contains(t),
        };
        if keep {
            match decrypt_of(nsec, evs[0].content) {
                Some(text) => seq![spec_note_of(evs[0], text, ov)] + rest,
                None => rest,
            }
        } else {
            rest
        }
    }
}

/// Non-increasing creation time, newest first.
pub open spec fn spec_sorted_desc(s: Seq<NoteView>) -> bool {
    forall|i: int, j: int| 0 <= i < j < s.len() ==> s[i].created_at >= s[j].created_at
}

/// Insert a note behind every already-placed note created at the same time or
/// later: the stable insertion step.
pub open spec fn spec_insert_desc(n: NoteView, s: Seq<NoteView>) -> Seq<NoteView>
    decreases s.len(),
{
    if s.len() == 0 {
        seq![n]
    } else if s[0].created_at >= n.created_at {
        seq![s[0]] + spec_insert_desc(n, s.drop_first())
    } else {
        seq![n] + s
    }
}

/// Stable sort by creation time, newest first; ties keep response order.
pub open spec fn spec_sort_desc(s: Seq<NoteView>) -> Seq<NoteView>
    decreases s.len(),
{
    if s.len() == 0 {
        Seq::empty()
    } else {
        spec_insert_desc(s.last(), spec_sort_desc(s.drop_last()))
    }
}

pub proof fn lemma_insert_desc_len(n: NoteView, s: Seq<NoteView>)
    ensures
        spec_insert_desc(n, s).len() == s.len() + 1,
    decreases s.len(),
{
    if s.len() > 0 && s[0].created_at >= n.created_at {
        lemma_insert_desc_len(n, s.drop_first());
    }
}

pub proof fn lemma_insert_desc_sorted(n: NoteView, s: Seq<NoteView>)
    requires
        spec_sorted_desc(s),
    ensures
        spec_sorted_desc(spec_insert_desc(n, s)),
    decreases s.len(),
{
    lemma_insert_desc_len(n, s);
    if s.len() == 0 {
    } else if s[0].created_at >= n.created_at {
        assert(spec_sorted_desc(s.drop_first())) by {
            assert(forall|i: int, j: int|
                0 <= i < j < s.drop_first().len() ==> #[trigger] s.drop_first()[i].created_at
                    >= #[trigger] s.drop_first()[j].created_at) by {
                assert(forall|i: int|
                    0 <= i < s.drop_first().len() ==> #[trigger] s.drop_first()[i] == s[i + 1]);
            }
        }
        lemma_insert_desc_sorted(n, s.drop_first());
        let t = spec_insert_desc(n, s.drop_first());
        let w = seq![s[0]] + t;
        lemma_insert_desc_len(n, s.drop_first());
        assert forall|i: int, j: int| 0 <= i < j < w.len() implies w[i].created_at
            >= w[j].created_at by {
            if i == 0 {
                // every element of t is either n or an element of s's tail,
                // and s[0] is at least both
                lemma_insert_desc_elems(n, s.drop_first(), j - 1);
            }
        }
    } else {
        let w = seq![n] + s;
        assert forall|i: int, j: int| 0 <= i < j < w.len() implies w[i].created_at
            >= w[j].created_at by {
            if i == 0 {
                assert(w[j] == s[j - 1]);
                if j - 1 > 0 {
                    assert(s[0].created_at >= s[j - 1].created_at);
                }
            }
        }
    }
}

/// Each element of the inserted sequence is either the inserted note or one
/// of the originals.
pub proof fn lemma_insert_desc_elems(n: NoteView, s: Seq<NoteView>, k: int)
    requires
        0 <= k < spec_insert_desc(n, s).len(),
    ensures
        spec_insert_desc(n, s)[k] == n || s.contains(spec_insert_desc(n, s)[k]),
    decreases s.len(),
{
    lemma_insert_desc_len(n, s);
    if s.len() == 0 {
    } else if s[0].created_at >= n.created_at {
        if k == 0 {
            assert(s.contains(s[0]));
        } else {
            lemma_insert_desc_elems(n, s.drop_first(), k - 1);
            let x = spec_insert_desc(n, s.drop_first())[k - 1];
            if s.drop_first().contains(x) {
                let i = choose|i: int| 0 <= i < s.drop_first().len() && s.drop_first()[i] == x;
                assert(s[i + 1] == x);
                assert(s.contains(x));
            }
        }
    } else {
        if k > 0 {
            assert(s.contains(s[k - 1]));
        }
    }
}

pub proof fn lemma_sort_desc_sorted(s: Seq<NoteView>)
    ensures
        spec_sorted_desc(spec_sort_desc(s)),
        spec_sort_desc(s).len() == s.len(),
    decreases s.len(),
{
    if s.len() > 0 {
        lemma_sort_desc_sorted(s.drop_last());
        lemma_insert_desc_sorted(s.last(), spec_sort_desc(s.drop_last()));
        lemma_insert_desc_len(s.last(), spec_sort_desc(s.drop_last()));
    }
}

/// Where the insertion lands: before the first already-placed note that was
/// created strictly earlier.
pub proof fn lemma_insert_desc_at(n: NoteView, s: Seq<NoteView>, j: int)
    requires
        0 <= j <= s.len(),
        forall|k: int| 0 <= k < j ==> s[k].created_at >= n.created_at,
        j < s.len() ==> s[j].created_at < n.created_at,
    ensures
        spec_insert_desc(n, s) == s.take(j) + seq![n] + s.skip(j),
    decreases j,
{
    if s.len() == 0 {
        assert(spec_insert_desc(n, s) =~= s.take(0) + seq![n] + s.skip(0));
    } else if j == 0 {
        assert(s[0].created_at < n.created_at);
        assert(spec_insert_desc(n, s) =~= s.take(0) + seq![n] + s.skip(0));
    } else {
        assert(s[0].created_at >= n.created_at);
        lemma_insert_desc_at(n, s.drop_first(), j - 1);
        assert(forall|k: int|
            0 <= k < j - 1 ==> #[trigger] s.drop_first()[k].created_at >= n.created_at) by {
            assert(forall|k: int|
                0 <= k < s.drop_first().len() ==> #[trigger] s.drop_first()[k] == s[k + 1]);
        }
        assert(seq![s[0]] + (s.drop_first().take(j - 1) + seq![n] + s.drop_first().skip(j - 1))
            =~= s.take(j) + seq![n] + s.skip(j));
    }
}

fn sort_notes_desc(notes: Vec<Note>) -> (r: Vec<Note>)
    ensures
        r.deep_view() == spec_sort_desc(notes.deep_view()),
{
    let ghost all = notes.deep_view();
    let mut out: Vec<Note> = Vec::new();
    proof {
        assert(all.take(0) =~= Seq::<NoteView>::empty());
        assert(out.deep_view() =~= Seq::<NoteView>::empty());
    }
    let mut i: usize = 0;
    while i < notes.len()
        invariant
            all == notes.deep_view(),
            i <= notes.len(),
            out.deep_view() == spec_sort_desc(all.take(i as int)),
        decreases notes.len() - i,
    {
        let n = notes[i].clone();
        let ghost pre = out.deep_view();
        // find the insertion point: past every note created at or after n
        let mut j: usize = 0;
        while j < out.len() && out[j].created_at >= n.created_at
            invariant
                j <= out.len(),
                forall|k: int| 0 <= k < j ==> out.deep_view()[k].created_at >= n@.created_at,
            decreases out.len() - j,
        {
            j = j + 1;
        }
        out.insert(j, n);
        proof {
            lemma_insert_desc_at(notes.deep_view()[i as int], pre, j as int);
            assert(out.deep_view() =~= pre.take(j as int) + seq![all[i as int]] + pre.skip(
                j as int,
            ));
            assert(all.take(i + 1).drop_last() =~= all.take(i as int));
            assert(all.take(i + 1).last() == all[i as int]);
        }
        i = i + 1;
    }
    proof {
        assert(all.take(notes.len() as int) =~= all);
    }
    out
}

/// The result of a query: materialized, newest first, truncated to `limit`.
pub open spec fn spec_list(
    nsec: Seq<char>,
    evs: Seq<EventView>,
    ov: Seq<OverlayRecordView>,
    tag: Option<Seq<char>>,
    limit: nat,
) -> Seq<NoteView> {
    let sorted = spec_sort_desc(spec_selected_notes(nsec, evs, ov, tag));
    if limit < sorted.len() {
        sorted.take(limit as int)
    } else {
        sorted
    }
}

impl Dialog {
    fn assemble_notes(
        &self,
        events: &Vec<ContentEvent>,
        overlay: &Overlay,
        tag_lowered: Option<&String>,
        limit: usize,
    ) -> (r: Vec<Note>)
        ensures
            r.deep_view() == spec_list(
                self.nsec(),
                events.deep_view(),
                overlay@,
                match tag_lowered {
                    None => None,
                    Some(t) => Some(t@),
                },
                limit as nat,
            ),
            spec_sorted_desc(r.deep_view()),
    {
        let ghost evs = events.deep_view();
        let ghost tag = match tag_lowered {
            None => None::<Seq<char>>,
            Some(t) => Some(t@),
        };
        let mut picked: Vec<Note> = Vec::new();
        proof {
            assert(evs.skip(0) =~= evs);
            assert(picked.deep_view() =~= Seq::<NoteView>::empty());
            assert(Seq::<NoteView>::empty() + spec_selected_notes(self.nsec(), evs, overlay@, tag)
                =~= spec_selected_notes(self.nsec(), evs, overlay@, tag));
        }
        let mut i: usize = 0;
        while i < events.len()
            invariant
                evs == events.deep_view(),
                tag == (match tag_lowered {
                    None => None::<Seq<char>>,
                    Some(t) => Some(t@),
                }),
                i <= events.len(),
                spec_selected_notes(self.nsec(), evs, overlay@, tag) == picked.deep_view()
                    + spec_selected_notes(self.nsec(), evs.skip(i as int), overlay@, tag),
            decreases events.len() - i,
        {
            proof {
                assert(evs.skip(i as int)[0] == evs[i as int]);
                assert(evs.skip(i as int).drop_first() =~= evs.skip(i + 1));
            }
            let event = &events[i];
            let keep = match tag_lowered {
                None => true,
                Some(t) => {
                    let event_tags = extract_tags(event);
                    strings_contain(&event_tags, t.as_str())
                },
            };
            if keep {
                match self.decrypt_event(event) {
                    Some(text) => {
                        let is_read = self.get_read_status(overlay, event.id.as_str());
                        let tags = extract_tags(event);
                        let note = Note {
                            id: event.id.clone(),
                            text,
                            tags,
                            created_at: event.created_at,
                            is_read,
                            is_synced: true,
                        };
                        let ghost pre = picked.deep_view();
                        let ghost nv = spec_note_of(
                            evs[i as int],
                            decrypt_of(self.nsec(), evs[i as int].content)->0,
                            overlay@,
                        );
                        picked.push(note);
                        proof {
                            assert(picked.deep_view() =~= pre.push(nv));
                            assert(pre + (seq![nv] + spec_selected_notes(
                                self.nsec(),
                                evs.skip(i + 1),
                                overlay@,
                                tag,
                            )) =~= picked.deep_view() + spec_selected_notes(
                                self.nsec(),
                                evs.skip(i + 1),
                                overlay@,
                                tag,
                            ));
                        }
                    },
                    None => {},
                }
            }
            i = i + 1;
        }
        proof {
            assert(evs.skip(events.len() as int).len() == 0);
            assert(picked.deep_view() + Seq::<NoteView>::empty() =~= picked.deep_view());
        }
        let mut sorted = sort_notes_desc(picked);
        proof {
            lemma_sort_desc_sorted(spec_selected_notes(self.nsec(), evs, overlay@, tag));
        }
        let ghost whole = sorted.deep_view();
        if limit < sorted.len() {
            sorted.truncate(limit);
            proof {
                assert(sorted.deep_view() =~= whole.take(limit as int));
                assert(spec_sorted_desc(sorted.deep_view()));
            }
        }
        sorted
    }

    /// Materialize the identity's notes from the events held by local
    /// storage: undecryptable events are skipped, read status is resolved
    /// from the overlay, presence in local storage counts as synced, newest
    /// first, truncated to `limit`.
    pub fn list_notes(
        &self,
        events: &Vec<ContentEvent>,
        overlay: &Overlay,
        limit: usize,
    ) -> (r: Vec<Note>)
        ensures
            r.deep_view() == spec_list(
                self.nsec(),
                events.deep_view(),
                overlay@,
                None,
                limit as nat,
            ),
            spec_sorted_desc(r.deep_view()),
    {
        self.assemble_notes(events, overlay, None, limit)
    }

    /// As `list_notes`, keeping only events that carry the tag, compared in
    /// lowercase: the spelling of `tag` matters only up to case folding.
    pub fn list_by_tag(
        &self,
        events: &Vec<ContentEvent>,
        overlay: &Overlay,
        tag: &str,
        limit: usize,
    ) -> (r: Vec<Note>)
        ensures
            r.deep_view() == spec_list(
                self.nsec(),
                events.deep_view(),
                overlay@,
                Some(lower_of(tag@)),
                limit as nat,
            ),
            spec_sorted_desc(r.deep_view()),
    {
        let lowered = lowercase(tag);
        self.assemble_notes(events, overlay, Some(&lowered), limit)
    }
}

/// Tag filtering is case-insensitive: two spellings with the same lowercase
/// form select identical results, whatever the events and overlay hold.
pub proof fn lemma_list_by_tag_case_insensitive(
    nsec: Seq<char>,
    evs: Seq<EventView>,
    ov: Seq<OverlayRecordView>,
    t1: Seq<char>,
    t2: Seq<char>,
    limit: nat,
)
    ensures
        lower_of(t1) == lower_of(t2) ==> spec_list(nsec, evs, ov, Some(lower_of(t1)), limit)
            == spec_list(nsec, evs, ov, Some(lower_of(t2)), limit),
{
}

proof fn lemma_selected_len_le(
    nsec: Seq<char>,
    evs: Seq<EventView>,
    ov: Seq<OverlayRecordView>,
    tag: Option<Seq<char>>,
)
    ensures
        spec_selected_notes(nsec, evs, ov, tag).len() <= evs.len(),
    decreases evs.len(),
{
    if evs.len() > 0 {
        lemma_selected_len_le(nsec, evs.drop_first(), ov, tag);
    }
}

proof fn lemma_selected_contains(
    nsec: Seq<char>,
    evs: Seq<EventView>,
    ov: Seq<OverlayRecordView>,
    k: int,
    text: Seq<char>,
)
    requires
        0 <= k < evs.len(),
        decrypt_of(nsec, evs[k].content) == Some(text),
    ensures
        spec_selected_notes(nsec, evs, ov, None).contains(spec_note_of(evs[k], text, ov)),
    decreases evs.len(),
{
    let note = spec_note_of(evs[k], text, ov);
    let whole = spec_selected_notes(nsec, evs, ov, None);
    if k == 0 {
        assert(whole[0] == note);
    } else {
        lemma_selected_contains(nsec, evs.drop_first(), ov, k - 1, text);
        let rest = spec_selected_notes(nsec, evs.drop_first(), ov, None);
        assert(evs.drop_first()[k - 1] == evs[k]);
        let i = choose|i: int| 0 <= i < rest.len() && rest[i] == note;
        match decrypt_of(nsec, evs[0].content) {
            Some(head_text) => {
                assert(whole[i + 1] == note);
            },
            None => {
                assert(whole[i] == note);
            },
        }
    }
}

proof fn lemma_insert_desc_contains(n: NoteView, s: Seq<NoteView>, x: NoteView)
    ensures
        spec_insert_desc(n, s).contains(x) <==> (x == n || s.contains(x)),
    decreases s.len(),
{
    let w = spec_insert_desc(n, s);
    lemma_insert_desc_len(n, s);
    if w.contains(x) {
        let k = choose|k: int| 0 <= k < w.len() && w[k] == x;
        lemma_insert_desc_elems(n, s, k);
    }
    if x == n || s.contains(x) {
        if s.len() == 0 {
            assert(w[0] == n);
        } else if s[0].created_at >= n.created_at {
            let t = spec_insert_desc(n, s.drop_first());
            if x == s[0] {
                assert(w[0] == x);
            } else if s.contains(x) {
                let i = choose|i: int| 0 <= i < s.len() && s[i] == x;
                assert(i > 0);
                assert(s.drop_first()[i - 1] == x);
                lemma_insert_desc_contains(n, s.drop_first(), x);
                let j = choose|j: int| 0 <= j < t.len() && t[j] == x;
                assert(w[j + 1] == x);
            } else {
                lemma_insert_desc_contains(n, s.drop_first(), x);
                let j = choose|j: int| 0 <= j < t.len() && t[j] == x;
                assert(w[j + 1] == x);
            }
        } else {
            if x == n {
                assert(w[0] == x);
            } else {
                let i = choose|i: int| 0 <= i < s.len() && s[i] == x;
                assert(w[i + 1] == x);
            }
        }
    }
}

/// Sorting reorders the materialized notes but neither loses nor invents one.
pub proof fn lemma_sort_desc_contains(s: Seq<NoteView>, x: NoteView)
    ensures
        spec_sort_desc(s).contains(x) <==> s.contains(x),
    decreases s.len(),
{
    if s.len() > 0 {
        let sorted_head = spec_sort_desc(s.drop_last());
        lemma_sort_desc_contains(s.drop_last(), x);
        lemma_insert_desc_contains(s.last(), sorted_head, x);
        if s.contains(x) {
            let i = choose|i: int| 0 <= i < s.len() && s[i] == x;
            if i == s.len() - 1 {
                assert(x == s.last());
            } else {
                assert(s.drop_last()[i] == x);
            }
        }
        if x == s.last() || s.drop_last().contains(x) {
            if x == s.last() {
                assert(s[s.len() - 1] == x);
            } else {
                let i = choose|i: int| 0 <= i < s.drop_last().len() && s.drop_last()[i] == x;
                assert(s[i] == x);
            }
        }
    }
}

/// A readable note among the backend's response is always listed: whenever
/// an event decrypts and the limit covers the response, the note it
/// materializes to is in the query's result.
pub proof fn lemma_list_contains_readable(
    nsec: Seq<char>,
    evs: Seq<EventView>,
    ov: Seq<OverlayRecordView>,
    k: int,
    text: Seq<char>,
    limit: nat,
)
    requires
        0 <= k < evs.len(),
        decrypt_of(nsec, evs[k].content) == Some(text),
        limit >= evs.len(),
    ensures
        spec_list(nsec, evs, ov, None, limit).contains(spec_note_of(evs[k], text, ov)),
{
    let note = spec_note_of(evs[k], text, ov);
    let selected = spec_selected_notes(nsec, evs, ov, None);
    lemma_selected_contains(nsec, evs, ov, k, text);
    lemma_sort_desc_contains(selected, note);
    lemma_selected_len_le(nsec, evs, ov, None);
    lemma_sort_desc_sorted(selected);
}

/// How many notes of `s` carry this identifier.
pub open spec fn spec_count_id(s: Seq<NoteView>, id: Seq<char>) -> nat
    decreases s.len(),
{
    if s.len() == 0 {
        0
    } else {
        spec_count_id(s.drop_first(), id) + if s[0].id == id {
            1nat
        } else {
            0nat
        }
    }
}

proof fn lemma_count_id_head(a: NoteView, rest: Seq<NoteView>, id: Seq<char>)
    ensures
        spec_count_id(seq![a] + rest, id) == spec_count_id(rest, id) + if a.id == id {
            1nat
        } else {
            0nat
        },
{
    let w = seq![a] + rest;
    assert(w[0] == a);
    assert(w.drop_first() =~= rest);
}

proof fn lemma_count_id_insert_desc(n: NoteView, s: Seq<NoteView>, id: Seq<char>)
    ensures
        spec_count_id(spec_insert_desc(n, s), id) == spec_count_id(s, id) + if n.id == id {
            1nat
        } else {
            0nat
        },
    decreases s.len(),
{
    if s.len() == 0 {
        assert(spec_insert_desc(n, s) =~= seq![n] + Seq::<NoteView>::empty());
        lemma_count_id_head(n, Seq::<NoteView>::empty(), id);
        assert(spec_count_id(Seq::<NoteView>::empty(), id) == 0);
    } else if s[0].created_at >= n.created_at {
        lemma_count_id_insert_desc(n, s.drop_first(), id);
        lemma_count_id_head(s[0], spec_insert_desc(n, s.drop_first()), id);
        lemma_count_id_head(s[0], s.drop_first(), id);
        assert(seq![s[0]] + s.drop_first() =~= s);
    } else {
        lemma_count_id_head(n, s, id);
    }
}

proof fn lemma_count_id_drop_last(s: Seq<NoteView>, id: Seq<char>)
    requires
        s.len() > 0,
    ensures
        spec_count_id(s, id) == spec_count_id(s.drop_last(), id) + if s.last().id == id {
            1nat
        } else {
            0nat
        },
    decreases s.len(),
{
    if s.len() == 1 {
        assert(s.drop_last() =~= Seq::<NoteView>::empty());
        assert(s.drop_first() =~= Seq::<NoteView>::empty());
        assert(s[0] == s.last());
    } else {
        lemma_count_id_drop_last(s.drop_first(), id);
        assert(s.drop_first().drop_last() =~= s.drop_last().drop_first());
        assert(s.drop_first().last() == s.last());
        assert(s.drop_last()[0] == s[0]);
    }
}

/// Sorting neither loses nor duplicates a note of a given identifier.
pub proof fn lemma_count_id_sort_desc(s: Seq<NoteView>, id: Seq<char>)
    ensures
        spec_count_id(spec_sort_desc(s), id) == spec_count_id(s, id),
    decreases s.len(),
{
    if s.len() > 0 {
        lemma_count_id_sort_desc(s.drop_last(), id);
        lemma_count_id_insert_desc(s.last(), spec_sort_desc(s.drop_last()), id);
        lemma_count_id_drop_last(s, id);
    }
}

proof fn lemma_count_id_selected_absent(
    nsec: Seq<char>,
    evs: Seq<EventView>,
    ov: Seq<OverlayRecordView>,
    id: Seq<char>,
)
    requires
        forall|i: int| 0 <= i < evs.len() ==> (#[trigger] evs[i]).id != id,
    ensures
        spec_count_id(spec_selected_notes(nsec, evs, ov, None), id) == 0,
    decreases evs.len(),
{
    if evs.len() > 0 {
        assert(forall|i: int|
            0 <= i < evs.drop_first().len() ==> #[trigger] evs.drop_first()[i] == evs[i + 1]);
        lemma_count_id_selected_absent(nsec, evs.drop_first(), ov, id);
        let rest = spec_selected_notes(nsec, evs.drop_first(), ov, None);
        match decrypt_of(nsec, evs[0].content) {
            Some(text) => {
                lemma_count_id_head(spec_note_of(evs[0], text, ov), rest, id);
                assert(evs[0].id != id);
            },
            None => {},
        }
    }
}

proof fn lemma_count_id_selected_once(
    nsec: Seq<char>,
    evs: Seq<EventView>,
    ov: Seq<OverlayRecordView>,
    k: int,
    text: Seq<char>,
)
    requires
        forall|i: int, j: int|
            0 <= i < j < evs.len() ==> (#[trigger] evs[i]).id != (#[trigger] evs[j]).id,
        0 <= k < evs.len(),
        decrypt_of(nsec, evs[k].content) == Some(text),
    ensures
        spec_count_id(spec_selected_notes(nsec, evs, ov, None), evs[k].id) == 1,
    decreases evs.len(),
{
    let id = evs[k].id;
    assert(forall|i: int|
        0 <= i < evs.drop_first().len() ==> #[trigger] evs.drop_first()[i] == evs[i + 1]);
    let rest = spec_selected_notes(nsec, evs.drop_first(), ov, None);
    if k == 0 {
        assert(forall|i: int|
            0 <= i < evs.drop_first().len() ==> (#[trigger] evs.drop_first()[i]).id != id);
        lemma_count_id_selected_absent(nsec, evs.drop_first(), ov, id);
        lemma_count_id_head(spec_note_of(evs[0], text, ov), rest, id);
    } else {
        lemma_count_id_selected_once(nsec, evs.drop_first(), ov, k - 1, text);
        assert(evs.drop_first()[k - 1] == evs[k]);
        match decrypt_of(nsec, evs[0].content) {
            Some(head_text) => {
                lemma_count_id_head(spec_note_of(evs[0], head_text, ov), rest, id);
                assert(evs[0].id != id);
            },
            None => {},
        }
    }
}

/// A created note is listed back exactly once: when the backend's response
/// carries each event once, an event of the created note that decrypts to
/// its text yields, under a limit covering the response, exactly one listed
/// note with that identifier — the note carrying the original text and the
/// tags its markers derive.
pub proof fn lemma_create_then_list_exactly_once(
    nsec: Seq<char>,
    evs: Seq<EventView>,
    ov: Seq<OverlayRecordView>,
    k: int,
    text: Seq<char>,
    limit: nat,
)
    requires
        forall|i: int, j: int|
            0 <= i < j < evs.len() ==> (#[trigger] evs[i]).id != (#[trigger] evs[j]).id,
        0 <= k < evs.len(),
        decrypt_of(nsec, evs[k].content) == Some(text),
        limit >= evs.len(),
    ensures
        spec_count_id(spec_list(nsec, evs, ov, None, limit), evs[k].id) == 1,
        spec_list(nsec, evs, ov, None, limit).contains(spec_note_of(evs[k], text, ov)),
{
    let selected = spec_selected_notes(nsec, evs, ov, None);
    lemma_count_id_selected_once(nsec, evs, ov, k, text);
    lemma_count_id_sort_desc(selected, evs[k].id);
    lemma_selected_len_le(nsec, evs, ov, None);
    lemma_sort_desc_sorted(selected);
    lemma_list_contains_readable(nsec, evs, ov, k, text, limit);
}

/// A created note listed back: when local storage holds exactly the one
/// event built from a draft of `text` — its content decrypts to `text` and
/// its markers carry the derived tags — a query returns exactly one note,
/// with the original text and one tag per well-formed tag token of the text.
pub proof fn lemma_create_then_list(
    nsec: Seq<char>,
    e: EventView,
    ov: Seq<OverlayRecordView>,
    text: Seq<char>,
    limit: nat,
)
    requires
        decrypt_of(nsec, e.content) == Some(text),
        spec_extract_tags(e.tags) == crate::note::spec_parse_hashtags(text),
        limit >= 1,
    ensures
        spec_list(nsec, seq![e], ov, None, limit).len() == 1,
        spec_list(nsec, seq![e], ov, None, limit)[0].text == text,
        spec_list(nsec, seq![e], ov, None, limit)[0].id == e.id,
        spec_list(nsec, seq![e], ov, None, limit)[0].tags == crate::note::spec_parse_hashtags(
            text,
        ),
{
    let evs = seq![e];
    let note = spec_note_of(e, text, ov);
    assert(evs[0] == e);
    assert(evs.drop_first() =~= Seq::<EventView>::empty());
    assert(spec_selected_notes(nsec, Seq::<EventView>::empty(), ov, None)
        =~= Seq::<NoteView>::empty());
    let sel = spec_selected_notes(nsec, evs, ov, None);
    assert(sel =~= seq![note]);
    assert(sel.drop_last() =~= Seq::<NoteView>::empty());
    assert(spec_sort_desc(Seq::<NoteView>::empty()) =~= Seq::<NoteView>::empty());
    assert(sel.last() == note);
    assert(spec_sort_desc(sel) == spec_insert_desc(note, spec_sort_desc(sel.drop_last())));
    assert(spec_insert_desc(note, Seq::<NoteView>::empty()) =~= seq![note]);
    assert(spec_list(nsec, evs, ov, None, limit) =~= seq![note]);
}

/// Build the content event the backend stores for a draft: the ciphertext,
/// one hashtag marker per derived tag, and the self-reference marker.
pub fn content_event_from_draft(
    draft: NoteDraft,
    id: String,
    author: String,
    created_at: u64,
) -> (r: ContentEvent)
    ensures
        r@.id == id@,
        r@.author == author@,
        r@.kind == NOTE_KIND,
        r@.created_at == created_at,
        r@.content == draft.content@,
        spec_extract_tags(r@.tags) == draft.hashtags.deep_view(),
{
    let mut tags: Vec<Vec<String>> = Vec::new();
    let ghost hashtags = draft.hashtags.deep_view();
    proof {
        assert(tags.deep_view() =~= Seq::<Seq<Seq<char>>>::empty());
        assert(spec_extract_tags(tags.deep_view()) =~= Seq::<Seq<char>>::empty());
        assert(hashtags.take(0) =~= Seq::<Seq<char>>::empty());
    }
    let mut i: usize = 0;
    let hashtag_count = draft.hashtags.len();
    while i < hashtag_count
        invariant
            hashtag_count == draft.hashtags.len(),
            hashtags == draft.hashtags.deep_view(),
            i <= hashtag_count,
            spec_extract_tags(tags.deep_view()) == hashtags.take(i as int),
            tags.deep_view().len() == i,
        decreases hashtag_count - i,
    {
        let mut marker: Vec<String> = Vec::new();
        marker.push(String::from_str("t"));
        marker.push(draft.hashtags[i].clone());
        let ghost pre = tags.deep_view();
        tags.push(marker);
        proof {
            assert(tags.deep_view() =~~= pre.push(seq!["t"@, hashtags[i as int]]));
            lemma_extract_tags_push_marker(pre, hashtags[i as int]);
            assert(hashtags.take(i + 1) =~= hashtags.take(i as int).push(hashtags[i as int]));
            assert(spec_extract_tags(pre).push(hashtags[i as int]) =~= hashtags.take(i as int).push(
                hashtags[i as int],
            ));
        }
        i = i + 1;
    }
    // the self-reference marker ties the event to the authoring identity
    let mut self_marker: Vec<String> = Vec::new();
    self_marker.push(String::from_str("p"));
    self_marker.push(author.clone());
    let ghost pre = tags.deep_view();
    tags.push(self_marker);
    proof {
        assert(tags.deep_view() =~~= pre.push(seq!["p"@, author@]));
        proof_strlit_distinct();
        lemma_extract_tags_push_other(pre, seq!["p"@, author@]);
        assert(hashtags.take(hashtag_count as int) =~= hashtags);
        proof_strlit_distinct();
    }
    ContentEvent {
        id,
        author,
        kind: NOTE_KIND,
        created_at,
        tags,
        content: draft.content,
    }
}

proof fn proof_strlit_distinct()
    ensures
        "p"@ != "t"@,
{
    reveal_strlit("p");
    reveal_strlit("t");
    assert("p"@[0] == 'p');
    assert("t"@[0] == 't');
}

proof fn lemma_extract_tags_push_marker(tags: Seq<Seq<Seq<char>>>, value: Seq<char>)
    ensures
        spec_extract_tags(tags.push(seq!["t"@, value])) == spec_extract_tags(tags).push(value),
    decreases tags.len(),
{
    let marker = seq!["t"@, value];
    reveal_strlit("t");
    if tags.len() == 0 {
        assert(tags.push(marker)[0] == marker);
        assert(tags.push(marker).drop_first() =~= Seq::<Seq<Seq<char>>>::empty());
        assert(spec_extract_tags(Seq::<Seq<Seq<char>>>::empty()) =~= Seq::<Seq<char>>::empty());
        assert(spec_extract_tags(tags.push(marker)) =~= spec_extract_tags(tags).push(value));
    } else {
        lemma_extract_tags_push_marker(tags.drop_first(), value);
        assert(tags.push(marker).drop_first() =~= tags.drop_first().push(marker));
        assert(tags.push(marker)[0] == tags[0]);
        if tags[0].len() == 2 && tags[0][0] == "t"@ {
            assert(seq![tags[0][1]] + spec_extract_tags(tags.drop_first()).push(value)
                =~= (seq![tags[0][1]] + spec_extract_tags(tags.drop_first())).push(value));
        }
    }
}

proof fn lemma_extract_tags_push_other(tags: Seq<Seq<Seq<char>>>, marker: Seq<Seq<char>>)
    requires
        !(marker.len() == 2 && marker[0] == "t"@),
    ensures
        spec_extract_tags(tags.push(marker)) == spec_extract_tags(tags),
    decreases tags.len(),
{
    if tags.len() == 0 {
        assert(tags.push(marker)[0] == marker);
        assert(tags.push(marker).drop_first() =~= Seq::<Seq<Seq<char>>>::empty());
        assert(spec_extract_tags(Seq::<Seq<Seq<char>>>::empty()) =~= Seq::<Seq<char>>::empty());
        assert(spec_extract_tags(tags.push(marker)) =~= spec_extract_tags(tags));
    } else {
        lemma_extract_tags_push_other(tags.drop_first(), marker);
        assert(tags.push(marker).drop_first() =~= tags.drop_first().push(marker));
        assert(tags.push(marker)[0] == tags[0]);
    }
}

} // verus!
