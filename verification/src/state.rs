use vstd::prelude::*;

use crate::models::{Event, SyncMode, TagCount};
use crate::note::{Note, NoteView};
use crate::text::{
    lemma_str_lt_connex, lemma_str_lt_trans, lower_of, lowercase, spec_contains_seq, spec_str_lt,
    str_contains, str_eq, str_lt,
};

verus! {

pub open spec fn spec_has_id(s: Seq<NoteView>, id: Seq<char>) -> bool {
    exists|i: int| 0 <= i < s.len() && (#[trigger] s[i]).id == id
}

/// Each note occurs at most once.
pub open spec fn spec_unique_ids(s: Seq<NoteView>) -> bool {
    forall|i: int, j: int| 0 <= i < j < s.len() ==> (#[trigger] s[i]).id != (#[trigger] s[j]).id
}

/// The notes that pass an exact-match tag filter, cache order kept.
pub open spec fn spec_filter_tag(s: Seq<NoteView>, tag: Option<Seq<char>>) -> Seq<NoteView>
    decreases s.len(),
{
    if s.len() == 0 {
        Seq::empty()
    } else {
        let rest = spec_filter_tag(s.drop_first(), tag);
        let keep = match tag {
            None => true,
            Some(t) => s[0].tags.contains(t),
        };
        if keep {
            seq![s[0]] + rest
        } else {
            rest
        }
    }
}

/// Non-decreasing creation time, oldest first.
pub open spec fn spec_sorted_asc(s: Seq<NoteView>) -> bool {
    forall|i: int, j: int| 0 <= i < j < s.len() ==> s[i].created_at <= s[j].created_at
}

pub open spec fn spec_insert_asc(n: NoteView, s: Seq<NoteView>) -> Seq<NoteView>
    decreases s.len(),
{
    if s.len() == 0 {
        seq![n]
    } else if s[0].created_at <= n.created_at {
        seq![s[0]] + spec_insert_asc(n, s.drop_first())
    } else {
        seq![n] + s
    }
}

/// Stable sort by creation time, oldest first; ties keep cache order.
pub open spec fn spec_sort_asc(s: Seq<NoteView>) -> Seq<NoteView>
    decreases s.len(),
{
    if s.len() == 0 {
        Seq::empty()
    } else {
        spec_insert_asc(s.last(), spec_sort_asc(s.drop_last()))
    }
}

pub proof fn lemma_insert_asc_len(n: NoteView, s: Seq<NoteView>)
    ensures
        spec_insert_asc(n, s).len() == s.len() + 1,
    decreases s.len(),
{
    if s.len() > 0 && s[0].created_at <= n.created_at {
        lemma_insert_asc_len(n, s.drop_first());
    }
}

pub proof fn lemma_insert_asc_elems(n: NoteView, s: Seq<NoteView>, k: int)
    requires
        0 <= k < spec_insert_asc(n, s).len(),
    ensures
        spec_insert_asc(n, s)[k] == n || s.contains(spec_insert_asc(n, s)[k]),
    decreases s.len(),
{
    lemma_insert_asc_len(n, s);
    if s.len() == 0 {
    } else if s[0].created_at <= n.created_at {
        if k == 0 {
            assert(s.contains(s[0]));
        } else {
            lemma_insert_asc_elems(n, s.drop_first(), k - 1);
            let x = spec_insert_asc(n, s.drop_first())[k - 1];
            if s.drop_first().contains(x) {
                let i = choose|i: int| 0 <= i < s.drop_first().len() && s.drop_first()[i] == x;
                assert(s[i + 1] == x);
                assert(s.contains(x));
            }
        }
    } else {
        if k > 0 {
            assert(s.contains(s[k - 1]));
        }
    }
}

pub proof fn lemma_insert_asc_sorted(n: NoteView, s: Seq<NoteView>)
    requires
        spec_sorted_asc(s),
    ensures
        spec_sorted_asc(spec_insert_asc(n, s)),
    decreases s.len(),
{
    lemma_insert_asc_len(n, s);
    if s.len() == 0 {
    } else if s[0].created_at <= n.created_at {
        assert(spec_sorted_asc(s.drop_first())) by {
            assert(forall|i: int|
                0 <= i < s.drop_first().len() ==> #[trigger] s.drop_first()[i] == s[i + 1]);
        }
        lemma_insert_asc_sorted(n, s.drop_first());
        let t = spec_insert_asc(n, s.drop_first());
        let w = seq![s[0]] + t;
        lemma_insert_asc_len(n, s.drop_first());
        assert forall|i: int, j: int| 0 <= i < j < w.len() implies w[i].created_at
            <= w[j].created_at by {
            if i == 0 {
                lemma_insert_asc_elems(n, s.drop_first(), j - 1);
            }
        }
    } else {
        let w = seq![n] + s;
        assert forall|i: int, j: int| 0 <= i < j < w.len() implies w[i].created_at
            <= w[j].created_at by {
            if i == 0 {
                assert(w[j] == s[j - 1]);
                if j - 1 > 0 {
                    assert(s[0].created_at <= s[j - 1].created_at);
                }
            }
        }
    }
}

pub proof fn lemma_sort_asc_sorted(s: Seq<NoteView>)
    ensures
        spec_sorted_asc(spec_sort_asc(s)),
        spec_sort_asc(s).len() == s.len(),
    decreases s.len(),
{
    if s.len() > 0 {
        lemma_sort_asc_sorted(s.drop_last());
        lemma_insert_asc_sorted(s.last(), spec_sort_asc(s.drop_last()));
        lemma_insert_asc_len(s.last(), spec_sort_asc(s.drop_last()));
    }
}

pub proof fn lemma_insert_asc_at(n: NoteView, s: Seq<NoteView>, j: int)
    requires
        0 <= j <= s.len(),
        forall|k: int| 0 <= k < j ==> s[k].created_at <= n.created_at,
        j < s.len() ==> s[j].created_at > n.created_at,
    ensures
        spec_insert_asc(n, s) == s.take(j) + seq![n] + s.skip(j),
    decreases j,
{
    if s.len() == 0 {
        assert(spec_insert_asc(n, s) =~= s.take(0) + seq![n] + s.skip(0));
    } else if j == 0 {
        assert(s[0].created_at > n.created_at);
        assert(spec_insert_asc(n, s) =~= s.take(0) + seq![n] + s.skip(0));
    } else {
        assert(s[0].created_at <= n.created_at);
        lemma_insert_asc_at(n, s.drop_first(), j - 1);
        assert(forall|k: int|
            0 <= k < j - 1 ==> #[trigger] s.drop_first()[k].created_at <= n.created_at) by {
            assert(forall|k: int|
                0 <= k < s.drop_first().len() ==> #[trigger] s.drop_first()[k] == s[k + 1]);
        }
        assert(seq![s[0]] + (s.drop_first().take(j - 1) + seq![n] + s.drop_first().skip(j - 1))
            =~= s.take(j) + seq![n] + s.skip(j));
    }
}

fn sort_notes_asc(notes: Vec<Note>) -> (r: Vec<Note>)
    ensures
        r.deep_view() == spec_sort_asc(notes.deep_view()),
{
    let ghost all = notes.deep_view();
    let mut out: Vec<Note> = Vec::new();
    proof {
        assert(all.take(0) =~= Seq::<NoteView>::empty());
        assert(out.deep_view() =~= Seq::<NoteView>::empty());
    }
    let mut i: usize = 0;
    while i < notes.len()
        invariant
            all == notes.deep_view(),
            i <= notes.len(),
            out.deep_view() == spec_sort_asc(all.take(i as int)),
        decreases notes.len() - i,
    {
        let n = notes[i].clone();
        let ghost pre = out.deep_view();
        let mut j: usize = 0;
        while j < out.len() && out[j].created_at <= n.created_at
            invariant
                j <= out.len(),
                forall|k: int| 0 <= k < j ==> out.deep_view()[k].created_at <= n@.created_at,
            decreases out.len() - j,
        {
            j = j + 1;
        }
        out.insert(j, n);
        proof {
            lemma_insert_asc_at(notes.deep_view()[i as int], pre, j as int);
            assert(out.deep_view() =~= pre.take(j as int) + seq![all[i as int]] + pre.skip(
                j as int,
            ));
            assert(all.take(i + 1).drop_last() =~= all.take(i as int));
            assert(all.take(i + 1).last() == all[i as int]);
        }
        i = i + 1;
    }
    proof {
        assert(all.take(notes.len() as int) =~= all);
    }
    out
}

/// How many notes of `s` are unread and pass the tag filter.
pub open spec fn spec_unread_count(s: Seq<NoteView>, tag: Option<Seq<char>>) -> nat
    decreases s.len(),
{
    if s.len() == 0 {
        0
    } else {
        let rest = spec_unread_count(s.drop_first(), tag);
        let keep = !s[0].is_read && match tag {
            None => true,
            Some(t) => s[0].tags.contains(t),
        };
        if keep {
            rest + 1
        } else {
            rest
        }
    }
}

/// How often `t` occurs in one note's tag list (duplicates counted).
pub open spec fn spec_count_in(tags: Seq<Seq<char>>, t: Seq<char>) -> nat
    decreases tags.len(),
{
    if tags.len() == 0 {
        0
    } else {
        spec_count_in(tags.drop_first(), t) + if tags[0] == t {
            1nat
        } else {
            0nat
        }
    }
}

/// How often `t` occurs over all notes of `s`.
pub open spec fn spec_tag_count(s: Seq<NoteView>, t: Seq<char>) -> nat
    decreases s.len(),
{
    if s.len() == 0 {
        0
    } else {
        spec_tag_count(s.drop_first(), t) + spec_count_in(s[0].tags, t)
    }
}

/// The total number of tag occurrences over all notes of `s`.
pub open spec fn spec_total_tags(s: Seq<NoteView>) -> nat
    decreases s.len(),
{
    if s.len() == 0 {
        0
    } else {
        spec_total_tags(s.drop_first()) + s[0].tags.len()
    }
}

pub open spec fn spec_note_has_tag(s: Seq<NoteView>, t: Seq<char>) -> bool {
    exists|i: int| 0 <= i < s.len() && (#[trigger] s[i]).tags.contains(t)
}

/// The notes whose lowercased text contains the lowercased query.
pub open spec fn spec_search(s: Seq<NoteView>, q: Seq<char>) -> Seq<NoteView>
    decreases s.len(),
{
    if s.len() == 0 {
        Seq::empty()
    } else {
        let rest = spec_search(s.drop_first(), q);
        if spec_contains_seq(lower_of(s[0].text), lower_of(q)) {
            seq![s[0]] + rest
        } else {
            rest
        }
    }
}

pub open spec fn spec_strictly_sorted_strs(s: Seq<Seq<char>>) -> bool {
    forall|i: int, j: int| 0 <= i < j < s.len() ==> spec_str_lt(s[i], s[j])
}

/// Insert a string into a strictly sorted list unless it is already there.
fn insert_sorted_unique(v: &mut Vec<String>, x: String)
    requires
        spec_strictly_sorted_strs(old(v).deep_view()),
    ensures
        spec_strictly_sorted_strs(final(v).deep_view()),
        forall|t: Seq<char>|
            #[trigger] final(v).deep_view().contains(t) <==> (old(v).deep_view().contains(t) || t
                == x@),
{
    let ghost pre = v.deep_view();
    let mut j: usize = 0;
    while j < v.len() && str_lt(v[j].as_str(), x.as_str())
        invariant
            pre == v.deep_view(),
            j <= v.len(),
            forall|k: int| 0 <= k < j ==> spec_str_lt(#[trigger] pre[k], x@),
        decreases v.len() - j,
    {
        j = j + 1;
    }
    if j < v.len() && str_eq(v[j].as_str(), x.as_str()) {
        proof {
            assert(pre[j as int] == x@);
            assert(pre.contains(x@));
            assert(forall|t: Seq<char>|
                #[trigger] v.deep_view().contains(t) <==> (pre.contains(t) || t == x@));
        }
        return ;
    }
    proof {
        if j < v.len() {
            lemma_str_lt_connex(pre[j as int], x@);
            assert(spec_str_lt(x@, pre[j as int]));
        }
    }
    v.insert(j, x);
    proof {
        let post = v.deep_view();
        assert(post =~= pre.take(j as int) + seq![x@] + pre.skip(j as int));
        assert forall|a: int, b: int| 0 <= a < b < post.len() implies spec_str_lt(
            post[a],
            post[b],
        ) by {
            let ja = j as int;
            if a < ja && b == ja {
                assert(post[a] == pre[a]);
                lemma_str_lt_trans_chain(pre, a, ja, x@);
            } else if a == ja && b > ja {
                assert(post[b] == pre[b - 1]);
                lemma_str_lt_from_insert(pre, ja, b - 1, x@);
            } else if a < ja && b > ja {
                assert(post[a] == pre[a]);
                assert(post[b] == pre[b - 1]);
            } else if b < ja {
                assert(post[a] == pre[a]);
                assert(post[b] == pre[b]);
            } else if a > ja {
                assert(post[a] == pre[a - 1]);
                assert(post[b] == pre[b - 1]);
            }
        }
        assert forall|t: Seq<char>| #[trigger] post.contains(t) implies (pre.contains(t) || t
            == x@) by {
            let i = choose|i: int| 0 <= i < post.len() && post[i] == t;
            if i < j as int {
                assert(pre[i] == t);
            } else if i > j as int {
                assert(pre[i - 1] == t);
            }
        }
        assert forall|t: Seq<char>| (pre.contains(t) || t == x@) implies #[trigger] post.contains(
            t,
        ) by {
            if pre.contains(t) {
                let i = choose|i: int| 0 <= i < pre.len() && pre[i] == t;
                if i < j as int {
                    assert(post[i] == t);
                } else {
                    assert(post[i + 1] == t);
                }
            } else {
                assert(post[j as int] == t);
            }
        }
    }
}

proof fn lemma_str_lt_trans_chain(pre: Seq<Seq<char>>, a: int, ja: int, x: Seq<char>)
    requires
        0 <= a < ja <= pre.len(),
        forall|k: int| 0 <= k < ja ==> spec_str_lt(#[trigger] pre[k], x),
    ensures
        spec_str_lt(pre[a], x),
{
}

proof fn lemma_str_lt_from_insert(pre: Seq<Seq<char>>, ja: int, b: int, x: Seq<char>)
    requires
        0 <= ja <= b < pre.len(),
        spec_strictly_sorted_strs(pre),
        spec_str_lt(x, pre[ja]),
    ensures
        spec_str_lt(x, pre[b]),
{
    if b > ja {
        lemma_str_lt_trans(x, pre[ja], pre[b]);
    }
}

/// The consumer-facing cache of one session: the notes observed so far keyed
/// by identifier, the active tag filter, and the session's sync mode. The
/// surrounding application guards it with a reader/writer discipline; the
/// cache itself is plain state.
pub struct DialogClient {
    notes: Vec<Note>,
    current_filter: Option<String>,
    sync_mode: SyncMode,
}

impl DialogClient {
    pub closed spec fn notes_view(&self) -> Seq<NoteView> {
        self.notes.deep_view()
    }

    pub closed spec fn filter_view(&self) -> Option<Seq<char>> {
        match self.current_filter {
            Some(ref t) => Some(t@),
            None => None,
        }
    }

    pub closed spec fn mode_view(&self) -> SyncMode {
        self.sync_mode
    }

    /// Each note is cached at most once.
    pub open spec fn wf(&self) -> bool {
        spec_unique_ids(self.notes_view())
    }

    pub fn new(sync_mode: SyncMode) -> (r: DialogClient)
        ensures
            r.notes_view() == Seq::<NoteView>::empty(),
            r.filter_view() is None,
            r.mode_view() == sync_mode,
            r.wf(),
    {
        let r = DialogClient { notes: Vec::new(), current_filter: None, sync_mode };
        proof {
            assert(r.notes_view() =~= Seq::<NoteView>::empty());
        }
        r
    }

    pub fn sync_mode(&self) -> (r: SyncMode)
        ensures
            r == self.mode_view(),
    {
        self.sync_mode
    }

    pub fn set_sync_mode(&mut self, mode: SyncMode)
        ensures
            final(self).mode_view() == mode,
            final(self).notes_view() == old(self).notes_view(),
            final(self).filter_view() == old(self).filter_view(),
            final(self).wf() == old(self).wf(),
    {
        self.sync_mode = mode;
    }

    /// The active tag filter.
    pub fn current_filter(&self) -> (r: Option<&String>)
        ensures
            (match r {
                Some(t) => Some(t@),
                None => None,
            }) == self.filter_view(),
    {
        self.current_filter.as_ref()
    }

    /// Replace the active tag filter.
    pub fn set_filter(&mut self, tag: Option<String>)
        ensures
            final(self).filter_view() == (match tag {
                Some(ref t) => Some::<Seq<char>>(t@),
                None => None::<Seq<char>>,
            }),
            final(self).notes_view() == old(self).notes_view(),
            final(self).mode_view() == old(self).mode_view(),
            final(self).wf() == old(self).wf(),
    {
        self.current_filter = tag;
    }

    fn find_note(&self, id: &str) -> (r: Option<usize>)
        ensures
            r is Some <==> spec_has_id(self.notes_view(), id@),
            r matches Some(i) ==> i < self.notes_view().len() && self.notes_view()[i as int].id
                == id@,
    {
        let mut i: usize = 0;
        while i < self.notes.len()
            invariant
                i <= self.notes.len(),
                forall|k: int| 0 <= k < i ==> (#[trigger] self.notes_view()[k]).id != id@,
            decreases self.notes.len() - i,
        {
            if str_eq(self.notes[i].id.as_str(), id) {
                assert(self.notes_view()[i as int].id == id@);
                return Some(i);
            }
            i = i + 1;
        }
        None
    }

    /// Cache a note under its identifier, replacing a previously cached state
    /// of the same note; reports whether the note was already present, which
    /// decides between an addition and an update towards the consumer.
    pub fn insert_note(&mut self, note: Note) -> (was_present: bool)
        requires
            old(self).wf(),
        ensures
            final(self).wf(),
            was_present == spec_has_id(old(self).notes_view(), note@.id),
            !was_present ==> final(self).notes_view() == old(self).notes_view().push(note@),
            was_present ==> exists|i: int|
                0 <= i < old(self).notes_view().len() && old(self).notes_view()[i].id == note@.id
                    && final(self).notes_view() == old(self).notes_view().update(i, note@),
            final(self).filter_view() == old(self).filter_view(),
            final(self).mode_view() == old(self).mode_view(),
    {
        let ghost pre = self.notes_view();
        match self.find_note(note.id.as_str()) {
            Some(i) => {
                self.notes.remove(i);
                self.notes.insert(i, note);
                proof {
                    assert(self.notes_view() =~= pre.update(i as int, note@));
                    assert forall|a: int, b: int|
                        0 <= a < b < self.notes_view().len() implies (
                    #[trigger] self.notes_view()[a]).id != (#[trigger] self.notes_view()[b]).id by {
                        assert(pre[a].id != pre[b].id);
                        if a != i as int && b != i as int {
                        } else if a == i as int {
                            assert(pre[i as int].id == note@.id);
                        } else {
                            assert(pre[i as int].id == note@.id);
                        }
                    }
                }
                true
            },
            None => {
                self.notes.push(note);
                proof {
                    assert(self.notes_view() =~= pre.push(note@));
                    assert forall|a: int, b: int|
                        0 <= a < b < self.notes_view().len() implies (
                    #[trigger] self.notes_view()[a]).id != (#[trigger] self.notes_view()[b]).id by {
                        if b < pre.len() as int {
                            assert(pre[a].id != pre[b].id);
                        } else {
                            assert(self.notes_view()[b] == note@);
                            assert(pre[a].id != note@.id);
                        }
                    }
                }
                false
            },
        }
    }

    /// Fold a note observed on the live watch stream into the cache and name
    /// the event to emit: an update when the note was already known, an
    /// addition otherwise.
    pub fn apply_watched_note(&mut self, note: Note) -> (r: Event)
        requires
            old(self).wf(),
        ensures
            final(self).wf(),
            spec_has_id(old(self).notes_view(), note@.id) ==> (r matches Event::NoteUpdated {
                note: n,
            } && n@ == note@),
            !spec_has_id(old(self).notes_view(), note@.id) ==> (r matches Event::NoteAdded {
                note: n,
            } && n@ == note@),
    {
        let emitted = note.clone();
        let was_present = self.insert_note(note);
        if was_present {
            Event::NoteUpdated { note: emitted }
        } else {
            Event::NoteAdded { note: emitted }
        }
    }

    /// The cached note with this identifier, if any.
    pub fn get_note(&self, id: &str) -> (r: Option<Note>)
        ensures
            r is Some <==> spec_has_id(self.notes_view(), id@),
            r matches Some(n) ==> self.notes_view().contains(n@) && n@.id == id@,
    {
        match self.find_note(id) {
            Some(i) => {
                let n = self.notes[i].clone();
                proof {
                    assert(self.notes_view().contains(n@)) by {
                        assert(self.notes_view()[i as int] == n@);
                    }
                }
                Some(n)
            },
            None => None,
        }
    }

    /// Drop a note from the cache; reports whether it was present, which
    /// decides whether a deletion is announced.
    pub fn delete_note(&mut self, id: &str) -> (was_present: bool)
        requires
            old(self).wf(),
        ensures
            final(self).wf(),
            was_present == spec_has_id(old(self).notes_view(), id@),
            !was_present ==> final(self).notes_view() == old(self).notes_view(),
            was_present ==> exists|i: int|
                0 <= i < old(self).notes_view().len() && old(self).notes_view()[i].id == id@
                    && final(self).notes_view() == old(self).notes_view().remove(i),
            final(self).filter_view() == old(self).filter_view(),
            final(self).mode_view() == old(self).mode_view(),
    {
        let ghost pre = self.notes_view();
        match self.find_note(id) {
            Some(i) => {
                self.notes.remove(i);
                proof {
                    assert(self.notes_view() =~= pre.remove(i as int));
                    assert forall|a: int, b: int|
                        0 <= a < b < self.notes_view().len() implies (
                    #[trigger] self.notes_view()[a]).id != (#[trigger] self.notes_view()[b]).id by {
                        let pa = if a < i as int {
                            a
                        } else {
                            a + 1
                        };
                        let pb = if b < i as int {
                            b
                        } else {
                            b + 1
                        };
                        assert(self.notes_view()[a] == pre[pa]);
                        assert(self.notes_view()[b] == pre[pb]);
                        assert(pre[pa].id != pre[pb].id);
                    }
                }
                true
            },
            None => false,
        }
    }

    /// Mark the cached state of a note read, returning the updated note to
    /// announce; the durable overlay record is the caller's concern.
    pub fn mark_read_local(&mut self, id: &str) -> (r: Option<Note>)
        requires
            old(self).wf(),
        ensures
            final(self).wf(),
            r is Some <==> spec_has_id(old(self).notes_view(), id@),
            r matches Some(n) ==> n@.id == id@ && n@.is_read,
            r is Some ==> exists|i: int|
                0 <= i < old(self).notes_view().len() && old(self).notes_view()[i].id == id@
                    && final(self).notes_view() == old(self).notes_view().update(
                    i,
                    NoteView { is_read: true, ..old(self).notes_view()[i] },
                ),
            r is None ==> final(self).notes_view() == old(self).notes_view(),
            final(self).filter_view() == old(self).filter_view(),
            final(self).mode_view() == old(self).mode_view(),
    {
        let ghost pre = self.notes_view();
        match self.find_note(id) {
            Some(i) => {
                let mut n = self.notes.remove(i);
                n.is_read = true;
                let out = n.clone();
                self.notes.insert(i, n);
                proof {
                    assert(self.notes_view() =~= pre.update(
                        i as int,
                        NoteView { is_read: true, ..pre[i as int] },
                    ));
                    assert forall|a: int, b: int|
                        0 <= a < b < self.notes_view().len() implies (
                    #[trigger] self.notes_view()[a]).id != (#[trigger] self.notes_view()[b]).id by {
                        assert(pre[a].id != pre[b].id);
                        if a == i as int || b == i as int {
                            assert(self.notes_view()[i as int].id == pre[i as int].id);
                        }
                    }
                }
                Some(out)
            },
            None => None,
        }
    }

    /// The cached notes that pass the given exact-match tag filter, oldest
    /// first, at most `limit` of them.
    pub fn get_notes(&self, limit: u32, tag: Option<String>) -> (r: Vec<Note>)
        ensures
            ({
                let selected = spec_sort_asc(
                    spec_filter_tag(
                        self.notes_view(),
                        match tag {
                            Some(ref t) => Some(t@),
                            None => None,
                        },
                    ),
                );
                r.deep_view() == if (limit as nat) < selected.len() {
                    selected.take(limit as int)
                } else {
                    selected
                }
            }),
            spec_sorted_asc(r.deep_view()),
    {
        let ghost all = self.notes_view();
        let ghost tagv = match tag {
            Some(ref t) => Some::<Seq<char>>(t@),
            None => None::<Seq<char>>,
        };
        let mut picked: Vec<Note> = Vec::new();
        proof {
            assert(all.skip(0) =~= all);
            assert(picked.deep_view() =~= Seq::<NoteView>::empty());
            assert(Seq::<NoteView>::empty() + spec_filter_tag(all, tagv) =~= spec_filter_tag(
                all,
                tagv,
            ));
        }
        let mut i: usize = 0;
        while i < self.notes.len()
            invariant
                all == self.notes_view(),
                tagv == (match tag {
                    Some(ref t) => Some::<Seq<char>>(t@),
                    None => None::<Seq<char>>,
                }),
                i <= self.notes.len(),
                spec_filter_tag(all, tagv) == picked.deep_view() + spec_filter_tag(
                    all.skip(i as int),
                    tagv,
                ),
            decreases self.notes.len() - i,
        {
            proof {
                assert(all.skip(i as int)[0] == all[i as int]);
                assert(all.skip(i as int).drop_first() =~= all.skip(i + 1));
            }
            let keep = match tag {
                None => true,
                Some(ref t) => crate::text::strings_contain(&self.notes[i].tags, t.as_str()),
            };
            if keep {
                let ghost pre = picked.deep_view();
                picked.push(self.notes[i].clone());
                proof {
                    assert(picked.deep_view() =~= pre.push(all[i as int]));
                    assert(pre + (seq![all[i as int]] + spec_filter_tag(all.skip(i + 1), tagv))
                        =~= picked.deep_view() + spec_filter_tag(all.skip(i + 1), tagv));
                }
            }
            i = i + 1;
        }
        proof {
            assert(all.skip(self.notes.len() as int).len() == 0);
            assert(picked.deep_view() + Seq::<NoteView>::empty() =~= picked.deep_view());
        }
        let mut sorted = sort_notes_asc(picked);
        proof {
            lemma_sort_asc_sorted(spec_filter_tag(all, tagv));
        }
        let ghost whole = sorted.deep_view();
        if (limit as usize) < sorted.len() {
            sorted.truncate(limit as usize);
            proof {
                assert(sorted.deep_view() =~= whole.take(limit as int));
                assert(spec_sorted_asc(sorted.deep_view()));
            }
        }
        sorted
    }

    /// Every tag carried by a cached note, each once, in strictly ascending
    /// order.
    pub fn get_all_tags(&self) -> (r: Vec<String>)
        ensures
            spec_strictly_sorted_strs(r.deep_view()),
            forall|t: Seq<char>|
                #[trigger] r.deep_view().contains(t) <==> spec_note_has_tag(self.notes_view(), t),
    {
        let ghost all = self.notes_view();
        let mut out: Vec<String> = Vec::new();
        proof {
            assert(out.deep_view() =~= Seq::<Seq<char>>::empty());
        }
        let mut i: usize = 0;
        while i < self.notes.len()
            invariant
                all == self.notes_view(),
                i <= self.notes.len(),
                spec_strictly_sorted_strs(out.deep_view()),
                forall|t: Seq<char>|
                    #[trigger] out.deep_view().contains(t) <==> exists|k: int|
                        0 <= k < i && (#[trigger] all[k]).tags.contains(t),
            decreases self.notes.len() - i,
        {
            let note = &self.notes[i];
            let mut j: usize = 0;
            while j < note.tags.len()
                invariant
                    all == self.notes_view(),
                    i < self.notes.len(),
                    note == &self.notes[i as int],
                    j <= note.tags.len(),
                    spec_strictly_sorted_strs(out.deep_view()),
                    forall|t: Seq<char>|
                        #[trigger] out.deep_view().contains(t) <==> ((exists|k: int|
                            0 <= k < i && (#[trigger] all[k]).tags.contains(t)) || all[
                            i as int].tags.take(j as int).contains(t)),
                decreases note.tags.len() - j,
            {
                insert_sorted_unique(&mut out, note.tags[j].clone());
                proof {
                    assert(all[i as int].tags.take(j + 1) =~= all[i as int].tags.take(
                        j as int,
                    ).push(all[i as int].tags[j as int]));
                    assert forall|t: Seq<char>| #[trigger]
                        all[i as int].tags.take(j + 1).contains(t) implies (all[
                        i as int].tags.take(j as int).contains(t) || t == all[
                        i as int].tags[j as int]) by {
                        let k = choose|k: int|
                            0 <= k < j + 1 && #[trigger] all[i as int].tags.take(j + 1)[k] == t;
                        if k < j as int {
                            assert(all[i as int].tags.take(j as int)[k] == t);
                        }
                    }
                    assert forall|t: Seq<char>|
                        (all[i as int].tags.take(j as int).contains(t) || t == all[
                            i as int].tags[j as int]) implies #[trigger] all[i as int].tags.take(
                        j + 1,
                    ).contains(t) by {
                        if all[i as int].tags.take(j as int).contains(t) {
                            let k = choose|k: int|
                                0 <= k < j && #[trigger] all[i as int].tags.take(j as int)[k]
                                    == t;
                            assert(all[i as int].tags.take(j + 1)[k] == t);
                        } else {
                            assert(all[i as int].tags.take(j + 1)[j as int] == t);
                        }
                    }
                }
                j = j + 1;
            }
            proof {
                assert(all[i as int].tags.take(note.tags.len() as int) =~= all[i as int].tags);
                assert forall|t: Seq<char>| #[trigger] out.deep_view().contains(t) implies (
                exists|k: int| 0 <= k < i + 1 && (#[trigger] all[k]).tags.contains(t)) by {
                    if !(exists|k: int| 0 <= k < i && (#[trigger] all[k]).tags.contains(t)) {
                        assert(all[i as int].tags.contains(t));
                    }
                }
                assert forall|t: Seq<char>|
                    (exists|k: int| 0 <= k < i + 1 && (#[trigger] all[k]).tags.contains(t)) implies
                    #[trigger] out.deep_view().contains(t) by {
                    let k = choose|k: int| 0 <= k < i + 1 && (#[trigger] all[k]).tags.contains(t);
                    if k < i as int {
                    } else {
                        assert(all[i as int].tags.contains(t));
                    }
                }
            }
            i = i + 1;
        }
        proof {
            assert forall|t: Seq<char>| #[trigger] out.deep_view().contains(t) implies
                spec_note_has_tag(all, t) by {
                let k = choose|k: int|
                    0 <= k < self.notes.len() && (#[trigger] all[k]).tags.contains(t);
                assert(all[k].tags.contains(t));
            }
        }
        out
    }

    /// How many cached notes are unread, under an optional exact-match tag
    /// filter.
    pub fn get_unread_count(&self, tag: Option<String>) -> (r: u32)
        requires
            self.notes_view().len() <= u32::MAX,
        ensures
            r == spec_unread_count(
                self.notes_view(),
                match tag {
                    Some(ref t) => Some(t@),
                    None => None,
                },
            ),
    {
        let ghost all = self.notes_view();
        let ghost tagv = match tag {
            Some(ref t) => Some::<Seq<char>>(t@),
            None => None::<Seq<char>>,
        };
        proof {
            assert(all.skip(0) =~= all);
            lemma_unread_count_bound(all, tagv);
        }
        let mut count: u32 = 0;
        let mut i: usize = 0;
        while i < self.notes.len()
            invariant
                all == self.notes_view(),
                tagv == (match tag {
                    Some(ref t) => Some::<Seq<char>>(t@),
                    None => None::<Seq<char>>,
                }),
                i <= self.notes.len(),
                all.len() <= u32::MAX,
                count + spec_unread_count(all.skip(i as int), tagv) == spec_unread_count(
                    all,
                    tagv,
                ),
                count <= i,
            decreases self.notes.len() - i,
        {
            proof {
                assert(all.skip(i as int)[0] == all[i as int]);
                assert(all.skip(i as int).drop_first() =~= all.skip(i + 1));
            }
            let keep = !self.notes[i].is_read && (match tag {
                None => true,
                Some(ref t) => crate::text::strings_contain(&self.notes[i].tags, t.as_str()),
            });
            if keep {
                count = count + 1;
            }
            i = i + 1;
        }
        proof {
            assert(all.skip(self.notes.len() as int).len() == 0);
        }
        count
    }

    /// The notes whose text contains the query, compared in lowercase, in
    /// cache order.
    pub fn search_notes(&self, query: &str) -> (r: Vec<Note>)
        ensures
            r.deep_view() == spec_search(self.notes_view(), query@),
    {
        let ghost all = self.notes_view();
        let query_lower = lowercase(query);
        let mut out: Vec<Note> = Vec::new();
        proof {
            assert(all.skip(0) =~= all);
            assert(out.deep_view() =~= Seq::<NoteView>::empty());
            assert(Seq::<NoteView>::empty() + spec_search(all, query@) =~= spec_search(
                all,
                query@,
            ));
        }
        let mut i: usize = 0;
        while i < self.notes.len()
            invariant
                all == self.notes_view(),
                query_lower@ == lower_of(query@),
                i <= self.notes.len(),
                spec_search(all, query@) == out.deep_view() + spec_search(
                    all.skip(i as int),
                    query@,
                ),
            decreases self.notes.len() - i,
        {
            proof {
                assert(all.skip(i as int)[0] == all[i as int]);
                assert(all.skip(i as int).drop_first() =~= all.skip(i + 1));
            }
            let text_lower = lowercase(self.notes[i].text.as_str());
            if str_contains(text_lower.as_str(), query_lower.as_str()) {
                let ghost pre = out.deep_view();
                out.push(self.notes[i].clone());
                proof {
                    assert(out.deep_view() =~= pre.push(all[i as int]));
                    assert(pre + (seq![all[i as int]] + spec_search(all.skip(i + 1), query@))
                        =~= out.deep_view() + spec_search(all.skip(i + 1), query@));
                }
            }
            i = i + 1;
        }
        proof {
            assert(all.skip(self.notes.len() as int).len() == 0);
            assert(out.deep_view() + Seq::<NoteView>::empty() =~= out.deep_view());
        }
        out
    }

    fn count_tag(&self, t: &str) -> (r: usize)
        requires
            spec_total_tags(self.notes_view()) <= u32::MAX,
        ensures
            r == spec_tag_count(self.notes_view(), t@),
    {
        let ghost all = self.notes_view();
        proof {
            assert(all.skip(0) =~= all);
            lemma_tag_count_le_total(all, t@);
        }
        let mut count: usize = 0;
        let mut i: usize = 0;
        while i < self.notes.len()
            invariant
                all == self.notes_view(),
                i <= self.notes.len(),
                spec_total_tags(all) <= u32::MAX,
                count + spec_tag_count(all.skip(i as int), t@) == spec_tag_count(all, t@),
                count <= spec_tag_count(all, t@),
            decreases self.notes.len() - i,
        {
            proof {
                assert(all.skip(i as int)[0] == all[i as int]);
                assert(all.skip(i as int).drop_first() =~= all.skip(i + 1));
                lemma_tag_count_le_total(all, t@);
                lemma_count_in_bound(all[i as int].tags, t@);
            }
            let tags = &self.notes[i].tags;
            let ghost note_tags = all[i as int].tags;
            proof {
                assert(note_tags.skip(0) =~= note_tags);
            }
            let mut j: usize = 0;
            while j < tags.len()
                invariant
                    all == self.notes_view(),
                    i < self.notes.len(),
                    tags == &self.notes[i as int].tags,
                    note_tags == all[i as int].tags,
                    j <= tags.len(),
                    spec_total_tags(all) <= u32::MAX,
                    count + spec_count_in(note_tags.skip(j as int), t@) + spec_tag_count(
                        all.skip(i + 1),
                        t@,
                    ) == spec_tag_count(all, t@),
                    count + spec_count_in(note_tags.skip(j as int), t@) <= spec_tag_count(
                        all,
                        t@,
                    ),
                decreases tags.len() - j,
            {
                proof {
                    assert(note_tags.skip(j as int)[0] == note_tags[j as int]);
                    assert(note_tags.skip(j as int).drop_first() =~= note_tags.skip(j + 1));
                }
                if str_eq(tags[j].as_str(), t) {
                    proof {
                        lemma_tag_count_le_total(all, t@);
                        assert(note_tags[j as int] == t@);
                        assert(spec_count_in(note_tags.skip(j as int), t@) >= 1);
                    }
                    count = count + 1;
                }
                j = j + 1;
            }
            proof {
                assert(note_tags.skip(tags.len() as int).len() == 0);
            }
            i = i + 1;
        }
        proof {
            assert(all.skip(self.notes.len() as int).len() == 0);
        }
        count
    }

    /// Every tag carried by a cached note with how often it occurs over the
    /// cache (a note carrying a tag twice counts twice), in strictly
    /// ascending tag order.
    pub fn get_tag_counts(&self) -> (r: Vec<TagCount>)
        requires
            spec_total_tags(self.notes_view()) <= u32::MAX,
        ensures
            spec_strictly_sorted_strs(Seq::new(r@.len(), |i: int| r@[i].tag@)),
            forall|i: int|
                0 <= i < r@.len() ==> (#[trigger] r@[i]).count == spec_tag_count(
                    self.notes_view(),
                    r@[i].tag@,
                ),
            forall|i: int|
                0 <= i < r@.len() ==> spec_note_has_tag(self.notes_view(), (#[trigger] r@[i]).tag@),
            forall|t: Seq<char>|
                spec_note_has_tag(self.notes_view(), t) ==> exists|i: int|
                    0 <= i < r@.len() && (#[trigger] r@[i]).tag@ == t,
    {
        let tags = self.get_all_tags();
        let ghost tagseq = tags.deep_view();
        let mut out: Vec<TagCount> = Vec::new();
        let mut i: usize = 0;
        while i < tags.len()
            invariant
                tagseq == tags.deep_view(),
                spec_strictly_sorted_strs(tagseq),
                forall|t: Seq<char>|
                    #[trigger] tagseq.contains(t) <==> spec_note_has_tag(self.notes_view(), t),
                spec_total_tags(self.notes_view()) <= u32::MAX,
                i <= tags.len(),
                out@.len() == i,
                forall|k: int| 0 <= k < i ==> (#[trigger] out@[k]).tag@ == tagseq[k],
                forall|k: int|
                    0 <= k < i ==> (#[trigger] out@[k]).count == spec_tag_count(
                        self.notes_view(),
                        tagseq[k],
                    ),
            decreases tags.len() - i,
        {
            let count = self.count_tag(tags[i].as_str());
            proof {
                lemma_tag_count_le_total(self.notes_view(), tagseq[i as int]);
            }
            out.push(TagCount { tag: tags[i].clone(), count: count as u32 });
            i = i + 1;
        }
        proof {
            assert(Seq::new(out@.len(), |k: int| out@[k].tag@) =~= tagseq);
            assert forall|k: int| 0 <= k < out@.len() implies spec_note_has_tag(
                self.notes_view(),
                (#[trigger] out@[k]).tag@,
            ) by {
                assert(tagseq[k] == out@[k].tag@);
                assert(tagseq.contains(tagseq[k]));
            }
            assert forall|t: Seq<char>| spec_note_has_tag(self.notes_view(), t) implies exists|
                k: int,
            |
                0 <= k < out@.len() && (#[trigger] out@[k]).tag@ == t by {
                assert(tagseq.contains(t));
                let k = choose|k: int| 0 <= k < tagseq.len() && tagseq[k] == t;
                assert(out@[k].tag@ == t);
            }
        }
        out
    }
}

proof fn lemma_unread_count_bound(s: Seq<NoteView>, tag: Option<Seq<char>>)
    ensures
        spec_unread_count(s, tag) <= s.len(),
    decreases s.len(),
{
    if s.len() > 0 {
        lemma_unread_count_bound(s.drop_first(), tag);
    }
}

proof fn lemma_count_in_bound(tags: Seq<Seq<char>>, t: Seq<char>)
    ensures
        spec_count_in(tags, t) <= tags.len(),
    decreases tags.len(),
{
    if tags.len() > 0 {
        lemma_count_in_bound(tags.drop_first(), t);
    }
}

proof fn lemma_tag_count_le_total(s: Seq<NoteView>, t: Seq<char>)
    ensures
        spec_tag_count(s, t) <= spec_total_tags(s),
    decreases s.len(),
{
    if s.len() > 0 {
        lemma_tag_count_le_total(s.drop_first(), t);
        lemma_count_in_bound(s[0].tags, t);
    }
}

} // verus!
