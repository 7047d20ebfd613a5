use vstd::prelude::*;

use crate::keys::decrypt_of;
use crate::text::{is_space, lower_of, lowercase, push_char, spec_is_space};
use crate::Dialog;
use crate::DialogError;

verus! {

/// The unit of user content: a decrypted note with its overlay status.
pub struct Note {
    pub id: String,
    pub text: String,
    pub tags: Vec<String>,
    pub created_at: u64,
    pub is_read: bool,
    pub is_synced: bool,
}

pub ghost struct NoteView {
    pub id: Seq<char>,
    pub text: Seq<char>,
    pub tags: Seq<Seq<char>>,
    pub created_at: u64,
    pub is_read: bool,
    pub is_synced: bool,
}

impl View for Note {
    type V = NoteView;

    open spec fn view(&self) -> NoteView {
        NoteView {
            id: self.id@,
            text: self.text@,
            tags: self.tags.deep_view(),
            created_at: self.created_at,
            is_read: self.is_read,
            is_synced: self.is_synced,
        }
    }
}

impl DeepView for Note {
    type V = NoteView;

    open spec fn deep_view(&self) -> NoteView {
        self.view()
    }
}

pub(crate) fn clone_strings(v: &Vec<String>) -> (r: Vec<String>)
    ensures
        r.deep_view() == v.deep_view(),
{
    let mut r: Vec<String> = Vec::new();
    let mut i: usize = 0;
    while i < v.len()
        invariant
            i <= v.len(),
            r.deep_view() =~= v.deep_view().take(i as int),
        decreases v.len() - i,
    {
        let ghost pre = r.deep_view();
        r.push(v[i].clone());
        proof {
            assert(r.deep_view() =~= pre.push(v@[i as int]@));
            assert(v.deep_view().take(i + 1) =~= v.deep_view().take(i as int).push(
                v.deep_view()[i as int],
            ));
        }
        i = i + 1;
    }
    proof {
        assert(v.deep_view().take(v.len() as int) =~= v.deep_view());
        assert(r.deep_view() =~= v.deep_view());
    }
    r
}

impl Clone for Note {
    fn clone(&self) -> (r: Self)
        ensures
            r@ == self@,
    {
        Note {
            id: self.id.clone(),
            text: self.text.clone(),
            tags: clone_strings(&self.tags),
            created_at: self.created_at,
            is_read: self.is_read,
            is_synced: self.is_synced,
        }
    }
}

/// An immutable content event as the backend hands it over: ciphertext plus
/// its tag markers, already reduced to plain values.
pub struct ContentEvent {
    pub id: String,
    pub author: String,
    pub kind: u16,
    pub created_at: u64,
    pub tags: Vec<Vec<String>>,
    pub content: String,
}

pub ghost struct EventView {
    pub id: Seq<char>,
    pub author: Seq<char>,
    pub kind: u16,
    pub created_at: u64,
    pub tags: Seq<Seq<Seq<char>>>,
    pub content: Seq<char>,
}

impl View for ContentEvent {
    type V = EventView;

    open spec fn view(&self) -> EventView {
        EventView {
            id: self.id@,
            author: self.author@,
            kind: self.kind,
            created_at: self.created_at,
            tags: self.tags.deep_view(),
            content: self.content@,
        }
    }
}

impl DeepView for ContentEvent {
    type V = EventView;

    open spec fn deep_view(&self) -> EventView {
        self.view()
    }
}

/// The event kind that carries a self-encrypted note.
pub const NOTE_KIND: u16 = 1059;

/// Splitting a text into maximal runs of non-whitespace characters, carrying
/// the token collected so far.
pub open spec fn spec_tokens_acc(s: Seq<char>, cur: Seq<char>) -> Seq<Seq<char>>
    decreases s.len(),
{
    if s.len() == 0 {
        if cur.len() == 0 {
            Seq::empty()
        } else {
            seq![cur]
        }
    } else if spec_is_space(s[0]) {
        if cur.len() == 0 {
            spec_tokens_acc(s.drop_first(), Seq::empty())
        } else {
            seq![cur] + spec_tokens_acc(s.drop_first(), Seq::empty())
        }
    } else {
        spec_tokens_acc(s.drop_first(), cur.push(s[0]))
    }
}

/// The whitespace-delimited tokens of a text.
pub open spec fn spec_tokens(s: Seq<char>) -> Seq<Seq<char>> {
    spec_tokens_acc(s, Seq::empty())
}

/// The hashtags among a token sequence: a token qualifies when it begins with
/// the marker and has at least one further character; it is then lowercased.
pub open spec fn spec_hashtags_of_tokens(toks: Seq<Seq<char>>) -> Seq<Seq<char>>
    decreases toks.len(),
{
    if toks.len() == 0 {
        Seq::empty()
    } else {
        let rest = spec_hashtags_of_tokens(toks.drop_first());
        if toks[0].len() > 1 && toks[0][0] == '#' {
            seq![lower_of(toks[0].skip(1))] + rest
        } else {
            rest
        }
    }
}

/// The tags derived from a note's text, in order of appearance, duplicates
/// kept.
pub open spec fn spec_parse_hashtags(s: Seq<char>) -> Seq<Seq<char>> {
    spec_hashtags_of_tokens(spec_tokens(s))
}

fn split_tokens(text: &str) -> (r: Vec<String>)
    ensures
        r.deep_view() == spec_tokens(text@),
{
    let n = text.unicode_len();
    let mut out: Vec<String> = Vec::new();
    let mut cur = String::new();
    proof {
        assert(text@.skip(0) =~= text@);
        assert(out.deep_view() =~= Seq::<Seq<char>>::empty());
        assert(Seq::<Seq<char>>::empty() + spec_tokens_acc(text@, Seq::empty()) =~= spec_tokens(
            text@,
        ));
    }
    let mut i: usize = 0;
    while i < n
        invariant
            n == text@.len(),
            i <= n,
            spec_tokens(text@) == out.deep_view() + spec_tokens_acc(text@.skip(i as int), cur@),
        decreases n - i,
    {
        let c = text.get_char(i);
        proof {
            assert(text@.skip(i as int)[0] == c);
            assert(text@.skip(i as int).drop_first() =~= text@.skip(i + 1));
        }
        if is_space(c) {
            if !cur.as_str().is_empty() {
                let ghost pre_out = out.deep_view();
                let ghost pre_cur = cur@;
                out.push(cur);
                cur = String::new();
                proof {
                    assert(out.deep_view() =~= pre_out.push(pre_cur));
                    assert(pre_out + (seq![pre_cur] + spec_tokens_acc(
                        text@.skip(i + 1),
                        Seq::empty(),
                    )) =~= out.deep_view() + spec_tokens_acc(text@.skip(i + 1), Seq::empty()));
                    assert(cur@ =~= Seq::<char>::empty());
                }
            } else {
                proof {
                    assert(cur@ =~= Seq::<char>::empty());
                }
            }
        } else {
            push_char(&mut cur, c);
        }
        i = i + 1;
    }
    proof {
        assert(text@.skip(n as int).len() == 0);
    }
    if !cur.as_str().is_empty() {
        let ghost pre_out = out.deep_view();
        let ghost pre_cur = cur@;
        out.push(cur);
        proof {
            assert(out.deep_view() =~= pre_out.push(pre_cur));
            assert(pre_out + seq![pre_cur] =~= out.deep_view());
        }
    } else {
        proof {
            assert(out.deep_view() + Seq::<Seq<char>>::empty() =~= out.deep_view());
        }
    }
    out
}

/// Scan the whitespace-delimited tokens of `text`; every token that starts
/// with the marker character and has at least one character after it yields
/// its lowercased remainder, in order, duplicates kept.
pub fn parse_hashtags(text: &str) -> (r: Vec<String>)
    ensures
        r.deep_view() == spec_parse_hashtags(text@),
{
    let tokens = split_tokens(text);
    let ghost toks = tokens.deep_view();
    let mut out: Vec<String> = Vec::new();
    proof {
        assert(toks.skip(0) =~= toks);
        assert(Seq::<Seq<char>>::empty() + spec_hashtags_of_tokens(toks)
            =~= spec_hashtags_of_tokens(toks));
        assert(out.deep_view() =~= Seq::<Seq<char>>::empty());
    }
    let mut i: usize = 0;
    while i < tokens.len()
        invariant
            toks == tokens.deep_view(),
            i <= tokens.len(),
            spec_hashtags_of_tokens(toks) == out.deep_view() + spec_hashtags_of_tokens(
                toks.skip(i as int),
            ),
        decreases tokens.len() - i,
    {
        proof {
            assert(toks.skip(i as int)[0] == toks[i as int]);
            assert(toks.skip(i as int).drop_first() =~= toks.skip(i + 1));
        }
        let tok = &tokens[i];
        let tl = tok.as_str().unicode_len();
        if tl > 1 && tok.as_str().get_char(0) == '#' {
            let rest = tok.as_str().substring_char(1, tl);
            proof {
                assert(rest@ =~= toks[i as int].skip(1));
            }
            let tag = lowercase(rest);
            let ghost pre_out = out.deep_view();
            out.push(tag);
            proof {
                assert(out.deep_view() =~= pre_out.push(lower_of(toks[i as int].skip(1))));
                assert(pre_out + (seq![lower_of(toks[i as int].skip(1))]
                    + spec_hashtags_of_tokens(toks.skip(i + 1))) =~= out.deep_view()
                    + spec_hashtags_of_tokens(toks.skip(i + 1)));
            }
        }
        i = i + 1;
    }
    proof {
        assert(toks.skip(tokens.len() as int).len() == 0);
        assert(out.deep_view() + Seq::<Seq<char>>::empty() =~= out.deep_view());
    }
    out
}

/// What the note writer hands to the backend for signing and durable write:
/// the self-addressed ciphertext and one tag marker per derived tag.
pub struct NoteDraft {
    pub content: String,
    pub hashtags: Vec<String>,
}

impl Dialog {
    /// Derive the tags from the text, encrypt the text to the authoring
    /// identity itself, and return what is to be submitted; fails with
    /// `CryptoFailure` exactly when the text is too short or too long for the
    /// encryption capability (its UTF-8 form must have 1 to 65408 bytes).
    pub fn create_note(&self, text: &str) -> (r: Result<NoteDraft, DialogError>)
        ensures
            r is Ok <==> 1 <= vstd::utf8::encode_utf8(text@).len() <= 65408,
            r matches Err(e) ==> e == DialogError::CryptoFailure,
            r matches Ok(d) ==> decrypt_of(self.nsec(), d.content@) == Some(text@),
            r matches Ok(d) ==> d.hashtags.deep_view() == spec_parse_hashtags(text@),
    {
        let hashtags = parse_hashtags(text);
        match self.identity.encrypt_self(text) {
            Some(content) => Ok(NoteDraft { content, hashtags }),
            None => Err(DialogError::CryptoFailure),
        }
    }

    /// Decrypt one content event addressed to this identity; `None` stands
    /// for content this identity cannot read, which a query skips rather
    /// than fails on.
    pub fn decrypt_event(&self, event: &ContentEvent) -> (r: Option<String>)
        ensures
            r is Some <==> decrypt_of(self.nsec(), event.content@) is Some,
            r is Some ==> Some(r->0@) == decrypt_of(self.nsec(), event.content@),
    {
        self.identity.decrypt_self(event.content.as_str())
    }
}

pub open spec fn spec_is_hex_digit(c: char) -> bool {
    ||| ('0' <= c && c <= '9')
    ||| ('a' <= c && c <= 'f')
    ||| ('A' <= c && c <= 'F')
}

/// A note identifier as the backend assigns it: exactly 64 hexadecimal
/// digits.
pub open spec fn spec_is_valid_note_id(s: Seq<char>) -> bool {
    s.len() == 64 && forall|i: int| 0 <= i < s.len() ==> spec_is_hex_digit(#[trigger] s[i])
}

pub fn is_valid_note_id(id: &str) -> (r: bool)
    ensures
        r == spec_is_valid_note_id(id@),
{
    let n = id.unicode_len();
    if n != 64 {
        return false;
    }
    let mut i: usize = 0;
    while i < n
        invariant
            n == id@.len(),
            i <= n,
            forall|k: int| 0 <= k < i ==> spec_is_hex_digit(#[trigger] id@[k]),
        decreases n - i,
    {
        let c = id.get_char(i);
        if !(('0' <= c && c <= '9') || ('a' <= c && c <= 'f') || ('A' <= c && c <= 'F')) {
            return false;
        }
        i = i + 1;
    }
    true
}

impl Note {
    /// Build a fresh, unread, unsynced note from its text; the tags are
    /// derived from the text. The identifier and timestamp are supplied by
    /// the caller, which obtains them from the backend or the clock.
    pub fn from_text(id: String, text: String, created_at: u64) -> (r: Note)
        ensures
            r@ == (NoteView {
                id: id@,
                text: text@,
                tags: spec_parse_hashtags(text@),
                created_at,
                is_read: false,
                is_synced: false,
            }),
    {
        let tags = parse_hashtags(text.as_str());
        Note { id, text, tags, created_at, is_read: false, is_synced: false }
    }
}

} // verus!
