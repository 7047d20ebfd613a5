use vstd::prelude::*;

use crate::note::{Note, NoteView};
use crate::text::push_char;

verus! {

/// The character standing for one hexadecimal digit, lowercase.
pub open spec fn spec_hex_digit(d: nat) -> char {
    if d == 0 { '0' } else if d == 1 { '1' } else if d == 2 { '2' } else if d == 3 { '3' }
    else if d == 4 { '4' } else if d == 5 { '5' } else if d == 6 { '6' } else if d == 7 { '7' }
    else if d == 8 { '8' } else if d == 9 { '9' } else if d == 10 { 'a' } else if d == 11 { 'b' }
    else if d == 12 { 'c' } else if d == 13 { 'd' } else if d == 14 { 'e' } else { 'f' }
}

/// `n` written in hexadecimal over exactly `width` digits, most significant
/// first, zero padded on the left.
pub open spec fn spec_hex_of(n: nat, width: nat) -> Seq<char>
    decreases width,
{
    if width == 0 {
        Seq::empty()
    } else {
        spec_hex_of(n / 16, (width - 1) as nat).push(spec_hex_digit(n % 16))
    }
}

/// A note identifier is 64 hexadecimal digits.
pub open spec fn spec_hex_id(n: u32) -> Seq<char> {
    spec_hex_of(n as nat, 64)
}

pub proof fn lemma_hex_of_len(n: nat, width: nat)
    ensures
        spec_hex_of(n, width).len() == width,
    decreases width,
{
    if width > 0 {
        lemma_hex_of_len(n / 16, (width - 1) as nat);
    }
}

proof fn lemma_hex_digit_injective(d1: nat, d2: nat)
    requires
        d1 < 16,
        d2 < 16,
        d1 != d2,
    ensures
        spec_hex_digit(d1) != spec_hex_digit(d2),
{
}

proof fn lemma_hex_of_last(n: nat, width: nat)
    requires
        width >= 1,
    ensures
        spec_hex_of(n, width)[width - 1] == spec_hex_digit(n % 16),
{
    lemma_hex_of_len(n / 16, (width - 1) as nat);
}

/// Distinct values below 16 get distinct identifiers: their final digits
/// already differ.
pub proof fn lemma_hex_id_distinct_small(n1: u32, n2: u32)
    requires
        1 <= n1 <= 16,
        1 <= n2 <= 16,
        n1 != n2,
    ensures
        spec_hex_id(n1) != spec_hex_id(n2),
{
    lemma_hex_of_last(n1 as nat, 64);
    lemma_hex_of_last(n2 as nat, 64);
    assert((n1 as nat) % 16 != (n2 as nat) % 16);
    lemma_hex_digit_injective((n1 as nat) % 16, (n2 as nat) % 16);
}

fn hex_digit(d: u32) -> (c: char)
    requires
        d < 16,
    ensures
        c == spec_hex_digit(d as nat),
{
    if d == 0 { '0' } else if d == 1 { '1' } else if d == 2 { '2' } else if d == 3 { '3' }
    else if d == 4 { '4' } else if d == 5 { '5' } else if d == 6 { '6' } else if d == 7 { '7' }
    else if d == 8 { '8' } else if d == 9 { '9' } else if d == 10 { 'a' } else if d == 11 { 'b' }
    else if d == 12 { 'c' } else if d == 13 { 'd' } else if d == 14 { 'e' } else { 'f' }
}

fn hex_of(n: u32, width: usize) -> (r: String)
    ensures
        r@ == spec_hex_of(n as nat, width as nat),
    decreases width,
{
    if width == 0 {
        String::new()
    } else {
        let mut s = hex_of(n / 16, width - 1);
        push_char(&mut s, hex_digit(n % 16));
        s
    }
}

/// The fixed-width identifier given to each sample note.
pub fn hex_id(n: u32) -> (r: String)
    ensures
        r@ == spec_hex_id(n),
{
    hex_of(n, 64)
}

/// How far before `now` the sample note at this position was written.
pub open spec fn spec_mock_offset(i: int) -> u64 {
    if i == 0 { 120 } else if i == 1 { 60 } else if i == 2 { 30 } else if i == 3 { 3600 }
    else if i == 4 { 3540 } else if i == 5 { 7200 } else if i == 6 { 86400 }
    else if i == 7 { 86340 } else if i == 8 { 86280 } else if i == 9 { 172800 }
    else if i == 10 { 259200 } else if i == 11 { 345600 } else if i == 12 { 10 }
    else if i == 13 { 9 } else if i == 14 { 8 } else { 7 }
}

pub open spec fn spec_mock_read(i: int) -> bool {
    !(i == 2 || i == 10 || i >= 12)
}

pub open spec fn spec_mock_synced(i: int) -> bool {
    !(i == 4 || i >= 12)
}

fn tags1(a: &str) -> (r: Vec<String>)
    ensures
        r.deep_view() == seq![a@],
{
    let mut r: Vec<String> = Vec::new();
    r.push(String::from_str(a));
    proof {
        assert(r.deep_view() =~= seq![a@]);
    }
    r
}

fn tags2(a: &str, b: &str) -> (r: Vec<String>)
    ensures
        r.deep_view() == seq![a@, b@],
{
    let mut r: Vec<String> = Vec::new();
    r.push(String::from_str(a));
    r.push(String::from_str(b));
    proof {
        assert(r.deep_view() =~= seq![a@, b@]);
    }
    r
}

fn tags3(a: &str, b: &str, c: &str) -> (r: Vec<String>)
    ensures
        r.deep_view() == seq![a@, b@, c@],
{
    let mut r: Vec<String> = Vec::new();
    r.push(String::from_str(a));
    r.push(String::from_str(b));
    r.push(String::from_str(c));
    proof {
        assert(r.deep_view() =~= seq![a@, b@, c@]);
    }
    r
}

fn mock_note(n: u32, text: &str, tags: Vec<String>, created_at: u64, is_read: bool, is_synced: bool) -> (r: Note)
    ensures
        r@ == (NoteView {
            id: spec_hex_id(n),
            text: text@,
            tags: tags.deep_view(),
            created_at,
            is_read,
            is_synced,
        }),
{
    Note { id: hex_id(n), text: String::from_str(text), tags, created_at, is_read, is_synced }
}

/// A fixed set of sixteen sample notes, stamped relative to `now`: distinct
/// fixed-width identifiers, the position-wise age and status flags given by
/// the tables above.
pub fn generate_mock_notes(now: u64) -> (r: Vec<Note>)
    requires
        now >= 345600,
    ensures
        r@.len() == 16,
        forall|i: int| 0 <= i < 16 ==> (#[trigger] r.deep_view()[i]).id == spec_hex_id((i + 1) as u32),
        forall|i: int|
            0 <= i < 16 ==> (#[trigger] r.deep_view()[i]).created_at == now - spec_mock_offset(i),
        forall|i: int| 0 <= i < 16 ==> (#[trigger] r.deep_view()[i]).is_read == spec_mock_read(i),
        forall|i: int|
            0 <= i < 16 ==> (#[trigger] r.deep_view()[i]).is_synced == spec_mock_synced(i),
        forall|i: int, j: int|
            0 <= i < j < 16 ==> (#[trigger] r.deep_view()[i]).id != (
            #[trigger] r.deep_view()[j]).id,
{
    let mut r: Vec<Note> = Vec::new();
    r.push(mock_note(1, "Need to review the quarterly roadmap before tomorrow's meeting",
        tags2("work", "planning"), now - 120, true, true));
    r.push(mock_note(2, "Actually, let's push the deadline to Friday",
        tags1("work"), now - 60, true, true));
    r.push(mock_note(3, "Don't forget to include the mobile strategy slides",
        tags2("work", "planning"), now - 30, false, true));
    r.push(mock_note(4, "Remember to call mom about thanksgiving plans",
        tags2("personal", "family"), now - 3600, true, true));
    r.push(mock_note(5, "Also need to book flights",
        tags2("personal", "travel"), now - 3540, true, false));
    r.push(mock_note(6, "App idea: a recipe helper that suggests meals from what is in the fridge and builds the week's shopping list",
        tags3("ideas", "ai", "startup"), now - 7200, true, true));
    r.push(mock_note(7, "The new coffee shop on 5th street is amazing! Great wifi too",
        tags2("coffee", "places"), now - 86400, true, true));
    r.push(mock_note(8, "Ethiopian single origin, notes of blueberry and chocolate",
        tags1("coffee"), now - 86340, true, true));
    r.push(mock_note(9, "Maybe we should have our 1:1s there instead of the office",
        tags2("work", "coffee"), now - 86280, true, true));
    r.push(mock_note(10, "Why do we say 'heads up' when we mean 'duck'?",
        tags1("random"), now - 172800, true, true));
    r.push(mock_note(11, "Learn Rust",
        tags1("todo"), now - 259200, false, true));
    r.push(mock_note(12, "That thing Sarah said about compound interest was really insightful; small amounts compound significantly over decades",
        tags2("finance", "learning"), now - 345600, true, true));
    r.push(mock_note(13, "Testing", tags1("dev"), now - 10, false, false));
    r.push(mock_note(14, "One", tags1("dev"), now - 9, false, false));
    r.push(mock_note(15, "Two", tags1("dev"), now - 8, false, false));
    r.push(mock_note(16, "Three", tags1("dev"), now - 7, false, false));
    proof {
        assert forall|i: int, j: int| 0 <= i < j < 16 implies (
        #[trigger] r.deep_view()[i]).id != (#[trigger] r.deep_view()[j]).id by {
            lemma_hex_id_distinct_small((i + 1) as u32, (j + 1) as u32);
        }
    }
    r
}

} // verus!
