//! Comma-separated lists.

use vstd::prelude::*;
use vstd::string::*;

use crate::text;
use crate::text::{chars_of, same, trim};

verus! {

broadcast use text::lemma_texts_push;

/// The pieces of a text between commas.
pub open spec fn pieces(s: Seq<char>) -> Seq<Seq<char>>
    decreases s.len(),
{
    if s.len() == 0 {
        seq![Seq::empty()]
    } else {
        let rest = pieces(s.drop_last());
        if s.last() == ',' {
            rest.push(Seq::empty())
        } else {
            rest.drop_last().push(rest.last().push(s.last()))
        }
    }
}

/// Texts without the white space around them, without those that are empty.
pub open spec fn entries(s: Seq<Seq<char>>) -> Seq<Seq<char>>
    decreases s.len(),
{
    if s.len() == 0 {
        Seq::empty()
    } else {
        let item = text::trimmed(s.last());
        if item.len() == 0 {
            entries(s.drop_last())
        } else {
            entries(s.drop_last()).push(item)
        }
    }
}

/// The entries of a comma-separated list.
pub open spec fn items(s: Seq<char>) -> Seq<Seq<char>> {
    entries(pieces(s))
}

/// Adds an entry to a list, without the white space around it; nothing where it is empty.
fn push_entry(out: &mut Vec<String>, piece: &str, Ghost(done): Ghost<Seq<Seq<char>>>)
    requires
        text::texts(old(out)@) == entries(done),
    ensures
        text::texts(final(out)@) == entries(done.push(piece@)),
{
    let item: String = trim(piece);
    assert(done.push(piece@).drop_last() =~= done);
    if !is_empty(item.as_str()) {
        out.push(item);
    }
}

/// Whether a text is empty.
pub fn is_empty(s: &str) -> (r: bool)
    ensures
        r == (s@.len() == 0),
{
    let empty: bool = same(s, "");
    proof {
        reveal_strlit("");
        assert(s@.len() == 0 ==> s@ =~= ""@);
    }
    empty
}

/// Split a comma-separated list, trimming each entry and dropping empty ones.
pub fn list(value: &str) -> (r: Vec<String>)
    ensures
        text::texts(r@) == items(value@),
{
    let chars: Vec<char> = chars_of(value);
    let mut out: Vec<String> = Vec::new();
    let mut piece: String = String::new();
    let ghost mut done: Seq<Seq<char>> = Seq::empty();
    let mut i: usize = 0;
    assert(text::texts(out@) =~= entries(done));
    assert(pieces(value@.take(0)) =~= done.push(piece@));
    while i < chars.len()
        invariant
            i <= chars@.len(),
            chars@ == value@,
            pieces(value@.take(i as int)) == done.push(piece@),
            text::texts(out@) == entries(done),
        decreases chars@.len() - i,
    {
        let c: char = chars[i];
        assert(value@.take(i + 1).drop_last() =~= value@.take(i as int));
        if c == ',' {
            push_entry(&mut out, piece.as_str(), Ghost(done));
            proof {
                done = done.push(piece@);
            }
            piece = String::new();
            assert(pieces(value@.take(i + 1)) =~= done.push(piece@));
        } else {
            let ghost was = piece@;
            piece.push(c);
            assert(done.push(was).drop_last() =~= done);
        }
        i = i + 1;
    }
    assert(value@.take(i as int) =~= value@);
    push_entry(&mut out, piece.as_str(), Ghost(done));
    out
}

/// The first place of a character.
pub open spec fn place_of(s: Seq<char>, c: char, from: int) -> Option<int>
    decreases s.len() - from,
{
    if from < 0 || from >= s.len() {
        None
    } else if s[from] == c {
        Some(from)
    } else {
        place_of(s, c, from + 1)
    }
}

/// The first place of a character.
pub fn find_char(chars: &Vec<char>, c: char) -> (r: Option<usize>)
    ensures
        match r {
            Some(i) => i < chars@.len() && place_of(chars@, c, 0) == Some(i as int),
            None => place_of(chars@, c, 0) is None,
        },
{
    let mut i: usize = 0;
    while i < chars.len()
        invariant
            i <= chars@.len(),
            place_of(chars@, c, 0) == place_of(chars@, c, i as int),
        decreases chars@.len() - i,
    {
        if chars[i] == c {
            return Some(i);
        }
        i = i + 1;
    }
    None
}

} // verus!
