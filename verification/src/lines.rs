//! Text by lines.

use vstd::prelude::*;
use vstd::string::*;

use crate::text;

verus! {

/// Lines, each with its end.
pub open spec fn written(lines: Seq<Seq<char>>) -> Seq<char>
    decreases lines.len(),
{
    if lines.len() == 0 {
        Seq::empty()
    } else {
        written(lines.drop_last()) + lines.last() + "\n"@
    }
}

/// Lines, each with its end.
pub fn write_lines(lines: &Vec<String>) -> (r: String)
    ensures
        r@ == written(text::texts(lines@)),
{
    let ghost t = text::texts(lines@);
    let mut out: String = String::new();
    let mut i: usize = 0;
    while i < lines.len()
        invariant
            i <= lines@.len(),
            t == text::texts(lines@),
            out@ == written(t.take(i as int)),
        decreases lines@.len() - i,
    {
        assert(t[i as int] == lines@[i as int]@);
        assert(t.take(i + 1).drop_last() =~= t.take(i as int));
        out.append(lines[i].as_str());
        out.append("\n");
        i = i + 1;
    }
    assert(t.take(i as int) =~= t);
    out
}

/// A line, where a condition holds.
pub open spec fn line_if(holds: bool, line: Seq<char>) -> Seq<Seq<char>> {
    if holds { seq![line] } else { Seq::empty() }
}

/// Puts lines behind others.
pub fn extend(out: &mut Vec<String>, more: Vec<String>)
    ensures
        text::texts(final(out)@) == text::texts(old(out)@) + text::texts(more@),
{
    let ghost (a, b) = (out@, more@);
    let mut rest: Vec<String> = more;
    out.append(&mut rest);
    assert(out@ == a + b);
    proof {
        text::lemma_texts_add(a, b);
    }
}

// ---- lengths in bytes ------------------------------------------------------------------------

/// How many bytes a character takes in UTF-8.
pub open spec fn char_width(c: char) -> nat {
    if (c as u32) < 0x80 {
        1
    } else if (c as u32) < 0x800 {
        2
    } else if (c as u32) < 0x1_0000 {
        3
    } else {
        4
    }
}

/// How many bytes a text takes in UTF-8.
pub open spec fn byte_len(s: Seq<char>) -> nat
    decreases s.len(),
{
    if s.len() == 0 {
        0
    } else {
        byte_len(s.drop_last()) + char_width(s.last())
    }
}

/// How many of the first characters take a given number of bytes, where some do exactly.
pub open spec fn prefix_of(s: Seq<char>, bytes: nat, from: int) -> Option<int>
    decreases s.len() + 1 - from,
{
    if from < 0 || from > s.len() {
        None
    } else if byte_len(s.take(from)) == bytes {
        Some(from)
    } else {
        prefix_of(s, bytes, from + 1)
    }
}

/// The bytes of a prefix are counted one character after another.
pub proof fn lemma_byte_len_step(s: Seq<char>, i: int)
    requires
        0 <= i < s.len(),
    ensures
        byte_len(s.take(i + 1)) == byte_len(s.take(i)) + char_width(s[i]),
{
    assert(s.take(i + 1).drop_last() =~= s.take(i));
}

/// How many bytes a character takes in UTF-8.
fn width_of(c: char) -> (r: u128)
    ensures
        r as nat == char_width(c),
{
    let n: u32 = c as u32;
    if n < 0x80 {
        1
    } else if n < 0x800 {
        2
    } else if n < 0x1_0000 {
        3
    } else {
        4
    }
}

/// How many bytes a text takes in UTF-8.
pub fn count_bytes(chars: &Vec<char>) -> (r: u128)
    ensures
        r as nat == byte_len(chars@),
{
    let mut n: u128 = 0;
    let mut i: usize = 0;
    while i < chars.len()
        invariant
            i <= chars@.len(),
            n as nat == byte_len(chars@.take(i as int)),
            n <= 4 * i,
        decreases chars@.len() - i,
    {
        proof {
            lemma_byte_len_step(chars@, i as int);
        }
        n = n + width_of(chars[i]);
        i = i + 1;
    }
    assert(chars@.take(i as int) =~= chars@);
    n
}

/// How many of the first characters take a given number of bytes.
pub fn find_prefix(chars: &Vec<char>, bytes: u128) -> (r: Option<usize>)
    ensures
        match r {
            Some(n) => n <= chars@.len() && prefix_of(chars@, bytes as nat, 0) == Some(n as int),
            None => prefix_of(chars@, bytes as nat, 0) is None,
        },
{
    let mut n: u128 = 0;
    let mut i: usize = 0;
    assert(chars@.take(0) =~= Seq::empty());
    while i < chars.len() && n != bytes
        invariant
            i <= chars@.len(),
            n as nat == byte_len(chars@.take(i as int)),
            n <= 4 * i,
            prefix_of(chars@, bytes as nat, 0) == prefix_of(chars@, bytes as nat, i as int),
        decreases chars@.len() - i,
    {
        proof {
            lemma_byte_len_step(chars@, i as int);
        }
        n = n + width_of(chars[i]);
        i = i + 1;
    }
    if n == bytes {
        Some(i)
    } else {
        assert(prefix_of(chars@, bytes as nat, i + 1) is None);
        None
    }
}

} // verus!
