//! Numbers and names in the bytes of a file.

use vstd::arithmetic::power;
use vstd::prelude::*;
use vstd::slice::*;
use vstd::string::*;
use vstd::utf8::*;

use crate::text;

verus! {

/// The number that bytes write, the first byte the highest.
pub open spec fn number(s: Seq<u8>) -> nat
    decreases s.len(),
{
    if s.len() == 0 {
        0
    } else {
        number(s.drop_last()) * 256 + s.last() as nat
    }
}

/// A number is less than there are numbers of as many bytes.
pub proof fn lemma_number_bound(s: Seq<u8>)
    ensures
        number(s) < power::pow(256, s.len()),
    decreases s.len(),
{
    reveal(power::pow);
    if s.len() > 0 {
        lemma_number_bound(s.drop_last());
    }
}

/// How many numbers of some bytes there are.
pub proof fn lemma_byte_powers()
    ensures
        power::pow(256, 0) == 1,
        power::pow(256, 1) == 0x100,
        power::pow(256, 2) == 0x1_0000,
        power::pow(256, 3) == 0x100_0000,
        power::pow(256, 4) == 0x1_0000_0000,
        power::pow(256, 5) == 0x100_0000_0000,
        power::pow(256, 6) == 0x1_0000_0000_0000,
        power::pow(256, 7) == 0x100_0000_0000_0000,
        power::pow(256, 8) == 0x1_0000_0000_0000_0000,
{
    reveal_with_fuel(power::pow, 9);
}

/// A number of at most eight bytes.
pub fn to_number(buf: &[u8]) -> (r: u64)
    requires
        buf@.len() <= 8,
    ensures
        r as nat == number(buf@),
{
    let mut r: u64 = 0;
    let mut i: usize = 0;
    while i < buf.len()
        invariant
            i <= buf@.len() <= 8,
            r as nat == number(buf@.take(i as int)),
        decreases buf@.len() - i,
    {
        proof {
            lemma_number_bound(buf@.take(i as int));
            lemma_byte_powers();
            assert(buf@.take(i + 1).drop_last() =~= buf@.take(i as int));
            assert(r < 0x100_0000_0000_0000);
        }
        r = r * 256 + buf[i] as u64;
        i = i + 1;
    }
    assert(buf@.take(i as int) =~= buf@);
    r
}

/// The number that `n` bytes of a buffer write, from a place on.
pub open spec fn number_at(s: Seq<u8>, at: int, n: int) -> nat {
    number(s.subrange(at, at + n))
}

/// The number that some bytes of a buffer write.
pub fn read_number(buf: &[u8], at: usize, n: usize) -> (r: u64)
    requires
        n <= 8,
        at + n <= buf@.len(),
    ensures
        r as nat == number_at(buf@, at as int, n as int),
{
    let len: usize = buf.len();
    assert(at + n <= len);
    to_number(slice_subrange(buf, at, at + n))
}

/// The number of four bytes of a buffer.
pub open spec fn word_at(s: Seq<u8>, at: int) -> u32 {
    number_at(s, at, 4) as u32
}

/// The number of four bytes of a buffer.
pub fn read_word(buf: &[u8], at: usize) -> (r: u32)
    requires
        at + 4 <= buf@.len(),
    ensures
        r == word_at(buf@, at as int),
        r as nat == number_at(buf@, at as int, 4),
{
    proof {
        lemma_number_bound(buf@.subrange(at as int, at + 4));
        lemma_byte_powers();
    }
    read_number(buf, at, 4) as u32
}

// ---- names -----------------------------------------------------------------------------------

/// A lower-case hexadecimal digit.
pub open spec fn hex_digit(d: int) -> char {
    if d < 10 { (48 + d) as char } else { (87 + d) as char }
}

/// A byte, escaped.
pub open spec fn escaped(b: int) -> Seq<char> {
    seq!['\\', 'x', hex_digit(b / 16), hex_digit(b % 16)]
}

/// Whether a character is printable ASCII.
pub open spec fn is_printable(c: int) -> bool {
    32 <= c <= 126
}

/// A character, escaped where it is not printable.
pub open spec fn shown(c: char) -> Seq<char> {
    if is_printable(c as int) { seq![c] } else { escaped(c as int % 256) }
}

/// A text with every character that is not printable escaped.
pub open spec fn printable_text(s: Seq<char>) -> Seq<char>
    decreases s.len(),
{
    if s.len() == 0 {
        Seq::empty()
    } else {
        printable_text(s.drop_last()) + shown(s.last())
    }
}

/// A lower-case hexadecimal digit.
pub fn hex_of(d: u8) -> (r: char)
    requires
        d < 16,
    ensures
        r == hex_digit(d as int),
{
    if d < 10 {
        (48u8 + d) as char
    } else {
        (87u8 + d) as char
    }
}

/// Adds a byte, escaped.
fn push_escaped(out: &mut String, b: u8)
    ensures
        final(out)@ == old(out)@ + escaped(b as int),
{
    let ghost was = out@;
    out.push('\\');
    out.push('x');
    out.push(hex_of(b / 16));
    out.push(hex_of(b % 16));
    assert(out@ =~= was + escaped(b as int));
}

/// Adds a character, escaped where it is not printable.
fn push_shown(out: &mut String, c: char)
    ensures
        final(out)@ == old(out)@ + shown(c),
{
    let code: u32 = c as u32;
    if 32 <= code && code <= 126 {
        out.push(c);
        assert(out@ =~= old(out)@ + shown(c));
    } else {
        push_escaped(out, (code % 256) as u8);
    }
}

/// A string from the file with every non-printable character escaped, so a corrupt container's text
/// never lands raw in a report.
pub fn printable(s: &str) -> (r: String)
    ensures
        r@ == printable_text(s@),
{
    let chars: Vec<char> = text::chars_of(s);
    let mut out: String = String::new();
    let mut i: usize = 0;
    while i < chars.len()
        invariant
            i <= chars@.len(),
            chars@ == s@,
            out@ == printable_text(s@.take(i as int)),
        decreases chars@.len() - i,
    {
        assert(s@.take(i + 1).drop_last() =~= s@.take(i as int));
        push_shown(&mut out, chars[i]);
        i = i + 1;
    }
    assert(s@.take(i as int) =~= s@);
    out
}

/// What every printable text is made of.
pub proof fn law_reports_are_printable(s: Seq<char>)
    ensures
        forall|i: int| 0 <= i < printable_text(s).len() ==> is_printable(#[trigger] printable_text(s)[i] as int),
    decreases s.len(),
{
    if s.len() > 0 {
        law_reports_are_printable(s.drop_last());
        let (head, tail) = (printable_text(s.drop_last()), shown(s.last()));
        let all = printable_text(s);
        assert forall|i: int| 0 <= i < all.len() implies is_printable(#[trigger] all[i] as int) by {
            if i < head.len() {
                assert(all[i] == head[i]);
            } else {
                assert(all[i] == tail[i - head.len()]);
            }
        }
    }
}

/// The four characters of a type, the first in the highest byte.
pub open spec fn letters(kind: u32) -> Seq<char> {
    seq![
        (kind as int / 0x100_0000) as char,
        ((kind as int / 0x1_0000) % 256) as char,
        ((kind as int / 0x100) % 256) as char,
        (kind as int % 256) as char,
    ]
}

/// A four-character box or handler type as a text, with any non-printable byte escaped.
pub open spec fn fourcc_text(kind: u32) -> Seq<char> {
    printable_text(letters(kind))
}

/// A four-character box or handler type as a text, with any non-printable byte escaped.
pub fn fourcc(kind: u32) -> (r: String)
    ensures
        r@ == fourcc_text(kind),
{
    let mut s: String = String::new();
    s.push(((kind / 0x100_0000) as u8) as char);
    s.push((((kind / 0x1_0000) % 256) as u8) as char);
    s.push((((kind / 0x100) % 256) as u8) as char);
    s.push(((kind % 256) as u8) as char);
    assert(s@ =~= letters(kind));
    printable(s.as_str())
}

/// A number in hexadecimal.
pub open spec fn hex_number(n: nat) -> Seq<char>
    decreases n,
{
    if n < 16 {
        seq![hex_digit(n as int)]
    } else {
        hex_number(n / 16).push(hex_digit(n as int % 16))
    }
}

/// A number in hexadecimal.
pub fn to_hex_number(n: u64) -> (r: String)
    ensures
        r@ == hex_number(n as nat),
    decreases n,
{
    if n < 16 {
        let mut s: String = String::new();
        s.push(hex_of(n as u8));
        assert(s@ =~= seq![hex_digit(n as int)]);
        s
    } else {
        let mut s: String = to_hex_number(n / 16);
        s.push(hex_of((n % 16) as u8));
        s
    }
}

/// `std::str::from_utf8`: bytes that are valid UTF-8 as the text that they encode, and nothing where
/// they are not.
#[verifier::external_body]
fn decode(bytes: &[u8]) -> (r: Option<String>)
    ensures
        match r {
            Some(s) => valid_utf8(bytes@) && s@ == decode_utf8(bytes@),
            None => !valid_utf8(bytes@),
        },
{
    match std::str::from_utf8(bytes) {
        Ok(s) => Some(s.to_string()),
        Err(_) => None,
    }
}

/// The bytes before the first zero.
pub open spec fn unpadded(s: Seq<u8>) -> Seq<u8>
    decreases s.len(),
{
    if s.len() == 0 || s[0] == 0 {
        Seq::empty()
    } else {
        seq![s[0]] + unpadded(s.skip(1))
    }
}

/// The text of a string element: without the padding of zeros that a writer may add and without the
/// white space around it; nothing where it is not UTF-8, or empty.
pub open spec fn string_of(s: Seq<u8>) -> Option<Seq<char>> {
    let b = unpadded(s);
    if !valid_utf8(b) || text::trimmed(decode_utf8(b)).len() == 0 {
        None
    } else {
        Some(text::trimmed(decode_utf8(b)))
    }
}

/// Where no byte before position `i` is zero, the padding starts there or later.
proof fn lemma_unpadded(s: Seq<u8>, i: int)
    requires
        0 <= i <= s.len(),
        forall|k: int| 0 <= k < i ==> s[k] != 0,
        i < s.len() ==> s[i] == 0,
    ensures
        unpadded(s) == s.take(i),
    decreases i,
{
    if i > 0 {
        let rest = s.skip(1);
        assert forall|k: int| 0 <= k < i - 1 implies rest[k] != 0 by {
            assert(rest[k] == s[k + 1]);
        }
        lemma_unpadded(rest, i - 1);
        assert(unpadded(s) =~= s.take(i));
    } else {
        assert(unpadded(s) =~= s.take(0));
    }
}

/// The text of a string element.
pub fn read_string(buf: &[u8]) -> (r: Option<String>)
    ensures
        crate::json::opt_view(r) == string_of(buf@),
{
    let mut i: usize = 0;
    while i < buf.len() && buf[i] != 0
        invariant
            i <= buf@.len(),
            forall|k: int| 0 <= k < i ==> buf@[k] != 0,
        decreases buf@.len() - i,
    {
        i = i + 1;
    }
    proof {
        lemma_unpadded(buf@, i as int);
    }
    match decode(slice_subrange(buf, 0, i)) {
        Some(s) => {
            let t: String = text::trim(s.as_str());
            if crate::split::is_empty(t.as_str()) {
                None
            } else {
                Some(t)
            }
        },
        None => None,
    }
}

} // verus!
