//! SHA-256, framed byte strings, and bytes as hexadecimal text.

use sha2::{Digest, Sha256};
use vstd::prelude::*;
use vstd::string::*;
use vstd::utf8;

use crate::text::chars_of;

verus! {

/// The SHA-256 digest of a byte string.
pub uninterp spec fn sha256(data: Seq<u8>) -> Seq<u8>;

/// `sha2::Sha256::digest`: the SHA-256 digest of the bytes, which depends on them alone.
#[verifier::external_body]
pub(crate) fn hash_bytes(data: &[u8]) -> (r: [u8; 32])
    ensures
        r@ == sha256(data@),
{
    Sha256::digest(data).into()
}

// ---- frames ----------------------------------------------------------------------------------

/// A tag in UTF-8, a zero byte, and a message.
pub open spec fn frame(tag: Seq<char>, message: Seq<u8>) -> Seq<u8> {
    utf8::encode_utf8(tag).push(0u8) + message
}

/// Frames of tags of one length are equal only where the tags are.
pub proof fn lemma_frames_differ(s: Seq<char>, t: Seq<char>, a: Seq<u8>, b: Seq<u8>)
    requires
        utf8::encode_utf8(s) != utf8::encode_utf8(t),
        utf8::encode_utf8(s).len() == utf8::encode_utf8(t).len(),
    ensures
        frame(s, a) != frame(t, b),
{
    let (x, y) = (utf8::encode_utf8(s), utf8::encode_utf8(t));
    if frame(s, a) == frame(t, b) {
        assert(frame(s, a).take(x.len() as int) =~= x);
        assert(frame(t, b).take(y.len() as int) =~= y);
    }
}

/// Appends bytes.
fn extend(out: &mut Vec<u8>, bytes: &[u8])
    ensures
        final(out)@ == old(out)@ + bytes@,
{
    let ghost head = out@;
    let mut j: usize = 0;
    assert(out@ =~= head + bytes@.take(0));
    while j < bytes.len()
        invariant
            j <= bytes@.len(),
            out@ == head + bytes@.take(j as int),
        decreases bytes@.len() - j,
    {
        out.push(bytes[j]);
        assert(out@ =~= head + bytes@.take(j + 1));
        j = j + 1;
    }
    assert(bytes@.take(j as int) =~= bytes@);
}

/// A tag in UTF-8, a zero byte, and a message.
pub fn framed(tag: &str, message: &[u8]) -> (r: Vec<u8>)
    ensures
        r@ == frame(tag@, message@),
{
    let mut out: Vec<u8> = Vec::new();
    extend(&mut out, tag.as_bytes());
    out.push(0);
    extend(&mut out, message);
    assert(out@ =~= frame(tag@, message@));
    out
}

// ---- hexadecimal -----------------------------------------------------------------------------

/// The lowercase hexadecimal digit of a number below sixteen.
pub open spec fn hex_digit(d: int) -> char {
    if d < 10 { (48 + d) as char } else { (87 + d) as char }
}

/// Bytes in lowercase hexadecimal.
pub open spec fn hex(bytes: Seq<u8>) -> Seq<char>
    decreases bytes.len(),
{
    if bytes.len() == 0 {
        Seq::empty()
    } else {
        let b = bytes.last() as int;
        hex(bytes.drop_last()).push(hex_digit(b / 16)).push(hex_digit(b % 16))
    }
}

/// The hexadecimal digit of a number below sixteen.
fn digit_of(d: u8) -> (r: char)
    requires
        d < 16,
    ensures
        r == hex_digit(d as int),
{
    if d < 10 {
        (48 + d) as char
    } else {
        (87 + d) as char
    }
}

/// Bytes in lowercase hexadecimal.
pub fn to_hex(bytes: &[u8]) -> (r: String)
    ensures
        r@ == hex(bytes@),
{
    let mut out: String = String::new();
    let mut i: usize = 0;
    while i < bytes.len()
        invariant
            i <= bytes@.len(),
            out@ == hex(bytes@.take(i as int)),
        decreases bytes@.len() - i,
    {
        assert(bytes@.take(i + 1).drop_last() =~= bytes@.take(i as int));
        out.push(digit_of(bytes[i] / 16));
        out.push(digit_of(bytes[i] % 16));
        i = i + 1;
    }
    assert(bytes@.take(i as int) =~= bytes@);
    out
}

/// The value of a hexadecimal digit, in either case.
pub open spec fn hex_value(c: char) -> Option<int> {
    if '0' <= c && c <= '9' {
        Some(c as int - 48)
    } else if 'a' <= c && c <= 'f' {
        Some(c as int - 87)
    } else if 'A' <= c && c <= 'F' {
        Some(c as int - 55)
    } else {
        None
    }
}

/// The bytes that a hexadecimal text stands for, where it has two digits for each.
pub open spec fn unhex(s: Seq<char>) -> Option<Seq<u8>>
    decreases s.len(),
{
    if s.len() == 0 {
        Some(Seq::empty())
    } else if s.len() == 1 {
        None
    } else {
        match (unhex(s.take(s.len() - 2)), hex_value(s[s.len() - 2]), hex_value(s[s.len() - 1])) {
            (Some(rest), Some(hi), Some(lo)) => Some(rest.push((hi * 16 + lo) as u8)),
            _ => None,
        }
    }
}

/// The value of a hexadecimal digit.
fn value_of_digit(c: char) -> (r: Option<u8>)
    ensures
        match r {
            Some(v) => v < 16 && hex_value(c) == Some(v as int),
            None => hex_value(c) is None,
        },
{
    if '0' <= c && c <= '9' {
        Some(c as u8 - 48)
    } else if 'a' <= c && c <= 'f' {
        Some(c as u8 - 87)
    } else if 'A' <= c && c <= 'F' {
        Some(c as u8 - 55)
    } else {
        None
    }
}

/// A bad digit spoils the whole.
proof fn lemma_unhex_prefix(s: Seq<char>, i: int)
    requires
        0 <= i,
        2 * i <= s.len(),
        s.len() % 2 == 0,
        unhex(s.take(2 * i)) is None,
    ensures
        unhex(s) is None,
    decreases s.len(),
{
    if 2 * i < s.len() {
        let t = s.take(s.len() - 2);
        assert(t.take(2 * i) =~= s.take(2 * i));
        lemma_unhex_prefix(t, i);
    } else {
        assert(s.take(2 * i) =~= s);
    }
}

/// A text of an odd length stands for no bytes.
proof fn lemma_unhex_odd(s: Seq<char>)
    ensures
        s.len() % 2 == 1 ==> unhex(s) is None,
        unhex(s) matches Some(b) ==> s.len() == 2 * b.len(),
    decreases s.len(),
{
    if s.len() >= 2 {
        lemma_unhex_odd(s.take(s.len() - 2));
    }
}

/// The bytes that a hexadecimal text stands for, in either case.
pub fn from_hex(s: &str) -> (r: Option<Vec<u8>>)
    ensures
        match r {
            Some(b) => unhex(s@) == Some(b@),
            None => unhex(s@) is None,
        },
{
    let chars: Vec<char> = chars_of(s);
    let ghost t = s@;
    if chars.len() % 2 != 0 {
        proof {
            lemma_unhex_odd(t);
        }
        return None;
    }
    let n: usize = chars.len() / 2;
    let mut out: Vec<u8> = Vec::new();
    let mut i: usize = 0;
    assert(t.take(0) =~= Seq::empty());
    while i < n
        invariant
            i <= n,
            t == chars@,
            chars@.len() == 2 * n,
            t == s@,
            unhex(t.take(2 * i)) == Some(out@),
        decreases n - i,
    {
        let (hi, lo): (Option<u8>, Option<u8>) = (value_of_digit(chars[2 * i]), value_of_digit(chars[2 * i + 1]));
        proof {
            let p = t.take(2 * i + 2);
            assert(p.take(p.len() - 2) =~= t.take(2 * i));
        }
        match (hi, lo) {
            (Some(a), Some(b)) => {
                out.push(a * 16 + b);
            },
            _ => {
                proof {
                    lemma_unhex_prefix(t, i + 1);
                }
                return None;
            },
        }
        i = i + 1;
    }
    assert(t.take(2 * i) =~= t);
    Some(out)
}

/// Whether a text is hexadecimal in the one spelling that is written: lowercase digits only, and at
/// least one.
pub open spec fn is_canonical(s: Seq<char>) -> bool {
    s.len() > 0 && forall|i: int| 0 <= i < s.len() ==> is_lower_hex(#[trigger] s[i])
}

/// Whether a character is a lowercase hexadecimal digit.
pub open spec fn is_lower_hex(c: char) -> bool {
    ('0' <= c && c <= '9') || ('a' <= c && c <= 'f')
}

/// Whether a text is hexadecimal in the one spelling that is written. On the fields of a signed
/// document more than one accepted spelling would mean more than one file that verifies.
pub fn is_canonical_hex(s: &str) -> (r: bool)
    ensures
        r == is_canonical(s@),
{
    let chars: Vec<char> = chars_of(s);
    if chars.len() == 0 {
        return false;
    }
    let mut i: usize = 0;
    while i < chars.len()
        invariant
            i <= chars@.len(),
            chars@ == s@,
            forall|k: int| 0 <= k < i ==> is_lower_hex(#[trigger] s@[k]),
        decreases chars@.len() - i,
    {
        let c: char = chars[i];
        if !(('0' <= c && c <= '9') || ('a' <= c && c <= 'f')) {
            assert(!is_lower_hex(s@[i as int]));
            return false;
        }
        i = i + 1;
    }
    true
}

/// Bytes written in hexadecimal read back as the same bytes, and the text is canonical where there
/// is any.
pub proof fn law_hex_reads_back(bytes: Seq<u8>)
    ensures
        unhex(hex(bytes)) == Some(bytes),
        hex(bytes).len() == 2 * bytes.len(),
        bytes.len() > 0 ==> is_canonical(hex(bytes)),
    decreases bytes.len(),
{
    if bytes.len() > 0 {
        let rest = bytes.drop_last();
        law_hex_reads_back(rest);
        let s = hex(bytes);
        let b = bytes.last() as int;
        assert(s.take(s.len() - 2) =~= hex(rest));
        assert(s[s.len() - 2] == hex_digit(b / 16));
        assert(s[s.len() - 1] == hex_digit(b % 16));
        assert(bytes =~= rest.push(bytes.last()));
        assert forall|i: int| 0 <= i < s.len() implies is_lower_hex(#[trigger] s[i]) by {
            if i < hex(rest).len() {
                assert(s[i] == hex(rest)[i]);
            }
        }
    }
}

} // verus!
