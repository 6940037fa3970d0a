//! Lists in messages: the first few named, the rest counted.

use vstd::prelude::*;
use vstd::string::*;

use crate::cat::{cat3, cat4};
use crate::text;
use crate::text::{dec_u64, dec_usize, join};

verus! {

broadcast use text::lemma_texts_push;

/// Numbers in decimal.
pub open spec fn decimals(s: Seq<u64>) -> Seq<Seq<char>> {
    s.map_values(|n: u64| text::dec(n as nat))
}

/// The first `limit` elements of a sequence, or all of them where there are fewer.
pub open spec fn first_few<A>(s: Seq<A>, limit: int) -> Seq<A> {
    if s.len() <= limit { s } else { s.take(limit) }
}

/// The first numbers of a list in decimal, separated by commas.
pub fn join_numbers(list: &Vec<u64>, limit: usize) -> (r: String)
    ensures
        r@ == text::joined(decimals(first_few(list@, limit as int)), ", "@),
{
    let n: usize = if list.len() <= limit { list.len() } else { limit };
    let mut parts: Vec<String> = Vec::new();
    let mut i: usize = 0;
    while i < n
        invariant
            i <= n <= list@.len(),
            text::texts(parts@) == decimals(list@.take(i as int)),
        decreases n - i,
    {
        parts.push(dec_u64(list[i]));
        assert(decimals(list@.take(i + 1)) =~= decimals(list@.take(i as int)).push(text::dec(list@[i as int] as nat)));
        i = i + 1;
    }
    assert(list@.take(n as int) =~= first_few(list@, limit as int));
    join(&parts, ", ")
}

/// How a list of more than `limit` numbers goes on after the first ones.
pub open spec fn more_suffix(total: nat, limit: nat) -> Seq<char> {
    if total > limit {
        ", … ("@ + text::dec((total - limit) as nat) + " more)"@
    } else {
        ""@
    }
}

/// How a list goes on after the numbers that were shown.
pub fn more(total: u64, shown: u64) -> (r: String)
    ensures
        r@ == more_suffix(total as nat, shown as nat),
{
    if total > shown {
        cat3(", … (", dec_u64(total - shown).as_str(), " more)")
    } else {
        String::from_str("")
    }
}

/// The first few names, and how many more there are.
pub open spec fn a_few(names: Seq<Seq<char>>) -> Seq<char> {
    if names.len() > 4 {
        text::joined(names.take(4), ", "@) + " and "@ + text::dec((names.len() - 4) as nat) + " more"@
    } else {
        text::joined(names, ", "@)
    }
}

/// The first `n` strings of a list.
pub fn first_texts(names: &Vec<String>, n: usize) -> (r: Vec<String>)
    requires
        n <= names@.len(),
    ensures
        text::texts(r@) == text::texts(names@).take(n as int),
{
    let mut out: Vec<String> = Vec::new();
    let mut i: usize = 0;
    while i < n
        invariant
            i <= n <= names@.len(),
            text::texts(out@) == text::texts(names@).take(i as int),
        decreases n - i,
    {
        out.push(names[i].clone());
        assert(text::texts(names@).take(i + 1) =~= text::texts(names@).take(i as int).push(names@[i as int]@));
        i = i + 1;
    }
    out
}

/// Names a few of a list and counts the rest. Naming four is useful; naming four hundred is not.
pub fn list_a_few(names: &Vec<String>) -> (r: String)
    ensures
        r@ == a_few(text::texts(names@)),
{
    if names.len() > 4 {
        let shown: String = join(&first_texts(names, 4), ", ");
        cat4(shown.as_str(), " and ", dec_usize(names.len() - 4).as_str(), " more")
    } else {
        join(names, ", ")
    }
}

/// A name in back quotes.
pub open spec fn quoted(name: Seq<char>) -> Seq<char> {
    "`"@ + name + "`"@
}

/// Names in back quotes.
pub open spec fn quoted_all(names: Seq<Seq<char>>) -> Seq<Seq<char>> {
    names.map_values(|n: Seq<char>| quoted(n))
}

/// Names a few of a list, each quoted, and counts the rest.
pub fn list_a_few_quoted(names: &Vec<String>) -> (r: String)
    ensures
        r@ == a_few(quoted_all(text::texts(names@))),
{
    let mut out: Vec<String> = Vec::new();
    let mut i: usize = 0;
    let ghost t = text::texts(names@);
    while i < names.len()
        invariant
            i <= names@.len(),
            t == text::texts(names@),
            text::texts(out@) == quoted_all(t.take(i as int)),
        decreases names@.len() - i,
    {
        out.push(cat3("`", names[i].as_str(), "`"));
        assert(t[i as int] == names@[i as int]@);
        assert(quoted_all(t.take(i + 1)) =~= quoted_all(t.take(i as int)).push(quoted(t[i as int])));
        i = i + 1;
    }
    assert(t.take(i as int) =~= t);
    list_a_few(&out)
}

} // verus!
