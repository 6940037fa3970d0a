//! Maps from texts, kept as lists in the order of their keys.

use vstd::prelude::*;
use vstd::string::*;

use crate::text;
use crate::text::{before, same};

verus! {

/// A key with its value.
#[derive(Debug)]
pub struct Entry<V> {
    /// The key.
    pub key: String,
    /// The value.
    pub value: V,
}

/// What entries hold.
pub open spec fn pairs<V>(s: Seq<Entry<V>>) -> Seq<(Seq<char>, V)> {
    s.map_values(|e: Entry<V>| (e.key@, e.value))
}

/// A map with a value set: in place of the one there was under the key, or in its place in the order.
pub open spec fn with_pair<V>(s: Seq<(Seq<char>, V)>, k: Seq<char>, v: V) -> Seq<(Seq<char>, V)>
    decreases s.len(),
{
    if s.len() == 0 {
        seq![(k, v)]
    } else if text::str_lt(s[0].0, k) {
        seq![s[0]] + with_pair(s.skip(1), k, v)
    } else if s[0].0 == k {
        seq![(k, v)] + s.skip(1)
    } else {
        seq![(k, v)] + s
    }
}

/// The map that pairs make up, where a later one replaces an earlier one of its key.
pub open spec fn collected<V>(s: Seq<(Seq<char>, V)>) -> Seq<(Seq<char>, V)>
    decreases s.len(),
{
    if s.len() == 0 {
        Seq::empty()
    } else {
        with_pair(collected(s.drop_last()), s.last().0, s.last().1)
    }
}

/// The value under a key: the first there is.
pub open spec fn value_of<V>(s: Seq<(Seq<char>, V)>, k: Seq<char>) -> Option<V>
    decreases s.len(),
{
    if s.len() == 0 {
        None
    } else if s[0].0 == k {
        Some(s[0].1)
    } else {
        value_of(s.skip(1), k)
    }
}

/// The last value given for a key.
pub open spec fn last_value<V>(s: Seq<(Seq<char>, V)>, k: Seq<char>) -> Option<V>
    decreases s.len(),
{
    if s.len() == 0 {
        None
    } else if s.last().0 == k {
        Some(s.last().1)
    } else {
        last_value(s.drop_last(), k)
    }
}

/// Whether the keys stand in order, without repeats.
pub open spec fn is_map<V>(s: Seq<(Seq<char>, V)>) -> bool {
    forall|i: int, j: int| 0 <= i < j < s.len() ==> text::str_lt((#[trigger] s[i]).0, (#[trigger] s[j]).0)
}

/// Where every key before position `i` comes before `k` and the one at `i` does not, `k` belongs at
/// `i`.
pub proof fn lemma_pair_at<V>(s: Seq<(Seq<char>, V)>, k: Seq<char>, v: V, i: int)
    requires
        0 <= i <= s.len(),
        forall|j: int| 0 <= j < i ==> text::str_lt((#[trigger] s[j]).0, k),
        i < s.len() ==> !text::str_lt(s[i].0, k),
    ensures
        with_pair(s, k, v) == (if i < s.len() && s[i].0 == k { s.update(i, (k, v)) } else { s.insert(i, (k, v)) }),
    decreases s.len(),
{
    if s.len() == 0 {
        assert(s.insert(i, (k, v)) =~= seq![(k, v)]);
    } else if i == 0 {
        if s[0].0 == k {
            assert(s.update(0, (k, v)) =~= seq![(k, v)] + s.skip(1));
        } else {
            assert(s.insert(0, (k, v)) =~= seq![(k, v)] + s);
        }
    } else {
        assert(text::str_lt(s[0].0, k));
        let rest = s.skip(1);
        assert forall|j: int| 0 <= j < i - 1 implies text::str_lt((#[trigger] rest[j]).0, k) by {
            assert(rest[j] == s[j + 1]);
        }
        lemma_pair_at(rest, k, v, i - 1);
        if i < s.len() && s[i].0 == k {
            assert(rest[i - 1] == s[i]);
            assert(seq![s[0]] + rest.update(i - 1, (k, v)) =~= s.update(i, (k, v)));
        } else {
            assert(seq![s[0]] + rest.insert(i - 1, (k, v)) =~= s.insert(i, (k, v)));
        }
    }
}

/// Setting a value keeps a map a map, changes the value under its key, and no other.
pub proof fn lemma_with_pair<V>(s: Seq<(Seq<char>, V)>, k: Seq<char>, v: V, key: Seq<char>)
    requires
        is_map(s),
    ensures
        is_map(with_pair(s, k, v)),
        with_pair(s, k, v).len() > 0,
        forall|x: Seq<char>| s.len() > 0 && text::str_lt(x, s[0].0) && text::str_lt(x, k) ==> text::str_lt(x, #[trigger] with_pair(s, k, v)[0].0),
        value_of(with_pair(s, k, v), key) == (if key == k { Some(v) } else { value_of(s, key) }),
    decreases s.len(),
{
    let t = with_pair(s, k, v);
    if s.len() == 0 {
        assert(t.skip(1) =~= s);
    } else {
        let rest = s.skip(1);
        assert forall|i: int, j: int| 0 <= i < j < rest.len() implies text::str_lt(
            (#[trigger] rest[i]).0,
            (#[trigger] rest[j]).0,
        ) by {
            assert(rest[i] == s[i + 1] && rest[j] == s[j + 1]);
        }
        text::lemma_str_trichotomy(s[0].0, k);
        if text::str_lt(s[0].0, k) {
            lemma_with_pair(rest, k, v, key);
            let more = with_pair(rest, k, v);
            assert(t =~= seq![s[0]] + more);
            assert(t.skip(1) =~= more);
            if rest.len() > 0 {
                assert(rest[0] == s[1]);
            } else {
                assert(more =~= seq![(k, v)]);
            }
            assert(text::str_lt(s[0].0, more[0].0));
            assert forall|i: int, j: int| 0 <= i < j < t.len() implies text::str_lt(
                (#[trigger] t[i]).0,
                (#[trigger] t[j]).0,
            ) by {
                assert(t[j] == more[j - 1]);
                if i > 0 {
                    assert(t[i] == more[i - 1]);
                } else if j > 1 {
                    text::lemma_str_transitive(s[0].0, more[0].0, more[j - 1].0);
                }
            }
        } else if s[0].0 == k {
            assert(t =~= seq![(k, v)] + rest);
            assert(t.skip(1) =~= rest);
            assert forall|i: int, j: int| 0 <= i < j < t.len() implies text::str_lt(
                (#[trigger] t[i]).0,
                (#[trigger] t[j]).0,
            ) by {
                assert(t[j] == s[j]);
                assert(t[i].0 == s[i].0);
            }
        } else {
            assert(t =~= seq![(k, v)] + s);
            assert(t.skip(1) =~= s);
            assert forall|i: int, j: int| 0 <= i < j < t.len() implies text::str_lt(
                (#[trigger] t[i]).0,
                (#[trigger] t[j]).0,
            ) by {
                assert(t[j] == s[j - 1]);
                if i > 0 {
                    assert(t[i] == s[i - 1]);
                } else if j > 1 {
                    text::lemma_str_transitive(k, s[0].0, s[j - 1].0);
                }
            }
        }
    }
}

/// The map that pairs make up is a map, and holds under each key the last value given for it.
pub proof fn law_last_pair_wins<V>(s: Seq<(Seq<char>, V)>, key: Seq<char>)
    ensures
        is_map(collected(s)),
        value_of(collected(s), key) == last_value(s, key),
    decreases s.len(),
{
    if s.len() > 0 {
        law_last_pair_wins(s.drop_last(), key);
        lemma_with_pair(collected(s.drop_last()), s.last().0, s.last().1, key);
    }
}

/// Two maps that hold the same under every key are one.
pub proof fn lemma_maps_equal<V>(s: Seq<(Seq<char>, V)>, t: Seq<(Seq<char>, V)>)
    requires
        is_map(s),
        is_map(t),
        forall|k: Seq<char>| #[trigger] value_of(s, k) == value_of(t, k),
    ensures
        s == t,
    decreases s.len(),
{
    if s.len() == 0 {
        if t.len() > 0 {
            assert(value_of(s, t[0].0) == value_of(t, t[0].0));
        }
        assert(s =~= t);
    } else {
        let k = s[0].0;
        assert(value_of(s, k) == value_of(t, k));
        if t.len() == 0 {
            assert(false);
        }
        let j = t[0].0;
        assert(value_of(s, j) == value_of(t, j));
        lemma_at_least_first(t, k);
        lemma_at_least_first(s, j);
        text::lemma_str_trichotomy(k, j);
        assert(k == j);
        let (x, y) = (s.skip(1), t.skip(1));
        assert forall|a: int, b: int| 0 <= a < b < x.len() implies text::str_lt((#[trigger] x[a]).0, (#[trigger] x[b]).0) by {
            assert(x[a] == s[a + 1] && x[b] == s[b + 1]);
        }
        assert forall|a: int, b: int| 0 <= a < b < y.len() implies text::str_lt((#[trigger] y[a]).0, (#[trigger] y[b]).0) by {
            assert(y[a] == t[a + 1] && y[b] == t[b + 1]);
        }
        assert forall|q: Seq<char>| #[trigger] value_of(x, q) == value_of(y, q) by {
            assert(value_of(s, q) == value_of(t, q));
            if q == k {
                lemma_not_later(s);
                lemma_not_later(t);
            }
        }
        lemma_maps_equal(x, y);
        assert(s =~= seq![s[0]] + x);
        assert(t =~= seq![t[0]] + y);
    }
}

/// No key of a map comes before its first.
proof fn lemma_at_least_first<V>(s: Seq<(Seq<char>, V)>, k: Seq<char>)
    requires
        is_map(s),
        s.len() > 0,
        value_of(s, k) is Some,
    ensures
        k == s[0].0 || text::str_lt(s[0].0, k),
    decreases s.len(),
{
    if s[0].0 != k {
        let rest = s.skip(1);
        assert forall|a: int, b: int| 0 <= a < b < rest.len() implies text::str_lt(
            (#[trigger] rest[a]).0,
            (#[trigger] rest[b]).0,
        ) by {
            assert(rest[a] == s[a + 1] && rest[b] == s[b + 1]);
        }
        lemma_at_least_first(rest, k);
        assert(rest[0] == s[1]);
        assert(text::str_lt(s[0].0, s[1].0));
        if k != s[1].0 {
            text::lemma_str_transitive(s[0].0, s[1].0, k);
        }
    }
}

/// The first key of a map does not come again.
proof fn lemma_not_later<V>(s: Seq<(Seq<char>, V)>)
    requires
        is_map(s),
        s.len() > 0,
    ensures
        value_of(s.skip(1), s[0].0) is None,
{
    let rest = s.skip(1);
    if value_of(rest, s[0].0) is Some {
        assert forall|a: int, b: int| 0 <= a < b < rest.len() implies text::str_lt(
            (#[trigger] rest[a]).0,
            (#[trigger] rest[b]).0,
        ) by {
            assert(rest[a] == s[a + 1] && rest[b] == s[b + 1]);
        }
        if rest.len() > 0 {
            lemma_at_least_first(rest, s[0].0);
            assert(rest[0] == s[1]);
            assert(text::str_lt(s[0].0, s[1].0));
            text::lemma_str_trichotomy(s[0].0, s[1].0);
        }
    }
}

/// The place of a key: the first entry that holds it.
pub fn find<V>(list: &Vec<Entry<V>>, key: &str) -> (r: Option<usize>)
    ensures
        match r {
            Some(i) => i < list@.len() && list@[i as int].key@ == key@ && value_of(pairs(list@), key@) == Some(
                list@[i as int].value,
            ),
            None => value_of(pairs(list@), key@) is None,
        },
{
    let ghost p = pairs(list@);
    let mut i: usize = 0;
    assert(p.skip(0) =~= p);
    while i < list.len()
        invariant
            i <= list@.len(),
            p == pairs(list@),
            value_of(p, key@) == value_of(p.skip(i as int), key@),
        decreases list@.len() - i,
    {
        assert(p[i as int] == (list@[i as int].key@, list@[i as int].value));
        assert(p.skip(i as int)[0] == p[i as int]);
        if same(list[i].key.as_str(), key) {
            return Some(i);
        }
        assert(p.skip(i as int).skip(1) =~= p.skip(i + 1));
        i = i + 1;
    }
    None
}

/// Sets the value under a key.
pub fn put<V>(list: &mut Vec<Entry<V>>, key: String, value: V)
    ensures
        pairs(final(list)@) == with_pair(pairs(old(list)@), key@, value),
{
    let ghost p = pairs(list@);
    let ghost was = list@;
    let mut i: usize = 0;
    while i < list.len() && before(list[i].key.as_str(), key.as_str())
        invariant
            i <= list@.len(),
            list@ == was,
            p == pairs(list@),
            forall|j: int| 0 <= j < i ==> text::str_lt((#[trigger] p[j]).0, key@),
        decreases list@.len() - i,
    {
        assert(p[i as int].0 == list@[i as int].key@);
        i = i + 1;
    }
    proof {
        if i < list@.len() {
            assert(p[i as int].0 == list@[i as int].key@);
        }
        lemma_pair_at(p, key@, value, i as int);
    }
    let ghost pair = (key@, value);
    if i < list.len() && same(list[i].key.as_str(), key.as_str()) {
        let _old: Entry<V> = list.remove(i);
        list.insert(i, Entry { key, value });
        assert(pairs(list@) =~= p.update(i as int, pair));
    } else {
        list.insert(i, Entry { key, value });
        assert(pairs(list@) =~= p.insert(i as int, pair));
    }
}

// ---- counts ----------------------------------------------------------------------------------

/// How often a key was counted.
pub open spec fn count_for(s: Seq<(Seq<char>, u64)>, k: Seq<char>) -> int {
    match value_of(s, k) {
        Some(n) => n as int,
        None => 0,
    }
}

/// How often each of some keys occurs.
pub open spec fn counted(keys: Seq<Seq<char>>) -> Seq<(Seq<char>, u64)>
    decreases keys.len(),
{
    if keys.len() == 0 {
        Seq::empty()
    } else {
        let rest = counted(keys.drop_last());
        with_pair(rest, keys.last(), (count_for(rest, keys.last()) + 1) as u64)
    }
}

/// How often a key occurs.
pub open spec fn occurrences(keys: Seq<Seq<char>>, k: Seq<char>) -> nat
    decreases keys.len(),
{
    if keys.len() == 0 {
        0
    } else {
        occurrences(keys.drop_last(), k) + (if keys.last() == k { 1nat } else { 0 })
    }
}

/// Counting gives each key the number of its occurrences, and no entry to a key that does not occur.
pub proof fn law_counts_are_occurrences(keys: Seq<Seq<char>>, k: Seq<char>)
    requires
        keys.len() <= u64::MAX,
    ensures
        is_map(counted(keys)),
        count_for(counted(keys), k) == occurrences(keys, k),
        value_of(counted(keys), k) is Some <==> occurrences(keys, k) > 0,
        occurrences(keys, k) <= keys.len(),
    decreases keys.len(),
{
    if keys.len() > 0 {
        let rest = keys.drop_last();
        law_counts_are_occurrences(rest, k);
        law_counts_are_occurrences(rest, keys.last());
        lemma_with_pair(
            counted(rest),
            keys.last(),
            (count_for(counted(rest), keys.last()) + 1) as u64,
            k,
        );
    }
}

/// Counts one occurrence more.
pub fn tally(list: &mut Vec<Entry<u64>>, key: &str, Ghost(keys): Ghost<Seq<Seq<char>>>)
    requires
        pairs(old(list)@) == counted(keys),
        keys.len() < u64::MAX,
    ensures
        pairs(final(list)@) == counted(keys.push(key@)),
{
    proof {
        law_counts_are_occurrences(keys, key@);
        assert(keys.push(key@).drop_last() =~= keys);
    }
    let n: u64 = match find(list, key) {
        Some(i) => list[i].value,
        None => 0,
    };
    put(list, String::from_str(key), n + 1);
}

} // verus!
