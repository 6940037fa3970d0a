//! Sorting in time proportional to `n log n`.

use vstd::prelude::*;

use crate::seqs;
use crate::text;
use crate::text::{before, same};

verus! {

/// Something that is sorted by a byte string and a number.
pub trait Ranked: Copy {
    /// What it is sorted by.
    spec fn key(&self) -> (Seq<u8>, int);

    /// Whether it comes before another.
    fn below(&self, other: &Self) -> (r: bool)
        ensures
            r == key_lt(self.key(), other.key()),
    ;
}

/// Whether a key comes before another: by the byte string, then by the number.
pub open spec fn key_lt(a: (Seq<u8>, int), b: (Seq<u8>, int)) -> bool {
    text::bytes_lt(a.0, b.0) || (a.0 == b.0 && a.1 < b.1)
}

/// The order of keys, as a function.
pub open spec fn key_order() -> spec_fn((Seq<u8>, int), (Seq<u8>, int)) -> bool {
    |a: (Seq<u8>, int), b: (Seq<u8>, int)| key_lt(a, b)
}

/// The keys of some things.
pub open spec fn keys<T: Ranked>(s: Seq<T>) -> Seq<(Seq<u8>, int)> {
    s.map_values(|x: T| x.key())
}

/// Keys are totally ordered.
pub proof fn lemma_key_order()
    ensures
        seqs::total_order(key_order()),
{
    let lt = key_order();
    assert forall|a: (Seq<u8>, int), b: (Seq<u8>, int)| #[trigger] lt(a, b) implies !lt(b, a) by {
        text::lemma_bytes_trichotomy(a.0, b.0);
    }
    assert forall|a: (Seq<u8>, int), b: (Seq<u8>, int)| !(#[trigger] lt(a, b)) && !lt(b, a) implies a == b by {
        text::lemma_bytes_trichotomy(a.0, b.0);
    }
    assert forall|a: (Seq<u8>, int), b: (Seq<u8>, int), c: (Seq<u8>, int)|
        #[trigger] lt(a, b) && #[trigger] lt(b, c) implies lt(a, c) by {
        if text::bytes_lt(a.0, b.0) && text::bytes_lt(b.0, c.0) {
            text::lemma_bytes_transitive(a.0, b.0, c.0);
        }
    }
}

/// One element more on either side is one more in both together.
proof fn lemma_pushed<A>(all: Seq<A>, p: Seq<A>, q: Seq<A>, x: A)
    requires
        all.to_multiset() == p.to_multiset().add(q.to_multiset()),
    ensures
        all.push(x).to_multiset() == p.push(x).to_multiset().add(q.to_multiset()),
        all.push(x).to_multiset() == p.to_multiset().add(q.push(x).to_multiset()),
{
    broadcast use vstd::seq_lib::group_to_multiset_ensures;

    assert(all.push(x).to_multiset() =~= p.push(x).to_multiset().add(q.to_multiset()));
    assert(all.push(x).to_multiset() =~= p.to_multiset().add(q.push(x).to_multiset()));
}

/// What two lists in order hold, in order.
fn merge<T: Ranked>(a: &Vec<T>, b: &Vec<T>) -> (r: Vec<T>)
    requires
        seqs::in_order(keys(a@), key_order()),
        seqs::in_order(keys(b@), key_order()),
    ensures
        seqs::in_order(keys(r@), key_order()),
        keys(r@).to_multiset() == keys(a@).to_multiset().add(keys(b@).to_multiset()),
{
    broadcast use vstd::seq_lib::group_to_multiset_ensures;

    let ghost lt = key_order();
    let ghost (x, y) = (keys(a@), keys(b@));
    let mut out: Vec<T> = Vec::new();
    let mut i: usize = 0;
    let mut j: usize = 0;
    proof {
        lemma_key_order();
        assert(keys(out@) =~= Seq::empty());
        assert(x.take(0) =~= Seq::empty());
        assert(y.take(0) =~= Seq::empty());
        assert(keys(out@).to_multiset() =~= x.take(0).to_multiset().add(y.take(0).to_multiset()));
    }
    while i < a.len() || j < b.len()
        invariant
            i <= a@.len(),
            j <= b@.len(),
            lt == key_order(),
            seqs::total_order(lt),
            x == keys(a@),
            y == keys(b@),
            seqs::in_order(x, lt),
            seqs::in_order(y, lt),
            seqs::in_order(keys(out@), lt),
            keys(out@).to_multiset() == x.take(i as int).to_multiset().add(y.take(j as int).to_multiset()),
            forall|p: int, k: int|
                0 <= p < keys(out@).len() && i <= k < x.len() ==> !lt(#[trigger] x[k], #[trigger] keys(out@)[p]),
            forall|p: int, k: int|
                0 <= p < keys(out@).len() && j <= k < y.len() ==> !lt(#[trigger] y[k], #[trigger] keys(out@)[p]),
        decreases a@.len() - i + b@.len() - j,
    {
        let ghost was = keys(out@);
        let from_a: bool = j >= b.len() || (i < a.len() && !b[j].below(&a[i]));
        if from_a {
            let item: T = a[i];
            out.push(item);
            proof {
                assert(item.key() == x[i as int]);
                assert(keys(out@) =~= was.push(x[i as int]));
                assert(x.take(i + 1) =~= x.take(i as int).push(x[i as int]));
                assert forall|k: int| j <= k < y.len() implies !lt(#[trigger] y[k], x[i as int]) by {
                    assert(!lt(y[j as int], x[i as int]));
                    if k > j && lt(y[k], x[i as int]) {
                        assert(!lt(y[k], y[j as int]));
                        if x[i as int] != y[j as int] {
                            assert(lt(x[i as int], y[j as int]));
                        }
                    }
                }
                lemma_pushed(was, x.take(i as int), y.take(j as int), x[i as int]);
            }
            i = i + 1;
        } else {
            let item: T = b[j];
            out.push(item);
            proof {
                assert(item.key() == y[j as int]);
                assert(keys(out@) =~= was.push(y[j as int]));
                assert(y.take(j + 1) =~= y.take(j as int).push(y[j as int]));
                assert forall|k: int| i <= k < x.len() implies !lt(#[trigger] x[k], y[j as int]) by {
                    assert(lt(y[j as int], x[i as int]));
                    if k > i && lt(x[k], y[j as int]) {
                        assert(!lt(x[k], x[i as int]));
                        assert(lt(x[k], x[i as int]));
                    }
                }
                lemma_pushed(was, x.take(i as int), y.take(j as int), y[j as int]);
            }
            j = j + 1;
        }
    }
    assert(x.take(i as int) =~= x);
    assert(y.take(j as int) =~= y);
    out
}

/// A part of a list, in order.
fn sort_part<T: Ranked>(v: &Vec<T>, start: usize, end: usize) -> (r: Vec<T>)
    requires
        start <= end <= v@.len(),
    ensures
        seqs::in_order(keys(r@), key_order()),
        keys(r@).to_multiset() == keys(v@.subrange(start as int, end as int)).to_multiset(),
    decreases end - start,
{
    if end - start <= 1 {
        let mut out: Vec<T> = Vec::new();
        if start < end {
            out.push(v[start]);
        }
        assert(out@ =~= v@.subrange(start as int, end as int));
        return out;
    }
    let mid: usize = start + (end - start) / 2;
    let left: Vec<T> = sort_part(v, start, mid);
    let right: Vec<T> = sort_part(v, mid, end);
    let out: Vec<T> = merge(&left, &right);
    proof {
        let (p, q) = (keys(v@.subrange(start as int, mid as int)), keys(v@.subrange(mid as int, end as int)));
        assert(keys(v@.subrange(start as int, end as int)) =~= p + q);
        vstd::seq_lib::lemma_multiset_commutative(p, q);
    }
    out
}

/// Sorts a list.
pub fn sort<T: Ranked>(v: &Vec<T>) -> (r: Vec<T>)
    ensures
        keys(r@) == seqs::sorted(keys(v@), key_order()),
        r@.len() == v@.len(),
{
    let out: Vec<T> = sort_part(v, 0, v.len());
    proof {
        lemma_key_order();
        assert(v@.subrange(0, v@.len() as int) =~= v@);
        seqs::lemma_sorted_in_order(keys(v@), key_order());
        seqs::lemma_sorted_multiset(keys(v@), key_order());
        seqs::lemma_order_is_unique(keys(out@), seqs::sorted(keys(v@), key_order()), key_order());
        assert(keys(out@).len() == out@.len());
    }
    out
}

// ---- numbers ---------------------------------------------------------------------------------

impl Ranked for u64 {
    open spec fn key(&self) -> (Seq<u8>, int) {
        (Seq::empty(), *self as int)
    }

    fn below(&self, other: &u64) -> (r: bool) {
        proof {
            text::lemma_bytes_trichotomy(Seq::empty(), Seq::empty());
        }
        *self < *other
    }
}

/// Numbers sort as their keys do.
proof fn lemma_number_keys(s: Seq<u64>)
    ensures
        keys(seqs::sorted(s, seqs::number_order())) == seqs::sorted(keys(s), key_order()),
    decreases s.len(),
{
    if s.len() == 0 {
        assert(keys(s) =~= Seq::empty());
        assert(keys(seqs::sorted(s, seqs::number_order())) =~= Seq::empty());
    } else {
        lemma_number_keys(s.drop_last());
        assert(keys(s).drop_last() =~= keys(s.drop_last()));
        lemma_number_placed(seqs::sorted(s.drop_last(), seqs::number_order()), s.last());
    }
}

/// A number is placed as its key is.
proof fn lemma_number_placed(s: Seq<u64>, x: u64)
    ensures
        keys(seqs::placed(s, x, seqs::number_order())) == seqs::placed(keys(s), x.key(), key_order()),
    decreases s.len(),
{
    text::lemma_bytes_trichotomy(Seq::empty(), Seq::empty());
    if s.len() == 0 {
        assert(keys(seq![x]) =~= seq![x.key()]);
    } else {
        assert(keys(s)[0] == s[0].key());
        if x < s[0] {
            assert(keys(seq![x] + s) =~= seq![x.key()] + keys(s));
        } else {
            lemma_number_placed(s.skip(1), x);
            assert(keys(s).skip(1) =~= keys(s.skip(1)));
            let more = seqs::placed(s.skip(1), x, seqs::number_order());
            assert(keys(seq![s[0]] + more) =~= seq![s[0].key()] + keys(more));
        }
    }
}

/// Sorts numbers.
pub fn sort_numbers(v: &Vec<u64>) -> (r: Vec<u64>)
    ensures
        r@ == seqs::sorted(v@, seqs::number_order()),
{
    let out: Vec<u64> = sort(v);
    proof {
        lemma_number_keys(v@);
        let t = seqs::sorted(v@, seqs::number_order());
        assert(keys(out@) == keys(t));
        assert(out@.len() == keys(out@).len());
        assert forall|i: int| 0 <= i < out@.len() implies out@[i] == t[i] by {
            assert(keys(out@)[i] == out@[i].key());
            assert(keys(t)[i] == t[i].key());
        }
        assert(out@ =~= t);
    }
    out
}

// ---- texts -----------------------------------------------------------------------------------

/// A text that is sorted.
#[derive(Clone, Copy)]
pub struct Word<'a> {
    /// The text.
    pub text: &'a str,
}

impl<'a> Ranked for Word<'a> {
    open spec fn key(&self) -> (Seq<u8>, int) {
        (vstd::utf8::encode_utf8(self.text@), 0)
    }

    fn below(&self, other: &Word<'a>) -> (r: bool) {
        before(self.text, other.text)
    }
}

/// What words say.
pub open spec fn words(s: Seq<Word>) -> Seq<Seq<char>> {
    s.map_values(|w: Word| w.text@)
}

/// Words hold a text exactly where their keys hold its encoding.
proof fn lemma_word_keys(s: Seq<Word>, x: Seq<char>)
    ensures
        words(s).contains(x) <==> keys(s).contains((vstd::utf8::encode_utf8(x), 0int)),
{
    let k = (vstd::utf8::encode_utf8(x), 0int);
    if words(s).contains(x) {
        let i = choose|i: int| 0 <= i < words(s).len() && words(s)[i] == x;
        assert(keys(s)[i] == s[i].key());
    }
    if keys(s).contains(k) {
        let i = choose|i: int| 0 <= i < keys(s).len() && keys(s)[i] == k;
        assert(keys(s)[i] == s[i].key());
        text::lemma_encoding_is_injective(s[i].text@, x);
        assert(words(s)[i] == x);
    }
}

/// The distinct texts among words, in order.
pub fn distinct_words(list: &Vec<Word>) -> (r: Vec<String>)
    ensures
        text::texts(r@) == seqs::text_set(words(list@)),
{
    broadcast use text::lemma_texts_push;

    let ghost lt = seqs::text_order();
    let sorted: Vec<Word> = sort(list);
    let ghost w = words(sorted@);
    let ghost k = keys(sorted@);
    let mut out: Vec<String> = Vec::new();
    let mut i: usize = 0;
    proof {
        lemma_key_order();
        seqs::lemma_text_order();
        seqs::lemma_sorted_in_order(keys(list@), key_order());
        assert(text::texts(out@) =~= Seq::empty());
    }
    while i < sorted.len()
        invariant
            i <= sorted@.len(),
            w == words(sorted@),
            k == keys(sorted@),
            seqs::in_order(k, key_order()),
            lt == seqs::text_order(),
            seqs::total_order(lt),
            seqs::strictly(text::texts(out@), lt),
            i > 0 ==> out@.len() > 0 && text::texts(out@).last() == w[i - 1],
            i == 0 ==> out@.len() == 0,
            forall|x: Seq<char>| #[trigger] text::texts(out@).contains(x) <==> w.take(i as int).contains(x),
        decreases sorted@.len() - i,
    {
        let ghost was = text::texts(out@);
        let ghost x = w[i as int];
        let word: &str = sorted[i].text;
        assert(word@ == x);
        let fresh: bool = i == 0 || !same(word, sorted[i - 1].text);
        if fresh {
            out.push(String::from_str(word));
        }
        proof {
            let now = text::texts(out@);
            assert(w.take(i + 1) =~= w.take(i as int).push(x));
            if fresh {
                assert(now == was.push(x));
                assert forall|a: int, b: int| 0 <= a < b < now.len() implies lt(#[trigger] now[a], #[trigger] now[b]) by {
                    if b == was.len() {
                        let y = was.last();
                        assert(y == w[i - 1]);
                        assert(k[i - 1] == sorted@[i - 1].key());
                        assert(k[i as int] == sorted@[i as int].key());
                        assert(!key_order()(k[i as int], k[i - 1]));
                        text::lemma_str_trichotomy(y, x);
                        assert(lt(y, x));
                        if a < was.len() - 1 {
                            assert(lt(was[a], was[was.len() - 1]));
                        }
                        assert(now[a] == was[a]);
                    } else {
                        assert(now[a] == was[a] && now[b] == was[b]);
                    }
                }
            } else {
                assert(was.last() == x);
                assert(was[was.len() - 1] == x);
                assert(was.contains(x));
            }
            assert forall|y: Seq<char>| #[trigger] now.contains(y) <==> w.take(i + 1).contains(y) by {
                let (p, q) = (w.take(i as int), w.take(i + 1));
                assert(was.contains(y) <==> p.contains(y));
                if now.contains(y) {
                    let j = choose|j: int| 0 <= j < now.len() && now[j] == y;
                    if j < was.len() {
                        assert(was[j] == y);
                        let m = choose|m: int| 0 <= m < p.len() && p[m] == y;
                        assert(q[m] == y);
                    } else {
                        assert(q[i as int] == y);
                    }
                }
                if q.contains(y) {
                    let m = choose|m: int| 0 <= m < q.len() && q[m] == y;
                    if m < i {
                        assert(p[m] == y);
                        let j = choose|j: int| 0 <= j < was.len() && was[j] == y;
                        assert(now[j] == y);
                    } else {
                        assert(now.last() == y);
                        assert(now[now.len() - 1] == y);
                    }
                }
            }
        }
        i = i + 1;
    }
    proof {
        let (a, b) = (text::texts(out@), seqs::text_set(words(list@)));
        assert(w.take(i as int) =~= w);
        seqs::lemma_distinct_strictly(words(list@), lt);
        seqs::lemma_sorted_multiset(keys(list@), key_order());
        assert forall|x: Seq<char>| a.contains(x) <==> b.contains(x) by {
            broadcast use vstd::seq_lib::group_to_multiset_ensures;

            let key = (vstd::utf8::encode_utf8(x), 0int);
            lemma_word_keys(sorted@, x);
            lemma_word_keys(list@, x);
            assert(k.to_multiset().contains(key) <==> keys(list@).to_multiset().contains(key));
            seqs::lemma_distinct_contains(words(list@), lt, x);
        }
        seqs::lemma_strict_is_unique(a, b, lt);
    }
    out
}

} // verus!
