//! Lists kept in the order of a text.

use vstd::prelude::*;
use vstd::string::*;

use crate::seqs;
use crate::text;
use crate::text::before;

verus! {

/// Something that is put in order by a text.
pub trait Labeled: View + Sized {
    /// The text that a value is put in order by.
    spec fn label_of(v: Self::V) -> Seq<char>;

    /// The text that a value is put in order by.
    fn label(&self) -> (r: &str)
        ensures
            r@ == Self::label_of(self@),
    ;
}

/// What a list holds.
pub open spec fn views<T: View>(s: Seq<T>) -> Seq<T::V> {
    s.map_values(|x: T| x@)
}

/// The order of labels.
pub open spec fn label_order<T: Labeled>() -> spec_fn(T::V, T::V) -> bool {
    |a: T::V, b: T::V| text::str_lt(T::label_of(a), T::label_of(b))
}

/// Values in the order of their labels; equal labels as they come.
pub open spec fn ordered<T: Labeled>(s: Seq<T::V>) -> Seq<T::V> {
    seqs::sorted(s, label_order::<T>())
}

/// One more element.
pub proof fn lemma_views_push<T: View>(s: Seq<T>, x: T)
    ensures
        views(s.push(x)) == views(s).push(x@),
{
    assert(views(s.push(x)) =~= views(s).push(x@));
}

/// Puts a value in its place, after those of the same label.
pub fn place<T: Labeled>(list: &mut Vec<T>, x: T)
    ensures
        views(final(list)@) == seqs::placed(views(old(list)@), x@, label_order::<T>()),
{
    let ghost v = views(list@);
    let mut k: usize = 0;
    while k < list.len() && !before(x.label(), list[k].label())
        invariant
            k <= list@.len(),
            list@ == old(list)@,
            v == views(list@),
            forall|j: int| 0 <= j < k ==> !text::str_lt(T::label_of(x@), T::label_of(#[trigger] v[j])),
        decreases list@.len() - k,
    {
        assert(v[k as int] == list@[k as int]@);
        k = k + 1;
    }
    proof {
        if k < list@.len() {
            assert(v[k as int] == list@[k as int]@);
        }
        seqs::lemma_placed_at(v, x@, label_order::<T>(), k as int);
        assert(views(list@.insert(k as int, x)) =~= v.insert(k as int, x@));
    }
    list.insert(k, x);
}

/// Placing the last of a list completes its order.
pub proof fn lemma_ordered_push<T: Labeled>(s: Seq<T::V>, x: T::V)
    ensures
        ordered::<T>(s.push(x)) == seqs::placed(ordered::<T>(s), x, label_order::<T>()),
{
    assert(s.push(x).drop_last() =~= s);
}

/// The labels of values.
pub open spec fn labels<T: Labeled>(s: Seq<T::V>) -> Seq<Seq<char>> {
    s.map_values(|v: T::V| T::label_of(v))
}

/// Values with distinct labels have one order, however they come.
pub proof fn lemma_ordered_is_unique<T: Labeled>(s: Seq<T::V>, t: Seq<T::V>)
    requires
        s.to_multiset() == t.to_multiset(),
        labels::<T>(s).no_duplicates(),
    ensures
        ordered::<T>(s) == ordered::<T>(t),
{
    seqs::lemma_text_order();
    seqs::lemma_sorted_by_distinct_keys(
        s,
        t,
        |v: T::V| T::label_of(v),
        label_order::<T>(),
        seqs::text_order(),
    );
}

impl Labeled for String {
    open spec fn label_of(v: Seq<char>) -> Seq<char> {
        v
    }

    fn label(&self) -> (r: &str) {
        self.as_str()
    }
}

/// Texts in order.
pub fn sort_texts(list: &Vec<String>) -> (r: Vec<String>)
    ensures
        text::texts(r@) == seqs::sorted(text::texts(list@), seqs::text_order()),
{
    let ghost t = text::texts(list@);
    let mut out: Vec<String> = Vec::new();
    let mut i: usize = 0;
    assert(views(out@) =~= ordered::<String>(t.take(0)));
    while i < list.len()
        invariant
            i <= list@.len(),
            t == text::texts(list@),
            views(out@) == ordered::<String>(t.take(i as int)),
        decreases list@.len() - i,
    {
        let x: String = list[i].clone();
        proof {
            assert(t[i as int] == x@);
            assert(t.take(i + 1) =~= t.take(i as int).push(x@));
            lemma_ordered_push::<String>(t.take(i as int), x@);
        }
        place(&mut out, x);
        i = i + 1;
    }
    proof {
        assert(t.take(i as int) =~= t);
        assert(text::texts(out@) =~= views(out@));
        assert(label_order::<String>() =~= seqs::text_order());
    }
    out
}

} // verus!
