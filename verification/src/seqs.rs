//! Sequences: flattening, selecting, and keeping in order.

use vstd::prelude::*;
use vstd::string::*;

use crate::text;
use crate::text::{before, same};

verus! {

// ---- flattening ------------------------------------------------------------------------------

/// What `f` gives for each element, one after the other.
pub open spec fn gather<A, B>(s: Seq<A>, f: spec_fn(A) -> Seq<B>) -> Seq<B>
    decreases s.len(),
{
    if s.len() == 0 {
        Seq::empty()
    } else {
        gather(s.drop_last(), f) + f(s.last())
    }
}

/// All elements taken is the whole sequence.
pub proof fn lemma_take_all<A>(s: Seq<A>)
    ensures
        s.take(s.len() as int) == s,
{
    assert(s.take(s.len() as int) =~= s);
}

/// What two lists give together is what each gives, one after the other.
pub proof fn lemma_gather_split<A, B>(x: Seq<A>, y: Seq<A>, f: spec_fn(A) -> Seq<B>)
    ensures
        gather(x + y, f) == gather(x, f) + gather(y, f),
    decreases y.len(),
{
    if y.len() == 0 {
        assert(x + y =~= x);
        assert(gather(x, f) + gather(y, f) =~= gather(x, f));
    } else {
        let rest = y.drop_last();
        assert((x + y).drop_last() =~= x + rest);
        assert((x + y).last() == y.last());
        lemma_gather_split(x, rest, f);
        assert(gather(x, f) + gather(rest, f) + f(y.last()) =~= gather(x, f) + (gather(rest, f) + f(y.last())));
    }
}

/// What the elements of a list give together depends, but for its order, on which they are.
pub proof fn lemma_gather_multiset<A, B>(a: Seq<A>, b: Seq<A>, f: spec_fn(A) -> Seq<B>)
    requires
        a.to_multiset() == b.to_multiset(),
    ensures
        gather(a, f).to_multiset() == gather(b, f).to_multiset(),
        gather(a, f).len() == gather(b, f).len(),
    decreases a.len(),
{
    broadcast use vstd::seq_lib::group_to_multiset_ensures;

    assert(a.len() == a.to_multiset().len());
    assert(b.len() == b.to_multiset().len());
    if a.len() == 0 {
        assert(a =~= b);
    } else {
        let x = a.last();
        assert(a[a.len() - 1] == x);
        assert(a.contains(x));
        assert(b.to_multiset().contains(x));
        assert(b.contains(x));
        let k = choose|k: int| 0 <= k < b.len() && b[k] == x;
        let (p, q) = (b.take(k), b.skip(k + 1));
        let (rest, other) = (a.drop_last(), p + q);
        assert(rest =~= a.remove(a.len() - 1));
        assert(other =~= b.remove(k));
        assert(rest.to_multiset() =~= other.to_multiset());
        lemma_gather_multiset(rest, other, f);
        let one = seq![x];
        assert(one.drop_last() =~= Seq::empty());
        assert(gather(one, f) =~= f(x)) by {
            assert(gather(one.drop_last(), f) =~= Seq::empty());
        }
        assert(b =~= p + one + q);
        lemma_gather_split(p, q, f);
        lemma_gather_split(p, one, f);
        lemma_gather_split(p + one, q, f);
        let (gp, gq) = (gather(p, f), gather(q, f));
        vstd::seq_lib::lemma_multiset_commutative(gather(rest, f), f(x));
        vstd::seq_lib::lemma_multiset_commutative(gp, gq);
        vstd::seq_lib::lemma_multiset_commutative(gp, f(x));
        vstd::seq_lib::lemma_multiset_commutative(gp + f(x), gq);
        assert(gather(a, f).to_multiset() =~= gather(b, f).to_multiset());
    }
    assert(gather(a, f).len() == gather(a, f).to_multiset().len());
    assert(gather(b, f).len() == gather(b, f).to_multiset().len());
}

/// Mapping is giving one for each.
pub proof fn lemma_map_is_gather<A, B>(s: Seq<A>, f: spec_fn(A) -> B)
    ensures
        s.map_values(f) == gather(s, |x: A| seq![f(x)]),
    decreases s.len(),
{
    let g = |x: A| seq![f(x)];
    if s.len() == 0 {
        assert(s.map_values(f) =~= Seq::empty());
    } else {
        lemma_map_is_gather(s.drop_last(), f);
        assert(s.map_values(f) =~= s.drop_last().map_values(f) + g(s.last()));
    }
}

// ---- selecting -------------------------------------------------------------------------------

/// The elements that satisfy `p`, in order.
pub open spec fn keep<A>(s: Seq<A>, p: spec_fn(A) -> bool) -> Seq<A>
    decreases s.len(),
{
    if s.len() == 0 {
        Seq::empty()
    } else if p(s.last()) {
        keep(s.drop_last(), p).push(s.last())
    } else {
        keep(s.drop_last(), p)
    }
}

/// How many elements satisfy `p`.
pub open spec fn count<A>(s: Seq<A>, p: spec_fn(A) -> bool) -> nat {
    keep(s, p).len()
}

// ---- ordered sets ----------------------------------------------------------------------------

/// An ordered list without repeats, with `x` in its place: unchanged where `x` is there already.
pub open spec fn with_new<A>(s: Seq<A>, x: A, lt: spec_fn(A, A) -> bool) -> Seq<A>
    decreases s.len(),
{
    if s.len() == 0 {
        seq![x]
    } else if lt(s[0], x) {
        seq![s[0]] + with_new(s.skip(1), x, lt)
    } else if s[0] == x {
        s
    } else {
        seq![x] + s
    }
}

/// The distinct elements of a sequence, in order.
pub open spec fn distinct<A>(s: Seq<A>, lt: spec_fn(A, A) -> bool) -> Seq<A>
    decreases s.len(),
{
    if s.len() == 0 {
        Seq::empty()
    } else {
        with_new(distinct(s.drop_last(), lt), s.last(), lt)
    }
}

/// One element more is put in its place.
pub proof fn lemma_distinct_step<A>(s: Seq<A>, lt: spec_fn(A, A) -> bool, x: A)
    ensures
        distinct(s.push(x), lt) == with_new(distinct(s, lt), x, lt),
{
    assert(s.push(x).drop_last() =~= s);
}

/// Where every element before position `i` comes before `x` and the one at `i` does not, `x`
/// belongs at `i`.
pub proof fn lemma_with_new_at<A>(s: Seq<A>, x: A, lt: spec_fn(A, A) -> bool, i: int)
    requires
        0 <= i <= s.len(),
        forall|k: int| 0 <= k < i ==> lt(#[trigger] s[k], x),
        i < s.len() ==> !lt(s[i], x),
    ensures
        with_new(s, x, lt) == (if i < s.len() && s[i] == x { s } else { s.insert(i, x) }),
    decreases s.len(),
{
    if s.len() == 0 {
        assert(s.insert(i, x) =~= seq![x]);
    } else if i == 0 {
        assert(s.insert(0, x) =~= seq![x] + s);
    } else {
        assert(lt(s[0], x));
        let rest = s.skip(1);
        assert forall|k: int| 0 <= k < i - 1 implies lt(#[trigger] rest[k], x) by {
            assert(rest[k] == s[k + 1]);
        }
        lemma_with_new_at(rest, x, lt, i - 1);
        if i < s.len() && s[i] == x {
            assert(rest[i - 1] == x);
            assert(seq![s[0]] + rest =~= s);
        } else {
            assert(seq![s[0]] + rest.insert(i - 1, x) =~= s.insert(i, x));
        }
    }
}

/// What `with_new` holds: the elements there were, and `x`.
pub proof fn lemma_with_new_contains<A>(s: Seq<A>, x: A, lt: spec_fn(A, A) -> bool, y: A)
    ensures
        with_new(s, x, lt).contains(y) <==> s.contains(y) || y == x,
        with_new(s, x, lt).len() <= s.len() + 1,
        with_new(s, x, lt).len() >= s.len(),
        with_new(s, x, lt).len() > 0,
    decreases s.len(),
{
    if s.len() == 0 {
        assert(seq![x][0] == x);
    } else if lt(s[0], x) {
        let rest = s.skip(1);
        let more = with_new(rest, x, lt);
        lemma_with_new_contains(rest, x, lt, y);
        assert(with_new(s, x, lt) == seq![s[0]] + more);
        if more.contains(y) {
            let j = choose|j: int| 0 <= j < more.len() && more[j] == y;
            assert((seq![s[0]] + more)[j + 1] == y);
        }
        if y == s[0] {
            assert((seq![s[0]] + more)[0] == y);
        }
        if s.contains(y) {
            let j = choose|j: int| 0 <= j < s.len() && s[j] == y;
            if j > 0 {
                assert(rest[j - 1] == y);
            }
        }
        if with_new(s, x, lt).contains(y) {
            let j = choose|j: int| 0 <= j < with_new(s, x, lt).len() && with_new(s, x, lt)[j] == y;
            if j > 0 {
                assert(more[j - 1] == y);
                if rest.contains(y) {
                    let k = choose|k: int| 0 <= k < rest.len() && rest[k] == y;
                    assert(s[k + 1] == y);
                }
            } else {
                assert(s[0] == y);
            }
        }
    } else if s[0] == x {
    } else {
        assert((seq![x] + s)[0] == x);
        if s.contains(y) {
            let j = choose|j: int| 0 <= j < s.len() && s[j] == y;
            assert((seq![x] + s)[j + 1] == y);
        }
        if (seq![x] + s).contains(y) {
            let j = choose|j: int| 0 <= j < (seq![x] + s).len() && (seq![x] + s)[j] == y;
            if j > 0 {
                assert(s[j - 1] == y);
            }
        }
    }
}

/// The distinct elements of a sequence are its elements.
pub proof fn lemma_distinct_contains<A>(s: Seq<A>, lt: spec_fn(A, A) -> bool, y: A)
    ensures
        distinct(s, lt).contains(y) <==> s.contains(y),
        distinct(s, lt).len() <= s.len(),
    decreases s.len(),
{
    if s.len() > 0 {
        let rest = s.drop_last();
        lemma_distinct_contains(rest, lt, y);
        lemma_with_new_contains(distinct(rest, lt), s.last(), lt, y);
        if s.contains(y) {
            let j = choose|j: int| 0 <= j < s.len() && s[j] == y;
            if j < rest.len() {
                assert(rest[j] == y);
            }
        }
        if rest.contains(y) {
            let j = choose|j: int| 0 <= j < rest.len() && rest[j] == y;
            assert(s[j] == y);
        }
    }
}

// ---- ordered sets of texts -------------------------------------------------------------------

/// The order of texts, as a function.
pub open spec fn text_order() -> spec_fn(Seq<char>, Seq<char>) -> bool {
    |a: Seq<char>, b: Seq<char>| text::str_lt(a, b)
}

/// The distinct texts of a list, in order.
pub open spec fn text_set(s: Seq<Seq<char>>) -> Seq<Seq<char>> {
    distinct(s, text_order())
}

/// Whether a list of texts stands in order, without repeats.
pub open spec fn texts_ordered(s: Seq<Seq<char>>) -> bool {
    forall|i: int, j: int| 0 <= i < j < s.len() ==> text::str_lt(#[trigger] s[i], #[trigger] s[j])
}

/// Putting a text in its place keeps a list in order.
pub proof fn lemma_with_new_texts_ordered(s: Seq<Seq<char>>, x: Seq<char>)
    requires
        texts_ordered(s),
    ensures
        texts_ordered(with_new(s, x, text_order())),
    decreases s.len(),
{
    let lt = text_order();
    if s.len() > 0 {
        text::lemma_str_trichotomy(s[0], x);
        if text::str_lt(s[0], x) {
            let rest = s.skip(1);
            assert(texts_ordered(rest)) by {
                assert forall|i: int, j: int| 0 <= i < j < rest.len() implies text::str_lt(
                    #[trigger] rest[i],
                    #[trigger] rest[j],
                ) by {
                    assert(rest[i] == s[i + 1]);
                    assert(rest[j] == s[j + 1]);
                }
            }
            lemma_with_new_texts_ordered(rest, x);
            let more = with_new(rest, x, lt);
            let all = with_new(s, x, lt);
            assert(all == seq![s[0]] + more);
            assert forall|i: int, j: int| 0 <= i < j < all.len() implies text::str_lt(
                #[trigger] all[i],
                #[trigger] all[j],
            ) by {
                if i == 0 {
                    lemma_with_new_contains(rest, x, lt, all[j]);
                    assert(more[j - 1] == all[j]);
                    if rest.contains(all[j]) {
                        let k = choose|k: int| 0 <= k < rest.len() && rest[k] == all[j];
                        assert(s[k + 1] == all[j]);
                    }
                } else {
                    assert(all[i] == more[i - 1]);
                    assert(all[j] == more[j - 1]);
                }
            }
        } else if s[0] != x {
            let all = with_new(s, x, lt);
            assert(all == seq![x] + s);
            assert forall|i: int, j: int| 0 <= i < j < all.len() implies text::str_lt(
                #[trigger] all[i],
                #[trigger] all[j],
            ) by {
                assert(all[j] == s[j - 1]);
                if i == 0 {
                    if j > 1 {
                        text::lemma_str_transitive(x, s[0], s[j - 1]);
                    }
                } else {
                    assert(all[i] == s[i - 1]);
                }
            }
        }
    }
}

/// The distinct texts of a list stand in order.
pub proof fn lemma_text_set_ordered(s: Seq<Seq<char>>)
    ensures
        texts_ordered(text_set(s)),
    decreases s.len(),
{
    if s.len() > 0 {
        lemma_text_set_ordered(s.drop_last());
        lemma_with_new_texts_ordered(text_set(s.drop_last()), s.last());
    }
}

/// Puts a text in its place in an ordered list; tells whether it was new there.
pub fn put_text(list: &mut Vec<String>, s: &str) -> (r: bool)
    ensures
        text::texts(final(list)@) == with_new(text::texts(old(list)@), s@, text_order()),
        r == (text::texts(final(list)@).len() > text::texts(old(list)@).len()),
{
    let ghost was = text::texts(list@);
    let mut i: usize = 0;
    while i < list.len() && before(list[i].as_str(), s)
        invariant
            i <= list@.len(),
            list@ == old(list)@,
            was == text::texts(list@),
            forall|k: int| 0 <= k < i ==> text::str_lt(#[trigger] was[k], s@),
        decreases list@.len() - i,
    {
        assert(was[i as int] == list@[i as int]@);
        i = i + 1;
    }
    proof {
        if i < list@.len() {
            assert(was[i as int] == list@[i as int]@);
        }
        lemma_with_new_at(was, s@, text_order(), i as int);
    }
    if i < list.len() && same(list[i].as_str(), s) {
        false
    } else {
        let owned: String = String::from_str(s);
        list.insert(i, owned);
        assert(text::texts(list@) =~= was.insert(i as int, s@));
        true
    }
}

// ---- ordered sets of numbers -----------------------------------------------------------------

/// The order of numbers, as a function.
pub open spec fn number_order() -> spec_fn(u64, u64) -> bool {
    |a: u64, b: u64| a < b
}

/// The distinct numbers of a list, ascending.
pub open spec fn number_set(s: Seq<u64>) -> Seq<u64> {
    distinct(s, number_order())
}

/// Whether a list of numbers ascends without repeats.
pub open spec fn ascending(s: Seq<u64>) -> bool {
    forall|i: int, j: int| 0 <= i < j < s.len() ==> s[i] < s[j]
}

/// Putting a number in its place keeps a list ascending.
pub proof fn lemma_with_new_ascending(s: Seq<u64>, x: u64)
    requires
        ascending(s),
    ensures
        ascending(with_new(s, x, number_order())),
    decreases s.len(),
{
    let lt = number_order();
    if s.len() > 0 && s[0] < x {
        let rest = s.skip(1);
        lemma_with_new_ascending(rest, x);
        let more = with_new(rest, x, lt);
        let all = with_new(s, x, lt);
        assert(all == seq![s[0]] + more);
        assert forall|i: int, j: int| 0 <= i < j < all.len() implies all[i] < all[j] by {
            if i == 0 {
                lemma_with_new_contains(rest, x, lt, all[j]);
                assert(more[j - 1] == all[j]);
                if rest.contains(all[j]) {
                    let k = choose|k: int| 0 <= k < rest.len() && rest[k] == all[j];
                    assert(s[k + 1] == all[j]);
                }
            } else {
                assert(all[i] == more[i - 1]);
                assert(all[j] == more[j - 1]);
            }
        }
    } else if s.len() > 0 && s[0] != x {
        assert(with_new(s, x, lt) == seq![x] + s);
    }
}

/// The distinct numbers of a list ascend.
pub proof fn lemma_number_set_ascending(s: Seq<u64>)
    ensures
        ascending(number_set(s)),
    decreases s.len(),
{
    if s.len() > 0 {
        lemma_number_set_ascending(s.drop_last());
        lemma_with_new_ascending(number_set(s.drop_last()), s.last());
    }
}

/// Ascending numbers are at least as far apart as their places.
pub proof fn lemma_ascending_gap(s: Seq<u64>, i: int, j: int)
    requires
        ascending(s),
        0 <= i <= j < s.len(),
    ensures
        s[j] - s[i] >= j - i,
    decreases j - i,
{
    if i < j {
        lemma_ascending_gap(s, i, j - 1);
        assert(s[j - 1] < s[j]);
    }
}

/// Puts a number in its place in an ascending list.
pub fn put_number(list: &mut Vec<u64>, n: u64)
    ensures
        final(list)@ == with_new(old(list)@, n, number_order()),
{
    let mut i: usize = 0;
    while i < list.len() && list[i] < n
        invariant
            i <= list@.len(),
            list@ == old(list)@,
            forall|k: int| 0 <= k < i ==> list@[k] < n,
        decreases list@.len() - i,
    {
        i = i + 1;
    }
    proof {
        lemma_with_new_at(list@, n, number_order(), i as int);
    }
    if !(i < list.len() && list[i] == n) {
        list.insert(i, n);
    }
}

/// The order of times, as a function.
pub open spec fn time_order() -> spec_fn(i64, i64) -> bool {
    |a: i64, b: i64| a < b
}

/// The distinct times of a list, ascending.
pub open spec fn time_set(s: Seq<i64>) -> Seq<i64> {
    distinct(s, time_order())
}

/// Puts a time in its place in an ascending list.
pub fn put_time(list: &mut Vec<i64>, t: i64)
    ensures
        final(list)@ == with_new(old(list)@, t, time_order()),
{
    let mut i: usize = 0;
    while i < list.len() && list[i] < t
        invariant
            i <= list@.len(),
            list@ == old(list)@,
            forall|k: int| 0 <= k < i ==> list@[k] < t,
        decreases list@.len() - i,
    {
        i = i + 1;
    }
    proof {
        lemma_with_new_at(list@, t, time_order(), i as int);
    }
    if !(i < list.len() && list[i] == t) {
        list.insert(i, t);
    }
}

/// Whether a list holds a number.
pub fn holds_number(list: &Vec<u64>, n: u64) -> (r: bool)
    ensures
        r == list@.contains(n),
{
    let mut i: usize = 0;
    while i < list.len()
        invariant
            i <= list@.len(),
            forall|k: int| 0 <= k < i ==> list@[k] != n,
        decreases list@.len() - i,
    {
        if list[i] == n {
            return true;
        }
        i = i + 1;
    }
    false
}

// ---- sorting ---------------------------------------------------------------------------------

/// A sorted list with `x` in its place, after the elements that it does not come before.
pub open spec fn placed<A>(s: Seq<A>, x: A, lt: spec_fn(A, A) -> bool) -> Seq<A>
    decreases s.len(),
{
    if s.len() == 0 {
        seq![x]
    } else if lt(x, s[0]) {
        seq![x] + s
    } else {
        seq![s[0]] + placed(s.skip(1), x, lt)
    }
}

/// The elements of a sequence sorted; elements of which neither comes first stay as they stood.
pub open spec fn sorted<A>(s: Seq<A>, lt: spec_fn(A, A) -> bool) -> Seq<A>
    decreases s.len(),
{
    if s.len() == 0 {
        Seq::empty()
    } else {
        placed(sorted(s.drop_last(), lt), s.last(), lt)
    }
}

/// Where `x` comes before no element ahead of position `i`, and before the one at `i`, it belongs
/// at `i`.
pub proof fn lemma_placed_at<A>(s: Seq<A>, x: A, lt: spec_fn(A, A) -> bool, i: int)
    requires
        0 <= i <= s.len(),
        forall|k: int| 0 <= k < i ==> !lt(x, #[trigger] s[k]),
        i < s.len() ==> lt(x, s[i]),
    ensures
        placed(s, x, lt) == s.insert(i, x),
    decreases s.len(),
{
    if s.len() == 0 {
        assert(s.insert(i, x) =~= seq![x]);
    } else if i == 0 {
        assert(s.insert(0, x) =~= seq![x] + s);
    } else {
        assert(!lt(x, s[0]));
        let rest = s.skip(1);
        assert forall|k: int| 0 <= k < i - 1 implies !lt(x, #[trigger] rest[k]) by {
            assert(rest[k] == s[k + 1]);
        }
        lemma_placed_at(rest, x, lt, i - 1);
        assert(seq![s[0]] + rest.insert(i - 1, x) =~= s.insert(i, x));
    }
}

/// One element more is put in its place.
pub proof fn lemma_sorted_step<A>(s: Seq<A>, lt: spec_fn(A, A) -> bool, i: int)
    requires
        0 <= i < s.len(),
    ensures
        sorted(s.take(i + 1), lt) == placed(sorted(s.take(i), lt), s[i], lt),
{
    assert(s.take(i + 1).drop_last() =~= s.take(i));
    assert(s.take(i + 1).last() == s[i]);
}

/// Placing an element adds it to what is there.
pub proof fn lemma_placed_multiset<A>(s: Seq<A>, x: A, lt: spec_fn(A, A) -> bool)
    ensures
        placed(s, x, lt).to_multiset() == s.to_multiset().insert(x),
        placed(s, x, lt).len() == s.len() + 1,
    decreases s.len(),
{
    broadcast use vstd::seq_lib::group_to_multiset_ensures;

    if s.len() == 0 {
        assert(seq![x] =~= s.push(x));
    } else if lt(x, s[0]) {
        assert(seq![x] + s =~= s.insert(0, x));
        vstd::seq_lib::to_multiset_insert(s, 0, x);
    } else {
        let rest = s.skip(1);
        lemma_placed_multiset(rest, x, lt);
        let more = placed(rest, x, lt);
        assert(seq![s[0]] + more =~= more.insert(0, s[0]));
        vstd::seq_lib::to_multiset_insert(more, 0, s[0]);
        assert(s =~= rest.insert(0, s[0]));
        vstd::seq_lib::to_multiset_insert(rest, 0, s[0]);
        assert(placed(s, x, lt).to_multiset() =~= s.to_multiset().insert(x));
    }
}

/// Sorting keeps every element and adds none.
pub proof fn lemma_sorted_multiset<A>(s: Seq<A>, lt: spec_fn(A, A) -> bool)
    ensures
        sorted(s, lt).to_multiset() == s.to_multiset(),
        sorted(s, lt).len() == s.len(),
    decreases s.len(),
{
    broadcast use vstd::seq_lib::group_to_multiset_ensures;

    if s.len() > 0 {
        lemma_sorted_multiset(s.drop_last(), lt);
        lemma_placed_multiset(sorted(s.drop_last(), lt), s.last(), lt);
        assert(s =~= s.drop_last().push(s.last()));
    } else {
        assert(sorted(s, lt) =~= s);
    }
}

// ---- total orders ----------------------------------------------------------------------------

/// Whether a relation is a strict total order.
pub open spec fn total_order<A>(lt: spec_fn(A, A) -> bool) -> bool {
    &&& forall|a: A, b: A| #[trigger] lt(a, b) ==> !lt(b, a)
    &&& forall|a: A, b: A| !(#[trigger] lt(a, b)) && !lt(b, a) ==> a == b
    &&& forall|a: A, b: A, c: A| #[trigger] lt(a, b) && #[trigger] lt(b, c) ==> lt(a, c)
}

/// Whether of two elements at most one comes before the other.
pub open spec fn asymmetric<A>(lt: spec_fn(A, A) -> bool) -> bool {
    forall|a: A, b: A| #[trigger] lt(a, b) ==> !lt(b, a)
}

/// Whether no element comes before one ahead of it.
pub open spec fn in_order<A>(s: Seq<A>, lt: spec_fn(A, A) -> bool) -> bool {
    forall|i: int, j: int| 0 <= i < j < s.len() ==> !lt(#[trigger] s[j], #[trigger] s[i])
}

/// Whether every element comes before those behind it.
pub open spec fn strictly<A>(s: Seq<A>, lt: spec_fn(A, A) -> bool) -> bool {
    forall|i: int, j: int| 0 <= i < j < s.len() ==> lt(#[trigger] s[i], #[trigger] s[j])
}

/// What a list with one element placed in it holds.
proof fn lemma_placed_contains<A>(s: Seq<A>, x: A, lt: spec_fn(A, A) -> bool, y: A)
    ensures
        placed(s, x, lt).contains(y) <==> s.contains(y) || y == x,
{
    broadcast use vstd::seq_lib::group_to_multiset_ensures;

    lemma_placed_multiset(s, x, lt);
    assert(placed(s, x, lt).contains(y) <==> placed(s, x, lt).to_multiset().count(y) > 0);
    assert(s.contains(y) <==> s.to_multiset().count(y) > 0);
}

/// Placing an element keeps a list in order.
pub proof fn lemma_placed_in_order<A>(s: Seq<A>, x: A, lt: spec_fn(A, A) -> bool)
    requires
        total_order(lt),
        in_order(s, lt),
    ensures
        in_order(placed(s, x, lt), lt),
    decreases s.len(),
{
    let all = placed(s, x, lt);
    if s.len() == 0 {
    } else if lt(x, s[0]) {
        assert(all == seq![x] + s);
        assert forall|i: int, j: int| 0 <= i < j < all.len() implies !lt(#[trigger] all[j], #[trigger] all[i]) by {
            assert(all[j] == s[j - 1]);
            if i == 0 {
                if lt(s[j - 1], x) {
                    assert(lt(s[j - 1], s[0]));
                }
            } else {
                assert(all[i] == s[i - 1]);
            }
        }
    } else {
        let rest = s.skip(1);
        assert(in_order(rest, lt)) by {
            assert forall|i: int, j: int| 0 <= i < j < rest.len() implies !lt(#[trigger] rest[j], #[trigger] rest[i]) by {
                assert(rest[i] == s[i + 1]);
                assert(rest[j] == s[j + 1]);
            }
        }
        lemma_placed_in_order(rest, x, lt);
        let more = placed(rest, x, lt);
        assert(all == seq![s[0]] + more);
        assert forall|i: int, j: int| 0 <= i < j < all.len() implies !lt(#[trigger] all[j], #[trigger] all[i]) by {
            assert(all[j] == more[j - 1]);
            if i == 0 {
                lemma_placed_contains(rest, x, lt, all[j]);
                assert(more.contains(all[j]));
                if rest.contains(all[j]) {
                    let k = choose|k: int| 0 <= k < rest.len() && rest[k] == all[j];
                    assert(s[k + 1] == all[j]);
                }
            } else {
                assert(all[i] == more[i - 1]);
            }
        }
    }
}

/// A sorted list is in order.
pub proof fn lemma_sorted_in_order<A>(s: Seq<A>, lt: spec_fn(A, A) -> bool)
    requires
        total_order(lt),
    ensures
        in_order(sorted(s, lt), lt),
    decreases s.len(),
{
    if s.len() > 0 {
        lemma_sorted_in_order(s.drop_last(), lt);
        lemma_placed_in_order(sorted(s.drop_last(), lt), s.last(), lt);
    }
}

/// In a total order, a list in order is determined by what it holds.
pub proof fn lemma_order_is_unique<A>(s: Seq<A>, t: Seq<A>, lt: spec_fn(A, A) -> bool)
    requires
        total_order(lt),
        in_order(s, lt),
        in_order(t, lt),
        s.to_multiset() == t.to_multiset(),
    ensures
        s == t,
    decreases s.len(),
{
    broadcast use vstd::seq_lib::group_to_multiset_ensures;

    assert(s.len() == s.to_multiset().len());
    assert(t.len() == t.to_multiset().len());
    if s.len() == 0 {
        assert(s =~= t);
    } else {
        let (a, b) = (s.last(), t.last());
        assert(s.contains(a)) by {
            assert(s[s.len() - 1] == a);
        }
        assert(t.contains(b)) by {
            assert(t[t.len() - 1] == b);
        }
        assert(t.to_multiset().count(a) > 0);
        assert(s.to_multiset().count(b) > 0);
        let j = choose|j: int| 0 <= j < t.len() && t[j] == a;
        let i = choose|i: int| 0 <= i < s.len() && s[i] == b;
        assert(!lt(b, a)) by {
            if j < t.len() - 1 {
                assert(!lt(t[t.len() - 1], t[j]));
            }
        }
        assert(!lt(a, b)) by {
            if i < s.len() - 1 {
                assert(!lt(s[s.len() - 1], s[i]));
            }
        }
        assert(a == b);
        let (p, q) = (s.drop_last(), t.drop_last());
        assert(s =~= p.push(a));
        assert(t =~= q.push(b));
        assert(p.to_multiset() =~= s.to_multiset().remove(a));
        assert(q.to_multiset() =~= t.to_multiset().remove(a));
        lemma_order_is_unique(p, q, lt);
    }
}

/// Sorting by a total order does not depend on how the elements stood before.
pub proof fn law_sorting_forgets_the_order<A>(s: Seq<A>, t: Seq<A>, lt: spec_fn(A, A) -> bool)
    requires
        total_order(lt),
        s.to_multiset() == t.to_multiset(),
    ensures
        sorted(s, lt) == sorted(t, lt),
{
    lemma_sorted_in_order(s, lt);
    lemma_sorted_in_order(t, lt);
    lemma_sorted_multiset(s, lt);
    lemma_sorted_multiset(t, lt);
    lemma_order_is_unique(sorted(s, lt), sorted(t, lt), lt);
}

/// Putting an element in its place keeps a list strictly in order.
pub proof fn lemma_with_new_strictly<A>(s: Seq<A>, x: A, lt: spec_fn(A, A) -> bool)
    requires
        total_order(lt),
        strictly(s, lt),
    ensures
        strictly(with_new(s, x, lt), lt),
    decreases s.len(),
{
    let all = with_new(s, x, lt);
    if s.len() == 0 {
    } else if lt(s[0], x) {
        let rest = s.skip(1);
        assert(strictly(rest, lt)) by {
            assert forall|i: int, j: int| 0 <= i < j < rest.len() implies lt(#[trigger] rest[i], #[trigger] rest[j]) by {
                assert(rest[i] == s[i + 1]);
                assert(rest[j] == s[j + 1]);
            }
        }
        lemma_with_new_strictly(rest, x, lt);
        let more = with_new(rest, x, lt);
        assert(all == seq![s[0]] + more);
        assert forall|i: int, j: int| 0 <= i < j < all.len() implies lt(#[trigger] all[i], #[trigger] all[j]) by {
            assert(all[j] == more[j - 1]);
            if i == 0 {
                lemma_with_new_contains(rest, x, lt, all[j]);
                assert(more.contains(all[j]));
                if rest.contains(all[j]) {
                    let k = choose|k: int| 0 <= k < rest.len() && rest[k] == all[j];
                    assert(s[k + 1] == all[j]);
                }
            } else {
                assert(all[i] == more[i - 1]);
            }
        }
    } else if s[0] != x {
        assert(all == seq![x] + s);
        assert(lt(x, s[0]));
        assert forall|i: int, j: int| 0 <= i < j < all.len() implies lt(#[trigger] all[i], #[trigger] all[j]) by {
            assert(all[j] == s[j - 1]);
            if i == 0 {
                if j > 1 {
                    assert(lt(s[0], s[j - 1]));
                }
            } else {
                assert(all[i] == s[i - 1]);
            }
        }
    }
}

/// The distinct elements of a sequence are strictly in order.
pub proof fn lemma_distinct_strictly<A>(s: Seq<A>, lt: spec_fn(A, A) -> bool)
    requires
        total_order(lt),
    ensures
        strictly(distinct(s, lt), lt),
    decreases s.len(),
{
    if s.len() > 0 {
        lemma_distinct_strictly(s.drop_last(), lt);
        lemma_with_new_strictly(distinct(s.drop_last(), lt), s.last(), lt);
    }
}

/// A list strictly in order is determined by which elements it holds.
pub proof fn lemma_strict_is_unique<A>(s: Seq<A>, t: Seq<A>, lt: spec_fn(A, A) -> bool)
    requires
        asymmetric(lt),
        strictly(s, lt),
        strictly(t, lt),
        forall|x: A| s.contains(x) <==> t.contains(x),
    ensures
        s == t,
    decreases s.len(),
{
    if s.len() == 0 {
        if t.len() > 0 {
            assert(t.contains(t[0]));
        }
        assert(s =~= t);
    } else {
        assert(s.contains(s[0]));
        assert(t.len() > 0);
        let (a, b) = (s.last(), t.last());
        assert(s.contains(a)) by {
            assert(s[s.len() - 1] == a);
        }
        assert(t.contains(b)) by {
            assert(t[t.len() - 1] == b);
        }
        let j = choose|j: int| 0 <= j < t.len() && t[j] == a;
        let i = choose|i: int| 0 <= i < s.len() && s[i] == b;
        assert(a == b) by {
            if j < t.len() - 1 {
                assert(lt(t[j], t[t.len() - 1]));
                if i < s.len() - 1 {
                    assert(lt(s[i], s[s.len() - 1]));
                }
            }
        }
        let (p, q) = (s.drop_last(), t.drop_last());
        assert forall|x: A| p.contains(x) <==> q.contains(x) by {
            lemma_all_but_last(s, lt, x);
            lemma_all_but_last(t, lt, x);
        }
        assert(strictly(p, lt));
        assert(strictly(q, lt));
        lemma_strict_is_unique(p, q, lt);
        assert(s =~= p.push(a));
        assert(t =~= q.push(b));
    }
}

/// Without its last element, a list strictly in order holds the others.
proof fn lemma_all_but_last<A>(s: Seq<A>, lt: spec_fn(A, A) -> bool, x: A)
    requires
        asymmetric(lt),
        strictly(s, lt),
        s.len() > 0,
    ensures
        s.drop_last().contains(x) <==> s.contains(x) && x != s.last(),
{
    let p = s.drop_last();
    if p.contains(x) {
        let k = choose|k: int| 0 <= k < p.len() && p[k] == x;
        assert(s[k] == x);
        assert(lt(s[k], s[s.len() - 1]));
    }
    if s.contains(x) && x != s.last() {
        let k = choose|k: int| 0 <= k < s.len() && s[k] == x;
        assert(p[k] == x);
    }
}

/// A list that is sorted by a key has its keys sorted.
pub proof fn lemma_sorted_keys<A, B>(
    s: Seq<A>,
    key: spec_fn(A) -> B,
    by_key: spec_fn(A, A) -> bool,
    lt: spec_fn(B, B) -> bool,
)
    requires
        forall|a: A, b: A| #[trigger] by_key(a, b) == lt(key(a), key(b)),
    ensures
        sorted(s, by_key).map_values(key) == sorted(s.map_values(key), lt),
    decreases s.len(),
{
    if s.len() == 0 {
        assert(sorted(s, by_key).map_values(key) =~= Seq::empty());
    } else {
        let rest = s.drop_last();
        lemma_sorted_keys(rest, key, by_key, lt);
        assert(s.map_values(key).drop_last() =~= rest.map_values(key));
        lemma_placed_keys(sorted(rest, by_key), s.last(), key, by_key, lt);
    }
}

/// An element is placed as its key is.
proof fn lemma_placed_keys<A, B>(
    s: Seq<A>,
    x: A,
    key: spec_fn(A) -> B,
    by_key: spec_fn(A, A) -> bool,
    lt: spec_fn(B, B) -> bool,
)
    requires
        forall|a: A, b: A| #[trigger] by_key(a, b) == lt(key(a), key(b)),
    ensures
        placed(s, x, by_key).map_values(key) == placed(s.map_values(key), key(x), lt),
    decreases s.len(),
{
    let k = s.map_values(key);
    if s.len() == 0 {
        assert(seq![x].map_values(key) =~= seq![key(x)]);
    } else if by_key(x, s[0]) {
        assert((seq![x] + s).map_values(key) =~= seq![key(x)] + k);
    } else {
        let rest = s.skip(1);
        assert(k.skip(1) =~= rest.map_values(key));
        lemma_placed_keys(rest, x, key, by_key, lt);
        let more = placed(rest, x, by_key);
        assert((seq![s[0]] + more).map_values(key) =~= seq![k[0]] + more.map_values(key));
    }
}

/// A list sorted by distinct keys stands strictly in order.
proof fn lemma_sorted_strictly<A, B>(
    s: Seq<A>,
    key: spec_fn(A) -> B,
    by_key: spec_fn(A, A) -> bool,
    lt: spec_fn(B, B) -> bool,
)
    requires
        total_order(lt),
        forall|a: A, b: A| #[trigger] by_key(a, b) == lt(key(a), key(b)),
        s.map_values(key).no_duplicates(),
    ensures
        strictly(sorted(s, by_key), by_key),
{
    let k = s.map_values(key);
    let t = sorted(k, lt);
    lemma_sorted_keys(s, key, by_key, lt);
    lemma_sorted_in_order(k, lt);
    lemma_sorted_multiset(k, lt);
    k.lemma_multiset_has_no_duplicates();
    t.lemma_multiset_has_no_duplicates_conv();
    let o = sorted(s, by_key);
    assert forall|i: int, j: int| 0 <= i < j < o.len() implies by_key(#[trigger] o[i], #[trigger] o[j]) by {
        assert(t[i] == key(o[i]));
        assert(t[j] == key(o[j]));
    }
}

/// Elements with distinct keys have one order, however they come.
pub proof fn lemma_sorted_by_distinct_keys<A, B>(
    s: Seq<A>,
    t: Seq<A>,
    key: spec_fn(A) -> B,
    by_key: spec_fn(A, A) -> bool,
    lt: spec_fn(B, B) -> bool,
)
    requires
        total_order(lt),
        forall|a: A, b: A| #[trigger] by_key(a, b) == lt(key(a), key(b)),
        s.to_multiset() == t.to_multiset(),
        s.map_values(key).no_duplicates(),
    ensures
        sorted(s, by_key) == sorted(t, by_key),
{
    broadcast use vstd::seq_lib::group_to_multiset_ensures;

    lemma_map_is_gather(s, key);
    lemma_map_is_gather(t, key);
    lemma_gather_multiset(s, t, |x: A| seq![key(x)]);
    s.map_values(key).lemma_multiset_has_no_duplicates();
    t.map_values(key).lemma_multiset_has_no_duplicates_conv();
    lemma_sorted_strictly(s, key, by_key, lt);
    lemma_sorted_strictly(t, key, by_key, lt);
    lemma_sorted_multiset(s, by_key);
    lemma_sorted_multiset(t, by_key);
    let (a, b) = (sorted(s, by_key), sorted(t, by_key));
    assert forall|x: A| a.contains(x) <==> b.contains(x) by {
        assert(a.to_multiset().contains(x) <==> b.to_multiset().contains(x));
    }
    assert(asymmetric(by_key));
    lemma_strict_is_unique(a, b, by_key);
}

/// Texts are totally ordered.
pub proof fn lemma_text_order()
    ensures
        total_order(text_order()),
{
    let lt = text_order();
    assert forall|a: Seq<char>, b: Seq<char>| #[trigger] lt(a, b) implies !lt(b, a) by {
        text::lemma_str_trichotomy(a, b);
    }
    assert forall|a: Seq<char>, b: Seq<char>| !(#[trigger] lt(a, b)) && !lt(b, a) implies a == b by {
        text::lemma_str_trichotomy(a, b);
    }
    assert forall|a: Seq<char>, b: Seq<char>, c: Seq<char>| #[trigger] lt(a, b) && #[trigger] lt(b, c) implies lt(a, c) by {
        text::lemma_str_transitive(a, b, c);
    }
}

} // verus!
