//! The canonical order of a dataset: its episodes by index, and the streams of each by name.

use vstd::prelude::*;

use crate::cdm::{Dataset, Episode, Stream};
use crate::seqs;
use crate::text;
use crate::text::before;

verus! {

/// Something that has a place among its kind.
pub trait Arranged: Sized {
    /// Whether one comes before another.
    spec fn ahead(a: Self, b: Self) -> bool;

    /// Of two, at most one comes before the other.
    proof fn one_way(a: Self, b: Self)
        ensures
            Self::ahead(a, b) ==> !Self::ahead(b, a),
    ;

    /// What comes before neither of two in a row comes before none of them.
    proof fn chain(a: Self, b: Self, c: Self)
        requires
            !Self::ahead(a, b),
            !Self::ahead(b, c),
        ensures
            !Self::ahead(a, c),
    ;

    /// Whether this comes before another.
    fn is_ahead(&self, other: &Self) -> (r: bool)
        ensures
            r == Self::ahead(*self, *other),
    ;
}

/// The order of a kind of things.
pub open spec fn arranged_order<T: Arranged>() -> spec_fn(T, T) -> bool {
    |a: T, b: T| T::ahead(a, b)
}

/// Things in their order; those that share a place as they come.
pub open spec fn arranged<T: Arranged>(s: Seq<T>) -> Seq<T> {
    seqs::sorted(s, arranged_order::<T>())
}

impl Arranged for Episode {
    open spec fn ahead(a: Episode, b: Episode) -> bool {
        a.index < b.index
    }

    proof fn one_way(a: Episode, b: Episode) {
    }

    proof fn chain(a: Episode, b: Episode, c: Episode) {
    }

    fn is_ahead(&self, other: &Episode) -> (r: bool) {
        self.index < other.index
    }
}

impl Arranged for Stream {
    open spec fn ahead(a: Stream, b: Stream) -> bool {
        text::str_lt(a.name@, b.name@)
    }

    proof fn one_way(a: Stream, b: Stream) {
        text::lemma_str_trichotomy(a.name@, b.name@);
    }

    proof fn chain(a: Stream, b: Stream, c: Stream) {
        text::lemma_str_trichotomy(a.name@, b.name@);
        text::lemma_str_trichotomy(b.name@, c.name@);
        if text::str_lt(a.name@, c.name@) {
            if a.name@ != b.name@ {
                text::lemma_str_transitive(b.name@, a.name@, c.name@);
            }
        }
    }

    fn is_ahead(&self, other: &Stream) -> (r: bool) {
        before(self.name.as_str(), other.name.as_str())
    }
}

/// A list from its end to its beginning.
fn reversed<T>(list: Vec<T>) -> (r: Vec<T>)
    ensures
        r@ == list@.reverse(),
{
    let ghost all = list@;
    let mut rest: Vec<T> = list;
    let mut out: Vec<T> = Vec::new();
    while rest.len() > 0
        invariant
            rest@.len() + out@.len() == all.len(),
            rest@ == all.take(rest@.len() as int),
            forall|k: int| 0 <= k < out@.len() ==> #[trigger] out@[k] == all[all.len() - 1 - k],
        decreases rest@.len(),
    {
        let ghost was = rest@;
        if let Some(x) = rest.pop() {
            assert(was.last() == all[was.len() - 1]);
            assert(rest@ =~= all.take(rest@.len() as int));
            out.push(x);
        }
    }
    assert(out@ =~= all.reverse());
    out
}

/// Puts a thing in its place, after those that share it.
fn settle<T: Arranged>(list: &mut Vec<T>, x: T)
    requires
        seqs::in_order(old(list)@, arranged_order::<T>()),
    ensures
        final(list)@ == seqs::placed(old(list)@, x, arranged_order::<T>()),
        seqs::in_order(final(list)@, arranged_order::<T>()),
{
    let ghost s = list@;
    let ghost lt = arranged_order::<T>();
    let mut k: usize = list.len();
    while k > 0 && x.is_ahead(&list[k - 1])
        invariant
            k <= list@.len(),
            list@ == s,
            forall|j: int| k <= j < s.len() ==> T::ahead(x, #[trigger] s[j]),
        decreases k,
    {
        k = k - 1;
    }
    proof {
        assert forall|j: int| 0 <= j < k implies !lt(x, #[trigger] s[j]) by {
            if j < k - 1 {
                assert(!lt(s[k - 1], s[j]));
                T::chain(x, s[k - 1], s[j]);
            }
        }
        if k < s.len() {
            assert(T::ahead(x, s[k as int]));
        }
        seqs::lemma_placed_at(s, x, lt, k as int);
        let now = s.insert(k as int, x);
        assert forall|i: int, j: int| 0 <= i < j < now.len() implies !lt(#[trigger] now[j], #[trigger] now[i]) by {
            if j == k {
                assert(now[i] == s[i]);
            } else if i == k {
                assert(now[j] == s[j - 1]);
                T::one_way(x, s[j - 1]);
            } else {
                let (p, q) = (if i < k { i } else { i - 1 }, if j < k { j } else { j - 1 });
                assert(now[i] == s[p] && now[j] == s[q]);
            }
        }
    }
    list.insert(k, x);
}

/// Puts things in their order.
fn arrange<T: Arranged>(list: Vec<T>) -> (r: Vec<T>)
    ensures
        r@ == arranged(list@),
{
    let ghost all = list@;
    let ghost lt = arranged_order::<T>();
    let mut rest: Vec<T> = reversed(list);
    let mut out: Vec<T> = Vec::new();
    let ghost mut done: int = 0;
    assert(all.take(0) =~= Seq::empty());
    while rest.len() > 0
        invariant
            0 <= done <= all.len(),
            done + rest@.len() == all.len(),
            rest@ == all.reverse().take(rest@.len() as int),
            lt == arranged_order::<T>(),
            out@ == seqs::sorted(all.take(done), lt),
            seqs::in_order(out@, lt),
        decreases rest@.len(),
    {
        let ghost was = rest@;
        if let Some(x) = rest.pop() {
            proof {
                assert(was.last() == all.reverse()[was.len() - 1]);
                assert(x == all[done]);
                assert(rest@ =~= all.reverse().take(rest@.len() as int));
                seqs::lemma_sorted_step(all, lt, done);
            }
            settle(&mut out, x);
            proof {
                done = done + 1;
            }
        }
    }
    assert(all.take(done) =~= all);
    out
}

/// Whether an episode is another with its streams in order.
pub open spec fn is_arranged_episode(after: Episode, before: Episode) -> bool {
    &&& after == (Episode { streams: after.streams, ..before })
    &&& after.streams@ == arranged(before.streams@)
}

/// Whether a dataset is another in canonical order.
pub open spec fn is_arranged(after: Dataset, before: Dataset) -> bool {
    let episodes = arranged(before.episodes@);
    &&& after == (Dataset { episodes: after.episodes, ..before })
    &&& after.episodes@.len() == episodes.len()
    &&& forall|i: int| 0 <= i < episodes.len() ==> is_arranged_episode(#[trigger] after.episodes@[i], episodes[i])
}

/// Puts the streams of episodes in order.
fn arrange_streams(list: Vec<Episode>) -> (r: Vec<Episode>)
    ensures
        r@.len() == list@.len(),
        forall|i: int| 0 <= i < list@.len() ==> is_arranged_episode(#[trigger] r@[i], list@[i]),
{
    let ghost all = list@;
    let mut rest: Vec<Episode> = reversed(list);
    let mut out: Vec<Episode> = Vec::new();
    while rest.len() > 0
        invariant
            out@.len() + rest@.len() == all.len(),
            rest@ == all.reverse().take(rest@.len() as int),
            forall|i: int| 0 <= i < out@.len() ==> is_arranged_episode(#[trigger] out@[i], all[i]),
        decreases rest@.len(),
    {
        let ghost was = rest@;
        if let Some(e) = rest.pop() {
            let ghost before = e;
            proof {
                assert(was.last() == all.reverse()[was.len() - 1]);
                assert(e == all[out@.len() as int]);
                assert(rest@ =~= all.reverse().take(rest@.len() as int));
            }
            let after: Episode = Episode {
                index: e.index,
                start_ts: e.start_ts,
                end_ts: e.end_ts,
                streams: arrange(e.streams),
                task: e.task,
                labels: e.labels,
                ego_poses: e.ego_poses,
                declared_frame_count: e.declared_frame_count,
                duration_ns: e.duration_ns,
            };
            assert(is_arranged_episode(after, before));
            out.push(after);
        }
    }
    out
}

impl Dataset {
    /// The dataset with its episodes and streams in canonical order, so that what is found in it does
    /// not depend on the order in which a source lists them.
    pub fn canonicalize_order(self) -> (r: Dataset)
        ensures
            is_arranged(r, self),
    {
        Dataset {
            id: self.id,
            calibration: self.calibration,
            metadata: self.metadata,
            provenance: self.provenance,
            episodes: arrange_streams(arrange(self.episodes)),
        }
    }
}

} // verus!
