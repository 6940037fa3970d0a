//! What is found in the report of a walk over a dataset.

use vstd::prelude::*;

use crate::cdm::{Episode, Stream};
use crate::check::{FindingView, LocationView};
use crate::checks::walk;
use crate::checks::walk::{EpisodeRule, KeyedRule, StreamRule};
use crate::seqs;

verus! {

/// What two lists hold together.
pub proof fn lemma_both<A>(a: Seq<A>, b: Seq<A>, x: A)
    ensures
        (a + b).contains(x) <==> a.contains(x) || b.contains(x),
{
    let s = a + b;
    if a.contains(x) {
        let k = choose|k: int| 0 <= k < a.len() && a[k] == x;
        assert(s[k] == x);
    }
    if b.contains(x) {
        let k = choose|k: int| 0 <= k < b.len() && b[k] == x;
        assert(s[a.len() + k] == x);
    }
    if s.contains(x) {
        let k = choose|k: int| 0 <= k < s.len() && s[k] == x;
        if k < a.len() {
            assert(a[k] == x);
        } else {
            assert(b[k - a.len()] == x);
        }
    }
}

/// What a list with one element more holds.
pub proof fn lemma_one_more<A>(a: Seq<A>, y: A, x: A)
    ensures
        a.push(y).contains(x) <==> a.contains(x) || x == y,
{
    assert(a.push(y) =~= a + seq![y]);
    assert(seq![y][0] == y);
    lemma_both(a, seq![y], x);
}

/// What a list of one element holds.
pub proof fn lemma_only<A>(y: A, x: A)
    ensures
        seq![y].contains(x) <==> x == y,
{
    assert(seq![y][0] == y);
}

/// What one element gives.
pub proof fn lemma_gather_one<A, B>(x: A, f: spec_fn(A) -> Seq<B>)
    ensures
        seqs::gather(seq![x], f) == f(x),
{
    let one = seq![x];
    assert(one.drop_last() =~= Seq::empty());
    assert(seqs::gather(one.drop_last(), f) =~= Seq::empty());
    assert(seqs::gather(one, f) =~= f(x));
}

/// What is gathered of the elements up to a place is no more than what is gathered up to a later one.
pub proof fn lemma_gather_grows<A, B>(s: Seq<A>, f: spec_fn(A) -> Seq<B>, x: int, y: int)
    requires
        0 <= x <= y <= s.len(),
    ensures
        seqs::gather(s.take(x), f).len() <= seqs::gather(s.take(y), f).len(),
        x < y ==> seqs::gather(s.take(x), f).len() + f(s[x]).len() <= seqs::gather(s.take(y), f).len(),
    decreases y - x,
{
    if x < y {
        lemma_gather_grows(s, f, x, y - 1);
        assert(s.take(y).drop_last() =~= s.take(y - 1));
        assert(s.take(y).last() == s[y - 1]);
    }
}

/// Where what an element gives stands among what is gathered.
pub proof fn lemma_gather_at<A, B>(s: Seq<A>, f: spec_fn(A) -> Seq<B>, x: int)
    requires
        0 <= x < s.len(),
        f(s[x]).len() == 1,
    ensures
        seqs::gather(s.take(x), f).len() < seqs::gather(s, f).len(),
        seqs::gather(s, f)[seqs::gather(s.take(x), f).len() as int] == f(s[x])[0],
{
    let (a, b, c) = (s.take(x), seq![s[x]], s.skip(x + 1));
    assert(s =~= a + b + c);
    seqs::lemma_gather_split(a + b, c, f);
    seqs::lemma_gather_split(a, b, f);
    lemma_gather_one(s[x], f);
}

/// Which element gave what stands at a place among what is gathered, where each gives at most one.
pub proof fn lemma_gather_from<A, B>(s: Seq<A>, f: spec_fn(A) -> Seq<B>, p: int) -> (x: int)
    requires
        0 <= p < seqs::gather(s, f).len(),
        forall|a: A| (#[trigger] f(a)).len() <= 1,
    ensures
        0 <= x < s.len(),
        f(s[x]).len() == 1,
        seqs::gather(s.take(x), f).len() == p,
        seqs::gather(s, f)[p] == f(s[x])[0],
    decreases s.len(),
{
    let rest = s.drop_last();
    let old = seqs::gather(rest, f);
    let n = s.len() - 1;
    if p < old.len() {
        let x = lemma_gather_from(rest, f, p);
        assert(rest.take(x) =~= s.take(x));
        assert(rest[x] == s[x]);
        x
    } else {
        assert(s.take(n) =~= rest);
        assert(f(s.last()).len() <= 1);
        n
    }
}

/// A rule's report holds what it reports of some episode.
pub proof fn lemma_by_episode<R: EpisodeRule>(rule: R, s: Seq<Episode>, f: FindingView)
    ensures
        walk::by_episode(rule, s).contains(f) <==> exists|i: int|
            0 <= i < s.len() && rule.of_episode(#[trigger] s[i]).contains(f),
    decreases s.len(),
{
    if s.len() > 0 {
        let rest = s.drop_last();
        lemma_by_episode(rule, rest, f);
        lemma_both(walk::by_episode(rule, rest), rule.of_episode(s.last()), f);
        if walk::by_episode(rule, rest).contains(f) {
            let i = choose|i: int| 0 <= i < rest.len() && rule.of_episode(#[trigger] rest[i]).contains(f);
            assert(rule.of_episode(s[i]).contains(f));
        }
        if rule.of_episode(s.last()).contains(f) {
            assert(rule.of_episode(s[s.len() - 1]).contains(f));
        }
        if exists|i: int| 0 <= i < s.len() && rule.of_episode(#[trigger] s[i]).contains(f) {
            let i = choose|i: int| 0 <= i < s.len() && rule.of_episode(#[trigger] s[i]).contains(f);
            if i < rest.len() {
                assert(rule.of_episode(rest[i]).contains(f));
            }
        }
    }
}

/// A rule's report on an episode holds what it reports of some stream.
pub proof fn lemma_by_stream<R: StreamRule>(rule: R, episode: Episode, s: Seq<Stream>, f: FindingView)
    ensures
        walk::by_stream(rule, episode, s).contains(f) <==> exists|j: int|
            0 <= j < s.len() && rule.of_stream(episode, #[trigger] s[j]).contains(f),
    decreases s.len(),
{
    if s.len() > 0 {
        let rest = s.drop_last();
        lemma_by_stream(rule, episode, rest, f);
        lemma_both(walk::by_stream(rule, episode, rest), rule.of_stream(episode, s.last()), f);
        if walk::by_stream(rule, episode, rest).contains(f) {
            let i = choose|i: int| 0 <= i < rest.len() && rule.of_stream(episode, #[trigger] rest[i]).contains(f);
            assert(rule.of_stream(episode, s[i]).contains(f));
        }
        if rule.of_stream(episode, s.last()).contains(f) {
            assert(rule.of_stream(episode, s[s.len() - 1]).contains(f));
        }
        if exists|i: int| 0 <= i < s.len() && rule.of_stream(episode, #[trigger] s[i]).contains(f) {
            let i = choose|i: int| 0 <= i < s.len() && rule.of_stream(episode, #[trigger] s[i]).contains(f);
            if i < rest.len() {
                assert(rule.of_stream(episode, rest[i]).contains(f));
            }
        }
    }
}

/// A rule's report holds what it reports of some stream of some episode.
#[verifier::rlimit(40)]
pub proof fn lemma_by_streams<R: StreamRule>(rule: R, s: Seq<Episode>, f: FindingView)
    ensures
        walk::by_streams(rule, s).contains(f) <==> exists|i: int, j: int|
            0 <= i < s.len() && 0 <= j < s[i].streams@.len() && rule.of_stream(s[i], #[trigger] s[i].streams@[j]).contains(f),
    decreases s.len(),
{
    if s.len() > 0 {
        let rest = s.drop_last();
        let e = s.last();
        lemma_by_streams(rule, rest, f);
        lemma_by_stream(rule, e, e.streams@, f);
        lemma_both(walk::by_streams(rule, rest), walk::by_stream(rule, e, e.streams@), f);
        if walk::by_streams(rule, rest).contains(f) {
            let (i, j) = choose|i: int, j: int|
                0 <= i < rest.len() && 0 <= j < rest[i].streams@.len() && rule.of_stream(
                    rest[i],
                    #[trigger] rest[i].streams@[j],
                ).contains(f);
            assert(rule.of_stream(s[i], s[i].streams@[j]).contains(f));
        }
        if walk::by_stream(rule, e, e.streams@).contains(f) {
            let j = choose|j: int| 0 <= j < e.streams@.len() && rule.of_stream(e, #[trigger] e.streams@[j]).contains(f);
            let i = s.len() - 1;
            assert(rule.of_stream(s[i], s[i].streams@[j]).contains(f));
        }
        if exists|i: int, j: int|
            0 <= i < s.len() && 0 <= j < s[i].streams@.len() && rule.of_stream(s[i], #[trigger] s[i].streams@[j]).contains(f) {
            let (i, j) = choose|i: int, j: int|
                0 <= i < s.len() && 0 <= j < s[i].streams@.len() && rule.of_stream(s[i], #[trigger] s[i].streams@[j]).contains(
                    f,
                );
            if i < rest.len() {
                assert(rule.of_stream(rest[i], rest[i].streams@[j]).contains(f));
            }
        }
    }
}

/// The streams of all episodes are those of each.
#[verifier::rlimit(40)]
pub proof fn lemma_pairs(s: Seq<Episode>, p: (Episode, Stream))
    ensures
        walk::pairs(s).contains(p) <==> exists|i: int, j: int|
            0 <= i < s.len() && 0 <= j < s[i].streams@.len() && p == (s[i], #[trigger] s[i].streams@[j]),
    decreases s.len(),
{
    if s.len() > 0 {
        let rest = s.drop_last();
        let e = s.last();
        let here = walk::pairs_in(e, e.streams@);
        lemma_pairs(rest, p);
        lemma_both(walk::pairs(rest), here, p);
        if walk::pairs(rest).contains(p) {
            let (i, j) = choose|i: int, j: int|
                0 <= i < rest.len() && 0 <= j < rest[i].streams@.len() && p == (rest[i], #[trigger] rest[i].streams@[j]);
            assert(p == (s[i], s[i].streams@[j]));
        }
        if here.contains(p) {
            let j = choose|j: int| 0 <= j < here.len() && here[j] == p;
            let i = s.len() - 1;
            assert(p == (s[i], s[i].streams@[j]));
        }
        if exists|i: int, j: int|
            0 <= i < s.len() && 0 <= j < s[i].streams@.len() && p == (s[i], #[trigger] s[i].streams@[j]) {
            let (i, j) = choose|i: int, j: int|
                0 <= i < s.len() && 0 <= j < s[i].streams@.len() && p == (s[i], #[trigger] s[i].streams@[j]);
            if i < rest.len() {
                assert(p == (rest[i], rest[i].streams@[j]));
            } else {
                assert(here[j] == p);
            }
        }
    }
}

/// Whether some stream shows a defect under a key.
pub open spec fn shows<R: KeyedRule>(rule: R, s: Seq<(Episode, Stream)>, key: Seq<Seq<char>>, f: FindingView) -> bool {
    exists|k: int| 0 <= k < s.len() && rule.hit((#[trigger] s[k]).0, s[k].1) == Some((key, f))
}

/// What is shown among the first is shown.
proof fn lemma_shows_more<R: KeyedRule>(rule: R, s: Seq<(Episode, Stream)>, key: Seq<Seq<char>>, f: FindingView)
    requires
        s.len() > 0,
        shows(rule, s.drop_last(), key, f),
    ensures
        shows(rule, s, key, f),
{
    let rest = s.drop_last();
    let k = choose|k: int| 0 <= k < rest.len() && rule.hit((#[trigger] rest[k]).0, rest[k].1) == Some((key, f));
    assert(rule.hit(s[k].0, s[k].1) == Some((key, f)));
}

/// What is reported is a defect of some stream.
pub proof fn lemma_hits_are_shown<R: KeyedRule>(rule: R, s: Seq<(Episode, Stream)>, f: FindingView)
    requires
        walk::first_hits(rule, s).contains(f),
    ensures
        exists|key: Seq<Seq<char>>| shows(rule, s, key, f),
    decreases s.len(),
{
    if s.len() > 0 {
        let rest = s.drop_last();
        let old = walk::first_hits(rule, rest);
        if old.contains(f) {
            lemma_hits_are_shown(rule, rest, f);
            let key = choose|key: Seq<Seq<char>>| shows(rule, rest, key, f);
            lemma_shows_more(rule, s, key, f);
        } else {
            let (key, g) = rule.hit(s.last().0, s.last().1)->0;
            lemma_one_more(old, g, f);
            let n = s.len() - 1;
            assert(rule.hit(s[n].0, s[n].1) == Some((key, f)));
            assert(shows(rule, s, key, f));
        }
    }
}

/// The defect reported under a key.
proof fn lemma_keys<R: KeyedRule>(rule: R, s: Seq<(Episode, Stream)>, key: Seq<Seq<char>>) -> (f: FindingView)
    requires
        walk::hit_keys(rule, s).contains(key),
    ensures
        shows(rule, s, key, f),
        walk::first_hits(rule, s).contains(f),
    decreases s.len(),
{
    let rest = s.drop_last();
    let old = walk::first_hits(rule, rest);
    if walk::hit_keys(rule, rest).contains(key) {
        let f = lemma_keys(rule, rest, key);
        lemma_shows_more(rule, s, key, f);
        if let Some((_, g)) = rule.hit(s.last().0, s.last().1) {
            lemma_one_more(old, g, f);
        }
        f
    } else {
        let (k, g) = rule.hit(s.last().0, s.last().1)->0;
        lemma_one_more(old, g, g);
        let n = s.len() - 1;
        assert(rule.hit(s[n].0, s[n].1) == Some((key, g)));
        g
    }
}

/// Each key under which a defect is shown is known.
proof fn lemma_keys_are_known<R: KeyedRule>(rule: R, s: Seq<(Episode, Stream)>, k: int)
    requires
        0 <= k < s.len(),
        rule.hit(s[k].0, s[k].1) is Some,
    ensures
        walk::hit_keys(rule, s).contains((rule.hit(s[k].0, s[k].1)->0).0),
    decreases s.len(),
{
    if k < s.len() - 1 {
        assert(s.drop_last()[k] == s[k]);
        lemma_keys_are_known(rule, s.drop_last(), k);
    }
}

/// Each stream with a defect has one reported under its key.
pub proof fn lemma_shown_are_hit<R: KeyedRule>(rule: R, s: Seq<(Episode, Stream)>, k: int) -> (f: FindingView)
    requires
        0 <= k < s.len(),
        rule.hit(s[k].0, s[k].1) is Some,
    ensures
        shows(rule, s, (rule.hit(s[k].0, s[k].1)->0).0, f),
        walk::first_hits(rule, s).contains(f),
{
    lemma_keys_are_known(rule, s, k);
    lemma_keys(rule, s, (rule.hit(s[k].0, s[k].1)->0).0)
}

/// Whether a rule reports defects of streams as a code, under the stream's name.
pub open spec fn is_by_name<R: KeyedRule>(rule: R, code: Seq<char>) -> bool {
    forall|e: Episode, s: Stream|
        (#[trigger] rule.hit(e, s)) matches Some((key, f)) ==> key.len() > 0 && key[0] == s.name@ && f.code == code
            && f.location == (LocationView::Stream { episode: e.index, stream: s.name@ })
}

/// A rule that reports by name reports the streams of a name exactly where one of them is defective.
#[verifier::rlimit(40)]
pub proof fn lemma_by_name<R: KeyedRule>(rule: R, eps: Seq<Episode>, code: Seq<char>, name: Seq<char>)
    requires
        is_by_name(rule, code),
    ensures
        finds_named(walk::first_hits(rule, walk::pairs(eps)), code, name) <==> exists|i: int, j: int|
            0 <= i < eps.len() && 0 <= j < eps[i].streams@.len() && (#[trigger] eps[i].streams@[j]).name@ == name
                && rule.hit(eps[i], eps[i].streams@[j]) is Some,
{
    let s = walk::pairs(eps);
    let report = walk::first_hits(rule, s);
    if finds_named(report, code, name) {
        let k = choose|k: int|
            0 <= k < report.len() && (#[trigger] report[k]).code == code && (report[k].location
                matches LocationView::Stream { stream, .. } && stream == name);
        lemma_hits_are_shown(rule, s, report[k]);
        let key = choose|key: Seq<Seq<char>>| shows(rule, s, key, report[k]);
        let p = choose|p: int| 0 <= p < s.len() && rule.hit((#[trigger] s[p]).0, s[p].1) == Some((key, report[k]));
        lemma_pairs(eps, s[p]);
        assert(s.contains(s[p]));
        let (i, j) = choose|i: int, j: int|
            0 <= i < eps.len() && 0 <= j < eps[i].streams@.len() && s[p] == (eps[i], #[trigger] eps[i].streams@[j]);
        assert(rule.hit(eps[i], eps[i].streams@[j]) is Some);
        assert(eps[i].streams@[j].name@ == name);
    }
    if exists|i: int, j: int|
        0 <= i < eps.len() && 0 <= j < eps[i].streams@.len() && (#[trigger] eps[i].streams@[j]).name@ == name && rule.hit(
            eps[i],
            eps[i].streams@[j],
        ) is Some {
        let (i, j) = choose|i: int, j: int|
            0 <= i < eps.len() && 0 <= j < eps[i].streams@.len() && (#[trigger] eps[i].streams@[j]).name@ == name
                && rule.hit(eps[i], eps[i].streams@[j]) is Some;
        let p = (eps[i], eps[i].streams@[j]);
        lemma_pairs(eps, p);
        let k = choose|k: int| 0 <= k < s.len() && s[k] == p;
        let key = (rule.hit(s[k].0, s[k].1)->0).0;
        let g = lemma_shown_are_hit(rule, s, k);
        let q = choose|q: int| 0 <= q < s.len() && rule.hit((#[trigger] s[q]).0, s[q].1) == Some((key, g));
        assert(rule.hit(s[q].0, s[q].1) is Some);
        let m = choose|m: int| 0 <= m < report.len() && report[m] == g;
        assert(report[m].code == code);
    }
}

/// What the key of a defect decides of it is reported of exactly where it holds of a defect.
#[verifier::rlimit(40)]
pub proof fn lemma_keyed<R: KeyedRule>(rule: R, eps: Seq<Episode>, q: spec_fn(FindingView) -> bool)
    requires
        forall|a: Episode, s: Stream, b: Episode, t: Stream|
            (#[trigger] rule.hit(a, s) is Some && #[trigger] rule.hit(b, t) is Some && (rule.hit(a, s)->0).0 == (rule.hit(
                b,
                t,
            )->0).0) ==> q((rule.hit(a, s)->0).1) == q((rule.hit(b, t)->0).1),
    ensures
        (exists|f: FindingView| #[trigger] walk::first_hits(rule, walk::pairs(eps)).contains(f) && q(f)) <==> exists|
            i: int,
            j: int,
        |
            0 <= i < eps.len() && 0 <= j < eps[i].streams@.len() && (rule.hit(eps[i], #[trigger] eps[i].streams@[j]) matches Some(
                h,
            ) && q(h.1)),
{
    let s = walk::pairs(eps);
    let report = walk::first_hits(rule, s);
    if exists|f: FindingView| #[trigger] report.contains(f) && q(f) {
        let f = choose|f: FindingView| #[trigger] report.contains(f) && q(f);
        lemma_hits_are_shown(rule, s, f);
        let key = choose|key: Seq<Seq<char>>| shows(rule, s, key, f);
        let p = choose|p: int| 0 <= p < s.len() && rule.hit((#[trigger] s[p]).0, s[p].1) == Some((key, f));
        lemma_pairs(eps, s[p]);
        assert(s.contains(s[p]));
        let (i, j) = choose|i: int, j: int|
            0 <= i < eps.len() && 0 <= j < eps[i].streams@.len() && s[p] == (eps[i], #[trigger] eps[i].streams@[j]);
        assert(rule.hit(eps[i], eps[i].streams@[j]) == Some((key, f)));
    }
    if exists|i: int, j: int|
        0 <= i < eps.len() && 0 <= j < eps[i].streams@.len() && (rule.hit(eps[i], #[trigger] eps[i].streams@[j]) matches Some(h)
            && q(h.1)) {
        let (i, j) = choose|i: int, j: int|
            0 <= i < eps.len() && 0 <= j < eps[i].streams@.len() && (rule.hit(eps[i], #[trigger] eps[i].streams@[j]) matches Some(
                h,
            ) && q(h.1));
        let p = (eps[i], eps[i].streams@[j]);
        lemma_pairs(eps, p);
        let k = choose|k: int| 0 <= k < s.len() && s[k] == p;
        let key = (rule.hit(s[k].0, s[k].1)->0).0;
        let g = lemma_shown_are_hit(rule, s, k);
        let m = choose|m: int| 0 <= m < s.len() && rule.hit((#[trigger] s[m]).0, s[m].1) == Some((key, g));
        assert(rule.hit(s[m].0, s[m].1) is Some);
        assert(q(g));
        assert(report.contains(g));
    }
}

/// Whether a stream of a name is of a kind.
pub open spec fn some_stream(eps: Seq<Episode>, name: Seq<char>, p: spec_fn(Stream) -> bool) -> bool {
    exists|i: int, j: int|
        0 <= i < eps.len() && 0 <= j < eps[i].streams@.len() && (#[trigger] eps[i].streams@[j]).name@ == name && p(
            eps[i].streams@[j],
        )
}

/// A rule that reports by name, and finds a defect in the streams of a kind, reports a name exactly
/// where a stream of that kind has it.
pub proof fn lemma_named_where<R: KeyedRule>(
    rule: R,
    eps: Seq<Episode>,
    code: Seq<char>,
    name: Seq<char>,
    p: spec_fn(Stream) -> bool,
)
    requires
        is_by_name(rule, code),
        forall|e: Episode, s: Stream| (#[trigger] rule.hit(e, s)) is Some <==> p(s),
    ensures
        finds_named(walk::first_hits(rule, walk::pairs(eps)), code, name) <==> some_stream(eps, name, p),
{
    lemma_by_name(rule, eps, code, name);
    if some_stream(eps, name, p) {
        let (i, j) = choose|i: int, j: int|
            0 <= i < eps.len() && 0 <= j < eps[i].streams@.len() && (#[trigger] eps[i].streams@[j]).name@ == name && p(
                eps[i].streams@[j],
            );
        assert(rule.hit(eps[i], eps[i].streams@[j]) is Some);
    }
}

/// Whether a report holds a finding of a code at a place.
pub open spec fn finds(report: Seq<FindingView>, code: Seq<char>, at: LocationView) -> bool {
    exists|k: int| 0 <= k < report.len() && (#[trigger] report[k]).code == code && report[k].location == at
}

/// Whether a report holds a finding of a code.
pub open spec fn finds_any(report: Seq<FindingView>, code: Seq<char>) -> bool {
    exists|k: int| 0 <= k < report.len() && (#[trigger] report[k]).code == code
}

/// Whether a report holds a finding of a code about streams of a name.
pub open spec fn finds_named(report: Seq<FindingView>, code: Seq<char>, name: Seq<char>) -> bool {
    exists|k: int|
        0 <= k < report.len() && (#[trigger] report[k]).code == code && (report[k].location matches LocationView::Stream {
            stream,
            ..
        } && stream == name)
}

/// A finding that a report holds.
pub proof fn lemma_held(report: Seq<FindingView>, f: FindingView)
    requires
        report.contains(f),
    ensures
        finds(report, f.code, f.location),
        finds_any(report, f.code),
{
    let k = choose|k: int| 0 <= k < report.len() && report[k] == f;
    assert(report[k].code == f.code);
}

/// The finding that a report holds of a code at a place.
pub proof fn lemma_holder(report: Seq<FindingView>, code: Seq<char>, at: LocationView) -> (f: FindingView)
    requires
        finds(report, code, at),
    ensures
        report.contains(f),
        f.code == code,
        f.location == at,
{
    let k = choose|k: int| 0 <= k < report.len() && (#[trigger] report[k]).code == code && report[k].location == at;
    report[k]
}

/// Two reports find together what one of them finds.
pub proof fn lemma_finds_both(a: Seq<FindingView>, b: Seq<FindingView>, code: Seq<char>, at: LocationView)
    ensures
        finds(a + b, code, at) <==> finds(a, code, at) || finds(b, code, at),
{
    if finds(a + b, code, at) {
        let f = lemma_holder(a + b, code, at);
        lemma_both(a, b, f);
        if a.contains(f) {
            lemma_held(a, f);
        } else {
            lemma_held(b, f);
        }
    }
    if finds(a, code, at) {
        let f = lemma_holder(a, code, at);
        lemma_both(a, b, f);
        lemma_held(a + b, f);
    }
    if finds(b, code, at) {
        let f = lemma_holder(b, code, at);
        lemma_both(a, b, f);
        lemma_held(a + b, f);
    }
}

/// What is found in each episode is found, and nothing else.
pub proof fn lemma_finds_by_episode<R: EpisodeRule>(rule: R, s: Seq<Episode>, code: Seq<char>, at: LocationView)
    ensures
        finds(walk::by_episode(rule, s), code, at) <==> exists|i: int|
            0 <= i < s.len() && finds(rule.of_episode(#[trigger] s[i]), code, at),
{
    let report = walk::by_episode(rule, s);
    if finds(report, code, at) {
        let f = lemma_holder(report, code, at);
        lemma_by_episode(rule, s, f);
        let i = choose|i: int| 0 <= i < s.len() && rule.of_episode(#[trigger] s[i]).contains(f);
        lemma_held(rule.of_episode(s[i]), f);
    }
    if exists|i: int| 0 <= i < s.len() && finds(rule.of_episode(#[trigger] s[i]), code, at) {
        let i = choose|i: int| 0 <= i < s.len() && finds(rule.of_episode(#[trigger] s[i]), code, at);
        let f = lemma_holder(rule.of_episode(s[i]), code, at);
        lemma_by_episode(rule, s, f);
        lemma_held(report, f);
    }
}

/// What is found in each stream of an episode is found, and nothing else.
pub proof fn lemma_finds_by_stream<R: StreamRule>(rule: R, e: Episode, s: Seq<Stream>, code: Seq<char>, at: LocationView)
    ensures
        finds(walk::by_stream(rule, e, s), code, at) <==> exists|j: int|
            0 <= j < s.len() && finds(rule.of_stream(e, #[trigger] s[j]), code, at),
{
    let report = walk::by_stream(rule, e, s);
    if finds(report, code, at) {
        let f = lemma_holder(report, code, at);
        lemma_by_stream(rule, e, s, f);
        let j = choose|j: int| 0 <= j < s.len() && rule.of_stream(e, #[trigger] s[j]).contains(f);
        lemma_held(rule.of_stream(e, s[j]), f);
    }
    if exists|j: int| 0 <= j < s.len() && finds(rule.of_stream(e, #[trigger] s[j]), code, at) {
        let j = choose|j: int| 0 <= j < s.len() && finds(rule.of_stream(e, #[trigger] s[j]), code, at);
        let f = lemma_holder(rule.of_stream(e, s[j]), code, at);
        lemma_by_stream(rule, e, s, f);
        lemma_held(report, f);
    }
}

/// What is found in each stream is found, and nothing else.
#[verifier::rlimit(40)]
pub proof fn lemma_finds_by_streams<R: StreamRule>(rule: R, s: Seq<Episode>, code: Seq<char>, at: LocationView)
    ensures
        finds(walk::by_streams(rule, s), code, at) <==> exists|i: int, j: int|
            0 <= i < s.len() && 0 <= j < s[i].streams@.len() && finds(
                rule.of_stream(s[i], #[trigger] s[i].streams@[j]),
                code,
                at,
            ),
{
    let report = walk::by_streams(rule, s);
    if finds(report, code, at) {
        let f = lemma_holder(report, code, at);
        lemma_by_streams(rule, s, f);
        let (i, j) = choose|i: int, j: int|
            0 <= i < s.len() && 0 <= j < s[i].streams@.len() && rule.of_stream(s[i], #[trigger] s[i].streams@[j]).contains(f);
        lemma_held(rule.of_stream(s[i], s[i].streams@[j]), f);
    }
    if exists|i: int, j: int|
        0 <= i < s.len() && 0 <= j < s[i].streams@.len() && finds(
            rule.of_stream(s[i], #[trigger] s[i].streams@[j]),
            code,
            at,
        ) {
        let (i, j) = choose|i: int, j: int|
            0 <= i < s.len() && 0 <= j < s[i].streams@.len() && finds(
                rule.of_stream(s[i], #[trigger] s[i].streams@[j]),
                code,
                at,
            );
        let f = lemma_holder(rule.of_stream(s[i], s[i].streams@[j]), code, at);
        lemma_by_streams(rule, s, f);
        lemma_held(report, f);
    }
}

/// A report of one finding.
pub proof fn lemma_finds_one(f: FindingView, code: Seq<char>, at: LocationView)
    ensures
        finds(seq![f], code, at) <==> f.code == code && f.location == at,
        !finds(Seq::empty(), code, at),
        finds_any(seq![f], code) <==> f.code == code,
        !finds_any(Seq::empty(), code),
{
    let r = seq![f];
    assert(r[0] == f);
}

/// Two reports find together the names that one of them finds.
#[verifier::rlimit(40)]
pub proof fn lemma_named_both(a: Seq<FindingView>, b: Seq<FindingView>, code: Seq<char>, name: Seq<char>)
    ensures
        finds_named(a + b, code, name) <==> finds_named(a, code, name) || finds_named(b, code, name),
        finds_any(a + b, code) <==> finds_any(a, code) || finds_any(b, code),
{
    let c = a + b;
    assert forall|k: int| 0 <= k < a.len() implies #[trigger] c[k] == a[k] by {}
    assert forall|k: int| 0 <= k < b.len() implies c[a.len() + k] == #[trigger] b[k] by {}
    assert forall|k: int| a.len() <= k < c.len() implies #[trigger] c[k] == b[k - a.len()] by {}
    if finds_named(a, code, name) {
        let k = choose|k: int|
            0 <= k < a.len() && (#[trigger] a[k]).code == code && (a[k].location matches LocationView::Stream { stream, .. }
                && stream == name);
        assert(c[k].code == code);
    }
    if finds_named(b, code, name) {
        let k = choose|k: int|
            0 <= k < b.len() && (#[trigger] b[k]).code == code && (b[k].location matches LocationView::Stream { stream, .. }
                && stream == name);
        assert(c[a.len() + k].code == code);
    }
    if finds_any(a, code) {
        let k = choose|k: int| 0 <= k < a.len() && (#[trigger] a[k]).code == code;
        assert(c[k].code == code);
    }
    if finds_any(b, code) {
        let k = choose|k: int| 0 <= k < b.len() && (#[trigger] b[k]).code == code;
        assert(c[a.len() + k].code == code);
    }
}

} // verus!
