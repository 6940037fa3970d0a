//! Laws of the temporal checks.

use vstd::prelude::*;

use crate::cdm::{ClockKind, Dataset, Episode, Frame, Stream};
use crate::check::{Check, FindingView, LocationView};
use crate::checks::autonomy;
use crate::checks::lists;
use crate::checks::temporal;
use crate::checks::temporal::{
    ClockMeasurability, ClockSkew, ClockSpanView, EndOffset, EpisodeDuration, Gaps, Jitter, Monotonicity, RateConformance,
    RateConsistency, RateValidity, StartOffset, RATE_INCONSISTENT_CODE,
};
use crate::checks::timeline;
use crate::checks::walk;
use crate::checks::walk::{EpisodeRule, StreamRule};
use crate::decimal;
use crate::deviation;
use crate::double;
use crate::laws::found;
use crate::laws::rig;
use crate::number;
use crate::seqs;
use crate::text;

verus! {

// ---- moments and spans -----------------------------------------------------------------------

/// Whether a moment is the earliest of frames.
pub open spec fn starts_at(frames: Seq<Frame>, t: int) -> bool {
    (exists|p: int| 0 <= p < frames.len() && (#[trigger] frames[p]).ts == t) && forall|k: int|
        0 <= k < frames.len() ==> t <= (#[trigger] frames[k]).ts
}

/// Whether a moment is the latest of frames.
pub open spec fn ends_at(frames: Seq<Frame>, t: int) -> bool {
    (exists|p: int| 0 <= p < frames.len() && (#[trigger] frames[p]).ts == t) && forall|k: int|
        0 <= k < frames.len() ==> (#[trigger] frames[k]).ts <= t
}

/// Whether frames last a time: from the earliest to the latest, and no longer than 64 bits can say.
pub open spec fn lasts(frames: Seq<Frame>, d: int) -> bool {
    exists|a: int, b: int|
        #[trigger] starts_at(frames, a) && #[trigger] ends_at(frames, b) && d == (if b - a > i64::MAX {
            i64::MAX as int
        } else {
            b - a
        })
}

/// Frames start and end where they do.
pub proof fn lemma_bounds(frames: Seq<Frame>)
    requires
        frames.len() > 0,
    ensures
        starts_at(frames, timeline::earliest(frames) as int),
        ends_at(frames, timeline::latest(frames) as int),
    decreases frames.len(),
{
    if frames.len() == 1 {
        assert(frames[0].ts == timeline::earliest(frames));
    } else {
        let rest = frames.drop_last();
        lemma_bounds(rest);
        let (a, b) = (timeline::earliest(rest) as int, timeline::latest(rest) as int);
        let p = choose|p: int| 0 <= p < rest.len() && (#[trigger] rest[p]).ts == a;
        let q = choose|q: int| 0 <= q < rest.len() && (#[trigger] rest[q]).ts == b;
        assert(frames[p].ts == a);
        assert(frames[q].ts == b);
        let n = frames.len() - 1;
        assert(frames[n].ts == frames.last().ts);
        assert forall|k: int| 0 <= k < frames.len() implies timeline::earliest(frames) <= (#[trigger] frames[k]).ts
            <= timeline::latest(frames) by {
            if k < n {
                assert(rest[k] == frames[k]);
            }
        }
    }
}

/// A start is the only one.
proof fn lemma_one_start(frames: Seq<Frame>, a: int, b: int)
    requires
        starts_at(frames, a),
        starts_at(frames, b),
    ensures
        a == b,
{
    let p = choose|p: int| 0 <= p < frames.len() && (#[trigger] frames[p]).ts == a;
    let q = choose|q: int| 0 <= q < frames.len() && (#[trigger] frames[q]).ts == b;
    assert(a <= frames[q].ts && b <= frames[p].ts);
}

/// An end is the only one.
proof fn lemma_one_end(frames: Seq<Frame>, a: int, b: int)
    requires
        ends_at(frames, a),
        ends_at(frames, b),
    ensures
        a == b,
{
    let p = choose|p: int| 0 <= p < frames.len() && (#[trigger] frames[p]).ts == a;
    let q = choose|q: int| 0 <= q < frames.len() && (#[trigger] frames[q]).ts == b;
    assert(frames[q].ts <= a && frames[p].ts <= b);
}

/// The span of frames is how long they last.
pub proof fn law_a_span_is_from_first_to_last(frames: Seq<Frame>, d: int)
    requires
        frames.len() > 0,
    ensures
        lasts(frames, d) <==> d == timeline::span(frames),
        timeline::span(frames) >= 0,
{
    lemma_bounds(frames);
    let (a, b) = (timeline::earliest(frames) as int, timeline::latest(frames) as int);
    let p = choose|p: int| 0 <= p < frames.len() && (#[trigger] frames[p]).ts == b;
    assert(a <= b);
    if lasts(frames, d) {
        let (x, y) = choose|x: int, y: int|
            #[trigger] starts_at(frames, x) && #[trigger] ends_at(frames, y) && d == (if y - x > i64::MAX {
                i64::MAX as int
            } else {
                y - x
            });
        lemma_one_start(frames, a, x);
        lemma_one_end(frames, b, y);
    }
}

/// The greater of two.
pub open spec fn larger(a: int, b: int) -> int {
    if a < b { b } else { a }
}

// ---- clock skew ------------------------------------------------------------------------------

/// Whether two streams drift apart: each lasts a measured time, and the two differ by more than is
/// tolerated and the longer sampling period together.
pub open spec fn drift_apart(check: ClockSkew, a: Stream, b: Stream, x: int, y: int) -> bool {
    &&& a.clock_kind == ClockKind::Measured
    &&& b.clock_kind == ClockKind::Measured
    &&& lasts(a.frames@, x)
    &&& lasts(b.frames@, y)
    &&& x > 0
    &&& y > 0
    &&& (x - y > check.tolerance_ns + larger(timeline::period(a), timeline::period(b)) || y - x > check.tolerance_ns + larger(
        timeline::period(a),
        timeline::period(b),
    ))
}

/// Whether a finding is about two streams of an episode that drift apart, wherever the one stands.
pub open spec fn tells_of_drift(check: ClockSkew, e: Episode, p: int, q: int, f: FindingView) -> bool {
    exists|x: int, y: int|
        #[trigger] drift_apart(check, e.streams@[p], e.streams@[q], x, y) && f == temporal::skew_finding(
            e.index,
            e.streams@[p].name@,
            e.streams@[p].clock_id@,
            x as nat,
            e.streams@[q].name@,
            e.streams@[q].clock_id@,
            y as nat,
            (if x < y { y - x } else { x - y }) as nat,
        )
}

/// What a stream's measured timeline spans.
spec fn span_view(s: Stream) -> ClockSpanView {
    ClockSpanView {
        name: s.name@,
        clock: s.clock_id@,
        span: timeline::span(s.frames@),
        period: timeline::period(s),
    }
}

/// Two in order are of two streams in order.
#[verifier::rlimit(40)]
proof fn lemma_two_spans(s: Seq<Stream>, a: ClockSpanView, b: ClockSpanView)
    ensures
        temporal::clock_spans(s).contains(b) <==> exists|y: int|
            0 <= y < s.len() && temporal::has_span(#[trigger] s[y]) && span_view(s[y]) == b,
        (exists|p: int, q: int|
            0 <= p < q < temporal::clock_spans(s).len() && (#[trigger] temporal::clock_spans(s)[p]) == a && (
            #[trigger] temporal::clock_spans(s)[q]) == b) <==> exists|x: int, y: int|
            0 <= x < y < s.len() && temporal::has_span(#[trigger] s[x]) && temporal::has_span(#[trigger] s[y]) && span_view(
                s[x],
            ) == a && span_view(s[y]) == b,
    decreases s.len(),
{
    let c = temporal::clock_spans(s);
    if s.len() > 0 {
        let rest = s.drop_last();
        let d = temporal::clock_spans(rest);
        let n = s.len() - 1;
        lemma_two_spans(rest, a, b);
        lemma_two_spans(rest, b, a);
        if temporal::has_span(s.last()) {
            found::lemma_one_more(d, span_view(s.last()), b);
        }
        if d.contains(b) {
            let y = choose|y: int| 0 <= y < rest.len() && temporal::has_span(#[trigger] rest[y]) && span_view(rest[y]) == b;
            assert(temporal::has_span(s[y]) && span_view(s[y]) == b);
        }
        if exists|y: int| 0 <= y < s.len() && temporal::has_span(#[trigger] s[y]) && span_view(s[y]) == b {
            let y = choose|y: int| 0 <= y < s.len() && temporal::has_span(#[trigger] s[y]) && span_view(s[y]) == b;
            if y < n {
                assert(temporal::has_span(rest[y]) && span_view(rest[y]) == b);
            }
        }
        if c.contains(b) && !d.contains(b) {
            assert(temporal::has_span(s[n]) && span_view(s[n]) == b);
        }
        if exists|p: int, q: int| 0 <= p < q < c.len() && (#[trigger] c[p]) == a && (#[trigger] c[q]) == b {
            let (p, q) = choose|p: int, q: int| 0 <= p < q < c.len() && (#[trigger] c[p]) == a && (#[trigger] c[q]) == b;
            if q < d.len() {
                assert(d[p] == a && d[q] == b);
                let (x, y) = choose|x: int, y: int|
                    0 <= x < y < rest.len() && temporal::has_span(#[trigger] rest[x]) && temporal::has_span(
                        #[trigger] rest[y],
                    ) && span_view(rest[x]) == a && span_view(rest[y]) == b;
                assert(temporal::has_span(s[x]) && temporal::has_span(s[y]) && span_view(s[x]) == a && span_view(s[y]) == b);
            } else {
                assert(d[p] == a);
                assert(d.contains(a));
                let x = choose|x: int|
                    0 <= x < rest.len() && temporal::has_span(#[trigger] rest[x]) && span_view(rest[x]) == a;
                assert(temporal::has_span(s[x]) && span_view(s[x]) == a);
                assert(temporal::has_span(s[n]) && span_view(s[n]) == b);
            }
        }
        if exists|x: int, y: int|
            0 <= x < y < s.len() && temporal::has_span(#[trigger] s[x]) && temporal::has_span(#[trigger] s[y]) && span_view(
                s[x],
            ) == a && span_view(s[y]) == b {
            let (x, y) = choose|x: int, y: int|
                0 <= x < y < s.len() && temporal::has_span(#[trigger] s[x]) && temporal::has_span(#[trigger] s[y]) && span_view(
                    s[x],
                ) == a && span_view(s[y]) == b;
            assert(rest[x] == s[x]);
            if y < n {
                assert(rest[y] == s[y]);
                let (p, q) = choose|p: int, q: int| 0 <= p < q < d.len() && (#[trigger] d[p]) == a && (#[trigger] d[q]) == b;
                assert(c[p] == a && c[q] == b);
            } else {
                assert(d.contains(a));
                let p = choose|p: int| 0 <= p < d.len() && d[p] == a;
                assert(c[p] == a && c[d.len() as int] == b);
            }
        }
    }
}

/// What is reported of a stream against those from a place on.
proof fn lemma_against_each(e: u64, t: i64, s: Seq<ClockSpanView>, i: int, j: int, f: FindingView)
    requires
        0 <= j,
    ensures
        temporal::against_each(e, t, s, i, j).contains(f) <==> exists|q: int|
            j <= q < s.len() && temporal::pair_findings(e, t, s[i], #[trigger] s[q]).contains(f),
    decreases s.len() - j,
{
    if j < s.len() {
        lemma_against_each(e, t, s, i, j + 1, f);
        found::lemma_both(temporal::pair_findings(e, t, s[i], s[j]), temporal::against_each(e, t, s, i, j + 1), f);
    }
}

/// What is reported of each two from a place on.
proof fn lemma_each_pair(e: u64, t: i64, s: Seq<ClockSpanView>, i: int, f: FindingView)
    requires
        0 <= i,
    ensures
        temporal::each_pair(e, t, s, i).contains(f) <==> exists|p: int, q: int|
            i <= p < q < s.len() && temporal::pair_findings(e, t, #[trigger] s[p], #[trigger] s[q]).contains(f),
    decreases s.len() - i,
{
    if i < s.len() {
        lemma_each_pair(e, t, s, i + 1, f);
        lemma_against_each(e, t, s, i, i + 1, f);
        found::lemma_both(temporal::against_each(e, t, s, i, i + 1), temporal::each_pair(e, t, s, i + 1), f);
    }
}

/// What two spans give is what the streams give.
#[verifier::rlimit(40)]
proof fn lemma_pair(check: ClockSkew, e: Episode, p: int, q: int, f: FindingView)
    requires
        0 <= p < e.streams@.len(),
        0 <= q < e.streams@.len(),
    ensures
        tells_of_drift(check, e, p, q, f) <==> temporal::has_span(e.streams@[p]) && temporal::has_span(e.streams@[q])
            && temporal::pair_findings(
            e.index,
            check.tolerance_ns,
            span_view(e.streams@[p]),
            span_view(e.streams@[q]),
        ).contains(f),
{
    let (a, b) = (e.streams@[p], e.streams@[q]);
    let (x, y) = (timeline::span(a.frames@), timeline::span(b.frames@));
    let drift = autonomy::apart(x, y);
    let g = temporal::skew_finding(e.index, a.name@, a.clock_id@, x as nat, b.name@, b.clock_id@, y as nat, drift);
    found::lemma_only(g, f);
    if temporal::has_span(a) && temporal::has_span(b) {
        law_a_span_is_from_first_to_last(a.frames@, x);
        law_a_span_is_from_first_to_last(b.frames@, y);
        if temporal::pair_findings(e.index, check.tolerance_ns, span_view(a), span_view(b)).contains(f) {
            assert(drift_apart(check, a, b, x, y));
        }
    }
    if tells_of_drift(check, e, p, q, f) {
        let (u, v) = choose|u: int, v: int|
            #[trigger] drift_apart(check, a, b, u, v) && f == temporal::skew_finding(
                e.index,
                a.name@,
                a.clock_id@,
                u as nat,
                b.name@,
                b.clock_id@,
                v as nat,
                (if u < v { v - u } else { u - v }) as nat,
            );
        law_a_span_is_from_first_to_last(a.frames@, u);
        law_a_span_is_from_first_to_last(b.frames@, v);
    }
}

/// An episode has a finding for each two of its streams that drift apart, the one that lasts longer
/// listed first or last, and for no others; a rig has none.
#[verifier::rlimit(40)]
pub proof fn law_drifting_clocks_are_reported(check: ClockSkew, e: Episode, f: FindingView)
    ensures
        check.of_episode(e).contains(f) <==> !autonomy::is_rig(e) && exists|p: int, q: int|
            0 <= p < q < e.streams@.len() && #[trigger] tells_of_drift(check, e, p, q, f),
{
    let s = e.streams@;
    let c = temporal::clock_spans(s);
    lemma_each_pair(e.index, check.tolerance_ns, c, 0, f);
    if temporal::each_pair(e.index, check.tolerance_ns, c, 0).contains(f) {
        let (p, q) = choose|p: int, q: int|
            0 <= p < q < c.len() && temporal::pair_findings(
                e.index,
                check.tolerance_ns,
                #[trigger] c[p],
                #[trigger] c[q],
            ).contains(f);
        let (a, b) = (c[p], c[q]);
        lemma_two_spans(s, a, b);
        let (x, y) = choose|x: int, y: int|
            0 <= x < y < s.len() && temporal::has_span(#[trigger] s[x]) && temporal::has_span(#[trigger] s[y]) && span_view(
                s[x],
            ) == a && span_view(s[y]) == b;
        lemma_pair(check, e, x, y, f);
        assert(tells_of_drift(check, e, x, y, f));
    }
    if exists|p: int, q: int| 0 <= p < q < s.len() && #[trigger] tells_of_drift(check, e, p, q, f) {
        let (p, q) = choose|p: int, q: int| 0 <= p < q < s.len() && #[trigger] tells_of_drift(check, e, p, q, f);
        lemma_pair(check, e, p, q, f);
        let (a, b) = (span_view(s[p]), span_view(s[q]));
        lemma_two_spans(s, a, b);
        assert(temporal::has_span(s[p]) && temporal::has_span(s[q]));
        let (u, v) = choose|u: int, v: int| 0 <= u < v < c.len() && (#[trigger] c[u]) == a && (#[trigger] c[v]) == b;
        assert(temporal::pair_findings(e.index, check.tolerance_ns, c[u], c[v]).contains(f));
    }
}

/// A dataset's report is that of its episodes.
pub proof fn law_drift_is_reported_by_episode(check: ClockSkew, dataset: &Dataset, f: FindingView)
    ensures
        check.report(dataset).contains(f) <==> exists|i: int|
            0 <= i < dataset.episodes@.len() && check.of_episode(#[trigger] dataset.episodes@[i]).contains(f),
{
    found::lemma_by_episode(check, dataset.episodes@, f);
}

/// Whether two streams drift apart, whichever way.
spec fn drifts(t: i64, a: ClockSpanView, b: ClockSpanView) -> bool {
    temporal::pair_findings(0, t, a, b).len() > 0
}

/// One for each stream that drifts from a given one.
spec fn drifting(t: i64, a: ClockSpanView) -> spec_fn(ClockSpanView) -> Seq<int> {
    |b: ClockSpanView| if drifts(t, a, b) { seq![1int] } else { Seq::empty() }
}

/// One for each stream that would drift from itself.
spec fn self_drifting(t: i64) -> spec_fn(ClockSpanView) -> Seq<int> {
    |b: ClockSpanView| if drifts(t, b, b) { seq![1int] } else { Seq::empty() }
}

/// One for each stream of a list that drifts from a given one, for each.
spec fn all_drifting(t: i64, s: Seq<ClockSpanView>) -> spec_fn(ClockSpanView) -> Seq<int> {
    |a: ClockSpanView| seqs::gather(s, drifting(t, a))
}

/// How many findings there are does not depend on the index.
proof fn lemma_against_len(e: u64, t: i64, s: Seq<ClockSpanView>, i: int, j: int)
    requires
        0 <= i < s.len(),
        0 <= j <= s.len(),
    ensures
        temporal::against_each(e, t, s, i, j).len() == seqs::gather(s.skip(j), drifting(t, s[i])).len(),
    decreases s.len() - j,
{
    if j < s.len() {
        lemma_against_len(e, t, s, i, j + 1);
        let one = seq![s[j]];
        assert(s.skip(j) =~= one + s.skip(j + 1));
        seqs::lemma_gather_split(one, s.skip(j + 1), drifting(t, s[i]));
        found::lemma_gather_one(s[j], drifting(t, s[i]));
    } else {
        assert(s.skip(j) =~= Seq::empty());
    }
}

/// The pairs from a place on are half of what is counted from both sides.
proof fn lemma_both_sides(e: u64, t: i64, s: Seq<ClockSpanView>, i: int)
    requires
        0 <= i <= s.len(),
    ensures
        2 * temporal::each_pair(e, t, s, i).len() + seqs::gather(s.skip(i), self_drifting(t)).len() == seqs::gather(
            s.skip(i),
            all_drifting(t, s.skip(i)),
        ).len(),
    decreases s.len() - i,
{
    let r = s.skip(i);
    if i < s.len() {
        let u = s.skip(i + 1);
        let a = s[i];
        let one = seq![a];
        lemma_both_sides(e, t, s, i + 1);
        lemma_against_len(e, t, s, i, i + 1);
        assert(r =~= one + u);
        // The new stream by itself.
        seqs::lemma_gather_split(one, u, self_drifting(t));
        found::lemma_gather_one(a, self_drifting(t));
        // The new stream against all.
        seqs::lemma_gather_split(one, u, drifting(t, a));
        found::lemma_gather_one(a, drifting(t, a));
        // Each against all.
        seqs::lemma_gather_split(one, u, all_drifting(t, r));
        found::lemma_gather_one(a, all_drifting(t, r));
        lemma_with_one_more(t, a, u, u);
    } else {
        assert(r =~= Seq::empty());
    }
}

/// Each of a list against another with one stream more in front.
proof fn lemma_with_one_more(t: i64, a: ClockSpanView, u: Seq<ClockSpanView>, v: Seq<ClockSpanView>)
    ensures
        seqs::gather(v, all_drifting(t, seq![a] + u)).len() == seqs::gather(v, all_drifting(t, u)).len() + seqs::gather(
            v,
            drifting(t, a),
        ).len(),
    decreases v.len(),
{
    if v.len() > 0 {
        let b = v.last();
        lemma_with_one_more(t, a, u, v.drop_last());
        let one = seq![a];
        seqs::lemma_gather_split(one, u, drifting(t, b));
        found::lemma_gather_one(a, drifting(t, b));
        assert(drifts(t, a, b) == drifts(t, b, a));
    }
}

/// Two lists of the same streams give as many each against all.
proof fn lemma_all_alike(t: i64, u: Seq<ClockSpanView>, v: Seq<ClockSpanView>, w: Seq<ClockSpanView>)
    requires
        v.to_multiset() == w.to_multiset(),
    ensures
        seqs::gather(u, all_drifting(t, v)).len() == seqs::gather(u, all_drifting(t, w)).len(),
    decreases u.len(),
{
    if u.len() > 0 {
        lemma_all_alike(t, u.drop_last(), v, w);
        seqs::lemma_gather_multiset(v, w, drifting(t, u.last()));
    }
}

/// The spans of streams in another order are the same in another order.
proof fn lemma_spans_gathered(s: Seq<Stream>)
    ensures
        temporal::clock_spans(s) == seqs::gather(
            s,
            |x: Stream| if temporal::has_span(x) { seq![span_view(x)] } else { Seq::empty() },
        ),
    decreases s.len(),
{
    let f = |x: Stream| if temporal::has_span(x) { seq![span_view(x)] } else { Seq::empty() };
    if s.len() > 0 {
        lemma_spans_gathered(s.drop_last());
        assert(temporal::clock_spans(s) =~= temporal::clock_spans(s.drop_last()) + f(s.last()));
    }
}

/// How many findings there are of clock skew does not depend on the order of the streams.
pub proof fn law_drift_ignores_the_order_of_streams(check: ClockSkew, a: Episode, b: Episode)
    requires
        a.streams@.to_multiset() == b.streams@.to_multiset(),
    ensures
        check.of_episode(a).len() == check.of_episode(b).len(),
{
    rig::law_a_rig_is_one_in_any_order(a, b);
    let f = |x: Stream| if temporal::has_span(x) { seq![span_view(x)] } else { Seq::empty() };
    let t = check.tolerance_ns;
    let (x, y) = (temporal::clock_spans(a.streams@), temporal::clock_spans(b.streams@));
    lemma_spans_gathered(a.streams@);
    lemma_spans_gathered(b.streams@);
    seqs::lemma_gather_multiset(a.streams@, b.streams@, f);
    lemma_both_sides(a.index, t, x, 0);
    lemma_both_sides(b.index, t, y, 0);
    assert(x.skip(0) =~= x && y.skip(0) =~= y);
    seqs::lemma_gather_multiset(x, y, self_drifting(t));
    seqs::lemma_gather_multiset(x, y, all_drifting(t, x));
    lemma_all_alike(t, y, x, y);
}

// ---- timelines -------------------------------------------------------------------------------

/// Whether two streams have the same timestamps.
pub open spec fn same_timeline(a: Stream, b: Stream) -> bool {
    a.frames@.len() == b.frames@.len() && forall|k: int|
        0 <= k < a.frames@.len() ==> (#[trigger] a.frames@[k]).ts == b.frames@[k].ts
}

/// Whether a stream answers for its timeline: it is measured, and none with the same timestamps comes
/// before it by name.
pub open spec fn answers(e: Episode, s: Stream) -> bool {
    s.clock_kind == ClockKind::Measured && forall|k: int|
        0 <= k < e.streams@.len() && same_timeline(#[trigger] e.streams@[k], s) ==> !text::str_lt(
            e.streams@[k].name@,
            s.name@,
        )
}

/// Streams with the same timestamps have the same timeline.
proof fn lemma_same_timeline(a: Stream, b: Stream)
    ensures
        same_timeline(a, b) == (temporal::stamps(a.frames@) == temporal::stamps(b.frames@)),
{
    let (x, y) = (temporal::stamps(a.frames@), temporal::stamps(b.frames@));
    assert(x.len() == a.frames@.len() && y.len() == b.frames@.len());
    if same_timeline(a, b) {
        assert forall|j: int| 0 <= j < x.len() implies x[j] == y[j] by {
            assert(a.frames@[j].ts == b.frames@[j].ts);
        }
        assert(x =~= y);
    }
    if x == y {
        assert forall|j: int| 0 <= j < a.frames@.len() implies (#[trigger] a.frames@[j]).ts == b.frames@[j].ts by {
            assert(x[j] == y[j]);
        }
    }
}

/// A stream is judged where it answers for its timeline.
proof fn lemma_answers(e: Episode, s: Stream)
    ensures
        temporal::is_judged(e, s) == answers(e, s),
{
    assert forall|k: int| 0 <= k < e.streams@.len() implies same_timeline(#[trigger] e.streams@[k], s) == (temporal::stamps(
        e.streams@[k].frames@,
    ) == temporal::stamps(s.frames@)) by {
        lemma_same_timeline(e.streams@[k], s);
    }
}

/// Whether a frame is the first that does not come after the one before it.
pub open spec fn sets_back(frames: Seq<Frame>, k: int) -> bool {
    &&& 1 <= k < frames.len()
    &&& frames[k].ts <= frames[k - 1].ts
    &&& forall|m: int| 1 <= m < k ==> (#[trigger] frames[m]).ts > frames[m - 1].ts
}

/// The first setback is found.
proof fn lemma_setback(frames: Seq<Frame>, i: int)
    requires
        1 <= i,
        forall|m: int| 1 <= m < i && m < frames.len() ==> (#[trigger] frames[m]).ts > frames[m - 1].ts,
    ensures
        match temporal::first_setback(frames, i) {
            Some(k) => sets_back(frames, k),
            None => forall|m: int| 1 <= m < frames.len() ==> (#[trigger] frames[m]).ts > frames[m - 1].ts,
        },
    decreases frames.len() - i,
{
    if i < frames.len() && frames[i].ts > frames[i - 1].ts {
        lemma_setback(frames, i + 1);
    }
}

/// Whether a finding tells of the first setback of a stream.
pub open spec fn tells_of_setback(e: Episode, s: Stream, f: FindingView) -> bool {
    answers(e, s) && exists|k: int|
        #[trigger] sets_back(s.frames@, k) && f == temporal::non_monotonic_finding(
            e.index,
            s.name@,
            (k - 1) as u64,
            k as u64,
            s.frames@[k - 1].ts,
            s.frames@[k].ts,
            temporal::shared_by(e, s),
        )
}

/// What is said of a setback.
spec fn setback_told(e: Episode, s: Stream, k: int) -> FindingView {
    temporal::non_monotonic_finding(
        e.index,
        s.name@,
        (k - 1) as u64,
        k as u64,
        s.frames@[k - 1].ts,
        s.frames@[k].ts,
        temporal::shared_by(e, s),
    )
}

/// The first setback is the only one.
proof fn lemma_one_setback(frames: Seq<Frame>, k: int, m: int)
    requires
        sets_back(frames, k),
        sets_back(frames, m),
    ensures
        k == m,
{
    if m < k {
        assert(frames[m].ts > frames[m - 1].ts);
    } else if k < m {
        assert(frames[k].ts > frames[k - 1].ts);
    }
}

/// The setback of a stream.
proof fn lemma_setback_of(check: Monotonicity, e: Episode, s: Stream, f: FindingView)
    ensures
        check.of_stream(e, s).contains(f) <==> tells_of_setback(e, s, f),
{
    lemma_setback(s.frames@, 1);
    lemma_answers(e, s);
    match temporal::first_setback(s.frames@, 1) {
        Some(k) => {
            found::lemma_only(setback_told(e, s, k), f);
            assert(sets_back(s.frames@, k));
            if tells_of_setback(e, s, f) {
                let m = choose|m: int| #[trigger] sets_back(s.frames@, m) && f == setback_told(e, s, m);
                lemma_one_setback(s.frames@, k, m);
            }
        },
        None => {
            if tells_of_setback(e, s, f) {
                let m = choose|m: int| #[trigger] sets_back(s.frames@, m) && f == setback_told(e, s, m);
                assert(s.frames@[m].ts <= s.frames@[m - 1].ts);
            }
        },
    }
}

/// A timeline that does not increase is reported where it first does not, once for each timeline; and
/// one that does is not.
pub proof fn law_setbacks_are_reported(check: Monotonicity, dataset: &Dataset, f: FindingView)
    ensures
        check.report(dataset).contains(f) <==> exists|i: int, j: int|
            0 <= i < dataset.episodes@.len() && 0 <= j < dataset.episodes@[i].streams@.len() && tells_of_setback(
                dataset.episodes@[i],
                #[trigger] dataset.episodes@[i].streams@[j],
                f,
            ),
{
    found::lemma_by_streams(check, dataset.episodes@, f);
    assert forall|e: Episode, s: Stream| #[trigger] check.of_stream(e, s).contains(f) <==> tells_of_setback(e, s, f) by {
        lemma_setback_of(check, e, s, f);
    }
    lemma_streams_alike(dataset.episodes@, check, f, |e: Episode, s: Stream| tells_of_setback(e, s, f));
}

/// What a rule reports of streams, told otherwise.
pub proof fn lemma_streams_alike<R: StreamRule>(
    eps: Seq<Episode>,
    rule: R,
    f: FindingView,
    says: spec_fn(Episode, Stream) -> bool,
)
    requires
        forall|e: Episode, s: Stream| #[trigger] rule.of_stream(e, s).contains(f) <==> says(e, s),
    ensures
        (exists|i: int, j: int|
            0 <= i < eps.len() && 0 <= j < eps[i].streams@.len() && rule.of_stream(
                eps[i],
                #[trigger] eps[i].streams@[j],
            ).contains(f)) <==> exists|i: int, j: int|
            0 <= i < eps.len() && 0 <= j < eps[i].streams@.len() && says(eps[i], #[trigger] eps[i].streams@[j]),
{
    if exists|i: int, j: int|
        0 <= i < eps.len() && 0 <= j < eps[i].streams@.len() && says(eps[i], #[trigger] eps[i].streams@[j]) {
        let (i, j) = choose|i: int, j: int|
            0 <= i < eps.len() && 0 <= j < eps[i].streams@.len() && says(eps[i], #[trigger] eps[i].streams@[j]);
        assert(rule.of_stream(eps[i], eps[i].streams@[j]).contains(f));
    }
}

// ---- rates -----------------------------------------------------------------------------------

/// Whether a double is a rate: finite, and greater than zero.
pub open spec fn is_rate(rate: u64) -> bool {
    0 < rate < number::INFINITY
}

/// Whether a finding tells of a declared rate that is none.
pub open spec fn tells_of_no_rate(e: Episode, s: Stream, f: FindingView) -> bool {
    s.declared_rate_hz matches Some(rate) && !is_rate(rate) && f == temporal::invalid_rate_finding(
        e.index,
        s.name@,
        decimal::plain_text(rate),
    )
}

/// A declared rate is reported exactly where it is not a finite number greater than zero.
pub proof fn law_rates_that_are_none_are_reported(check: RateValidity, dataset: &Dataset, f: FindingView)
    ensures
        check.report(dataset).contains(f) <==> exists|i: int, j: int|
            0 <= i < dataset.episodes@.len() && 0 <= j < dataset.episodes@[i].streams@.len() && tells_of_no_rate(
                dataset.episodes@[i],
                #[trigger] dataset.episodes@[i].streams@[j],
                f,
            ),
{
    found::lemma_by_streams(check, dataset.episodes@, f);
    assert forall|e: Episode, s: Stream| #[trigger] check.of_stream(e, s).contains(f) <==> tells_of_no_rate(e, s, f) by {
        if let Some(rate) = s.declared_rate_hz {
            found::lemma_only(temporal::invalid_rate_finding(e.index, s.name@, decimal::plain_text(rate)), f);
        }
    }
    lemma_streams_alike(dataset.episodes@, check, f, |e: Episode, s: Stream| tells_of_no_rate(e, s, f));
}

/// The rate at which frames came over a time: one less than there are, over the seconds.
pub open spec fn observed_rate(n: nat, ns: int) -> int {
    double::over(
        double::minus(double::whole(n as int), double::ONE as int),
        double::over(double::whole(ns), double::BILLION as int),
    )
}

/// Whether a finding tells of a stream whose frames came at another rate than declared.
pub open spec fn tells_of_rate(check: RateConformance, e: Episode, s: Stream, f: FindingView) -> bool {
    &&& s.clock_kind == ClockKind::Measured
    &&& s.frames@.len() >= 2
    &&& number::magnitude(check.relative_tolerance) <= number::INFINITY
    &&& s.declared_rate_hz matches Some(rate) && is_rate(rate) && exists|ns: int|
        #[trigger] lasts(s.frames@, ns) && double::over(double::whole(ns), double::BILLION as int) > 0 && number::rank(
            check.relative_tolerance,
        ) < double::over(
            double::size(double::minus(observed_rate(s.frames@.len(), ns), rate as int)),
            rate as int,
        ) && f == temporal::rate_finding(
            e.index,
            s.name@,
            decimal::fixed_text(decimal::bits_of(observed_rate(s.frames@.len(), ns)), 3),
            decimal::fixed_text(rate, 3),
            deviation::percent_text(observed_rate(s.frames@.len(), ns), rate as int),
        )
}

/// A stream is reported exactly where its frames came at a rate that is off the declared one, up or
/// down, by more than is tolerated of it.
#[verifier::rlimit(40)]
pub proof fn law_rates_that_are_off_are_reported(check: RateConformance, dataset: &Dataset, f: FindingView)
    ensures
        check.report(dataset).contains(f) <==> exists|i: int, j: int|
            0 <= i < dataset.episodes@.len() && 0 <= j < dataset.episodes@[i].streams@.len() && tells_of_rate(
                check,
                dataset.episodes@[i],
                #[trigger] dataset.episodes@[i].streams@[j],
                f,
            ),
{
    found::lemma_by_streams(check, dataset.episodes@, f);
    assert forall|e: Episode, s: Stream| #[trigger] check.of_stream(e, s).contains(f) <==> tells_of_rate(check, e, s, f) by {
        let frames = s.frames@;
        if frames.len() > 0 {
            let ns = timeline::span(frames);
            law_a_span_is_from_first_to_last(frames, ns);
            assert(lasts(frames, ns));
            if let Some(rate) = s.declared_rate_hz {
                found::lemma_only(
                    temporal::rate_finding(
                        e.index,
                        s.name@,
                        decimal::fixed_text(decimal::bits_of(temporal::mean_rate(s)), 3),
                        decimal::fixed_text(rate, 3),
                        deviation::percent_text(temporal::mean_rate(s), rate as int),
                    ),
                    f,
                );
            }
            if tells_of_rate(check, e, s, f) {
                let rate = s.declared_rate_hz->0;
                let m = choose|m: int|
                    #[trigger] lasts(frames, m) && double::over(double::whole(m), double::BILLION as int) > 0
                        && number::rank(check.relative_tolerance) < double::over(
                        double::size(double::minus(observed_rate(frames.len(), m), rate as int)),
                        rate as int,
                    ) && f == temporal::rate_finding(
                        e.index,
                        s.name@,
                        decimal::fixed_text(decimal::bits_of(observed_rate(frames.len(), m)), 3),
                        decimal::fixed_text(rate, 3),
                        deviation::percent_text(observed_rate(frames.len(), m), rate as int),
                    );
                law_a_span_is_from_first_to_last(frames, m);
            }
        }
    }
    lemma_streams_alike(dataset.episodes@, check, f, |e: Episode, s: Stream| tells_of_rate(check, e, s, f));
}

// ---- jitter ----------------------------------------------------------------------------------

/// Whether a finding tells of a timeline that is irregular.
pub open spec fn tells_of_jitter(check: Jitter, e: Episode, s: Stream, f: FindingView) -> bool {
    let gaps = timeline::positive_gaps(s.frames@);
    &&& answers(e, s)
    &&& s.frames@.len() >= 9
    &&& forall|m: int| 1 <= m < s.frames@.len() ==> (#[trigger] s.frames@[m]).ts > s.frames@[m - 1].ts
    &&& number::magnitude(check.max_cv) <= number::INFINITY
    &&& timeline::variation(gaps) matches Some(cv) && number::rank(check.max_cv) < cv && f == temporal::jitter_finding(
        e.index,
        s.name@,
        decimal::fixed_text(decimal::bits_of(cv), 2),
        decimal::fixed_text(check.max_cv, 2),
        temporal::mean_millis(gaps),
        temporal::shared_by(e, s),
    )
}

/// An increasing timeline of at least nine frames is reported exactly where its intervals vary by more
/// than is tolerated.
pub proof fn law_jitter_is_reported(check: Jitter, dataset: &Dataset, f: FindingView)
    ensures
        check.report(dataset).contains(f) <==> exists|i: int, j: int|
            0 <= i < dataset.episodes@.len() && 0 <= j < dataset.episodes@[i].streams@.len() && tells_of_jitter(
                check,
                dataset.episodes@[i],
                #[trigger] dataset.episodes@[i].streams@[j],
                f,
            ),
{
    found::lemma_by_streams(check, dataset.episodes@, f);
    assert forall|e: Episode, s: Stream| #[trigger] check.of_stream(e, s).contains(f) <==> tells_of_jitter(check, e, s, f) by {
        lemma_setback(s.frames@, 1);
        lemma_answers(e, s);
        let gaps = timeline::positive_gaps(s.frames@);
        found::lemma_only(
            temporal::jitter_finding(
                e.index,
                s.name@,
                decimal::fixed_text(decimal::bits_of(timeline::variation(gaps)->0), 2),
                decimal::fixed_text(check.max_cv, 2),
                temporal::mean_millis(gaps),
                temporal::shared_by(e, s),
            ),
            f,
        );
        if let Some(k) = temporal::first_setback(s.frames@, 1) {
            assert(s.frames@[k].ts <= s.frames@[k - 1].ts);
        }
    }
    lemma_streams_alike(dataset.episodes@, check, f, |e: Episode, s: Stream| tells_of_jitter(check, e, s, f));
}

/// The intervals of an increasing timeline are those between each frame and the next.
#[verifier::rlimit(40)]
pub proof fn law_intervals_are_between_neighbours(frames: Seq<Frame>)
    requires
        forall|m: int| 1 <= m < frames.len() ==> (#[trigger] frames[m]).ts > frames[m - 1].ts,
    ensures
        frames.len() > 0 ==> timeline::positive_gaps(frames).len() == frames.len() - 1,
        forall|m: int|
            1 <= m < frames.len() ==> timeline::positive_gaps(frames)[m - 1] == (if (#[trigger] frames[m]).ts - frames[m - 1].ts
                > i64::MAX {
                i64::MAX as int
            } else {
                frames[m].ts - frames[m - 1].ts
            }),
    decreases frames.len(),
{
    if frames.len() >= 2 {
        let rest = frames.drop_last();
        assert forall|m: int| 1 <= m < rest.len() implies (#[trigger] rest[m]).ts > rest[m - 1].ts by {
            assert(rest[m] == frames[m]);
            assert(rest[m - 1] == frames[m - 1]);
        }
        law_intervals_are_between_neighbours(rest);
        let (old, all) = (timeline::positive_gaps(rest), timeline::positive_gaps(frames));
        let n = frames.len() - 1;
        assert(frames[n].ts > frames[n - 1].ts);
        assert(all.len() == old.len() + 1);
        assert forall|m: int| 1 <= m < frames.len() implies all[m - 1] == (if (#[trigger] frames[m]).ts - frames[m - 1].ts
            > i64::MAX {
            i64::MAX as int
        } else {
            frames[m].ts - frames[m - 1].ts
        }) by {
            if m < n {
                assert(rest[m] == frames[m]);
                assert(rest[m - 1] == frames[m - 1]);
                assert(all[m - 1] == old[m - 1]);
            }
        }
    }
}

// ---- gaps ------------------------------------------------------------------------------------

/// Whether an interval is the usual one of a stream: the upper of the middle ones, or the declared one
/// where the two are within a factor of one another.
pub open spec fn is_usual(s: Stream, factor: u64, bits: u64, ms: Seq<char>) -> bool {
    let gaps = seqs::sorted(timeline::positive_gaps(s.frames@), seqs::number_order());
    let middle = gaps[gaps.len() as int / 2] as nat;
    &&& gaps.len() > 0
    &&& if s.declared_rate_hz matches Some(rate) && 0 < rate <= number::INFINITY && temporal::intervals_agree(
        timeline::interval(rate),
        number::double_of(middle),
        factor,
    ) {
        bits == timeline::interval(s.declared_rate_hz->0) && ms == temporal::millis_of_double(bits)
    } else {
        bits == number::double_of(middle) && ms == number::millis_text(middle)
    }
}

/// Whether a frame came longer after the one before it than a limit.
pub open spec fn is_late(s: Stream, limit: int, k: int) -> bool {
    1 <= k < s.frames@.len() && temporal::signed_rank(timeline::gap(s.frames@[k - 1].ts, s.frames@[k].ts)) > limit
}

/// What is said of a frame that came late.
pub open spec fn late_told(e: Episode, s: Stream, ms: Seq<char>, k: int) -> FindingView {
    temporal::gap_finding(
        e.index,
        s.name@,
        s.frames@[k - 1].ts,
        s.frames@[k].ts,
        temporal::signed_millis(timeline::gap(s.frames@[k - 1].ts, s.frames@[k].ts)),
        ms,
        temporal::shared_by(e, s),
    )
}

/// Whether a finding tells of a frame that came too long after the one before it.
pub open spec fn tells_of_gap(check: Gaps, e: Episode, s: Stream, f: FindingView) -> bool {
    answers(e, s) && exists|bits: u64, ms: Seq<char>, limit: int, k: int|
        #[trigger] is_usual(s, check.gap_factor, bits, ms) && number::scaled(bits, check.gap_factor) == Some(limit)
            && #[trigger] is_late(s, limit, k) && f == late_told(e, s, ms, k)
}

/// The gaps found up to a frame.
proof fn lemma_gaps(e: Episode, s: Stream, ms: Seq<char>, limit: int, n: int, f: FindingView)
    requires
        n <= s.frames@.len(),
    ensures
        temporal::gap_findings(e, s, ms, limit, n).contains(f) <==> exists|k: int|
            k < n && #[trigger] is_late(s, limit, k) && f == late_told(e, s, ms, k),
    decreases n,
{
    if n >= 2 {
        lemma_gaps(e, s, ms, limit, n - 1, f);
        let rest = temporal::gap_findings(e, s, ms, limit, n - 1);
        found::lemma_one_more(rest, late_told(e, s, ms, n - 1), f);
        if rest.contains(f) {
            let k = choose|k: int| k < n - 1 && #[trigger] is_late(s, limit, k) && f == late_told(e, s, ms, k);
            assert(k < n && is_late(s, limit, k));
        }
        if is_late(s, limit, n - 1) {
            assert(temporal::gap_findings(e, s, ms, limit, n) == rest.push(late_told(e, s, ms, n - 1)));
        } else {
            assert(temporal::gap_findings(e, s, ms, limit, n) == rest);
        }
        if exists|k: int| k < n && #[trigger] is_late(s, limit, k) && f == late_told(e, s, ms, k) {
            let k = choose|k: int| k < n && #[trigger] is_late(s, limit, k) && f == late_told(e, s, ms, k);
            if k < n - 1 {
                assert(k < n - 1 && is_late(s, limit, k));
            }
        }
    }
}

/// Each interval longer than a factor of the usual one is reported, and no other.
pub proof fn law_gaps_are_reported(check: Gaps, dataset: &Dataset, f: FindingView)
    ensures
        check.report(dataset).contains(f) <==> exists|i: int, j: int|
            0 <= i < dataset.episodes@.len() && 0 <= j < dataset.episodes@[i].streams@.len() && tells_of_gap(
                check,
                dataset.episodes@[i],
                #[trigger] dataset.episodes@[i].streams@[j],
                f,
            ),
{
    found::lemma_by_streams(check, dataset.episodes@, f);
    assert forall|e: Episode, s: Stream| #[trigger] check.of_stream(e, s).contains(f) <==> tells_of_gap(check, e, s, f) by {
        lemma_gaps_of(check, e, s, f);
    }
    lemma_streams_alike(dataset.episodes@, check, f, |e: Episode, s: Stream| tells_of_gap(check, e, s, f));
}

/// The gaps of a stream.
proof fn lemma_gaps_of(check: Gaps, e: Episode, s: Stream, f: FindingView)
    ensures
        check.of_stream(e, s).contains(f) <==> tells_of_gap(check, e, s, f),
{
    lemma_answers(e, s);
    let factor = check.gap_factor;
    if let Some(x) = temporal::expected_interval(s, factor) {
        assert(is_usual(s, factor, x.bits, x.ms));
        if let Some(limit) = number::scaled(x.bits, factor) {
            lemma_gaps(e, s, x.ms, limit, s.frames@.len() as int, f);
            if check.of_stream(e, s).contains(f) {
                let k = choose|k: int|
                    k < s.frames@.len() && #[trigger] is_late(s, limit, k) && f == late_told(e, s, x.ms, k);
                assert(is_late(s, limit, k));
            }
        }
    }
}

// ---- offsets ---------------------------------------------------------------------------------

/// Whether a stream is timed on a clock, and first or last seen at a moment.
pub open spec fn is_at(s: Stream, clock: Seq<char>, at_end: bool, t: int) -> bool {
    &&& s.clock_kind == ClockKind::Measured
    &&& s.frames@.len() > 0
    &&& s.clock_id@ == clock
    &&& if at_end { ends_at(s.frames@, t) } else { starts_at(s.frames@, t) }
}

/// Whether a stream is the first on its clock at a moment: none is earlier, and none before it as
/// early.
pub open spec fn leads(s: Seq<Stream>, clock: Seq<char>, at_end: bool, a: int, t: int) -> bool {
    &&& 0 <= a < s.len()
    &&& is_at(s[a], clock, at_end, t)
    &&& forall|k: int, u: int|
        0 <= k < s.len() && #[trigger] is_at(s[k], clock, at_end, u) ==> t <= u && (k < a ==> t < u)
}

/// Whether a stream is the last on its clock at a moment: none is later, and none behind it as late.
pub open spec fn trails(s: Seq<Stream>, clock: Seq<char>, at_end: bool, b: int, t: int) -> bool {
    &&& 0 <= b < s.len()
    &&& is_at(s[b], clock, at_end, t)
    &&& forall|k: int, u: int|
        0 <= k < s.len() && #[trigger] is_at(s[k], clock, at_end, u) ==> u <= t && (k > b ==> u < t)
}

/// A stream is at its moment, and at no other.
proof fn lemma_at(s: Stream, clock: Seq<char>, at_end: bool, t: int)
    ensures
        is_at(s, clock, at_end, t) <==> temporal::is_timed(s) && s.clock_id@ == clock && t == temporal::moment(s, at_end),
{
    if s.frames@.len() > 0 {
        lemma_bounds(s.frames@);
        if at_end {
            if ends_at(s.frames@, t) {
                lemma_one_end(s.frames@, t, timeline::latest(s.frames@) as int);
            }
        } else if starts_at(s.frames@, t) {
            lemma_one_start(s.frames@, t, timeline::earliest(s.frames@) as int);
        }
    }
}

/// The first of some streams on a clock.
#[verifier::rlimit(40)]
proof fn lemma_foremost(s: Seq<Stream>, clock: Seq<char>, at_end: bool, n: int)
    requires
        0 <= n <= s.len(),
    ensures
        match temporal::foremost(s, clock, at_end, n) {
            Some(a) => leads(s.take(n), clock, at_end, a, temporal::moment(s[a], at_end)),
            None => forall|k: int, u: int| 0 <= k < n ==> !#[trigger] is_at(s[k], clock, at_end, u),
        },
    decreases n,
{
    if n > 0 {
        lemma_foremost(s, clock, at_end, n - 1);
        let (p, q) = (s.take(n - 1), s.take(n));
        assert forall|k: int, u: int| 0 <= k < n implies (#[trigger] is_at(q[k], clock, at_end, u) <==> temporal::is_timed(s[k])
            && s[k].clock_id@ == clock && u == temporal::moment(s[k], at_end)) by {
            lemma_at(s[k], clock, at_end, u);
        }
        assert forall|k: int, u: int| 0 <= k < n - 1 implies (#[trigger] is_at(p[k], clock, at_end, u) <==> is_at(
            q[k],
            clock,
            at_end,
            u,
        )) by {
            assert(p[k] == q[k]);
        }
        if let Some(a) = temporal::foremost(s, clock, at_end, n) {
            assert(is_at(q[a], clock, at_end, temporal::moment(s[a], at_end))) by {
                if temporal::foremost(s, clock, at_end, n - 1) == Some(a) {
                    assert(is_at(p[a], clock, at_end, temporal::moment(s[a], at_end)));
                }
            }
            assert forall|k: int, u: int| 0 <= k < q.len() && #[trigger] is_at(q[k], clock, at_end, u) implies temporal::moment(
                s[a],
                at_end,
            ) <= u && (k < a ==> temporal::moment(s[a], at_end) < u) by {
                if k < n - 1 {
                    assert(is_at(p[k], clock, at_end, u));
                }
            }
        } else {
            assert forall|k: int, u: int| 0 <= k < n implies !#[trigger] is_at(s[k], clock, at_end, u) by {
                assert(q[k] == s[k]);
                if k == n - 1 {
                    lemma_at(s[k], clock, at_end, u);
                }
            }
        }
    }
}

/// The last of some streams on a clock.
#[verifier::rlimit(40)]
proof fn lemma_hindmost(s: Seq<Stream>, clock: Seq<char>, at_end: bool, n: int)
    requires
        0 <= n <= s.len(),
    ensures
        match temporal::hindmost(s, clock, at_end, n) {
            Some(a) => trails(s.take(n), clock, at_end, a, temporal::moment(s[a], at_end)),
            None => forall|k: int, u: int| 0 <= k < n ==> !#[trigger] is_at(s[k], clock, at_end, u),
        },
    decreases n,
{
    if n > 0 {
        lemma_hindmost(s, clock, at_end, n - 1);
        let (p, q) = (s.take(n - 1), s.take(n));
        assert forall|k: int, u: int| 0 <= k < n implies (#[trigger] is_at(q[k], clock, at_end, u) <==> temporal::is_timed(s[k])
            && s[k].clock_id@ == clock && u == temporal::moment(s[k], at_end)) by {
            lemma_at(s[k], clock, at_end, u);
        }
        assert forall|k: int, u: int| 0 <= k < n - 1 implies (#[trigger] is_at(p[k], clock, at_end, u) <==> is_at(
            q[k],
            clock,
            at_end,
            u,
        )) by {
            assert(p[k] == q[k]);
        }
        if let Some(a) = temporal::hindmost(s, clock, at_end, n) {
            assert(is_at(q[a], clock, at_end, temporal::moment(s[a], at_end))) by {
                if temporal::hindmost(s, clock, at_end, n - 1) == Some(a) {
                    assert(is_at(p[a], clock, at_end, temporal::moment(s[a], at_end)));
                }
            }
            assert forall|k: int, u: int| 0 <= k < q.len() && #[trigger] is_at(q[k], clock, at_end, u) implies u
                <= temporal::moment(s[a], at_end) && (k > a ==> u < temporal::moment(s[a], at_end)) by {
                if k < n - 1 {
                    assert(is_at(p[k], clock, at_end, u));
                }
            }
        } else {
            assert forall|k: int, u: int| 0 <= k < n implies !#[trigger] is_at(s[k], clock, at_end, u) by {
                assert(q[k] == s[k]);
                if k == n - 1 {
                    lemma_at(s[k], clock, at_end, u);
                }
            }
        }
    }
}

/// Whether two streams on one clock are apart at their start or end: one is the first and the other the
/// last, by more than is tolerated and the longer sampling period together.
pub open spec fn are_apart(s: Seq<Stream>, clock: Seq<char>, at_end: bool, tolerance: i64, a: int, b: int, d: int) -> bool {
    &&& a != b
    &&& exists|t: int, u: int|
        #[trigger] leads(s, clock, at_end, a, t) && #[trigger] trails(s, clock, at_end, b, u) && d == (if u - t > i64::MAX {
            i64::MAX as int
        } else {
            u - t
        })
    &&& d > tolerance + larger(timeline::period(s[a]), timeline::period(s[b]))
}

/// What is found apart on a clock is what is.
#[verifier::rlimit(40)]
proof fn lemma_offset(s: Seq<Stream>, clock: Seq<char>, at_end: bool, tolerance: i64, a: int, b: int, d: int)
    ensures
        are_apart(s, clock, at_end, tolerance, a, b, d) <==> (temporal::offset_on(s, clock, at_end, tolerance) matches Some(x)
            && x.early == a && x.late == b && x.offset == d && d >= 0),
{
    let n = s.len() as int;
    assert(s.take(n) =~= s);
    lemma_foremost(s, clock, at_end, n);
    lemma_hindmost(s, clock, at_end, n);
    let (x, y) = (temporal::foremost(s, clock, at_end, n), temporal::hindmost(s, clock, at_end, n));
    if are_apart(s, clock, at_end, tolerance, a, b, d) {
        let (t, u) = choose|t: int, u: int|
            #[trigger] leads(s, clock, at_end, a, t) && #[trigger] trails(s, clock, at_end, b, u) && d == (if u - t
                > i64::MAX {
                i64::MAX as int
            } else {
                u - t
            });
        assert(is_at(s[a], clock, at_end, t));
        assert(x is Some && y is Some);
        let (i, j) = (x->0, y->0);
        assert(is_at(s[i], clock, at_end, temporal::moment(s[i], at_end)));
        assert(is_at(s[j], clock, at_end, temporal::moment(s[j], at_end)));
        assert(is_at(s[b], clock, at_end, u));
        assert(i == a && t == temporal::moment(s[i], at_end));
        assert(j == b && u == temporal::moment(s[j], at_end));
        assert(t <= u);
    }
    if let (Some(i), Some(j)) = (x, y) {
        let (t, u) = (temporal::moment(s[i], at_end), temporal::moment(s[j], at_end));
        assert(leads(s, clock, at_end, i, t) && trails(s, clock, at_end, j, u));
        assert(is_at(s[i], clock, at_end, t));
        assert(t <= u);
    }
}

/// A gap is counted exactly where a frame comes after the one before it, and is the time between them.
#[verifier::rlimit(40)]
pub proof fn law_gaps_are_where_time_goes_on(frames: Seq<Frame>, d: u64)
    ensures
        timeline::positive_gaps(frames).contains(d) <==> exists|k: int|
            1 <= k < frames.len() && (#[trigger] frames[k]).ts > frames[k - 1].ts && d == (if frames[k].ts - frames[k - 1].ts
                > i64::MAX {
                i64::MAX as int
            } else {
                frames[k].ts - frames[k - 1].ts
            }),
    decreases frames.len(),
{
    if frames.len() >= 2 {
        let rest = frames.drop_last();
        let n = frames.len() - 1;
        let old = timeline::positive_gaps(rest);
        let g = timeline::gap(frames[n - 1].ts, frames[n].ts);
        law_gaps_are_where_time_goes_on(rest, d);
        found::lemma_one_more(old, g as u64, d);
        assert forall|j: int| 0 <= j < n implies #[trigger] frames[j] == rest[j] by {}
        if old.contains(d) {
            let k = choose|k: int|
                1 <= k < rest.len() && (#[trigger] rest[k]).ts > rest[k - 1].ts && d == (if rest[k].ts - rest[k - 1].ts
                    > i64::MAX {
                    i64::MAX as int
                } else {
                    rest[k].ts - rest[k - 1].ts
                });
            assert(frames[k] == rest[k] && frames[k - 1] == rest[k - 1]);
        }
        if exists|k: int|
            1 <= k < frames.len() && (#[trigger] frames[k]).ts > frames[k - 1].ts && d == (if frames[k].ts - frames[k - 1].ts
                > i64::MAX {
                i64::MAX as int
            } else {
                frames[k].ts - frames[k - 1].ts
            }) {
            let k = choose|k: int|
                1 <= k < frames.len() && (#[trigger] frames[k]).ts > frames[k - 1].ts && d == (if frames[k].ts
                    - frames[k - 1].ts > i64::MAX {
                    i64::MAX as int
                } else {
                    frames[k].ts - frames[k - 1].ts
                });
            if k < n {
                assert(rest[k] == frames[k] && rest[k - 1] == frames[k - 1]);
            } else {
                assert(g > 0);
            }
        }
        if g > 0 {
            assert(frames[n].ts > frames[n - 1].ts);
        }
    }
}

/// A clock that a timed stream is on is among the clocks.
proof fn lemma_clock_named(s: Seq<Stream>, k: int)
    requires
        0 <= k < s.len(),
        temporal::is_timed(s[k]),
    ensures
        temporal::clock_names(s).contains(s[k].clock_id@),
    decreases s.len(),
{
    let rest = s.drop_last();
    let old = temporal::clock_names(rest);
    if k < s.len() - 1 {
        assert(rest[k] == s[k]);
        lemma_clock_named(rest, k);
    }
    found::lemma_one_more(old, s.last().clock_id@, s[k].clock_id@);
}

/// What is found on each clock.
#[verifier::rlimit(40)]
proof fn lemma_starts(e: Episode, tolerance: i64, clocks: Seq<Seq<char>>, f: FindingView)
    ensures
        temporal::start_findings(e, tolerance, clocks).contains(f) <==> exists|c: Seq<char>, a: int, b: int, d: int|
            #[trigger] are_apart(e.streams@, c, false, tolerance, a, b, d) && clocks.contains(c) && f == temporal::start_finding(
                e.index,
                c,
                e.streams@[b].name@,
                d as nat,
                e.streams@[a].name@,
            ),
    decreases clocks.len(),
{
    let s = e.streams@;
    if clocks.len() > 0 {
        let rest = clocks.drop_last();
        let clock = clocks.last();
        lemma_starts(e, tolerance, rest, f);
        assert(clocks =~= rest.push(clock));
        assert forall|c: Seq<char>| clocks.contains(c) <==> #[trigger] rest.contains(c) || c == clock by {
            found::lemma_one_more(rest, clock, c);
        }
        found::lemma_one_more(rest, clock, clock);
        let old = temporal::start_findings(e, tolerance, rest);
        if let Some(x) = temporal::offset_on(s, clock, false, tolerance) {
            let g = temporal::start_finding(e.index, clock, s[x.late].name@, x.offset, s[x.early].name@);
            found::lemma_one_more(old, g, f);
            lemma_offset(s, clock, false, tolerance, x.early, x.late, x.offset as int);
        }
        if exists|c: Seq<char>, a: int, b: int, d: int|
            #[trigger] are_apart(s, c, false, tolerance, a, b, d) && clocks.contains(c) && f == temporal::start_finding(
                e.index,
                c,
                s[b].name@,
                d as nat,
                s[a].name@,
            ) {
            let (c, a, b, d) = choose|c: Seq<char>, a: int, b: int, d: int|
                #[trigger] are_apart(s, c, false, tolerance, a, b, d) && clocks.contains(c) && f == temporal::start_finding(
                    e.index,
                    c,
                    s[b].name@,
                    d as nat,
                    s[a].name@,
                );
            lemma_offset(s, c, false, tolerance, a, b, d);
            if rest.contains(c) {
                assert(old.contains(f));
            }
        }
    }
}

/// What is found on each clock.
#[verifier::rlimit(40)]
proof fn lemma_ends(e: Episode, tolerance: i64, clocks: Seq<Seq<char>>, f: FindingView)
    ensures
        temporal::end_findings(e, tolerance, clocks).contains(f) <==> exists|c: Seq<char>, a: int, b: int, d: int|
            #[trigger] are_apart(e.streams@, c, true, tolerance, a, b, d) && clocks.contains(c) && f == temporal::end_finding(
                e.index,
                c,
                e.streams@[a].name@,
                d as nat,
                e.streams@[b].name@,
            ),
    decreases clocks.len(),
{
    let s = e.streams@;
    if clocks.len() > 0 {
        let rest = clocks.drop_last();
        let clock = clocks.last();
        lemma_ends(e, tolerance, rest, f);
        assert(clocks =~= rest.push(clock));
        assert forall|c: Seq<char>| clocks.contains(c) <==> #[trigger] rest.contains(c) || c == clock by {
            found::lemma_one_more(rest, clock, c);
        }
        found::lemma_one_more(rest, clock, clock);
        let old = temporal::end_findings(e, tolerance, rest);
        if let Some(x) = temporal::offset_on(s, clock, true, tolerance) {
            let g = temporal::end_finding(e.index, clock, s[x.early].name@, x.offset, s[x.late].name@);
            found::lemma_one_more(old, g, f);
            lemma_offset(s, clock, true, tolerance, x.early, x.late, x.offset as int);
        }
        if exists|c: Seq<char>, a: int, b: int, d: int|
            #[trigger] are_apart(s, c, true, tolerance, a, b, d) && clocks.contains(c) && f == temporal::end_finding(
                e.index,
                c,
                s[a].name@,
                d as nat,
                s[b].name@,
            ) {
            let (c, a, b, d) = choose|c: Seq<char>, a: int, b: int, d: int|
                #[trigger] are_apart(s, c, true, tolerance, a, b, d) && clocks.contains(c) && f == temporal::end_finding(
                    e.index,
                    c,
                    s[a].name@,
                    d as nat,
                    s[b].name@,
                );
            lemma_offset(s, c, true, tolerance, a, b, d);
            if rest.contains(c) {
                assert(old.contains(f));
            }
        }
    }
}

/// A clock that streams are apart on is one of the clocks.
proof fn lemma_apart_clock(s: Seq<Stream>, c: Seq<char>, at_end: bool, tolerance: i64, a: int, b: int, d: int)
    requires
        are_apart(s, c, at_end, tolerance, a, b, d),
    ensures
        seqs::text_set(temporal::clock_names(s)).contains(c),
{
    let (t, u) = choose|t: int, u: int|
        #[trigger] leads(s, c, at_end, a, t) && #[trigger] trails(s, c, at_end, b, u) && d == (if u - t > i64::MAX {
            i64::MAX as int
        } else {
            u - t
        });
    lemma_clock_named(s, a);
    seqs::lemma_distinct_contains(temporal::clock_names(s), seqs::text_order(), c);
}

/// On each clock of an episode, the stream that starts last is reported against the one that starts
/// first exactly where they are apart.
pub proof fn law_late_starts_are_reported(check: StartOffset, e: Episode, f: FindingView)
    ensures
        check.of_episode(e).contains(f) <==> exists|c: Seq<char>, a: int, b: int, d: int|
            #[trigger] are_apart(e.streams@, c, false, check.tolerance_ns, a, b, d) && f == temporal::start_finding(
                e.index,
                c,
                e.streams@[b].name@,
                d as nat,
                e.streams@[a].name@,
            ),
{
    let s = e.streams@;
    lemma_starts(e, check.tolerance_ns, seqs::text_set(temporal::clock_names(s)), f);
    assert forall|c: Seq<char>, a: int, b: int, d: int|
        #[trigger] are_apart(s, c, false, check.tolerance_ns, a, b, d) implies seqs::text_set(temporal::clock_names(s)).contains(
    c) by {
        lemma_apart_clock(s, c, false, check.tolerance_ns, a, b, d);
    }
}

/// On each clock of an episode, the stream that ends first is reported against the one that ends last
/// exactly where they are apart.
pub proof fn law_early_ends_are_reported(check: EndOffset, e: Episode, f: FindingView)
    ensures
        check.of_episode(e).contains(f) <==> exists|c: Seq<char>, a: int, b: int, d: int|
            #[trigger] are_apart(e.streams@, c, true, check.tolerance_ns, a, b, d) && f == temporal::end_finding(
                e.index,
                c,
                e.streams@[a].name@,
                d as nat,
                e.streams@[b].name@,
            ),
{
    let s = e.streams@;
    lemma_ends(e, check.tolerance_ns, seqs::text_set(temporal::clock_names(s)), f);
    assert forall|c: Seq<char>, a: int, b: int, d: int|
        #[trigger] are_apart(s, c, true, check.tolerance_ns, a, b, d) implies seqs::text_set(temporal::clock_names(s)).contains(
    c) by {
        lemma_apart_clock(s, c, true, check.tolerance_ns, a, b, d);
    }
}

/// The reports of a dataset on starts and ends are those of its episodes.
pub proof fn law_offsets_are_reported_by_episode(start: StartOffset, end: EndOffset, dataset: &Dataset, f: FindingView)
    ensures
        start.report(dataset).contains(f) <==> exists|i: int|
            0 <= i < dataset.episodes@.len() && start.of_episode(#[trigger] dataset.episodes@[i]).contains(f),
        end.report(dataset).contains(f) <==> exists|i: int|
            0 <= i < dataset.episodes@.len() && end.of_episode(#[trigger] dataset.episodes@[i]).contains(f),
{
    found::lemma_by_episode(start, dataset.episodes@, f);
    found::lemma_by_episode(end, dataset.episodes@, f);
}

// ---- rates that change -----------------------------------------------------------------------

/// Whether a stream of a name declares a rate that is one.
pub open spec fn declares_rate(s: Stream, name: Seq<char>) -> bool {
    s.name@ == name && (s.declared_rate_hz matches Some(r) && 0 < r < number::INFINITY)
}

/// Whether a stream is the first of its name to declare a rate.
pub open spec fn is_first_rate(s: Seq<(Episode, Stream)>, p: int, name: Seq<char>) -> bool {
    0 <= p < s.len() && declares_rate(s[p].1, name) && forall|k: int|
        0 <= k < p ==> !declares_rate((#[trigger] s[k]).1, name)
}

/// Whether a stream declares a rate off the first of its name by more than a hundredth.
pub open spec fn is_off_first(s: Seq<(Episode, Stream)>, p: int, q: int, name: Seq<char>) -> bool {
    is_first_rate(s, p, name) && p < q < s.len() && declares_rate(s[q].1, name) && deviation::is_beyond(
        s[q].1.declared_rate_hz->0 as int,
        s[p].1.declared_rate_hz->0 as int,
        double::HUNDREDTH as int,
    )
}

/// The first rate of a name.
proof fn lemma_first_rate(s: Seq<(Episode, Stream)>, name: Seq<char>)
    ensures
        match temporal::first_rate(s, name) {
            Some((r, _)) => exists|p: int| #[trigger] is_first_rate(s, p, name) && s[p].1.declared_rate_hz == Some(r),
            None => forall|k: int| 0 <= k < s.len() ==> !declares_rate((#[trigger] s[k]).1, name),
        },
    decreases s.len(),
{
    if s.len() > 0 {
        let rest = s.drop_last();
        let n = s.len() - 1;
        lemma_first_rate(rest, name);
        assert(s[n] == s.last());
        assert forall|j: int| 0 <= j < n implies #[trigger] s[j] == rest[j] by {}
        if let Some((r, _)) = temporal::first_rate(rest, name) {
            let p = choose|p: int| #[trigger] is_first_rate(rest, p, name) && rest[p].1.declared_rate_hz == Some(r);
            assert(is_first_rate(s, p, name));
        } else if declares_rate(s.last().1, name) {
            assert(is_first_rate(s, n, name));
        }
    }
}

/// There is one first.
proof fn lemma_one_first(s: Seq<(Episode, Stream)>, p: int, q: int, name: Seq<char>)
    requires
        is_first_rate(s, p, name),
        is_first_rate(s, q, name),
    ensures
        p == q,
{
    assert(p >= q || !declares_rate(s[p].1, name));
    assert(q >= p || !declares_rate(s[q].1, name));
}

/// A name has departed exactly where a stream of it is off the first.
#[verifier::rlimit(40)]
proof fn lemma_rate_departed(s: Seq<(Episode, Stream)>, name: Seq<char>)
    ensures
        temporal::has_departed(s, name) <==> exists|p: int, q: int| #[trigger] is_off_first(s, p, q, name),
    decreases s.len(),
{
    if s.len() > 0 {
        let rest = s.drop_last();
        let n = s.len() - 1;
        let x = s.last().1;
        lemma_rate_departed(rest, name);
        lemma_first_rate(rest, name);
        assert(s[n] == s.last());
        assert forall|j: int| 0 <= j < n implies #[trigger] s[j] == rest[j] by {}
        if temporal::has_departed(rest, name) {
            let (p, q) = choose|p: int, q: int| #[trigger] is_off_first(rest, p, q, name);
            assert(is_off_first(s, p, q, name));
        }
        if x.name@ == name && temporal::rate_departs(rest, x) {
            let r = (temporal::first_rate(rest, name)->0).0;
            let p = choose|p: int| #[trigger] is_first_rate(rest, p, name) && rest[p].1.declared_rate_hz == Some(r);
            assert(is_off_first(s, p, n, name));
        }
        if exists|p: int, q: int| #[trigger] is_off_first(s, p, q, name) {
            let (p, q) = choose|p: int, q: int| #[trigger] is_off_first(s, p, q, name);
            assert(rest[p] == s[p]);
            assert(is_first_rate(rest, p, name));
            if q < n {
                assert(is_off_first(rest, p, q, name));
            } else {
                assert(declares_rate(rest[p].1, name));
                let r = (temporal::first_rate(rest, name)->0).0;
                let k = choose|k: int| #[trigger] is_first_rate(rest, k, name) && rest[k].1.declared_rate_hz == Some(r);
                lemma_one_first(rest, p, k, name);
            }
        }
    }
}

/// What is reported of rates.
proof fn lemma_rate_findings(s: Seq<(Episode, Stream)>, name: Seq<char>)
    ensures
        found::finds_named(temporal::rate_findings(s), RATE_INCONSISTENT_CODE@, name) <==> temporal::has_departed(s, name),
    decreases s.len(),
{
    if s.len() > 0 {
        let rest = s.drop_last();
        let old = temporal::rate_findings(rest);
        let new = temporal::rate_findings(s);
        lemma_rate_findings(rest, name);
        if new.len() > old.len() {
            let g = new.last();
            assert(new =~= old + seq![g]);
            assert(g.code == RATE_INCONSISTENT_CODE@ && g.location == (LocationView::Stream {
                episode: s.last().0.index,
                stream: s.last().1.name@,
            }));
            found::lemma_named_both(old, seq![g], RATE_INCONSISTENT_CODE@, name);
            assert(seq![g][0] == g);
        } else {
            assert(new == old);
        }
    }
}

/// A name is reported exactly where a stream of it declares a rate off the first that one of it declares
/// by more than a hundredth.
pub proof fn law_changing_rates_are_reported(check: RateConsistency, dataset: &Dataset, name: Seq<char>)
    ensures
        found::finds_named(check.report(dataset), RATE_INCONSISTENT_CODE@, name) <==> exists|p: int, q: int|
            #[trigger] is_off_first(walk::pairs(dataset.episodes@), p, q, name),
{
    lemma_rate_findings(walk::pairs(dataset.episodes@), name);
    lemma_rate_departed(walk::pairs(dataset.episodes@), name);
}

// ---- durations -------------------------------------------------------------------------------

/// The duration of an episode, where it has one.
pub open spec fn duration() -> spec_fn(Episode) -> Seq<u64> {
    |e: Episode|
        match e.duration_ns {
            Some(d) => seq![d],
            None => Seq::empty(),
        }
}

/// The durations are those of the episodes that have one.
proof fn lemma_durations(s: Seq<Episode>)
    ensures
        temporal::durations(s) == seqs::gather(s, duration()),
    decreases s.len(),
{
    if s.len() > 0 {
        lemma_durations(s.drop_last());
        assert(temporal::durations(s) =~= temporal::durations(s.drop_last()) + duration()(s.last()));
    }
}

/// Whether a finding tells of an episode that is far off a median length: less than its part by a
/// factor, or more than the factor of it.
pub open spec fn tells_of_length(check: EpisodeDuration, median: u64, e: Episode, f: FindingView) -> bool {
    e.duration_ns matches Some(d) && {
        let bits = number::double_of(d as nat) as int;
        let least = number::quotient(median, check.factor);
        &&& bits < (if least < 1 { 1 } else { least }) || bits > number::product(median, check.factor)
        &&& f == temporal::duration_finding(
            e.index,
            d as nat,
            temporal::times_text(d, median),
            if bits < median { "shorter"@ } else { "longer"@ },
            number::double_millis_text(median),
        )
    }
}

/// What is found up to an episode.
#[verifier::rlimit(40)]
proof fn lemma_lengths(check: EpisodeDuration, s: Seq<Episode>, median: u64, f: FindingView)
    ensures
        temporal::duration_findings(s, median, check.factor).contains(f) <==> exists|i: int|
            0 <= i < s.len() && tells_of_length(check, median, #[trigger] s[i], f),
    decreases s.len(),
{
    if s.len() > 0 {
        let rest = s.drop_last();
        let n = s.len() - 1;
        lemma_lengths(check, rest, median, f);
        let old = temporal::duration_findings(rest, median, check.factor);
        if let Some(d) = s.last().duration_ns {
            found::lemma_one_more(
                old,
                temporal::duration_finding(
                    s.last().index,
                    d as nat,
                    temporal::times_text(d, median),
                    if number::double_of(d as nat) < median { "shorter"@ } else { "longer"@ },
                    number::double_millis_text(median),
                ),
                f,
            );
        }
        if old.contains(f) {
            let i = choose|i: int| 0 <= i < rest.len() && tells_of_length(check, median, #[trigger] rest[i], f);
            assert(tells_of_length(check, median, s[i], f));
        }
        if tells_of_length(check, median, s.last(), f) {
            assert(tells_of_length(check, median, s[n], f));
        }
        if exists|i: int| 0 <= i < s.len() && tells_of_length(check, median, #[trigger] s[i], f) {
            let i = choose|i: int| 0 <= i < s.len() && tells_of_length(check, median, #[trigger] s[i], f);
            if i < n {
                assert(tells_of_length(check, median, rest[i], f));
            }
        }
    }
}

/// Of at least four episodes that have a duration, each far shorter or far longer than the median of
/// them is reported; of fewer, none.
pub proof fn law_unusual_lengths_are_reported(check: EpisodeDuration, dataset: &Dataset, f: FindingView)
    ensures
        ({
            let all = seqs::sorted(seqs::gather(dataset.episodes@, duration()), seqs::number_order());
            check.report(dataset).contains(f) <==> all.len() >= 4 && temporal::ONE < check.factor < number::INFINITY
                && timeline::median(all) != 0 && exists|i: int|
                0 <= i < dataset.episodes@.len() && tells_of_length(
                    check,
                    timeline::median(all),
                    #[trigger] dataset.episodes@[i],
                    f,
                )
        }),
{
    let all = seqs::sorted(seqs::gather(dataset.episodes@, duration()), seqs::number_order());
    lemma_durations(dataset.episodes@);
    lemma_lengths(check, dataset.episodes@, timeline::median(all), f);
}

/// The median of an odd number of sorted values is the one in the middle; of an even number, halfway
/// between the two there.
pub proof fn law_a_median_is_in_the_middle(s: Seq<u64>, n: int)
    requires
        0 <= n,
    ensures
        s.len() == 2 * n + 1 ==> timeline::median(s) == number::double_of(s[n] as nat),
        s.len() == 2 * n + 2 ==> timeline::median(s) == number::nearest_bits(
            number::significant(s[n] as nat) + number::significant(s[n + 1] as nat),
            2,
        ) as u64,
{
    if s.len() == 2 * n + 1 {
        assert(s.len() as int / 2 == n);
    }
    if s.len() == 2 * n + 2 {
        assert(s.len() as int / 2 == n + 1);
    }
}

// ---- clocks that carry no time ---------------------------------------------------------------

/// Whether a stream carries a step index on a clock.
pub open spec fn is_stepped(s: Stream, clock: Seq<char>) -> bool {
    s.clock_kind == ClockKind::StepIndex && s.clock_id@ == clock
}

/// The clocks of streams that carry a step index.
proof fn lemma_step_clocks(s: Seq<(Episode, Stream)>, clock: Seq<char>)
    ensures
        temporal::step_clocks(s).contains(clock) <==> exists|k: int| 0 <= k < s.len() && is_stepped((#[trigger] s[k]).1, clock),
    decreases s.len(),
{
    if s.len() > 0 {
        let rest = s.drop_last();
        let n = s.len() - 1;
        lemma_step_clocks(rest, clock);
        found::lemma_one_more(temporal::step_clocks(rest), s.last().1.clock_id@, clock);
        if temporal::step_clocks(rest).contains(clock) {
            let k = choose|k: int| 0 <= k < rest.len() && is_stepped((#[trigger] rest[k]).1, clock);
            assert(is_stepped(s[k].1, clock));
        }
        if is_stepped(s.last().1, clock) {
            assert(is_stepped(s[n].1, clock));
        }
        if exists|k: int| 0 <= k < s.len() && is_stepped((#[trigger] s[k]).1, clock) {
            let k = choose|k: int| 0 <= k < s.len() && is_stepped((#[trigger] s[k]).1, clock);
            if k < n {
                assert(is_stepped(rest[k].1, clock));
            }
        }
    }
}

/// The names of streams that carry a step index on a clock.
proof fn lemma_step_streams(s: Seq<(Episode, Stream)>, clock: Seq<char>, name: Seq<char>)
    ensures
        temporal::step_streams(s, clock).contains(name) <==> exists|k: int|
            0 <= k < s.len() && is_stepped((#[trigger] s[k]).1, clock) && s[k].1.name@ == name,
    decreases s.len(),
{
    if s.len() > 0 {
        let rest = s.drop_last();
        let n = s.len() - 1;
        lemma_step_streams(rest, clock, name);
        found::lemma_one_more(temporal::step_streams(rest, clock), s.last().1.name@, name);
        if temporal::step_streams(rest, clock).contains(name) {
            let k = choose|k: int| 0 <= k < rest.len() && is_stepped((#[trigger] rest[k]).1, clock) && rest[k].1.name@ == name;
            assert(is_stepped(s[k].1, clock));
        }
        if is_stepped(s.last().1, clock) {
            assert(is_stepped(s[n].1, clock));
        }
        if exists|k: int| 0 <= k < s.len() && is_stepped((#[trigger] s[k]).1, clock) && s[k].1.name@ == name {
            let k = choose|k: int| 0 <= k < s.len() && is_stepped((#[trigger] s[k]).1, clock) && s[k].1.name@ == name;
            if k < n {
                assert(is_stepped(rest[k].1, clock));
            }
        }
    }
}

/// What is said of each clock.
#[verifier::rlimit(40)]
proof fn lemma_clocks(s: Seq<(Episode, Stream)>, clocks: Seq<Seq<char>>, f: FindingView)
    ensures
        temporal::clock_findings(s, clocks).contains(f) <==> exists|c: Seq<char>|
            #[trigger] clocks.contains(c) && f == temporal::unmeasured_clock_finding(
                c,
                seqs::text_set(temporal::step_streams(s, c)).len(),
                lists::a_few(seqs::text_set(temporal::step_streams(s, c))),
            ),
    decreases clocks.len(),
{
    if clocks.len() > 0 {
        let rest = clocks.drop_last();
        let clock = clocks.last();
        lemma_clocks(s, rest, f);
        assert(clocks =~= rest.push(clock));
        let names = seqs::text_set(temporal::step_streams(s, clock));
        found::lemma_one_more(
            temporal::clock_findings(s, rest),
            temporal::unmeasured_clock_finding(clock, names.len(), lists::a_few(names)),
            f,
        );
        found::lemma_one_more(rest, clock, clock);
        assert forall|c: Seq<char>| #[trigger] clocks.contains(c) <==> rest.contains(c) || c == clock by {
            found::lemma_one_more(rest, clock, c);
        }
        if temporal::clock_findings(s, rest).contains(f) {
            let c = choose|c: Seq<char>|
                #[trigger] rest.contains(c) && f == temporal::unmeasured_clock_finding(
                    c,
                    seqs::text_set(temporal::step_streams(s, c)).len(),
                    lists::a_few(seqs::text_set(temporal::step_streams(s, c))),
                );
            assert(clocks.contains(c));
        }
    }
}

/// A clock is said to carry no measured time exactly where a stream on it carries a step index, and the
/// streams named with it are those.
#[verifier::rlimit(40)]
pub proof fn law_step_clocks_are_disclosed(check: ClockMeasurability, dataset: &Dataset, f: FindingView)
    ensures
        check.report(dataset).contains(f) <==> exists|c: Seq<char>, names: Seq<Seq<char>>|
            #[trigger] are_stepped(dataset.episodes@, c, names) && f == temporal::unmeasured_clock_finding(
                c,
                names.len(),
                lists::a_few(names),
            ),
{
    let eps = dataset.episodes@;
    let s = walk::pairs(eps);
    let clocks = seqs::text_set(temporal::step_clocks(s));
    lemma_clocks(s, clocks, f);
    assert forall|c: Seq<char>, k: int| 0 <= k < s.len() && is_stepped((#[trigger] s[k]).1, c) implies #[trigger] is_on(
        eps,
        c,
        s[k].1.name@,
    ) by {
        found::lemma_pairs(eps, s[k]);
        assert(s.contains(s[k]));
        let (i, j) = choose|i: int, j: int|
            0 <= i < eps.len() && 0 <= j < eps[i].streams@.len() && s[k] == (eps[i], #[trigger] eps[i].streams@[j]);
        assert(is_stepped(eps[i].streams@[j], c));
    }
    assert forall|c: Seq<char>, name: Seq<char>| #[trigger] is_on(eps, c, name) implies temporal::step_streams(s, c).contains(
        name,
    ) && clocks.contains(c) by {
        let (i, j) = choose|i: int, j: int|
            0 <= i < eps.len() && 0 <= j < eps[i].streams@.len() && is_stepped(#[trigger] eps[i].streams@[j], c)
                && eps[i].streams@[j].name@ == name;
        found::lemma_pairs(eps, (eps[i], eps[i].streams@[j]));
        let k = choose|k: int| 0 <= k < s.len() && s[k] == (eps[i], eps[i].streams@[j]);
        assert(is_stepped(s[k].1, c));
        lemma_step_streams(s, c, name);
        lemma_step_clocks(s, c);
        seqs::lemma_distinct_contains(temporal::step_clocks(s), seqs::text_order(), c);
    }
    assert forall|c: Seq<char>| #[trigger] clocks.contains(c) implies are_stepped(
        eps,
        c,
        seqs::text_set(temporal::step_streams(s, c)),
    ) by {
        let names = seqs::text_set(temporal::step_streams(s, c));
        seqs::lemma_text_set_ordered(temporal::step_streams(s, c));
        seqs::lemma_distinct_contains(temporal::step_clocks(s), seqs::text_order(), c);
        lemma_step_clocks(s, c);
        let k = choose|k: int| 0 <= k < s.len() && is_stepped((#[trigger] s[k]).1, c);
        assert(is_on(eps, c, s[k].1.name@));
        assert forall|name: Seq<char>| names.contains(name) <==> #[trigger] is_on(eps, c, name) by {
            seqs::lemma_distinct_contains(temporal::step_streams(s, c), seqs::text_order(), name);
            lemma_step_streams(s, c, name);
            if names.contains(name) {
                let m = choose|m: int| 0 <= m < s.len() && is_stepped((#[trigger] s[m]).1, c) && s[m].1.name@ == name;
                assert(is_on(eps, c, s[m].1.name@));
            }
        }
        assert(names.contains(s[k].1.name@));
    }
    if exists|c: Seq<char>, names: Seq<Seq<char>>|
        #[trigger] are_stepped(eps, c, names) && f == temporal::unmeasured_clock_finding(c, names.len(), lists::a_few(names)) {
        let (c, names) = choose|c: Seq<char>, names: Seq<Seq<char>>|
            #[trigger] are_stepped(eps, c, names) && f == temporal::unmeasured_clock_finding(
                c,
                names.len(),
                lists::a_few(names),
            );
        assert(names.contains(names[0]));
        assert(is_on(eps, c, names[0]));
        assert(clocks.contains(c));
        let other = seqs::text_set(temporal::step_streams(s, c));
        assert(are_stepped(eps, c, other));
        lemma_one_list(eps, c, names, other);
    }
}

/// Whether a stream of a name carries a step index on a clock.
pub open spec fn is_on(eps: Seq<Episode>, clock: Seq<char>, name: Seq<char>) -> bool {
    exists|i: int, j: int|
        0 <= i < eps.len() && 0 <= j < eps[i].streams@.len() && is_stepped(#[trigger] eps[i].streams@[j], clock)
            && eps[i].streams@[j].name@ == name
}

/// Whether names, in order, are those of the streams that carry a step index on a clock, and there is
/// one.
pub open spec fn are_stepped(eps: Seq<Episode>, clock: Seq<char>, names: Seq<Seq<char>>) -> bool {
    &&& names.len() > 0
    &&& seqs::texts_ordered(names)
    &&& forall|name: Seq<char>| names.contains(name) <==> #[trigger] is_on(eps, clock, name)
}

/// The names are in one order.
proof fn lemma_one_list(eps: Seq<Episode>, clock: Seq<char>, a: Seq<Seq<char>>, b: Seq<Seq<char>>)
    requires
        are_stepped(eps, clock, a),
        are_stepped(eps, clock, b),
    ensures
        a == b,
{
    let lt = seqs::text_order();
    assert(seqs::asymmetric(lt)) by {
        assert forall|x: Seq<char>, y: Seq<char>| #[trigger] lt(x, y) implies !lt(y, x) by {
            text::lemma_str_trichotomy(x, y);
        }
    }
    assert forall|x: Seq<char>| a.contains(x) <==> b.contains(x) by {
        assert(a.contains(x) == is_on(eps, clock, x));
    }
    seqs::lemma_strict_is_unique(a, b, lt);
}

} // verus!
