//! Laws of the structural checks.

use vstd::prelude::*;
use vstd::string::*;

use crate::cdm::{Dataset, Episode, Frame, Modality, Stream, META_DECLARED_EPISODES, META_DECLARED_FRAMES};
use crate::check::{Check, FindingView, LocationView};
use crate::checks::structural;
use crate::checks::structural::{
    ContentMeasurability, DeclaredEpisodeCount, DeclaredFrameCount, DeclaredLength, DegenerateEpisode, EmptyEpisodes,
    EpisodeBoundary, EpisodeContinuity, FrozenEpisode, InvertedBounds, ShapeConsistency, ShortStreams, StepAlignment, StreamPresence,
    StuckStream, BOUNDARY_CODE, CONTINUITY_CODE, EPISODE_COUNT_CODE, FRAME_COUNT_CODE, FROZEN_CODE,
    PRESENCE_CODE, SHAPE_CODE, STEP_CODE, STUCK_CODE, UNCOMPARED_CODE, UNFINGERPRINTED_CODE,
};
use crate::checks::walk;
use crate::checks::walk::{EpisodeRule, StreamRule};
use crate::laws::found;
use crate::seqs;

verus! {

// ---- lengths ---------------------------------------------------------------------------------

/// The length of an episode is that of its longest stream.
pub proof fn law_length_is_of_the_longest_stream(s: Seq<Stream>)
    ensures
        forall|j: int| 0 <= j < s.len() ==> (#[trigger] s[j]).frames@.len() <= structural::longest(s),
        s.len() > 0 ==> exists|j: int| 0 <= j < s.len() && (#[trigger] s[j]).frames@.len() == structural::longest(s),
        s.len() == 0 ==> structural::longest(s) == 0,
    decreases s.len(),
{
    if s.len() > 0 {
        let rest = s.drop_last();
        let n = s.len() - 1;
        law_length_is_of_the_longest_stream(rest);
        assert forall|j: int| 0 <= j < s.len() implies (#[trigger] s[j]).frames@.len() <= structural::longest(s) by {
            if j < n {
                assert(rest[j] == s[j]);
            }
        }
        if s.last().frames@.len() > structural::longest(rest) || rest.len() == 0 {
            assert(s[n].frames@.len() == structural::longest(s));
        } else {
            let j = choose|j: int| 0 <= j < rest.len() && (#[trigger] rest[j]).frames@.len() == structural::longest(rest);
            assert(s[j].frames@.len() == structural::longest(s));
        }
    }
}

/// The length of a dataset is that of its episodes together.
pub proof fn law_lengths_add_up(a: Seq<Episode>, b: Seq<Episode>)
    ensures
        structural::total_frames(a + b) == structural::total_frames(a) + structural::total_frames(b),
        a.len() == 1 ==> structural::total_frames(a) == structural::longest(a[0].streams@),
    decreases b.len(),
{
    if b.len() == 0 {
        assert(a + b =~= a);
    } else {
        law_lengths_add_up(a, b.drop_last());
        assert((a + b).drop_last() =~= a + b.drop_last());
    }
    if a.len() == 1 {
        assert(structural::total_frames(a.drop_last()) == 0);
    }
}

/// A count of episodes that is declared is reported exactly where there are fewer or more.
pub proof fn law_a_wrong_count_of_episodes_is_reported(check: DeclaredEpisodeCount, dataset: &Dataset)
    ensures
        found::finds_any(check.report(dataset), EPISODE_COUNT_CODE@) <==> (structural::declared_number(
            dataset,
            META_DECLARED_EPISODES@,
        ) matches Some(n) && n != dataset.episodes@.len()),
{
    if let Some(n) = structural::declared_number(dataset, META_DECLARED_EPISODES@) {
        if n != dataset.episodes@.len() {
            assert(check.report(dataset)[0].code == EPISODE_COUNT_CODE@);
        }
    }
}

/// A count of frames that is declared is reported exactly where the episodes have fewer or more.
pub proof fn law_a_wrong_count_of_frames_is_reported(check: DeclaredFrameCount, dataset: &Dataset)
    ensures
        found::finds_any(check.report(dataset), FRAME_COUNT_CODE@) <==> (structural::declared_number(
            dataset,
            META_DECLARED_FRAMES@,
        ) matches Some(n) && n != structural::total_frames(dataset.episodes@)),
{
    if let Some(n) = structural::declared_number(dataset, META_DECLARED_FRAMES@) {
        if n != structural::total_frames(dataset.episodes@) {
            assert(check.report(dataset)[0].code == FRAME_COUNT_CODE@);
        }
    }
}

// ---- bounds ----------------------------------------------------------------------------------

/// Whether two episodes have an index.
pub open spec fn is_repeated(s: Seq<Episode>, index: u64) -> bool {
    exists|p: int, q: int| 0 <= p < q < s.len() && (#[trigger] s[p]).index == index && (#[trigger] s[q]).index == index
}

/// Whether an episode has an index.
pub open spec fn is_index(s: Seq<Episode>, index: u64) -> bool {
    exists|p: int| 0 <= p < s.len() && (#[trigger] s[p]).index == index
}

/// How often an index occurs.
#[verifier::rlimit(40)]
proof fn lemma_occurrences(s: Seq<Episode>, index: u64)
    ensures
        structural::occurrences(s, index) > 0 <==> is_index(s, index),
        structural::occurrences(s, index) > 1 <==> is_repeated(s, index),
    decreases s.len(),
{
    if s.len() > 0 {
        let rest = s.drop_last();
        let n = s.len() - 1;
        lemma_occurrences(rest, index);
        assert(s[n] == s.last());
        if is_index(rest, index) {
            let p = choose|p: int| 0 <= p < rest.len() && (#[trigger] rest[p]).index == index;
            assert(s[p].index == index);
            if s.last().index == index {
                assert(s[n].index == index);
                assert(is_repeated(s, index));
            }
        }
        if is_repeated(rest, index) {
            let (p, q) = choose|p: int, q: int|
                0 <= p < q < rest.len() && (#[trigger] rest[p]).index == index && (#[trigger] rest[q]).index == index;
            assert(s[p].index == index && s[q].index == index);
        }
        if is_index(s, index) {
            let p = choose|p: int| 0 <= p < s.len() && (#[trigger] s[p]).index == index;
            if p < n {
                assert(rest[p].index == index);
            }
        }
        if is_repeated(s, index) {
            let (p, q) = choose|p: int, q: int|
                0 <= p < q < s.len() && (#[trigger] s[p]).index == index && (#[trigger] s[q]).index == index;
            assert(rest[p].index == index);
            if q < n {
                assert(rest[q].index == index);
            }
        }
    }
}

/// What is said of indices up to an episode.
proof fn lemma_repeats(s: Seq<Episode>, n: int, index: u64)
    requires
        0 <= n <= s.len(),
    ensures
        found::finds(structural::duplicate_indices(s, n), BOUNDARY_CODE@, LocationView::Episode { episode: index }) <==> is_index(
            s.take(n),
            index,
        ) && is_repeated(s, index),
    decreases n,
{
    let at = LocationView::Episode { episode: index };
    if n > 0 {
        let x = s[n - 1].index;
        let old = structural::duplicate_indices(s, n - 1);
        let g = structural::duplicate_index(x, structural::occurrences(s, x));
        lemma_repeats(s, n - 1, index);
        lemma_occurrences(s, x);
        lemma_occurrences(s.take(n - 1), x);
        assert(old.push(g) =~= old + seq![g]);
        found::lemma_finds_both(old, seq![g], BOUNDARY_CODE@, at);
        found::lemma_finds_one(g, BOUNDARY_CODE@, at);
        assert(s.take(n)[n - 1].index == x);
        if is_index(s.take(n - 1), index) {
            let p = choose|p: int| 0 <= p < n - 1 && (#[trigger] s.take(n - 1)[p]).index == index;
            assert(s.take(n)[p].index == index);
        }
        if is_index(s.take(n), index) && index != x {
            let p = choose|p: int| 0 <= p < n && (#[trigger] s.take(n)[p]).index == index;
            assert(s.take(n - 1)[p].index == index);
        }
    } else {
        assert(s.take(0).len() == 0);
    }
}

/// An episode's bounds are reported exactly where another has its index, or one of its index ends before
/// it starts or declares another length than that of its longest stream.
#[verifier::rlimit(40)]
pub proof fn law_bounds_are_reported(check: EpisodeBoundary, dataset: &Dataset, index: u64)
    ensures
        found::finds(check.report(dataset), BOUNDARY_CODE@, LocationView::Episode { episode: index }) <==> {
            ||| is_repeated(dataset.episodes@, index)
            ||| exists|i: int|
                0 <= i < dataset.episodes@.len() && (#[trigger] dataset.episodes@[i]).index == index && ((
                dataset.episodes@[i].start_ts matches Some(a) && dataset.episodes@[i].end_ts matches Some(b) && b < a) || (
                dataset.episodes@[i].declared_frame_count matches Some(n) && n != structural::longest(
                    dataset.episodes@[i].streams@,
                )))
        },
{
    let s = dataset.episodes@;
    let at = LocationView::Episode { episode: index };
    let code = BOUNDARY_CODE@;
    let a = structural::duplicate_indices(s, s.len() as int);
    let b = walk::by_episode(InvertedBounds, s);
    let c = walk::by_episode(DeclaredLength, s);
    lemma_repeats(s, s.len() as int, index);
    seqs::lemma_take_all(s);
    found::lemma_finds_both(a, b, code, at);
    found::lemma_finds_both(a + b, c, code, at);
    found::lemma_finds_by_episode(InvertedBounds, s, code, at);
    found::lemma_finds_by_episode(DeclaredLength, s, code, at);
    assert forall|i: int| 0 <= i < s.len() implies (found::finds(InvertedBounds.of_episode(#[trigger] s[i]), code, at) <==> (
    s[i].index == index && (s[i].start_ts matches Some(x) && s[i].end_ts matches Some(y) && y < x))) by {
        let r = InvertedBounds.of_episode(s[i]);
        if r.len() > 0 {
            assert(r[0].code == code && r[0].location == (LocationView::Episode { episode: s[i].index }));
        }
    }
    assert forall|i: int| 0 <= i < s.len() implies (found::finds(DeclaredLength.of_episode(#[trigger] s[i]), code, at) <==> (
    s[i].index == index && (s[i].declared_frame_count matches Some(n) && n != structural::longest(s[i].streams@)))) by {
        let r = DeclaredLength.of_episode(s[i]);
        if r.len() > 0 {
            assert(r[0].code == code && r[0].location == (LocationView::Episode { episode: s[i].index }));
        }
    }
    if is_repeated(s, index) {
        let (p, q) = choose|p: int, q: int|
            0 <= p < q < s.len() && (#[trigger] s[p]).index == index && (#[trigger] s[q]).index == index;
        assert(is_index(s, index));
    }
}

// ---- what is empty ---------------------------------------------------------------------------

/// A dataset without episodes is reported as that, and as nothing else; an episode without streams is
/// reported; and a stream without frames, or with one that is not latched, is.
#[verifier::rlimit(40)]
pub proof fn law_what_is_empty_is_reported(check: DegenerateEpisode, dataset: &Dataset, index: u64, name: Seq<char>)
    ensures
        found::finds(check.report(dataset), "STRUCTURAL.EMPTY_DATASET"@, LocationView::Dataset) <==> dataset.episodes@.len() == 0,
        found::finds(check.report(dataset), "STRUCTURAL.EMPTY_EPISODE"@, LocationView::Episode { episode: index })
            <==> exists|i: int|
            0 <= i < dataset.episodes@.len() && (#[trigger] dataset.episodes@[i]).index == index
                && dataset.episodes@[i].streams@.len() == 0,
        found::finds(
            check.report(dataset),
            "STRUCTURAL.EMPTY_STREAM"@,
            LocationView::Stream { episode: index, stream: name },
        ) <==> exists|i: int, j: int|
            0 <= i < dataset.episodes@.len() && 0 <= j < dataset.episodes@[i].streams@.len() && dataset.episodes@[i].index
                == index && (#[trigger] dataset.episodes@[i].streams@[j]).name@ == name
                && dataset.episodes@[i].streams@[j].frames@.len() == 0,
        found::finds(
            check.report(dataset),
            "STRUCTURAL.SINGLE_FRAME_STREAM"@,
            LocationView::Stream { episode: index, stream: name },
        ) <==> exists|i: int, j: int|
            0 <= i < dataset.episodes@.len() && 0 <= j < dataset.episodes@[i].streams@.len() && dataset.episodes@[i].index
                == index && (#[trigger] dataset.episodes@[i].streams@[j]).name@ == name
                && dataset.episodes@[i].streams@[j].frames@.len() == 1 && dataset.episodes@[i].streams@[j].latched != Some(true),
{
    reveal_strlit("STRUCTURAL.EMPTY_DATASET");
    reveal_strlit("STRUCTURAL.EMPTY_EPISODE");
    reveal_strlit("STRUCTURAL.EMPTY_STREAM");
    reveal_strlit("STRUCTURAL.SINGLE_FRAME_STREAM");
    assert("STRUCTURAL.EMPTY_DATASET"@.len() == 24 && "STRUCTURAL.EMPTY_EPISODE"@.len() == 24);
    assert("STRUCTURAL.EMPTY_STREAM"@.len() == 23 && "STRUCTURAL.SINGLE_FRAME_STREAM"@.len() == 30);
    assert("STRUCTURAL.EMPTY_DATASET"@[17] == 'D' && "STRUCTURAL.EMPTY_EPISODE"@[17] == 'E');
    let s = dataset.episodes@;
    let rule = EmptyEpisodes { frames_read: true };
    let of_e = LocationView::Episode { episode: index };
    let of_s = LocationView::Stream { episode: index, stream: name };
    let report = check.report(dataset);
    if s.len() == 0 {
        assert(report[0].location == LocationView::Dataset);
    } else {
        found::lemma_finds_by_episode(rule, s, "STRUCTURAL.EMPTY_DATASET"@, LocationView::Dataset);
        found::lemma_finds_by_episode(rule, s, "STRUCTURAL.EMPTY_EPISODE"@, of_e);
        found::lemma_finds_by_episode(rule, s, "STRUCTURAL.EMPTY_STREAM"@, of_s);
        found::lemma_finds_by_episode(rule, s, "STRUCTURAL.SINGLE_FRAME_STREAM"@, of_s);
        assert forall|i: int| 0 <= i < s.len() implies is_told_empty(s[i], index, name, rule.of_episode(#[trigger] s[i])) by {
            lemma_empty(s[i], index, name);
        }
        lemma_empty_streams(s, index, name);
    }
}

/// What holds of the report of an episode.
spec fn is_told_empty(e: Episode, index: u64, name: Seq<char>, r: Seq<FindingView>) -> bool {
    let of_s = LocationView::Stream { episode: index, stream: name };
    &&& !found::finds(r, "STRUCTURAL.EMPTY_DATASET"@, LocationView::Dataset)
    &&& found::finds(r, "STRUCTURAL.EMPTY_EPISODE"@, LocationView::Episode { episode: index }) <==> e.index == index
        && e.streams@.len() == 0
    &&& found::finds(r, "STRUCTURAL.EMPTY_STREAM"@, of_s) <==> e.index == index && has_empty(e, name)
    &&& found::finds(r, "STRUCTURAL.SINGLE_FRAME_STREAM"@, of_s) <==> e.index == index && has_single(e, name)
}

/// Whether an episode has a stream of a name without frames.
spec fn has_empty(e: Episode, name: Seq<char>) -> bool {
    exists|j: int|
        0 <= j < e.streams@.len() && (#[trigger] e.streams@[j]).name@ == name && e.streams@[j].frames@.len() == 0
}

/// Whether an episode has a stream of a name with one frame that is not latched.
spec fn has_single(e: Episode, name: Seq<char>) -> bool {
    exists|j: int|
        0 <= j < e.streams@.len() && (#[trigger] e.streams@[j]).name@ == name && e.streams@[j].frames@.len() == 1
            && e.streams@[j].latched != Some(true)
}

/// The streams of all episodes.
proof fn lemma_empty_streams(s: Seq<Episode>, index: u64, name: Seq<char>)
    ensures
        (exists|i: int| 0 <= i < s.len() && (#[trigger] s[i]).index == index && has_empty(s[i], name)) <==> exists|i: int, j: int|
            0 <= i < s.len() && 0 <= j < s[i].streams@.len() && s[i].index == index && (#[trigger] s[i].streams@[j]).name@ == name
                && s[i].streams@[j].frames@.len() == 0,
        (exists|i: int| 0 <= i < s.len() && (#[trigger] s[i]).index == index && has_single(s[i], name)) <==> exists|i: int, j: int|
            0 <= i < s.len() && 0 <= j < s[i].streams@.len() && s[i].index == index && (#[trigger] s[i].streams@[j]).name@ == name
                && s[i].streams@[j].frames@.len() == 1 && s[i].streams@[j].latched != Some(true),
{
}

/// What is said of an episode.
#[verifier::rlimit(40)]
proof fn lemma_empty(e: Episode, index: u64, name: Seq<char>)
    ensures
        is_told_empty(e, index, name, (EmptyEpisodes { frames_read: true }).of_episode(e)),
{
    reveal_strlit("STRUCTURAL.EMPTY_DATASET");
    reveal_strlit("STRUCTURAL.EMPTY_EPISODE");
    reveal_strlit("STRUCTURAL.EMPTY_STREAM");
    reveal_strlit("STRUCTURAL.SINGLE_FRAME_STREAM");
    assert("STRUCTURAL.EMPTY_DATASET"@.len() == 24 && "STRUCTURAL.EMPTY_EPISODE"@.len() == 24);
    assert("STRUCTURAL.EMPTY_STREAM"@.len() == 23 && "STRUCTURAL.SINGLE_FRAME_STREAM"@.len() == 30);
    assert("STRUCTURAL.EMPTY_DATASET"@[17] == 'D' && "STRUCTURAL.EMPTY_EPISODE"@[17] == 'E');
    let of_e = LocationView::Episode { episode: index };
    let of_s = LocationView::Stream { episode: index, stream: name };
    let r = (EmptyEpisodes { frames_read: true }).of_episode(e);
    if e.streams@.len() == 0 {
        assert(r.len() == 1 && r[0].code == "STRUCTURAL.EMPTY_EPISODE"@ && r[0].location == (LocationView::Episode {
            episode: e.index,
        }));
    } else {
        let t = e.streams@;
        found::lemma_finds_by_stream(ShortStreams, e, t, "STRUCTURAL.EMPTY_DATASET"@, LocationView::Dataset);
        found::lemma_finds_by_stream(ShortStreams, e, t, "STRUCTURAL.EMPTY_EPISODE"@, of_e);
        found::lemma_finds_by_stream(ShortStreams, e, t, "STRUCTURAL.EMPTY_STREAM"@, of_s);
        found::lemma_finds_by_stream(ShortStreams, e, t, "STRUCTURAL.SINGLE_FRAME_STREAM"@, of_s);
        assert forall|j: int| 0 <= j < t.len() implies {
            let q = ShortStreams.of_stream(e, #[trigger] t[j]);
            let here = LocationView::Stream { episode: e.index, stream: t[j].name@ };
            &&& !found::finds(q, "STRUCTURAL.EMPTY_DATASET"@, LocationView::Dataset)
            &&& !found::finds(q, "STRUCTURAL.EMPTY_EPISODE"@, of_e)
            &&& found::finds(q, "STRUCTURAL.EMPTY_STREAM"@, of_s) <==> here == of_s && t[j].frames@.len() == 0
            &&& found::finds(q, "STRUCTURAL.SINGLE_FRAME_STREAM"@, of_s) <==> here == of_s && t[j].frames@.len() == 1
                && t[j].latched != Some(true)
        } by {
            let q = ShortStreams.of_stream(e, t[j]);
            if q.len() > 0 {
                assert(q.len() == 1 && q[0].location == (LocationView::Stream { episode: e.index, stream: t[j].name@ }));
            }
        }
    }
}

// ---- indices ---------------------------------------------------------------------------------

/// A gap in the indices is reported exactly where an index is missing that lies between two that are
/// not.
#[verifier::rlimit(40)]
pub proof fn law_missing_indices_are_reported(check: EpisodeContinuity, dataset: &Dataset)
    ensures
        found::finds_any(check.report(dataset), CONTINUITY_CODE@) <==> exists|x: u64, a: int, b: int|
            0 <= a < dataset.episodes@.len() && 0 <= b < dataset.episodes@.len() && (#[trigger] dataset.episodes@[a]).index < x
                && x < (#[trigger] dataset.episodes@[b]).index && !(#[trigger] is_index(dataset.episodes@, x)),
{
    let eps = dataset.episodes@;
    let all = structural::indices(eps);
    let s = seqs::number_set(all);
    let report = check.report(dataset);
    seqs::lemma_number_set_ascending(all);
    assert forall|x: u64| #[trigger] s.contains(x) <==> is_index(eps, x) by {
        seqs::lemma_distinct_contains(all, seqs::number_order(), x);
        if all.contains(x) {
            let k = choose|k: int| 0 <= k < all.len() && all[k] == x;
            assert(eps[k].index == x);
        }
        if is_index(eps, x) {
            let p = choose|p: int| 0 <= p < eps.len() && (#[trigger] eps[p]).index == x;
            assert(all[p] == x);
        }
    }
    if report.len() > 0 {
        assert(report[0].code == CONTINUITY_CODE@);
        seqs::lemma_ascending_gap(s, 0, s.len() - 1);
        let k = lemma_hole(s, 0);
        let x = (s[k] + 1) as u64;
        assert(!s.contains(x)) by {
            if s.contains(x) {
                let m = choose|m: int| 0 <= m < s.len() && s[m] == x;
                assert(m <= k || k + 1 <= m);
            }
        }
        assert(s.contains(s[k]) && s.contains(s[k + 1]));
        let a = choose|p: int| 0 <= p < eps.len() && (#[trigger] eps[p]).index == s[k];
        let b = choose|p: int| 0 <= p < eps.len() && (#[trigger] eps[p]).index == s[k + 1];
        assert(eps[a].index < x && x < eps[b].index && !is_index(eps, x));
    }
    if exists|x: u64, a: int, b: int|
        0 <= a < eps.len() && 0 <= b < eps.len() && (#[trigger] eps[a]).index < x && x < (#[trigger] eps[b]).index
            && !(#[trigger] is_index(eps, x)) {
        let (x, a, b) = choose|x: u64, a: int, b: int|
            0 <= a < eps.len() && 0 <= b < eps.len() && (#[trigger] eps[a]).index < x && x < (#[trigger] eps[b]).index
                && !(#[trigger] is_index(eps, x));
        assert(is_index(eps, eps[a].index) && is_index(eps, eps[b].index));
        assert(s.contains(eps[a].index) && s.contains(eps[b].index));
        let p = choose|p: int| 0 <= p < s.len() && s[p] == eps[a].index;
        let q = choose|q: int| 0 <= q < s.len() && s[q] == eps[b].index;
        assert(!s.contains(x));
        if s.last() - s[0] == s.len() - 1 {
            let m = x - s[0];
            assert(s[0] <= s[p] && s[q] <= s.last());
            seqs::lemma_ascending_gap(s, 0, m);
            seqs::lemma_ascending_gap(s, m, s.len() - 1);
            assert(s[m] == x);
        }
        seqs::lemma_ascending_gap(s, 0, s.len() - 1);
        assert(report.len() > 0);
        assert(report[0].code == CONTINUITY_CODE@);
    }
}

/// Ascending numbers that reach further than their count leave one out.
proof fn lemma_hole(s: Seq<u64>, from: int) -> (k: int)
    requires
        seqs::ascending(s),
        0 <= from < s.len(),
        s.last() - s[from] > s.len() - 1 - from,
    ensures
        from <= k < s.len() - 1,
        s[k] + 1 < s[k + 1],
    decreases s.len() - from,
{
    if s[from] + 1 < s[from + 1] {
        from
    } else {
        lemma_hole(s, from + 1)
    }
}

// ---- frozen feeds ----------------------------------------------------------------------------

/// Whether a run of frames repeats one fingerprint.
pub open spec fn repeats(f: Seq<Frame>, k: int, n: int) -> bool {
    &&& 0 <= k && 0 < n && k + n <= f.len()
    &&& structural::fingerprint(f[k]) is Some
    &&& forall|m: int| k <= m < k + n ==> structural::fingerprint(#[trigger] f[m]) == structural::fingerprint(f[k])
}

/// The run that frames end with.
#[verifier::rlimit(40)]
proof fn lemma_run(f: Seq<Frame>)
    ensures
        structural::run_length(f) <= f.len(),
        structural::run_length(f) > 0 ==> repeats(f, f.len() - structural::run_length(f), structural::run_length(f) as int),
        forall|n: int| 0 < n <= f.len() && #[trigger] repeats(f, f.len() - n, n) ==> n <= structural::run_length(f),
    decreases f.len(),
{
    if f.len() > 0 && structural::fingerprint(f.last()) is Some {
        let rest = f.drop_last();
        let l = f.len() as int;
        lemma_run(rest);
        let r = structural::run_length(f) as int;
        if r > 1 {
            let k = l - r;
            assert(repeats(rest, k, r - 1));
            assert(rest[l - 2] == f[l - 2]);
            assert(structural::fingerprint(rest[l - 2]) == structural::fingerprint(rest[k]));
            assert forall|m: int| k <= m < k + r implies structural::fingerprint(#[trigger] f[m]) == structural::fingerprint(
                f[k],
            ) by {
                if m < l - 1 {
                    assert(rest[m] == f[m]);
                }
            }
            assert(rest[k] == f[k]);
        }
        assert forall|n: int| 0 < n <= f.len() && #[trigger] repeats(f, f.len() - n, n) implies n <= r by {
            if n > 1 {
                let k = l - n;
                assert(f[l - 1] == f.last());
                assert(structural::fingerprint(f[l - 2]) == structural::fingerprint(f[k]));
                assert(structural::fingerprint(f[l - 1]) == structural::fingerprint(f[k]));
                assert forall|m: int| k <= m < l - 1 implies structural::fingerprint(#[trigger] rest[m])
                    == structural::fingerprint(rest[k]) by {
                    assert(rest[m] == f[m]);
                    assert(rest[k] == f[k]);
                }
                assert(repeats(rest, rest.len() - (n - 1), n - 1));
            }
        }
    } else if f.len() > 0 {
        assert forall|n: int| 0 < n <= f.len() && #[trigger] repeats(f, f.len() - n, n) implies n <= 0 by {
            assert(f[f.len() - 1] == f.last());
        }
    }
}

/// The longest run is as long as one that repeats a fingerprint, and none is longer.
#[verifier::rlimit(40)]
pub proof fn law_the_longest_run_is_found(f: Seq<Frame>, n: int)
    requires
        0 < n,
    ensures
        structural::longest_run(f) >= n <==> exists|k: int| #[trigger] repeats(f, k, n),
    decreases f.len(),
{
    if f.len() > 0 {
        let rest = f.drop_last();
        let r = structural::run_length(f) as int;
        law_the_longest_run_is_found(rest, n);
        lemma_run(f);
        if r >= n {
            let k = f.len() - r;
            assert(repeats(f, k, n));
        }
        if exists|k: int| #[trigger] repeats(rest, k, n) {
            let k = choose|k: int| #[trigger] repeats(rest, k, n);
            assert forall|m: int| k <= m < k + n implies structural::fingerprint(#[trigger] f[m]) == structural::fingerprint(
                f[k],
            ) by {
                assert(rest[m] == f[m] && rest[k] == f[k]);
            }
            assert(repeats(f, k, n));
        }
        if exists|k: int| #[trigger] repeats(f, k, n) {
            let k = choose|k: int| #[trigger] repeats(f, k, n);
            if k + n == f.len() {
                assert(repeats(f, f.len() - n, n));
            } else {
                assert forall|m: int| k <= m < k + n implies structural::fingerprint(#[trigger] rest[m])
                    == structural::fingerprint(rest[k]) by {
                    assert(rest[m] == f[m] && rest[k] == f[k]);
                }
                assert(repeats(rest, k, n));
            }
        }
    }
}

/// A stream is reported as stuck exactly where it is video and five frames in a row have one
/// fingerprint.
pub proof fn law_stuck_feeds_are_reported(check: StuckStream, dataset: &Dataset, index: u64, name: Seq<char>)
    ensures
        found::finds(check.report(dataset), STUCK_CODE@, LocationView::Stream { episode: index, stream: name })
            <==> exists|i: int, j: int|
            0 <= i < dataset.episodes@.len() && 0 <= j < dataset.episodes@[i].streams@.len() && dataset.episodes@[i].index
                == index && (#[trigger] dataset.episodes@[i].streams@[j]).name@ == name && is_stuck(
                dataset.episodes@[i].streams@[j],
            ),
{
    let s = dataset.episodes@;
    let at = LocationView::Stream { episode: index, stream: name };
    found::lemma_finds_by_streams(check, s, STUCK_CODE@, at);
    assert forall|i: int, j: int| 0 <= i < s.len() && 0 <= j < s[i].streams@.len() implies (found::finds(
        check.of_stream(s[i], #[trigger] s[i].streams@[j]),
        STUCK_CODE@,
        at,
    ) <==> s[i].index == index && s[i].streams@[j].name@ == name && is_stuck(s[i].streams@[j])) by {
        law_the_longest_run_is_found(s[i].streams@[j].frames@, 5);
        let r = check.of_stream(s[i], s[i].streams@[j]);
        if r.len() > 0 {
            assert(r.len() == 1 && r[0].code == STUCK_CODE@ && r[0].location == (LocationView::Stream {
                episode: s[i].index,
                stream: s[i].streams@[j].name@,
            }));
        }
    }
}

/// Whether a video shows one frame five times in a row.
pub open spec fn is_stuck(s: Stream) -> bool {
    s.modality == Modality::Video && exists|k: int| #[trigger] repeats(s.frames@, k, 5)
}

// ---- steps -----------------------------------------------------------------------------------

/// Whether a stream counts steps on a clock.
pub open spec fn steps_on(s: Stream, clock: Seq<char>) -> bool {
    s.clock_kind is StepIndex && s.frames@.len() > 0 && s.clock_id@ == clock
}

/// The stream with the fewest steps on a clock.
proof fn lemma_shortest(s: Seq<Stream>, clock: Seq<char>, n: int)
    requires
        0 <= n <= s.len(),
    ensures
        ({
            let r = structural::shortest_on(s, clock, n);
            &&& r < n
            &&& r < 0 ==> forall|j: int| 0 <= j < n ==> !steps_on(#[trigger] s[j], clock)
            &&& r >= 0 ==> steps_on(s[r], clock) && forall|j: int|
                0 <= j < n && steps_on(#[trigger] s[j], clock) ==> s[r].frames@.len() <= s[j].frames@.len()
        }),
    decreases n,
{
    if n > 0 {
        lemma_shortest(s, clock, n - 1);
    }
}

/// The stream with the most steps on a clock.
proof fn lemma_longest(s: Seq<Stream>, clock: Seq<char>, n: int)
    requires
        0 <= n <= s.len(),
    ensures
        ({
            let r = structural::longest_on(s, clock, n);
            &&& r < n
            &&& r < 0 ==> forall|j: int| 0 <= j < n ==> !steps_on(#[trigger] s[j], clock)
            &&& r >= 0 ==> steps_on(s[r], clock) && forall|j: int|
                0 <= j < n && steps_on(#[trigger] s[j], clock) ==> s[j].frames@.len() <= s[r].frames@.len()
        }),
    decreases n,
{
    if n > 0 {
        lemma_longest(s, clock, n - 1);
    }
}

/// Whether two streams on a clock are two steps apart.
pub open spec fn is_misaligned(s: Seq<Stream>, clock: Seq<char>) -> bool {
    exists|a: int, b: int|
        0 <= a < s.len() && 0 <= b < s.len() && steps_on(#[trigger] s[a], clock) && steps_on(#[trigger] s[b], clock)
            && s[a].frames@.len() + 2 <= s[b].frames@.len()
}

/// What is said of a clock.
proof fn lemma_step_clock(e: Episode, clock: Seq<char>, at: LocationView)
    ensures
        found::finds(structural::of_step_clock(e, clock), STEP_CODE@, at) <==> is_misaligned(e.streams@, clock) && at == (
        LocationView::Episode { episode: e.index }),
{
    let s = e.streams@;
    let n = s.len() as int;
    lemma_shortest(s, clock, n);
    lemma_longest(s, clock, n);
    let r = structural::of_step_clock(e, clock);
    if r.len() > 0 {
        assert(r.len() == 1 && r[0].code == STEP_CODE@ && r[0].location == (LocationView::Episode { episode: e.index }));
        let (a, b) = (structural::shortest_on(s, clock, n), structural::longest_on(s, clock, n));
        assert(steps_on(s[a], clock) && steps_on(s[b], clock));
    }
}

/// What is said of clocks.
proof fn lemma_step_clocks(e: Episode, clocks: Seq<Seq<char>>, at: LocationView)
    ensures
        found::finds(structural::of_step_clocks(e, clocks), STEP_CODE@, at) <==> at == (LocationView::Episode {
            episode: e.index,
        }) && exists|k: int| 0 <= k < clocks.len() && is_misaligned(e.streams@, #[trigger] clocks[k]),
    decreases clocks.len(),
{
    if clocks.len() > 0 {
        let rest = clocks.drop_last();
        let n = clocks.len() - 1;
        lemma_step_clocks(e, rest, at);
        lemma_step_clock(e, clocks.last(), at);
        found::lemma_finds_both(
            structural::of_step_clocks(e, rest),
            structural::of_step_clock(e, clocks.last()),
            STEP_CODE@,
            at,
        );
        assert(clocks[n] == clocks.last());
        if exists|k: int| 0 <= k < rest.len() && is_misaligned(e.streams@, #[trigger] rest[k]) {
            let k = choose|k: int| 0 <= k < rest.len() && is_misaligned(e.streams@, #[trigger] rest[k]);
            assert(clocks[k] == rest[k]);
        }
        if exists|k: int| 0 <= k < clocks.len() && is_misaligned(e.streams@, #[trigger] clocks[k]) {
            let k = choose|k: int| 0 <= k < clocks.len() && is_misaligned(e.streams@, #[trigger] clocks[k]);
            if k < n {
                assert(clocks[k] == rest[k]);
            }
        }
    }
}

/// A clock that a stream counts steps on is among the clocks.
proof fn lemma_step_clock_named(s: Seq<Stream>, j: int)
    requires
        0 <= j < s.len(),
        steps_on(s[j], s[j].clock_id@),
    ensures
        structural::step_clocks(s).contains(s[j].clock_id@),
    decreases s.len(),
{
    let rest = s.drop_last();
    found::lemma_one_more(structural::step_clocks(rest), s.last().clock_id@, s[j].clock_id@);
    if j < s.len() - 1 {
        assert(rest[j] == s[j]);
        lemma_step_clock_named(rest, j);
    }
}

/// An episode is reported exactly where two of its streams that count steps on one clock are two or more
/// steps apart.
pub proof fn law_misaligned_steps_are_reported(check: StepAlignment, dataset: &Dataset, index: u64)
    ensures
        found::finds(check.report(dataset), STEP_CODE@, LocationView::Episode { episode: index }) <==> exists|i: int, clock: Seq<char>|
            0 <= i < dataset.episodes@.len() && dataset.episodes@[i].index == index && #[trigger] is_misaligned(
                dataset.episodes@[i].streams@,
                clock,
            ),
{
    let s = dataset.episodes@;
    let at = LocationView::Episode { episode: index };
    found::lemma_finds_by_episode(check, s, STEP_CODE@, at);
    assert forall|i: int| 0 <= i < s.len() implies (found::finds(check.of_episode(#[trigger] s[i]), STEP_CODE@, at) <==> s[i].index
        == index && exists|clock: Seq<char>| #[trigger] is_misaligned(s[i].streams@, clock)) by {
        let t = s[i].streams@;
        let clocks = seqs::text_set(structural::step_clocks(t));
        lemma_step_clocks(s[i], clocks, at);
        if exists|clock: Seq<char>| #[trigger] is_misaligned(t, clock) {
            let clock = choose|clock: Seq<char>| #[trigger] is_misaligned(t, clock);
            let (a, b) = choose|a: int, b: int|
                0 <= a < t.len() && 0 <= b < t.len() && steps_on(#[trigger] t[a], clock) && steps_on(#[trigger] t[b], clock)
                    && t[a].frames@.len() + 2 <= t[b].frames@.len();
            lemma_step_clock_named(t, a);
            seqs::lemma_distinct_contains(structural::step_clocks(t), seqs::text_order(), clock);
            let k = choose|k: int| 0 <= k < clocks.len() && clocks[k] == clock;
            assert(is_misaligned(t, clocks[k]));
        }
    }
}

// ---- shapes ----------------------------------------------------------------------------------

/// Whether two streams of a name declare different element types, or different shapes.
pub open spec fn disagree(a: Stream, b: Stream) -> bool {
    ||| a.dtype matches Some(x) && b.dtype matches Some(y) && x@ != y@
    ||| a.shape matches Some(x) && b.shape matches Some(y) && x@ != y@
}

/// Whether two streams of a name disagree.
pub open spec fn some_disagree(s: Seq<(Episode, Stream)>, name: Seq<char>) -> bool {
    exists|p: int, q: int|
        0 <= p < s.len() && 0 <= q < s.len() && (#[trigger] s[p]).1.name@ == name && (#[trigger] s[q]).1.name@ == name
            && disagree(s[p].1, s[q].1)
}

/// The first element type of a name.
proof fn lemma_first_dtype(s: Seq<(Episode, Stream)>, name: Seq<char>)
    ensures
        match structural::first_dtype(s, name) {
            Some((d, _)) => exists|k: int|
                0 <= k < s.len() && (#[trigger] s[k]).1.name@ == name && structural::dtype_of(s[k].1) == Some(d),
            None => forall|k: int|
                0 <= k < s.len() && (#[trigger] s[k]).1.name@ == name ==> structural::dtype_of(s[k].1) is None,
        },
    decreases s.len(),
{
    if s.len() > 0 {
        let rest = s.drop_last();
        let n = s.len() - 1;
        lemma_first_dtype(rest, name);
        assert(s[n] == s.last());
        if let Some((d, _)) = structural::first_dtype(rest, name) {
            let k = choose|k: int|
                0 <= k < rest.len() && (#[trigger] rest[k]).1.name@ == name && structural::dtype_of(rest[k].1) == Some(d);
            assert(s[k] == rest[k]);
        } else {
            assert forall|k: int| 0 <= k < n && (#[trigger] s[k]).1.name@ == name implies structural::dtype_of(s[k].1) is None by {
                assert(s[k] == rest[k]);
            }
        }
    }
}

/// The first shape of a name.
proof fn lemma_first_shape(s: Seq<(Episode, Stream)>, name: Seq<char>)
    ensures
        match structural::first_shape(s, name) {
            Some((d, _)) => exists|k: int|
                0 <= k < s.len() && (#[trigger] s[k]).1.name@ == name && structural::shape_of(s[k].1) == Some(d),
            None => forall|k: int|
                0 <= k < s.len() && (#[trigger] s[k]).1.name@ == name ==> structural::shape_of(s[k].1) is None,
        },
    decreases s.len(),
{
    if s.len() > 0 {
        let rest = s.drop_last();
        let n = s.len() - 1;
        lemma_first_shape(rest, name);
        assert(s[n] == s.last());
        if let Some((d, _)) = structural::first_shape(rest, name) {
            let k = choose|k: int|
                0 <= k < rest.len() && (#[trigger] rest[k]).1.name@ == name && structural::shape_of(rest[k].1) == Some(d);
            assert(s[k] == rest[k]);
        } else {
            assert forall|k: int| 0 <= k < n && (#[trigger] s[k]).1.name@ == name implies structural::shape_of(s[k].1) is None by {
                assert(s[k] == rest[k]);
            }
        }
    }
}

/// What disagrees among the first disagrees.
proof fn lemma_disagree_more(s: Seq<(Episode, Stream)>, name: Seq<char>)
    requires
        s.len() > 0,
        some_disagree(s.drop_last(), name),
    ensures
        some_disagree(s, name),
{
    let rest = s.drop_last();
    let (p, q) = choose|p: int, q: int|
        0 <= p < rest.len() && 0 <= q < rest.len() && (#[trigger] rest[p]).1.name@ == name && (#[trigger] rest[q]).1.name@
            == name && disagree(rest[p].1, rest[q].1);
    assert(s[p] == rest[p] && s[q] == rest[q]);
}

/// A stream departs from those before it exactly where it disagrees with one of them, unless they disagree
/// already.
proof fn lemma_departure(s: Seq<(Episode, Stream)>, x: Stream)
    ensures
        structural::departure(s, x) is Some ==> exists|k: int|
            0 <= k < s.len() && (#[trigger] s[k]).1.name@ == x.name@ && disagree(s[k].1, x),
        structural::departure(s, x) is None && !some_disagree(s, x.name@) ==> forall|k: int|
            0 <= k < s.len() && (#[trigger] s[k]).1.name@ == x.name@ ==> !disagree(s[k].1, x),
{
    let name = x.name@;
    lemma_first_dtype(s, name);
    lemma_first_shape(s, name);
    if structural::departure(s, x) is None && !some_disagree(s, name) {
        assert forall|k: int| 0 <= k < s.len() && (#[trigger] s[k]).1.name@ == name implies !disagree(s[k].1, x) by {
            if let Some((d, _)) = structural::first_dtype(s, name) {
                let m = choose|m: int|
                    0 <= m < s.len() && (#[trigger] s[m]).1.name@ == name && structural::dtype_of(s[m].1) == Some(d);
                assert(!disagree(s[k].1, s[m].1));
            }
            if let Some((d, _)) = structural::first_shape(s, name) {
                let m = choose|m: int|
                    0 <= m < s.len() && (#[trigger] s[m]).1.name@ == name && structural::shape_of(s[m].1) == Some(d);
                assert(!disagree(s[k].1, s[m].1));
            }
        }
    }
}

/// A name has departed exactly where two of its streams disagree.
#[verifier::rlimit(40)]
proof fn lemma_departed(s: Seq<(Episode, Stream)>, name: Seq<char>)
    ensures
        structural::has_departed(s, name) <==> some_disagree(s, name),
    decreases s.len(),
{
    if s.len() > 0 {
        let rest = s.drop_last();
        let n = s.len() - 1;
        let x = s.last().1;
        lemma_departed(rest, name);
        lemma_departure(rest, x);
        assert(s[n] == s.last());
        if some_disagree(rest, name) {
            lemma_disagree_more(s, name);
        } else {
            if structural::departure(rest, x) is Some && x.name@ == name {
                let k = choose|k: int| 0 <= k < rest.len() && (#[trigger] rest[k]).1.name@ == name && disagree(rest[k].1, x);
                assert(s[k] == rest[k]);
                assert(disagree(s[k].1, s[n].1));
            }
            if some_disagree(s, name) {
                let (p, q) = choose|p: int, q: int|
                    0 <= p < s.len() && 0 <= q < s.len() && (#[trigger] s[p]).1.name@ == name && (#[trigger] s[q]).1.name@
                        == name && disagree(s[p].1, s[q].1);
                if p < n {
                    assert(rest[p] == s[p]);
                }
                if q < n {
                    assert(rest[q] == s[q]);
                }
                if p < n && q < n {
                    assert(some_disagree(rest, name));
                }
                assert(p < n || q < n);
            }
        }
    }
}

/// What is reported of some streams.
#[verifier::rlimit(40)]
proof fn lemma_shape_findings(s: Seq<(Episode, Stream)>, name: Seq<char>)
    ensures
        found::finds_named(structural::shape_findings(s), SHAPE_CODE@, name) <==> structural::has_departed(s, name),
    decreases s.len(),
{
    if s.len() > 0 {
        let rest = s.drop_last();
        let old = structural::shape_findings(rest);
        let new = structural::shape_findings(s);
        lemma_shape_findings(rest, name);
        if found::finds_named(old, SHAPE_CODE@, name) {
            let k = choose|k: int|
                0 <= k < old.len() && (#[trigger] old[k]).code == SHAPE_CODE@ && (old[k].location matches LocationView::Stream {
                    stream,
                    ..
                } && stream == name);
            assert(new[k] == old[k]);
        }
        if new.len() > old.len() {
            let g = new[old.len() as int];
            assert(g.code == SHAPE_CODE@ && g.location == (LocationView::Stream {
                episode: s.last().0.index,
                stream: s.last().1.name@,
            }));
        }
        if found::finds_named(new, SHAPE_CODE@, name) {
            let k = choose|k: int|
                0 <= k < new.len() && (#[trigger] new[k]).code == SHAPE_CODE@ && (new[k].location matches LocationView::Stream {
                    stream,
                    ..
                } && stream == name);
            if k < old.len() {
                assert(old[k] == new[k]);
            }
        }
    }
}

/// A name is reported exactly where two of its streams, whichever they are, declare different element
/// types or different shapes.
pub proof fn law_disagreeing_shapes_are_reported(check: ShapeConsistency, dataset: &Dataset, name: Seq<char>)
    ensures
        found::finds_named(check.report(dataset), SHAPE_CODE@, name) <==> some_disagree(walk::pairs(dataset.episodes@), name),
{
    let s = walk::pairs(dataset.episodes@);
    lemma_shape_findings(s, name);
    lemma_departed(s, name);
}

// ---- presence --------------------------------------------------------------------------------

/// Whether an episode has a stream of a name.
pub open spec fn has_stream(e: Episode, name: Seq<char>) -> bool {
    exists|j: int| 0 <= j < e.streams@.len() && (#[trigger] e.streams@[j]).name@ == name
}

/// Whether a name is missing from an episode: it has streams, and no episode of its index has one of the
/// name.
pub open spec fn is_missing(eps: Seq<Episode>, name: Seq<char>, i: int) -> bool {
    &&& 0 <= i < eps.len()
    &&& eps[i].streams@.len() > 0
    &&& forall|k: int| 0 <= k < eps.len() && (#[trigger] eps[k]).index == eps[i].index ==> !has_stream(eps[k], name)
}

/// The indices of the episodes that carry a name, and how many there are.
proof fn lemma_carriers(eps: Seq<Episode>, name: Seq<char>, index: u64)
    ensures
        structural::carriers(eps, name).contains(index) <==> exists|k: int|
            0 <= k < eps.len() && (#[trigger] eps[k]).index == index && has_stream(eps[k], name),
        structural::carriers(eps, name).len() <= structural::non_empty_episodes(eps),
        (exists|k: int| 0 <= k < eps.len() && (#[trigger] eps[k]).streams@.len() > 0 && !has_stream(eps[k], name))
            ==> structural::carriers(eps, name).len() < structural::non_empty_episodes(eps),
    decreases eps.len(),
{
    if eps.len() > 0 {
        let rest = eps.drop_last();
        let n = eps.len() - 1;
        lemma_carriers(rest, name, index);
        found::lemma_one_more(structural::carriers(rest, name), eps.last().index, index);
        assert(eps[n] == eps.last());
        assert(structural::carries(eps.last(), name) == has_stream(eps.last(), name));
        assert forall|k: int| 0 <= k < n implies #[trigger] eps[k] == rest[k] by {}
        if exists|k: int| 0 <= k < rest.len() && (#[trigger] rest[k]).index == index && has_stream(rest[k], name) {
            let k = choose|k: int| 0 <= k < rest.len() && (#[trigger] rest[k]).index == index && has_stream(rest[k], name);
            assert(eps[k] == rest[k]);
        }
        if exists|k: int| 0 <= k < eps.len() && (#[trigger] eps[k]).streams@.len() > 0 && !has_stream(eps[k], name) {
            let k = choose|k: int| 0 <= k < eps.len() && (#[trigger] eps[k]).streams@.len() > 0 && !has_stream(eps[k], name);
            if k < n {
                assert(rest[k].streams@.len() > 0);
            }
        }
    }
}

/// The indices of the episodes that are not in a list.
proof fn lemma_outside(eps: Seq<Episode>, list: Seq<u64>, index: u64)
    ensures
        structural::outside(eps, list).contains(index) <==> !list.contains(index) && exists|k: int|
            0 <= k < eps.len() && (#[trigger] eps[k]).index == index && eps[k].streams@.len() > 0,
    decreases eps.len(),
{
    if eps.len() > 0 {
        let rest = eps.drop_last();
        let n = eps.len() - 1;
        lemma_outside(rest, list, index);
        found::lemma_one_more(structural::outside(rest, list), eps.last().index, index);
        assert(eps[n] == eps.last());
        if exists|k: int| 0 <= k < rest.len() && (#[trigger] rest[k]).index == index && rest[k].streams@.len() > 0 {
            let k = choose|k: int| 0 <= k < rest.len() && (#[trigger] rest[k]).index == index && rest[k].streams@.len() > 0;
            assert(eps[k] == rest[k]);
        }
        if exists|k: int| 0 <= k < eps.len() && (#[trigger] eps[k]).index == index && eps[k].streams@.len() > 0 {
            let k = choose|k: int| 0 <= k < eps.len() && (#[trigger] eps[k]).index == index && eps[k].streams@.len() > 0;
            if k < n {
                assert(eps[k] == rest[k]);
            }
        }
    }
}

/// A name is reported exactly where it is missing from an episode.
#[verifier::rlimit(40)]
pub proof fn law_a_missing_stream_is_reported(eps: Seq<Episode>, name: Seq<char>)
    ensures
        StreamPresence::of_name(eps, name).len() > 0 <==> exists|i: int| #[trigger] is_missing(eps, name, i),
        StreamPresence::of_name(eps, name).len() > 0 <==> found::finds_any(
            StreamPresence::of_name(eps, name),
            PRESENCE_CODE@,
        ),
{
    let r = StreamPresence::of_name(eps, name);
    let list = structural::carriers(eps, name);
    let present = seqs::number_set(list);
    let out = structural::outside(eps, present);
    let missing = seqs::number_set(out);
    if r.len() > 0 {
        assert(r[0].code == PRESENCE_CODE@);
        let x = missing[0];
        assert(missing.contains(x));
        seqs::lemma_distinct_contains(out, seqs::number_order(), x);
        lemma_outside(eps, present, x);
        seqs::lemma_distinct_contains(list, seqs::number_order(), x);
        lemma_carriers(eps, name, x);
        let i = choose|k: int| 0 <= k < eps.len() && (#[trigger] eps[k]).index == x && eps[k].streams@.len() > 0;
        assert(is_missing(eps, name, i));
    }
    if exists|i: int| #[trigger] is_missing(eps, name, i) {
        let i = choose|i: int| #[trigger] is_missing(eps, name, i);
        let x = eps[i].index;
        lemma_carriers(eps, name, x);
        seqs::lemma_distinct_contains(list, seqs::number_order(), x);
        lemma_outside(eps, present, x);
        seqs::lemma_distinct_contains(out, seqs::number_order(), x);
        assert(!has_stream(eps[i], name));
        assert(missing.contains(x));
        assert(r.len() > 0);
    }
}

/// What is said of names.
proof fn lemma_presence(eps: Seq<Episode>, names: Seq<Seq<char>>, f: FindingView)
    ensures
        StreamPresence::of_names(eps, names).contains(f) <==> exists|k: int|
            0 <= k < names.len() && StreamPresence::of_name(eps, #[trigger] names[k]).contains(f),
    decreases names.len(),
{
    if names.len() > 0 {
        let rest = names.drop_last();
        let n = names.len() - 1;
        lemma_presence(eps, rest, f);
        found::lemma_both(StreamPresence::of_names(eps, rest), StreamPresence::of_name(eps, names.last()), f);
        assert(names[n] == names.last());
        if StreamPresence::of_names(eps, rest).contains(f) {
            let k = choose|k: int| 0 <= k < rest.len() && StreamPresence::of_name(eps, #[trigger] rest[k]).contains(f);
            assert(names[k] == rest[k]);
        }
        if exists|k: int| 0 <= k < names.len() && StreamPresence::of_name(eps, #[trigger] names[k]).contains(f) {
            let k = choose|k: int| 0 <= k < names.len() && StreamPresence::of_name(eps, #[trigger] names[k]).contains(f);
            if k < n {
                assert(names[k] == rest[k]);
            }
        }
    }
}

/// Two episodes with streams are two.
proof fn lemma_non_empty(eps: Seq<Episode>, a: int, b: int)
    requires
        0 <= a < b < eps.len(),
        eps[a].streams@.len() > 0,
        eps[b].streams@.len() > 0,
    ensures
        structural::non_empty_episodes(eps) >= 2,
    decreases eps.len(),
{
    let rest = eps.drop_last();
    if b < eps.len() - 1 {
        assert(rest[a] == eps[a] && rest[b] == eps[b]);
        lemma_non_empty(rest, a, b);
    } else {
        assert(rest[a] == eps[a]);
        lemma_some_non_empty(rest, a);
    }
}

/// An episode with streams is one.
proof fn lemma_some_non_empty(eps: Seq<Episode>, a: int)
    requires
        0 <= a < eps.len(),
        eps[a].streams@.len() > 0,
    ensures
        structural::non_empty_episodes(eps) >= 1,
    decreases eps.len(),
{
    if a < eps.len() - 1 {
        assert(eps.drop_last()[a] == eps[a]);
        lemma_some_non_empty(eps.drop_last(), a);
    }
}

/// Something is reported exactly where a name that an episode carries is missing from another.
#[verifier::rlimit(40)]
pub proof fn law_missing_streams_are_reported(check: StreamPresence, dataset: &Dataset)
    ensures
        found::finds_any(check.report(dataset), PRESENCE_CODE@) <==> exists|name: Seq<char>, i: int, k: int|
            0 <= k < dataset.episodes@.len() && #[trigger] has_stream(dataset.episodes@[k], name) && #[trigger] is_missing(
                dataset.episodes@,
                name,
                i,
            ),
{
    let eps = dataset.episodes@;
    let pairs = walk::pairs(eps);
    let all = structural::pair_names(pairs);
    let names = structural::stream_names(eps);
    let report = check.report(dataset);
    if found::finds_any(report, PRESENCE_CODE@) {
        let m = choose|m: int| 0 <= m < report.len() && (#[trigger] report[m]).code == PRESENCE_CODE@;
        let f = report[m];
        assert(report.contains(f));
        lemma_presence(eps, names, f);
        let k = choose|k: int| 0 <= k < names.len() && StreamPresence::of_name(eps, #[trigger] names[k]).contains(f);
        let name = names[k];
        law_a_missing_stream_is_reported(eps, name);
        let i = choose|i: int| #[trigger] is_missing(eps, name, i);
        assert(names.contains(name));
        seqs::lemma_distinct_contains(all, seqs::text_order(), name);
        let p = choose|p: int| 0 <= p < all.len() && all[p] == name;
        found::lemma_pairs(eps, pairs[p]);
        assert(pairs.contains(pairs[p]));
        let (a, b) = choose|a: int, b: int|
            0 <= a < eps.len() && 0 <= b < eps[a].streams@.len() && pairs[p] == (eps[a], #[trigger] eps[a].streams@[b]);
        assert(eps[a].streams@[b].name@ == name);
        assert(has_stream(eps[a], name));
    }
    if exists|name: Seq<char>, i: int, k: int|
        0 <= k < eps.len() && #[trigger] has_stream(eps[k], name) && #[trigger] is_missing(eps, name, i) {
        let (name, i, k) = choose|name: Seq<char>, i: int, k: int|
            0 <= k < eps.len() && #[trigger] has_stream(eps[k], name) && #[trigger] is_missing(eps, name, i);
        law_a_missing_stream_is_reported(eps, name);
        assert(i != k);
        if i < k {
            lemma_non_empty(eps, i, k);
        } else {
            lemma_non_empty(eps, k, i);
        }
        let b = choose|b: int| 0 <= b < eps[k].streams@.len() && (#[trigger] eps[k].streams@[b]).name@ == name;
        found::lemma_pairs(eps, (eps[k], eps[k].streams@[b]));
        let p = choose|p: int| 0 <= p < pairs.len() && pairs[p] == (eps[k], eps[k].streams@[b]);
        assert(all[p] == name);
        seqs::lemma_distinct_contains(all, seqs::text_order(), name);
        let q = choose|q: int| 0 <= q < names.len() && names[q] == name;
        let r = StreamPresence::of_name(eps, names[q]);
        let f = r[0];
        assert(r.contains(f));
        lemma_presence(eps, names, f);
        found::lemma_held(report, f);
        assert(f.code == PRESENCE_CODE@);
    }
}

// ---- frozen episodes -------------------------------------------------------------------------

/// Whether a stream of a name can be judged: a state or action of more than one dimension, of at least
/// eight frames, each with a fingerprint.
pub open spec fn is_judged(s: Stream, name: Seq<char>) -> bool {
    &&& s.name@ == name
    &&& s.modality is Action || s.modality is ScalarState
    &&& s.frames@.len() >= 8
    &&& forall|k: int| 0 <= k < s.frames@.len() ==> (#[trigger] s.frames@[k]).value_ref.content_hash is Some
    &&& (s.dim_names matches Some(d) && d@.len() > 1) || (s.shape matches Some(d) && (forall|k: int|
        0 <= k < d@.len() ==> #[trigger] d@[k] != 0) && (exists|k: int| 0 <= k < d@.len() && #[trigger] d@[k] > 1))
}

/// Whether a stream never changes.
pub open spec fn never_changes(s: Stream) -> bool {
    forall|k: int, m: int|
        0 <= k < s.frames@.len() && 0 <= m < s.frames@.len() ==> structural::fingerprint(#[trigger] s.frames@[k])
            == structural::fingerprint(#[trigger] s.frames@[m])
}

/// The streams that can be judged.
pub open spec fn judged(s: Seq<(Episode, Stream)>, name: Seq<char>) -> Seq<(Episode, Stream)> {
    s.filter(|p: (Episode, Stream)| is_judged(p.1, name))
}

/// The streams that can be judged and never change.
pub open spec fn unchanging(s: Seq<(Episode, Stream)>, name: Seq<char>) -> Seq<(Episode, Stream)> {
    s.filter(|p: (Episode, Stream)| is_judged(p.1, name) && never_changes(p.1))
}

/// What is examined is what can be judged.
proof fn lemma_judged(s: Stream, name: Seq<char>)
    ensures
        structural::is_examined(s) && s.name@ == name <==> is_judged(s, name),
        structural::is_frozen(s.frames@) <==> never_changes(s),
{
    if structural::is_examined(s) {
        assert forall|k: int| 0 <= k < s.frames@.len() implies (#[trigger] s.frames@[k]).value_ref.content_hash is Some by {
            assert(structural::fingerprint(s.frames@[k]) is Some);
        }
    }
    if structural::is_frozen(s.frames@) {
        assert forall|k: int, m: int| 0 <= k < s.frames@.len() && 0 <= m < s.frames@.len() implies structural::fingerprint(
            #[trigger] s.frames@[k],
        ) == structural::fingerprint(#[trigger] s.frames@[m]) by {}
    }
}

/// How many streams are judged, and which of them never change.
#[verifier::rlimit(40)]
proof fn lemma_frozen(s: Seq<(Episode, Stream)>, name: Seq<char>, index: u64)
    ensures
        structural::examined_count(s, name) == judged(s, name).len(),
        structural::frozen_in(s, name).len() == unchanging(s, name).len(),
        structural::frozen_in(s, name).contains(index) <==> exists|k: int|
            0 <= k < s.len() && (#[trigger] s[k]).0.index == index && is_judged(s[k].1, name) && never_changes(s[k].1),
        is_judged_somewhere(s, name) <==> structural::examined_names(s).contains(name),
    decreases s.len(),
{
    reveal(Seq::filter);
    if s.len() > 0 {
        let rest = s.drop_last();
        let n = s.len() - 1;
        lemma_frozen(rest, name, index);
        lemma_judged(s.last().1, name);
        lemma_judged(s.last().1, s.last().1.name@);
        assert(s[n] == s.last());
        found::lemma_one_more(structural::frozen_in(rest, name), s.last().0.index, index);
        found::lemma_one_more(structural::examined_names(rest), s.last().1.name@, name);
        assert forall|k: int| 0 <= k < n implies #[trigger] s[k] == rest[k] by {}
        if exists|k: int|
            0 <= k < rest.len() && (#[trigger] rest[k]).0.index == index && is_judged(rest[k].1, name) && never_changes(
                rest[k].1,
            ) {
            let k = choose|k: int|
                0 <= k < rest.len() && (#[trigger] rest[k]).0.index == index && is_judged(rest[k].1, name) && never_changes(
                    rest[k].1,
                );
            assert(s[k] == rest[k]);
        }
        if is_judged_somewhere(rest, name) {
            let k = choose|k: int| 0 <= k < rest.len() && is_judged((#[trigger] rest[k]).1, name);
            assert(s[k] == rest[k]);
        }
    }
}

/// Whether some stream of a name can be judged.
spec fn is_judged_somewhere(s: Seq<(Episode, Stream)>, name: Seq<char>) -> bool {
    exists|k: int| 0 <= k < s.len() && is_judged((#[trigger] s[k]).1, name)
}

/// What is said of names.
proof fn lemma_frozen_names(s: Seq<(Episode, Stream)>, names: Seq<Seq<char>>, index: u64, name: Seq<char>)
    ensures
        found::finds(
            structural::frozen_of_names(s, names),
            FROZEN_CODE@,
            LocationView::Stream { episode: index, stream: name },
        ) <==> names.contains(name) && structural::examined_count(s, name) >= 3 && structural::frozen_in(s, name).len() * 2
            < structural::examined_count(s, name) && structural::frozen_in(s, name).contains(index),
    decreases names.len(),
{
    let at = LocationView::Stream { episode: index, stream: name };
    if names.len() > 0 {
        let rest = names.drop_last();
        let last = names.last();
        lemma_frozen_names(s, rest, index, name);
        let b = structural::frozen_of_name(s, last);
        found::lemma_finds_both(structural::frozen_of_names(s, rest), b, FROZEN_CODE@, at);
        assert(names =~= rest.push(last));
        found::lemma_one_more(rest, last, name);
        let list = structural::frozen_in(s, last);
        if found::finds(b, FROZEN_CODE@, at) {
            let k = choose|k: int| 0 <= k < b.len() && (#[trigger] b[k]).code == FROZEN_CODE@ && b[k].location == at;
            assert(b[k].location == (LocationView::Stream { episode: list[k], stream: last }));
            assert(list.contains(index));
        }
        if last == name && b.len() > 0 && list.contains(index) {
            let k = choose|k: int| 0 <= k < list.len() && list[k] == index;
            assert(b[k].code == FROZEN_CODE@ && b[k].location == at);
        }
    }
}

/// A recording is reported as frozen exactly where a stream in it that can be judged never changes, and
/// of at least three such streams of its name more than half do.
pub proof fn law_frozen_recordings_are_reported(check: FrozenEpisode, dataset: &Dataset, index: u64, name: Seq<char>)
    ensures
        ({
            let s = walk::pairs(dataset.episodes@);
            found::finds(check.report(dataset), FROZEN_CODE@, LocationView::Stream { episode: index, stream: name }) <==> {
                &&& dataset.episodes@.len() >= 3
                &&& judged(s, name).len() >= 3
                &&& 2 * unchanging(s, name).len() < judged(s, name).len()
                &&& exists|k: int|
                    0 <= k < s.len() && (#[trigger] s[k]).0.index == index && is_judged(s[k].1, name) && never_changes(s[k].1)
            }
        }),
{
    let s = walk::pairs(dataset.episodes@);
    let all = structural::examined_names(s);
    lemma_frozen(s, name, index);
    lemma_frozen_names(s, seqs::text_set(all), index, name);
    seqs::lemma_distinct_contains(all, seqs::text_order(), name);
    if exists|k: int| 0 <= k < s.len() && (#[trigger] s[k]).0.index == index && is_judged(s[k].1, name) && never_changes(s[k].1) {
        let k = choose|k: int|
            0 <= k < s.len() && (#[trigger] s[k]).0.index == index && is_judged(s[k].1, name) && never_changes(s[k].1);
        assert(is_judged_somewhere(s, name));
    }
}

// ---- what could not be inspected -------------------------------------------------------------

/// Names of streams that hold a frame without a fingerprint.
proof fn lemma_unhashed(s: Seq<(Episode, Stream)>)
    ensures
        structural::unhashed_names(s).len() > 0 <==> exists|k: int|
            0 <= k < s.len() && structural::lacks_fingerprint((#[trigger] s[k]).1.frames@),
    decreases s.len(),
{
    if s.len() > 0 {
        let rest = s.drop_last();
        let n = s.len() - 1;
        lemma_unhashed(rest);
        assert(s[n] == s.last());
        if structural::unhashed_names(rest).len() > 0 {
            let k = choose|k: int| 0 <= k < rest.len() && structural::lacks_fingerprint((#[trigger] rest[k]).1.frames@);
            assert(s[k] == rest[k]);
        }
        if exists|k: int| 0 <= k < s.len() && structural::lacks_fingerprint((#[trigger] s[k]).1.frames@) {
            let k = choose|k: int| 0 <= k < s.len() && structural::lacks_fingerprint((#[trigger] s[k]).1.frames@);
            if k < n {
                assert(s[k] == rest[k]);
            }
        }
    }
}

/// That frames have no fingerprint is disclosed exactly where one has none, and that there is too little
/// to compare exactly where there are fewer than four episodes.
#[verifier::rlimit(40)]
pub proof fn law_what_could_not_be_inspected_is_disclosed(check: ContentMeasurability, dataset: &Dataset)
    ensures
        found::finds(check.report(dataset), UNFINGERPRINTED_CODE@, LocationView::Dataset) <==> exists|i: int, j: int, k: int|
            0 <= i < dataset.episodes@.len() && 0 <= j < dataset.episodes@[i].streams@.len() && 0 <= k
                < dataset.episodes@[i].streams@[j].frames@.len() && (
            #[trigger] dataset.episodes@[i].streams@[j].frames@[k]).value_ref.content_hash is None,
        found::finds(check.report(dataset), UNCOMPARED_CODE@, LocationView::Dataset) <==> dataset.episodes@.len() < 4,
{
    reveal_strlit("STRUCTURAL.UNFINGERPRINTED_CONTENT");
    reveal_strlit("STRUCTURAL.UNCOMPARED_EPISODES");
    assert(UNFINGERPRINTED_CODE@.len() == 34 && UNCOMPARED_CODE@.len() == 30);
    let eps = dataset.episodes@;
    let s = walk::pairs(eps);
    let at = LocationView::Dataset;
    let a = structural::uncompared_outcome(dataset);
    let b = ContentMeasurability::unfingerprinted(dataset);
    let names = structural::unhashed_names(s);
    found::lemma_finds_both(a, b, UNFINGERPRINTED_CODE@, at);
    found::lemma_finds_both(a, b, UNCOMPARED_CODE@, at);
    if a.len() > 0 {
        assert(a.len() == 1 && a[0].code == UNCOMPARED_CODE@ && a[0].location == at);
    }
    if b.len() > 0 {
        assert(b.len() == 1 && b[0].code == UNFINGERPRINTED_CODE@ && b[0].location == at);
    }
    assert(a.len() > 0 <==> eps.len() < 4);
    lemma_unhashed(s);
    if names.len() > 0 {
        seqs::lemma_distinct_contains(names, seqs::text_order(), names[0]);
        assert(names.contains(names[0]));
        let k = choose|k: int| 0 <= k < s.len() && structural::lacks_fingerprint((#[trigger] s[k]).1.frames@);
        found::lemma_pairs(eps, s[k]);
        assert(s.contains(s[k]));
        let (i, j) = choose|i: int, j: int|
            0 <= i < eps.len() && 0 <= j < eps[i].streams@.len() && s[k] == (eps[i], #[trigger] eps[i].streams@[j]);
        let f = eps[i].streams@[j].frames@;
        let m = choose|m: int| 0 <= m < f.len() && structural::fingerprint(#[trigger] f[m]) is None;
        assert(eps[i].streams@[j].frames@[m].value_ref.content_hash is None);
    } else {
        assert(seqs::text_set(names).len() == 0) by {
            if seqs::text_set(names).len() > 0 {
                seqs::lemma_distinct_contains(names, seqs::text_order(), seqs::text_set(names)[0]);
            }
        }
    }
    if exists|i: int, j: int, k: int|
        0 <= i < eps.len() && 0 <= j < eps[i].streams@.len() && 0 <= k < eps[i].streams@[j].frames@.len() && (
        #[trigger] eps[i].streams@[j].frames@[k]).value_ref.content_hash is None {
        let (i, j, k) = choose|i: int, j: int, k: int|
            0 <= i < eps.len() && 0 <= j < eps[i].streams@.len() && 0 <= k < eps[i].streams@[j].frames@.len() && (
            #[trigger] eps[i].streams@[j].frames@[k]).value_ref.content_hash is None;
        found::lemma_pairs(eps, (eps[i], eps[i].streams@[j]));
        let m = choose|m: int| 0 <= m < s.len() && s[m] == (eps[i], eps[i].streams@[j]);
        assert(structural::fingerprint(s[m].1.frames@[k]) is None);
        assert(structural::lacks_fingerprint(s[m].1.frames@));
    }
}

// ---- where frames were not read --------------------------------------------------------------

/// Where frames were read, what is reported is the same as in a full run; where they were not, nothing
/// is said of a declared count of frames, and bounds are reported for what the manifest says alone: an
/// index that two episodes have, or an end before a start.
pub proof fn law_unread_frames_are_not_judged(
    bounds: EpisodeBoundary,
    empty: DegenerateEpisode,
    count: DeclaredFrameCount,
    dataset: &Dataset,
    attested: Seq<Seq<char>>,
    index: u64,
)
    ensures
        bounds.report_in(dataset, true, attested) == bounds.report(dataset),
        empty.report_in(dataset, true, attested) == empty.report(dataset),
        count.report_in(dataset, true, attested) == count.report(dataset),
        count.report_in(dataset, false, attested).len() == 0,
        found::finds(bounds.report_in(dataset, false, attested), BOUNDARY_CODE@, LocationView::Episode { episode: index }) <==> {
            ||| is_repeated(dataset.episodes@, index)
            ||| exists|i: int|
                0 <= i < dataset.episodes@.len() && (#[trigger] dataset.episodes@[i]).index == index && (
                dataset.episodes@[i].start_ts matches Some(a) && dataset.episodes@[i].end_ts matches Some(b) && b < a)
        },
{
    let s = dataset.episodes@;
    let at = LocationView::Episode { episode: index };
    let code = BOUNDARY_CODE@;
    let a = structural::duplicate_indices(s, s.len() as int);
    let b = walk::by_episode(InvertedBounds, s);
    lemma_repeats(s, s.len() as int, index);
    seqs::lemma_take_all(s);
    found::lemma_finds_both(a, b, code, at);
    found::lemma_finds_by_episode(InvertedBounds, s, code, at);
    assert forall|i: int| 0 <= i < s.len() implies (found::finds(InvertedBounds.of_episode(#[trigger] s[i]), code, at) <==> (
    s[i].index == index && (s[i].start_ts matches Some(x) && s[i].end_ts matches Some(y) && y < x))) by {
        let r = InvertedBounds.of_episode(s[i]);
        if r.len() > 0 {
            assert(r[0].code == code && r[0].location == (LocationView::Episode { episode: s[i].index }));
        }
    }
    if is_repeated(s, index) {
        let (p, q) = choose|p: int, q: int|
            0 <= p < q < s.len() && (#[trigger] s[p]).index == index && (#[trigger] s[q]).index == index;
        assert(is_index(s, index));
    }
}

/// Where frames were not read, an episode without streams is still reported, and no stream is.
#[verifier::rlimit(40)]
pub proof fn law_unread_streams_are_not_called_empty(
    check: DegenerateEpisode,
    dataset: &Dataset,
    attested: Seq<Seq<char>>,
    f: FindingView,
)
    ensures
        check.report_in(dataset, false, attested).contains(f) ==> f.location !is Stream,
        (exists|i: int| 0 <= i < dataset.episodes@.len() && (#[trigger] dataset.episodes@[i]).streams@.len() == 0)
            || dataset.episodes@.len() == 0 <==> check.report_in(dataset, false, attested).len() > 0,
{
    let s = dataset.episodes@;
    let rule = EmptyEpisodes { frames_read: false };
    let r = check.report_in(dataset, false, attested);
    if s.len() > 0 {
        found::lemma_by_episode(rule, s, f);
        if r.contains(f) {
            let i = choose|i: int| 0 <= i < s.len() && rule.of_episode(#[trigger] s[i]).contains(f);
            assert(rule.of_episode(s[i])[0].location !is Stream);
        }
        if r.len() > 0 {
            let g = r[0];
            assert(r.contains(g));
            found::lemma_by_episode(rule, s, g);
            let i = choose|i: int| 0 <= i < s.len() && rule.of_episode(#[trigger] s[i]).contains(g);
            assert(s[i].streams@.len() == 0);
        }
        if exists|i: int| 0 <= i < s.len() && (#[trigger] s[i]).streams@.len() == 0 {
            let i = choose|i: int| 0 <= i < s.len() && (#[trigger] s[i]).streams@.len() == 0;
            let g = rule.of_episode(s[i])[0];
            assert(rule.of_episode(s[i]).contains(g));
            found::lemma_by_episode(rule, s, g);
        }
    } else {
        if r.contains(f) {
            assert(r[0].location == LocationView::Dataset);
        }
    }
}

} // verus!
