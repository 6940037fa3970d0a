//! Laws of the checks on what an autonomy rig records.

use vstd::prelude::*;
use vstd::string::*;

use crate::cdm::{Dataset, DimStats, EgoPose, Episode, Stream, StreamStats};
use crate::check::{Check, FindingView, LocationView};
use crate::checks::autonomy;
use crate::checks::autonomy::{
    EgoPoseContinuity, GnssPlausibility, RigSync, SequenceComplete, SpanView, EGO_JUMP_CODE, EGO_NON_FINITE_CODE,
    GNSS_IMPLAUSIBLE_CODE, GNSS_UNSET_CODE, RIG_SYNC_CODE, SEQUENCE_CODE,
};
use crate::checks::frames;
use crate::checks::timeline;
use crate::checks::walk::{EpisodeRule, StreamRule};
use crate::double;
use crate::laws::found;
use crate::laws::temporal;
use crate::number;
use crate::seqs;
use crate::text;

verus! {

// ---- poses -----------------------------------------------------------------------------------

/// Whether a pose says where the vehicle is.
pub open spec fn is_somewhere(p: EgoPose) -> bool {
    forall|k: int| 0 <= k < 3 ==> number::magnitude(#[trigger] p.translation@[k]) < number::INFINITY
}

/// How far the vehicle moved along an axis.
pub open spec fn moved(a: EgoPose, b: EgoPose, k: int) -> int {
    double::minus(number::rank(b.translation@[k]), number::rank(a.translation@[k]))
}

/// How fast the vehicle moved: the root of the squares of its three moves, over the seconds between.
pub open spec fn speed(a: EgoPose, b: EgoPose) -> int {
    let (x, y, z) = (moved(a, b, 0), moved(a, b, 1), moved(a, b, 2));
    double::over(
        double::square_root(double::plus(double::plus(double::times(x, x), double::times(y, y)), double::times(z, z))),
        autonomy::step_time(a, b),
    )
}

/// Whether a step of the vehicle takes time.
pub open spec fn takes_time(s: Seq<EgoPose>, i: int) -> bool {
    0 < i < s.len() && autonomy::step_time(s[i - 1], s[i]) > 0
}

/// Whether a step has no finite speed.
pub open spec fn is_unmeasured(s: Seq<EgoPose>, i: int) -> bool {
    takes_time(s, i) && !(is_somewhere(s[i - 1]) && is_somewhere(s[i]) && double::is_finite(speed(s[i - 1], s[i])))
}

/// Whether a step is faster than a vehicle can be.
pub open spec fn is_jump(s: Seq<EgoPose>, most: u64, i: int) -> bool {
    &&& takes_time(s, i) && !is_unmeasured(s, i)
    &&& !number::is_nan(most) && number::rank(most) < speed(s[i - 1], s[i])
}

/// The speed of a step.
proof fn lemma_speed(s: Seq<EgoPose>, i: int)
    requires
        takes_time(s, i),
    ensures
        autonomy::step_speed(s[i - 1], s[i]) is None <==> is_unmeasured(s, i),
        !is_unmeasured(s, i) ==> autonomy::step_speed(s[i - 1], s[i]) == Some(speed(s[i - 1], s[i])),
{
    let (a, b) = (s[i - 1], s[i]);
    assert(is_somewhere(a) <==> autonomy::is_placed(a)) by {
        if autonomy::is_placed(a) {
            assert forall|k: int| 0 <= k < 3 implies number::magnitude(#[trigger] a.translation@[k]) < number::INFINITY by {
                assert(k == 0 || k == 1 || k == 2);
            }
        }
    }
    assert(is_somewhere(b) <==> autonomy::is_placed(b)) by {
        if autonomy::is_placed(b) {
            assert forall|k: int| 0 <= k < 3 implies number::magnitude(#[trigger] b.translation@[k]) < number::INFINITY by {
                assert(k == 0 || k == 1 || k == 2);
            }
        }
    }
}

/// What one more pose adds to the counts.
proof fn lemma_step(s: Seq<EgoPose>, most: u64, n: int)
    requires
        2 <= n <= s.len(),
    ensures
        autonomy::steps(s, most, n).non_finite == autonomy::steps(s, most, n - 1).non_finite + (if is_unmeasured(s, n - 1) {
            1nat
        } else {
            0
        }),
        autonomy::steps(s, most, n).jumps == autonomy::steps(s, most, n - 1).jumps + (if is_jump(s, most, n - 1) {
            1nat
        } else {
            0
        }),
{
    if takes_time(s, n - 1) {
        lemma_speed(s, n - 1);
    }
}

/// Whether a step up to a pose has no finite speed.
spec fn some_unmeasured(s: Seq<EgoPose>, n: int) -> bool {
    exists|i: int| i < n && #[trigger] is_unmeasured(s, i)
}

/// Whether a step up to a pose is too fast.
spec fn some_jump(s: Seq<EgoPose>, most: u64, n: int) -> bool {
    exists|i: int| i < n && #[trigger] is_jump(s, most, i)
}

/// One pose more.
proof fn lemma_one_step_more(s: Seq<EgoPose>, most: u64, n: int)
    ensures
        some_unmeasured(s, n) <==> some_unmeasured(s, n - 1) || is_unmeasured(s, n - 1),
        some_jump(s, most, n) <==> some_jump(s, most, n - 1) || is_jump(s, most, n - 1),
{
    if some_unmeasured(s, n - 1) {
        let k = choose|k: int| k < n - 1 && #[trigger] is_unmeasured(s, k);
        assert(k < n && is_unmeasured(s, k));
    }
    if some_jump(s, most, n - 1) {
        let k = choose|k: int| k < n - 1 && #[trigger] is_jump(s, most, k);
        assert(k < n && is_jump(s, most, k));
    }
    if some_unmeasured(s, n) {
        let k = choose|k: int| k < n && #[trigger] is_unmeasured(s, k);
        assert(k < n - 1 || k == n - 1);
    }
    if some_jump(s, most, n) {
        let k = choose|k: int| k < n && #[trigger] is_jump(s, most, k);
        assert(k < n - 1 || k == n - 1);
    }
}

/// What is counted up to a pose.
proof fn lemma_steps(s: Seq<EgoPose>, most: u64, n: int)
    requires
        0 <= n <= s.len(),
    ensures
        autonomy::steps(s, most, n).non_finite > 0 <==> some_unmeasured(s, n),
        autonomy::steps(s, most, n).jumps > 0 <==> some_jump(s, most, n),
    decreases n,
{
    if n >= 2 {
        lemma_steps(s, most, n - 1);
        lemma_step(s, most, n);
        lemma_one_step_more(s, most, n);
    } else {
        assert forall|i: int| i < n implies !(#[trigger] is_unmeasured(s, i)) by {}
        assert forall|i: int| i < n implies !(#[trigger] is_jump(s, most, i)) by {}
    }
}

/// The codes differ.
proof fn lemma_codes()
    ensures
        EGO_JUMP_CODE@ != EGO_NON_FINITE_CODE@,
        GNSS_IMPLAUSIBLE_CODE@ != GNSS_UNSET_CODE@,
{
    reveal_strlit("AUTONOMY.EGO_POSE_CONTINUITY");
    reveal_strlit("AUTONOMY.EGO_POSE_NON_FINITE");
    reveal_strlit("AUTONOMY.GNSS_IMPLAUSIBLE");
    reveal_strlit("AUTONOMY.GNSS_UNSET");
    assert(EGO_JUMP_CODE@[18] == 'C');
    assert(EGO_NON_FINITE_CODE@[18] == 'N');
    assert(GNSS_IMPLAUSIBLE_CODE@.len() == 25);
    assert(GNSS_UNSET_CODE@.len() == 19);
}

/// An episode is reported exactly where a step between two poses, one after the other, is faster than is
/// allowed, and exactly where one has no finite speed.
#[verifier::rlimit(40)]
pub proof fn law_jumps_are_reported(check: EgoPoseContinuity, e: Episode)
    ensures
        ({
            let at = LocationView::Episode { episode: e.index };
            let r = check.of_episode(e);
            &&& found::finds(r, EGO_JUMP_CODE@, at) <==> (e.ego_poses matches Some(p) && exists|i: int|
                #[trigger] is_jump(p@, check.max_speed_mps, i))
            &&& found::finds(r, EGO_NON_FINITE_CODE@, at) <==> (e.ego_poses matches Some(p) && exists|i: int|
                #[trigger] is_unmeasured(p@, i))
        }),
{
    lemma_codes();
    let at = LocationView::Episode { episode: e.index };
    let r = check.of_episode(e);
    if let Some(p) = e.ego_poses {
        let n = p@.len() as int;
        lemma_steps(p@, check.max_speed_mps, n);
        let s = autonomy::steps(p@, check.max_speed_mps, n);
        assert forall|k: int| 0 <= k < r.len() implies (#[trigger] r[k]).location == at && ((s.jumps > 0 && r[k].code
            == EGO_JUMP_CODE@) || (s.non_finite > 0 && r[k].code == EGO_NON_FINITE_CODE@)) by {}
        if s.non_finite > 0 {
            assert(r[0].code == EGO_NON_FINITE_CODE@);
        }
        if s.jumps > 0 {
            assert(r[r.len() - 1].code == EGO_JUMP_CODE@);
        }
        if exists|i: int| #[trigger] is_jump(p@, check.max_speed_mps, i) {
            let i = choose|i: int| #[trigger] is_jump(p@, check.max_speed_mps, i);
            assert(i < n && is_jump(p@, check.max_speed_mps, i));
        }
        if exists|i: int| #[trigger] is_unmeasured(p@, i) {
            let i = choose|i: int| #[trigger] is_unmeasured(p@, i);
            assert(i < n && is_unmeasured(p@, i));
        }
    }
}

/// The report of a dataset on its poses is that of its episodes.
pub proof fn law_jumps_are_reported_by_episode(check: EgoPoseContinuity, dataset: &Dataset, f: FindingView)
    ensures
        check.report(dataset).contains(f) <==> exists|i: int|
            0 <= i < dataset.episodes@.len() && check.of_episode(#[trigger] dataset.episodes@[i]).contains(f),
{
    found::lemma_by_episode(check, dataset.episodes@, f);
}

// ---- positions -------------------------------------------------------------------------------

/// Whether statistics are those of a stream's dimension of a name.
pub open spec fn is_of_axis(s: Stream, axis: Seq<char>, x: StreamStats) -> bool {
    s.dim_names matches Some(names) && s.observed_dim_stats matches Some(dims) && exists|k: int, m: int|
        is_axis(text::texts(names@), dims@, axis, k, m) && dims@[m].stats == x
}

/// Whether a dimension is the first of a name, and statistics the first of it.
pub open spec fn is_axis(names: Seq<Seq<char>>, dims: Seq<DimStats>, axis: Seq<char>, k: int, m: int) -> bool {
    &&& 0 <= k < names.len() && names[k] == axis
    &&& forall|q: int| 0 <= q < k ==> #[trigger] names[q] != axis
    &&& 0 <= m < dims.len() && dims[m].dim == k
    &&& forall|q: int| 0 <= q < m ==> (#[trigger] dims[q]).dim != k
}

/// The first statistics of a dimension.
#[verifier::rlimit(40)]
proof fn lemma_dim_at(dims: Seq<DimStats>, i: int)
    ensures
        match autonomy::dim_at(dims, i) {
            Some(x) => exists|m: int|
                0 <= m < dims.len() && (#[trigger] dims[m]).dim == i && dims[m].stats == x && forall|q: int|
                    0 <= q < m ==> (#[trigger] dims[q]).dim != i,
            None => forall|m: int| 0 <= m < dims.len() ==> (#[trigger] dims[m]).dim != i,
        },
    decreases dims.len(),
{
    if dims.len() > 0 && dims[0].dim != i {
        let rest = dims.skip(1);
        lemma_dim_at(rest, i);
        assert forall|q: int| 1 <= q < dims.len() implies #[trigger] dims[q] == rest[q - 1] by {}
        if let Some(x) = autonomy::dim_at(rest, i) {
            let m = choose|m: int|
                0 <= m < rest.len() && (#[trigger] rest[m]).dim == i && rest[m].stats == x && forall|q: int|
                    0 <= q < m ==> (#[trigger] rest[q]).dim != i;
            assert(dims[m + 1] == rest[m]);
            assert forall|q: int| 0 <= q < m + 1 implies (#[trigger] dims[q]).dim != i by {
                if q > 0 {
                    assert(rest[q - 1].dim != i);
                }
            }
        }
    } else if dims.len() > 0 {
        assert(dims[0].dim == i);
    }
}

/// The place of a name is the first.
proof fn lemma_place(names: Seq<Seq<char>>, x: Seq<char>)
    ensures
        0 <= frames::place(names, x) <= names.len(),
        forall|q: int| 0 <= q < frames::place(names, x) ==> #[trigger] names[q] != x,
        frames::place(names, x) < names.len() ==> names[frames::place(names, x)] == x,
    decreases names.len(),
{
    if names.len() > 0 && names[0] != x {
        let rest = names.skip(1);
        lemma_place(rest, x);
        assert forall|q: int| 1 <= q < names.len() implies #[trigger] names[q] == rest[q - 1] by {}
    }
}

/// The statistics of a dimension of a name are the first of the first.
#[verifier::rlimit(40)]
proof fn lemma_axis(s: Stream, axis: Seq<char>, x: StreamStats)
    requires
        s.dim_names is Some,
        s.observed_dim_stats is Some,
    ensures
        autonomy::dim_named(text::texts(s.dim_names->0@), s.observed_dim_stats->0@, axis) == Some(x) <==> is_of_axis(s, axis, x),
{
    let names = text::texts(s.dim_names->0@);
    let dims = s.observed_dim_stats->0@;
    let i = frames::place(names, axis);
    lemma_place(names, axis);
    lemma_dim_at(dims, i);
    if autonomy::dim_named(names, dims, axis) == Some(x) {
        let m = choose|m: int|
            0 <= m < dims.len() && (#[trigger] dims[m]).dim == i && dims[m].stats == x && forall|q: int|
                0 <= q < m ==> (#[trigger] dims[q]).dim != i;
        assert(is_axis(names, dims, axis, i, m));
    }
    if is_of_axis(s, axis, x) {
        let (k, m) = choose|k: int, m: int| is_axis(names, dims, axis, k, m) && dims[m].stats == x;
        assert(k == i) by {
            assert(k >= i);
            assert(i >= k);
        }
        let y = autonomy::dim_at(dims, i)->0;
        let q = choose|q: int|
            0 <= q < dims.len() && (#[trigger] dims[q]).dim == i && dims[q].stats == y && forall|p: int|
                0 <= p < q ==> (#[trigger] dims[p]).dim != i;
        assert(q == m) by {
            assert(q >= m && m >= q);
        }
    }
}

/// Whether a dimension leaves the range that its name allows.
pub open spec fn is_implausible(s: Stream, axis: Seq<char>, low: u64, high: u64) -> bool {
    exists|x: StreamStats| #[trigger] is_of_axis(s, axis, x) && (number::less(x.min, low) || number::less(high, x.max))
}

/// Whether a dimension is zero throughout.
pub open spec fn is_naught(s: Stream, axis: Seq<char>) -> bool {
    exists|x: StreamStats| #[trigger] is_of_axis(s, axis, x) && number::equal(x.min, 0) && number::equal(x.max, 0)
}

/// A stream of positions is reported as implausible exactly where a latitude lies beyond ninety degrees
/// or a longitude beyond a hundred and eighty, and as unset exactly where both are zero throughout.
#[verifier::rlimit(40)]
pub proof fn law_implausible_positions_are_reported(check: GnssPlausibility, e: Episode, s: Stream)
    ensures
        ({
            let at = LocationView::Stream { episode: e.index, stream: s.name@ };
            let r = check.of_stream(e, s);
            &&& found::finds(r, GNSS_IMPLAUSIBLE_CODE@, at) <==> s.modality is Gnss && (is_implausible(
                s,
                "latitude"@,
                0xc056_8000_0000_0000,
                0x4056_8000_0000_0000,
            ) || is_implausible(s, "longitude"@, 0xc066_8000_0000_0000, 0x4066_8000_0000_0000))
            &&& found::finds(r, GNSS_UNSET_CODE@, at) <==> s.modality is Gnss && is_naught(s, "latitude"@) && is_naught(
                s,
                "longitude"@,
            )
        }),
{
    lemma_codes();
    let at = LocationView::Stream { episode: e.index, stream: s.name@ };
    let r = check.of_stream(e, s);
    if s.dim_names is Some && s.observed_dim_stats is Some && s.modality is Gnss {
        let names = text::texts(s.dim_names->0@);
        let dims = s.observed_dim_stats->0@;
        let lat = autonomy::dim_named(names, dims, "latitude"@);
        let lon = autonomy::dim_named(names, dims, "longitude"@);
        assert forall|x: StreamStats| #[trigger] is_of_axis(s, "latitude"@, x) <==> lat == Some(x) by {
            lemma_axis(s, "latitude"@, x);
        }
        assert forall|x: StreamStats| #[trigger] is_of_axis(s, "longitude"@, x) <==> lon == Some(x) by {
            lemma_axis(s, "longitude"@, x);
        }
        if let Some(x) = lat {
            assert(is_of_axis(s, "latitude"@, x));
        }
        if let Some(x) = lon {
            assert(is_of_axis(s, "longitude"@, x));
        }
        let a = autonomy::axis_findings(
            e.index,
            s.name@,
            "latitude"@,
            lat,
            autonomy::MINUS_NINETY,
            "-90"@,
            autonomy::NINETY,
            "90"@,
        );
        let b = autonomy::axis_findings(
            e.index,
            s.name@,
            "longitude"@,
            lon,
            autonomy::MINUS_STRAIGHT,
            "-180"@,
            autonomy::STRAIGHT,
            "180"@,
        );
        let c = if autonomy::is_zero(lat) && autonomy::is_zero(lon) {
            seq![autonomy::gnss_unset_finding(e.index, s.name@)]
        } else {
            Seq::empty()
        };
        assert(r == a + b + c);
        found::lemma_finds_both(a, b, GNSS_IMPLAUSIBLE_CODE@, at);
        found::lemma_finds_both(a + b, c, GNSS_IMPLAUSIBLE_CODE@, at);
        found::lemma_finds_both(a, b, GNSS_UNSET_CODE@, at);
        found::lemma_finds_both(a + b, c, GNSS_UNSET_CODE@, at);
        if a.len() > 0 {
            assert(a.len() == 1 && a[0].code == GNSS_IMPLAUSIBLE_CODE@ && a[0].location == at);
        }
        if b.len() > 0 {
            assert(b.len() == 1 && b[0].code == GNSS_IMPLAUSIBLE_CODE@ && b[0].location == at);
        }
        if c.len() > 0 {
            assert(c.len() == 1 && c[0].code == GNSS_UNSET_CODE@ && c[0].location == at);
        }
    }
}

/// The report of a dataset on positions is that of its streams.
pub proof fn law_positions_are_reported_by_stream(check: GnssPlausibility, dataset: &Dataset, f: FindingView)
    ensures
        check.report(dataset).contains(f) <==> exists|i: int, j: int|
            0 <= i < dataset.episodes@.len() && 0 <= j < dataset.episodes@[i].streams@.len() && check.of_stream(
                dataset.episodes@[i],
                #[trigger] dataset.episodes@[i].streams@[j],
            ).contains(f),
{
    found::lemma_by_streams(check, dataset.episodes@, f);
}

// ---- spans -----------------------------------------------------------------------------------

/// Whether a stream of an episode has a span: it is of a known kind, and takes time.
pub open spec fn is_spanning(e: Episode, j: int) -> bool {
    0 <= j < e.streams@.len() && !(e.streams@[j].modality is Other) && exists|d: int|
        d > 0 && #[trigger] temporal::lasts(e.streams@[j].frames@, d)
}

/// A stream has a span exactly where it is of a known kind and its last frame comes after its first.
pub proof fn law_a_stream_spans_where_it_takes_time(e: Episode, j: int)
    requires
        0 <= j < e.streams@.len(),
    ensures
        autonomy::has_span(e.streams@[j]) <==> is_spanning(e, j),
{
    let f = e.streams@[j].frames@;
    if f.len() > 0 {
        temporal::law_a_span_is_from_first_to_last(f, timeline::span(f));
        if is_spanning(e, j) {
            let d = choose|d: int| d > 0 && #[trigger] temporal::lasts(f, d);
            temporal::law_a_span_is_from_first_to_last(f, d);
        }
    } else if is_spanning(e, j) {
        let d = choose|d: int| d > 0 && #[trigger] temporal::lasts(f, d);
        let (a, b) = choose|a: int, b: int|
            #[trigger] temporal::starts_at(f, a) && #[trigger] temporal::ends_at(f, b) && d == (if b - a > i64::MAX {
                i64::MAX as int
            } else {
                b - a
            });
        assert(temporal::starts_at(f, a));
    }
}

/// The spans of streams.
proof fn lemma_spanning(s: Seq<Stream>, x: SpanView)
    ensures
        autonomy::spans_of(s).contains(x) <==> exists|j: int|
            0 <= j < s.len() && autonomy::has_span(#[trigger] s[j]) && autonomy::span_of(s[j]) == x,
    decreases s.len(),
{
    if s.len() > 0 {
        let rest = s.drop_last();
        let n = s.len() - 1;
        lemma_spanning(rest, x);
        found::lemma_one_more(autonomy::spans_of(rest), autonomy::span_of(s.last()), x);
        assert(s[n] == s.last());
        assert forall|j: int| 0 <= j < n implies #[trigger] s[j] == rest[j] by {}
        if autonomy::spans_of(rest).contains(x) {
            let j = choose|j: int|
                0 <= j < rest.len() && autonomy::has_span(#[trigger] rest[j]) && autonomy::span_of(rest[j]) == x;
            assert(s[j] == rest[j]);
        }
    }
}

/// What a sorted list holds.
proof fn lemma_sorted_holds(s: Seq<SpanView>, x: SpanView)
    ensures
        seqs::sorted(s, autonomy::span_order()).contains(x) <==> s.contains(x),
{
    broadcast use vstd::seq_lib::group_to_multiset_ensures;

    let t = seqs::sorted(s, autonomy::span_order());
    seqs::lemma_sorted_multiset(s, autonomy::span_order());
    assert(t.contains(x) <==> t.to_multiset().count(x) > 0);
    assert(s.contains(x) <==> s.to_multiset().count(x) > 0);
}

/// Whether spans grow.
spec fn grow(s: Seq<SpanView>) -> bool {
    forall|i: int, j: int| 0 <= i < j < s.len() ==> (#[trigger] s[i]).span <= (#[trigger] s[j]).span
}

/// A span put in its place.
#[verifier::rlimit(40)]
proof fn lemma_placed_grows(s: Seq<SpanView>, x: SpanView)
    requires
        grow(s),
    ensures
        grow(seqs::placed(s, x, autonomy::span_order())),
        forall|y: SpanView| #[trigger] seqs::placed(s, x, autonomy::span_order()).contains(y) ==> s.contains(y) || y == x,
    decreases s.len(),
{
    let lt = autonomy::span_order();
    let all = seqs::placed(s, x, lt);
    if s.len() == 0 {
        assert forall|y: SpanView| all.contains(y) implies s.contains(y) || y == x by {
            let k = choose|k: int| 0 <= k < all.len() && all[k] == y;
            assert(all[0] == x);
        }
    } else if lt(x, s[0]) {
        assert forall|i: int, j: int| 0 <= i < j < all.len() implies (#[trigger] all[i]).span <= (#[trigger] all[j]).span by {
            assert(all[j] == s[j - 1]);
            if i > 0 {
                assert(all[i] == s[i - 1]);
            } else {
                assert(s[0].span <= s[j - 1].span);
            }
        }
        assert forall|y: SpanView| all.contains(y) implies s.contains(y) || y == x by {
            let k = choose|k: int| 0 <= k < all.len() && all[k] == y;
            if k > 0 {
                assert(s[k - 1] == y);
            }
        }
    } else {
        let rest = s.skip(1);
        assert forall|i: int, j: int| 0 <= i < j < rest.len() implies (#[trigger] rest[i]).span <= (#[trigger] rest[j]).span by {
            assert(rest[i] == s[i + 1] && rest[j] == s[j + 1]);
        }
        lemma_placed_grows(rest, x);
        let more = seqs::placed(rest, x, lt);
        assert(all == seq![s[0]] + more);
        assert forall|y: SpanView| more.contains(y) implies (s.contains(y) && s[0].span <= y.span) || y == x by {
            if y != x {
                let k = choose|k: int| 0 <= k < rest.len() && rest[k] == y;
                assert(s[k + 1] == y);
            }
        }
        assert forall|i: int, j: int| 0 <= i < j < all.len() implies (#[trigger] all[i]).span <= (#[trigger] all[j]).span by {
            assert(all[j] == more[j - 1]);
            assert(more.contains(all[j]));
            if i > 0 {
                assert(all[i] == more[i - 1]);
            } else {
                assert(!autonomy::span_lt(x, s[0]));
            }
        }
        assert forall|y: SpanView| all.contains(y) implies s.contains(y) || y == x by {
            let k = choose|k: int| 0 <= k < all.len() && all[k] == y;
            if k > 0 {
                assert(more[k - 1] == y);
            } else {
                assert(s[0] == y);
            }
        }
    }
}

/// Sorted spans grow.
proof fn lemma_sorted_grows(s: Seq<SpanView>)
    ensures
        grow(seqs::sorted(s, autonomy::span_order())),
    decreases s.len(),
{
    if s.len() > 0 {
        lemma_sorted_grows(s.drop_last());
        lemma_placed_grows(seqs::sorted(s.drop_last(), autonomy::span_order()), s.last());
    }
}

/// Whether one stream's span is the least of an episode's, another's the greatest, and they differ by
/// more than is allowed and either's period.
pub open spec fn is_out_of_step(check: RigSync, s: Seq<Stream>, a: int, b: int) -> bool {
    &&& 0 <= a < s.len() && autonomy::has_span(s[a])
    &&& 0 <= b < s.len() && autonomy::has_span(s[b])
    &&& forall|j: int|
        0 <= j < s.len() && autonomy::has_span(#[trigger] s[j]) ==> timeline::span(s[a].frames@) <= timeline::span(s[j].frames@)
            <= timeline::span(s[b].frames@)
    &&& check.tolerance_ns + timeline::period(s[a]) < timeline::span(s[b].frames@) - timeline::span(s[a].frames@)
    &&& check.tolerance_ns + timeline::period(s[b]) < timeline::span(s[b].frames@) - timeline::span(s[a].frames@)
}

/// A rig is reported as out of step only where the least and the greatest span of its streams are.
#[verifier::rlimit(40)]
pub proof fn law_only_rigs_out_of_step_are_reported(check: RigSync, e: Episode)
    requires
        check.tolerance_ns >= 0,
    ensures
        check.of_episode(e).len() > 0 ==> autonomy::is_rig(e) && exists|a: int, b: int| #[trigger]
            is_out_of_step(check, e.streams@, a, b),
{
    let s = e.streams@;
    let list = autonomy::spans_of(s);
    let t = seqs::sorted(list, autonomy::span_order());
    if check.of_episode(e).len() > 0 {
        lemma_sorted_grows(list);
        let n = t.len() - 1;
        assert(t.contains(t[0]) && t.contains(t[n]));
        lemma_sorted_holds(list, t[0]);
        lemma_sorted_holds(list, t[n]);
        lemma_spanning(s, t[0]);
        lemma_spanning(s, t[n]);
        let a = choose|j: int| 0 <= j < s.len() && autonomy::has_span(#[trigger] s[j]) && autonomy::span_of(s[j]) == t[0];
        let b = choose|j: int| 0 <= j < s.len() && autonomy::has_span(#[trigger] s[j]) && autonomy::span_of(s[j]) == t[n];
        assert forall|j: int| 0 <= j < s.len() && autonomy::has_span(#[trigger] s[j]) implies timeline::span(s[a].frames@)
            <= timeline::span(s[j].frames@) <= timeline::span(s[b].frames@) by {
            let x = autonomy::span_of(s[j]);
            lemma_spanning(s, x);
            lemma_sorted_holds(list, x);
            let k = choose|k: int| 0 <= k < t.len() && t[k] == x;
            assert(k == 0 || t[0].span <= t[k].span);
            assert(k == n || t[k].span <= t[n].span);
        }
        temporal::law_a_span_is_from_first_to_last(s[a].frames@, 0);
        temporal::law_a_span_is_from_first_to_last(s[b].frames@, 0);
        assert(timeline::span(s[b].frames@) <= i64::MAX);
        assert(is_out_of_step(check, s, a, b));
    }
}

/// A rig is reported as out of step wherever two of its streams differ in span by more than is allowed
/// and any stream's period.
#[verifier::rlimit(40)]
pub proof fn law_rigs_out_of_step_are_reported(check: RigSync, e: Episode, a: int, b: int, p: int)
    requires
        autonomy::is_rig(e),
        0 <= a < e.streams@.len(),
        0 <= b < e.streams@.len(),
        autonomy::has_span(e.streams@[a]),
        autonomy::has_span(e.streams@[b]),
        check.tolerance_ns >= 0,
        p >= 0,
        forall|j: int| 0 <= j < e.streams@.len() ==> timeline::period(#[trigger] e.streams@[j]) <= p,
        timeline::span(e.streams@[b].frames@) - timeline::span(e.streams@[a].frames@) > check.tolerance_ns + p,
    ensures
        found::finds(check.of_episode(e), RIG_SYNC_CODE@, LocationView::Episode { episode: e.index }),
{
    let s = e.streams@;
    let list = autonomy::spans_of(s);
    let t = seqs::sorted(list, autonomy::span_order());
    lemma_sorted_grows(list);
    let (x, y) = (autonomy::span_of(s[a]), autonomy::span_of(s[b]));
    lemma_spanning(s, x);
    lemma_spanning(s, y);
    lemma_sorted_holds(list, x);
    lemma_sorted_holds(list, y);
    let k = choose|k: int| 0 <= k < t.len() && t[k] == x;
    let m = choose|m: int| 0 <= m < t.len() && t[m] == y;
    assert(k != m);
    let n = t.len() - 1;
    assert(k == 0 || t[0].span <= t[k].span);
    assert(m == n || t[m].span <= t[n].span);
    assert(t.contains(t[0]) && t.contains(t[n]));
    lemma_sorted_holds(list, t[0]);
    lemma_sorted_holds(list, t[n]);
    lemma_spanning(s, t[0]);
    lemma_spanning(s, t[n]);
    let c = choose|j: int| 0 <= j < s.len() && autonomy::has_span(#[trigger] s[j]) && autonomy::span_of(s[j]) == t[0];
    let d = choose|j: int| 0 <= j < s.len() && autonomy::has_span(#[trigger] s[j]) && autonomy::span_of(s[j]) == t[n];
    assert(t[0].period <= p && t[n].period <= p);
    let r = check.of_episode(e);
    assert(r.len() == 1);
    assert(r[0].code == RIG_SYNC_CODE@ && r[0].location == (LocationView::Episode { episode: e.index }));
}

/// The report of a dataset on its rigs is that of its episodes, and only that of rigs.
pub proof fn law_rigs_are_reported_by_episode(sync: RigSync, complete: SequenceComplete, dataset: &Dataset, f: FindingView)
    ensures
        sync.report(dataset).contains(f) <==> exists|i: int|
            0 <= i < dataset.episodes@.len() && sync.of_episode(#[trigger] dataset.episodes@[i]).contains(f),
        complete.report(dataset).contains(f) <==> exists|i: int, j: int|
            0 <= i < dataset.episodes@.len() && 0 <= j < dataset.episodes@[i].streams@.len() && autonomy::is_rig(
                dataset.episodes@[i],
            ) && complete.of_stream(dataset.episodes@[i], #[trigger] dataset.episodes@[i].streams@[j]).contains(f),
{
    let s = dataset.episodes@;
    found::lemma_by_episode(sync, s, f);
    found::lemma_by_episode(complete, s, f);
    assert forall|i: int| 0 <= i < s.len() implies (EpisodeRule::of_episode(&complete, #[trigger] s[i]).contains(f) <==> autonomy::is_rig(
        s[i],
    ) && exists|j: int| 0 <= j < s[i].streams@.len() && complete.of_stream(s[i], #[trigger] s[i].streams@[j]).contains(f)) by {
        found::lemma_by_stream(complete, s[i], s[i].streams@, f);
    }
}

// ---- missing frames --------------------------------------------------------------------------

/// A gap swallows frames exactly where it is about a whole number of cadences, two or more, and then one
/// fewer than that.
pub proof fn law_a_gap_swallows_whole_cadences(bits: u64, k: int)
    requires
        0 < bits < number::INFINITY,
        k >= 2,
        ({
            let (num, den) = (number::numerator(bits) as int, number::denominator(bits) as int);
            den > 0 && 2 * k * den - den <= 2 * num < 2 * k * den + den
        }),
    ensures
        autonomy::swallowed(bits) == 0 || autonomy::swallowed(bits) == k - 1,
        number::numerator(bits) == k * number::denominator(bits) ==> autonomy::swallowed(bits) == k - 1,
{
    let (num, den) = (number::numerator(bits) as int, number::denominator(bits) as int);
    assert((2 * num + den) / (2 * den) == k) by (nonlinear_arith)
        requires
            den > 0,
            2 * k * den - den <= 2 * num < 2 * k * den + den,
    ;
    assert((2 * number::numerator(bits) + number::denominator(bits)) / (2 * number::denominator(bits)) == k);
    assert(autonomy::nearest_whole(bits) == k);
    if num == k * den {
        assert(autonomy::apart(num, (autonomy::nearest_whole(bits) * number::denominator(bits)) as int) == 0);
    }
}

/// Nothing is missing where no gap swallows a frame, and where one does, something is.
pub proof fn law_frames_are_missing_where_a_gap_swallows_them(gaps: Seq<u64>, cadence: u64)
    ensures
        autonomy::missing_frames(gaps, cadence) > 0 <==> exists|k: int|
            0 <= k < gaps.len() && autonomy::swallowed(autonomy::in_cadences(#[trigger] gaps[k], cadence)) > 0,
    decreases gaps.len(),
{
    if gaps.len() > 0 {
        let rest = gaps.drop_last();
        let n = gaps.len() - 1;
        law_frames_are_missing_where_a_gap_swallows_them(rest, cadence);
        assert(gaps[n] == gaps.last());
        assert forall|j: int| 0 <= j < n implies #[trigger] gaps[j] == rest[j] by {}
        if exists|k: int| 0 <= k < rest.len() && autonomy::swallowed(autonomy::in_cadences(#[trigger] rest[k], cadence)) > 0 {
            let k = choose|k: int|
                0 <= k < rest.len() && autonomy::swallowed(autonomy::in_cadences(#[trigger] rest[k], cadence)) > 0;
            assert(gaps[k] == rest[k]);
        }
    }
}

/// A stream is reported only where it has eight frames, a gap between two of them swallows frames, and
/// the share of those is more than is allowed.
pub proof fn law_only_incomplete_sequences_are_reported(check: SequenceComplete, e: Episode, s: Stream)
    ensures
        check.of_stream(e, s).len() > 0 ==> {
            let gaps = seqs::sorted(timeline::positive_gaps(s.frames@), seqs::number_order());
            let cadence = gaps[gaps.len() as int / 2];
            let missing = autonomy::missing_frames(gaps, cadence);
            &&& s.frames@.len() >= 8
            &&& exists|k: int|
                0 <= k < gaps.len() && autonomy::swallowed(autonomy::in_cadences(#[trigger] gaps[k], cadence)) > 0
            &&& number::less(check.max_drop_fraction, number::nearest_bits(missing, s.frames@.len() + missing) as u64)
            &&& check.of_stream(e, s)[0].code == SEQUENCE_CODE@
            &&& check.of_stream(e, s)[0].location == (LocationView::Stream { episode: e.index, stream: s.name@ })
        },
{
    let gaps = seqs::sorted(timeline::positive_gaps(s.frames@), seqs::number_order());
    if gaps.len() > 0 {
        law_frames_are_missing_where_a_gap_swallows_them(gaps, gaps[gaps.len() as int / 2]);
    }
}

/// A stream of at least eight frames, whose gaps vary by at most two fifths of their mean, is reported
/// wherever a gap swallows frames and the share of those is more than is allowed.
pub proof fn law_incomplete_sequences_are_reported(check: SequenceComplete, e: Episode, s: Stream, k: int)
    requires
        s.frames@.len() >= 8,
        ({
            let gaps = seqs::sorted(timeline::positive_gaps(s.frames@), seqs::number_order());
            let cadence = gaps[gaps.len() as int / 2];
            let missing = autonomy::missing_frames(gaps, cadence);
            &&& timeline::variation(gaps) matches Some(v) ==> v <= 0x3fd9_9999_9999_999a
            &&& 0 <= k < gaps.len() && autonomy::swallowed(autonomy::in_cadences(gaps[k], cadence)) > 0
            &&& number::less(check.max_drop_fraction, number::nearest_bits(missing, s.frames@.len() + missing) as u64)
        }),
    ensures
        found::finds(
            check.of_stream(e, s),
            SEQUENCE_CODE@,
            LocationView::Stream { episode: e.index, stream: s.name@ },
        ),
{
    let gaps = seqs::sorted(timeline::positive_gaps(s.frames@), seqs::number_order());
    let cadence = gaps[gaps.len() as int / 2];
    law_frames_are_missing_where_a_gap_swallows_them(gaps, cadence);
    let r = check.of_stream(e, s);
    assert(r.len() == 1);
    assert(r[0].code == SEQUENCE_CODE@);
}

} // verus!
