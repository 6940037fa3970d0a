//! Laws of the checks on stored and observed statistics.

use vstd::prelude::*;

use crate::cdm::{Dataset, DeclaredRange, DimStats, Episode, Stream, StreamStats};
use crate::check::{Check, FindingView, LocationView, Severity};
use crate::checks::lists;
use crate::checks::statistical;
use crate::checks::statistical::{
    DeclaredRangeConformance, ExtremeOutlier, NonFiniteObserved, RangeSanity, StoredVsObserved, ValueMeasurability,
    DEGENERATE_CODE, DTYPE_CODE, INVERTED_CODE, MEAN_CODE, NEGATIVE_STD_CODE, NON_FINITE_CODE, NON_FINITE_OBSERVED_CODE,
    OUTLIER_CODE, OUT_OF_RANGE_CODE, STALE_CODE, STD_CODE,
};
use crate::checks::walk;
use crate::checks::walk::KeyedRule;
use crate::double;
use crate::laws::found;
use crate::number;
use crate::seqs;

verus! {

// ---- values that are no numbers --------------------------------------------------------------

/// Whether values of a stream were seen that are no finite numbers.
pub open spec fn is_broken() -> spec_fn(Stream) -> bool {
    |s: Stream| s.observed_non_finite matches Some(n) && n != 0
}

/// A stream is reported exactly where a value was seen in it that is no finite number.
pub proof fn law_broken_values_are_reported(check: NonFiniteObserved, dataset: &Dataset, name: Seq<char>)
    ensures
        found::finds_named(check.report(dataset), NON_FINITE_OBSERVED_CODE@, name) <==> found::some_stream(
            dataset.episodes@,
            name,
            is_broken(),
        ),
{
    found::lemma_named_where(check, dataset.episodes@, NON_FINITE_OBSERVED_CODE@, name, is_broken());
}

// ---- declared ranges -------------------------------------------------------------------------

/// How far off a bound a value may be: a billionth and a millionth of the larger of the two observed
/// extremes, but no more than four times the way between them, where there is one.
pub open spec fn leeway(low: int, high: int) -> int {
    let widest = if double::size(low) < double::size(high) { double::size(high) } else { double::size(low) };
    let usual = double::plus(double::BILLIONTH as int, double::times(widest, double::MILLIONTH as int));
    let between = double::size(double::minus(high, low));
    let most = double::times(between, double::FOUR as int);
    if 0 < between < number::INFINITY && most < usual { most } else { usual }
}

/// Whether observed values leave a declared range, by more than the leeway.
pub open spec fn leaves(d: DeclaredRange, o: StreamStats) -> bool {
    let (low, high) = (number::rank(o.min), number::rank(o.max));
    let by = leeway(low, high);
    low < double::minus(number::rank(d.min), by) || double::plus(number::rank(d.max), by) < high
}

/// A stream whose observed extremes are numbers is a defect exactly where it has a declared range of
/// finite bounds and one of the extremes leaves it.
pub proof fn law_values_out_of_range_are_a_defect(check: DeclaredRangeConformance, e: Episode, s: Stream)
    requires
        s.observed_stats matches Some(o) ==> !number::is_nan(o.min) && !number::is_nan(o.max),
    ensures
        check.hit(e, s) is Some <==> (s.declared_range matches Some(d) && s.observed_stats matches Some(o)
            && number::magnitude(d.min) < number::INFINITY && number::magnitude(d.max) < number::INFINITY && leaves(d, o)),
{
}

/// What cannot be told of a range: nothing where neither extreme is a number, and only the other where
/// one is none.
pub proof fn law_an_extreme_that_is_no_number_is_left_out(check: DeclaredRangeConformance, e: Episode, s: Stream)
    ensures
        (s.observed_stats matches Some(o) && number::is_nan(o.min) && number::is_nan(o.max)) ==> check.hit(e, s) is None,
        s.declared_range is None || s.observed_stats is None ==> check.hit(e, s) is None,
        (s.observed_stats matches Some(o) && s.declared_range matches Some(d) && number::is_nan(o.min) && number::rank(o.max)
            <= number::rank(d.max) && number::rank(d.max) <= double::plus(
            number::rank(d.max),
            double::plus(
                double::BILLIONTH as int,
                double::times(double::size(number::rank(o.max)), double::MILLIONTH as int),
            ),
        )) ==> check.hit(e, s) is None,
{
}

/// Each name reported is that of a stream with such a defect, and each such stream's name is.
pub proof fn law_values_out_of_range_are_reported(check: DeclaredRangeConformance, dataset: &Dataset, name: Seq<char>)
    ensures
        found::finds_named(check.report(dataset), OUT_OF_RANGE_CODE@, name) <==> exists|i: int, j: int|
            0 <= i < dataset.episodes@.len() && 0 <= j < dataset.episodes@[i].streams@.len()
                && (#[trigger] dataset.episodes@[i].streams@[j]).name@ == name && check.hit(
                dataset.episodes@[i],
                dataset.episodes@[i].streams@[j],
            ) is Some,
{
    found::lemma_by_name(check, dataset.episodes@, OUT_OF_RANGE_CODE@, name);
}

// ---- stored statistics -----------------------------------------------------------------------

/// Whether all of stored statistics are finite numbers.
pub open spec fn are_numbers(s: StreamStats) -> bool {
    number::magnitude(s.min) < number::INFINITY && number::magnitude(s.max) < number::INFINITY && number::magnitude(s.mean)
        < number::INFINITY && number::magnitude(s.std) < number::INFINITY
}

/// Whether the least is no greater than the greatest, and the deviation is not negative.
pub open spec fn are_ordered(s: StreamStats) -> bool {
    number::rank(s.min) <= number::rank(s.max) && 0 <= number::rank(s.std)
}

/// Whether the mean lies between the extremes, give or take the leeway.
pub open spec fn is_centred(s: StreamStats) -> bool {
    let by = leeway(number::rank(s.min), number::rank(s.max));
    double::minus(number::rank(s.min), by) <= number::rank(s.mean) && number::rank(s.mean) <= double::plus(
        number::rank(s.max),
        by,
    )
}

/// Whether the deviation is at most half the way between the extremes, give or take the leeway.
pub open spec fn is_moderate(s: StreamStats) -> bool {
    let (low, high) = (number::rank(s.min), number::rank(s.max));
    number::rank(s.std) <= double::plus(double::over(double::minus(high, low), double::TWO as int), leeway(low, high))
}

/// Whether the deviation is none where the extremes are apart.
pub open spec fn is_too_flat(s: StreamStats) -> bool {
    let (low, high) = (number::rank(s.min), number::rank(s.max));
    let by = leeway(low, high);
    double::plus(low, by) < high && double::size(number::rank(s.std)) <= by
}

/// Whether the values never change.
pub open spec fn is_constant(s: StreamStats) -> bool {
    let (low, high) = (number::rank(s.min), number::rank(s.max));
    low == high && double::size(number::rank(s.std)) <= leeway(low, high)
}

/// Whether the extremes lie outside what the element type can hold.
pub open spec fn overflows(s: Stream, x: StreamStats) -> bool {
    s.dtype matches Some(d) && statistical::dtype_range(d@) matches Some(r) && (number::rank(x.min) < number::rank(r.low)
        || number::rank(r.high) < number::rank(x.max))
}

/// The leeway of finite extremes.
proof fn lemma_leeway(s: StreamStats)
    requires
        are_numbers(s),
    ensures
        statistical::slack_of(s.min, s.max) == Some(leeway(number::rank(s.min), number::rank(s.max))),
{
}

/// What is wrong with statistics decides what is said of them: that they are no numbers first, then
/// that they are out of order, off centre, spread too far or too little, out of the type's range, and
/// last that they never change; and nothing is said where none of these holds.
#[verifier::rlimit(90)]
pub proof fn law_stored_statistics_are_judged(s: Stream, episode: u64, x: StreamStats, dim: Option<u64>)
    ensures
        ({
            let d = statistical::defect(s, episode, x, dim);
            let code = (d->0).code;
            let sound = are_numbers(x) && are_ordered(x) && is_centred(x) && is_moderate(x) && !is_too_flat(x) && !overflows(
                s,
                x,
            );
            &&& d is Some ==> (d->0).location == (LocationView::Stream { episode, stream: s.name@ })
            &&& d is None <==> sound && !is_constant(x)
            &&& !are_numbers(x) ==> code == NON_FINITE_CODE@ && (d->0).severity == Severity::Error
            &&& are_numbers(x) && number::rank(x.max) < number::rank(x.min) ==> code == INVERTED_CODE@ && (d->0).severity
                == Severity::Error
            &&& are_numbers(x) && number::rank(x.min) <= number::rank(x.max) && number::rank(x.std) < 0 ==> code
                == NEGATIVE_STD_CODE@ && (d->0).severity == Severity::Error
            &&& are_numbers(x) && are_ordered(x) && !is_centred(x) ==> code == MEAN_CODE@
            &&& are_numbers(x) && are_ordered(x) && is_centred(x) && (!is_moderate(x) || is_too_flat(x)) ==> code
                == STD_CODE@
            &&& are_numbers(x) && are_ordered(x) && is_centred(x) && is_moderate(x) && !is_too_flat(x) && overflows(s, x)
                ==> code == DTYPE_CODE@
            &&& sound && is_constant(x) ==> code == DEGENERATE_CODE@
        }),
{
    if are_numbers(x) {
        lemma_leeway(x);
    }
}

/// Whether statistics of a stream, whole or of one dimension, are a defect.
pub open spec fn is_unsound(s: Stream, episode: u64, f: FindingView) -> bool {
    ||| s.stats matches Some(x) && statistical::defect(s, episode, x, None) == Some(f)
    ||| s.dim_stats matches Some(dims) && exists|k: int|
        0 <= k < dims@.len() && statistical::defect(s, episode, (#[trigger] dims@[k]).stats, Some(dims@[k].dim)) == Some(f)
}

/// The worst of what is found up to a dimension.
#[verifier::rlimit(80)]
proof fn lemma_worst(s: Stream, episode: u64, dims: Seq<DimStats>, n: int)
    requires
        0 <= n <= dims.len(),
    ensures
        ({
            let w = statistical::worst_defect(s, episode, dims.take(n));
            let of_all = match s.stats {
                Some(x) => statistical::defect(s, episode, x, None),
                None => None,
            };
            &&& w matches Some(f) ==> of_all == Some(f) || exists|k: int|
                0 <= k < n && statistical::defect(s, episode, (#[trigger] dims[k]).stats, Some(dims[k].dim)) == Some(f)
            &&& of_all matches Some(f) ==> w is Some && f.severity.level() <= (w->0).severity.level()
            &&& forall|k: int|
                0 <= k < n ==> ((statistical::defect(s, episode, (#[trigger] dims[k]).stats, Some(dims[k].dim)) matches Some(f)
                    ==> w is Some && f.severity.level() <= (w->0).severity.level()))
        }),
    decreases n,
{
    if n > 0 {
        lemma_worst(s, episode, dims, n - 1);
        assert(dims.take(n).drop_last() =~= dims.take(n - 1));
        assert(dims.take(n).last() == dims[n - 1]);
        let w = statistical::worst_defect(s, episode, dims.take(n));
        if let Some(f) = w {
            if statistical::defect(s, episode, dims[n - 1].stats, Some(dims[n - 1].dim)) != Some(f) {
                assert(statistical::worst_defect(s, episode, dims.take(n - 1)) == Some(f));
            }
        }
    } else {
        assert(dims.take(0) =~= Seq::<DimStats>::empty());
    }
}

/// A stream's stored statistics are a defect exactly where those of the whole or of one of its
/// dimensions are; and what is said is one of those of which nothing is worse.
pub proof fn law_the_worst_of_a_stream_is_told(check: RangeSanity, e: Episode, s: Stream)
    ensures
        check.hit(e, s) is Some <==> exists|f: FindingView| #[trigger] is_unsound(s, e.index, f),
        check.hit(e, s) matches Some((_, f)) ==> is_unsound(s, e.index, f) && forall|g: FindingView| #[trigger]
            is_unsound(s, e.index, g) ==> g.severity.level() <= f.severity.level(),
{
    let dims = statistical::stored_dims(s);
    lemma_worst(s, e.index, dims, dims.len() as int);
    assert(dims.take(dims.len() as int) =~= dims);
    if let Some((_, f)) = check.hit(e, s) {
        assert(is_unsound(s, e.index, f));
    }
}

/// Whether a finding is about a stream of a name.
pub open spec fn is_about(f: FindingView, name: Seq<char>) -> bool {
    f.location matches LocationView::Stream { stream, .. } && stream == name
}

/// A defect is told at its stream.
proof fn lemma_defect_at(s: Stream, episode: u64, x: StreamStats, dim: Option<u64>)
    ensures
        statistical::defect(s, episode, x, dim) matches Some(f) ==> f.location == (LocationView::Stream {
            episode,
            stream: s.name@,
        }),
{
}

/// The worst defect is told at its stream.
#[verifier::rlimit(60)]
proof fn lemma_worst_at(s: Stream, episode: u64, dims: Seq<DimStats>)
    ensures
        statistical::worst_defect(s, episode, dims) matches Some(f) ==> f.location == (LocationView::Stream {
            episode,
            stream: s.name@,
        }),
    decreases dims.len(),
{
    if dims.len() == 0 {
        if let Some(x) = s.stats {
            lemma_defect_at(s, episode, x, None);
        }
    } else {
        lemma_worst_at(s, episode, dims.drop_last());
        lemma_defect_at(s, episode, dims.last().stats, Some(dims.last().dim));
    }
}

/// The key of stored statistics starts with the stream's name.
proof fn lemma_stored_key(s: Stream)
    ensures
        statistical::stored_key(s).len() > 0,
        statistical::stored_key(s)[0] == s.name@,
{
}

/// A defect of stored statistics is told under the stream's name.
proof fn lemma_told_by_name(check: RangeSanity, e: Episode, s: Stream)
    ensures
        check.hit(e, s) matches Some((key, f)) ==> key.len() > 0 && key[0] == s.name@ && f.location == (LocationView::Stream {
            episode: e.index,
            stream: s.name@,
        }),
{
    lemma_worst_at(s, e.index, statistical::stored_dims(s));
    lemma_stored_key(s);
}

/// Stored statistics are reported by name: exactly where those of a stream of the name, whole or of a
/// dimension, are a defect.
#[verifier::rlimit(40)]
pub proof fn law_unsound_statistics_are_reported(check: RangeSanity, dataset: &Dataset, name: Seq<char>)
    ensures
        (exists|f: FindingView| #[trigger] check.report(dataset).contains(f) && is_about(f, name)) <==> exists|i: int, j: int|
            0 <= i < dataset.episodes@.len() && 0 <= j < dataset.episodes@[i].streams@.len()
                && (#[trigger] dataset.episodes@[i].streams@[j]).name@ == name && exists|f: FindingView| #[trigger]
                is_unsound(dataset.episodes@[i].streams@[j], dataset.episodes@[i].index, f),
{
    let eps = dataset.episodes@;
    let q = |f: FindingView| is_about(f, name);
    assert forall|e: Episode, s: Stream| (#[trigger] check.hit(e, s)) matches Some((key, f)) ==> key.len() > 0 && key[0] == s.name@
        && f.location == (LocationView::Stream { episode: e.index, stream: s.name@ }) by {
        lemma_told_by_name(check, e, s);
    }
    assert forall|e: Episode, s: Stream| (#[trigger] check.hit(e, s)) is Some <==> exists|f: FindingView| #[trigger]
        is_unsound(s, e.index, f) by {
        law_the_worst_of_a_stream_is_told(check, e, s);
    }
    found::lemma_keyed(check, eps, q);
    let report = check.report(dataset);
    if exists|f: FindingView| #[trigger] report.contains(f) && is_about(f, name) {
        let f = choose|f: FindingView| #[trigger] report.contains(f) && is_about(f, name);
        assert(report.contains(f) && q(f));
        let (i, j) = choose|i: int, j: int|
            0 <= i < eps.len() && 0 <= j < eps[i].streams@.len() && (check.hit(eps[i], #[trigger] eps[i].streams@[j]) matches Some(
                h,
            ) && q(h.1));
        assert(eps[i].streams@[j].name@ == name);
    }
    if exists|i: int, j: int|
        0 <= i < eps.len() && 0 <= j < eps[i].streams@.len() && (#[trigger] eps[i].streams@[j]).name@ == name
            && exists|f: FindingView| #[trigger] is_unsound(eps[i].streams@[j], eps[i].index, f) {
        let (i, j) = choose|i: int, j: int|
            0 <= i < eps.len() && 0 <= j < eps[i].streams@.len() && (#[trigger] eps[i].streams@[j]).name@ == name
                && exists|f: FindingView| #[trigger] is_unsound(eps[i].streams@[j], eps[i].index, f);
        assert(check.hit(eps[i], eps[i].streams@[j]) is Some);
        assert(q((check.hit(eps[i], eps[i].streams@[j])->0).1));
    }
}

// ---- stored against observed -----------------------------------------------------------------

/// How far observed values may lie beyond a stored bound: a millionth of it, or of one where it is less.
pub open spec fn tolerance(bound: int) -> int {
    double::times(double::MILLIONTH as int, if double::size(bound) < double::ONE { double::ONE as int } else { double::size(bound) })
}

/// Whether observed values go beyond stored bounds.
pub open spec fn goes_beyond(stored: StreamStats, observed: StreamStats) -> bool {
    let (low, high) = (number::rank(stored.min), number::rank(stored.max));
    &&& number::magnitude(stored.min) < number::INFINITY && number::magnitude(stored.max) < number::INFINITY
    &&& (!number::is_nan(observed.min) && number::rank(observed.min) < double::minus(low, tolerance(low))) || (
    !number::is_nan(observed.max) && double::plus(high, tolerance(high)) < number::rank(observed.max))
}

/// Whether statistics are the first given for a dimension.
pub open spec fn is_first_of(dims: Seq<DimStats>, k: int, dim: u64) -> bool {
    0 <= k < dims.len() && dims[k].dim == dim && forall|m: int| 0 <= m < k ==> (#[trigger] dims[m]).dim != dim
}

/// Whether a dimension goes beyond what is stored of it.
pub open spec fn is_stale_dim(stored: Seq<DimStats>, observed: Seq<DimStats>, k: int, m: int) -> bool {
    0 <= k < stored.len() && is_first_of(observed, m, stored[k].dim) && goes_beyond(stored[k].stats, observed[m].stats)
}

/// Whether what was observed of a stream goes beyond what is stored of it: in a dimension, where both
/// are given by dimension, or else as a whole.
pub open spec fn is_stale() -> spec_fn(Stream) -> bool {
    |s: Stream|
        match (s.dim_stats, s.observed_dim_stats) {
            (Some(a), Some(b)) => exists|k: int, m: int| is_stale_dim(a@, b@, k, m),
            _ => s.stats matches Some(a) && s.observed_stats matches Some(b) && goes_beyond(a, b),
        }
}

/// The statistics given for a dimension are the first.
#[verifier::rlimit(40)]
proof fn lemma_stats_of_dim(dims: Seq<DimStats>, dim: u64)
    ensures
        match statistical::stats_of_dim(dims, dim) {
            Some(x) => exists|m: int| #[trigger] is_first_of(dims, m, dim) && dims[m].stats == x,
            None => forall|m: int| 0 <= m < dims.len() ==> (#[trigger] dims[m]).dim != dim,
        },
    decreases dims.len(),
{
    if dims.len() > 0 {
        if dims[0].dim == dim {
            assert(is_first_of(dims, 0, dim));
        } else {
            let rest = dims.skip(1);
            lemma_stats_of_dim(rest, dim);
            if let Some(x) = statistical::stats_of_dim(rest, dim) {
                let m = choose|m: int| #[trigger] is_first_of(rest, m, dim) && rest[m].stats == x;
                assert forall|q: int| 0 <= q < m + 1 implies (#[trigger] dims[q]).dim != dim by {
                    if q > 0 {
                        assert(rest[q - 1] == dims[q]);
                    }
                }
                assert(dims[m + 1] == rest[m]);
                assert(is_first_of(dims, m + 1, dim));
            } else {
                assert forall|q: int| 0 <= q < dims.len() implies (#[trigger] dims[q]).dim != dim by {
                    if q > 0 {
                        assert(rest[q - 1] == dims[q]);
                    }
                }
            }
        }
    }
}

/// A dimension is found stale exactly where there is one.
#[verifier::rlimit(40)]
proof fn lemma_stale_dim(stored: Seq<DimStats>, observed: Seq<DimStats>)
    ensures
        statistical::stale_dim(stored, observed) is Some <==> exists|k: int, m: int| is_stale_dim(stored, observed, k, m),
    decreases stored.len(),
{
    if stored.len() > 0 {
        let rest = stored.skip(1);
        lemma_stale_dim(rest, observed);
        lemma_stats_of_dim(observed, stored[0].dim);
        if exists|k: int, m: int| is_stale_dim(rest, observed, k, m) {
            let (k, m) = choose|k: int, m: int| is_stale_dim(rest, observed, k, m);
            assert(stored[k + 1] == rest[k]);
            assert(is_stale_dim(stored, observed, k + 1, m));
        }
        if let Some(o) = statistical::stats_of_dim(observed, stored[0].dim) {
            let m = choose|m: int| #[trigger] is_first_of(observed, m, stored[0].dim) && observed[m].stats == o;
            if statistical::escapes(stored[0].stats, o) {
                assert(is_stale_dim(stored, observed, 0, m));
            }
        }
        if exists|k: int, m: int| is_stale_dim(stored, observed, k, m) {
            let (k, m) = choose|k: int, m: int| is_stale_dim(stored, observed, k, m);
            if k > 0 {
                assert(rest[k - 1] == stored[k]);
                assert(is_stale_dim(rest, observed, k - 1, m));
            } else {
                let o = statistical::stats_of_dim(observed, stored[0].dim)->0;
                let q = choose|q: int| #[trigger] is_first_of(observed, q, stored[0].dim) && observed[q].stats == o;
                assert(q == m) by {
                    assert(q >= m || observed[q].dim != stored[0].dim);
                    assert(m >= q || observed[m].dim != stored[0].dim);
                }
            }
        }
    }
}

/// A stream is reported exactly where what was observed of it goes beyond what is stored.
pub proof fn law_stale_statistics_are_reported(check: StoredVsObserved, dataset: &Dataset, name: Seq<char>)
    ensures
        found::finds_named(check.report(dataset), STALE_CODE@, name) <==> found::some_stream(
            dataset.episodes@,
            name,
            is_stale(),
        ),
{
    assert forall|e: Episode, s: Stream| (#[trigger] check.hit(e, s)) is Some <==> is_stale()(s) by {
        if s.dim_stats is Some && s.observed_dim_stats is Some {
            lemma_stale_dim(s.dim_stats->0@, s.observed_dim_stats->0@);
        }
    }
    found::lemma_named_where(check, dataset.episodes@, STALE_CODE@, name, is_stale());
}

// ---- outliers --------------------------------------------------------------------------------

/// Whether statistics tell how far a value is off: finite, in order, and with a deviation.
pub open spec fn is_measured(s: StreamStats) -> bool {
    are_numbers(s) && 0 < number::rank(s.std) && number::rank(s.min) <= number::rank(s.mean) <= number::rank(s.max)
}

/// Whether the least or the greatest value is so many deviations off the mean.
pub open spec fn is_far_off(s: StreamStats, threshold: u64) -> bool {
    let (low, mid, high, unit) = (number::rank(s.min), number::rank(s.mean), number::rank(s.max), number::rank(s.std));
    is_measured(s) && !number::is_nan(threshold) && (number::rank(threshold) <= double::over(double::minus(high, mid), unit)
        || number::rank(threshold) <= double::over(double::minus(mid, low), unit))
}

/// Whether a stream has a value far off: in a dimension, where it is given by dimension, or else as a
/// whole; as observed rather than as stored.
pub open spec fn has_outlier(threshold: u64) -> spec_fn(Stream) -> bool {
    |s: Stream|
        match (s.observed_dim_stats, s.dim_stats) {
            (Some(d), _) => exists|k: int| 0 <= k < d@.len() && is_far_off((#[trigger] d@[k]).stats, threshold),
            (None, Some(d)) => exists|k: int| 0 <= k < d@.len() && is_far_off((#[trigger] d@[k]).stats, threshold),
            (None, None) => match (s.observed_stats, s.stats) {
                (Some(x), _) => is_far_off(x, threshold),
                (None, Some(x)) => is_far_off(x, threshold),
                (None, None) => false,
            },
        }
}

/// The most extreme dimension is one that is far off, and none is further.
#[verifier::rlimit(80)]
proof fn lemma_most_extreme(d: Seq<DimStats>, threshold: u64, n: int)
    requires
        0 <= n <= d.len(),
    ensures
        match statistical::most_extreme(d, threshold, n) {
            Some(k) => 0 <= k < n && is_far_off(d[k].stats, threshold) && forall|m: int|
                0 <= m < n && is_far_off((#[trigger] d[m]).stats, threshold) ==> statistical::distance(d[m].stats)
                    <= statistical::distance(d[k].stats),
            None => forall|m: int| 0 <= m < n ==> !is_far_off((#[trigger] d[m]).stats, threshold),
        },
    decreases n,
{
    if n > 0 {
        lemma_most_extreme(d, threshold, n - 1);
    }
}

/// Statistics are outlying exactly where a value is far off.
proof fn lemma_far_off(s: StreamStats, threshold: u64)
    ensures
        statistical::is_outlying(s, threshold) <==> is_far_off(s, threshold),
{
}

/// A stream has an outlier exactly where it has a value far off.
proof fn lemma_outlier(s: Stream, threshold: u64)
    ensures
        statistical::outlier_of(s, threshold) is Some <==> has_outlier(threshold)(s),
{
    if let Some(d) = s.observed_dim_stats {
        lemma_most_extreme(d@, threshold, d@.len() as int);
    } else if let Some(d) = s.dim_stats {
        lemma_most_extreme(d@, threshold, d@.len() as int);
    } else if let Some(x) = s.observed_stats {
        lemma_far_off(x, threshold);
    } else if let Some(x) = s.stats {
        lemma_far_off(x, threshold);
    }
}

/// A stream is reported exactly where it has a value far off.
pub proof fn law_outliers_are_reported(check: ExtremeOutlier, dataset: &Dataset, name: Seq<char>)
    ensures
        found::finds_named(check.report(dataset), OUTLIER_CODE@, name) <==> found::some_stream(
            dataset.episodes@,
            name,
            has_outlier(check.z_threshold),
        ),
{
    let t = check.z_threshold;
    assert forall|e: Episode, s: Stream| (#[trigger] check.hit(e, s)) is Some <==> has_outlier(t)(s) by {
        lemma_outlier(s, t);
    }
    found::lemma_named_where(check, dataset.episodes@, OUTLIER_CODE@, name, has_outlier(t));
}

/// Of a stream's dimensions, the one reported is furthest off.
pub proof fn law_the_furthest_dimension_is_told(s: Stream, threshold: u64, m: int)
    requires
        s.observed_dim_stats matches Some(d) && 0 <= m < d@.len() && is_far_off(d@[m].stats, threshold),
    ensures
        statistical::outlier_of(s, threshold) matches Some((x, dim)) && exists|k: int|
            0 <= k < s.observed_dim_stats->0@.len() && (#[trigger] s.observed_dim_stats->0@[k]) == (DimStats { dim, stats: x })
                && statistical::distance(s.observed_dim_stats->0@[m].stats) <= statistical::distance(x),
{
    let d = s.observed_dim_stats->0@;
    lemma_most_extreme(d, threshold, d.len() as int);
    let k = statistical::most_extreme(d, threshold, d.len() as int)->0;
    assert(d[k] == (DimStats { dim: d[k].dim, stats: d[k].stats }));
}

/// How far off is the way of the further extreme.
pub proof fn law_distance_is_of_the_further_extreme(s: StreamStats)
    ensures
        ({
            let (low, mid, high, unit) = (
                number::rank(s.min),
                number::rank(s.mean),
                number::rank(s.max),
                number::rank(s.std),
            );
            let (up, down) = (double::over(double::minus(high, mid), unit), double::over(double::minus(mid, low), unit));
            &&& statistical::distance(s) == up || statistical::distance(s) == down
            &&& up <= statistical::distance(s) && down <= statistical::distance(s)
        }),
{
}

// ---- what was not measured -------------------------------------------------------------------

/// Whether a stream has no stored statistics, and was measured as said.
pub open spec fn is_unstored(s: Stream, measured: bool) -> bool {
    &&& s.stats is None && s.dim_stats is None
    &&& measured <==> s.observed_stats is Some || s.observed_dim_stats is Some || s.observed_saturation is Some
        || s.observed_non_finite is Some
}

/// The names of such streams.
proof fn lemma_unstored(s: Seq<(Episode, Stream)>, measured: bool, name: Seq<char>)
    ensures
        statistical::unstored_names(s, measured).contains(name) <==> exists|k: int|
            0 <= k < s.len() && (#[trigger] s[k]).1.name@ == name && is_unstored(s[k].1, measured),
    decreases s.len(),
{
    if s.len() > 0 {
        let rest = s.drop_last();
        let n = s.len() - 1;
        lemma_unstored(rest, measured, name);
        found::lemma_one_more(statistical::unstored_names(rest, measured), s.last().1.name@, name);
        assert(s[n] == s.last());
        if exists|k: int| 0 <= k < rest.len() && (#[trigger] rest[k]).1.name@ == name && is_unstored(rest[k].1, measured) {
            let k = choose|k: int|
                0 <= k < rest.len() && (#[trigger] rest[k]).1.name@ == name && is_unstored(rest[k].1, measured);
            assert(s[k] == rest[k]);
        }
        if exists|k: int| 0 <= k < s.len() && (#[trigger] s[k]).1.name@ == name && is_unstored(s[k].1, measured) {
            let k = choose|k: int| 0 <= k < s.len() && (#[trigger] s[k]).1.name@ == name && is_unstored(s[k].1, measured);
            if k < n {
                assert(rest[k] == s[k]);
            }
        }
    }
}

/// Whether names, in order, are those of the streams that have no stored statistics.
pub open spec fn are_unstored(eps: Seq<Episode>, measured: bool, names: Seq<Seq<char>>) -> bool {
    &&& seqs::texts_ordered(names)
    &&& forall|name: Seq<char>| #[trigger]
        names.contains(name) <==> found::some_stream(eps, name, |s: Stream| is_unstored(s, measured))
}

/// The names that are told.
#[verifier::rlimit(40)]
proof fn lemma_unstored_set(eps: Seq<Episode>, measured: bool)
    ensures
        are_unstored(eps, measured, seqs::text_set(statistical::unstored_names(walk::pairs(eps), measured))),
{
    let s = walk::pairs(eps);
    let all = statistical::unstored_names(s, measured);
    let names = seqs::text_set(all);
    let p = |x: Stream| is_unstored(x, measured);
    seqs::lemma_text_set_ordered(all);
    assert forall|name: Seq<char>| #[trigger] names.contains(name) <==> found::some_stream(eps, name, p) by {
        seqs::lemma_distinct_contains(all, seqs::text_order(), name);
        lemma_unstored(s, measured, name);
        if names.contains(name) {
            let k = choose|k: int| 0 <= k < s.len() && (#[trigger] s[k]).1.name@ == name && is_unstored(s[k].1, measured);
            found::lemma_pairs(eps, s[k]);
            assert(s.contains(s[k]));
            let (i, j) = choose|i: int, j: int|
                0 <= i < eps.len() && 0 <= j < eps[i].streams@.len() && s[k] == (eps[i], #[trigger] eps[i].streams@[j]);
            assert(p(eps[i].streams@[j]));
        }
        if found::some_stream(eps, name, p) {
            let (i, j) = choose|i: int, j: int|
                0 <= i < eps.len() && 0 <= j < eps[i].streams@.len() && (#[trigger] eps[i].streams@[j]).name@ == name && p(
                    eps[i].streams@[j],
                );
            found::lemma_pairs(eps, (eps[i], eps[i].streams@[j]));
            let k = choose|k: int| 0 <= k < s.len() && s[k] == (eps[i], eps[i].streams@[j]);
            assert(is_unstored(s[k].1, measured));
        }
    }
}

/// What has no stored statistics is disclosed, apart for what was measured and what was not, exactly
/// where there is such a stream, and by the names of all of them.
pub proof fn law_unmeasured_values_are_disclosed(check: ValueMeasurability, dataset: &Dataset, f: FindingView)
    ensures
        exists|measured: Seq<Seq<char>>, unmeasured: Seq<Seq<char>>|
            {
                &&& #[trigger] are_unstored(dataset.episodes@, true, measured)
                &&& #[trigger] are_unstored(dataset.episodes@, false, unmeasured)
                &&& check.report(dataset).contains(f) <==> {
                    ||| unmeasured.len() > 0 && f == statistical::unmeasured_finding(
                        unmeasured.len(),
                        lists::a_few(unmeasured),
                    )
                    ||| measured.len() > 0 && f == statistical::no_stored_finding(measured.len(), lists::a_few(measured))
                }
            },
{
    let s = walk::pairs(dataset.episodes@);
    let a = seqs::text_set(statistical::unstored_names(s, true));
    let b = seqs::text_set(statistical::unstored_names(s, false));
    lemma_unstored_set(dataset.episodes@, true);
    lemma_unstored_set(dataset.episodes@, false);
    found::lemma_both(statistical::unmeasured_findings(b), statistical::no_stored_findings(a), f);
    found::lemma_only(statistical::unmeasured_finding(b.len(), lists::a_few(b)), f);
    found::lemma_only(statistical::no_stored_finding(a.len(), lists::a_few(a)), f);
}

} // verus!
