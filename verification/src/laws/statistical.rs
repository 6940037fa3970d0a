//! Laws of the statistical checks.

use vstd::prelude::*;

use crate::cdm::{Dataset, Episode, SaturationCounts, Stream};
use crate::check::{Check, LocationView};
use crate::checks::statistical;
use crate::checks::statistical::{Saturation, SATURATED_CODE};
use crate::checks::walk::KeyedRule;
use crate::decimal;
use crate::laws::found;
use crate::number;
use crate::text;

verus! {

// ---- saturation ------------------------------------------------------------------------------

/// Whether a stream's counts can be judged: enough samples, between two distinct finite extremes, of a
/// channel that is no boolean.
pub open spec fn can_be_judged(check: Saturation, s: Stream, c: SaturationCounts) -> bool {
    &&& 0 < c.sample_count
    &&& check.min_samples <= c.sample_count
    &&& number::magnitude(c.min) < number::INFINITY
    &&& number::magnitude(c.max) < number::INFINITY
    &&& number::rank(c.min) != number::rank(c.max)
    &&& s.dtype matches Some(d) ==> {
        let plain = text::lowered(text::trimmed(d@));
        plain != "bool"@ && plain != "boolean"@ && plain != "bool_"@ && plain != "bool8"@
    }
}

/// Whether the share that a count is of the samples reaches a fraction.
pub open spec fn reaches(count: u64, samples: u64, fraction: u64) -> bool {
    let share = number::nearest_bits(number::significant(count as nat), number::significant(samples as nat)) as u64;
    !(share <= number::INFINITY && number::magnitude(fraction) <= number::INFINITY && (share as int) < number::rank(
        fraction,
    ))
}

/// Whether a stream is pinned at one of its extremes, whichever.
pub open spec fn is_pinned(check: Saturation, s: Stream) -> bool {
    s.observed_saturation matches Some(c) && can_be_judged(check, s, c) && (reaches(
        c.at_min,
        c.sample_count,
        check.min_fraction,
    ) || reaches(c.at_max, c.sample_count, check.min_fraction))
}

/// A ratio of counts is a number, and no negative one.
proof fn lemma_ratio(a: u64, b: u64)
    requires
        b > 0,
    ensures
        number::ratio_of(a, b) <= number::INFINITY,
        number::rank(number::ratio_of(a, b)) == number::ratio_of(a, b),
        !number::is_nan(number::ratio_of(a, b)),
{
    number::lemma_ratio_of(a, b);
}

/// A stream is defective exactly where it is pinned at one of its extremes.
pub proof fn law_a_pinned_channel_is_a_defect(check: Saturation, e: Episode, s: Stream)
    ensures
        check.hit(e, s) is Some <==> is_pinned(check, s),
        check.hit(e, s) matches Some((key, f)) ==> key[0] == s.name@ && f.code == SATURATED_CODE@ && f.location == (
        LocationView::Stream { episode: e.index, stream: s.name@ }),
{
    if let Some(c) = s.observed_saturation {
        if c.sample_count > 0 {
            lemma_ratio(c.at_min, c.sample_count);
            lemma_ratio(c.at_max, c.sample_count);
        }
    }
}

/// The streams of a name are reported exactly where one of them is pinned at one of its extremes, its
/// least value or its greatest.
pub proof fn law_pinned_channels_are_reported(check: Saturation, dataset: &Dataset, name: Seq<char>)
    ensures
        found::finds_named(check.report(dataset), SATURATED_CODE@, name) <==> exists|i: int, j: int|
            0 <= i < dataset.episodes@.len() && 0 <= j < dataset.episodes@[i].streams@.len()
                && (#[trigger] dataset.episodes@[i].streams@[j]).name@ == name && is_pinned(
                check,
                dataset.episodes@[i].streams@[j],
            ),
{
    let eps = dataset.episodes@;
    assert forall|e: Episode, s: Stream| #[trigger] check.hit(e, s) is Some <==> is_pinned(check, s) by {
        law_a_pinned_channel_is_a_defect(check, e, s);
    }
    found::lemma_by_name(check, eps, SATURATED_CODE@, name);
    if exists|i: int, j: int|
        0 <= i < eps.len() && 0 <= j < eps[i].streams@.len() && (#[trigger] eps[i].streams@[j]).name@ == name && is_pinned(
            check,
            eps[i].streams@[j],
        ) {
        let (i, j) = choose|i: int, j: int|
            0 <= i < eps.len() && 0 <= j < eps[i].streams@.len() && (#[trigger] eps[i].streams@[j]).name@ == name
                && is_pinned(check, eps[i].streams@[j]);
        assert(check.hit(eps[i], eps[i].streams@[j]) is Some);
    }
}

/// Which extreme a channel is pinned at decides what is said of it, not whether anything is: with the
/// two exchanged, it is reported where it was.
pub proof fn law_saturation_is_symmetric(check: Saturation, e: Episode, a: Stream, b: Stream)
    requires
        a.dtype == b.dtype,
        a.observed_saturation matches Some(x) && b.observed_saturation matches Some(y) && x.sample_count == y.sample_count
            && x.at_min == y.at_max && x.at_max == y.at_min && x.min == y.max && x.max == y.min,
    ensures
        check.hit(e, a) is Some <==> check.hit(e, b) is Some,
{
    law_a_pinned_channel_is_a_defect(check, e, a);
    law_a_pinned_channel_is_a_defect(check, e, b);
}

/// The extreme that is named is the one that more values sit at; the greatest value, where as many sit
/// at each.
pub proof fn law_the_fuller_extreme_is_named(check: Saturation, e: Episode, s: Stream)
    requires
        is_pinned(check, s),
    ensures
        ({
            let c = s.observed_saturation->0;
            let (low, high) = (number::ratio_of(c.at_min, c.sample_count), number::ratio_of(c.at_max, c.sample_count));
            &&& low > high ==> (check.hit(e, s)->0).1 == statistical::saturated_finding(
                e.index,
                s.name@,
                statistical::place_text(c.dim),
                number::percent_text(low),
                "minimum"@,
                decimal::plain_text(c.min),
            )
            &&& low <= high ==> (check.hit(e, s)->0).1 == statistical::saturated_finding(
                e.index,
                s.name@,
                statistical::place_text(c.dim),
                number::percent_text(high),
                "maximum"@,
                decimal::plain_text(c.max),
            )
        }),
{
    law_a_pinned_channel_is_a_defect(check, e, s);
    let c = s.observed_saturation->0;
    lemma_ratio(c.at_min, c.sample_count);
    lemma_ratio(c.at_max, c.sample_count);
}

} // verus!
