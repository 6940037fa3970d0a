//! Timelines: spans, intervals, and the period at which a stream samples.

use vstd::prelude::*;

use crate::cdm::{Frame, Stream};
use crate::double;
use crate::number;
use crate::seqs;
use crate::sort::sort_numbers;

verus! {

// ---- intervals -------------------------------------------------------------------------------

/// How long after `a` moment `b` is, kept within 64 bits.
pub open spec fn gap(a: i64, b: i64) -> int {
    let d = b - a;
    if d > i64::MAX {
        i64::MAX as int
    } else if d < i64::MIN {
        i64::MIN as int
    } else {
        d
    }
}

/// How long after `a` moment `b` is.
pub fn gap_of(a: i64, b: i64) -> (r: i64)
    ensures
        r as int == gap(a, b),
{
    let d: i128 = b as i128 - a as i128;
    if d > 0x7fff_ffff_ffff_ffff {
        0x7fff_ffff_ffff_ffff
    } else if d < -0x8000_0000_0000_0000 {
        -0x8000_0000_0000_0000
    } else {
        d as i64
    }
}

/// The positive intervals between frames that follow one another.
pub open spec fn positive_gaps(frames: Seq<Frame>) -> Seq<u64>
    decreases frames.len(),
{
    if frames.len() < 2 {
        Seq::empty()
    } else {
        let rest = positive_gaps(frames.drop_last());
        let d = gap(frames[frames.len() - 2].ts, frames[frames.len() - 1].ts);
        if d > 0 { rest.push(d as u64) } else { rest }
    }
}

/// The positive intervals between frames that follow one another.
pub fn collect_gaps(frames: &Vec<Frame>) -> (r: Vec<u64>)
    ensures
        r@ == positive_gaps(frames@),
        forall|k: int| 0 <= k < r@.len() ==> 0 < #[trigger] r@[k] <= i64::MAX,
        r@.len() <= frames@.len(),
{
    let mut out: Vec<u64> = Vec::new();
    if frames.len() < 2 {
        return out;
    }
    let mut i: usize = 1;
    while i < frames.len()
        invariant
            1 <= i <= frames@.len(),
            out@ == positive_gaps(frames@.take(i as int)),
            forall|k: int| 0 <= k < out@.len() ==> 0 < #[trigger] out@[k] <= i64::MAX,
            out@.len() < i,
        decreases frames@.len() - i,
    {
        assert(frames@.take(i + 1).drop_last() =~= frames@.take(i as int));
        let d: i64 = gap_of(frames[i - 1].ts, frames[i].ts);
        if d > 0 {
            out.push(d as u64);
        }
        i = i + 1;
    }
    assert(frames@.take(i as int) =~= frames@);
    out
}

/// The middle of sorted intervals, as a double: halfway between the two middle ones where their
/// number is even.
pub open spec fn median(s: Seq<u64>) -> u64 {
    let n = s.len() as int;
    if n % 2 == 1 {
        number::double_of(s[n / 2] as nat)
    } else {
        number::middle(s[n / 2 - 1] as nat, s[n / 2] as nat) as u64
    }
}

/// The middle of sorted intervals.
pub fn median_of(s: &Vec<u64>) -> (r: u64)
    requires
        s@.len() > 0,
    ensures
        r == median(s@),
        r == 0 || 1022 * number::EXPONENT_UNIT <= r <= 1088 * number::EXPONENT_UNIT,
{
    let n: usize = s.len();
    if n % 2 == 1 {
        proof {
            number::lemma_half_bound(s@[n as int / 2] as nat, 1);
        }
        number::nearest(s[n / 2] as u128, 1)
    } else {
        let a: u128 = number::to_double(s[n / 2 - 1]);
        let b: u128 = number::to_double(s[n / 2]);
        proof {
            number::lemma_half_bound((a + b) as nat, 2);
        }
        number::nearest(a + b, 2)
    }
}

/// The sum of intervals in doubles, one after the other.
pub open spec fn total(gaps: Seq<u64>) -> int
    decreases gaps.len(),
{
    if gaps.len() == 0 {
        0
    } else {
        double::plus(total(gaps.drop_last()), double::whole(gaps.last() as int))
    }
}

/// The sum of the intervals' squared distances from a mean.
pub open spec fn scatter(gaps: Seq<u64>, mean: int) -> int
    decreases gaps.len(),
{
    if gaps.len() == 0 {
        0
    } else {
        let d = double::minus(double::whole(gaps.last() as int), mean);
        double::plus(scatter(gaps.drop_last(), mean), double::times(d, d))
    }
}

/// The mean of intervals.
pub open spec fn mean(gaps: Seq<u64>) -> int {
    double::over(total(gaps), double::whole(gaps.len() as int))
}

/// The coefficient of variation of intervals, where their mean is positive: the standard deviation
/// over the mean.
pub open spec fn variation(gaps: Seq<u64>) -> Option<int> {
    let m = mean(gaps);
    if m > 0 {
        Some(double::over(double::square_root(double::over(scatter(gaps, m), double::whole(gaps.len() as int))), m))
    } else {
        None
    }
}

/// The mean of intervals, and their coefficient of variation.
pub fn measure_variation(gaps: &Vec<u64>) -> (r: Option<(i128, i128)>)
    requires
        gaps@.len() > 0,
    ensures
        match r {
            Some((m, x)) => m as int == mean(gaps@) && variation(gaps@) == Some(x as int) && double::is_rank(m as int)
                && double::is_rank(x as int),
            None => variation(gaps@) is None,
        },
{
    let n: i128 = double::to_whole(gaps.len() as i128);
    let mut sum: i128 = 0;
    let mut i: usize = 0;
    while i < gaps.len()
        invariant
            i <= gaps@.len(),
            sum as int == total(gaps@.take(i as int)),
            double::is_rank(sum as int),
        decreases gaps@.len() - i,
    {
        assert(gaps@.take(i + 1).drop_last() =~= gaps@.take(i as int));
        sum = double::sum(sum, double::to_whole(gaps[i] as i128));
        i = i + 1;
    }
    assert(gaps@.take(i as int) =~= gaps@);
    let m: i128 = double::quotient(sum, n);
    if m <= 0 {
        return None;
    }
    let mut spread: i128 = 0;
    let mut k: usize = 0;
    while k < gaps.len()
        invariant
            k <= gaps@.len(),
            spread as int == scatter(gaps@.take(k as int), m as int),
            double::is_rank(spread as int),
            double::is_rank(m as int),
        decreases gaps@.len() - k,
    {
        assert(gaps@.take(k + 1).drop_last() =~= gaps@.take(k as int));
        let d: i128 = double::difference(double::to_whole(gaps[k] as i128), m);
        spread = double::sum(spread, double::product(d, d));
        k = k + 1;
    }
    assert(gaps@.take(k as int) =~= gaps@);
    Some((m, double::quotient(double::find_square_root(double::quotient(spread, n)), m)))
}

// ---- the sampling period ---------------------------------------------------------------------

/// The interval in nanoseconds that a rate in hertz amounts to: a billion over the rate, in doubles.
pub open spec fn interval(hz: u64) -> u64 {
    double::over(double::BILLION as int, number::rank(hz)) as u64
}

/// The interval in nanoseconds that a positive rate in hertz amounts to.
pub fn interval_of(hz: u64) -> (r: u64)
    requires
        number::less(0, hz),
    ensures
        r == interval(hz),
        r <= number::INFINITY,
{
    let r: i128 = double::quotient(double::BILLION, double::rank(hz));
    assert(r >= 0);
    r as u64
}

/// The period in nanoseconds that a stream's declared rate amounts to, where that is positive.
pub open spec fn declared_period(stream: Stream) -> Option<int> {
    match stream.declared_rate_hz {
        Some(rate) => if number::is_positive_finite(rate) && number::truncated(interval(rate)) > 0 {
            Some(number::truncated(interval(rate)))
        } else {
            None
        },
        None => None,
    }
}

/// A stream's own sampling period: the median positive interval in nanoseconds. Where there are too
/// few intervals for a median, the declared period, at most the one interval observed; zero where
/// none is declared either.
///
/// This is the quantum of a span comparison: a stream observing a window at a period understates
/// the window by up to one full period, even with a perfect clock.
pub open spec fn period(stream: Stream) -> int {
    let gaps = positive_gaps(stream.frames@);
    if gaps.len() >= 2 {
        number::truncated(median(seqs::sorted(gaps, seqs::number_order())))
    } else {
        match declared_period(stream) {
            Some(p) => if gaps.len() == 1 && gaps[0] < p { gaps[0] as int } else { p },
            None => 0,
        }
    }
}

/// A stream's own sampling period.
pub fn sampling_period_ns(stream: &Stream) -> (r: i64)
    ensures
        r as int == period(*stream),
        r >= 0,
{
    let gaps: Vec<u64> = collect_gaps(&stream.frames);
    if gaps.len() >= 2 {
        let sorted: Vec<u64> = sort_numbers(&gaps);
        proof {
            seqs::lemma_sorted_multiset(gaps@, seqs::number_order());
        }
        let p: i64 = number::truncate(median_of(&sorted));
        return p;
    }
    let declared: Option<i64> = match &stream.declared_rate_hz {
        Some(rate) => if number::positive_finite(*rate) {
            let p: i64 = number::truncate(interval_of(*rate));
            if p > 0 {
                Some(p)
            } else {
                None
            }
        } else {
            None
        },
        None => None,
    };
    match declared {
        Some(p) => if gaps.len() == 1 && gaps[0] < p as u64 {
            gaps[0] as i64
        } else {
            p
        },
        None => 0,
    }
}

// ---- spans -----------------------------------------------------------------------------------

/// The earliest timestamp.
pub open spec fn earliest(frames: Seq<Frame>) -> i64
    decreases frames.len(),
{
    if frames.len() <= 1 {
        frames[0].ts
    } else {
        let rest = earliest(frames.drop_last());
        if frames.last().ts < rest { frames.last().ts } else { rest }
    }
}

/// The latest timestamp.
pub open spec fn latest(frames: Seq<Frame>) -> i64
    decreases frames.len(),
{
    if frames.len() <= 1 {
        frames[0].ts
    } else {
        let rest = latest(frames.drop_last());
        if frames.last().ts > rest { frames.last().ts } else { rest }
    }
}

/// The earliest and the latest timestamp; frames are not assumed sorted.
pub fn span_bounds(stream: &Stream) -> (r: Option<(i64, i64)>)
    ensures
        match r {
            Some((lo, hi)) => stream.frames@.len() > 0 && lo == earliest(stream.frames@) && hi == latest(
                stream.frames@,
            ) && lo <= hi,
            None => stream.frames@.len() == 0,
        },
{
    let frames: &Vec<Frame> = &stream.frames;
    if frames.len() == 0 {
        return None;
    }
    let mut lo: i64 = frames[0].ts;
    let mut hi: i64 = frames[0].ts;
    let mut i: usize = 1;
    while i < frames.len()
        invariant
            1 <= i <= frames@.len(),
            lo == earliest(frames@.take(i as int)),
            hi == latest(frames@.take(i as int)),
            lo <= hi,
        decreases frames@.len() - i,
    {
        assert(frames@.take(i + 1).drop_last() =~= frames@.take(i as int));
        let ts: i64 = frames[i].ts;
        if ts < lo {
            lo = ts;
        }
        if ts > hi {
            hi = ts;
        }
        i = i + 1;
    }
    assert(frames@.take(i as int) =~= frames@);
    Some((lo, hi))
}

/// How long a stream's frames span, kept within 64 bits.
pub open spec fn span(frames: Seq<Frame>) -> int {
    gap(earliest(frames), latest(frames))
}

} // verus!
