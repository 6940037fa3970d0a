//! Statistical checks over stored and recomputed per-stream statistics.

use vstd::prelude::*;
use vstd::string::*;

use crate::cat::{cat2, cat3, cat4, cat5, cat6, cat8, cat10, cat11, cat13, cat15};
use crate::cdm::{Dataset, DeclaredRange, DimStats, Episode, SaturationCounts, Stream, StreamStats};
use crate::check;
use crate::check::{none, one, Category, Check, CheckContext, CheckInfo, CheckMeta, Finding, FindingView, Location, LocationView, Scope, Severity};
use crate::checks::lists;
use crate::checks::lists::list_a_few;
use crate::checks::walk;
use crate::checks::walk::{walk_first_hits, KeyedRule};
use crate::decimal;
use crate::double;
use crate::number;
use crate::seqs;
use crate::seqs::put_text;
use crate::text;
use crate::text::{lower, same, trim, dec_u128, dec_u64, dec_usize};

verus! {

broadcast use text::lemma_texts_push;

// ---- saturation ------------------------------------------------------------------------------

/// Actuator/state saturation. A stream that spends a large fraction of its samples **exactly**
/// pinned at one extreme is a clamped or saturated channel: a gripper commanded past its stop, an
/// actuator against its limit, a state that flatlines at a rail.
///
/// Exact equality is the signal: a real, noisy sensor never lands on the identical value hundreds of
/// times. A fully constant stream is left to [`RangeSanity`], and a boolean channel, which has two
/// states and nothing between them, is not judged. Findings are claimed by the measured values, so
/// that a summary attached to every episode is reported once and per-episode summaries each are.
#[derive(Debug)]
pub struct Saturation {
    /// Fraction of samples pinned at a single extreme, at or above which the stream is flagged.
    pub min_fraction: u64,
    /// Minimum sample count below which the fraction isn't trustworthy and the check abstains.
    pub min_samples: u64,
}

/// The double one half.
pub const HALF: u64 = 0x3fe0_0000_0000_0000;

impl Default for Saturation {
    /// Half the samples, and at least twenty of them.
    fn default() -> (r: Self)
        ensures
            r.min_fraction == HALF,
            r.min_samples == 20,
    {
        Saturation { min_fraction: HALF, min_samples: 20 }
    }
}

/// The id of [`Saturation`].
pub const SATURATION_ID: &'static str = "statistical.saturation";

/// The code of its findings.
pub const SATURATED_CODE: &'static str = "STATISTICAL.SATURATED";

pub const SATURATED_RISK: &'static str = "A channel pinned at its limit can't express intent past \
     that limit; the policy learns from observations that no longer track the command, and \
     imitation of a saturated actuator transfers poorly.";

pub const SATURATED_REMEDY: &'static str = "Check for a mis-scaled or clipped command range, a \
     mechanical end-stop, or a mis-calibrated sensor; rescale or exclude the stream before \
     training.";

/// The finding for a saturated stream.
pub open spec fn saturated_finding(
    episode: u64,
    name: Seq<char>,
    place: Seq<char>,
    percent: Seq<char>,
    end: Seq<char>,
    value: Seq<char>,
) -> FindingView {
    check::finding(
        SATURATION_ID@,
        Category::Statistical,
        Severity::Warning,
        LocationView::Stream { episode, stream: name },
        SATURATED_CODE@,
        "stream `"@ + name + "`"@ + place + ": "@ + percent + "% of values sit exactly at its "@ + end
            + " ("@ + value + ") — a saturated or clamped channel"@,
        SATURATED_RISK@,
        SATURATED_REMEDY@,
    )
}

/// The finding for a saturated stream.
fn make_saturated(
    episode: u64,
    name: &str,
    place: &str,
    percent: &str,
    end: &str,
    value: &str,
) -> (r: Finding)
    ensures
        r@ == saturated_finding(episode, name@, place@, percent@, end@, value@),
{
    let message: String = cat11(
        "stream `",
        name,
        "`",
        place,
        ": ",
        percent,
        "% of values sit exactly at its ",
        end,
        " (",
        value,
        ") — a saturated or clamped channel",
    );
    Finding::new(SATURATION_ID, Category::Statistical, Severity::Warning, Location::Stream { episode, stream: String::from_str(name) }, SATURATED_CODE, message).with_risk(
        SATURATED_RISK,
    ).with_remedy(SATURATED_REMEDY)
}

/// A declared element type, trimmed and in lower case.
pub open spec fn plain_dtype(dtype: Seq<char>) -> Seq<char> {
    text::lowered(text::trimmed(dtype))
}

/// Whether an element type is a boolean.
pub open spec fn is_boolean(dtype: Seq<char>) -> bool {
    let d = plain_dtype(dtype);
    d == "bool"@ || d == "boolean"@ || d == "bool_"@ || d == "bool8"@
}

/// A declared element type, trimmed and in lower case.
fn plain(dtype: &str) -> (r: String)
    ensures
        r@ == plain_dtype(dtype@),
{
    lower(trim(dtype).as_str())
}

/// Whether an element type is a boolean.
fn is_boolean_dtype(dtype: &str) -> (r: bool)
    ensures
        r == is_boolean(dtype@),
{
    let d: String = plain(dtype);
    let s: &str = d.as_str();
    same(s, "bool") || same(s, "boolean") || same(s, "bool_") || same(s, "bool8")
}

/// The qualifier of a dimension; none for the first, where it would only add noise.
pub open spec fn place_text(dim: u64) -> Seq<char> {
    if dim > 0 { " (dimension "@ + text::dec(dim as nat) + ")"@ } else { ""@ }
}

/// The qualifier of a dimension.
fn place(dim: u64) -> (r: String)
    ensures
        r@ == place_text(dim),
{
    if dim > 0 {
        cat3(" (dimension ", dec_u64(dim).as_str(), ")")
    } else {
        String::from_str("")
    }
}

/// Whether saturation counts can be judged.
pub open spec fn is_judgeable(sat: SaturationCounts, min_samples: u64, dtype: Option<String>) -> bool {
    &&& sat.sample_count > 0
    &&& sat.sample_count >= min_samples
    &&& !number::equal(sat.min, sat.max)
    &&& match dtype {
        Some(d) => !is_boolean(d@),
        None => true,
    }
    &&& number::is_finite(sat.min)
    &&& number::is_finite(sat.max)
}

/// What tells saturation counts apart.
pub open spec fn saturation_key(name: Seq<char>, sat: SaturationCounts) -> Seq<Seq<char>> {
    seq![
        name,
        text::dec(sat.sample_count as nat),
        text::dec(sat.at_min as nat),
        text::dec(sat.at_max as nat),
        decimal::plain_text(sat.min),
        decimal::plain_text(sat.max),
        text::dec(sat.dim as nat),
    ]
}

impl KeyedRule for Saturation {
    type Tool = ();

    open spec fn fits(&self, tool: &()) -> bool {
        true
    }

    open spec fn hit(&self, episode: Episode, stream: Stream) -> Option<(Seq<Seq<char>>, FindingView)> {
        match stream.observed_saturation {
            Some(sat) => if is_judgeable(sat, self.min_samples, stream.dtype) {
                let hi = number::ratio_of(sat.at_max, sat.sample_count);
                let lo = number::ratio_of(sat.at_min, sat.sample_count);
                let (share, value, end) = if number::at_most(lo, hi) {
                    (hi, decimal::plain_text(sat.max), "maximum"@)
                } else {
                    (lo, decimal::plain_text(sat.min), "minimum"@)
                };
                if number::less(share, self.min_fraction) {
                    None
                } else {
                    Some(
                        (
                            saturation_key(stream.name@, sat),
                            saturated_finding(
                                episode.index,
                                stream.name@,
                                place_text(sat.dim),
                                number::percent_text(share),
                                end,
                                value,
                            ),
                        ),
                    )
                }
            } else {
                None
            },
            None => None,
        }
    }

    fn probe(&self, tool: &(), episode: &Episode, stream: &Stream) -> (r: Option<(Vec<String>, Finding)>) {
        let sat: &SaturationCounts = match &stream.observed_saturation {
            Some(s) => s,
            None => {
                return None;
            },
        };
        let boolean: bool = match &stream.dtype {
            Some(d) => is_boolean_dtype(d.as_str()),
            None => false,
        };
        if sat.sample_count == 0 || sat.sample_count < self.min_samples || number::eq(sat.min, sat.max)
            || boolean || !number::finite(sat.min) || !number::finite(sat.max) {
            return None;
        }
        let hi: u64 = number::share_of(sat.at_max, sat.sample_count);
        let lo: u64 = number::share_of(sat.at_min, sat.sample_count);
        let top: bool = number::le(lo, hi);
        let share: u64 = if top { hi } else { lo };
        let value: String = decimal::plain(if top { sat.max } else { sat.min });
        let end: &str = if top { "maximum" } else { "minimum" };
        if number::lt(share, self.min_fraction) {
            return None;
        }
        let mut key: Vec<String> = Vec::new();
        key.push(stream.name.clone());
        key.push(dec_u64(sat.sample_count));
        key.push(dec_u64(sat.at_min));
        key.push(dec_u64(sat.at_max));
        key.push(decimal::plain(sat.min));
        key.push(decimal::plain(sat.max));
        key.push(dec_u64(sat.dim));
        assert(text::texts(key@) =~= saturation_key(stream.name@, *sat));
        Some(
            (
                key,
                make_saturated(
                    episode.index,
                    stream.name.as_str(),
                    place(sat.dim).as_str(),
                    number::percent(share).as_str(),
                    end,
                    value.as_str(),
                ),
            ),
        )
    }
}

impl Check for Saturation {
    open spec fn meta(&self) -> CheckMeta {
        CheckMeta {
            id: SATURATION_ID@,
            title: "Actuator/state saturation"@,
            category: Category::Statistical,
            default_severity: Severity::Warning,
            scope: Scope::Stream,
            version: "1"@,
            finding_codes: seq![SATURATED_CODE@],
        }
    }

    fn info(&self) -> (r: CheckInfo) {
        let finding_codes: &'static [&'static str] = &[SATURATED_CODE];
        assert(text::str_texts(finding_codes@) =~= self.meta().finding_codes);
        CheckInfo {
            id: SATURATION_ID,
            title: "Actuator/state saturation",
            category: Category::Statistical,
            default_severity: Severity::Warning,
            scope: Scope::Stream,
            version: "1",
            finding_codes,
        }
    }

    open spec fn report(&self, dataset: &Dataset) -> Seq<FindingView> {
        walk::first_hits(*self, walk::pairs(dataset.episodes@))
    }

    open spec fn report_in(&self, dataset: &Dataset, frames_read: bool, attested: Seq<Seq<char>>) -> Seq<FindingView> {
        self.report(dataset)
    }

    fn run(&self, dataset: &Dataset) -> (r: Vec<Finding>) {
        walk_first_hits(self, &(), dataset)
    }

    fn run_in(&self, dataset: &Dataset, context: &CheckContext) -> (r: Vec<Finding>) {
        self.run(dataset)
    }
}

// ---- values that are not finite --------------------------------------------------------------

/// Non-finite values in the **actual data**: any NaN or ±infinity among a stream's scalars, across
/// every dimension. A single one in a training tensor propagates to a NaN loss and silently kills a
/// run. Distinct from the stored summary's own finiteness, which [`RangeSanity`] inspects.
#[derive(Debug, Clone, Copy)]
pub struct NonFiniteObserved;

/// The id of [`NonFiniteObserved`].
pub const NON_FINITE_ID: &'static str = "statistical.non-finite-observed";

/// The code of its findings.
pub const NON_FINITE_OBSERVED_CODE: &'static str = "STATISTICAL.NON_FINITE_OBSERVED";

pub const NON_FINITE_OBSERVED_RISK: &'static str = "A NaN or infinity in a training tensor \
     propagates to a NaN loss and gradient, silently destroying the run; stored summary \
     statistics can hide it entirely.";

pub const NON_FINITE_OBSERVED_REMEDY: &'static str = "Locate and drop or repair the affected frames \
     (a failed sensor read or a divide-by-zero in a derived channel); never normalize over \
     non-finite data.";

/// The finding for values that are not finite.
pub open spec fn non_finite_observed_finding(episode: u64, name: Seq<char>, count: u64) -> FindingView {
    check::finding(
        NON_FINITE_ID@,
        Category::Statistical,
        Severity::Error,
        LocationView::Stream { episode, stream: name },
        NON_FINITE_OBSERVED_CODE@,
        "stream `"@ + name + "`: "@ + text::dec(count as nat)
            + " non-finite value(s) (NaN or ±inf) in the recorded data"@,
        NON_FINITE_OBSERVED_RISK@,
        NON_FINITE_OBSERVED_REMEDY@,
    )
}

/// The finding for values that are not finite.
fn make_non_finite_observed(episode: u64, name: &str, count: u64) -> (r: Finding)
    ensures
        r@ == non_finite_observed_finding(episode, name@, count),
{
    let message: String = cat5(
        "stream `",
        name,
        "`: ",
        dec_u64(count).as_str(),
        " non-finite value(s) (NaN or ±inf) in the recorded data",
    );
    Finding::new(NON_FINITE_ID, Category::Statistical, Severity::Error, Location::Stream { episode, stream: String::from_str(name) }, NON_FINITE_OBSERVED_CODE, message).with_risk(
        NON_FINITE_OBSERVED_RISK,
    ).with_remedy(NON_FINITE_OBSERVED_REMEDY)
}

impl KeyedRule for NonFiniteObserved {
    type Tool = ();

    open spec fn fits(&self, tool: &()) -> bool {
        true
    }

    open spec fn hit(&self, episode: Episode, stream: Stream) -> Option<(Seq<Seq<char>>, FindingView)> {
        match stream.observed_non_finite {
            Some(count) => if count > 0 {
                Some(
                    (
                        seq![stream.name@, text::dec(count as nat)],
                        non_finite_observed_finding(episode.index, stream.name@, count),
                    ),
                )
            } else {
                None
            },
            None => None,
        }
    }

    fn probe(&self, tool: &(), episode: &Episode, stream: &Stream) -> (r: Option<(Vec<String>, Finding)>) {
        match stream.observed_non_finite {
            Some(count) => if count > 0 {
                let mut key: Vec<String> = Vec::new();
                key.push(stream.name.clone());
                key.push(dec_u64(count));
                assert(text::texts(key@) =~= seq![stream.name@, text::dec(count as nat)]);
                Some((key, make_non_finite_observed(episode.index, stream.name.as_str(), count)))
            } else {
                None
            },
            None => None,
        }
    }
}

impl Check for NonFiniteObserved {
    open spec fn meta(&self) -> CheckMeta {
        CheckMeta {
            id: NON_FINITE_ID@,
            title: "Non-finite values in the data"@,
            category: Category::Statistical,
            default_severity: Severity::Error,
            scope: Scope::Stream,
            version: "1"@,
            finding_codes: seq![NON_FINITE_OBSERVED_CODE@],
        }
    }

    fn info(&self) -> (r: CheckInfo) {
        let finding_codes: &'static [&'static str] = &[NON_FINITE_OBSERVED_CODE];
        assert(text::str_texts(finding_codes@) =~= self.meta().finding_codes);
        CheckInfo {
            id: NON_FINITE_ID,
            title: "Non-finite values in the data",
            category: Category::Statistical,
            default_severity: Severity::Error,
            scope: Scope::Stream,
            version: "1",
            finding_codes,
        }
    }

    open spec fn report(&self, dataset: &Dataset) -> Seq<FindingView> {
        walk::first_hits(*self, walk::pairs(dataset.episodes@))
    }

    open spec fn report_in(&self, dataset: &Dataset, frames_read: bool, attested: Seq<Seq<char>>) -> Seq<FindingView> {
        self.report(dataset)
    }

    fn run(&self, dataset: &Dataset) -> (r: Vec<Finding>) {
        walk_first_hits(self, &(), dataset)
    }

    fn run_in(&self, dataset: &Dataset, context: &CheckContext) -> (r: Vec<Finding>) {
        self.run(dataset)
    }
}

// ---- the declared range ----------------------------------------------------------------------

/// Values measured against the range their **source declares** for them. A bus log decoded against
/// the wrong database does not error: what gives it away is that the numbers do not fit the ranges
/// the database declares. A **warning**, not an error: a sensor can legitimately read past its
/// specified span.
#[derive(Debug, Clone, Copy)]
pub struct DeclaredRangeConformance;

/// The id of [`DeclaredRangeConformance`].
pub const DECLARED_RANGE_ID: &'static str = "statistical.declared-range";

/// The code of its findings.
pub const OUT_OF_RANGE_CODE: &'static str = "STATISTICAL.OUT_OF_DECLARED_RANGE";

pub const OUT_OF_RANGE_RISK: &'static str = "Values outside the range their own source declares \
     usually mean the data was decoded against the wrong description of it — the wrong DBC for \
     this bus, or a signal whose scaling changed. Every value in every stream is then plausible \
     and wrong, which no checksum and no summary statistic can reveal. The narrower reading is a \
     sensor operating out of spec.";

pub const OUT_OF_RANGE_REMEDY: &'static str = "Confirm the database matches the recording (bus, \
     gateway and revision), then check the signal's factor, offset and length against it. If the \
     decode is right, the sensor is out of spec and the excursion is the finding.";

/// The finding for values outside the declared range.
pub open spec fn out_of_range_finding(
    episode: u64,
    name: Seq<char>,
    low: Seq<char>,
    high: Seq<char>,
    breach: Seq<char>,
) -> FindingView {
    check::finding(
        DECLARED_RANGE_ID@,
        Category::Statistical,
        Severity::Warning,
        LocationView::Stream { episode, stream: name },
        OUT_OF_RANGE_CODE@,
        "stream `"@ + name + "` in episode "@ + text::dec(episode as nat) + ": the source declares ["@
            + low + ", "@ + high + "] but the data "@ + breach,
        OUT_OF_RANGE_RISK@,
        OUT_OF_RANGE_REMEDY@,
    )
}

/// The finding for values outside the declared range.
fn make_out_of_range(episode: u64, name: &str, low: &str, high: &str, breach: &str) -> (r: Finding)
    ensures
        r@ == out_of_range_finding(episode, name@, low@, high@, breach@),
{
    let message: String = cat10(
        "stream `",
        name,
        "` in episode ",
        dec_u64(episode).as_str(),
        ": the source declares [",
        low,
        ", ",
        high,
        "] but the data ",
        breach,
    );
    Finding::new(DECLARED_RANGE_ID, Category::Statistical, Severity::Warning, Location::Stream { episode, stream: String::from_str(name) }, OUT_OF_RANGE_CODE, message).with_risk(
        OUT_OF_RANGE_RISK,
    ).with_remedy(OUT_OF_RANGE_REMEDY)
}

/// How the data leaves the declared range.
pub open spec fn breach(below: bool, above: bool, low: Seq<char>, high: Seq<char>) -> Seq<char> {
    if below && above {
        "reaches "@ + low + " and "@ + high
    } else if below {
        "reaches "@ + low
    } else {
        "reaches "@ + high
    }
}

/// The slack that a stored statistic gets before it is called impossible: a billionth and a millionth of
/// the size of the values, but at most four times their range, so that it never swallows what it is
/// slack within. Nothing where neither bound is a number.
pub open spec fn slack_of(min: u64, max: u64) -> Option<int> {
    if number::is_nan(min) && number::is_nan(max) {
        None
    } else {
        let (low, high) = (number::rank(min), number::rank(max));
        let widest = if number::is_nan(min) {
            double::size(high)
        } else if number::is_nan(max) {
            double::size(low)
        } else {
            double::greater(double::size(low), double::size(high))
        };
        let magnitude = double::plus(
            double::BILLIONTH as int,
            double::times(widest, double::MILLIONTH as int),
        );
        let range = double::size(double::minus(high, low));
        if !number::is_nan(min) && !number::is_nan(max) && double::is_finite(range) && range > 0 {
            Some(double::lesser(magnitude, double::times(range, double::FOUR as int)))
        } else {
            Some(magnitude)
        }
    }
}

/// The slack that a stored statistic gets before it is called impossible.
fn rounding_tolerance(min: u64, max: u64) -> (r: Option<i128>)
    ensures
        match r {
            Some(x) => slack_of(min, max) == Some(x as int) && double::is_rank(x as int),
            None => slack_of(min, max) is None,
        },
{
    let (has_min, has_max): (bool, bool) = (number::le(min, min), number::le(max, max));
    if !has_min && !has_max {
        return None;
    }
    let low: i128 = if has_min { double::rank(min) } else { 0 };
    let high: i128 = if has_max { double::rank(max) } else { 0 };
    let (a, b): (i128, i128) = (double::size_of(low), double::size_of(high));
    let widest: i128 = if a < b { b } else { a };
    let magnitude: i128 = double::sum(double::BILLIONTH, double::product(widest, double::MILLIONTH));
    if has_min && has_max {
        let range: i128 = double::size_of(double::difference(high, low));
        if range < double::TOP && range > 0 {
            let cap: i128 = double::product(range, double::FOUR);
            return Some(if cap < magnitude { cap } else { magnitude });
        }
    }
    Some(magnitude)
}

/// Whether a double, where it is a number, is less than another.
pub open spec fn falls_below(x: u64, limit: int) -> bool {
    !number::is_nan(x) && number::rank(x) < limit
}

/// Whether a double, where it is a number, is greater than another.
pub open spec fn rises_above(x: u64, limit: int) -> bool {
    !number::is_nan(x) && limit < number::rank(x)
}

/// Whether observed values fall below a declared range.
pub open spec fn undershoots(declared: DeclaredRange, observed: StreamStats) -> bool {
    match slack_of(observed.min, observed.max) {
        Some(slack) => falls_below(observed.min, double::minus(number::rank(declared.min), slack)),
        None => false,
    }
}

/// Whether observed values rise above a declared range.
pub open spec fn overshoots(declared: DeclaredRange, observed: StreamStats) -> bool {
    match slack_of(observed.min, observed.max) {
        Some(slack) => rises_above(observed.max, double::plus(number::rank(declared.max), slack)),
        None => false,
    }
}

/// Whether observed values fall below a declared range, and whether they rise above it.
fn find_breach(declared: &DeclaredRange, observed: &StreamStats) -> (r: (bool, bool))
    requires
        number::is_finite(declared.min),
        number::is_finite(declared.max),
    ensures
        r.0 == undershoots(*declared, *observed),
        r.1 == overshoots(*declared, *observed),
{
    match rounding_tolerance(observed.min, observed.max) {
        Some(slack) => {
            let low: i128 = double::difference(double::rank(declared.min), slack);
            let high: i128 = double::sum(double::rank(declared.max), slack);
            (
                number::le(observed.min, observed.min) && number::order(observed.min) < low,
                number::le(observed.max, observed.max) && high < number::order(observed.max),
            )
        },
        None => (false, false),
    }
}

impl KeyedRule for DeclaredRangeConformance {
    type Tool = ();

    open spec fn fits(&self, tool: &()) -> bool {
        true
    }

    open spec fn hit(&self, episode: Episode, stream: Stream) -> Option<(Seq<Seq<char>>, FindingView)> {
        match (stream.declared_range, stream.observed_stats) {
            (Some(declared), Some(observed)) => {
                let below = undershoots(declared, observed);
                let above = overshoots(declared, observed);
                if number::is_finite(declared.min) && number::is_finite(declared.max) && (below || above) {
                    Some(
                        (
                            seq![
                                stream.name@,
                                decimal::plain_text(declared.min),
                                decimal::plain_text(declared.max),
                                decimal::plain_text(observed.min),
                                decimal::plain_text(observed.max),
                            ],
                            out_of_range_finding(
                                episode.index,
                                stream.name@,
                                decimal::plain_text(declared.min),
                                decimal::plain_text(declared.max),
                                breach(below, above, decimal::plain_text(observed.min), decimal::plain_text(observed.max)),
                            ),
                        ),
                    )
                } else {
                    None
                }
            },
            _ => None,
        }
    }

    fn probe(&self, tool: &(), episode: &Episode, stream: &Stream) -> (r: Option<(Vec<String>, Finding)>) {
        let (declared, observed): (&DeclaredRange, &StreamStats) = match (&stream.declared_range, &stream.observed_stats) {
            (Some(d), Some(o)) => (d, o),
            _ => {
                return None;
            },
        };
        if !number::finite(declared.min) || !number::finite(declared.max) {
            return None;
        }
        let (below, above): (bool, bool) = find_breach(declared, observed);
        if !below && !above {
            return None;
        }
        let (least, most): (String, String) = (decimal::plain(observed.min), decimal::plain(observed.max));
        let (low, high): (String, String) = (decimal::plain(declared.min), decimal::plain(declared.max));
        let how: String = if below && above {
            cat4("reaches ", least.as_str(), " and ", most.as_str())
        } else if below {
            cat2("reaches ", least.as_str())
        } else {
            cat2("reaches ", most.as_str())
        };
        let finding: Finding = make_out_of_range(
            episode.index,
            stream.name.as_str(),
            low.as_str(),
            high.as_str(),
            how.as_str(),
        );
        let mut key: Vec<String> = Vec::new();
        key.push(stream.name.clone());
        key.push(low);
        key.push(high);
        key.push(least);
        key.push(most);
        assert(text::texts(key@) =~= seq![
            stream.name@,
            decimal::plain_text(declared.min),
            decimal::plain_text(declared.max),
            decimal::plain_text(observed.min),
            decimal::plain_text(observed.max),
        ]);
        Some((key, finding))
    }
}

impl Check for DeclaredRangeConformance {
    open spec fn meta(&self) -> CheckMeta {
        CheckMeta {
            id: DECLARED_RANGE_ID@,
            title: "Values against the source's declared range"@,
            category: Category::Statistical,
            default_severity: Severity::Warning,
            scope: Scope::Stream,
            version: "1"@,
            finding_codes: seq![OUT_OF_RANGE_CODE@],
        }
    }

    fn info(&self) -> (r: CheckInfo) {
        let finding_codes: &'static [&'static str] = &[OUT_OF_RANGE_CODE];
        assert(text::str_texts(finding_codes@) =~= self.meta().finding_codes);
        CheckInfo {
            id: DECLARED_RANGE_ID,
            title: "Values against the source's declared range",
            category: Category::Statistical,
            default_severity: Severity::Warning,
            scope: Scope::Stream,
            version: "1",
            finding_codes,
        }
    }

    open spec fn report(&self, dataset: &Dataset) -> Seq<FindingView> {
        walk::first_hits(*self, walk::pairs(dataset.episodes@))
    }

    open spec fn report_in(&self, dataset: &Dataset, frames_read: bool, attested: Seq<Seq<char>>) -> Seq<FindingView> {
        self.report(dataset)
    }

    fn run(&self, dataset: &Dataset) -> (r: Vec<Finding>) {
        walk_first_hits(self, &(), dataset)
    }

    fn run_in(&self, dataset: &Dataset, context: &CheckContext) -> (r: Vec<Finding>) {
        self.run(dataset)
    }
}

// ---- range and sanity ------------------------------------------------------------------------

/// Range, sanity, and degeneracy of stored per-stream statistics, of the whole stream and of each of
/// its dimensions; the most severe defect is reported, and of equally severe ones the first.
#[derive(Debug, Clone, Copy)]
pub struct RangeSanity;

/// The id of [`RangeSanity`].
pub const SANITY_ID: &'static str = "statistical.range-sanity";

pub const NON_FINITE_CODE: &'static str = "STATISTICAL.NON_FINITE";

pub const INVERTED_CODE: &'static str = "STATISTICAL.RANGE_INVERTED";

pub const NEGATIVE_STD_CODE: &'static str = "STATISTICAL.NEGATIVE_STD";

pub const MEAN_CODE: &'static str = "STATISTICAL.MEAN_OUT_OF_RANGE";

pub const STD_CODE: &'static str = "STATISTICAL.STD_IMPLAUSIBLE";

pub const DTYPE_CODE: &'static str = "STATISTICAL.DTYPE_RANGE";

pub const DEGENERATE_CODE: &'static str = "STATISTICAL.DEGENERATE";

pub const NON_FINITE_RISK: &'static str = "NaN/inf statistics poison normalization and any model \
     that consumes them.";

pub const NON_FINITE_REMEDY: &'static str = "Recompute the statistics from clean values, or drop the \
     corrupt stream.";

/// The finding for statistics that are not finite.
pub open spec fn non_finite_finding(episode: u64, name: Seq<char>, label: Seq<char>) -> FindingView {
    check::finding(
        SANITY_ID@,
        Category::Statistical,
        Severity::Error,
        LocationView::Stream { episode, stream: name },
        NON_FINITE_CODE@,
        "stream `"@ + label + "` in episode "@ + text::dec(episode as nat)
            + " has non-finite stored statistics"@,
        NON_FINITE_RISK@,
        NON_FINITE_REMEDY@,
    )
}

/// The finding for statistics that are not finite.
fn make_non_finite(episode: u64, name: &str, label: &str) -> (r: Finding)
    ensures
        r@ == non_finite_finding(episode, name@, label@),
{
    let message: String = cat5(
        "stream `",
        label,
        "` in episode ",
        dec_u64(episode).as_str(),
        " has non-finite stored statistics",
    );
    Finding::new(SANITY_ID, Category::Statistical, Severity::Error, Location::Stream { episode, stream: String::from_str(name) }, NON_FINITE_CODE, message).with_risk(
        NON_FINITE_RISK,
    ).with_remedy(NON_FINITE_REMEDY)
}

pub const INVERTED_RISK: &'static str = "An inverted range means the stored statistics are corrupt.";

pub const INVERTED_REMEDY: &'static str = "Re-derive the statistics from the data.";

/// The finding for an inverted range.
pub open spec fn inverted_finding(
    episode: u64,
    name: Seq<char>,
    label: Seq<char>,
    min: Seq<char>,
    max: Seq<char>,
) -> FindingView {
    check::finding(
        SANITY_ID@,
        Category::Statistical,
        Severity::Error,
        LocationView::Stream { episode, stream: name },
        INVERTED_CODE@,
        "stream `"@ + label + "` in episode "@ + text::dec(episode as nat) + ": min "@ + min
            + " exceeds max "@ + max,
        INVERTED_RISK@,
        INVERTED_REMEDY@,
    )
}

/// The finding for an inverted range.
fn make_inverted(episode: u64, name: &str, label: &str, min: &str, max: &str) -> (r: Finding)
    ensures
        r@ == inverted_finding(episode, name@, label@, min@, max@),
{
    let message: String = cat8(
        "stream `",
        label,
        "` in episode ",
        dec_u64(episode).as_str(),
        ": min ",
        min,
        " exceeds max ",
        max,
    );
    Finding::new(SANITY_ID, Category::Statistical, Severity::Error, Location::Stream { episode, stream: String::from_str(name) }, INVERTED_CODE, message).with_risk(
        INVERTED_RISK,
    ).with_remedy(INVERTED_REMEDY)
}

pub const NEGATIVE_STD_RISK: &'static str = "A negative standard deviation is impossible; the \
     statistics are corrupt.";

pub const NEGATIVE_STD_REMEDY: &'static str = "Re-derive the statistics from the data.";

/// The finding for a negative standard deviation.
pub open spec fn negative_std_finding(
    episode: u64,
    name: Seq<char>,
    label: Seq<char>,
    std: Seq<char>,
) -> FindingView {
    check::finding(
        SANITY_ID@,
        Category::Statistical,
        Severity::Error,
        LocationView::Stream { episode, stream: name },
        NEGATIVE_STD_CODE@,
        "stream `"@ + label + "` in episode "@ + text::dec(episode as nat) + ": negative std "@ + std,
        NEGATIVE_STD_RISK@,
        NEGATIVE_STD_REMEDY@,
    )
}

/// The finding for a negative standard deviation.
fn make_negative_std(episode: u64, name: &str, label: &str, std: &str) -> (r: Finding)
    ensures
        r@ == negative_std_finding(episode, name@, label@, std@),
{
    let message: String = cat6(
        "stream `",
        label,
        "` in episode ",
        dec_u64(episode).as_str(),
        ": negative std ",
        std,
    );
    Finding::new(SANITY_ID, Category::Statistical, Severity::Error, Location::Stream { episode, stream: String::from_str(name) }, NEGATIVE_STD_CODE, message).with_risk(
        NEGATIVE_STD_RISK,
    ).with_remedy(NEGATIVE_STD_REMEDY)
}

pub const MEAN_OUTSIDE_RISK: &'static str = "A mean outside its own min/max means the stored \
     statistics are corrupt; normalization built on them will be wrong.";

pub const MEAN_OUTSIDE_REMEDY: &'static str = "Re-derive the statistics from the data.";

/// The finding for a mean outside its range.
pub open spec fn mean_outside_finding(
    episode: u64,
    name: Seq<char>,
    label: Seq<char>,
    mean: Seq<char>,
    min: Seq<char>,
    max: Seq<char>,
) -> FindingView {
    check::finding(
        SANITY_ID@,
        Category::Statistical,
        Severity::Error,
        LocationView::Stream { episode, stream: name },
        MEAN_CODE@,
        "stream `"@ + label + "` in episode "@ + text::dec(episode as nat) + ": mean "@ + mean
            + " lies outside range ["@ + min + ", "@ + max + "]"@,
        MEAN_OUTSIDE_RISK@,
        MEAN_OUTSIDE_REMEDY@,
    )
}

/// The finding for a mean outside its range.
fn make_mean_outside(episode: u64, name: &str, label: &str, mean: &str, min: &str, max: &str) -> (r: Finding)
    ensures
        r@ == mean_outside_finding(episode, name@, label@, mean@, min@, max@),
{
    let message: String = cat11(
        "stream `",
        label,
        "` in episode ",
        dec_u64(episode).as_str(),
        ": mean ",
        mean,
        " lies outside range [",
        min,
        ", ",
        max,
        "]",
    );
    Finding::new(SANITY_ID, Category::Statistical, Severity::Error, Location::Stream { episode, stream: String::from_str(name) }, MEAN_CODE, message).with_risk(
        MEAN_OUTSIDE_RISK,
    ).with_remedy(MEAN_OUTSIDE_REMEDY)
}

pub const STD_LARGE_RISK: &'static str = "An impossibly large std means the stored statistics don't \
     match the data (often computed on the wrong dtype or stream); normalization built on them \
     will be wrong.";

pub const STD_LARGE_REMEDY: &'static str = "Re-derive the statistics from the data.";

/// The finding for a standard deviation that no values in the range have.
pub open spec fn std_large_finding(
    episode: u64,
    name: Seq<char>,
    label: Seq<char>,
    std: Seq<char>,
    bound: Seq<char>,
    min: Seq<char>,
    max: Seq<char>,
) -> FindingView {
    check::finding(
        SANITY_ID@,
        Category::Statistical,
        Severity::Error,
        LocationView::Stream { episode, stream: name },
        STD_CODE@,
        "stream `"@ + label + "` in episode "@ + text::dec(episode as nat) + ": std "@ + std
            + " exceeds the maximum possible "@ + bound + " for range ["@ + min + ", "@ + max + "]"@,
        STD_LARGE_RISK@,
        STD_LARGE_REMEDY@,
    )
}

/// The finding for a standard deviation that no values in the range have.
fn make_std_large(
    episode: u64,
    name: &str,
    label: &str,
    std: &str,
    bound: &str,
    min: &str,
    max: &str,
) -> (r: Finding)
    ensures
        r@ == std_large_finding(episode, name@, label@, std@, bound@, min@, max@),
{
    let message: String = cat13(
        "stream `",
        label,
        "` in episode ",
        dec_u64(episode).as_str(),
        ": std ",
        std,
        " exceeds the maximum possible ",
        bound,
        " for range [",
        min,
        ", ",
        max,
        "]",
    );
    Finding::new(SANITY_ID, Category::Statistical, Severity::Error, Location::Stream { episode, stream: String::from_str(name) }, STD_CODE, message).with_risk(
        STD_LARGE_RISK,
    ).with_remedy(STD_LARGE_REMEDY)
}

pub const STD_ZERO_RISK: &'static str = "A std of zero beside a non-zero range means the stored \
     statistics don't match the data (often carried over from a different stream, or never \
     computed at all); normalization built on them divides by zero, and every z-score derived \
     from them is infinite.";

pub const STD_ZERO_REMEDY: &'static str = "Re-derive the statistics from the data.";

/// The finding for a standard deviation of zero over a range that is not.
pub open spec fn std_zero_finding(
    episode: u64,
    name: Seq<char>,
    label: Seq<char>,
    std: Seq<char>,
    min: Seq<char>,
    max: Seq<char>,
) -> FindingView {
    check::finding(
        SANITY_ID@,
        Category::Statistical,
        Severity::Error,
        LocationView::Stream { episode, stream: name },
        STD_CODE@,
        "stream `"@ + label + "` in episode "@ + text::dec(episode as nat) + ": std "@ + std
            + " is zero over range ["@ + min + ", "@ + max + "], which no set of values has"@,
        STD_ZERO_RISK@,
        STD_ZERO_REMEDY@,
    )
}

/// The finding for a standard deviation of zero over a range that is not.
fn make_std_zero(episode: u64, name: &str, label: &str, std: &str, min: &str, max: &str) -> (r: Finding)
    ensures
        r@ == std_zero_finding(episode, name@, label@, std@, min@, max@),
{
    let message: String = cat11(
        "stream `",
        label,
        "` in episode ",
        dec_u64(episode).as_str(),
        ": std ",
        std,
        " is zero over range [",
        min,
        ", ",
        max,
        "], which no set of values has",
    );
    Finding::new(SANITY_ID, Category::Statistical, Severity::Error, Location::Stream { episode, stream: String::from_str(name) }, STD_CODE, message).with_risk(
        STD_ZERO_RISK,
    ).with_remedy(STD_ZERO_REMEDY)
}

pub const DTYPE_OUTSIDE_RISK: &'static str = "Stats outside the declared dtype's range mean the \
     dtype or the stats are wrong; normalization and any dtype-based decoding will be incorrect.";

pub const DTYPE_OUTSIDE_REMEDY: &'static str = "Reconcile the declared dtype with the data, or \
     re-derive the statistics.";

/// The finding for a range that the element type cannot hold.
pub open spec fn dtype_outside_finding(
    episode: u64,
    name: Seq<char>,
    label: Seq<char>,
    min: Seq<char>,
    max: Seq<char>,
    dtype: Seq<char>,
    low: Seq<char>,
    high: Seq<char>,
) -> FindingView {
    check::finding(
        SANITY_ID@,
        Category::Statistical,
        Severity::Error,
        LocationView::Stream { episode, stream: name },
        DTYPE_CODE@,
        "stream `"@ + label + "` in episode "@ + text::dec(episode as nat) + ": stored range ["@ + min
            + ", "@ + max + "] falls outside what `"@ + dtype + "` can represent ["@ + low + ", "@
            + high + "]"@,
        DTYPE_OUTSIDE_RISK@,
        DTYPE_OUTSIDE_REMEDY@,
    )
}

/// The finding for a range that the element type cannot hold.
fn make_dtype_outside(
    episode: u64,
    name: &str,
    label: &str,
    min: &str,
    max: &str,
    dtype: &str,
    low: &str,
    high: &str,
) -> (r: Finding)
    ensures
        r@ == dtype_outside_finding(episode, name@, label@, min@, max@, dtype@, low@, high@),
{
    let message: String = cat15(
        "stream `",
        label,
        "` in episode ",
        dec_u64(episode).as_str(),
        ": stored range [",
        min,
        ", ",
        max,
        "] falls outside what `",
        dtype,
        "` can represent [",
        low,
        ", ",
        high,
        "]",
    );
    Finding::new(SANITY_ID, Category::Statistical, Severity::Error, Location::Stream { episode, stream: String::from_str(name) }, DTYPE_CODE, message).with_risk(
        DTYPE_OUTSIDE_RISK,
    ).with_remedy(DTYPE_OUTSIDE_REMEDY)
}

pub const DEGENERATE_RISK: &'static str = "A constant stream carries no information and can bias \
     training.";

pub const DEGENERATE_REMEDY: &'static str = "Confirm the sensor was active; consider excluding the \
     stream.";

/// The finding for a constant stream.
pub open spec fn degenerate_finding(episode: u64, name: Seq<char>, label: Seq<char>) -> FindingView {
    check::finding(
        SANITY_ID@,
        Category::Statistical,
        Severity::Warning,
        LocationView::Stream { episode, stream: name },
        DEGENERATE_CODE@,
        "stream `"@ + label + "` in episode "@ + text::dec(episode as nat)
            + " is constant (min == max)"@,
        DEGENERATE_RISK@,
        DEGENERATE_REMEDY@,
    )
}

/// The finding for a constant stream.
fn make_degenerate(episode: u64, name: &str, label: &str) -> (r: Finding)
    ensures
        r@ == degenerate_finding(episode, name@, label@),
{
    let message: String = cat5(
        "stream `",
        label,
        "` in episode ",
        dec_u64(episode).as_str(),
        " is constant (min == max)",
    );
    Finding::new(SANITY_ID, Category::Statistical, Severity::Warning, Location::Stream { episode, stream: String::from_str(name) }, DEGENERATE_CODE, message).with_risk(
        DEGENERATE_RISK,
    ).with_remedy(DEGENERATE_REMEDY)
}

/// What a range of doubles is, with the texts of its ends.
pub struct RangeView {
    /// The lower end.
    pub low: u64,
    /// Its text.
    pub low_text: Seq<char>,
    /// The upper end.
    pub high: u64,
    /// Its text.
    pub high_text: Seq<char>,
}

/// What a range of doubles is, with the texts of its ends.
struct IntegerRange {
    /// The lower end.
    low: u64,
    /// Its text.
    low_text: &'static str,
    /// The upper end.
    high: u64,
    /// Its text.
    high_text: &'static str,
}

/// The range from zero.
pub open spec fn from_zero(high: u64, text: Seq<char>) -> RangeView {
    RangeView { low: 0, low_text: "0"@, high, high_text: text }
}

/// The representable range of a declared integer type. None for float, other, or unknown types, and
/// for 64-bit integers, whose extremes a double cannot represent exactly.
pub open spec fn dtype_range(dtype: Seq<char>) -> Option<RangeView> {
    let d = plain_dtype(dtype);
    if d == "bool"@ {
        Some(from_zero(0x3ff0_0000_0000_0000, "1"@))
    } else if d == "uint8"@ || d == "u8"@ {
        Some(from_zero(0x406f_e000_0000_0000, "255"@))
    } else if d == "int8"@ || d == "i8"@ {
        Some(
            RangeView {
                low: 0xc060_0000_0000_0000,
                low_text: "-128"@,
                high: 0x405f_c000_0000_0000,
                high_text: "127"@,
            },
        )
    } else if d == "uint16"@ || d == "u16"@ {
        Some(from_zero(0x40ef_ffe0_0000_0000, "65535"@))
    } else if d == "int16"@ || d == "i16"@ {
        Some(
            RangeView {
                low: 0xc0e0_0000_0000_0000,
                low_text: "-32768"@,
                high: 0x40df_ffc0_0000_0000,
                high_text: "32767"@,
            },
        )
    } else if d == "uint32"@ || d == "u32"@ {
        Some(from_zero(0x41ef_ffff_ffe0_0000, "4294967295"@))
    } else if d == "int32"@ || d == "i32"@ {
        Some(
            RangeView {
                low: 0xc1e0_0000_0000_0000,
                low_text: "-2147483648"@,
                high: 0x41df_ffff_ffc0_0000,
                high_text: "2147483647"@,
            },
        )
    } else {
        None
    }
}

/// The representable range of a declared integer type.
fn integer_dtype_range(dtype: &str) -> (r: Option<IntegerRange>)
    ensures
        match r {
            Some(x) => dtype_range(dtype@) == Some(
                RangeView { low: x.low, low_text: x.low_text@, high: x.high, high_text: x.high_text@ },
            ),
            None => dtype_range(dtype@) is None,
        },
{
    let d: String = plain(dtype);
    let s: &str = d.as_str();
    if same(s, "bool") {
        Some(IntegerRange { low: 0, low_text: "0", high: 0x3ff0_0000_0000_0000, high_text: "1" })
    } else if same(s, "uint8") || same(s, "u8") {
        Some(IntegerRange { low: 0, low_text: "0", high: 0x406f_e000_0000_0000, high_text: "255" })
    } else if same(s, "int8") || same(s, "i8") {
        Some(
            IntegerRange {
                low: 0xc060_0000_0000_0000,
                low_text: "-128",
                high: 0x405f_c000_0000_0000,
                high_text: "127",
            },
        )
    } else if same(s, "uint16") || same(s, "u16") {
        Some(IntegerRange { low: 0, low_text: "0", high: 0x40ef_ffe0_0000_0000, high_text: "65535" })
    } else if same(s, "int16") || same(s, "i16") {
        Some(
            IntegerRange {
                low: 0xc0e0_0000_0000_0000,
                low_text: "-32768",
                high: 0x40df_ffc0_0000_0000,
                high_text: "32767",
            },
        )
    } else if same(s, "uint32") || same(s, "u32") {
        Some(IntegerRange { low: 0, low_text: "0", high: 0x41ef_ffff_ffe0_0000, high_text: "4294967295" })
    } else if same(s, "int32") || same(s, "i32") {
        Some(
            IntegerRange {
                low: 0xc1e0_0000_0000_0000,
                low_text: "-2147483648",
                high: 0x41df_ffff_ffc0_0000,
                high_text: "2147483647",
            },
        )
    } else {
        None
    }
}

/// What a message calls the thing that numbers summarize: one dimension, or the whole stream.
pub open spec fn label_of(name: Seq<char>, dim: Option<u64>) -> Seq<char> {
    match dim {
        Some(d) => name + " dim "@ + text::dec(d as nat),
        None => name,
    }
}

/// Whether all four numbers of a summary are finite.
pub open spec fn is_finite(s: StreamStats) -> bool {
    number::is_finite(s.min) && number::is_finite(s.max) && number::is_finite(s.mean)
        && number::is_finite(s.std)
}

/// The slack of a summary.
pub open spec fn slack(s: StreamStats) -> int {
    slack_of(s.min, s.max)->0
}

/// Whether the deviation of a summary is no more than its slack.
pub open spec fn is_flat(s: StreamStats) -> bool {
    double::size(number::rank(s.std)) <= slack(s)
}

/// Whether the mean of a summary lies outside its range by more than its slack.
pub open spec fn mean_is_outside(s: StreamStats) -> bool {
    number::rank(s.mean) < double::minus(number::rank(s.min), slack(s)) || double::plus(
        number::rank(s.max),
        slack(s),
    ) < number::rank(s.mean)
}

/// Half the range of a summary.
pub open spec fn half_range(s: StreamStats) -> int {
    double::over(double::minus(number::rank(s.max), number::rank(s.min)), double::TWO as int)
}

/// Whether the deviation of a summary is larger than that of any values within its range, by more than
/// its slack: no standard deviation exceeds half the range.
pub open spec fn std_is_large(s: StreamStats) -> bool {
    double::plus(half_range(s), slack(s)) < number::rank(s.std)
}

/// Whether the range of a summary is wider than its slack.
pub open spec fn is_spread(s: StreamStats) -> bool {
    double::plus(number::rank(s.min), slack(s)) < number::rank(s.max)
}

/// The range of the element type that a stream declares.
pub open spec fn declared_dtype_range(stream: Stream) -> Option<RangeView> {
    match stream.dtype {
        Some(d) => dtype_range(d@),
        None => None,
    }
}

/// The first way stored statistics are unusable. The rules are ordered from "the numbers are
/// corrupt" to "the numbers are fine but the distribution is degenerate".
pub open spec fn defect(stream: Stream, episode: u64, s: StreamStats, dim: Option<u64>) -> Option<FindingView> {
    let name = stream.name@;
    let label = label_of(name, dim);
    let (min, max, mean, std) = (decimal::plain_text(s.min), decimal::plain_text(s.max), decimal::plain_text(s.mean), decimal::plain_text(s.std));
    if !is_finite(s) {
        Some(non_finite_finding(episode, name, label))
    } else if number::less(s.max, s.min) {
        Some(inverted_finding(episode, name, label, min, max))
    } else if number::less(s.std, 0) {
        Some(negative_std_finding(episode, name, label, std))
    } else if mean_is_outside(s) {
        Some(mean_outside_finding(episode, name, label, mean, min, max))
    } else if std_is_large(s) {
        Some(std_large_finding(episode, name, label, std, decimal::plain_text(decimal::bits_of(half_range(s))), min, max))
    } else if is_spread(s) && is_flat(s) {
        Some(std_zero_finding(episode, name, label, std, min, max))
    } else {
        match declared_dtype_range(stream) {
            Some(range) => if number::less(s.min, range.low) || number::less(range.high, s.max) {
                Some(
                    dtype_outside_finding(
                        episode,
                        name,
                        label,
                        min,
                        max,
                        stream.dtype->0@,
                        range.low_text,
                        range.high_text,
                    ),
                )
            } else {
                constant(name, label, episode, s)
            },
            None => constant(name, label, episode, s),
        }
    }
}

/// The defect of a constant stream: every value the same, up to the rounding of the deviation.
pub open spec fn constant(name: Seq<char>, label: Seq<char>, episode: u64, s: StreamStats) -> Option<FindingView> {
    if number::equal(s.min, s.max) && is_flat(s) {
        Some(degenerate_finding(episode, name, label))
    } else {
        None
    }
}

/// The more severe of two defects; the first where they are equally severe.
pub open spec fn worse(a: Option<FindingView>, b: Option<FindingView>) -> Option<FindingView> {
    match (a, b) {
        (Some(x), Some(y)) => if y.severity.level() > x.severity.level() { Some(y) } else { Some(x) },
        (Some(x), None) => Some(x),
        (None, _) => b,
    }
}

/// The most severe defect of a stream and its dimensions.
pub open spec fn worst_defect(stream: Stream, episode: u64, dims: Seq<DimStats>) -> Option<FindingView>
    decreases dims.len(),
{
    if dims.len() == 0 {
        match stream.stats {
            Some(s) => defect(stream, episode, s, None),
            None => None,
        }
    } else {
        worse(
            worst_defect(stream, episode, dims.drop_last()),
            defect(stream, episode, dims.last().stats, Some(dims.last().dim)),
        )
    }
}

/// What tells a summary apart.
pub open spec fn stats_key(s: StreamStats) -> Seq<Seq<char>> {
    seq![decimal::plain_text(s.min), decimal::plain_text(s.max), decimal::plain_text(s.mean), decimal::plain_text(s.std)]
}

/// What tells the summaries of dimensions apart.
pub open spec fn dims_key(dims: Seq<DimStats>) -> Seq<Seq<char>>
    decreases dims.len(),
{
    if dims.len() == 0 {
        Seq::empty()
    } else {
        dims_key(dims.drop_last()) + (seq![text::dec(dims.last().dim as nat)] + stats_key(dims.last().stats))
    }
}

/// What tells the stored statistics of a stream apart.
pub open spec fn stored_key(stream: Stream) -> Seq<Seq<char>> {
    let scalar = match stream.stats {
        Some(s) => seq![stream.name@, "some"@] + stats_key(s),
        None => seq![stream.name@, "none"@],
    };
    match stream.dim_stats {
        Some(dims) => scalar.push("some"@) + dims_key(dims@),
        None => scalar.push("none"@),
    }
}

/// The summaries of the dimensions that a stream stores.
pub open spec fn stored_dims(stream: Stream) -> Seq<DimStats> {
    match stream.dim_stats {
        Some(dims) => dims@,
        None => Seq::empty(),
    }
}

/// Appends what tells a summary apart.
fn push_stats(key: &mut Vec<String>, s: &StreamStats)
    ensures
        text::texts(final(key)@) == text::texts(old(key)@) + stats_key(*s),
{
    let ghost was = text::texts(key@);
    key.push(decimal::plain(s.min));
    key.push(decimal::plain(s.max));
    key.push(decimal::plain(s.mean));
    key.push(decimal::plain(s.std));
    assert(text::texts(key@) =~= was + stats_key(*s));
}

/// What tells the stored statistics of a stream apart.
fn build_key(stream: &Stream) -> (r: Vec<String>)
    ensures
        text::texts(r@) == stored_key(*stream),
{
    let mut key: Vec<String> = Vec::new();
    key.push(stream.name.clone());
    match &stream.stats {
        Some(s) => {
            key.push(String::from_str("some"));
            assert(text::texts(key@) =~= seq![stream.name@, "some"@]);
            push_stats(&mut key, s);
        },
        None => {
            key.push(String::from_str("none"));
            assert(text::texts(key@) =~= seq![stream.name@, "none"@]);
        },
    }
    match &stream.dim_stats {
        Some(dims) => {
            key.push(String::from_str("some"));
            let ghost head = text::texts(key@);
            let mut i: usize = 0;
            assert(head + dims_key(dims@.take(0)) =~= head);
            while i < dims.len()
                invariant
                    i <= dims@.len(),
                    text::texts(key@) == head + dims_key(dims@.take(i as int)),
                decreases dims@.len() - i,
            {
                let ghost was = text::texts(key@);
                key.push(dec_u64(dims[i].dim));
                push_stats(&mut key, &dims[i].stats);
                proof {
                    assert(dims@.take(i + 1).drop_last() =~= dims@.take(i as int));
                    assert(text::texts(key@) =~= was + (seq![text::dec(dims@[i as int].dim as nat)] + stats_key(
                        dims@[i as int].stats,
                    )));
                    assert(text::texts(key@) =~= head + dims_key(dims@.take(i + 1)));
                }
                i = i + 1;
            }
            assert(dims@.take(i as int) =~= dims@);
        },
        None => {
            key.push(String::from_str("none"));
        },
    }
    key
}

impl RangeSanity {
    /// The first way stored statistics are unusable, if any.
    fn evaluate(&self, stream: &Stream, episode: u64, s: &StreamStats, dim: Option<u64>) -> (r: Option<Finding>)
        ensures
            match r {
                Some(f) => defect(*stream, episode, *s, dim) == Some(f@),
                None => defect(*stream, episode, *s, dim) is None,
            },
    {
        let name: &str = stream.name.as_str();
        let named: String = match dim {
            Some(d) => cat3(name, " dim ", dec_u64(d).as_str()),
            None => stream.name.clone(),
        };
        let label: &str = named.as_str();
        let (lo, hi): (String, String) = (decimal::plain(s.min), decimal::plain(s.max));
        let (min, max): (&str, &str) = (lo.as_str(), hi.as_str());
        let (mid, dev): (String, String) = (decimal::plain(s.mean), decimal::plain(s.std));
        let (mean, std): (&str, &str) = (mid.as_str(), dev.as_str());
        if !number::finite(s.min) || !number::finite(s.max) || !number::finite(s.mean)
            || !number::finite(s.std) {
            return Some(make_non_finite(episode, name, label));
        }
        if number::lt(s.max, s.min) {
            return Some(make_inverted(episode, name, label, min, max));
        }
        if number::lt(s.std, 0) {
            return Some(make_negative_std(episode, name, label, std));
        }
        let slack: i128 = match rounding_tolerance(s.min, s.max) {
            Some(x) => x,
            None => 0,
        };
        let (low, high): (i128, i128) = (double::rank(s.min), double::rank(s.max));
        let (middle, spread): (i128, i128) = (double::rank(s.mean), double::rank(s.std));
        if middle < double::difference(low, slack) || double::sum(high, slack) < middle {
            return Some(make_mean_outside(episode, name, label, mean, min, max));
        }
        let bound: i128 = double::quotient(double::difference(high, low), double::TWO);
        if double::sum(bound, slack) < spread {
            return Some(make_std_large(episode, name, label, std, decimal::plain_rank(bound).as_str(), min, max));
        }
        let flat: bool = double::size_of(spread) <= slack;
        if double::sum(low, slack) < high && flat {
            return Some(make_std_zero(episode, name, label, std, min, max));
        }
        if let Some(dtype) = &stream.dtype {
            if let Some(range) = integer_dtype_range(dtype.as_str()) {
                if number::lt(s.min, range.low) || number::lt(range.high, s.max) {
                    return Some(
                        make_dtype_outside(
                            episode,
                            name,
                            label,
                            min,
                            max,
                            dtype.as_str(),
                            range.low_text,
                            range.high_text,
                        ),
                    );
                }
            }
        }
        if number::eq(s.min, s.max) && flat {
            return Some(make_degenerate(episode, name, label));
        }
        None
    }
}

impl KeyedRule for RangeSanity {
    type Tool = ();

    open spec fn fits(&self, tool: &()) -> bool {
        true
    }

    open spec fn hit(&self, episode: Episode, stream: Stream) -> Option<(Seq<Seq<char>>, FindingView)> {
        match worst_defect(stream, episode.index, stored_dims(stream)) {
            Some(f) => Some((stored_key(stream), f)),
            None => None,
        }
    }

    fn probe(&self, tool: &(), episode: &Episode, stream: &Stream) -> (r: Option<(Vec<String>, Finding)>) {
        let mut worst: Option<Finding> = match &stream.stats {
            Some(s) => self.evaluate(stream, episode.index, s, None),
            None => None,
        };
        if let Some(dims) = &stream.dim_stats {
            let mut i: usize = 0;
            assert(dims@.take(0) =~= Seq::empty());
            while i < dims.len()
                invariant
                    i <= dims@.len(),
                    match worst {
                        Some(f) => worst_defect(*stream, episode.index, dims@.take(i as int)) == Some(f@),
                        None => worst_defect(*stream, episode.index, dims@.take(i as int)) is None,
                    },
                decreases dims@.len() - i,
            {
                assert(dims@.take(i + 1).drop_last() =~= dims@.take(i as int));
                let next: Option<Finding> = self.evaluate(stream, episode.index, &dims[i].stats, Some(dims[i].dim));
                if let Some(f) = next {
                    let replace: bool = match &worst {
                        Some(w) => f.severity.rank() > w.severity.rank(),
                        None => true,
                    };
                    if replace {
                        worst = Some(f);
                    }
                }
                i = i + 1;
            }
            assert(dims@.take(i as int) =~= dims@);
        }
        match worst {
            Some(f) => Some((build_key(stream), f)),
            None => None,
        }
    }
}

impl Check for RangeSanity {
    open spec fn meta(&self) -> CheckMeta {
        CheckMeta {
            id: SANITY_ID@,
            title: "Stored-statistics range and sanity"@,
            category: Category::Statistical,
            default_severity: Severity::Error,
            scope: Scope::Stream,
            version: "1"@,
            finding_codes: seq![
                NON_FINITE_CODE@,
                INVERTED_CODE@,
                NEGATIVE_STD_CODE@,
                MEAN_CODE@,
                STD_CODE@,
                DTYPE_CODE@,
                DEGENERATE_CODE@,
            ],
        }
    }

    fn info(&self) -> (r: CheckInfo) {
        let finding_codes: &'static [&'static str] = &[
                NON_FINITE_CODE,
                INVERTED_CODE,
                NEGATIVE_STD_CODE,
                MEAN_CODE,
                STD_CODE,
                DTYPE_CODE,
                DEGENERATE_CODE,
            ];
        assert(text::str_texts(finding_codes@) =~= self.meta().finding_codes);
        CheckInfo {
            id: SANITY_ID,
            title: "Stored-statistics range and sanity",
            category: Category::Statistical,
            default_severity: Severity::Error,
            scope: Scope::Stream,
            version: "1",
            finding_codes,
        }
    }

    open spec fn report(&self, dataset: &Dataset) -> Seq<FindingView> {
        walk::first_hits(*self, walk::pairs(dataset.episodes@))
    }

    open spec fn report_in(&self, dataset: &Dataset, frames_read: bool, attested: Seq<Seq<char>>) -> Seq<FindingView> {
        self.report(dataset)
    }

    fn run(&self, dataset: &Dataset) -> (r: Vec<Finding>) {
        walk_first_hits(self, &(), dataset)
    }

    fn run_in(&self, dataset: &Dataset, context: &CheckContext) -> (r: Vec<Finding>) {
        self.run(dataset)
    }
}

// ---- stored against recomputed ---------------------------------------------------------------

/// Stored-vs-recomputed statistics. The stored range must **contain** the data: a value outside it
/// means the stored statistics are stale or were computed on different data. Only `min`/`max` are
/// compared, because they are free of convention, with a small relative slack for rounding.
#[derive(Debug, Clone, Copy)]
pub struct StoredVsObserved;

/// The id of [`StoredVsObserved`].
pub const STALE_ID: &'static str = "statistical.stored-vs-observed";

/// The code of its findings.
pub const STALE_CODE: &'static str = "STATISTICAL.STATS_STALE";

pub const STALE_RISK: &'static str = "Stored statistics that don't bound the real values were \
     computed on different or stale data; normalization built from them clips or distorts the \
     true inputs.";

pub const STALE_REMEDY: &'static str = "Recompute the stored statistics from the current data (e.g. \
     regenerate `meta/stats.json`).";

/// The finding for stored statistics that do not bound the data.
pub open spec fn stale_finding(
    episode: u64,
    name: Seq<char>,
    place: Seq<char>,
    low: Seq<char>,
    high: Seq<char>,
    stored_low: Seq<char>,
    stored_high: Seq<char>,
) -> FindingView {
    check::finding(
        STALE_ID@,
        Category::Statistical,
        Severity::Error,
        LocationView::Stream { episode, stream: name },
        STALE_CODE@,
        "stream `"@ + name + "`"@ + place + ": actual values ["@ + low + ", "@ + high
            + "] fall outside the stored range ["@ + stored_low + ", "@ + stored_high
            + "] — the stored statistics don't match the data"@,
        STALE_RISK@,
        STALE_REMEDY@,
    )
}

/// The finding for stored statistics that do not bound the data.
fn make_stale(
    episode: u64,
    name: &str,
    place: &str,
    low: &str,
    high: &str,
    stored_low: &str,
    stored_high: &str,
) -> (r: Finding)
    ensures
        r@ == stale_finding(episode, name@, place@, low@, high@, stored_low@, stored_high@),
{
    let message: String = cat13(
        "stream `",
        name,
        "`",
        place,
        ": actual values [",
        low,
        ", ",
        high,
        "] fall outside the stored range [",
        stored_low,
        ", ",
        stored_high,
        "] — the stored statistics don't match the data",
    );
    Finding::new(STALE_ID, Category::Statistical, Severity::Error, Location::Stream { episode, stream: String::from_str(name) }, STALE_CODE, message).with_risk(
        STALE_RISK,
    ).with_remedy(STALE_REMEDY)
}

/// The slack of a stored bound: a millionth of its size, or of one where it is smaller.
pub open spec fn bound_slack(x: int) -> int {
    double::times(double::MILLIONTH as int, double::greater(double::size(x), double::ONE as int))
}

/// Whether the observed range escapes the stored one, where that has bounds, by more than their slack.
pub open spec fn escapes(stored: StreamStats, observed: StreamStats) -> bool {
    let (low, high) = (number::rank(stored.min), number::rank(stored.max));
    number::is_finite(stored.min) && number::is_finite(stored.max) && (falls_below(
        observed.min,
        double::minus(low, bound_slack(low)),
    ) || rises_above(observed.max, double::plus(high, bound_slack(high))))
}

/// The slack of a stored bound.
fn find_bound_slack(x: i128) -> (r: i128)
    requires
        double::is_rank(x as int),
    ensures
        r as int == bound_slack(x as int),
        double::is_rank(r as int),
{
    let n: i128 = double::size_of(x);
    double::product(double::MILLIONTH, if n < double::ONE { double::ONE } else { n })
}

/// Whether the observed range escapes the stored one.
fn has_escaped(stored: &StreamStats, observed: &StreamStats) -> (r: bool)
    ensures
        r == escapes(*stored, *observed),
{
    if !number::finite(stored.min) || !number::finite(stored.max) {
        return false;
    }
    let (low, high): (i128, i128) = (double::rank(stored.min), double::rank(stored.max));
    let floor: i128 = double::difference(low, find_bound_slack(low));
    let ceiling: i128 = double::sum(high, find_bound_slack(high));
    (number::le(observed.min, observed.min) && number::order(observed.min) < floor) || (number::le(
        observed.max,
        observed.max,
    ) && ceiling < number::order(observed.max))
}

/// The summary of a dimension.
pub open spec fn stats_of_dim(dims: Seq<DimStats>, dim: u64) -> Option<StreamStats>
    decreases dims.len(),
{
    if dims.len() == 0 {
        None
    } else if dims[0].dim == dim {
        Some(dims[0].stats)
    } else {
        stats_of_dim(dims.skip(1), dim)
    }
}

/// The summary of a dimension.
fn find_dim<'a>(dims: &'a Vec<DimStats>, dim: u64) -> (r: Option<&'a StreamStats>)
    ensures
        match r {
            Some(s) => stats_of_dim(dims@, dim) == Some(*s),
            None => stats_of_dim(dims@, dim) is None,
        },
{
    let mut k: usize = 0;
    assert(dims@.skip(0) =~= dims@);
    while k < dims.len()
        invariant
            k <= dims@.len(),
            stats_of_dim(dims@, dim) == stats_of_dim(dims@.skip(k as int), dim),
        decreases dims@.len() - k,
    {
        assert(dims@.skip(k as int)[0] == dims@[k as int]);
        assert(dims@.skip(k as int).skip(1) =~= dims@.skip(k + 1));
        if dims[k].dim == dim {
            return Some(&dims[k].stats);
        }
        k = k + 1;
    }
    None
}

/// Stored statistics that do not bound what was observed, and the dimension they are of.
pub struct StaleView {
    /// The stored summary.
    pub stored: StreamStats,
    /// The recomputed summary.
    pub observed: StreamStats,
    /// The dimension.
    pub dim: u64,
}

/// The first dimension whose stored statistics are stale.
pub open spec fn stale_dim(stored: Seq<DimStats>, observed: Seq<DimStats>) -> Option<StaleView>
    decreases stored.len(),
{
    if stored.len() == 0 {
        None
    } else {
        match stats_of_dim(observed, stored[0].dim) {
            Some(o) => if escapes(stored[0].stats, o) {
                Some(StaleView { stored: stored[0].stats, observed: o, dim: stored[0].dim })
            } else {
                stale_dim(stored.skip(1), observed)
            },
            None => stale_dim(stored.skip(1), observed),
        }
    }
}

/// How the stored statistics of a stream are stale: by dimension where both sides have dimensions,
/// else as a whole.
pub open spec fn staleness(stream: Stream) -> Option<StaleView> {
    match (stream.dim_stats, stream.observed_dim_stats) {
        (Some(stored), Some(observed)) => stale_dim(stored@, observed@),
        _ => match (stream.stats, stream.observed_stats) {
            (Some(s), Some(o)) => if escapes(s, o) {
                Some(StaleView { stored: s, observed: o, dim: 0 })
            } else {
                None
            },
            _ => None,
        },
    }
}

/// How the stored statistics of a stream are stale.
fn find_stale<'a>(stream: &'a Stream) -> (r: Option<(&'a StreamStats, &'a StreamStats, u64)>)
    ensures
        match r {
            Some((s, o, dim)) => staleness(*stream) == Some((StaleView { stored: *s, observed: *o, dim })),
            None => staleness(*stream) is None,
        },
{
    match (&stream.dim_stats, &stream.observed_dim_stats) {
        (Some(stored), Some(observed)) => {
            let mut i: usize = 0;
            assert(stored@.skip(0) =~= stored@);
            while i < stored.len()
                invariant
                    i <= stored@.len(),
                    stream.dim_stats == Some(*stored),
                    stream.observed_dim_stats == Some(*observed),
                    stale_dim(stored@, observed@) == stale_dim(stored@.skip(i as int), observed@),
                decreases stored@.len() - i,
            {
                assert(stored@.skip(i as int)[0] == stored@[i as int]);
                assert(stored@.skip(i as int).skip(1) =~= stored@.skip(i + 1));
                if let Some(o) = find_dim(observed, stored[i].dim) {
                    if has_escaped(&stored[i].stats, o) {
                        return Some((&stored[i].stats, o, stored[i].dim));
                    }
                }
                i = i + 1;
            }
            None
        },
        _ => match (&stream.stats, &stream.observed_stats) {
            (Some(s), Some(o)) => if has_escaped(s, o) {
                Some((s, o, 0))
            } else {
                None
            },
            _ => None,
        },
    }
}

impl KeyedRule for StoredVsObserved {
    type Tool = ();

    open spec fn fits(&self, tool: &()) -> bool {
        true
    }

    open spec fn hit(&self, episode: Episode, stream: Stream) -> Option<(Seq<Seq<char>>, FindingView)> {
        match staleness(stream) {
            Some(x) => Some(
                (
                    seq![stream.name@] + stats_key(x.stored) + stats_key(x.observed) + seq![text::dec(x.dim as nat)],
                    stale_finding(
                        episode.index,
                        stream.name@,
                        place_text(x.dim),
                        decimal::plain_text(x.observed.min),
                        decimal::plain_text(x.observed.max),
                        decimal::plain_text(x.stored.min),
                        decimal::plain_text(x.stored.max),
                    ),
                ),
            ),
            None => None,
        }
    }

    fn probe(&self, tool: &(), episode: &Episode, stream: &Stream) -> (r: Option<(Vec<String>, Finding)>) {
        match find_stale(stream) {
            Some((s, o, dim)) => {
                let mut key: Vec<String> = Vec::new();
                key.push(stream.name.clone());
                assert(text::texts(key@) =~= seq![stream.name@]);
                push_stats(&mut key, s);
                push_stats(&mut key, o);
                let ghost was = text::texts(key@);
                key.push(dec_u64(dim));
                assert(text::texts(key@) =~= was + seq![text::dec(dim as nat)]);
                Some(
                    (
                        key,
                        make_stale(
                            episode.index,
                            stream.name.as_str(),
                            place(dim).as_str(),
                            decimal::plain(o.min).as_str(),
                            decimal::plain(o.max).as_str(),
                            decimal::plain(s.min).as_str(),
                            decimal::plain(s.max).as_str(),
                        ),
                    ),
                )
            },
            None => None,
        }
    }
}

impl Check for StoredVsObserved {
    open spec fn meta(&self) -> CheckMeta {
        CheckMeta {
            id: STALE_ID@,
            title: "Stored statistics match the data"@,
            category: Category::Statistical,
            default_severity: Severity::Error,
            scope: Scope::Stream,
            version: "1"@,
            finding_codes: seq![STALE_CODE@],
        }
    }

    fn info(&self) -> (r: CheckInfo) {
        let finding_codes: &'static [&'static str] = &[STALE_CODE];
        assert(text::str_texts(finding_codes@) =~= self.meta().finding_codes);
        CheckInfo {
            id: STALE_ID,
            title: "Stored statistics match the data",
            category: Category::Statistical,
            default_severity: Severity::Error,
            scope: Scope::Stream,
            version: "1",
            finding_codes,
        }
    }

    open spec fn report(&self, dataset: &Dataset) -> Seq<FindingView> {
        walk::first_hits(*self, walk::pairs(dataset.episodes@))
    }

    open spec fn report_in(&self, dataset: &Dataset, frames_read: bool, attested: Seq<Seq<char>>) -> Seq<FindingView> {
        self.report(dataset)
    }

    fn run(&self, dataset: &Dataset) -> (r: Vec<Finding>) {
        walk_first_hits(self, &(), dataset)
    }

    fn run_in(&self, dataset: &Dataset, context: &CheckContext) -> (r: Vec<Finding>) {
        self.run(dataset)
    }
}

// ---- outliers --------------------------------------------------------------------------------

/// Extreme-outlier detection from summary statistics alone. By Chebyshev's inequality no more than
/// `1/z²` of the samples can be `z` standard deviations or further from the mean, so an extreme that
/// far out is a sparse spike, not the fat tail of a wide-but-normal distribution. Corrupt or
/// degenerate statistics are left to [`RangeSanity`]. Every dimension is scanned, and the most
/// extreme outlier is reported.
#[derive(Debug)]
pub struct ExtremeOutlier {
    /// Standard-deviations-from-mean at or beyond which an extreme is flagged.
    pub z_threshold: u64,
}

/// The double ten.
pub const TEN: u64 = 0x4024_0000_0000_0000;

impl Default for ExtremeOutlier {
    /// Ten standard deviations.
    fn default() -> (r: Self)
        ensures
            r.z_threshold == TEN,
    {
        ExtremeOutlier { z_threshold: TEN }
    }
}

/// The id of [`ExtremeOutlier`].
pub const OUTLIER_ID: &'static str = "statistical.extreme-outlier";

/// The code of its findings.
pub const OUTLIER_CODE: &'static str = "STATISTICAL.OUTLIER";

pub const OUTLIER_RISK: &'static str = "A lone extreme far from the mean dominates min/max \
     normalization — it squashes the real signal into a sliver of the range — and destabilizes \
     training; it is usually a sensor glitch or a unit error, not real data.";

pub const OUTLIER_REMEDY: &'static str = "Inspect the extreme; clip/winsorize it or fix the \
     unit/scale error, then recompute the statistics.";

/// The finding for an extreme outlier.
pub open spec fn outlier_finding(
    episode: u64,
    name: Seq<char>,
    place: Seq<char>,
    end: Seq<char>,
    value: Seq<char>,
    z: Seq<char>,
    tail: Seq<char>,
) -> FindingView {
    check::finding(
        OUTLIER_ID@,
        Category::Statistical,
        Severity::Warning,
        LocationView::Stream { episode, stream: name },
        OUTLIER_CODE@,
        "stream `"@ + name + "`"@ + place + ": its "@ + end + " ("@ + value + ") is "@ + z
            + "σ from the mean — an extreme outlier (at most "@ + tail
            + "% of samples can lie this far out)"@,
        OUTLIER_RISK@,
        OUTLIER_REMEDY@,
    )
}

/// The finding for an extreme outlier.
fn make_outlier(
    episode: u64,
    name: &str,
    place: &str,
    end: &str,
    value: &str,
    z: &str,
    tail: &str,
) -> (r: Finding)
    ensures
        r@ == outlier_finding(episode, name@, place@, end@, value@, z@, tail@),
{
    let message: String = cat13(
        "stream `",
        name,
        "`",
        place,
        ": its ",
        end,
        " (",
        value,
        ") is ",
        z,
        "σ from the mean — an extreme outlier (at most ",
        tail,
        "% of samples can lie this far out)",
    );
    Finding::new(OUTLIER_ID, Category::Statistical, Severity::Warning, Location::Stream { episode, stream: String::from_str(name) }, OUTLIER_CODE, message).with_risk(
        OUTLIER_RISK,
    ).with_remedy(OUTLIER_REMEDY)
}

/// Whether a summary has a scale to measure distances by.
pub open spec fn has_scale(s: StreamStats) -> bool {
    is_finite(s) && number::less(0, s.std) && !number::less(s.max, s.min) && !number::less(
        s.mean,
        s.min,
    ) && !number::less(s.max, s.mean)
}

/// How far the maximum is from the mean, in standard deviations.
pub open spec fn above(s: StreamStats) -> int {
    double::over(double::minus(number::rank(s.max), number::rank(s.mean)), number::rank(s.std))
}

/// How far the minimum is from the mean, in standard deviations.
pub open spec fn below(s: StreamStats) -> int {
    double::over(double::minus(number::rank(s.mean), number::rank(s.min)), number::rank(s.std))
}

/// Whether the maximum is the extreme further out.
pub open spec fn maximum_leads(s: StreamStats) -> bool {
    below(s) <= above(s)
}

/// How far the extreme further out is from the mean.
pub open spec fn distance(s: StreamStats) -> int {
    if maximum_leads(s) { above(s) } else { below(s) }
}

/// Whether a summary has an outlier.
pub open spec fn is_outlying(s: StreamStats, threshold: u64) -> bool {
    has_scale(s) && !number::is_nan(threshold) && number::rank(threshold) <= distance(s)
}

/// Whether a summary has an outlier.
fn outlies(s: &StreamStats, threshold: u64) -> (r: bool)
    ensures
        r == is_outlying(*s, threshold),
{
    if !number::finite(s.min) || !number::finite(s.max) || !number::finite(s.mean) || !number::finite(
        s.std,
    ) || !number::lt(0, s.std) || number::lt(s.max, s.min) || number::lt(s.mean, s.min)
        || number::lt(s.max, s.mean) {
        return false;
    }
    number::le(threshold, threshold) && number::order(threshold) <= how_far(s).1
}

/// Whether the maximum is the extreme further out, and how far the extreme is from the mean.
fn how_far(s: &StreamStats) -> (r: (bool, i128))
    requires
        has_scale(*s),
    ensures
        r.0 == maximum_leads(*s),
        r.1 as int == distance(*s),
        double::is_rank(r.1 as int),
{
    let (low, high): (i128, i128) = (double::rank(s.min), double::rank(s.max));
    let (middle, spread): (i128, i128) = (double::rank(s.mean), double::rank(s.std));
    let up: i128 = double::quotient(double::difference(high, middle), spread);
    let down: i128 = double::quotient(double::difference(middle, low), spread);
    if down <= up {
        (true, up)
    } else {
        (false, down)
    }
}

/// The place of the dimension with the most extreme outlier among the first `n`; of equally extreme
/// ones the last.
pub open spec fn most_extreme(dims: Seq<DimStats>, threshold: u64, n: int) -> Option<int>
    decreases n,
{
    if n <= 0 {
        None
    } else if is_outlying(dims[n - 1].stats, threshold) {
        match most_extreme(dims, threshold, n - 1) {
            Some(k) => if distance(dims[n - 1].stats) < distance(dims[k].stats) {
                Some(k)
            } else {
                Some(n - 1)
            },
            None => Some(n - 1),
        }
    } else {
        most_extreme(dims, threshold, n - 1)
    }
}

/// The outlier of a stream: the summary and the dimension it is of.
pub open spec fn outlier_of(stream: Stream, threshold: u64) -> Option<(StreamStats, u64)> {
    let dims = match stream.observed_dim_stats {
        Some(d) => Some(d@),
        None => match stream.dim_stats {
            Some(d) => Some(d@),
            None => None,
        },
    };
    match dims {
        Some(d) => match most_extreme(d, threshold, d.len() as int) {
            Some(k) => Some((d[k].stats, d[k].dim)),
            None => None,
        },
        None => {
            let whole = match stream.observed_stats {
                Some(s) => Some(s),
                None => stream.stats,
            };
            match whole {
                Some(s) => if is_outlying(s, threshold) { Some((s, 0)) } else { None },
                None => None,
            }
        },
    }
}

/// The place of the dimension with the most extreme outlier.
fn find_extreme(dims: &Vec<DimStats>, threshold: u64) -> (r: Option<usize>)
    ensures
        match r {
            Some(k) => k < dims@.len() && most_extreme(dims@, threshold, dims@.len() as int) == Some(k as int)
                && has_scale(dims@[k as int].stats),
            None => most_extreme(dims@, threshold, dims@.len() as int) is None,
        },
{
    let mut best: Option<usize> = None;
    let mut i: usize = 0;
    while i < dims.len()
        invariant
            i <= dims@.len(),
            match best {
                Some(k) => k < i && most_extreme(dims@, threshold, i as int) == Some(k as int) && has_scale(
                    dims@[k as int].stats,
                ),
                None => most_extreme(dims@, threshold, i as int) is None,
            },
        decreases dims@.len() - i,
    {
        if outlies(&dims[i].stats, threshold) {
            best = match best {
                Some(k) => if how_far(&dims[i].stats).1 < how_far(&dims[k].stats).1 {
                    Some(k)
                } else {
                    Some(i)
                },
                None => Some(i),
            };
        }
        i = i + 1;
    }
    best
}

/// The outlier of a stream.
fn find_outlier<'a>(stream: &'a Stream, threshold: u64) -> (r: Option<(&'a StreamStats, u64)>)
    ensures
        match r {
            Some((s, dim)) => outlier_of(*stream, threshold) == Some((*s, dim)) && has_scale(*s),
            None => outlier_of(*stream, threshold) is None,
        },
{
    let dims: Option<&Vec<DimStats>> = match &stream.observed_dim_stats {
        Some(d) => Some(d),
        None => match &stream.dim_stats {
            Some(d) => Some(d),
            None => None,
        },
    };
    match dims {
        Some(d) => match find_extreme(d, threshold) {
            Some(k) => Some((&d[k].stats, d[k].dim)),
            None => None,
        },
        None => {
            let whole: Option<&StreamStats> = match &stream.observed_stats {
                Some(s) => Some(s),
                None => match &stream.stats {
                    Some(s) => Some(s),
                    None => None,
                },
            };
            match whole {
                Some(s) => if outlies(s, threshold) {
                    Some((s, 0))
                } else {
                    None
                },
                None => None,
            }
        },
    }
}

/// A distance in standard deviations with one digit after the point, in scientific notation from ten
/// thousand on: a tiny deviation puts an extreme hundreds of digits away.
pub open spec fn distance_text(z: int) -> Seq<char> {
    if z >= double::TEN_THOUSAND {
        decimal::scientific_text(decimal::bits_of(z))
    } else {
        decimal::fixed_text(decimal::bits_of(z), 1)
    }
}

/// The share of samples that can lie a distance out, in percent: a hundred over its square.
pub open spec fn tail_text(z: int) -> Seq<char> {
    let square = double::times(z, z);
    let share = if square == 0 { double::TOP as int } else { double::over(double::HUNDRED as int, square) };
    decimal::fixed_text(decimal::bits_of(share), 2)
}

/// A distance in standard deviations.
fn write_distance(z: i128) -> (r: String)
    requires
        double::is_rank(z as int),
    ensures
        r@ == distance_text(z as int),
{
    if z >= double::TEN_THOUSAND {
        decimal::scientific(z as u64)
    } else {
        decimal::fixed_rank(z, 1)
    }
}

/// The share of samples that can lie a distance out.
fn write_tail(z: i128) -> (r: String)
    requires
        double::is_rank(z as int),
    ensures
        r@ == tail_text(z as int),
{
    let square: i128 = double::product(z, z);
    let share: i128 = if square == 0 { double::TOP } else { double::quotient(double::HUNDRED, square) };
    decimal::fixed_rank(share, 2)
}

impl KeyedRule for ExtremeOutlier {
    type Tool = ();

    open spec fn fits(&self, tool: &()) -> bool {
        true
    }

    open spec fn hit(&self, episode: Episode, stream: Stream) -> Option<(Seq<Seq<char>>, FindingView)> {
        match outlier_of(stream, self.z_threshold) {
            Some((s, dim)) => {
                let (value, end) = if maximum_leads(s) { (s.max, "maximum"@) } else { (s.min, "minimum"@) };
                Some(
                    (
                        seq![stream.name@, text::dec(double::size(distance(s)) as nat), decimal::plain_text(value), end, text::dec(dim as nat)],
                        outlier_finding(
                            episode.index,
                            stream.name@,
                            place_text(dim),
                            end,
                            decimal::plain_text(value),
                            distance_text(distance(s)),
                            tail_text(distance(s)),
                        ),
                    ),
                )
            },
            None => None,
        }
    }

    fn probe(&self, tool: &(), episode: &Episode, stream: &Stream) -> (r: Option<(Vec<String>, Finding)>) {
        match find_outlier(stream, self.z_threshold) {
            Some((s, dim)) => {
                let (top, z): (bool, i128) = how_far(s);
                let value: String = decimal::plain(if top { s.max } else { s.min });
                let end: &str = if top { "maximum" } else { "minimum" };
                let mut key: Vec<String> = Vec::new();
                key.push(stream.name.clone());
                key.push(dec_u128(double::size_of(z) as u128));
                key.push(value.clone());
                key.push(String::from_str(end));
                key.push(dec_u64(dim));
                assert(text::texts(key@) =~= seq![
                    stream.name@,
                    text::dec(double::size(z as int) as nat),
                    value@,
                    end@,
                    text::dec(dim as nat),
                ]);
                Some(
                    (
                        key,
                        make_outlier(
                            episode.index,
                            stream.name.as_str(),
                            place(dim).as_str(),
                            end,
                            value.as_str(),
                            write_distance(z).as_str(),
                            write_tail(z).as_str(),
                        ),
                    ),
                )
            },
            None => None,
        }
    }
}

impl Check for ExtremeOutlier {
    open spec fn meta(&self) -> CheckMeta {
        CheckMeta {
            id: OUTLIER_ID@,
            title: "Extreme value outlier"@,
            category: Category::Statistical,
            default_severity: Severity::Warning,
            scope: Scope::Stream,
            version: "1"@,
            finding_codes: seq![OUTLIER_CODE@],
        }
    }

    fn info(&self) -> (r: CheckInfo) {
        let finding_codes: &'static [&'static str] = &[OUTLIER_CODE];
        assert(text::str_texts(finding_codes@) =~= self.meta().finding_codes);
        CheckInfo {
            id: OUTLIER_ID,
            title: "Extreme value outlier",
            category: Category::Statistical,
            default_severity: Severity::Warning,
            scope: Scope::Stream,
            version: "1",
            finding_codes,
        }
    }

    open spec fn report(&self, dataset: &Dataset) -> Seq<FindingView> {
        walk::first_hits(*self, walk::pairs(dataset.episodes@))
    }

    open spec fn report_in(&self, dataset: &Dataset, frames_read: bool, attested: Seq<Seq<char>>) -> Seq<FindingView> {
        self.report(dataset)
    }

    fn run(&self, dataset: &Dataset) -> (r: Vec<Finding>) {
        walk_first_hits(self, &(), dataset)
    }

    fn run_in(&self, dataset: &Dataset, context: &CheckContext) -> (r: Vec<Finding>) {
        self.run(dataset)
    }
}

// ---- whether values were read ----------------------------------------------------------------

/// Streams whose values this run never read — and therefore what the rest of this family could not
/// measure — and streams whose source stores no statistics to compare against. Informational: the
/// difference between "checked and clean" and "never looked" is the whole value of the result.
#[derive(Debug, Clone, Copy)]
pub struct ValueMeasurability;

/// The id of [`ValueMeasurability`].
pub const VALUES_ID: &'static str = "statistical.value-measurability";

/// The code of streams without any statistics.
pub const UNMEASURED_CODE: &'static str = "STATISTICAL.UNMEASURED_VALUES";

/// The code of streams without stored statistics.
pub const NO_STORED_CODE: &'static str = "STATISTICAL.NO_STORED_STATS";

pub const UNMEASURED_RISK: &'static str = "Nothing in this run can tell you whether these streams \
     hold a saturated actuator, a NaN, a stuck sensor, or a unit error. A clean statistical \
     result here is the absence of a measurement, not evidence of good values.";

pub const UNMEASURED_REMEDY: &'static str = "Treat the statistical result as unverified for these \
     streams. If value integrity matters, check them in a format whose values Veridex reads \
     (LeRobot, HDF5, Zarr, CAN+DBC, MF4).";

/// The finding for streams without any statistics.
pub open spec fn unmeasured_finding(count: nat, names: Seq<char>) -> FindingView {
    check::finding(
        VALUES_ID@,
        Category::Statistical,
        Severity::Info,
        LocationView::Dataset,
        UNMEASURED_CODE@,
        text::dec(count)
            + " stream(s) carry neither stored nor recomputed statistics, so the saturation, outlier, non-finite, stored-vs-observed and range-sanity checks had nothing to measure on them ("@
            + names + ")"@,
        UNMEASURED_RISK@,
        UNMEASURED_REMEDY@,
    )
}

/// The finding for streams without any statistics.
fn make_unmeasured(count: usize, names: &str) -> (r: Finding)
    ensures
        r@ == unmeasured_finding(count as nat, names@),
{
    let message: String = cat4(
        dec_usize(count).as_str(),
        " stream(s) carry neither stored nor recomputed statistics, so the saturation, outlier, non-finite, stored-vs-observed and range-sanity checks had nothing to measure on them (",
        names,
        ")",
    );
    Finding::new(VALUES_ID, Category::Statistical, Severity::Info, Location::Dataset, UNMEASURED_CODE, message).with_risk(
        UNMEASURED_RISK,
    ).with_remedy(UNMEASURED_REMEDY)
}

pub const NO_STORED_RISK: &'static str = "The recomputed statistics still catch bad values, but \
     nothing here can tell you whether the summary statistics the source publishes agree with its \
     own data — the mismatch that silently mis-normalizes training.";

pub const NO_STORED_REMEDY: &'static str = "Export the source's summary statistics alongside the \
     data if downstream tooling relies on them.";

/// The finding for streams without stored statistics.
pub open spec fn no_stored_finding(count: nat, names: Seq<char>) -> FindingView {
    check::finding(
        VALUES_ID@,
        Category::Statistical,
        Severity::Info,
        LocationView::Dataset,
        NO_STORED_CODE@,
        text::dec(count)
            + " stream(s) carry recomputed statistics but none stored by the source, so the stored-vs-observed comparison and the stored-range sanity rules had nothing to compare against ("@
            + names + ")"@,
        NO_STORED_RISK@,
        NO_STORED_REMEDY@,
    )
}

/// The finding for streams without stored statistics.
fn make_no_stored(count: usize, names: &str) -> (r: Finding)
    ensures
        r@ == no_stored_finding(count as nat, names@),
{
    let message: String = cat4(
        dec_usize(count).as_str(),
        " stream(s) carry recomputed statistics but none stored by the source, so the stored-vs-observed comparison and the stored-range sanity rules had nothing to compare against (",
        names,
        ")",
    );
    Finding::new(VALUES_ID, Category::Statistical, Severity::Info, Location::Dataset, NO_STORED_CODE, message).with_risk(
        NO_STORED_RISK,
    ).with_remedy(NO_STORED_REMEDY)
}

/// Whether a stream's values were read.
pub open spec fn is_recomputed(s: Stream) -> bool {
    s.observed_stats is Some || s.observed_saturation is Some || s.observed_non_finite is Some
        || s.observed_dim_stats is Some
}

/// Whether a stream carries stored statistics.
pub open spec fn is_stored(s: Stream) -> bool {
    s.stats is Some || s.dim_stats is Some
}

/// The names of the streams without stored statistics whose values were read, or were not.
pub open spec fn unstored_names(s: Seq<(Episode, Stream)>, recomputed: bool) -> Seq<Seq<char>>
    decreases s.len(),
{
    if s.len() == 0 {
        Seq::empty()
    } else {
        let rest = unstored_names(s.drop_last(), recomputed);
        if !is_stored(s.last().1) && is_recomputed(s.last().1) == recomputed {
            rest.push(s.last().1.name@)
        } else {
            rest
        }
    }
}

/// What is reported of streams without any statistics.
pub open spec fn unmeasured_findings(names: Seq<Seq<char>>) -> Seq<FindingView> {
    if names.len() > 0 { seq![unmeasured_finding(names.len(), lists::a_few(names))] } else { Seq::empty() }
}

/// What is reported of streams without stored statistics.
pub open spec fn no_stored_findings(names: Seq<Seq<char>>) -> Seq<FindingView> {
    if names.len() > 0 { seq![no_stored_finding(names.len(), lists::a_few(names))] } else { Seq::empty() }
}

impl ValueMeasurability {
    /// What the check reports.
    pub open spec fn outcome(dataset: &Dataset) -> Seq<FindingView> {
        let s = walk::pairs(dataset.episodes@);
        unmeasured_findings(seqs::text_set(unstored_names(s, false))) + no_stored_findings(
            seqs::text_set(unstored_names(s, true)),
        )
    }

    /// Collects the names of the streams without stored statistics.
    fn collect(dataset: &Dataset) -> (r: (Vec<String>, Vec<String>))
        ensures
            text::texts(r.0@) == seqs::text_set(unstored_names(walk::pairs(dataset.episodes@), false)),
            text::texts(r.1@) == seqs::text_set(unstored_names(walk::pairs(dataset.episodes@), true)),
    {
        let ghost eps = dataset.episodes@;
        let mut unread: Vec<String> = Vec::new();
        let mut no_stored: Vec<String> = Vec::new();
        let mut i: usize = 0;
        proof {
            assert(walk::pairs(eps.take(0)) =~= Seq::empty());
            assert(text::texts(unread@) =~= Seq::empty());
            assert(text::texts(no_stored@) =~= Seq::empty());
        }
        while i < dataset.episodes.len()
            invariant
                i <= eps.len(),
                eps == dataset.episodes@,
                text::texts(unread@) == seqs::text_set(unstored_names(walk::pairs(eps.take(i as int)), false)),
                text::texts(no_stored@) == seqs::text_set(unstored_names(walk::pairs(eps.take(i as int)), true)),
            decreases eps.len() - i,
        {
            let episode: &Episode = &dataset.episodes[i];
            proof {
                walk::lemma_pairs_next(eps, i as int);
            }
            let mut j: usize = 0;
            while j < episode.streams.len()
                invariant
                    i < eps.len(),
                    *episode == eps[i as int],
                    j <= episode.streams@.len(),
                    text::texts(unread@) == seqs::text_set(
                        unstored_names(walk::pairs_before(eps, i as int, j as int), false),
                    ),
                    text::texts(no_stored@) == seqs::text_set(
                        unstored_names(walk::pairs_before(eps, i as int, j as int), true),
                    ),
                decreases episode.streams@.len() - j,
            {
                let s: &Stream = &episode.streams[j];
                proof {
                    let was = walk::pairs_before(eps, i as int, j as int);
                    walk::lemma_pairs_step(eps, i as int, j as int);
                    assert(was.push((*episode, *s)).drop_last() =~= was);
                    seqs::lemma_distinct_step(unstored_names(was, false), seqs::text_order(), s.name@);
                    seqs::lemma_distinct_step(unstored_names(was, true), seqs::text_order(), s.name@);
                }
                if s.stats.is_none() && s.dim_stats.is_none() {
                    if s.observed_stats.is_some() || s.observed_saturation.is_some() || s.observed_non_finite.is_some()
                        || s.observed_dim_stats.is_some() {
                        let _new: bool = put_text(&mut no_stored, s.name.as_str());
                    } else {
                        let _new: bool = put_text(&mut unread, s.name.as_str());
                    }
                }
                j = j + 1;
            }
            i = i + 1;
        }
        assert(eps.take(i as int) =~= eps);
        (unread, no_stored)
    }

    /// Reports what was never measured.
    pub fn evaluate(&self, dataset: &Dataset) -> (r: Vec<Finding>)
        ensures
            check::views(r@) == Self::outcome(dataset),
    {
        broadcast use check::group_views;

        let (unread, no_stored): (Vec<String>, Vec<String>) = Self::collect(dataset);
        assert(text::texts(unread@).len() == unread@.len());
        assert(text::texts(no_stored@).len() == no_stored@.len());
        let mut out: Vec<Finding> = if unread.len() > 0 {
            one(make_unmeasured(unread.len(), list_a_few(&unread).as_str()))
        } else {
            none()
        };
        let mut more: Vec<Finding> = if no_stored.len() > 0 {
            one(make_no_stored(no_stored.len(), list_a_few(&no_stored).as_str()))
        } else {
            none()
        };
        out.append(&mut more);
        out
    }
}

impl Check for ValueMeasurability {
    open spec fn meta(&self) -> CheckMeta {
        CheckMeta {
            id: VALUES_ID@,
            title: "Values were read at all"@,
            category: Category::Statistical,
            default_severity: Severity::Info,
            scope: Scope::Dataset,
            version: "1"@,
            finding_codes: seq![UNMEASURED_CODE@, NO_STORED_CODE@],
        }
    }

    fn info(&self) -> (r: CheckInfo) {
        let finding_codes: &'static [&'static str] = &[UNMEASURED_CODE, NO_STORED_CODE];
        assert(text::str_texts(finding_codes@) =~= self.meta().finding_codes);
        CheckInfo {
            id: VALUES_ID,
            title: "Values were read at all",
            category: Category::Statistical,
            default_severity: Severity::Info,
            scope: Scope::Dataset,
            version: "1",
            finding_codes,
        }
    }

    open spec fn report(&self, dataset: &Dataset) -> Seq<FindingView> {
        Self::outcome(dataset)
    }

    open spec fn report_in(&self, dataset: &Dataset, frames_read: bool, attested: Seq<Seq<char>>) -> Seq<FindingView> {
        self.report(dataset)
    }

    fn run(&self, dataset: &Dataset) -> (r: Vec<Finding>) {
        self.evaluate(dataset)
    }

    fn run_in(&self, dataset: &Dataset, context: &CheckContext) -> (r: Vec<Finding>) {
        self.run(dataset)
    }
}

} // verus!
