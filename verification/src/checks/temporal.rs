//! Temporal checks: per-stream timeline health and the headline cross-stream clock-skew check.

use vstd::prelude::*;
use vstd::string::*;

use crate::cat::{cat2, cat3, cat7, cat10, cat11, cat12, cat17};
use crate::cdm::{Dataset, Episode, Frame, Stream};
use crate::check;
use crate::check::{none, one, Category, Check, CheckContext, CheckInfo, CheckMeta, Finding, FindingView, Location, LocationView, Scope, Severity};
use crate::checks::autonomy;
use crate::checks::autonomy::is_rig_episode;
use crate::checks::lists;
use crate::checks::lists::list_a_few;
use crate::checks::timeline;
use crate::checks::walk;
use crate::checks::walk::{walk_episodes, walk_streams, EpisodeRule, StreamRule};
use crate::decimal;
use crate::deviation;
use crate::double;
use crate::number;
use crate::seqs;
use crate::seqs::put_text;
use crate::sort::sort_numbers;
use crate::text;
use crate::text::{before, same, dec_i64, dec_u64, dec_usize};

verus! {

broadcast use text::lemma_texts_push;

// ---- shared timelines ------------------------------------------------------------------------

/// The timestamps of frames.
pub open spec fn stamps(frames: Seq<Frame>) -> Seq<i64> {
    frames.map_values(|f: Frame| f.ts)
}

/// How many streams share a timeline.
pub open spec fn sharing(streams: Seq<Stream>, line: Seq<i64>) -> nat
    decreases streams.len(),
{
    if streams.len() == 0 {
        0
    } else {
        sharing(streams.drop_last(), line) + (if stamps(streams.last().frames@) == line { 1nat } else { 0 })
    }
}

/// Whether a stream reports for all that share its timeline: no other of them has a lesser name.
/// Several streams in one episode routinely share a timeline, and their timing is one fact.
pub open spec fn is_representative(streams: Seq<Stream>, stream: Stream) -> bool {
    forall|i: int|
        0 <= i < streams.len() && stamps((#[trigger] streams[i]).frames@) == stamps(stream.frames@) ==> !text::str_lt(
            streams[i].name@,
            stream.name@,
        )
}

/// The suffix naming the other streams a finding also covers, empty when the timeline is unique.
pub open spec fn shared_text(shared: nat) -> Seq<char> {
    if shared > 1 {
        " (and "@ + text::dec((shared - 1) as nat) + " other stream(s) on the same timeline)"@
    } else {
        ""@
    }
}

/// What is added to a finding on a stream's timeline.
pub open spec fn shared_by(episode: Episode, stream: Stream) -> Seq<char> {
    shared_text(sharing(episode.streams@, stamps(stream.frames@)))
}

/// Whether two streams share a timeline.
fn same_timeline(a: &Stream, b: &Stream) -> (r: bool)
    ensures
        r == (stamps(a.frames@) == stamps(b.frames@)),
{
    let ghost (x, y) = (stamps(a.frames@), stamps(b.frames@));
    if a.frames.len() != b.frames.len() {
        assert(x.len() != y.len());
        return false;
    }
    let mut i: usize = 0;
    while i < a.frames.len()
        invariant
            i <= a.frames@.len(),
            a.frames@.len() == b.frames@.len(),
            x == stamps(a.frames@),
            y == stamps(b.frames@),
            forall|k: int| 0 <= k < i ==> x[k] == y[k],
        decreases a.frames@.len() - i,
    {
        assert(x[i as int] == a.frames@[i as int].ts);
        assert(y[i as int] == b.frames@[i as int].ts);
        if a.frames[i].ts != b.frames[i].ts {
            return false;
        }
        i = i + 1;
    }
    assert(x =~= y);
    true
}

/// Whether a stream reports for all that share its timeline, and the suffix naming the others.
fn timeline_group(ep: &Episode, stream: &Stream) -> (r: (bool, String))
    ensures
        r.0 == is_representative(ep.streams@, *stream),
        r.1@ == shared_by(*ep, *stream),
{
    let ghost s = ep.streams@;
    let ghost line = stamps(stream.frames@);
    let mut first: bool = true;
    let mut count: usize = 0;
    let mut i: usize = 0;
    while i < ep.streams.len()
        invariant
            i <= s.len(),
            s == ep.streams@,
            line == stamps(stream.frames@),
            count <= i,
            count as nat == sharing(s.take(i as int), line),
            first <==> forall|k: int|
                0 <= k < i && stamps((#[trigger] s[k]).frames@) == line ==> !text::str_lt(s[k].name@, stream.name@),
        decreases s.len() - i,
    {
        assert(s.take(i + 1).drop_last() =~= s.take(i as int));
        if same_timeline(&ep.streams[i], stream) {
            count = count + 1;
            if before(ep.streams[i].name.as_str(), stream.name.as_str()) {
                assert(stamps(s[i as int].frames@) == line);
                first = false;
            }
        }
        i = i + 1;
    }
    assert(s.take(i as int) =~= s);
    let suffix: String = if count > 1 {
        cat3(" (and ", dec_usize(count - 1).as_str(), " other stream(s) on the same timeline)")
    } else {
        String::from_str("")
    };
    (first, suffix)
}

/// Whether a stream's own timeline is judged: its time is measured, and it reports for its timeline.
pub open spec fn is_judged(episode: Episode, stream: Stream) -> bool {
    stream.clock_kind is Measured && is_representative(episode.streams@, stream)
}

// ---- monotonicity ----------------------------------------------------------------------------

/// Timestamp monotonicity: within a stream, timestamps must strictly increase. A decrease or repeat
/// means frames are out of order or duplicated. One finding per stream is enough to locate the fault.
#[derive(Debug, Clone, Copy)]
pub struct Monotonicity;

/// The id of [`Monotonicity`].
pub const MONOTONICITY_ID: &'static str = "temporal.monotonicity";

/// The code of its findings.
pub const NON_MONOTONIC_CODE: &'static str = "TEMPORAL.NON_MONOTONIC";

pub const NON_MONOTONIC_RISK: &'static str = "Out-of-order or duplicated frames corrupt trajectory \
     ordering and any windowed learning.";

pub const NON_MONOTONIC_REMEDY: &'static str = "Re-sort or de-duplicate the stream by timestamp at \
     the source.";

/// The finding for a timestamp that does not increase.
pub open spec fn non_monotonic_finding(
    episode: u64,
    name: Seq<char>,
    start_frame: u64,
    end_frame: u64,
    prev: i64,
    cur: i64,
    shared: Seq<char>,
) -> FindingView {
    check::finding(
        MONOTONICITY_ID@,
        Category::Temporal,
        Severity::Error,
        LocationView::FrameRange { episode, stream: name, start_frame, end_frame },
        NON_MONOTONIC_CODE@,
        "stream `"@ + name + "` in episode "@ + text::dec(episode as nat)
            + ": timestamp does not increase at frame "@ + text::dec(end_frame as nat) + " ("@
            + text::int_text(prev as int) + " -> "@ + text::int_text(cur as int) + ")"@ + shared,
        NON_MONOTONIC_RISK@,
        NON_MONOTONIC_REMEDY@,
    )
}

/// The finding for a timestamp that does not increase.
fn make_non_monotonic(
    episode: u64,
    name: &str,
    start_frame: u64,
    end_frame: u64,
    prev: i64,
    cur: i64,
    shared: &str,
) -> (r: Finding)
    ensures
        r@ == non_monotonic_finding(episode, name@, start_frame, end_frame, prev, cur, shared@),
{
    let message: String = cat12(
        "stream `",
        name,
        "` in episode ",
        dec_u64(episode).as_str(),
        ": timestamp does not increase at frame ",
        dec_u64(end_frame).as_str(),
        " (",
        dec_i64(prev).as_str(),
        " -> ",
        dec_i64(cur).as_str(),
        ")",
        shared,
    );
    Finding::new(MONOTONICITY_ID, Category::Temporal, Severity::Error, Location::FrameRange { episode, stream: String::from_str(name), start_frame, end_frame }, NON_MONOTONIC_CODE, message).with_risk(
        NON_MONOTONIC_RISK,
    ).with_remedy(NON_MONOTONIC_REMEDY)
}

/// The first frame, from `i` on, whose timestamp does not exceed the one before it.
pub open spec fn first_setback(frames: Seq<Frame>, i: int) -> Option<int>
    decreases frames.len() - i,
{
    if i < 1 || i >= frames.len() {
        None
    } else if frames[i].ts <= frames[i - 1].ts {
        Some(i)
    } else {
        first_setback(frames, i + 1)
    }
}

impl StreamRule for Monotonicity {
    open spec fn of_stream(&self, episode: Episode, stream: Stream) -> Seq<FindingView> {
        match first_setback(stream.frames@, 1) {
            Some(i) => if is_judged(episode, stream) {
                seq![
                    non_monotonic_finding(
                        episode.index,
                        stream.name@,
                        (i - 1) as u64,
                        i as u64,
                        stream.frames@[i - 1].ts,
                        stream.frames@[i].ts,
                        shared_by(episode, stream),
                    ),
                ]
            } else {
                Seq::empty()
            },
            None => Seq::empty(),
        }
    }

    fn check_stream(&self, episode: &Episode, stream: &Stream) -> (r: Vec<Finding>) {
        if !stream.has_measured_time() {
            return none();
        }
        let mut i: usize = 1;
        while i < stream.frames.len()
            invariant
                1 <= i,
                stream.clock_kind is Measured,
                first_setback(stream.frames@, 1) == first_setback(stream.frames@, i as int),
            decreases stream.frames@.len() - i,
        {
            let (prev, cur): (i64, i64) = (stream.frames[i - 1].ts, stream.frames[i].ts);
            if cur <= prev {
                let (first, shared): (bool, String) = timeline_group(episode, stream);
                return if first {
                    one(
                        make_non_monotonic(
                            episode.index,
                            stream.name.as_str(),
                            (i - 1) as u64,
                            i as u64,
                            prev,
                            cur,
                            shared.as_str(),
                        ),
                    )
                } else {
                    none()
                };
            }
            i = i + 1;
        }
        none()
    }
}

impl Check for Monotonicity {
    open spec fn meta(&self) -> CheckMeta {
        CheckMeta {
            id: MONOTONICITY_ID@,
            title: "Timestamp monotonicity"@,
            category: Category::Temporal,
            default_severity: Severity::Error,
            scope: Scope::Stream,
            version: "1"@,
            finding_codes: seq![NON_MONOTONIC_CODE@],
        }
    }

    fn info(&self) -> (r: CheckInfo) {
        let finding_codes: &'static [&'static str] = &[NON_MONOTONIC_CODE];
        assert(text::str_texts(finding_codes@) =~= self.meta().finding_codes);
        CheckInfo {
            id: MONOTONICITY_ID,
            title: "Timestamp monotonicity",
            category: Category::Temporal,
            default_severity: Severity::Error,
            scope: Scope::Stream,
            version: "1",
            finding_codes,
        }
    }

    open spec fn report(&self, dataset: &Dataset) -> Seq<FindingView> {
        walk::by_streams(*self, dataset.episodes@)
    }

    open spec fn report_in(&self, dataset: &Dataset, frames_read: bool, attested: Seq<Seq<char>>) -> Seq<FindingView> {
        self.report(dataset)
    }

    fn run(&self, dataset: &Dataset) -> (r: Vec<Finding>) {
        walk_streams(self, dataset)
    }

    fn run_in(&self, dataset: &Dataset, context: &CheckContext) -> (r: Vec<Finding>) {
        self.run(dataset)
    }
}

// ---- declared rates --------------------------------------------------------------------------

/// Rate conformance: when a stream declares a sample rate, the observed mean rate must match it
/// within a relative tolerance.
#[derive(Debug)]
pub struct RateConformance {
    /// Allowed relative deviation.
    pub relative_tolerance: u64,
}

/// The double 0.1.
pub const TENTH: u64 = 0x3fb9_9999_9999_999a;

impl Default for RateConformance {
    /// A tenth.
    fn default() -> (r: Self)
        ensures
            r.relative_tolerance == TENTH,
    {
        RateConformance { relative_tolerance: TENTH }
    }
}

/// The id of [`RateConformance`].
pub const RATE_ID: &'static str = "temporal.rate-conformance";

/// The code of its findings.
pub const RATE_CODE: &'static str = "TEMPORAL.RATE";

pub const RATE_RISK: &'static str = "A rate mismatch means the declared timing is wrong; downstream \
     resampling and sync assumptions break.";

pub const RATE_REMEDY: &'static str = "Correct the declared rate or investigate dropped/duplicated \
     frames.";

/// The finding for a rate that is off.
pub open spec fn rate_finding(
    episode: u64,
    name: Seq<char>,
    observed: Seq<char>,
    declared: Seq<char>,
    percent: Seq<char>,
) -> FindingView {
    check::finding(
        RATE_ID@,
        Category::Temporal,
        Severity::Warning,
        LocationView::Stream { episode, stream: name },
        RATE_CODE@,
        "stream `"@ + name + "` in episode "@ + text::dec(episode as nat) + ": observed "@ + observed
            + " Hz vs declared "@ + declared + " Hz ("@ + percent + "% off)"@,
        RATE_RISK@,
        RATE_REMEDY@,
    )
}

/// The finding for a rate that is off.
fn make_rate(episode: u64, name: &str, observed: &str, declared: &str, percent: &str) -> (r: Finding)
    ensures
        r@ == rate_finding(episode, name@, observed@, declared@, percent@),
{
    let message: String = cat11(
        "stream `",
        name,
        "` in episode ",
        dec_u64(episode).as_str(),
        ": observed ",
        observed,
        " Hz vs declared ",
        declared,
        " Hz (",
        percent,
        "% off)",
    );
    Finding::new(RATE_ID, Category::Temporal, Severity::Warning, Location::Stream { episode, stream: String::from_str(name) }, RATE_CODE, message).with_risk(
        RATE_RISK,
    ).with_remedy(RATE_REMEDY)
}

/// The seconds that a count of nanoseconds is.
pub open spec fn seconds_of(ns: int) -> int {
    double::over(double::whole(ns), double::BILLION as int)
}

/// The mean rate of a stream, in hertz: the frames after the first over the seconds that they span.
pub open spec fn mean_rate(stream: Stream) -> int {
    double::over(
        double::minus(double::whole(stream.frames@.len() as int), double::ONE as int),
        seconds_of(timeline::span(stream.frames@)),
    )
}

/// Whether a stream's observed rate is off the declared one by more than a tolerance: the stream's
/// clock measures time, it declares a positive rate, and its frames span some time.
pub open spec fn rate_is_off(stream: Stream, tolerance: u64) -> bool {
    &&& stream.clock_kind is Measured
    &&& has_rate(stream)
    &&& stream.frames@.len() >= 2
    &&& seconds_of(timeline::span(stream.frames@)) > 0
    &&& deviation::is_off(mean_rate(stream), stream.declared_rate_hz->0 as int, tolerance)
}

impl StreamRule for RateConformance {
    open spec fn of_stream(&self, episode: Episode, stream: Stream) -> Seq<FindingView> {
        if rate_is_off(stream, self.relative_tolerance) {
            seq![
                rate_finding(
                    episode.index,
                    stream.name@,
                    decimal::fixed_text(decimal::bits_of(mean_rate(stream)), 3),
                    decimal::fixed_text(stream.declared_rate_hz->0, 3),
                    deviation::percent_text(mean_rate(stream), stream.declared_rate_hz->0 as int),
                ),
            ]
        } else {
            Seq::empty()
        }
    }

    fn check_stream(&self, episode: &Episode, stream: &Stream) -> (r: Vec<Finding>) {
        if !stream.has_measured_time() || stream.frames.len() < 2 {
            return none();
        }
        let span: i64 = match timeline::span_bounds(stream) {
            Some((lo, hi)) => timeline::gap_of(lo, hi),
            None => 0,
        };
        let seconds: i128 = double::quotient(double::to_whole(span as i128), double::BILLION);
        if seconds <= 0 {
            return none();
        }
        let count: i128 = double::difference(double::to_whole(stream.frames.len() as i128), double::ONE);
        let observed: i128 = double::quotient(count, seconds);
        match &stream.declared_rate_hz {
            Some(rate) => if number::positive_finite(*rate) && deviation::off(
                observed,
                *rate as i128,
                self.relative_tolerance,
            ) {
                one(
                    make_rate(
                        episode.index,
                        stream.name.as_str(),
                        decimal::fixed_rank(observed, 3).as_str(),
                        decimal::fixed(*rate, 3).as_str(),
                        deviation::percent(observed, *rate as i128).as_str(),
                    ),
                )
            } else {
                none()
            },
            None => none(),
        }
    }
}

impl Check for RateConformance {
    open spec fn meta(&self) -> CheckMeta {
        CheckMeta {
            id: RATE_ID@,
            title: "Declared-rate conformance"@,
            category: Category::Temporal,
            default_severity: Severity::Warning,
            scope: Scope::Stream,
            version: "1"@,
            finding_codes: seq![RATE_CODE@],
        }
    }

    fn info(&self) -> (r: CheckInfo) {
        let finding_codes: &'static [&'static str] = &[RATE_CODE];
        assert(text::str_texts(finding_codes@) =~= self.meta().finding_codes);
        CheckInfo {
            id: RATE_ID,
            title: "Declared-rate conformance",
            category: Category::Temporal,
            default_severity: Severity::Warning,
            scope: Scope::Stream,
            version: "1",
            finding_codes,
        }
    }

    open spec fn report(&self, dataset: &Dataset) -> Seq<FindingView> {
        walk::by_streams(*self, dataset.episodes@)
    }

    open spec fn report_in(&self, dataset: &Dataset, frames_read: bool, attested: Seq<Seq<char>>) -> Seq<FindingView> {
        self.report(dataset)
    }

    fn run(&self, dataset: &Dataset) -> (r: Vec<Finding>) {
        walk_streams(self, dataset)
    }

    fn run_in(&self, dataset: &Dataset, context: &CheckContext) -> (r: Vec<Finding>) {
        self.run(dataset)
    }
}

/// Declared-rate validity. A source that states a sampling rate must state a *usable* one: a
/// positive, finite number. [`RateConformance`] and [`Gaps`] both *skip* a stream with another, so
/// without this check a nonsensical declared rate passes silently.
#[derive(Debug, Clone, Copy)]
pub struct RateValidity;

/// The id of [`RateValidity`].
pub const RATE_VALIDITY_ID: &'static str = "temporal.rate-validity";

/// The code of its findings.
pub const INVALID_RATE_CODE: &'static str = "TEMPORAL.INVALID_RATE";

pub const INVALID_RATE_RISK: &'static str = "A corrupt declared rate is silently ignored by the rate \
     and gap checks, so the timing metadata downstream tools rely on is wrong and unverified.";

pub const INVALID_RATE_REMEDY: &'static str = "Correct the declared sampling rate at the source, or \
     omit it so the observed rate is used.";

/// The finding for a rate that is no rate.
pub open spec fn invalid_rate_finding(episode: u64, name: Seq<char>, declared: Seq<char>) -> FindingView {
    check::finding(
        RATE_VALIDITY_ID@,
        Category::Temporal,
        Severity::Error,
        LocationView::Stream { episode, stream: name },
        INVALID_RATE_CODE@,
        "stream `"@ + name + "` in episode "@ + text::dec(episode as nat) + ": declared rate "@
            + declared + " Hz is not a positive, finite number"@,
        INVALID_RATE_RISK@,
        INVALID_RATE_REMEDY@,
    )
}

/// The finding for a rate that is no rate.
fn make_invalid_rate(episode: u64, name: &str, declared: &str) -> (r: Finding)
    ensures
        r@ == invalid_rate_finding(episode, name@, declared@),
{
    let message: String = cat7(
        "stream `",
        name,
        "` in episode ",
        dec_u64(episode).as_str(),
        ": declared rate ",
        declared,
        " Hz is not a positive, finite number",
    );
    Finding::new(RATE_VALIDITY_ID, Category::Temporal, Severity::Error, Location::Stream { episode, stream: String::from_str(name) }, INVALID_RATE_CODE, message).with_risk(
        INVALID_RATE_RISK,
    ).with_remedy(INVALID_RATE_REMEDY)
}

impl StreamRule for RateValidity {
    open spec fn of_stream(&self, episode: Episode, stream: Stream) -> Seq<FindingView> {
        match stream.declared_rate_hz {
            Some(rate) => if number::is_positive_finite(rate) {
                Seq::empty()
            } else {
                seq![invalid_rate_finding(episode.index, stream.name@, decimal::plain_text(rate))]
            },
            None => Seq::empty(),
        }
    }

    fn check_stream(&self, episode: &Episode, stream: &Stream) -> (r: Vec<Finding>) {
        match &stream.declared_rate_hz {
            Some(rate) => if number::positive_finite(*rate) {
                none()
            } else {
                one(make_invalid_rate(episode.index, stream.name.as_str(), decimal::plain(*rate).as_str()))
            },
            None => none(),
        }
    }
}

impl Check for RateValidity {
    open spec fn meta(&self) -> CheckMeta {
        CheckMeta {
            id: RATE_VALIDITY_ID@,
            title: "Declared-rate validity"@,
            category: Category::Temporal,
            default_severity: Severity::Error,
            scope: Scope::Stream,
            version: "1"@,
            finding_codes: seq![INVALID_RATE_CODE@],
        }
    }

    fn info(&self) -> (r: CheckInfo) {
        let finding_codes: &'static [&'static str] = &[INVALID_RATE_CODE];
        assert(text::str_texts(finding_codes@) =~= self.meta().finding_codes);
        CheckInfo {
            id: RATE_VALIDITY_ID,
            title: "Declared-rate validity",
            category: Category::Temporal,
            default_severity: Severity::Error,
            scope: Scope::Stream,
            version: "1",
            finding_codes,
        }
    }

    open spec fn report(&self, dataset: &Dataset) -> Seq<FindingView> {
        walk::by_streams(*self, dataset.episodes@)
    }

    open spec fn report_in(&self, dataset: &Dataset, frames_read: bool, attested: Seq<Seq<char>>) -> Seq<FindingView> {
        self.report(dataset)
    }

    fn run(&self, dataset: &Dataset) -> (r: Vec<Finding>) {
        walk_streams(self, dataset)
    }

    fn run_in(&self, dataset: &Dataset, context: &CheckContext) -> (r: Vec<Finding>) {
        self.run(dataset)
    }
}

/// Cross-episode **declared-rate consistency**. A stream that declares one sampling rate in some
/// episodes and a materially different rate in others means the dataset pools differently-configured
/// sources, or the rate metadata is wrong. The first usable rate declared for a stream name is the
/// baseline the rest are compared to, and each name is reported once.
#[derive(Debug, Clone, Copy)]
pub struct RateConsistency;

/// The id of [`RateConsistency`].
pub const RATE_CONSISTENCY_ID: &'static str = "temporal.rate-consistency";

/// The code of its findings.
pub const RATE_INCONSISTENT_CODE: &'static str = "TEMPORAL.RATE_INCONSISTENT";

pub const INCONSISTENT_RISK: &'static str = "A stream whose declared sampling rate changes between \
     episodes means the dataset pools differently-configured sources (or the rate metadata is \
     wrong); a global fixed-rate assumption and any resampling will be wrong for part of the \
     data.";

pub const INCONSISTENT_REMEDY: &'static str = "Confirm every episode of this stream was recorded at \
     one rate; re-export or split the mismatched episodes, or correct the declared rate.";

/// The finding for a rate that departs from the first.
pub open spec fn inconsistent_finding(
    episode: u64,
    name: Seq<char>,
    base: Seq<char>,
    base_episode: u64,
    here: Seq<char>,
) -> FindingView {
    check::finding(
        RATE_CONSISTENCY_ID@,
        Category::Temporal,
        Severity::Warning,
        LocationView::Stream { episode, stream: name },
        RATE_INCONSISTENT_CODE@,
        "stream `"@ + name + "` declares "@ + base + " Hz in episode "@ + text::dec(base_episode as nat)
            + " but "@ + here + " Hz in episode "@ + text::dec(episode as nat),
        INCONSISTENT_RISK@,
        INCONSISTENT_REMEDY@,
    )
}

/// The finding for a rate that departs from the first.
fn make_inconsistent(episode: u64, name: &str, base: &str, base_episode: u64, here: &str) -> (r: Finding)
    ensures
        r@ == inconsistent_finding(episode, name@, base@, base_episode, here@),
{
    let message: String = cat10(
        "stream `",
        name,
        "` declares ",
        base,
        " Hz in episode ",
        dec_u64(base_episode).as_str(),
        " but ",
        here,
        " Hz in episode ",
        dec_u64(episode).as_str(),
    );
    Finding::new(RATE_CONSISTENCY_ID, Category::Temporal, Severity::Warning, Location::Stream { episode, stream: String::from_str(name) }, RATE_INCONSISTENT_CODE, message).with_risk(
        INCONSISTENT_RISK,
    ).with_remedy(INCONSISTENT_REMEDY)
}

/// Whether a stream declares a usable rate.
pub open spec fn has_rate(stream: Stream) -> bool {
    match stream.declared_rate_hz {
        Some(rate) => number::is_positive_finite(rate),
        None => false,
    }
}

/// The first usable rate that streams of a name declare, how it is written, and the episode that
/// declares it.
pub open spec fn first_rate(s: Seq<(Episode, Stream)>, name: Seq<char>) -> Option<(u64, u64)>
    decreases s.len(),
{
    if s.len() == 0 {
        None
    } else {
        match first_rate(s.drop_last(), name) {
            Some(base) => Some(base),
            None => if s.last().1.name@ == name && has_rate(s.last().1) {
                let rate = s.last().1.declared_rate_hz->0;
                Some((rate, s.last().0.index))
            } else {
                None
            },
        }
    }
}

/// Whether a stream's rate departs from the first of its name, where there is one, by more than a
/// hundredth of that. Declared rates are metadata and usually exact, so this only absorbs noise; a rate
/// that changed is far larger.
pub open spec fn rate_departs(s: Seq<(Episode, Stream)>, stream: Stream) -> bool {
    has_rate(stream) && (first_rate(s, stream.name@) matches Some((base, _)) && deviation::is_beyond(
        stream.declared_rate_hz->0 as int,
        base as int,
        double::HUNDREDTH as int,
    ))
}

/// Whether some stream of a name departed.
pub open spec fn has_departed(s: Seq<(Episode, Stream)>, name: Seq<char>) -> bool
    decreases s.len(),
{
    s.len() > 0 && (has_departed(s.drop_last(), name) || (s.last().1.name@ == name && rate_departs(
        s.drop_last(),
        s.last().1,
    )))
}

/// What is reported of some streams: the first departure of each name.
pub open spec fn rate_findings(s: Seq<(Episode, Stream)>) -> Seq<FindingView>
    decreases s.len(),
{
    if s.len() == 0 {
        Seq::empty()
    } else {
        let rest = s.drop_last();
        let (episode, stream) = s.last();
        if rate_departs(rest, stream) && !has_departed(rest, stream.name@) {
            let (base, at) = first_rate(rest, stream.name@)->0;
            rate_findings(rest).push(
                inconsistent_finding(
                    episode.index,
                    stream.name@,
                    decimal::fixed_text(base, 3),
                    at,
                    decimal::fixed_text(stream.declared_rate_hz->0, 3),
                ),
            )
        } else {
            rate_findings(rest)
        }
    }
}

/// The first usable rate of a name.
struct RateBaseline {
    /// The stream's name.
    name: String,
    /// The rate.
    bits: u64,
    /// The episode that declares it.
    episode: u64,
    /// Whether a departure was reported.
    reported: bool,
}

/// Whether a table holds the first rates of the names that declare one.
spec fn rates_known(table: Seq<RateBaseline>, s: Seq<(Episode, Stream)>) -> bool {
    &&& forall|i: int|
        0 <= i < table.len() ==> first_rate(s, (#[trigger] table[i]).name@) == Some(
            (table[i].bits, table[i].episode),
        ) && table[i].bits < number::INFINITY && table[i].reported == has_departed(s, table[i].name@)
    &&& forall|i: int, j: int| 0 <= i < j < table.len() ==> (#[trigger] table[i]).name@ != (#[trigger] table[j]).name@
    &&& forall|name: Seq<char>|
        (forall|i: int| 0 <= i < table.len() ==> (#[trigger] table[i]).name@ != name) ==> #[trigger] first_rate(s, name) is None
            && !has_departed(s, name)
}

/// Holds one stream's rate against a table of first rates.
fn hold_rate(
    table: &mut Vec<RateBaseline>,
    out: &mut Vec<Finding>,
    episode: &Episode,
    stream: &Stream,
    Ghost(s): Ghost<Seq<(Episode, Stream)>>,
)
    requires
        rates_known(old(table)@, s),
        check::views(old(out)@) == rate_findings(s),
    ensures
        rates_known(final(table)@, s.push((*episode, *stream))),
        check::views(final(out)@) == rate_findings(s.push((*episode, *stream))),
{
    broadcast use check::group_views;

    let ghost now = s.push((*episode, *stream));
    let ghost was = table@;
    assert(now.drop_last() =~= s);
    let usable: bool = match &stream.declared_rate_hz {
        Some(rate) => number::positive_finite(*rate),
        None => false,
    };
    let mut i: usize = 0;
    while i < table.len() && !same(table[i].name.as_str(), stream.name.as_str())
        invariant
            i <= table@.len(),
            table@ == was,
            forall|k: int| 0 <= k < i ==> (#[trigger] was[k]).name@ != stream.name@,
        decreases table@.len() - i,
    {
        i = i + 1;
    }
    if let Some(rate) = &stream.declared_rate_hz {
        if usable {
            if i < table.len() {
                if deviation::beyond(*rate as i128, table[i].bits as i128, double::HUNDREDTH) && !table[i].reported {
                    out.push(
                        make_inconsistent(
                            episode.index,
                            stream.name.as_str(),
                            decimal::fixed(table[i].bits, 3).as_str(),
                            table[i].episode,
                            decimal::fixed(*rate, 3).as_str(),
                        ),
                    );
                    let mut entry: RateBaseline = table.remove(i);
                    entry.reported = true;
                    table.insert(i, entry);
                }
            } else {
                assert(first_rate(s, stream.name@) is None);
                table.push(
                    RateBaseline {
                        name: stream.name.clone(),
                        bits: *rate,
                        episode: episode.index,
                        reported: false,
                    },
                );
            }
        }
    }
    proof {
        let t = table@;
        assert forall|k: int| 0 <= k < t.len() implies first_rate(now, (#[trigger] t[k]).name@) == Some(
            (t[k].bits, t[k].episode),
        ) && t[k].bits < number::INFINITY && t[k].reported == has_departed(now, t[k].name@) by {
            if k < was.len() {
                assert(first_rate(s, was[k].name@) == Some((was[k].bits, was[k].episode)));
                if k != i {
                    assert(t[k] == was[k]);
                    assert(t[k].name@ != stream.name@);
                }
            }
        }
        assert forall|a: int, b: int| 0 <= a < b < t.len() implies (#[trigger] t[a]).name@ != (#[trigger] t[b]).name@ by {
            assert(a < was.len());
            assert(was[a].name@ == t[a].name@);
            if b < was.len() {
                assert(was[b].name@ == t[b].name@);
            }
        }
        assert forall|name: Seq<char>|
            (forall|k: int| 0 <= k < t.len() ==> (#[trigger] t[k]).name@ != name) implies #[trigger] first_rate(now, name) is None
            && !has_departed(now, name) by {
            assert forall|k: int| 0 <= k < was.len() implies (#[trigger] was[k]).name@ != name by {
                assert(t[k].name@ == was[k].name@);
            }
            assert(first_rate(s, name) is None && !has_departed(s, name));
            if stream.name@ == name {
                assert(!usable) by {
                    if usable {
                        if i < was.len() {
                            assert(was[i as int].name@ == name);
                        } else {
                            assert(t[was.len() as int].name@ == name);
                        }
                    }
                }
            }
        }
    }
}

impl RateConsistency {
    /// Reports the first departure of each stream name.
    pub fn evaluate(&self, dataset: &Dataset) -> (r: Vec<Finding>)
        ensures
            check::views(r@) == rate_findings(walk::pairs(dataset.episodes@)),
    {
        broadcast use check::group_views;

        let mut table: Vec<RateBaseline> = Vec::new();
        let mut out: Vec<Finding> = Vec::new();
        let mut i: usize = 0;
        let ghost eps = dataset.episodes@;
        assert(walk::pairs(eps.take(0)) =~= Seq::empty());
        while i < dataset.episodes.len()
            invariant
                i <= eps.len(),
                eps == dataset.episodes@,
                rates_known(table@, walk::pairs(eps.take(i as int))),
                check::views(out@) == rate_findings(walk::pairs(eps.take(i as int))),
            decreases eps.len() - i,
        {
            let episode: &Episode = &dataset.episodes[i];
            proof {
                walk::lemma_pairs_next(eps, i as int);
            }
            let mut j: usize = 0;
            while j < episode.streams.len()
                invariant
                    i < eps.len(),
                    *episode == eps[i as int],
                    j <= episode.streams@.len(),
                    rates_known(table@, walk::pairs_before(eps, i as int, j as int)),
                    check::views(out@) == rate_findings(walk::pairs_before(eps, i as int, j as int)),
                decreases episode.streams@.len() - j,
            {
                let ghost was = walk::pairs_before(eps, i as int, j as int);
                proof {
                    walk::lemma_pairs_step(eps, i as int, j as int);
                }
                hold_rate(&mut table, &mut out, episode, &episode.streams[j], Ghost(was));
                j = j + 1;
            }
            i = i + 1;
        }
        assert(eps.take(i as int) =~= eps);
        out
    }
}

impl Check for RateConsistency {
    open spec fn meta(&self) -> CheckMeta {
        CheckMeta {
            id: RATE_CONSISTENCY_ID@,
            title: "Cross-episode declared-rate consistency"@,
            category: Category::Temporal,
            default_severity: Severity::Warning,
            scope: Scope::Dataset,
            version: "1"@,
            finding_codes: seq![RATE_INCONSISTENT_CODE@],
        }
    }

    fn info(&self) -> (r: CheckInfo) {
        let finding_codes: &'static [&'static str] = &[RATE_INCONSISTENT_CODE];
        assert(text::str_texts(finding_codes@) =~= self.meta().finding_codes);
        CheckInfo {
            id: RATE_CONSISTENCY_ID,
            title: "Cross-episode declared-rate consistency",
            category: Category::Temporal,
            default_severity: Severity::Warning,
            scope: Scope::Dataset,
            version: "1",
            finding_codes,
        }
    }

    open spec fn report(&self, dataset: &Dataset) -> Seq<FindingView> {
        rate_findings(walk::pairs(dataset.episodes@))
    }

    open spec fn report_in(&self, dataset: &Dataset, frames_read: bool, attested: Seq<Seq<char>>) -> Seq<FindingView> {
        self.report(dataset)
    }

    fn run(&self, dataset: &Dataset) -> (r: Vec<Finding>) {
        self.evaluate(dataset)
    }

    fn run_in(&self, dataset: &Dataset, context: &CheckContext) -> (r: Vec<Finding>) {
        self.run(dataset)
    }
}

// ---- gaps ------------------------------------------------------------------------------------

/// Gaps: an inter-frame interval far larger than expected indicates dropped frames.
#[derive(Debug)]
pub struct Gaps {
    /// A gap is an interval greater than `gap_factor` times the expected interval.
    pub gap_factor: u64,
}

/// The double three.
pub const THREE: u64 = 0x4008_0000_0000_0000;

impl Default for Gaps {
    /// Three times the expected interval.
    fn default() -> (r: Self)
        ensures
            r.gap_factor == THREE,
    {
        Gaps { gap_factor: THREE }
    }
}

/// The id of [`Gaps`].
pub const GAP_ID: &'static str = "temporal.gap";

/// The code of its findings.
pub const GAP_CODE: &'static str = "TEMPORAL.GAP";

pub const GAP_RISK: &'static str = "Dropped frames leave holes that bias temporal models.";

pub const GAP_REMEDY: &'static str = "Check the recorder for drops; annotate or trim the gap.";

/// The finding for a gap.
pub open spec fn gap_finding(
    episode: u64,
    name: Seq<char>,
    start_ts: i64,
    end_ts: i64,
    interval: Seq<char>,
    expected: Seq<char>,
    shared: Seq<char>,
) -> FindingView {
    check::finding(
        GAP_ID@,
        Category::Temporal,
        Severity::Warning,
        LocationView::TimeRange { episode, stream: name, start_ts, end_ts },
        GAP_CODE@,
        "stream `"@ + name + "` in episode "@ + text::dec(episode as nat) + ": "@ + interval
            + " ms gap (expected ~"@ + expected + " ms)"@ + shared,
        GAP_RISK@,
        GAP_REMEDY@,
    )
}

/// The finding for a gap.
fn make_gap(
    episode: u64,
    name: &str,
    start_ts: i64,
    end_ts: i64,
    interval: &str,
    expected: &str,
    shared: &str,
) -> (r: Finding)
    ensures
        r@ == gap_finding(episode, name@, start_ts, end_ts, interval@, expected@, shared@),
{
    let message: String = cat10(
        "stream `",
        name,
        "` in episode ",
        dec_u64(episode).as_str(),
        ": ",
        interval,
        " ms gap (expected ~",
        expected,
        " ms)",
        shared,
    );
    Finding::new(GAP_ID, Category::Temporal, Severity::Warning, Location::TimeRange { episode, stream: String::from_str(name), start_ts, end_ts }, GAP_CODE, message).with_risk(
        GAP_RISK,
    ).with_remedy(GAP_REMEDY)
}

/// An expected interval: a double of nanoseconds, and its text in milliseconds.
pub struct IntervalView {
    /// The double.
    pub bits: u64,
    /// The text.
    pub ms: Seq<char>,
}

/// Whether the declared interval and the observed one agree within a factor.
pub open spec fn intervals_agree(declared: u64, observed: u64, factor: u64) -> bool {
    match (number::scaled(observed, factor), number::scaled(declared, factor)) {
        (Some(a), Some(b)) => number::rank(declared) <= a && number::rank(observed) <= b,
        _ => false,
    }
}

/// A double of nanoseconds in milliseconds, with one digit after the point.
pub open spec fn millis_of_double(ns: u64) -> Seq<char> {
    decimal::fixed_text(decimal::bits_of(double::over(ns as int, double::MILLION as int)), 1)
}

/// A double of nanoseconds in milliseconds, with one digit after the point.
fn in_millis(ns: u64) -> (r: String)
    requires
        ns <= number::INFINITY,
    ensures
        r@ == millis_of_double(ns),
{
    decimal::fixed_rank(double::quotient(ns as i128, double::MILLION), 1)
}

/// The interval to measure gaps against: the declared one where it is roughly consistent with the
/// observed median, else that median. A grossly overstated rate would otherwise flag *every* real
/// interval as a gap.
pub open spec fn expected_interval(stream: Stream, factor: u64) -> Option<IntervalView> {
    let gaps = seqs::sorted(timeline::positive_gaps(stream.frames@), seqs::number_order());
    if gaps.len() == 0 {
        None
    } else {
        let n = gaps[gaps.len() as int / 2] as nat;
        let median = IntervalView { bits: number::double_of(n), ms: number::millis_text(n) };
        match stream.declared_rate_hz {
            Some(rate) => if number::less(0, rate) && intervals_agree(
                timeline::interval(rate),
                median.bits,
                factor,
            ) {
                Some(IntervalView { bits: timeline::interval(rate), ms: millis_of_double(timeline::interval(rate)) })
            } else {
                Some(median)
            },
            None => Some(median),
        }
    }
}

/// A signed count of nanoseconds as milliseconds.
pub open spec fn signed_millis(ns: int) -> Seq<char> {
    if ns < 0 { "-"@ + number::millis_text((-ns) as nat) } else { number::millis_text(ns as nat) }
}

/// The rank of a signed count as a double.
pub open spec fn signed_rank(ns: int) -> int {
    if ns < 0 { -number::nearest_bits((-ns) as nat, 1) } else { number::nearest_bits(ns as nat, 1) }
}

/// The gaps among the first `n` frames of a stream.
pub open spec fn gap_findings(
    episode: Episode,
    stream: Stream,
    expected: Seq<char>,
    threshold: int,
    n: int,
) -> Seq<FindingView>
    decreases n,
{
    if n < 2 {
        Seq::empty()
    } else {
        let rest = gap_findings(episode, stream, expected, threshold, n - 1);
        let (a, b) = (stream.frames@[n - 2].ts, stream.frames@[n - 1].ts);
        let d = timeline::gap(a, b);
        if signed_rank(d) > threshold {
            rest.push(
                gap_finding(
                    episode.index,
                    stream.name@,
                    a,
                    b,
                    signed_millis(d),
                    expected,
                    shared_by(episode, stream),
                ),
            )
        } else {
            rest
        }
    }
}

/// A signed count of nanoseconds as milliseconds.
fn millis_signed(ns: i64) -> (r: String)
    ensures
        r@ == signed_millis(ns as int),
{
    if ns < 0 {
        let size: u64 = (-(ns as i128)) as u64;
        cat2("-", number::millis(size).as_str())
    } else {
        number::millis(ns as u64)
    }
}

/// The rank of a signed count as a double.
fn rank_signed(ns: i64) -> (r: i128)
    ensures
        r as int == signed_rank(ns as int),
{
    if ns < 0 {
        let size: u128 = (-(ns as i128)) as u128;
        -(number::nearest(size, 1) as i128)
    } else {
        number::nearest(ns as u128, 1) as i128
    }
}

/// The interval to measure gaps against.
fn expected_interval_ns(stream: &Stream, factor: u64) -> (r: Option<(u64, String)>)
    ensures
        match r {
            Some((bits, ms)) => expected_interval(*stream, factor) == Some((IntervalView { bits, ms: ms@ })),
            None => expected_interval(*stream, factor) is None,
        },
{
    let raw: Vec<u64> = timeline::collect_gaps(&stream.frames);
    let gaps: Vec<u64> = sort_numbers(&raw);
    if gaps.len() == 0 {
        return None;
    }
    let n: u64 = gaps[gaps.len() / 2];
    let median: u64 = number::nearest(n as u128, 1);
    if let Some(rate) = &stream.declared_rate_hz {
        if number::lt(0, *rate) {
            let declared: u64 = timeline::interval_of(*rate);
            if let (Some(a), Some(b)) = (number::scale(median, factor), number::scale(declared, factor)) {
                if number::order(declared) <= a && number::order(median) <= b {
                    return Some((declared, in_millis(declared)));
                }
            }
        }
    }
    Some((median, number::millis(n)))
}

impl StreamRule for Gaps {
    open spec fn of_stream(&self, episode: Episode, stream: Stream) -> Seq<FindingView> {
        match expected_interval(stream, self.gap_factor) {
            Some(expected) => match number::scaled(expected.bits, self.gap_factor) {
                Some(threshold) => if is_judged(episode, stream) {
                    gap_findings(episode, stream, expected.ms, threshold, stream.frames@.len() as int)
                } else {
                    Seq::empty()
                },
                None => Seq::empty(),
            },
            None => Seq::empty(),
        }
    }

    fn check_stream(&self, episode: &Episode, stream: &Stream) -> (r: Vec<Finding>) {
        broadcast use check::group_views;

        if !stream.has_measured_time() {
            return none();
        }
        let (first, shared): (bool, String) = timeline_group(episode, stream);
        if !first {
            return none();
        }
        let (expected, ms): (u64, String) = match expected_interval_ns(stream, self.gap_factor) {
            Some(x) => x,
            None => {
                return none();
            },
        };
        let threshold: i128 = match number::scale(expected, self.gap_factor) {
            Some(t) => t,
            None => {
                return none();
            },
        };
        let mut out: Vec<Finding> = Vec::new();
        if stream.frames.len() < 2 {
            return out;
        }
        let mut i: usize = 1;
        while i < stream.frames.len()
            invariant
                1 <= i <= stream.frames@.len(),
                shared@ == shared_by(*episode, *stream),
                check::views(out@) == gap_findings(*episode, *stream, ms@, threshold as int, i as int),
            decreases stream.frames@.len() - i,
        {
            let (a, b): (i64, i64) = (stream.frames[i - 1].ts, stream.frames[i].ts);
            let d: i64 = timeline::gap_of(a, b);
            if rank_signed(d) > threshold {
                out.push(
                    make_gap(
                        episode.index,
                        stream.name.as_str(),
                        a,
                        b,
                        millis_signed(d).as_str(),
                        ms.as_str(),
                        shared.as_str(),
                    ),
                );
            }
            i = i + 1;
        }
        out
    }
}

impl Check for Gaps {
    open spec fn meta(&self) -> CheckMeta {
        CheckMeta {
            id: GAP_ID@,
            title: "Timeline gaps"@,
            category: Category::Temporal,
            default_severity: Severity::Warning,
            scope: Scope::Stream,
            version: "1"@,
            finding_codes: seq![GAP_CODE@],
        }
    }

    fn info(&self) -> (r: CheckInfo) {
        let finding_codes: &'static [&'static str] = &[GAP_CODE];
        assert(text::str_texts(finding_codes@) =~= self.meta().finding_codes);
        CheckInfo {
            id: GAP_ID,
            title: "Timeline gaps",
            category: Category::Temporal,
            default_severity: Severity::Warning,
            scope: Scope::Stream,
            version: "1",
            finding_codes,
        }
    }

    open spec fn report(&self, dataset: &Dataset) -> Seq<FindingView> {
        walk::by_streams(*self, dataset.episodes@)
    }

    open spec fn report_in(&self, dataset: &Dataset, frames_read: bool, attested: Seq<Seq<char>>) -> Seq<FindingView> {
        self.report(dataset)
    }

    fn run(&self, dataset: &Dataset) -> (r: Vec<Finding>) {
        walk_streams(self, dataset)
    }

    fn run_in(&self, dataset: &Dataset, context: &CheckContext) -> (r: Vec<Finding>) {
        self.run(dataset)
    }
}

// ---- jitter ----------------------------------------------------------------------------------

/// Timeline jitter: even when a stream's mean rate is correct and no single interval is a gap, the
/// intervals can be badly irregular. Flags a stream whose intervals' coefficient of variation
/// exceeds a threshold. Short streams are skipped, and so are non-monotonic ones, whose fault is
/// [`Monotonicity`]'s.
#[derive(Debug)]
pub struct Jitter {
    /// Maximum tolerated coefficient of variation of the inter-frame intervals.
    pub max_cv: u64,
}

/// The double one half.
pub const HALF: u64 = 0x3fe0_0000_0000_0000;

impl Default for Jitter {
    /// One half.
    fn default() -> (r: Self)
        ensures
            r.max_cv == HALF,
    {
        Jitter { max_cv: HALF }
    }
}

/// Fewest intervals for a meaningful statistic.
pub const MIN_INTERVALS: usize = 8;

/// The id of [`Jitter`].
pub const JITTER_ID: &'static str = "temporal.jitter";

/// The code of its findings.
pub const JITTER_CODE: &'static str = "TEMPORAL.JITTER";

pub const JITTER_RISK: &'static str = "Unevenly spaced frames distort the fixed-timestep dynamics \
     temporal models assume, even when the mean rate looks correct.";

pub const JITTER_REMEDY: &'static str = "Investigate recorder/scheduling jitter, or resample the \
     stream onto a uniform time base.";

/// The finding for an irregular timeline.
pub open spec fn jitter_finding(
    episode: u64,
    name: Seq<char>,
    cv: Seq<char>,
    max: Seq<char>,
    mean: Seq<char>,
    shared: Seq<char>,
) -> FindingView {
    check::finding(
        JITTER_ID@,
        Category::Temporal,
        Severity::Warning,
        LocationView::Stream { episode, stream: name },
        JITTER_CODE@,
        "stream `"@ + name + "` in episode "@ + text::dec(episode as nat)
            + ": irregular timeline (interval cv "@ + cv + " vs allowed "@ + max + "; mean ~"@ + mean
            + " ms)"@ + shared,
        JITTER_RISK@,
        JITTER_REMEDY@,
    )
}

/// The finding for an irregular timeline.
fn make_jitter(episode: u64, name: &str, cv: &str, max: &str, mean: &str, shared: &str) -> (r: Finding)
    ensures
        r@ == jitter_finding(episode, name@, cv@, max@, mean@, shared@),
{
    let message: String = cat12(
        "stream `",
        name,
        "` in episode ",
        dec_u64(episode).as_str(),
        ": irregular timeline (interval cv ",
        cv,
        " vs allowed ",
        max,
        "; mean ~",
        mean,
        " ms)",
        shared,
    );
    Finding::new(JITTER_ID, Category::Temporal, Severity::Warning, Location::Stream { episode, stream: String::from_str(name) }, JITTER_CODE, message).with_risk(
        JITTER_RISK,
    ).with_remedy(JITTER_REMEDY)
}

/// Whether intervals vary more than a coefficient of variation allows.
pub open spec fn is_irregular(gaps: Seq<u64>, max_cv: u64) -> bool {
    match timeline::variation(gaps) {
        Some(cv) => !number::is_nan(max_cv) && number::rank(max_cv) < cv,
        None => false,
    }
}

/// The mean of intervals in milliseconds, with one digit after the point.
pub open spec fn mean_millis(gaps: Seq<u64>) -> Seq<char> {
    decimal::fixed_text(decimal::bits_of(double::over(timeline::mean(gaps), double::MILLION as int)), 1)
}

impl StreamRule for Jitter {
    open spec fn of_stream(&self, episode: Episode, stream: Stream) -> Seq<FindingView> {
        if is_judged(episode, stream) && stream.frames@.len() > MIN_INTERVALS && first_setback(stream.frames@, 1) is None
            && is_irregular(timeline::positive_gaps(stream.frames@), self.max_cv) {
            seq![
                jitter_finding(
                    episode.index,
                    stream.name@,
                    decimal::fixed_text(
                        decimal::bits_of(timeline::variation(timeline::positive_gaps(stream.frames@))->0),
                        2,
                    ),
                    decimal::fixed_text(self.max_cv, 2),
                    mean_millis(timeline::positive_gaps(stream.frames@)),
                    shared_by(episode, stream),
                ),
            ]
        } else {
            Seq::empty()
        }
    }

    fn check_stream(&self, episode: &Episode, stream: &Stream) -> (r: Vec<Finding>) {
        if !stream.has_measured_time() || stream.frames.len() <= MIN_INTERVALS {
            return none();
        }
        let (first, shared): (bool, String) = timeline_group(episode, stream);
        if !first {
            return none();
        }
        let mut i: usize = 1;
        while i < stream.frames.len()
            invariant
                1 <= i,
                first_setback(stream.frames@, 1) == first_setback(stream.frames@, i as int),
            decreases stream.frames@.len() - i,
        {
            if stream.frames[i].ts <= stream.frames[i - 1].ts {
                return none();
            }
            i = i + 1;
        }
        let gaps: Vec<u64> = timeline::collect_gaps(&stream.frames);
        if gaps.len() == 0 {
            assert(timeline::total(gaps@) == 0);
            return none();
        }
        match timeline::measure_variation(&gaps) {
            Some((mean, cv)) => if number::le(self.max_cv, self.max_cv) && number::order(self.max_cv) < cv {
                one(
                    make_jitter(
                        episode.index,
                        stream.name.as_str(),
                        decimal::fixed_rank(cv, 2).as_str(),
                        decimal::fixed(self.max_cv, 2).as_str(),
                        decimal::fixed_rank(double::quotient(mean, double::MILLION), 1).as_str(),
                        shared.as_str(),
                    ),
                )
            } else {
                none()
            },
            None => none(),
        }
    }
}

impl Check for Jitter {
    open spec fn meta(&self) -> CheckMeta {
        CheckMeta {
            id: JITTER_ID@,
            title: "Timeline jitter"@,
            category: Category::Temporal,
            default_severity: Severity::Warning,
            scope: Scope::Stream,
            version: "1"@,
            finding_codes: seq![JITTER_CODE@],
        }
    }

    fn info(&self) -> (r: CheckInfo) {
        let finding_codes: &'static [&'static str] = &[JITTER_CODE];
        assert(text::str_texts(finding_codes@) =~= self.meta().finding_codes);
        CheckInfo {
            id: JITTER_ID,
            title: "Timeline jitter",
            category: Category::Temporal,
            default_severity: Severity::Warning,
            scope: Scope::Stream,
            version: "1",
            finding_codes,
        }
    }

    open spec fn report(&self, dataset: &Dataset) -> Seq<FindingView> {
        walk::by_streams(*self, dataset.episodes@)
    }

    open spec fn report_in(&self, dataset: &Dataset, frames_read: bool, attested: Seq<Seq<char>>) -> Seq<FindingView> {
        self.report(dataset)
    }

    fn run(&self, dataset: &Dataset) -> (r: Vec<Finding>) {
        walk_streams(self, dataset)
    }

    fn run_in(&self, dataset: &Dataset, context: &CheckContext) -> (r: Vec<Finding>) {
        self.run(dataset)
    }
}

// ---- clock skew ------------------------------------------------------------------------------

/// **The headline check.** Cross-stream clock skew: streams recorded over the same episode should
/// span the same real-time duration. A difference in spanned duration is clock drift — one sensor's
/// clock ran fast or slow — and it silently mis-aligns observations from actions. It compares
/// *durations*, not absolute timestamps, so no shared epoch is required. A rig is left to the
/// rig-wide check.
#[derive(Debug, Clone, Copy)]
pub struct ClockSkew {
    /// Maximum tolerated difference in spanned duration between two streams, in nanoseconds.
    pub tolerance_ns: i64,
}

impl Default for ClockSkew {
    /// Fifty milliseconds.
    fn default() -> (r: Self)
        ensures
            r.tolerance_ns == 50_000_000,
    {
        ClockSkew { tolerance_ns: 50_000_000 }
    }
}

/// The id of [`ClockSkew`].
pub const SKEW_ID: &'static str = "temporal.clock-skew";

/// The code of its findings.
pub const SKEW_CODE: &'static str = "TEMPORAL.CLOCK_SKEW";

pub const SKEW_RISK: &'static str = "Clock drift mis-aligns observations and actions: the policy \
     learns to act on stale or future observations.";

pub const SKEW_REMEDY: &'static str = "Re-synchronize the streams against a common time base, or \
     record and apply per-stream latency offsets.";

/// The finding for two streams that drift.
pub open spec fn skew_finding(
    episode: u64,
    a: Seq<char>,
    clock_a: Seq<char>,
    span_a: nat,
    b: Seq<char>,
    clock_b: Seq<char>,
    span_b: nat,
    drift: nat,
) -> FindingView {
    check::finding(
        SKEW_ID@,
        Category::Temporal,
        Severity::Error,
        LocationView::Episode { episode },
        SKEW_CODE@,
        "episode "@ + text::dec(episode as nat) + ": streams `"@ + a + "` (clock `"@ + clock_a
            + "`, span "@ + number::millis_text(span_a) + " ms) and `"@ + b + "` (clock `"@ + clock_b
            + "`, span "@ + number::millis_text(span_b) + " ms) drift by "@ + number::millis_text(drift)
            + " ms"@,
        SKEW_RISK@,
        SKEW_REMEDY@,
    )
}

/// The finding for two streams that drift.
fn make_skew(
    episode: u64,
    a: &str,
    clock_a: &str,
    span_a: u64,
    b: &str,
    clock_b: &str,
    span_b: u64,
    drift: u64,
) -> (r: Finding)
    ensures
        r@ == skew_finding(episode, a@, clock_a@, span_a as nat, b@, clock_b@, span_b as nat, drift as nat),
{
    let message: String = cat17(
        "episode ",
        dec_u64(episode).as_str(),
        ": streams `",
        a,
        "` (clock `",
        clock_a,
        "`, span ",
        number::millis(span_a).as_str(),
        " ms) and `",
        b,
        "` (clock `",
        clock_b,
        "`, span ",
        number::millis(span_b).as_str(),
        " ms) drift by ",
        number::millis(drift).as_str(),
        " ms",
    );
    Finding::new(SKEW_ID, Category::Temporal, Severity::Error, Location::Episode { episode }, SKEW_CODE, message).with_risk(
        SKEW_RISK,
    ).with_remedy(SKEW_REMEDY)
}

/// What a stream's measured timeline spans.
pub struct ClockSpanView {
    /// The stream's name.
    pub name: Seq<char>,
    /// Its clock.
    pub clock: Seq<char>,
    /// The span, in nanoseconds.
    pub span: int,
    /// The sampling period, in nanoseconds.
    pub period: int,
}

/// Whether a stream has a measurable span.
pub open spec fn has_span(s: Stream) -> bool {
    s.clock_kind is Measured && s.frames@.len() > 0 && timeline::span(s.frames@) > 0
}

/// The measurable spans of streams, in order.
pub open spec fn clock_spans(streams: Seq<Stream>) -> Seq<ClockSpanView>
    decreases streams.len(),
{
    if streams.len() == 0 {
        Seq::empty()
    } else if has_span(streams.last()) {
        let s = streams.last();
        clock_spans(streams.drop_last()).push(
            ClockSpanView {
                name: s.name@,
                clock: s.clock_id@,
                span: timeline::span(s.frames@),
                period: timeline::period(s),
            },
        )
    } else {
        clock_spans(streams.drop_last())
    }
}

/// What is reported of two streams.
pub open spec fn pair_findings(episode: u64, tolerance: i64, a: ClockSpanView, b: ClockSpanView) -> Seq<FindingView> {
    let drift = autonomy::apart(a.span, b.span);
    if drift > autonomy::capped_sum(tolerance as int, autonomy::greater(a.period, b.period)) {
        seq![skew_finding(episode, a.name, a.clock, a.span as nat, b.name, b.clock, b.span as nat, drift)]
    } else {
        Seq::empty()
    }
}

/// What is reported of a stream against each from `j` on.
pub open spec fn against_each(episode: u64, tolerance: i64, s: Seq<ClockSpanView>, i: int, j: int) -> Seq<FindingView>
    decreases s.len() - j,
{
    if j < s.len() {
        pair_findings(episode, tolerance, s[i], s[j]) + against_each(episode, tolerance, s, i, j + 1)
    } else {
        Seq::empty()
    }
}

/// What is reported of each two streams from `i` on.
pub open spec fn each_pair(episode: u64, tolerance: i64, s: Seq<ClockSpanView>, i: int) -> Seq<FindingView>
    decreases s.len() - i,
{
    if i < s.len() {
        against_each(episode, tolerance, s, i, i + 1) + each_pair(episode, tolerance, s, i + 1)
    } else {
        Seq::empty()
    }
}

/// What a stream's measured timeline spans.
struct ClockSpan<'a> {
    /// The stream's name.
    name: &'a str,
    /// Its clock.
    clock: &'a str,
    /// The span.
    span: i64,
    /// The sampling period.
    period: i64,
}

impl<'a> View for ClockSpan<'a> {
    type V = ClockSpanView;

    closed spec fn view(&self) -> ClockSpanView {
        ClockSpanView {
            name: self.name@,
            clock: self.clock@,
            span: self.span as int,
            period: self.period as int,
        }
    }
}

/// What spans are.
spec fn clock_span_views<'a>(s: Seq<ClockSpan<'a>>) -> Seq<ClockSpanView> {
    s.map_values(|x: ClockSpan<'a>| x@)
}

/// The measurable spans of streams.
fn collect_spans<'a>(streams: &'a Vec<Stream>) -> (r: Vec<ClockSpan<'a>>)
    ensures
        clock_span_views(r@) == clock_spans(streams@),
        forall|k: int| 0 <= k < r@.len() ==> (#[trigger] r@[k]).span > 0 && r@[k].period >= 0,
{
    let mut out: Vec<ClockSpan<'a>> = Vec::new();
    let mut i: usize = 0;
    let ghost s = streams@;
    assert(clock_span_views(out@) =~= Seq::empty());
    while i < streams.len()
        invariant
            i <= s.len(),
            s == streams@,
            clock_span_views(out@) == clock_spans(s.take(i as int)),
            forall|k: int| 0 <= k < out@.len() ==> (#[trigger] out@[k]).span > 0 && out@[k].period >= 0,
        decreases s.len() - i,
    {
        assert(s.take(i + 1).drop_last() =~= s.take(i as int));
        let stream: &Stream = &streams[i];
        if stream.has_measured_time() {
            if let Some((lo, hi)) = timeline::span_bounds(stream) {
                let span: i64 = timeline::gap_of(lo, hi);
                if span > 0 {
                    let ghost was = out@;
                    let x: ClockSpan<'a> = ClockSpan {
                        name: stream.name.as_str(),
                        clock: stream.clock_id.as_str(),
                        span,
                        period: timeline::sampling_period_ns(stream),
                    };
                    let ghost v = x@;
                    out.push(x);
                    assert(clock_span_views(out@) =~= clock_span_views(was).push(v));
                }
            }
        }
        i = i + 1;
    }
    assert(s.take(i as int) =~= s);
    out
}

impl EpisodeRule for ClockSkew {
    open spec fn of_episode(&self, episode: Episode) -> Seq<FindingView> {
        if autonomy::is_rig(episode) {
            Seq::empty()
        } else {
            each_pair(episode.index, self.tolerance_ns, clock_spans(episode.streams@), 0)
        }
    }

    fn check_episode(&self, episode: &Episode) -> (r: Vec<Finding>) {
        broadcast use check::group_views;

        if is_rig_episode(episode) {
            return none();
        }
        let spans: Vec<ClockSpan> = collect_spans(&episode.streams);
        let ghost v = clock_span_views(spans@);
        let ghost whole = each_pair(episode.index, self.tolerance_ns, v, 0);
        let mut out: Vec<Finding> = Vec::new();
        let mut i: usize = 0;
        assert(whole =~= check::views(out@) + whole);
        while i < spans.len()
            invariant
                i <= spans@.len(),
                v == clock_span_views(spans@),
                forall|k: int| 0 <= k < spans@.len() ==> (#[trigger] spans@[k]).span > 0 && spans@[k].period >= 0,
                whole == check::views(out@) + each_pair(episode.index, self.tolerance_ns, v, i as int),
            decreases spans@.len() - i,
        {
            let a: &ClockSpan = &spans[i];
            assert(v[i as int] == a@);
            let ghost rest = each_pair(episode.index, self.tolerance_ns, v, i + 1);
            let mut j: usize = i + 1;
            assert(whole =~= check::views(out@) + against_each(episode.index, self.tolerance_ns, v, i as int, i + 1) + rest);
            while j < spans.len()
                invariant
                    i < j <= spans@.len(),
                    v == clock_span_views(spans@),
                    *a == spans@[i as int],
                    v[i as int] == a@,
                    forall|k: int| 0 <= k < spans@.len() ==> (#[trigger] spans@[k]).span > 0 && spans@[k].period >= 0,
                    whole == check::views(out@) + against_each(
                        episode.index,
                        self.tolerance_ns,
                        v,
                        i as int,
                        j as int,
                    ) + rest,
                decreases spans@.len() - j,
            {
                let b: &ClockSpan = &spans[j];
                assert(v[j as int] == b@);
                assert(spans@[i as int].span > 0);
                let drift: i64 = if a.span >= b.span { a.span - b.span } else { b.span - a.span };
                let quantum: i64 = if a.period >= b.period { a.period } else { b.period };
                let ghost was = check::views(out@);
                let ghost more = against_each(episode.index, self.tolerance_ns, v, i as int, j + 1);
                let ghost here = pair_findings(episode.index, self.tolerance_ns, a@, b@);
                if drift as i128 > self.tolerance_ns as i128 + quantum as i128 {
                    out.push(
                        make_skew(
                            episode.index,
                            a.name,
                            a.clock,
                            a.span as u64,
                            b.name,
                            b.clock,
                            b.span as u64,
                            drift as u64,
                        ),
                    );
                    assert(check::views(out@) =~= was + here);
                } else {
                    assert(check::views(out@) =~= was + here);
                }
                assert(was + (here + more) + rest =~= was + here + more + rest);
                j = j + 1;
            }
            assert(check::views(out@) + Seq::<FindingView>::empty() + rest =~= check::views(out@) + rest);
            i = i + 1;
        }
        assert(whole =~= check::views(out@));
        out
    }
}

impl Check for ClockSkew {
    open spec fn meta(&self) -> CheckMeta {
        CheckMeta {
            id: SKEW_ID@,
            title: "Cross-stream clock skew"@,
            category: Category::Temporal,
            default_severity: Severity::Error,
            scope: Scope::Episode,
            version: "1"@,
            finding_codes: seq![SKEW_CODE@],
        }
    }

    fn info(&self) -> (r: CheckInfo) {
        let finding_codes: &'static [&'static str] = &[SKEW_CODE];
        assert(text::str_texts(finding_codes@) =~= self.meta().finding_codes);
        CheckInfo {
            id: SKEW_ID,
            title: "Cross-stream clock skew",
            category: Category::Temporal,
            default_severity: Severity::Error,
            scope: Scope::Episode,
            version: "1",
            finding_codes,
        }
    }

    open spec fn report(&self, dataset: &Dataset) -> Seq<FindingView> {
        walk::by_episode(*self, dataset.episodes@)
    }

    open spec fn report_in(&self, dataset: &Dataset, frames_read: bool, attested: Seq<Seq<char>>) -> Seq<FindingView> {
        self.report(dataset)
    }

    fn run(&self, dataset: &Dataset) -> (r: Vec<Finding>) {
        walk_episodes(self, dataset)
    }

    fn run_in(&self, dataset: &Dataset, context: &CheckContext) -> (r: Vec<Finding>) {
        self.run(dataset)
    }
}

// ---- offsets on one clock --------------------------------------------------------------------

/// Cross-stream **start-time offset within a shared clock**. Two streams on the same clock should
/// begin at nearly the same absolute time; one that starts materially later mis-aligns the very first
/// observations from actions. Absolute timestamps are only comparable within a single clock.
#[derive(Debug, Clone, Copy)]
pub struct StartOffset {
    /// Maximum tolerated difference between the earliest and latest stream start on one clock, in
    /// nanoseconds.
    pub tolerance_ns: i64,
}

impl Default for StartOffset {
    /// Fifty milliseconds.
    fn default() -> (r: Self)
        ensures
            r.tolerance_ns == 50_000_000,
    {
        StartOffset { tolerance_ns: 50_000_000 }
    }
}

/// The id of [`StartOffset`].
pub const START_ID: &'static str = "temporal.start-offset";

/// The code of its findings.
pub const START_CODE: &'static str = "TEMPORAL.START_OFFSET";

pub const START_RISK: &'static str = "A late-starting stream leaves the first observations unpaired \
     with their actions, so early frames train on missing or stale context.";

pub const START_REMEDY: &'static str = "Confirm all sensors start together, or trim each episode to \
     the common time window.";

/// The finding for a stream that starts late.
pub open spec fn start_finding(
    episode: u64,
    clock: Seq<char>,
    late: Seq<char>,
    offset: nat,
    early: Seq<char>,
) -> FindingView {
    check::finding(
        START_ID@,
        Category::Temporal,
        Severity::Warning,
        LocationView::Episode { episode },
        START_CODE@,
        "episode "@ + text::dec(episode as nat) + ": on clock `"@ + clock + "`, stream `"@ + late
            + "` starts "@ + number::millis_text(offset) + " ms after `"@ + early + "`"@,
        START_RISK@,
        START_REMEDY@,
    )
}

/// The finding for a stream that starts late.
fn make_start(episode: u64, clock: &str, late: &str, offset: u64, early: &str) -> (r: Finding)
    ensures
        r@ == start_finding(episode, clock@, late@, offset as nat, early@),
{
    let message: String = cat11(
        "episode ",
        dec_u64(episode).as_str(),
        ": on clock `",
        clock,
        "`, stream `",
        late,
        "` starts ",
        number::millis(offset).as_str(),
        " ms after `",
        early,
        "`",
    );
    Finding::new(START_ID, Category::Temporal, Severity::Warning, Location::Episode { episode }, START_CODE, message).with_risk(
        START_RISK,
    ).with_remedy(START_REMEDY)
}

/// Cross-stream **end-time offset within a shared clock**: the mirror of [`StartOffset`]. A stream
/// can slip past both the start and the duration check and still be misaligned at the tail by up to
/// twice the tolerance.
#[derive(Debug, Clone, Copy)]
pub struct EndOffset {
    /// Maximum tolerated difference between the earliest and latest stream end on one clock, in
    /// nanoseconds.
    pub tolerance_ns: i64,
}

impl Default for EndOffset {
    /// Fifty milliseconds.
    fn default() -> (r: Self)
        ensures
            r.tolerance_ns == 50_000_000,
    {
        EndOffset { tolerance_ns: 50_000_000 }
    }
}

/// The id of [`EndOffset`].
pub const END_ID: &'static str = "temporal.end-offset";

/// The code of its findings.
pub const END_CODE: &'static str = "TEMPORAL.END_OFFSET";

pub const END_RISK: &'static str = "An early-ending stream leaves the last observations unpaired \
     with their actions, so late frames train on missing or stale context.";

pub const END_REMEDY: &'static str = "Confirm all sensors stop together, or trim each episode to the \
     common time window.";

/// The finding for a stream that ends early.
pub open spec fn end_finding(
    episode: u64,
    clock: Seq<char>,
    early: Seq<char>,
    offset: nat,
    late: Seq<char>,
) -> FindingView {
    check::finding(
        END_ID@,
        Category::Temporal,
        Severity::Warning,
        LocationView::Episode { episode },
        END_CODE@,
        "episode "@ + text::dec(episode as nat) + ": on clock `"@ + clock + "`, stream `"@ + early
            + "` ends "@ + number::millis_text(offset) + " ms before `"@ + late + "`"@,
        END_RISK@,
        END_REMEDY@,
    )
}

/// The finding for a stream that ends early.
fn make_end(episode: u64, clock: &str, early: &str, offset: u64, late: &str) -> (r: Finding)
    ensures
        r@ == end_finding(episode, clock@, early@, offset as nat, late@),
{
    let message: String = cat11(
        "episode ",
        dec_u64(episode).as_str(),
        ": on clock `",
        clock,
        "`, stream `",
        early,
        "` ends ",
        number::millis(offset).as_str(),
        " ms before `",
        late,
        "`",
    );
    Finding::new(END_ID, Category::Temporal, Severity::Warning, Location::Episode { episode }, END_CODE, message).with_risk(
        END_RISK,
    ).with_remedy(END_REMEDY)
}

/// Whether a stream has a moment to compare.
pub open spec fn is_timed(s: Stream) -> bool {
    s.clock_kind is Measured && s.frames@.len() > 0
}

/// The clocks of the streams that can be compared, as they come.
pub open spec fn clock_names(streams: Seq<Stream>) -> Seq<Seq<char>>
    decreases streams.len(),
{
    if streams.len() == 0 {
        Seq::empty()
    } else if is_timed(streams.last()) {
        clock_names(streams.drop_last()).push(streams.last().clock_id@)
    } else {
        clock_names(streams.drop_last())
    }
}

/// When a stream starts, or ends.
pub open spec fn moment(s: Stream, at_end: bool) -> int {
    if at_end { timeline::latest(s.frames@) as int } else { timeline::earliest(s.frames@) as int }
}

/// The place of the stream of a clock with the least moment among the first `n`; of equal ones the
/// first.
pub open spec fn foremost(s: Seq<Stream>, clock: Seq<char>, at_end: bool, n: int) -> Option<int>
    decreases n,
{
    if n <= 0 {
        None
    } else {
        let rest = foremost(s, clock, at_end, n - 1);
        if is_timed(s[n - 1]) && s[n - 1].clock_id@ == clock {
            match rest {
                Some(k) => if moment(s[n - 1], at_end) < moment(s[k], at_end) { Some(n - 1) } else { Some(k) },
                None => Some(n - 1),
            }
        } else {
            rest
        }
    }
}

/// The place of the stream of a clock with the greatest moment among the first `n`; of equal ones
/// the last.
pub open spec fn hindmost(s: Seq<Stream>, clock: Seq<char>, at_end: bool, n: int) -> Option<int>
    decreases n,
{
    if n <= 0 {
        None
    } else {
        let rest = hindmost(s, clock, at_end, n - 1);
        if is_timed(s[n - 1]) && s[n - 1].clock_id@ == clock {
            match rest {
                Some(k) => if moment(s[n - 1], at_end) < moment(s[k], at_end) { Some(k) } else { Some(n - 1) },
                None => Some(n - 1),
            }
        } else {
            rest
        }
    }
}

/// Two streams of a clock that lie too far apart.
pub struct OffsetView {
    /// The place of the one ahead.
    pub early: int,
    /// The place of the one behind.
    pub late: int,
    /// How far apart they are.
    pub offset: nat,
}

/// The two streams of a clock that lie furthest apart, where that is too far. Two synchronized
/// streams differ by up to the slower one's period.
pub open spec fn offset_on(s: Seq<Stream>, clock: Seq<char>, at_end: bool, tolerance: i64) -> Option<OffsetView> {
    match (foremost(s, clock, at_end, s.len() as int), hindmost(s, clock, at_end, s.len() as int)) {
        (Some(a), Some(b)) => {
            let d = timeline::gap(moment(s[a], at_end) as i64, moment(s[b], at_end) as i64);
            if a != b && d > autonomy::capped_sum(
                tolerance as int,
                autonomy::greater(timeline::period(s[a]), timeline::period(s[b])),
            ) {
                Some(OffsetView { early: a, late: b, offset: d as nat })
            } else {
                None
            }
        },
        _ => None,
    }
}

/// What is reported of the starts on some clocks.
pub open spec fn start_findings(episode: Episode, tolerance: i64, clocks: Seq<Seq<char>>) -> Seq<FindingView>
    decreases clocks.len(),
{
    if clocks.len() == 0 {
        Seq::empty()
    } else {
        let rest = start_findings(episode, tolerance, clocks.drop_last());
        let s = episode.streams@;
        match offset_on(s, clocks.last(), false, tolerance) {
            Some(x) => rest.push(start_finding(episode.index, clocks.last(), s[x.late].name@, x.offset, s[x.early].name@)),
            None => rest,
        }
    }
}

/// What is reported of the ends on some clocks.
pub open spec fn end_findings(episode: Episode, tolerance: i64, clocks: Seq<Seq<char>>) -> Seq<FindingView>
    decreases clocks.len(),
{
    if clocks.len() == 0 {
        Seq::empty()
    } else {
        let rest = end_findings(episode, tolerance, clocks.drop_last());
        let s = episode.streams@;
        match offset_on(s, clocks.last(), true, tolerance) {
            Some(x) => rest.push(end_finding(episode.index, clocks.last(), s[x.early].name@, x.offset, s[x.late].name@)),
            None => rest,
        }
    }
}

/// The clocks of the streams that can be compared, in order.
fn clocks_of(streams: &Vec<Stream>) -> (r: Vec<String>)
    ensures
        text::texts(r@) == seqs::text_set(clock_names(streams@)),
{
    let ghost s = streams@;
    let mut out: Vec<String> = Vec::new();
    let mut i: usize = 0;
    assert(text::texts(out@) =~= Seq::empty());
    while i < streams.len()
        invariant
            i <= s.len(),
            s == streams@,
            text::texts(out@) == seqs::text_set(clock_names(s.take(i as int))),
        decreases s.len() - i,
    {
        assert(s.take(i + 1).drop_last() =~= s.take(i as int));
        if streams[i].has_measured_time() && streams[i].frames.len() > 0 {
            proof {
                seqs::lemma_distinct_step(clock_names(s.take(i as int)), seqs::text_order(), s[i as int].clock_id@);
            }
            let _new: bool = put_text(&mut out, streams[i].clock_id.as_str());
        }
        i = i + 1;
    }
    assert(s.take(i as int) =~= s);
    out
}

/// When a stream starts, or ends.
fn moment_of(s: &Stream, at_end: bool) -> (r: i64)
    requires
        s.frames@.len() > 0,
    ensures
        r as int == moment(*s, at_end),
{
    match timeline::span_bounds(s) {
        Some((lo, hi)) => if at_end {
            hi
        } else {
            lo
        },
        None => 0,
    }
}

/// The two streams of a clock that lie furthest apart, where that is too far.
fn find_offset(streams: &Vec<Stream>, clock: &str, at_end: bool, tolerance: i64) -> (r: Option<(usize, usize, u64)>)
    ensures
        match r {
            Some((a, b, d)) => a < streams@.len() && b < streams@.len() && offset_on(streams@, clock@, at_end, tolerance)
                == Some((OffsetView { early: a as int, late: b as int, offset: d as nat })),
            None => offset_on(streams@, clock@, at_end, tolerance) is None,
        },
{
    let ghost s = streams@;
    let mut early: Option<usize> = None;
    let mut late: Option<usize> = None;
    let mut i: usize = 0;
    while i < streams.len()
        invariant
            i <= s.len(),
            s == streams@,
            match early {
                Some(k) => k < i && is_timed(s[k as int]) && foremost(s, clock@, at_end, i as int) == Some(k as int),
                None => foremost(s, clock@, at_end, i as int) is None,
            },
            match late {
                Some(k) => k < i && is_timed(s[k as int]) && hindmost(s, clock@, at_end, i as int) == Some(k as int),
                None => hindmost(s, clock@, at_end, i as int) is None,
            },
        decreases s.len() - i,
    {
        if streams[i].has_measured_time() && streams[i].frames.len() > 0 && same(streams[i].clock_id.as_str(), clock) {
            let m: i64 = moment_of(&streams[i], at_end);
            early = match early {
                Some(k) => if m < moment_of(&streams[k], at_end) {
                    Some(i)
                } else {
                    Some(k)
                },
                None => Some(i),
            };
            late = match late {
                Some(k) => if m < moment_of(&streams[k], at_end) {
                    Some(k)
                } else {
                    Some(i)
                },
                None => Some(i),
            };
        }
        i = i + 1;
    }
    match (early, late) {
        (Some(a), Some(b)) => {
            let d: i64 = timeline::gap_of(moment_of(&streams[a], at_end), moment_of(&streams[b], at_end));
            let p: i64 = timeline::sampling_period_ns(&streams[a]);
            let q: i64 = timeline::sampling_period_ns(&streams[b]);
            let quantum: i64 = if p >= q { p } else { q };
            proof {
                lemma_apart(s, clock@, at_end, s.len() as int);
            }
            if a != b && d as i128 > tolerance as i128 + quantum as i128 {
                Some((a, b, d as u64))
            } else {
                None
            }
        },
        _ => None,
    }
}

/// The foremost stream is not behind the hindmost.
proof fn lemma_apart(s: Seq<Stream>, clock: Seq<char>, at_end: bool, n: int)
    requires
        n <= s.len(),
    ensures
        foremost(s, clock, at_end, n) is Some <==> hindmost(s, clock, at_end, n) is Some,
        foremost(s, clock, at_end, n) matches Some(a) ==> hindmost(s, clock, at_end, n) matches Some(b) && moment(
            s[a],
            at_end,
        ) <= moment(s[b], at_end),
    decreases n,
{
    if n > 0 {
        lemma_apart(s, clock, at_end, n - 1);
    }
}

impl EpisodeRule for StartOffset {
    open spec fn of_episode(&self, episode: Episode) -> Seq<FindingView> {
        start_findings(episode, self.tolerance_ns, seqs::text_set(clock_names(episode.streams@)))
    }

    fn check_episode(&self, episode: &Episode) -> (r: Vec<Finding>) {
        broadcast use check::group_views;

        let clocks: Vec<String> = clocks_of(&episode.streams);
        let ghost t = text::texts(clocks@);
        let mut out: Vec<Finding> = Vec::new();
        let mut i: usize = 0;
        while i < clocks.len()
            invariant
                i <= clocks@.len(),
                t == text::texts(clocks@),
                check::views(out@) == start_findings(*episode, self.tolerance_ns, t.take(i as int)),
            decreases clocks@.len() - i,
        {
            assert(t[i as int] == clocks@[i as int]@);
            assert(t.take(i + 1).drop_last() =~= t.take(i as int));
            let clock: &str = clocks[i].as_str();
            if let Some((a, b, d)) = find_offset(&episode.streams, clock, false, self.tolerance_ns) {
                out.push(
                    make_start(
                        episode.index,
                        clock,
                        episode.streams[b].name.as_str(),
                        d,
                        episode.streams[a].name.as_str(),
                    ),
                );
            }
            i = i + 1;
        }
        assert(t.take(i as int) =~= t);
        out
    }
}

impl Check for StartOffset {
    open spec fn meta(&self) -> CheckMeta {
        CheckMeta {
            id: START_ID@,
            title: "Cross-stream start offset (shared clock)"@,
            category: Category::Temporal,
            default_severity: Severity::Warning,
            scope: Scope::Episode,
            version: "1"@,
            finding_codes: seq![START_CODE@],
        }
    }

    fn info(&self) -> (r: CheckInfo) {
        let finding_codes: &'static [&'static str] = &[START_CODE];
        assert(text::str_texts(finding_codes@) =~= self.meta().finding_codes);
        CheckInfo {
            id: START_ID,
            title: "Cross-stream start offset (shared clock)",
            category: Category::Temporal,
            default_severity: Severity::Warning,
            scope: Scope::Episode,
            version: "1",
            finding_codes,
        }
    }

    open spec fn report(&self, dataset: &Dataset) -> Seq<FindingView> {
        walk::by_episode(*self, dataset.episodes@)
    }

    open spec fn report_in(&self, dataset: &Dataset, frames_read: bool, attested: Seq<Seq<char>>) -> Seq<FindingView> {
        self.report(dataset)
    }

    fn run(&self, dataset: &Dataset) -> (r: Vec<Finding>) {
        walk_episodes(self, dataset)
    }

    fn run_in(&self, dataset: &Dataset, context: &CheckContext) -> (r: Vec<Finding>) {
        self.run(dataset)
    }
}

impl EpisodeRule for EndOffset {
    open spec fn of_episode(&self, episode: Episode) -> Seq<FindingView> {
        end_findings(episode, self.tolerance_ns, seqs::text_set(clock_names(episode.streams@)))
    }

    fn check_episode(&self, episode: &Episode) -> (r: Vec<Finding>) {
        broadcast use check::group_views;

        let clocks: Vec<String> = clocks_of(&episode.streams);
        let ghost t = text::texts(clocks@);
        let mut out: Vec<Finding> = Vec::new();
        let mut i: usize = 0;
        while i < clocks.len()
            invariant
                i <= clocks@.len(),
                t == text::texts(clocks@),
                check::views(out@) == end_findings(*episode, self.tolerance_ns, t.take(i as int)),
            decreases clocks@.len() - i,
        {
            assert(t[i as int] == clocks@[i as int]@);
            assert(t.take(i + 1).drop_last() =~= t.take(i as int));
            let clock: &str = clocks[i].as_str();
            if let Some((a, b, d)) = find_offset(&episode.streams, clock, true, self.tolerance_ns) {
                out.push(
                    make_end(
                        episode.index,
                        clock,
                        episode.streams[a].name.as_str(),
                        d,
                        episode.streams[b].name.as_str(),
                    ),
                );
            }
            i = i + 1;
        }
        assert(t.take(i as int) =~= t);
        out
    }
}

impl Check for EndOffset {
    open spec fn meta(&self) -> CheckMeta {
        CheckMeta {
            id: END_ID@,
            title: "Cross-stream end offset (shared clock)"@,
            category: Category::Temporal,
            default_severity: Severity::Warning,
            scope: Scope::Episode,
            version: "1"@,
            finding_codes: seq![END_CODE@],
        }
    }

    fn info(&self) -> (r: CheckInfo) {
        let finding_codes: &'static [&'static str] = &[END_CODE];
        assert(text::str_texts(finding_codes@) =~= self.meta().finding_codes);
        CheckInfo {
            id: END_ID,
            title: "Cross-stream end offset (shared clock)",
            category: Category::Temporal,
            default_severity: Severity::Warning,
            scope: Scope::Episode,
            version: "1",
            finding_codes,
        }
    }

    open spec fn report(&self, dataset: &Dataset) -> Seq<FindingView> {
        walk::by_episode(*self, dataset.episodes@)
    }

    open spec fn report_in(&self, dataset: &Dataset, frames_read: bool, attested: Seq<Seq<char>>) -> Seq<FindingView> {
        self.report(dataset)
    }

    fn run(&self, dataset: &Dataset) -> (r: Vec<Finding>) {
        walk_episodes(self, dataset)
    }

    fn run_in(&self, dataset: &Dataset, context: &CheckContext) -> (r: Vec<Finding>) {
        self.run(dataset)
    }
}

// ---- episode durations -----------------------------------------------------------------------

/// Cross-episode **duration outlier**. An episode whose duration is a large multiple away from the
/// dataset's *typical* duration is almost always a recording fault. The baseline is the **median**
/// episode duration; an episode is flagged when its duration is below `median / factor` or above
/// `median * factor`. Too few episodes with a measurable duration give no stable baseline.
#[derive(Debug)]
pub struct EpisodeDuration {
    /// An episode is an outlier when its duration is more than this multiple away (in either
    /// direction) from the dataset's median episode duration.
    pub factor: u64,
}

/// The double ten.
pub const TEN: u64 = 0x4024_0000_0000_0000;

/// The double one.
pub const ONE: u64 = 0x3ff0_0000_0000_0000;

impl Default for EpisodeDuration {
    /// Ten times.
    fn default() -> (r: Self)
        ensures
            r.factor == TEN,
    {
        EpisodeDuration { factor: TEN }
    }
}

/// Fewest episodes with a measurable duration for a baseline.
pub const DURATION_MIN_EPISODES: usize = 4;

/// The id of [`EpisodeDuration`].
pub const DURATION_ID: &'static str = "temporal.episode-duration";

/// The code of its findings.
pub const DURATION_CODE: &'static str = "TEMPORAL.EPISODE_DURATION_OUTLIER";

pub const DURATION_RISK: &'static str = "An episode far shorter or longer than the rest is usually a \
     truncated capture or a stuck recorder, not a real trajectory; training on it teaches the \
     policy from a fragment or a frozen scene while it still counts as a full labeled episode.";

pub const DURATION_REMEDY: &'static str = "Inspect the outlier episode: drop it if it is a broken \
     recording, or split it if two trajectories were merged.";

/// The finding for an episode of an unusual length.
pub open spec fn duration_finding(
    episode: u64,
    lasts: nat,
    ratio: Seq<char>,
    direction: Seq<char>,
    median: Seq<char>,
) -> FindingView {
    check::finding(
        DURATION_ID@,
        Category::Temporal,
        Severity::Warning,
        LocationView::Episode { episode },
        DURATION_CODE@,
        "episode "@ + text::dec(episode as nat) + " lasts "@ + number::millis_text(lasts) + " ms — "@
            + ratio + "x "@ + direction + " than the dataset median of "@ + median + " ms"@,
        DURATION_RISK@,
        DURATION_REMEDY@,
    )
}

/// The finding for an episode of an unusual length.
fn make_duration(episode: u64, lasts: u64, ratio: &str, direction: &str, median: &str) -> (r: Finding)
    ensures
        r@ == duration_finding(episode, lasts as nat, ratio@, direction@, median@),
{
    let message: String = cat11(
        "episode ",
        dec_u64(episode).as_str(),
        " lasts ",
        number::millis(lasts).as_str(),
        " ms — ",
        ratio,
        "x ",
        direction,
        " than the dataset median of ",
        median,
        " ms",
    );
    Finding::new(DURATION_ID, Category::Temporal, Severity::Warning, Location::Episode { episode }, DURATION_CODE, message).with_risk(
        DURATION_RISK,
    ).with_remedy(DURATION_REMEDY)
}

/// The measurable durations of episodes, in order.
pub open spec fn durations(episodes: Seq<Episode>) -> Seq<u64>
    decreases episodes.len(),
{
    if episodes.len() == 0 {
        Seq::empty()
    } else {
        match episodes.last().duration_ns {
            Some(d) => durations(episodes.drop_last()).push(d),
            None => durations(episodes.drop_last()),
        }
    }
}

/// The least duration, as a double, that is not too short.
pub open spec fn shortest(median: u64, factor: u64) -> int {
    let q = number::quotient(median, factor);
    if q < 1 { 1 } else { q }
}

/// Whether a duration is far from the median.
pub open spec fn is_unusual(d: u64, median: u64, factor: u64) -> bool {
    let bits = number::double_of(d as nat) as int;
    bits < shortest(median, factor) || bits > number::product(median, factor)
}

/// How many times the longer of a duration and the median is the shorter.
pub open spec fn times_text(d: u64, median: u64) -> Seq<char> {
    let bits = number::double_of(d as nat);
    if d == 0 {
        "inf"@
    } else if bits < median {
        number::one_decimal_text(number::quotient(median, bits) as u64)
    } else {
        number::one_decimal_text(number::quotient(bits, median) as u64)
    }
}

/// What is reported of episodes against a median.
pub open spec fn duration_findings(episodes: Seq<Episode>, median: u64, factor: u64) -> Seq<FindingView>
    decreases episodes.len(),
{
    if episodes.len() == 0 {
        Seq::empty()
    } else {
        let rest = duration_findings(episodes.drop_last(), median, factor);
        match episodes.last().duration_ns {
            Some(d) => if is_unusual(d, median, factor) {
                rest.push(
                    duration_finding(
                        episodes.last().index,
                        d as nat,
                        times_text(d, median),
                        if number::double_of(d as nat) < median { "shorter"@ } else { "longer"@ },
                        number::double_millis_text(median),
                    ),
                )
            } else {
                rest
            },
            None => rest,
        }
    }
}

impl EpisodeDuration {
    /// What the check reports.
    pub open spec fn outcome(&self, dataset: &Dataset) -> Seq<FindingView> {
        let f = self.factor;
        let all = seqs::sorted(durations(dataset.episodes@), seqs::number_order());
        let median = timeline::median(all);
        if all.len() < DURATION_MIN_EPISODES || !number::less(ONE, f) || f == number::INFINITY || median == 0 {
            Seq::empty()
        } else {
            duration_findings(dataset.episodes@, median, f)
        }
    }

    /// Reports the episodes of an unusual length.
    pub fn evaluate(&self, dataset: &Dataset) -> (r: Vec<Finding>)
        ensures
            check::views(r@) == self.outcome(dataset),
    {
        broadcast use check::group_views;

        let ghost eps = dataset.episodes@;
        let mut raw: Vec<u64> = Vec::new();
        let mut i: usize = 0;
        while i < dataset.episodes.len()
            invariant
                i <= eps.len(),
                eps == dataset.episodes@,
                raw@ == durations(eps.take(i as int)),
            decreases eps.len() - i,
        {
            assert(eps.take(i + 1).drop_last() =~= eps.take(i as int));
            if let Some(d) = dataset.episodes[i].duration_ns {
                raw.push(d);
            }
            i = i + 1;
        }
        assert(eps.take(i as int) =~= eps);
        let sorted: Vec<u64> = sort_numbers(&raw);
        let f: u64 = self.factor;
        if sorted.len() < DURATION_MIN_EPISODES || !number::lt(ONE, f) || f == number::INFINITY {
            return none();
        }
        let median: u64 = timeline::median_of(&sorted);
        if median == 0 {
            return none();
        }
        let q: i128 = number::divide(median, f);
        let low: i128 = if q < 1 { 1 } else { q };
        let high: i128 = number::multiply(median, f);
        let ms: String = number::millis_of(median);
        let mut out: Vec<Finding> = Vec::new();
        let mut k: usize = 0;
        while k < dataset.episodes.len()
            invariant
                k <= eps.len(),
                eps == dataset.episodes@,
                1022 * number::EXPONENT_UNIT <= median <= 1088 * number::EXPONENT_UNIT,
                low as int == shortest(median, f),
                high as int == number::product(median, f),
                ms@ == number::double_millis_text(median),
                check::views(out@) == duration_findings(eps.take(k as int), median, f),
            decreases eps.len() - k,
        {
            assert(eps.take(k + 1).drop_last() =~= eps.take(k as int));
            if let Some(d) = dataset.episodes[k].duration_ns {
                let bits: u64 = number::nearest(d as u128, 1);
                if (bits as i128) < low || (bits as i128) > high {
                    let ratio: String = if d == 0 {
                        String::from_str("inf")
                    } else {
                        proof {
                            number::lemma_half_bound(d as nat, 1);
                            number::lemma_nonzero(d as nat);
                            number::lemma_quotient(median, bits);
                            number::lemma_quotient(bits, median);
                        }
                        if bits < median {
                            number::tenths(number::divide(median, bits) as u64)
                        } else {
                            number::tenths(number::divide(bits, median) as u64)
                        }
                    };
                    let direction: &str = if bits < median {
                        "shorter"
                    } else {
                        "longer"
                    };
                    out.push(make_duration(dataset.episodes[k].index, d, ratio.as_str(), direction, ms.as_str()));
                }
            }
            k = k + 1;
        }
        assert(eps.take(k as int) =~= eps);
        out
    }
}

impl Check for EpisodeDuration {
    open spec fn meta(&self) -> CheckMeta {
        CheckMeta {
            id: DURATION_ID@,
            title: "Cross-episode duration outlier"@,
            category: Category::Temporal,
            default_severity: Severity::Warning,
            scope: Scope::Dataset,
            version: "1"@,
            finding_codes: seq![DURATION_CODE@],
        }
    }

    fn info(&self) -> (r: CheckInfo) {
        let finding_codes: &'static [&'static str] = &[DURATION_CODE];
        assert(text::str_texts(finding_codes@) =~= self.meta().finding_codes);
        CheckInfo {
            id: DURATION_ID,
            title: "Cross-episode duration outlier",
            category: Category::Temporal,
            default_severity: Severity::Warning,
            scope: Scope::Dataset,
            version: "1",
            finding_codes,
        }
    }

    open spec fn report(&self, dataset: &Dataset) -> Seq<FindingView> {
        self.outcome(dataset)
    }

    open spec fn report_in(&self, dataset: &Dataset, frames_read: bool, attested: Seq<Seq<char>>) -> Seq<FindingView> {
        self.report(dataset)
    }

    fn run(&self, dataset: &Dataset) -> (r: Vec<Finding>) {
        self.evaluate(dataset)
    }

    fn run_in(&self, dataset: &Dataset, context: &CheckContext) -> (r: Vec<Finding>) {
        self.run(dataset)
    }
}

// ---- clocks that measure nothing -------------------------------------------------------------

/// Streams whose timestamps are not measured time — and therefore what the rest of this family could
/// not grade. A step index is flawlessly monotonic and perfectly regular, so every other temporal
/// check would pass on it trivially; the abstention is reported rather than left as silence.
/// Informational: it changes what a passing verdict is *evidence of*.
#[derive(Debug, Clone, Copy)]
pub struct ClockMeasurability;

/// The id of [`ClockMeasurability`].
pub const CLOCK_ID: &'static str = "temporal.clock-measurability";

/// The code of its findings.
pub const UNMEASURED_CLOCK_CODE: &'static str = "TEMPORAL.UNMEASURED_CLOCK";

pub const UNMEASURED_CLOCK_RISK: &'static str = "The source records no clock, so nothing in this run \
     can tell you whether the sensors were synchronized, whether frames were dropped, or how long \
     an episode actually lasted. A clean temporal result here is the absence of a measurement, \
     not evidence of good timing.";

pub const UNMEASURED_CLOCK_REMEDY: &'static str = "Treat the temporal result as unverified for these \
     streams. If timing matters for your use, check it against the source recording the dataset \
     was converted from, or re-export in a format that carries per-frame timestamps.";

/// The finding for a clock that measures nothing.
pub open spec fn unmeasured_clock_finding(clock: Seq<char>, count: nat, names: Seq<char>) -> FindingView {
    check::finding(
        CLOCK_ID@,
        Category::Temporal,
        Severity::Info,
        LocationView::Dataset,
        UNMEASURED_CLOCK_CODE@,
        "clock `"@ + clock
            + "` carries a step index, not measured time, so the rate, gap, jitter, clock-skew, start/end-offset and episode-duration checks could not grade "@
            + text::dec(count) + " stream(s) on it ("@ + names + ")"@,
        UNMEASURED_CLOCK_RISK@,
        UNMEASURED_CLOCK_REMEDY@,
    )
}

/// The finding for a clock that measures nothing.
fn make_unmeasured_clock(clock: &str, count: usize, names: &str) -> (r: Finding)
    ensures
        r@ == unmeasured_clock_finding(clock@, count as nat, names@),
{
    let message: String = cat7(
        "clock `",
        clock,
        "` carries a step index, not measured time, so the rate, gap, jitter, clock-skew, start/end-offset and episode-duration checks could not grade ",
        dec_usize(count).as_str(),
        " stream(s) on it (",
        names,
        ")",
    );
    Finding::new(CLOCK_ID, Category::Temporal, Severity::Info, Location::Dataset, UNMEASURED_CLOCK_CODE, message).with_risk(
        UNMEASURED_CLOCK_RISK,
    ).with_remedy(UNMEASURED_CLOCK_REMEDY)
}

/// The clocks of streams with a step index, as they come.
pub open spec fn step_clocks(s: Seq<(Episode, Stream)>) -> Seq<Seq<char>>
    decreases s.len(),
{
    if s.len() == 0 {
        Seq::empty()
    } else if s.last().1.clock_kind is StepIndex {
        step_clocks(s.drop_last()).push(s.last().1.clock_id@)
    } else {
        step_clocks(s.drop_last())
    }
}

/// The names of the streams with a step index on a clock, as they come.
pub open spec fn step_streams(s: Seq<(Episode, Stream)>, clock: Seq<char>) -> Seq<Seq<char>>
    decreases s.len(),
{
    if s.len() == 0 {
        Seq::empty()
    } else if s.last().1.clock_kind is StepIndex && s.last().1.clock_id@ == clock {
        step_streams(s.drop_last(), clock).push(s.last().1.name@)
    } else {
        step_streams(s.drop_last(), clock)
    }
}

/// What is reported of some clocks.
pub open spec fn clock_findings(s: Seq<(Episode, Stream)>, clocks: Seq<Seq<char>>) -> Seq<FindingView>
    decreases clocks.len(),
{
    if clocks.len() == 0 {
        Seq::empty()
    } else {
        let names = seqs::text_set(step_streams(s, clocks.last()));
        clock_findings(s, clocks.drop_last()).push(
            unmeasured_clock_finding(clocks.last(), names.len(), lists::a_few(names)),
        )
    }
}

/// The clocks of streams with a step index, in order.
fn collect_step_clocks(dataset: &Dataset) -> (r: Vec<String>)
    ensures
        text::texts(r@) == seqs::text_set(step_clocks(walk::pairs(dataset.episodes@))),
{
    let ghost eps = dataset.episodes@;
    let mut out: Vec<String> = Vec::new();
    let mut i: usize = 0;
    assert(walk::pairs(eps.take(0)) =~= Seq::empty());
    assert(text::texts(out@) =~= Seq::empty());
    while i < dataset.episodes.len()
        invariant
            i <= eps.len(),
            eps == dataset.episodes@,
            text::texts(out@) == seqs::text_set(step_clocks(walk::pairs(eps.take(i as int)))),
        decreases eps.len() - i,
    {
        let episode: &Episode = &dataset.episodes[i];
        proof {
            walk::lemma_pairs_next(eps, i as int);
        }
        let mut j: usize = 0;
        while j < episode.streams.len()
            invariant
                i < eps.len(),
                *episode == eps[i as int],
                j <= episode.streams@.len(),
                text::texts(out@) == seqs::text_set(step_clocks(walk::pairs_before(eps, i as int, j as int))),
            decreases episode.streams@.len() - j,
        {
            let s: &Stream = &episode.streams[j];
            proof {
                let was = walk::pairs_before(eps, i as int, j as int);
                walk::lemma_pairs_step(eps, i as int, j as int);
                assert(was.push((*episode, *s)).drop_last() =~= was);
                seqs::lemma_distinct_step(step_clocks(was), seqs::text_order(), s.clock_id@);
            }
            if !s.has_measured_time() {
                let _new: bool = put_text(&mut out, s.clock_id.as_str());
            }
            j = j + 1;
        }
        i = i + 1;
    }
    assert(eps.take(i as int) =~= eps);
    out
}

/// The names of the streams with a step index on a clock, in order.
fn collect_step_streams(dataset: &Dataset, clock: &str) -> (r: Vec<String>)
    ensures
        text::texts(r@) == seqs::text_set(step_streams(walk::pairs(dataset.episodes@), clock@)),
{
    let ghost eps = dataset.episodes@;
    let mut out: Vec<String> = Vec::new();
    let mut i: usize = 0;
    assert(walk::pairs(eps.take(0)) =~= Seq::empty());
    assert(text::texts(out@) =~= Seq::empty());
    while i < dataset.episodes.len()
        invariant
            i <= eps.len(),
            eps == dataset.episodes@,
            text::texts(out@) == seqs::text_set(step_streams(walk::pairs(eps.take(i as int)), clock@)),
        decreases eps.len() - i,
    {
        let episode: &Episode = &dataset.episodes[i];
        proof {
            walk::lemma_pairs_next(eps, i as int);
        }
        let mut j: usize = 0;
        while j < episode.streams.len()
            invariant
                i < eps.len(),
                *episode == eps[i as int],
                j <= episode.streams@.len(),
                text::texts(out@) == seqs::text_set(step_streams(walk::pairs_before(eps, i as int, j as int), clock@)),
            decreases episode.streams@.len() - j,
        {
            let s: &Stream = &episode.streams[j];
            proof {
                let was = walk::pairs_before(eps, i as int, j as int);
                walk::lemma_pairs_step(eps, i as int, j as int);
                assert(was.push((*episode, *s)).drop_last() =~= was);
                seqs::lemma_distinct_step(step_streams(was, clock@), seqs::text_order(), s.name@);
            }
            if !s.has_measured_time() && same(s.clock_id.as_str(), clock) {
                let _new: bool = put_text(&mut out, s.name.as_str());
            }
            j = j + 1;
        }
        i = i + 1;
    }
    assert(eps.take(i as int) =~= eps);
    out
}

impl ClockMeasurability {
    /// What the check reports.
    pub open spec fn outcome(dataset: &Dataset) -> Seq<FindingView> {
        let s = walk::pairs(dataset.episodes@);
        clock_findings(s, seqs::text_set(step_clocks(s)))
    }

    /// Reports the clocks that measure nothing.
    pub fn evaluate(&self, dataset: &Dataset) -> (r: Vec<Finding>)
        ensures
            check::views(r@) == Self::outcome(dataset),
    {
        broadcast use check::group_views;

        let clocks: Vec<String> = collect_step_clocks(dataset);
        let ghost s = walk::pairs(dataset.episodes@);
        let ghost t = text::texts(clocks@);
        let mut out: Vec<Finding> = Vec::new();
        let mut i: usize = 0;
        while i < clocks.len()
            invariant
                i <= clocks@.len(),
                t == text::texts(clocks@),
                s == walk::pairs(dataset.episodes@),
                check::views(out@) == clock_findings(s, t.take(i as int)),
            decreases clocks@.len() - i,
        {
            assert(t[i as int] == clocks@[i as int]@);
            assert(t.take(i + 1).drop_last() =~= t.take(i as int));
            let clock: &str = clocks[i].as_str();
            let names: Vec<String> = collect_step_streams(dataset, clock);
            assert(text::texts(names@).len() == names@.len());
            out.push(make_unmeasured_clock(clock, names.len(), list_a_few(&names).as_str()));
            i = i + 1;
        }
        assert(t.take(i as int) =~= t);
        out
    }
}

impl Check for ClockMeasurability {
    open spec fn meta(&self) -> CheckMeta {
        CheckMeta {
            id: CLOCK_ID@,
            title: "Timestamps are measured time"@,
            category: Category::Temporal,
            default_severity: Severity::Info,
            scope: Scope::Dataset,
            version: "1"@,
            finding_codes: seq![UNMEASURED_CLOCK_CODE@],
        }
    }

    fn info(&self) -> (r: CheckInfo) {
        let finding_codes: &'static [&'static str] = &[UNMEASURED_CLOCK_CODE];
        assert(text::str_texts(finding_codes@) =~= self.meta().finding_codes);
        CheckInfo {
            id: CLOCK_ID,
            title: "Timestamps are measured time",
            category: Category::Temporal,
            default_severity: Severity::Info,
            scope: Scope::Dataset,
            version: "1",
            finding_codes,
        }
    }

    open spec fn report(&self, dataset: &Dataset) -> Seq<FindingView> {
        Self::outcome(dataset)
    }

    open spec fn report_in(&self, dataset: &Dataset, frames_read: bool, attested: Seq<Seq<char>>) -> Seq<FindingView> {
        self.report(dataset)
    }

    fn run(&self, dataset: &Dataset) -> (r: Vec<Finding>) {
        self.evaluate(dataset)
    }

    fn run_in(&self, dataset: &Dataset, context: &CheckContext) -> (r: Vec<Finding>) {
        self.run(dataset)
    }
}

} // verus!
