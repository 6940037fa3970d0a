//! The numeric tolerances of the checks that take one.

use vstd::prelude::*;
use vstd::string::*;

use crate::cat::cat6;
use crate::decimal;
use crate::number;
use crate::number::short_millis;
use crate::text;
use crate::text::dec_u64;

verus! {

/// Numeric tolerances for the checks that take one. Applied when the engine's checks are built, so a
/// run can loosen or tighten a threshold (e.g. a rig with a known 80 ms camera latency). Defaults
/// match each check's built-in default.
#[derive(Debug, Clone, Copy, PartialEq, Eq, Structural)]
pub struct Tolerances {
    /// Max tolerated cross-stream duration drift for `TEMPORAL.CLOCK_SKEW`, in nanoseconds.
    pub clock_skew_ns: i64,
    /// Max tolerated shared-clock start offset for `TEMPORAL.START_OFFSET`, in nanoseconds.
    pub start_offset_ns: i64,
    /// Max tolerated shared-clock end offset for `TEMPORAL.END_OFFSET`, in nanoseconds.
    pub end_offset_ns: i64,
    /// Allowed relative rate deviation for `TEMPORAL.RATE` (0.10 = 10%).
    pub rate_deviation: u64,
    /// A `TEMPORAL.GAP` fires on an interval greater than this multiple of the expected interval.
    pub gap_factor: u64,
    /// `TEMPORAL.JITTER` fires when a stream's inter-frame intervals have a coefficient of variation
    /// (std / mean) above this.
    pub jitter_cv: u64,
    /// `TEMPORAL.EPISODE_DURATION_OUTLIER` fires on an episode whose duration is more than this
    /// multiple away (either direction) from the dataset's median episode duration.
    pub episode_duration_factor: u64,
    /// `STATISTICAL.SATURATED` fires when at least this fraction of a stream's recomputed values sit
    /// exactly pinned at one extreme (0.50 = half the samples).
    pub saturation_fraction: u64,
    /// `STATISTICAL.SATURATED` abstains on streams with fewer than this many recomputed samples.
    pub saturation_min_samples: u64,
    /// `STATISTICAL.OUTLIER` fires on a value at least this many standard deviations from the mean.
    pub outlier_z: u64,
    /// `AUTONOMY.SEQUENCE_COMPLETE` fires when more than this fraction of the frames a rig sensor's
    /// own median cadence implies over its span are missing (0.05 = 5%).
    pub sequence_drop_fraction: u64,
    /// `AUTONOMY.EGO_POSE_CONTINUITY` fires on an ego-trajectory step implying a speed above this, in
    /// metres per second — a teleport rather than motion.
    pub ego_max_speed_mps: u64,
    /// `STRUCTURAL.NEAR_DUPLICATE_EPISODE` fires on two episodes that share at least this fraction of
    /// their frames.
    pub near_duplicate_fraction: u64,
    /// Max tolerated disagreement between a sensor's own capture stamps and the recorder's clock, in
    /// nanoseconds.
    pub sensor_clock_offset_ns: i64,
}

/// The tolerances where nothing is configured.
pub open spec fn default_tolerances() -> Tolerances {
    Tolerances {
        clock_skew_ns: 50_000_000,
        start_offset_ns: 50_000_000,
        end_offset_ns: 50_000_000,
        rate_deviation: 0x3fb9_9999_9999_999a,
        gap_factor: 0x4008_0000_0000_0000,
        jitter_cv: 0x3fe0_0000_0000_0000,
        episode_duration_factor: 0x4024_0000_0000_0000,
        saturation_fraction: 0x3fe0_0000_0000_0000,
        saturation_min_samples: 20,
        outlier_z: 0x4024_0000_0000_0000,
        sequence_drop_fraction: 0x3fa9_9999_9999_999a,
        ego_max_speed_mps: 0x4059_0000_0000_0000,
        near_duplicate_fraction: 0x3fec_cccc_cccc_cccd,
        sensor_clock_offset_ns: 50_000_000,
    }
}

impl Default for Tolerances {
    fn default() -> (r: Self)
        ensures
            r == default_tolerances(),
    {
        Tolerances {
            clock_skew_ns: 50_000_000,
            start_offset_ns: 50_000_000,
            end_offset_ns: 50_000_000,
            rate_deviation: 0x3fb9_9999_9999_999a,
            gap_factor: 0x4008_0000_0000_0000,
            jitter_cv: 0x3fe0_0000_0000_0000,
            episode_duration_factor: 0x4024_0000_0000_0000,
            saturation_fraction: 0x3fe0_0000_0000_0000,
            saturation_min_samples: 20,
            outlier_z: 0x4024_0000_0000_0000,
            sequence_drop_fraction: 0x3fa9_9999_9999_999a,
            ego_max_speed_mps: 0x4059_0000_0000_0000,
            near_duplicate_fraction: 0x3fec_cccc_cccc_cccd,
            sensor_clock_offset_ns: 50_000_000,
        }
    }
}

/// A threshold, or another where it is not finite.
pub open spec fn finite_or(t: u64, other: u64) -> u64 {
    if number::is_finite(t) { t } else { other }
}

/// Tolerances with a default in place of each threshold that is not finite.
pub open spec fn sanitized(t: Tolerances) -> Tolerances {
    let d = default_tolerances();
    Tolerances {
        rate_deviation: finite_or(t.rate_deviation, d.rate_deviation),
        gap_factor: finite_or(t.gap_factor, d.gap_factor),
        jitter_cv: finite_or(t.jitter_cv, d.jitter_cv),
        episode_duration_factor: finite_or(t.episode_duration_factor, d.episode_duration_factor),
        saturation_fraction: finite_or(t.saturation_fraction, d.saturation_fraction),
        outlier_z: finite_or(t.outlier_z, d.outlier_z),
        sequence_drop_fraction: finite_or(t.sequence_drop_fraction, d.sequence_drop_fraction),
        ego_max_speed_mps: finite_or(t.ego_max_speed_mps, d.ego_max_speed_mps),
        near_duplicate_fraction: finite_or(t.near_duplicate_fraction, d.near_duplicate_fraction),
        ..t
    }
}

/// A threshold, or another where it is not finite.
fn fix(t: u64, other: u64) -> (r: u64)
    ensures
        r == finite_or(t, other),
{
    if number::finite(t) {
        t
    } else {
        other
    }
}

impl Tolerances {
    /// Replace any non-finite threshold with its default. Such a tolerance would serialize to JSON
    /// `null`, so a signed certificate embedding it could never be re-verified, and it would silently
    /// disable the checks that guard on it.
    pub fn finite_or_default(self) -> (r: Tolerances)
        ensures
            r == sanitized(self),
    {
        let d: Tolerances = Tolerances::default();
        Tolerances {
            clock_skew_ns: self.clock_skew_ns,
            start_offset_ns: self.start_offset_ns,
            end_offset_ns: self.end_offset_ns,
            rate_deviation: fix(self.rate_deviation, d.rate_deviation),
            gap_factor: fix(self.gap_factor, d.gap_factor),
            jitter_cv: fix(self.jitter_cv, d.jitter_cv),
            episode_duration_factor: fix(self.episode_duration_factor, d.episode_duration_factor),
            saturation_fraction: fix(self.saturation_fraction, d.saturation_fraction),
            saturation_min_samples: self.saturation_min_samples,
            outlier_z: fix(self.outlier_z, d.outlier_z),
            sequence_drop_fraction: fix(self.sequence_drop_fraction, d.sequence_drop_fraction),
            ego_max_speed_mps: fix(self.ego_max_speed_mps, d.ego_max_speed_mps),
            near_duplicate_fraction: fix(self.near_duplicate_fraction, d.near_duplicate_fraction),
            sensor_clock_offset_ns: self.sensor_clock_offset_ns,
        }
    }
}

/// Sanitized tolerances are finite, and sanitizing them again changes nothing.
pub proof fn law_sanitizing_settles(t: Tolerances)
    ensures
        sanitized(sanitized(t)) == sanitized(t),
        number::is_finite(sanitized(t).rate_deviation),
        number::is_finite(sanitized(t).gap_factor),
        number::is_finite(sanitized(t).jitter_cv),
        number::is_finite(sanitized(t).episode_duration_factor),
        number::is_finite(sanitized(t).saturation_fraction),
        number::is_finite(sanitized(t).outlier_z),
        number::is_finite(sanitized(t).sequence_drop_fraction),
        number::is_finite(sanitized(t).ego_max_speed_mps),
        number::is_finite(sanitized(t).near_duplicate_fraction),
{
}

// ---- loosening -------------------------------------------------------------------------------

/// What is said of a threshold that was moved.
pub open spec fn moved(key: Seq<char>, now: Seq<char>, was: Seq<char>) -> Seq<char> {
    key + " = "@ + now + " (default "@ + was + ")"@
}

/// What is said of a time that is longer than by default.
pub open spec fn longer(key: Seq<char>, now: i64, was: i64) -> Seq<Seq<char>> {
    if was < now {
        seq![moved(key, number::short_millis_text(now as int), number::short_millis_text(was as int))]
    } else {
        Seq::empty()
    }
}

/// What is said of a double that is larger than by default.
pub open spec fn larger(key: Seq<char>, now: u64, was: u64) -> Seq<Seq<char>> {
    if number::less(was, now) {
        seq![moved(key, decimal::short_text(now), decimal::short_text(was))]
    } else {
        Seq::empty()
    }
}

/// What is said of a count that is larger than by default.
pub open spec fn more(key: Seq<char>, now: u64, was: u64) -> Seq<Seq<char>> {
    if was < now {
        seq![moved(key, text::dec(now as nat), text::dec(was as nat))]
    } else {
        Seq::empty()
    }
}

/// The thresholds that are looser than by default. A check fires beyond its threshold, or abstains
/// below it, so that a larger one is always the looser one; a tighter one is not named.
pub open spec fn loosened(t: Tolerances) -> Seq<Seq<char>> {
    let d = default_tolerances();
    longer("clock_skew_ms"@, t.clock_skew_ns, d.clock_skew_ns) + longer(
        "start_offset_ms"@,
        t.start_offset_ns,
        d.start_offset_ns,
    ) + longer("end_offset_ms"@, t.end_offset_ns, d.end_offset_ns) + larger(
        "rate_deviation"@,
        t.rate_deviation,
        d.rate_deviation,
    ) + larger("gap_factor"@, t.gap_factor, d.gap_factor) + larger("jitter_cv"@, t.jitter_cv, d.jitter_cv) + larger(
        "episode_duration_factor"@,
        t.episode_duration_factor,
        d.episode_duration_factor,
    ) + larger("saturation_fraction"@, t.saturation_fraction, d.saturation_fraction) + more(
        "saturation_min_samples"@,
        t.saturation_min_samples,
        d.saturation_min_samples,
    ) + larger("outlier_z"@, t.outlier_z, d.outlier_z) + larger(
        "sequence_drop_fraction"@,
        t.sequence_drop_fraction,
        d.sequence_drop_fraction,
    ) + larger("ego_max_speed_mps"@, t.ego_max_speed_mps, d.ego_max_speed_mps) + larger(
        "near_duplicate_fraction"@,
        t.near_duplicate_fraction,
        d.near_duplicate_fraction,
    ) + longer("sensor_clock_offset_ms"@, t.sensor_clock_offset_ns, d.sensor_clock_offset_ns)
}

/// Names a time where it is longer than by default.
fn name_longer(out: &mut Vec<String>, key: &str, now: i64, was: i64)
    ensures
        text::texts(final(out)@) == text::texts(old(out)@) + longer(key@, now, was),
{
    if was < now {
        out.push(cat6(key, " = ", short_millis(now).as_str(), " (default ", short_millis(was).as_str(), ")"));
    }
    assert(text::texts(out@) =~= text::texts(old(out)@) + longer(key@, now, was));
}

/// Names a double where it is larger than by default.
fn name_larger(out: &mut Vec<String>, key: &str, now: u64, was: u64)
    ensures
        text::texts(final(out)@) == text::texts(old(out)@) + larger(key@, now, was),
{
    if number::lt(was, now) {
        out.push(cat6(key, " = ", decimal::short(now).as_str(), " (default ", decimal::short(was).as_str(), ")"));
    }
    assert(text::texts(out@) =~= text::texts(old(out)@) + larger(key@, now, was));
}

/// Names a count where it is larger than by default.
fn name_more(out: &mut Vec<String>, key: &str, now: u64, was: u64)
    ensures
        text::texts(final(out)@) == text::texts(old(out)@) + more(key@, now, was),
{
    if was < now {
        out.push(cat6(key, " = ", dec_u64(now).as_str(), " (default ", dec_u64(was).as_str(), ")"));
    }
    assert(text::texts(out@) =~= text::texts(old(out)@) + more(key@, now, was));
}

/// The thresholds that are looser than by default, each with its value and the default.
pub fn loosened_tolerances(t: &Tolerances) -> (r: Vec<String>)
    ensures
        text::texts(r@) == loosened(*t),
{
    let d: Tolerances = Tolerances::default();
    let mut out: Vec<String> = Vec::new();
    assert(text::texts(out@) =~= Seq::empty());
    name_longer(&mut out, "clock_skew_ms", t.clock_skew_ns, d.clock_skew_ns);
    name_longer(&mut out, "start_offset_ms", t.start_offset_ns, d.start_offset_ns);
    name_longer(&mut out, "end_offset_ms", t.end_offset_ns, d.end_offset_ns);
    name_larger(&mut out, "rate_deviation", t.rate_deviation, d.rate_deviation);
    name_larger(&mut out, "gap_factor", t.gap_factor, d.gap_factor);
    name_larger(&mut out, "jitter_cv", t.jitter_cv, d.jitter_cv);
    name_larger(&mut out, "episode_duration_factor", t.episode_duration_factor, d.episode_duration_factor);
    name_larger(&mut out, "saturation_fraction", t.saturation_fraction, d.saturation_fraction);
    name_more(&mut out, "saturation_min_samples", t.saturation_min_samples, d.saturation_min_samples);
    name_larger(&mut out, "outlier_z", t.outlier_z, d.outlier_z);
    name_larger(&mut out, "sequence_drop_fraction", t.sequence_drop_fraction, d.sequence_drop_fraction);
    name_larger(&mut out, "ego_max_speed_mps", t.ego_max_speed_mps, d.ego_max_speed_mps);
    name_larger(&mut out, "near_duplicate_fraction", t.near_duplicate_fraction, d.near_duplicate_fraction);
    name_longer(&mut out, "sensor_clock_offset_ms", t.sensor_clock_offset_ns, d.sensor_clock_offset_ns);
    assert(text::texts(out@) =~= loosened(*t));
    out
}

/// A run is named as loosened exactly where some threshold exceeds its default: one that is only
/// tightened never is.
pub proof fn law_only_larger_thresholds_are_loosened(t: Tolerances)
    ensures
        loosened(t).len() == 0 <==> {
            let d = default_tolerances();
            &&& t.clock_skew_ns <= d.clock_skew_ns
            &&& t.start_offset_ns <= d.start_offset_ns
            &&& t.end_offset_ns <= d.end_offset_ns
            &&& !number::less(d.rate_deviation, t.rate_deviation)
            &&& !number::less(d.gap_factor, t.gap_factor)
            &&& !number::less(d.jitter_cv, t.jitter_cv)
            &&& !number::less(d.episode_duration_factor, t.episode_duration_factor)
            &&& !number::less(d.saturation_fraction, t.saturation_fraction)
            &&& t.saturation_min_samples <= d.saturation_min_samples
            &&& !number::less(d.outlier_z, t.outlier_z)
            &&& !number::less(d.sequence_drop_fraction, t.sequence_drop_fraction)
            &&& !number::less(d.ego_max_speed_mps, t.ego_max_speed_mps)
            &&& !number::less(d.near_duplicate_fraction, t.near_duplicate_fraction)
            &&& t.sensor_clock_offset_ns <= d.sensor_clock_offset_ns
        },
        loosened(default_tolerances()).len() == 0,
{
}

} // verus!
