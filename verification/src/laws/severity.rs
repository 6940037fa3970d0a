//! Laws of how grave a finding is, and of whose it is.

use vstd::prelude::*;
use vstd::string::*;

use crate::cdm::{Episode, Stream, StreamStats};
use crate::check::{Check, FindingView, Severity};
use crate::checks::autonomy;
use crate::checks::autonomy::{EgoPoseContinuity, GnssPlausibility, RigSync, SequenceComplete};
use crate::checks::calibration;
use crate::checks::calibration::{CalibrationCompleteness, SensorFrameResolution};
use crate::checks::duplicates;
use crate::checks::duplicates::DuplicateEpisode;
use crate::checks::near_duplicates;
use crate::checks::near_duplicates::NearDuplicateEpisode;
use crate::checks::provenance;
use crate::checks::provenance::ProvenanceCompleteness;
use crate::checks::semantic;
use crate::checks::semantic::{AnnotationIntegrity, StreamKeyClarity, TaskQuality};
use crate::checks::statistical;
use crate::checks::statistical::{DEGENERATE_CODE, DTYPE_CODE, DeclaredRangeConformance, ExtremeOutlier, INVERTED_CODE, MEAN_CODE, NEGATIVE_STD_CODE, NON_FINITE_CODE, NonFiniteObserved, RangeSanity, STD_CODE, Saturation, StoredVsObserved, ValueMeasurability};
use crate::checks::structural;
use crate::checks::structural::{EpisodeBoundary, FrozenEpisode, ShapeConsistency};
use crate::checks::temporal;
use crate::checks::temporal::{ClockMeasurability, ClockSkew, EndOffset, EpisodeDuration, Gaps, Jitter, Monotonicity, RateConformance, RateConsistency, RateValidity, StartOffset};
use crate::checks::video;
use crate::checks::video::{MediaConformance, MediaReadable};
use crate::checks::walk::KeyedRule;
use crate::laws::values;

verus! {

/// Whether a finding is a check's own, under its id and in its category, and as grave as said.
pub open spec fn is_own<C: Check>(check: C, f: FindingView, severity: Severity) -> bool {
    f.check_id == check.meta().id && f.category == check.meta().category && f.severity == severity
}

/// What is wrong with observed values is an error where values are no numbers or go beyond what is
/// stored, and a warning where they are pinned, leave the declared range or lie far off.
pub proof fn law_how_grave_observed_values_are(
    broken: NonFiniteObserved,
    stale: StoredVsObserved,
    pinned: Saturation,
    range: DeclaredRangeConformance,
    outlier: ExtremeOutlier,
    e: Episode,
    s: Stream,
)
    ensures
        broken.hit(e, s) matches Some(h) ==> is_own(broken, h.1, Severity::Error),
        stale.hit(e, s) matches Some(h) ==> is_own(stale, h.1, Severity::Error),
        pinned.hit(e, s) matches Some(h) ==> is_own(pinned, h.1, Severity::Warning),
        range.hit(e, s) matches Some(h) ==> is_own(range, h.1, Severity::Warning),
        outlier.hit(e, s) matches Some(h) ==> is_own(outlier, h.1, Severity::Warning),
{
}

/// What is wrong with stored statistics is an error, but for values that never change, which are worth a
/// warning.
pub proof fn law_how_grave_stored_statistics_are(check: RangeSanity, s: Stream, episode: u64, x: StreamStats, dim: Option<u64>)
    ensures
        statistical::defect(s, episode, x, dim) matches Some(f) ==> is_own(
            check,
            f,
            if f.code == DEGENERATE_CODE@ { Severity::Warning } else { Severity::Error },
        ),
{
    values::law_stored_statistics_are_judged(s, episode, x, dim);
    reveal_strlit("STATISTICAL.DEGENERATE");
    reveal_strlit("STATISTICAL.NON_FINITE");
    reveal_strlit("STATISTICAL.RANGE_INVERTED");
    reveal_strlit("STATISTICAL.NEGATIVE_STD");
    reveal_strlit("STATISTICAL.MEAN_OUT_OF_RANGE");
    reveal_strlit("STATISTICAL.STD_IMPLAUSIBLE");
    reveal_strlit("STATISTICAL.DTYPE_RANGE");
    assert(DEGENERATE_CODE@.len() == 22 && DEGENERATE_CODE@[13] == 'E');
    assert(NON_FINITE_CODE@.len() == 22 && NON_FINITE_CODE@[13] == 'O');
    assert(INVERTED_CODE@.len() == 26);
    assert(NEGATIVE_STD_CODE@.len() == 24);
    assert(MEAN_CODE@.len() == 29);
    assert(STD_CODE@.len() == 27);
    assert(DTYPE_CODE@.len() == 23);
}

/// A rig out of step, a position that cannot be, a jump and a pose that is nowhere are errors; a
/// position that is unset and a sequence that lacks frames are warnings.
pub proof fn law_how_grave_autonomy_findings_are(
    ego_pose_continuity: EgoPoseContinuity,
    gnss_plausibility: GnssPlausibility,
    rig_sync: RigSync,
    sequence_complete: SequenceComplete,
)
    ensures
        forall|episode: u64, tight: Seq<char>, tight_ns: nat, wide: Seq<char>, wide_ns: nat, spread: nat, sensors: nat| is_own(rig_sync, #[trigger] autonomy::rig_sync_finding(episode, tight, tight_ns, wide, wide_ns, spread, sensors), Severity::Error),
        forall|episode: u64, name: Seq<char>, axis: Seq<char>, value: Seq<char>, low: Seq<char>, high: Seq<char>| is_own(gnss_plausibility, #[trigger] autonomy::gnss_implausible_finding(episode, name, axis, value, low, high), Severity::Error),
        forall|episode: u64, name: Seq<char>| is_own(gnss_plausibility, #[trigger] autonomy::gnss_unset_finding(episode, name), Severity::Warning),
        forall|episode: u64, name: Seq<char>, percent: Seq<char>, arrived: nat, cadence: nat, missing: nat| is_own(sequence_complete, #[trigger] autonomy::sequence_finding(episode, name, percent, arrived, cadence, missing), Severity::Warning),
        forall|episode: u64, steps: nat| is_own(ego_pose_continuity, #[trigger] autonomy::ego_non_finite_finding(episode, steps), Severity::Error),
        forall|episode: u64, jumps: nat, plural: Seq<char>, speed: Seq<char>, at: int, max: Seq<char>| is_own(ego_pose_continuity, #[trigger] autonomy::ego_jump_finding(episode, jumps, plural, speed, at, max), Severity::Error),
{
}

/// A calibration that cannot be used or is ambiguous is an error, as is a sensor in a frame that is
/// unknown or apart; one that is incomplete, or a sensor that says no frame, is worth a warning.
pub proof fn law_how_grave_calibration_findings_are(
    calibration_completeness: CalibrationCompleteness,
    sensor_frame_resolution: SensorFrameResolution,
)
    ensures
        forall|episode: u64, reason: Seq<char>| is_own(calibration_completeness, #[trigger] calibration::incomplete_finding(episode, reason), Severity::Warning),
        forall|episode: u64, reason: Seq<char>| is_own(calibration_completeness, #[trigger] calibration::implausible_finding(episode, reason), Severity::Error),
        forall|episode: u64, reason: Seq<char>| is_own(calibration_completeness, #[trigger] calibration::ambiguous_finding(episode, reason), Severity::Error),
        forall|episode: u64, name: Seq<char>| is_own(sensor_frame_resolution, #[trigger] calibration::undeclared_finding(episode, name), Severity::Warning),
        forall|episode: u64, name: Seq<char>, frame: Seq<char>| is_own(sensor_frame_resolution, #[trigger] calibration::unknown_finding(episode, name, frame), Severity::Error),
        forall|episode: u64, name: Seq<char>, frame: Seq<char>, cameras: Seq<char>| is_own(sensor_frame_resolution, #[trigger] calibration::unrelated_finding(episode, name, frame, cameras), Severity::Error),
{
}

/// Exact duplicates are worth a warning.
pub proof fn law_how_grave_duplicates_findings_are(duplicate_episode: DuplicateEpisode)
    ensures
        forall|group: Seq<u64>| is_own(duplicate_episode, #[trigger] duplicates::duplicate_finding(group), Severity::Warning),
{
}

/// Near duplicates are worth a warning; what was not examined is a note.
pub proof fn law_how_grave_near_duplicates_findings_are(near_duplicate_episode: NearDuplicateEpisode)
    ensures
        forall|indices: Seq<u64>, share: u64| is_own(near_duplicate_episode, #[trigger] near_duplicates::near_finding(indices, share), Severity::Warning),
        forall|overflowed: bool, unexamined: nat| is_own(near_duplicate_episode, #[trigger] near_duplicates::abstention_finding(overflowed, unexamined), Severity::Info),
{
}

/// A contrary element is worth a warning; one that only stands in for a value is a note.
pub proof fn law_how_grave_provenance_findings_are(provenance_completeness: ProvenanceCompleteness)
    ensures
        forall|key: Seq<char>, class: Seq<char>, what: Seq<char>| is_own(provenance_completeness, #[trigger] provenance::inconsistent_finding(key, class, what), Severity::Warning),
        forall|key: Seq<char>, class: Seq<char>, value: Seq<char>| is_own(provenance_completeness, #[trigger] provenance::placeholder_finding(key, class, value), Severity::Info),
{
}

/// A note off its episode and a name that is taken twice are errors; an empty task or note, notes that
/// contradict and names that are easily mistaken are warnings; a task that says nothing is a note.
pub proof fn law_how_grave_semantic_findings_are(
    annotation_integrity: AnnotationIntegrity,
    stream_key_clarity: StreamKeyClarity,
    task_quality: TaskQuality,
)
    ensures
        forall|episode: u64| is_own(task_quality, #[trigger] semantic::empty_task_finding(episode), Severity::Warning),
        forall|episode: u64, task: Seq<char>| is_own(task_quality, #[trigger] semantic::placeholder_task_finding(episode, task), Severity::Info),
        forall|episode: u64| is_own(annotation_integrity, #[trigger] semantic::empty_annotation_finding(episode), Severity::Warning),
        forall|episode: u64, at: i64, lo: i64, hi: i64| is_own(annotation_integrity, #[trigger] semantic::unaligned_finding(episode, at, lo, hi), Severity::Error),
        forall|episode: u64, count: nat, at: i64, names: Seq<char>| is_own(annotation_integrity, #[trigger] semantic::conflict_finding(episode, count, at, names), Severity::Warning),
        forall|episode: u64, name: Seq<char>, count: nat| is_own(stream_key_clarity, #[trigger] semantic::duplicate_key_finding(episode, name, count), Severity::Error),
        forall|episode: u64, name: Seq<char>, others: Seq<char>| is_own(stream_key_clarity, #[trigger] semantic::ambiguous_key_finding(episode, name, others), Severity::Warning),
{
}

/// What was not measured is a note.
pub proof fn law_how_grave_statistical_findings_are(value_measurability: ValueMeasurability)
    ensures
        forall|count: nat, names: Seq<char>| is_own(value_measurability, #[trigger] statistical::unmeasured_finding(count, names), Severity::Info),
        forall|count: nat, names: Seq<char>| is_own(value_measurability, #[trigger] statistical::no_stored_finding(count, names), Severity::Info),
{
}

/// An index that two episodes have and shapes that disagree are errors; a frozen recording is worth a
/// warning.
pub proof fn law_how_grave_structural_findings_are(
    episode_boundary: EpisodeBoundary,
    frozen_episode: FrozenEpisode,
    shape_consistency: ShapeConsistency,
)
    ensures
        forall|index: u64, count: nat| is_own(episode_boundary, #[trigger] structural::duplicate_index(index, count), Severity::Error),
        forall|name: Seq<char>, episode: u64, moving: nat, examined: nat| is_own(frozen_episode, #[trigger] structural::frozen_finding(name, episode, moving, examined), Severity::Warning),
        forall|episode: Episode, stream: Stream, at: u64, base: Seq<char>, here: Seq<char>| is_own(shape_consistency, #[trigger] structural::shape_finding(episode, stream, at, base, here), Severity::Error),
{
}

/// Setbacks, rates that are none and clocks that drift are errors; rates that are off or change, gaps,
/// jitter, offsets and unusual lengths are warnings; a clock that carries no time is a note.
pub proof fn law_how_grave_temporal_findings_are(
    clock_measurability: ClockMeasurability,
    clock_skew: ClockSkew,
    end_offset: EndOffset,
    episode_duration: EpisodeDuration,
    gaps: Gaps,
    jitter: Jitter,
    monotonicity: Monotonicity,
    rate_conformance: RateConformance,
    rate_consistency: RateConsistency,
    rate_validity: RateValidity,
    start_offset: StartOffset,
)
    ensures
        forall|episode: u64, name: Seq<char>, start_frame: u64, end_frame: u64, prev: i64, cur: i64, shared: Seq<char>| is_own(monotonicity, #[trigger] temporal::non_monotonic_finding(episode, name, start_frame, end_frame, prev, cur, shared), Severity::Error),
        forall|episode: u64, name: Seq<char>, observed: Seq<char>, declared: Seq<char>, percent: Seq<char>| is_own(rate_conformance, #[trigger] temporal::rate_finding(episode, name, observed, declared, percent), Severity::Warning),
        forall|episode: u64, name: Seq<char>, declared: Seq<char>| is_own(rate_validity, #[trigger] temporal::invalid_rate_finding(episode, name, declared), Severity::Error),
        forall|episode: u64, name: Seq<char>, base: Seq<char>, base_episode: u64, here: Seq<char>| is_own(rate_consistency, #[trigger] temporal::inconsistent_finding(episode, name, base, base_episode, here), Severity::Warning),
        forall|episode: u64, name: Seq<char>, start_ts: i64, end_ts: i64, interval: Seq<char>, expected: Seq<char>, shared: Seq<char>| is_own(gaps, #[trigger] temporal::gap_finding(episode, name, start_ts, end_ts, interval, expected, shared), Severity::Warning),
        forall|episode: u64, name: Seq<char>, cv: Seq<char>, max: Seq<char>, mean: Seq<char>, shared: Seq<char>| is_own(jitter, #[trigger] temporal::jitter_finding(episode, name, cv, max, mean, shared), Severity::Warning),
        forall|episode: u64, a: Seq<char>, clock_a: Seq<char>, span_a: nat, b: Seq<char>, clock_b: Seq<char>, span_b: nat, drift: nat| is_own(clock_skew, #[trigger] temporal::skew_finding(episode, a, clock_a, span_a, b, clock_b, span_b, drift), Severity::Error),
        forall|episode: u64, clock: Seq<char>, late: Seq<char>, offset: nat, early: Seq<char>| is_own(start_offset, #[trigger] temporal::start_finding(episode, clock, late, offset, early), Severity::Warning),
        forall|episode: u64, clock: Seq<char>, early: Seq<char>, offset: nat, late: Seq<char>| is_own(end_offset, #[trigger] temporal::end_finding(episode, clock, early, offset, late), Severity::Warning),
        forall|episode: u64, lasts: nat, ratio: Seq<char>, direction: Seq<char>, median: Seq<char>| is_own(episode_duration, #[trigger] temporal::duration_finding(episode, lasts, ratio, direction, median), Severity::Warning),
        forall|clock: Seq<char>, count: nat, names: Seq<char>| is_own(clock_measurability, #[trigger] temporal::unmeasured_clock_finding(clock, count, names), Severity::Info),
{
}

/// Media that are missing, absent, unreadable or of another length are errors; those that cannot be
/// told apart are a note.
pub proof fn law_how_grave_video_findings_are(media_conformance: MediaConformance, media_readable: MediaReadable)
    ensures
        forall|episode: u64, name: Seq<char>, reason: Seq<char>| is_own(media_readable, #[trigger] video::unattributed_finding(episode, name, reason), Severity::Info),
        forall|episode: u64, name: Seq<char>, uri: Seq<char>, count: nat| is_own(media_readable, #[trigger] video::absent_finding(episode, name, uri, count), Severity::Error),
        forall|episode: u64, name: Seq<char>, uri: Seq<char>| is_own(media_readable, #[trigger] video::missing_finding(episode, name, uri), Severity::Error),
        forall|episode: u64, name: Seq<char>, uri: Seq<char>, reason: Seq<char>| is_own(media_readable, #[trigger] video::unreadable_finding(episode, name, uri, reason), Severity::Error),
        forall|episode: u64, name: Seq<char>, uri: Seq<char>, held: u64, recorded: nat| is_own(media_conformance, #[trigger] video::frame_count_finding(episode, name, uri, held, recorded), Severity::Error),
{
}

} // verus!
