//! The standard checks, in a stable order, and the engine preloaded with them.

use vstd::prelude::*;

use crate::cdm::Dataset;
use crate::check::{Check, CheckContext, CheckInfo, CheckMeta, Finding, FindingView};
use crate::checks::autonomy;
use crate::checks::calibration;
use crate::checks::duplicates;
use crate::checks::near_duplicates;
use crate::checks::provenance;
use crate::checks::semantic;
use crate::checks::statistical;
use crate::checks::structural;
use crate::checks::temporal;
use crate::checks::video;
use crate::checks::autonomy::{EgoPoseContinuity, RigSync, SequenceComplete};
use crate::checks::calibration::{CalibrationCompleteness, SensorFrameResolution};
use crate::checks::duplicates::DuplicateEpisode;
use crate::checks::near_duplicates::NearDuplicateEpisode;
use crate::checks::provenance::ProvenanceCompleteness;
use crate::checks::semantic::{AnnotationIntegrity, StreamKeyClarity, TaskQuality};
use crate::checks::statistical::{DeclaredRangeConformance, ExtremeOutlier, NonFiniteObserved, RangeSanity, Saturation, StoredVsObserved, ValueMeasurability};
use crate::checks::structural::{ContentMeasurability, DeclaredEpisodeCount, DeclaredFrameCount, DegenerateEpisode, EpisodeBoundary, EpisodeContinuity, FrozenEpisode, ShapeConsistency, StepAlignment, StreamPresence, StuckStream};
use crate::checks::temporal::{ClockMeasurability, ClockSkew, EndOffset, EpisodeDuration, Gaps, Jitter, Monotonicity, RateConformance, RateConsistency, RateValidity, StartOffset};
use crate::checks::video::{MediaConformance, MediaReadable};
use crate::engine;
use crate::engine::{Engine, EngineBuilder, RegistryError};
use crate::tolerances;
use crate::tolerances::Tolerances;

verus! {

/// One of the standard checks.
#[derive(Debug)]
pub enum StandardCheck {
    /// See [`EpisodeBoundary`].
    EpisodeBoundary(EpisodeBoundary),
    /// See [`DegenerateEpisode`].
    DegenerateEpisode(DegenerateEpisode),
    /// See [`EpisodeContinuity`].
    EpisodeContinuity(EpisodeContinuity),
    /// See [`DeclaredEpisodeCount`].
    DeclaredEpisodeCount(DeclaredEpisodeCount),
    /// See [`DeclaredFrameCount`].
    DeclaredFrameCount(DeclaredFrameCount),
    /// See [`ShapeConsistency`].
    ShapeConsistency(ShapeConsistency),
    /// See [`StreamPresence`].
    StreamPresence(StreamPresence),
    /// See [`ContentMeasurability`].
    ContentMeasurability(ContentMeasurability),
    /// See [`DuplicateEpisode`].
    DuplicateEpisode(DuplicateEpisode),
    /// See [`NearDuplicateEpisode`].
    NearDuplicateEpisode(NearDuplicateEpisode),
    /// See [`StuckStream`].
    StuckStream(StuckStream),
    /// See [`StepAlignment`].
    StepAlignment(StepAlignment),
    /// See [`FrozenEpisode`].
    FrozenEpisode(FrozenEpisode),
    /// See [`ClockMeasurability`].
    ClockMeasurability(ClockMeasurability),
    /// See [`Monotonicity`].
    Monotonicity(Monotonicity),
    /// See [`RateValidity`].
    RateValidity(RateValidity),
    /// See [`RateConformance`].
    RateConformance(RateConformance),
    /// See [`Gaps`].
    Gaps(Gaps),
    /// See [`Jitter`].
    Jitter(Jitter),
    /// See [`ClockSkew`].
    ClockSkew(ClockSkew),
    /// See [`StartOffset`].
    StartOffset(StartOffset),
    /// See [`EndOffset`].
    EndOffset(EndOffset),
    /// See [`RateConsistency`].
    RateConsistency(RateConsistency),
    /// See [`EpisodeDuration`].
    EpisodeDuration(EpisodeDuration),
    /// See [`RigSync`].
    RigSync(RigSync),
    /// See [`SequenceComplete`].
    SequenceComplete(SequenceComplete),
    /// See [`EgoPoseContinuity`].
    EgoPoseContinuity(EgoPoseContinuity),
    /// See [`CalibrationCompleteness`].
    CalibrationCompleteness(CalibrationCompleteness),
    /// See [`SensorFrameResolution`].
    SensorFrameResolution(SensorFrameResolution),
    /// See [`ValueMeasurability`].
    ValueMeasurability(ValueMeasurability),
    /// See [`RangeSanity`].
    RangeSanity(RangeSanity),
    /// See [`StoredVsObserved`].
    StoredVsObserved(StoredVsObserved),
    /// See [`Saturation`].
    Saturation(Saturation),
    /// See [`ExtremeOutlier`].
    ExtremeOutlier(ExtremeOutlier),
    /// See [`NonFiniteObserved`].
    NonFiniteObserved(NonFiniteObserved),
    /// See [`DeclaredRangeConformance`].
    DeclaredRangeConformance(DeclaredRangeConformance),
    /// See [`TaskQuality`].
    TaskQuality(TaskQuality),
    /// See [`StreamKeyClarity`].
    StreamKeyClarity(StreamKeyClarity),
    /// See [`AnnotationIntegrity`].
    AnnotationIntegrity(AnnotationIntegrity),
    /// See [`MediaReadable`].
    MediaReadable(MediaReadable),
    /// See [`MediaConformance`].
    MediaConformance(MediaConformance),
    /// See [`ProvenanceCompleteness`].
    ProvenanceCompleteness(ProvenanceCompleteness),
}

impl Check for StandardCheck {
    open spec fn meta(&self) -> CheckMeta {
        match self {
            StandardCheck::EpisodeBoundary(c) => c.meta(),
            StandardCheck::DegenerateEpisode(c) => c.meta(),
            StandardCheck::EpisodeContinuity(c) => c.meta(),
            StandardCheck::DeclaredEpisodeCount(c) => c.meta(),
            StandardCheck::DeclaredFrameCount(c) => c.meta(),
            StandardCheck::ShapeConsistency(c) => c.meta(),
            StandardCheck::StreamPresence(c) => c.meta(),
            StandardCheck::ContentMeasurability(c) => c.meta(),
            StandardCheck::DuplicateEpisode(c) => c.meta(),
            StandardCheck::NearDuplicateEpisode(c) => c.meta(),
            StandardCheck::StuckStream(c) => c.meta(),
            StandardCheck::StepAlignment(c) => c.meta(),
            StandardCheck::FrozenEpisode(c) => c.meta(),
            StandardCheck::ClockMeasurability(c) => c.meta(),
            StandardCheck::Monotonicity(c) => c.meta(),
            StandardCheck::RateValidity(c) => c.meta(),
            StandardCheck::RateConformance(c) => c.meta(),
            StandardCheck::Gaps(c) => c.meta(),
            StandardCheck::Jitter(c) => c.meta(),
            StandardCheck::ClockSkew(c) => c.meta(),
            StandardCheck::StartOffset(c) => c.meta(),
            StandardCheck::EndOffset(c) => c.meta(),
            StandardCheck::RateConsistency(c) => c.meta(),
            StandardCheck::EpisodeDuration(c) => c.meta(),
            StandardCheck::RigSync(c) => c.meta(),
            StandardCheck::SequenceComplete(c) => c.meta(),
            StandardCheck::EgoPoseContinuity(c) => c.meta(),
            StandardCheck::CalibrationCompleteness(c) => c.meta(),
            StandardCheck::SensorFrameResolution(c) => c.meta(),
            StandardCheck::ValueMeasurability(c) => c.meta(),
            StandardCheck::RangeSanity(c) => c.meta(),
            StandardCheck::StoredVsObserved(c) => c.meta(),
            StandardCheck::Saturation(c) => c.meta(),
            StandardCheck::ExtremeOutlier(c) => c.meta(),
            StandardCheck::NonFiniteObserved(c) => c.meta(),
            StandardCheck::DeclaredRangeConformance(c) => c.meta(),
            StandardCheck::TaskQuality(c) => c.meta(),
            StandardCheck::StreamKeyClarity(c) => c.meta(),
            StandardCheck::AnnotationIntegrity(c) => c.meta(),
            StandardCheck::MediaReadable(c) => c.meta(),
            StandardCheck::MediaConformance(c) => c.meta(),
            StandardCheck::ProvenanceCompleteness(c) => c.meta(),
        }
    }

    open spec fn report(&self, dataset: &Dataset) -> Seq<FindingView> {
        match self {
            StandardCheck::EpisodeBoundary(c) => c.report(dataset),
            StandardCheck::DegenerateEpisode(c) => c.report(dataset),
            StandardCheck::EpisodeContinuity(c) => c.report(dataset),
            StandardCheck::DeclaredEpisodeCount(c) => c.report(dataset),
            StandardCheck::DeclaredFrameCount(c) => c.report(dataset),
            StandardCheck::ShapeConsistency(c) => c.report(dataset),
            StandardCheck::StreamPresence(c) => c.report(dataset),
            StandardCheck::ContentMeasurability(c) => c.report(dataset),
            StandardCheck::DuplicateEpisode(c) => c.report(dataset),
            StandardCheck::NearDuplicateEpisode(c) => c.report(dataset),
            StandardCheck::StuckStream(c) => c.report(dataset),
            StandardCheck::StepAlignment(c) => c.report(dataset),
            StandardCheck::FrozenEpisode(c) => c.report(dataset),
            StandardCheck::ClockMeasurability(c) => c.report(dataset),
            StandardCheck::Monotonicity(c) => c.report(dataset),
            StandardCheck::RateValidity(c) => c.report(dataset),
            StandardCheck::RateConformance(c) => c.report(dataset),
            StandardCheck::Gaps(c) => c.report(dataset),
            StandardCheck::Jitter(c) => c.report(dataset),
            StandardCheck::ClockSkew(c) => c.report(dataset),
            StandardCheck::StartOffset(c) => c.report(dataset),
            StandardCheck::EndOffset(c) => c.report(dataset),
            StandardCheck::RateConsistency(c) => c.report(dataset),
            StandardCheck::EpisodeDuration(c) => c.report(dataset),
            StandardCheck::RigSync(c) => c.report(dataset),
            StandardCheck::SequenceComplete(c) => c.report(dataset),
            StandardCheck::EgoPoseContinuity(c) => c.report(dataset),
            StandardCheck::CalibrationCompleteness(c) => c.report(dataset),
            StandardCheck::SensorFrameResolution(c) => c.report(dataset),
            StandardCheck::ValueMeasurability(c) => c.report(dataset),
            StandardCheck::RangeSanity(c) => c.report(dataset),
            StandardCheck::StoredVsObserved(c) => c.report(dataset),
            StandardCheck::Saturation(c) => c.report(dataset),
            StandardCheck::ExtremeOutlier(c) => c.report(dataset),
            StandardCheck::NonFiniteObserved(c) => c.report(dataset),
            StandardCheck::DeclaredRangeConformance(c) => c.report(dataset),
            StandardCheck::TaskQuality(c) => c.report(dataset),
            StandardCheck::StreamKeyClarity(c) => c.report(dataset),
            StandardCheck::AnnotationIntegrity(c) => c.report(dataset),
            StandardCheck::MediaReadable(c) => c.report(dataset),
            StandardCheck::MediaConformance(c) => c.report(dataset),
            StandardCheck::ProvenanceCompleteness(c) => c.report(dataset),
        }
    }

    open spec fn report_in(&self, dataset: &Dataset, frames_read: bool, attested: Seq<Seq<char>>) -> Seq<FindingView> {
        match self {
            StandardCheck::EpisodeBoundary(c) => c.report_in(dataset, frames_read, attested),
            StandardCheck::DegenerateEpisode(c) => c.report_in(dataset, frames_read, attested),
            StandardCheck::EpisodeContinuity(c) => c.report_in(dataset, frames_read, attested),
            StandardCheck::DeclaredEpisodeCount(c) => c.report_in(dataset, frames_read, attested),
            StandardCheck::DeclaredFrameCount(c) => c.report_in(dataset, frames_read, attested),
            StandardCheck::ShapeConsistency(c) => c.report_in(dataset, frames_read, attested),
            StandardCheck::StreamPresence(c) => c.report_in(dataset, frames_read, attested),
            StandardCheck::ContentMeasurability(c) => c.report_in(dataset, frames_read, attested),
            StandardCheck::DuplicateEpisode(c) => c.report_in(dataset, frames_read, attested),
            StandardCheck::NearDuplicateEpisode(c) => c.report_in(dataset, frames_read, attested),
            StandardCheck::StuckStream(c) => c.report_in(dataset, frames_read, attested),
            StandardCheck::StepAlignment(c) => c.report_in(dataset, frames_read, attested),
            StandardCheck::FrozenEpisode(c) => c.report_in(dataset, frames_read, attested),
            StandardCheck::ClockMeasurability(c) => c.report_in(dataset, frames_read, attested),
            StandardCheck::Monotonicity(c) => c.report_in(dataset, frames_read, attested),
            StandardCheck::RateValidity(c) => c.report_in(dataset, frames_read, attested),
            StandardCheck::RateConformance(c) => c.report_in(dataset, frames_read, attested),
            StandardCheck::Gaps(c) => c.report_in(dataset, frames_read, attested),
            StandardCheck::Jitter(c) => c.report_in(dataset, frames_read, attested),
            StandardCheck::ClockSkew(c) => c.report_in(dataset, frames_read, attested),
            StandardCheck::StartOffset(c) => c.report_in(dataset, frames_read, attested),
            StandardCheck::EndOffset(c) => c.report_in(dataset, frames_read, attested),
            StandardCheck::RateConsistency(c) => c.report_in(dataset, frames_read, attested),
            StandardCheck::EpisodeDuration(c) => c.report_in(dataset, frames_read, attested),
            StandardCheck::RigSync(c) => c.report_in(dataset, frames_read, attested),
            StandardCheck::SequenceComplete(c) => c.report_in(dataset, frames_read, attested),
            StandardCheck::EgoPoseContinuity(c) => c.report_in(dataset, frames_read, attested),
            StandardCheck::CalibrationCompleteness(c) => c.report_in(dataset, frames_read, attested),
            StandardCheck::SensorFrameResolution(c) => c.report_in(dataset, frames_read, attested),
            StandardCheck::ValueMeasurability(c) => c.report_in(dataset, frames_read, attested),
            StandardCheck::RangeSanity(c) => c.report_in(dataset, frames_read, attested),
            StandardCheck::StoredVsObserved(c) => c.report_in(dataset, frames_read, attested),
            StandardCheck::Saturation(c) => c.report_in(dataset, frames_read, attested),
            StandardCheck::ExtremeOutlier(c) => c.report_in(dataset, frames_read, attested),
            StandardCheck::NonFiniteObserved(c) => c.report_in(dataset, frames_read, attested),
            StandardCheck::DeclaredRangeConformance(c) => c.report_in(dataset, frames_read, attested),
            StandardCheck::TaskQuality(c) => c.report_in(dataset, frames_read, attested),
            StandardCheck::StreamKeyClarity(c) => c.report_in(dataset, frames_read, attested),
            StandardCheck::AnnotationIntegrity(c) => c.report_in(dataset, frames_read, attested),
            StandardCheck::MediaReadable(c) => c.report_in(dataset, frames_read, attested),
            StandardCheck::MediaConformance(c) => c.report_in(dataset, frames_read, attested),
            StandardCheck::ProvenanceCompleteness(c) => c.report_in(dataset, frames_read, attested),
        }
    }

    fn info(&self) -> (r: CheckInfo) {
        match self {
            StandardCheck::EpisodeBoundary(c) => c.info(),
            StandardCheck::DegenerateEpisode(c) => c.info(),
            StandardCheck::EpisodeContinuity(c) => c.info(),
            StandardCheck::DeclaredEpisodeCount(c) => c.info(),
            StandardCheck::DeclaredFrameCount(c) => c.info(),
            StandardCheck::ShapeConsistency(c) => c.info(),
            StandardCheck::StreamPresence(c) => c.info(),
            StandardCheck::ContentMeasurability(c) => c.info(),
            StandardCheck::DuplicateEpisode(c) => c.info(),
            StandardCheck::NearDuplicateEpisode(c) => c.info(),
            StandardCheck::StuckStream(c) => c.info(),
            StandardCheck::StepAlignment(c) => c.info(),
            StandardCheck::FrozenEpisode(c) => c.info(),
            StandardCheck::ClockMeasurability(c) => c.info(),
            StandardCheck::Monotonicity(c) => c.info(),
            StandardCheck::RateValidity(c) => c.info(),
            StandardCheck::RateConformance(c) => c.info(),
            StandardCheck::Gaps(c) => c.info(),
            StandardCheck::Jitter(c) => c.info(),
            StandardCheck::ClockSkew(c) => c.info(),
            StandardCheck::StartOffset(c) => c.info(),
            StandardCheck::EndOffset(c) => c.info(),
            StandardCheck::RateConsistency(c) => c.info(),
            StandardCheck::EpisodeDuration(c) => c.info(),
            StandardCheck::RigSync(c) => c.info(),
            StandardCheck::SequenceComplete(c) => c.info(),
            StandardCheck::EgoPoseContinuity(c) => c.info(),
            StandardCheck::CalibrationCompleteness(c) => c.info(),
            StandardCheck::SensorFrameResolution(c) => c.info(),
            StandardCheck::ValueMeasurability(c) => c.info(),
            StandardCheck::RangeSanity(c) => c.info(),
            StandardCheck::StoredVsObserved(c) => c.info(),
            StandardCheck::Saturation(c) => c.info(),
            StandardCheck::ExtremeOutlier(c) => c.info(),
            StandardCheck::NonFiniteObserved(c) => c.info(),
            StandardCheck::DeclaredRangeConformance(c) => c.info(),
            StandardCheck::TaskQuality(c) => c.info(),
            StandardCheck::StreamKeyClarity(c) => c.info(),
            StandardCheck::AnnotationIntegrity(c) => c.info(),
            StandardCheck::MediaReadable(c) => c.info(),
            StandardCheck::MediaConformance(c) => c.info(),
            StandardCheck::ProvenanceCompleteness(c) => c.info(),
        }
    }

    fn run(&self, dataset: &Dataset) -> (r: Vec<Finding>) {
        match self {
            StandardCheck::EpisodeBoundary(c) => c.run(dataset),
            StandardCheck::DegenerateEpisode(c) => c.run(dataset),
            StandardCheck::EpisodeContinuity(c) => c.run(dataset),
            StandardCheck::DeclaredEpisodeCount(c) => c.run(dataset),
            StandardCheck::DeclaredFrameCount(c) => c.run(dataset),
            StandardCheck::ShapeConsistency(c) => c.run(dataset),
            StandardCheck::StreamPresence(c) => c.run(dataset),
            StandardCheck::ContentMeasurability(c) => c.run(dataset),
            StandardCheck::DuplicateEpisode(c) => c.run(dataset),
            StandardCheck::NearDuplicateEpisode(c) => c.run(dataset),
            StandardCheck::StuckStream(c) => c.run(dataset),
            StandardCheck::StepAlignment(c) => c.run(dataset),
            StandardCheck::FrozenEpisode(c) => c.run(dataset),
            StandardCheck::ClockMeasurability(c) => c.run(dataset),
            StandardCheck::Monotonicity(c) => c.run(dataset),
            StandardCheck::RateValidity(c) => c.run(dataset),
            StandardCheck::RateConformance(c) => c.run(dataset),
            StandardCheck::Gaps(c) => c.run(dataset),
            StandardCheck::Jitter(c) => c.run(dataset),
            StandardCheck::ClockSkew(c) => c.run(dataset),
            StandardCheck::StartOffset(c) => c.run(dataset),
            StandardCheck::EndOffset(c) => c.run(dataset),
            StandardCheck::RateConsistency(c) => c.run(dataset),
            StandardCheck::EpisodeDuration(c) => c.run(dataset),
            StandardCheck::RigSync(c) => c.run(dataset),
            StandardCheck::SequenceComplete(c) => c.run(dataset),
            StandardCheck::EgoPoseContinuity(c) => c.run(dataset),
            StandardCheck::CalibrationCompleteness(c) => c.run(dataset),
            StandardCheck::SensorFrameResolution(c) => c.run(dataset),
            StandardCheck::ValueMeasurability(c) => c.run(dataset),
            StandardCheck::RangeSanity(c) => c.run(dataset),
            StandardCheck::StoredVsObserved(c) => c.run(dataset),
            StandardCheck::Saturation(c) => c.run(dataset),
            StandardCheck::ExtremeOutlier(c) => c.run(dataset),
            StandardCheck::NonFiniteObserved(c) => c.run(dataset),
            StandardCheck::DeclaredRangeConformance(c) => c.run(dataset),
            StandardCheck::TaskQuality(c) => c.run(dataset),
            StandardCheck::StreamKeyClarity(c) => c.run(dataset),
            StandardCheck::AnnotationIntegrity(c) => c.run(dataset),
            StandardCheck::MediaReadable(c) => c.run(dataset),
            StandardCheck::MediaConformance(c) => c.run(dataset),
            StandardCheck::ProvenanceCompleteness(c) => c.run(dataset),
        }
    }

    fn run_in(&self, dataset: &Dataset, context: &CheckContext) -> (r: Vec<Finding>) {
        match self {
            StandardCheck::EpisodeBoundary(c) => c.run_in(dataset, context),
            StandardCheck::DegenerateEpisode(c) => c.run_in(dataset, context),
            StandardCheck::EpisodeContinuity(c) => c.run_in(dataset, context),
            StandardCheck::DeclaredEpisodeCount(c) => c.run_in(dataset, context),
            StandardCheck::DeclaredFrameCount(c) => c.run_in(dataset, context),
            StandardCheck::ShapeConsistency(c) => c.run_in(dataset, context),
            StandardCheck::StreamPresence(c) => c.run_in(dataset, context),
            StandardCheck::ContentMeasurability(c) => c.run_in(dataset, context),
            StandardCheck::DuplicateEpisode(c) => c.run_in(dataset, context),
            StandardCheck::NearDuplicateEpisode(c) => c.run_in(dataset, context),
            StandardCheck::StuckStream(c) => c.run_in(dataset, context),
            StandardCheck::StepAlignment(c) => c.run_in(dataset, context),
            StandardCheck::FrozenEpisode(c) => c.run_in(dataset, context),
            StandardCheck::ClockMeasurability(c) => c.run_in(dataset, context),
            StandardCheck::Monotonicity(c) => c.run_in(dataset, context),
            StandardCheck::RateValidity(c) => c.run_in(dataset, context),
            StandardCheck::RateConformance(c) => c.run_in(dataset, context),
            StandardCheck::Gaps(c) => c.run_in(dataset, context),
            StandardCheck::Jitter(c) => c.run_in(dataset, context),
            StandardCheck::ClockSkew(c) => c.run_in(dataset, context),
            StandardCheck::StartOffset(c) => c.run_in(dataset, context),
            StandardCheck::EndOffset(c) => c.run_in(dataset, context),
            StandardCheck::RateConsistency(c) => c.run_in(dataset, context),
            StandardCheck::EpisodeDuration(c) => c.run_in(dataset, context),
            StandardCheck::RigSync(c) => c.run_in(dataset, context),
            StandardCheck::SequenceComplete(c) => c.run_in(dataset, context),
            StandardCheck::EgoPoseContinuity(c) => c.run_in(dataset, context),
            StandardCheck::CalibrationCompleteness(c) => c.run_in(dataset, context),
            StandardCheck::SensorFrameResolution(c) => c.run_in(dataset, context),
            StandardCheck::ValueMeasurability(c) => c.run_in(dataset, context),
            StandardCheck::RangeSanity(c) => c.run_in(dataset, context),
            StandardCheck::StoredVsObserved(c) => c.run_in(dataset, context),
            StandardCheck::Saturation(c) => c.run_in(dataset, context),
            StandardCheck::ExtremeOutlier(c) => c.run_in(dataset, context),
            StandardCheck::NonFiniteObserved(c) => c.run_in(dataset, context),
            StandardCheck::DeclaredRangeConformance(c) => c.run_in(dataset, context),
            StandardCheck::TaskQuality(c) => c.run_in(dataset, context),
            StandardCheck::StreamKeyClarity(c) => c.run_in(dataset, context),
            StandardCheck::AnnotationIntegrity(c) => c.run_in(dataset, context),
            StandardCheck::MediaReadable(c) => c.run_in(dataset, context),
            StandardCheck::MediaConformance(c) => c.run_in(dataset, context),
            StandardCheck::ProvenanceCompleteness(c) => c.run_in(dataset, context),
        }
    }
}

// ---- the ids ---------------------------------------------------------------------------------

/// The ids of the standard checks, in order.
pub open spec fn standard_ids() -> Seq<Seq<char>> {
    seq![
        structural::BOUNDARY_ID@,
        structural::DEGENERATE_ID@,
        structural::CONTINUITY_ID@,
        structural::EPISODE_COUNT_ID@,
        structural::FRAME_COUNT_ID@,
        structural::SHAPE_ID@,
        structural::PRESENCE_ID@,
        structural::CONTENT_ID@,
        duplicates::DUPLICATE_ID@,
        near_duplicates::NEAR_ID@,
        structural::STUCK_ID@,
        structural::STEP_ID@,
        structural::FROZEN_ID@,
        temporal::CLOCK_ID@,
        temporal::MONOTONICITY_ID@,
        temporal::RATE_VALIDITY_ID@,
        temporal::RATE_ID@,
        temporal::GAP_ID@,
        temporal::JITTER_ID@,
        temporal::SKEW_ID@,
        temporal::START_ID@,
        temporal::END_ID@,
        temporal::RATE_CONSISTENCY_ID@,
        temporal::DURATION_ID@,
        autonomy::RIG_SYNC_ID@,
        autonomy::SEQUENCE_ID@,
        autonomy::EGO_ID@,
        calibration::CALIBRATION_ID@,
        calibration::RESOLUTION_ID@,
        statistical::VALUES_ID@,
        statistical::SANITY_ID@,
        statistical::STALE_ID@,
        statistical::SATURATION_ID@,
        statistical::OUTLIER_ID@,
        statistical::NON_FINITE_ID@,
        statistical::DECLARED_RANGE_ID@,
        semantic::TASK_ID@,
        semantic::KEY_ID@,
        semantic::ANNOTATION_ID@,
        video::READABLE_ID@,
        video::CONFORMANCE_ID@,
        provenance::COMPLETENESS_ID@,
    ]
}

/// A number that tells the ids of the standard checks apart.
spec fn mark(id: Seq<char>) -> int {
    id.len() * 128 + id[id.len() - 4] as int
}

/// The place of the id with a mark.
spec fn place_of(mark: int) -> int {
    if mark == 3556 {
        0
    } else if mark == 3827 {
        1
    } else if mark == 3829 {
        2
    } else if mark == 4335 {
        3
    } else if mark == 4079 {
        4
    } else if mark == 3685 {
        5
    } else if mark == 3429 {
        6
    } else if mark == 4204 {
        7
    } else if mark == 3699 {
        8
    } else if mark == 4339 {
        9
    } else if mark == 3058 {
        10
    } else if mark == 3309 {
        11
    } else if mark == 3315 {
        12
    } else if mark == 3692 {
        13
    } else if mark == 2787 {
        14
    } else if mark == 2916 {
        15
    } else if mark == 3297 {
        16
    } else if mark == 1582 {
        17
    } else if mark == 2036 {
        18
    } else if mark == 2547 {
        19
    } else if mark == 2790 {
        20
    } else if mark == 2534 {
        21
    } else if mark == 3301 {
        22
    } else if mark == 3316 {
        23
    } else if mark == 2291 {
        24
    } else if mark == 3436 {
        25
    } else if mark == 3701 {
        26
    } else if mark == 4334 {
        27
    } else if mark == 4212 {
        28
    } else if mark == 4076 {
        29
    } else if mark == 3182 {
        30
    } else if mark == 3954 {
        31
    } else if mark == 2932 {
        32
    } else if mark == 3564 {
        33
    } else if mark == 4082 {
        34
    } else if mark == 3425 {
        35
    } else if mark == 2796 {
        36
    } else if mark == 3570 {
        37
    } else if mark == 3826 {
        38
    } else if mark == 2657 {
        39
    } else if mark == 3041 {
        40
    } else if mark == 3054 {
        41
    } else {
        -1
    }
}

/// The marks of some ids.
proof fn lemma_marks_0()
    ensures
        mark(standard_ids()[0]) == 3556,
        mark(standard_ids()[1]) == 3827,
        mark(standard_ids()[2]) == 3829,
        mark(standard_ids()[3]) == 4335,
        mark(standard_ids()[4]) == 4079,
        mark(standard_ids()[5]) == 3685,
        mark(standard_ids()[6]) == 3429,
{
    reveal_strlit("structural.episode-boundary");
    reveal_strlit("structural.degenerate-episode");
    reveal_strlit("structural.episode-continuity");
    reveal_strlit("structural.declared-episode-count");
    reveal_strlit("structural.declared-frame-count");
    reveal_strlit("structural.shape-consistency");
    reveal_strlit("structural.stream-presence");
}

/// The marks of some ids.
proof fn lemma_marks_1()
    ensures
        mark(standard_ids()[7]) == 4204,
        mark(standard_ids()[8]) == 3699,
        mark(standard_ids()[9]) == 4339,
        mark(standard_ids()[10]) == 3058,
        mark(standard_ids()[11]) == 3309,
        mark(standard_ids()[12]) == 3315,
        mark(standard_ids()[13]) == 3692,
{
    reveal_strlit("structural.content-measurability");
    reveal_strlit("structural.duplicate-episode");
    reveal_strlit("structural.near-duplicate-episode");
    reveal_strlit("structural.stuck-stream");
    reveal_strlit("structural.step-alignment");
    reveal_strlit("structural.frozen-episode");
    reveal_strlit("temporal.clock-measurability");
}

/// The marks of some ids.
proof fn lemma_marks_2()
    ensures
        mark(standard_ids()[14]) == 2787,
        mark(standard_ids()[15]) == 2916,
        mark(standard_ids()[16]) == 3297,
        mark(standard_ids()[17]) == 1582,
        mark(standard_ids()[18]) == 2036,
        mark(standard_ids()[19]) == 2547,
        mark(standard_ids()[20]) == 2790,
{
    reveal_strlit("temporal.monotonicity");
    reveal_strlit("temporal.rate-validity");
    reveal_strlit("temporal.rate-conformance");
    reveal_strlit("temporal.gap");
    reveal_strlit("temporal.jitter");
    reveal_strlit("temporal.clock-skew");
    reveal_strlit("temporal.start-offset");
}

/// The marks of some ids.
proof fn lemma_marks_3()
    ensures
        mark(standard_ids()[21]) == 2534,
        mark(standard_ids()[22]) == 3301,
        mark(standard_ids()[23]) == 3316,
        mark(standard_ids()[24]) == 2291,
        mark(standard_ids()[25]) == 3436,
        mark(standard_ids()[26]) == 3701,
        mark(standard_ids()[27]) == 4334,
{
    reveal_strlit("temporal.end-offset");
    reveal_strlit("temporal.rate-consistency");
    reveal_strlit("temporal.episode-duration");
    reveal_strlit("autonomy.rig-sync");
    reveal_strlit("autonomy.sequence-complete");
    reveal_strlit("autonomy.ego-pose-continuity");
    reveal_strlit("autonomy.calibration-completeness");
}

/// The marks of some ids.
proof fn lemma_marks_4()
    ensures
        mark(standard_ids()[28]) == 4212,
        mark(standard_ids()[29]) == 4076,
        mark(standard_ids()[30]) == 3182,
        mark(standard_ids()[31]) == 3954,
        mark(standard_ids()[32]) == 2932,
        mark(standard_ids()[33]) == 3564,
        mark(standard_ids()[34]) == 4082,
{
    reveal_strlit("autonomy.sensor-frame-resolution");
    reveal_strlit("statistical.value-measurability");
    reveal_strlit("statistical.range-sanity");
    reveal_strlit("statistical.stored-vs-observed");
    reveal_strlit("statistical.saturation");
    reveal_strlit("statistical.extreme-outlier");
    reveal_strlit("statistical.non-finite-observed");
}

/// The marks of some ids.
proof fn lemma_marks_5()
    ensures
        mark(standard_ids()[35]) == 3425,
        mark(standard_ids()[36]) == 2796,
        mark(standard_ids()[37]) == 3570,
        mark(standard_ids()[38]) == 3826,
        mark(standard_ids()[39]) == 2657,
        mark(standard_ids()[40]) == 3041,
        mark(standard_ids()[41]) == 3054,
{
    reveal_strlit("statistical.declared-range");
    reveal_strlit("semantic.task-quality");
    reveal_strlit("semantic.stream-key-clarity");
    reveal_strlit("semantic.annotation-integrity");
    reveal_strlit("video.media-readable");
    reveal_strlit("video.media-conformance");
    reveal_strlit("provenance.completeness");
}

/// The place of each id.
proof fn lemma_place(i: int)
    requires
        0 <= i < 42,
    ensures
        place_of(mark(standard_ids()[i])) == i,
{
    lemma_marks_0();
    lemma_marks_1();
    lemma_marks_2();
    lemma_marks_3();
    lemma_marks_4();
    lemma_marks_5();
    if i == 0 {
        assert(mark(standard_ids()[0]) == 3556);
    } else if i == 1 {
        assert(mark(standard_ids()[1]) == 3827);
    } else if i == 2 {
        assert(mark(standard_ids()[2]) == 3829);
    } else if i == 3 {
        assert(mark(standard_ids()[3]) == 4335);
    } else if i == 4 {
        assert(mark(standard_ids()[4]) == 4079);
    } else if i == 5 {
        assert(mark(standard_ids()[5]) == 3685);
    } else if i == 6 {
        assert(mark(standard_ids()[6]) == 3429);
    } else if i == 7 {
        assert(mark(standard_ids()[7]) == 4204);
    } else if i == 8 {
        assert(mark(standard_ids()[8]) == 3699);
    } else if i == 9 {
        assert(mark(standard_ids()[9]) == 4339);
    } else if i == 10 {
        assert(mark(standard_ids()[10]) == 3058);
    } else if i == 11 {
        assert(mark(standard_ids()[11]) == 3309);
    } else if i == 12 {
        assert(mark(standard_ids()[12]) == 3315);
    } else if i == 13 {
        assert(mark(standard_ids()[13]) == 3692);
    } else if i == 14 {
        assert(mark(standard_ids()[14]) == 2787);
    } else if i == 15 {
        assert(mark(standard_ids()[15]) == 2916);
    } else if i == 16 {
        assert(mark(standard_ids()[16]) == 3297);
    } else if i == 17 {
        assert(mark(standard_ids()[17]) == 1582);
    } else if i == 18 {
        assert(mark(standard_ids()[18]) == 2036);
    } else if i == 19 {
        assert(mark(standard_ids()[19]) == 2547);
    } else if i == 20 {
        assert(mark(standard_ids()[20]) == 2790);
    } else if i == 21 {
        assert(mark(standard_ids()[21]) == 2534);
    } else if i == 22 {
        assert(mark(standard_ids()[22]) == 3301);
    } else if i == 23 {
        assert(mark(standard_ids()[23]) == 3316);
    } else if i == 24 {
        assert(mark(standard_ids()[24]) == 2291);
    } else if i == 25 {
        assert(mark(standard_ids()[25]) == 3436);
    } else if i == 26 {
        assert(mark(standard_ids()[26]) == 3701);
    } else if i == 27 {
        assert(mark(standard_ids()[27]) == 4334);
    } else if i == 28 {
        assert(mark(standard_ids()[28]) == 4212);
    } else if i == 29 {
        assert(mark(standard_ids()[29]) == 4076);
    } else if i == 30 {
        assert(mark(standard_ids()[30]) == 3182);
    } else if i == 31 {
        assert(mark(standard_ids()[31]) == 3954);
    } else if i == 32 {
        assert(mark(standard_ids()[32]) == 2932);
    } else if i == 33 {
        assert(mark(standard_ids()[33]) == 3564);
    } else if i == 34 {
        assert(mark(standard_ids()[34]) == 4082);
    } else if i == 35 {
        assert(mark(standard_ids()[35]) == 3425);
    } else if i == 36 {
        assert(mark(standard_ids()[36]) == 2796);
    } else if i == 37 {
        assert(mark(standard_ids()[37]) == 3570);
    } else if i == 38 {
        assert(mark(standard_ids()[38]) == 3826);
    } else if i == 39 {
        assert(mark(standard_ids()[39]) == 2657);
    } else if i == 40 {
        assert(mark(standard_ids()[40]) == 3041);
    } else if i == 41 {
        assert(mark(standard_ids()[41]) == 3054);
    }
}

/// The standard checks have unique ids.
pub proof fn law_standard_ids_are_unique()
    ensures
        standard_ids().no_duplicates(),
{
    assert forall|i: int, j: int| 0 <= i < 42 && 0 <= j < 42 && i != j implies standard_ids()[i] != standard_ids()[j] by {
        lemma_place(i);
        lemma_place(j);
    }
}

// ---- the set ---------------------------------------------------------------------------------

/// The standard checks at some tolerances, in order.
#[verifier::opaque]
pub open spec fn standard_list(t: Tolerances) -> Seq<StandardCheck> {
    seq![
        StandardCheck::EpisodeBoundary(EpisodeBoundary),
        StandardCheck::DegenerateEpisode(DegenerateEpisode),
        StandardCheck::EpisodeContinuity(EpisodeContinuity),
        StandardCheck::DeclaredEpisodeCount(DeclaredEpisodeCount),
        StandardCheck::DeclaredFrameCount(DeclaredFrameCount),
        StandardCheck::ShapeConsistency(ShapeConsistency),
        StandardCheck::StreamPresence(StreamPresence),
        StandardCheck::ContentMeasurability(ContentMeasurability),
        StandardCheck::DuplicateEpisode(DuplicateEpisode),
        StandardCheck::NearDuplicateEpisode(NearDuplicateEpisode { min_overlap: t.near_duplicate_fraction }),
        StandardCheck::StuckStream(StuckStream),
        StandardCheck::StepAlignment(StepAlignment),
        StandardCheck::FrozenEpisode(FrozenEpisode),
        StandardCheck::ClockMeasurability(ClockMeasurability),
        StandardCheck::Monotonicity(Monotonicity),
        StandardCheck::RateValidity(RateValidity),
        StandardCheck::RateConformance(RateConformance { relative_tolerance: t.rate_deviation }),
        StandardCheck::Gaps(Gaps { gap_factor: t.gap_factor }),
        StandardCheck::Jitter(Jitter { max_cv: t.jitter_cv }),
        StandardCheck::ClockSkew(ClockSkew { tolerance_ns: t.clock_skew_ns }),
        StandardCheck::StartOffset(StartOffset { tolerance_ns: t.start_offset_ns }),
        StandardCheck::EndOffset(EndOffset { tolerance_ns: t.end_offset_ns }),
        StandardCheck::RateConsistency(RateConsistency),
        StandardCheck::EpisodeDuration(EpisodeDuration { factor: t.episode_duration_factor }),
        StandardCheck::RigSync(RigSync { tolerance_ns: t.clock_skew_ns }),
        StandardCheck::SequenceComplete(SequenceComplete { max_drop_fraction: t.sequence_drop_fraction }),
        StandardCheck::EgoPoseContinuity(EgoPoseContinuity { max_speed_mps: t.ego_max_speed_mps }),
        StandardCheck::CalibrationCompleteness(CalibrationCompleteness),
        StandardCheck::SensorFrameResolution(SensorFrameResolution),
        StandardCheck::ValueMeasurability(ValueMeasurability),
        StandardCheck::RangeSanity(RangeSanity),
        StandardCheck::StoredVsObserved(StoredVsObserved),
        StandardCheck::Saturation(Saturation { min_fraction: t.saturation_fraction, min_samples: t.saturation_min_samples }),
        StandardCheck::ExtremeOutlier(ExtremeOutlier { z_threshold: t.outlier_z }),
        StandardCheck::NonFiniteObserved(NonFiniteObserved),
        StandardCheck::DeclaredRangeConformance(DeclaredRangeConformance),
        StandardCheck::TaskQuality(TaskQuality),
        StandardCheck::StreamKeyClarity(StreamKeyClarity),
        StandardCheck::AnnotationIntegrity(AnnotationIntegrity),
        StandardCheck::MediaReadable(MediaReadable),
        StandardCheck::MediaConformance(MediaConformance { fps_tolerance: t.rate_deviation }),
        StandardCheck::ProvenanceCompleteness(ProvenanceCompleteness),
    ]
}

/// The standard checks have the standard ids.
proof fn lemma_list_ids(t: Tolerances)
    ensures
        engine::ids(standard_list(t)) == standard_ids(),
{
    reveal(standard_list);
    assert(engine::ids(standard_list(t)) =~= standard_ids());
}

/// The standard checks, in a stable order, built with the given [`Tolerances`] for the checks that
/// take one.
pub fn standard_checks_with(t: &Tolerances) -> (r: Vec<StandardCheck>)
    ensures
        r@ == standard_list(*t),
        engine::ids(r@) == standard_ids(),
{
    let mut out: Vec<StandardCheck> = Vec::new();
    out.push(StandardCheck::EpisodeBoundary(EpisodeBoundary));
    out.push(StandardCheck::DegenerateEpisode(DegenerateEpisode));
    out.push(StandardCheck::EpisodeContinuity(EpisodeContinuity));
    out.push(StandardCheck::DeclaredEpisodeCount(DeclaredEpisodeCount));
    out.push(StandardCheck::DeclaredFrameCount(DeclaredFrameCount));
    out.push(StandardCheck::ShapeConsistency(ShapeConsistency));
    out.push(StandardCheck::StreamPresence(StreamPresence));
    out.push(StandardCheck::ContentMeasurability(ContentMeasurability));
    out.push(StandardCheck::DuplicateEpisode(DuplicateEpisode));
    out.push(StandardCheck::NearDuplicateEpisode(NearDuplicateEpisode { min_overlap: t.near_duplicate_fraction }));
    out.push(StandardCheck::StuckStream(StuckStream));
    out.push(StandardCheck::StepAlignment(StepAlignment));
    out.push(StandardCheck::FrozenEpisode(FrozenEpisode));
    out.push(StandardCheck::ClockMeasurability(ClockMeasurability));
    out.push(StandardCheck::Monotonicity(Monotonicity));
    out.push(StandardCheck::RateValidity(RateValidity));
    out.push(StandardCheck::RateConformance(RateConformance { relative_tolerance: t.rate_deviation }));
    out.push(StandardCheck::Gaps(Gaps { gap_factor: t.gap_factor }));
    out.push(StandardCheck::Jitter(Jitter { max_cv: t.jitter_cv }));
    out.push(StandardCheck::ClockSkew(ClockSkew { tolerance_ns: t.clock_skew_ns }));
    out.push(StandardCheck::StartOffset(StartOffset { tolerance_ns: t.start_offset_ns }));
    out.push(StandardCheck::EndOffset(EndOffset { tolerance_ns: t.end_offset_ns }));
    out.push(StandardCheck::RateConsistency(RateConsistency));
    out.push(StandardCheck::EpisodeDuration(EpisodeDuration { factor: t.episode_duration_factor }));
    out.push(StandardCheck::RigSync(RigSync { tolerance_ns: t.clock_skew_ns }));
    out.push(StandardCheck::SequenceComplete(SequenceComplete { max_drop_fraction: t.sequence_drop_fraction }));
    out.push(StandardCheck::EgoPoseContinuity(EgoPoseContinuity { max_speed_mps: t.ego_max_speed_mps }));
    out.push(StandardCheck::CalibrationCompleteness(CalibrationCompleteness));
    out.push(StandardCheck::SensorFrameResolution(SensorFrameResolution));
    out.push(StandardCheck::ValueMeasurability(ValueMeasurability));
    out.push(StandardCheck::RangeSanity(RangeSanity));
    out.push(StandardCheck::StoredVsObserved(StoredVsObserved));
    out.push(
        StandardCheck::Saturation(
            Saturation { min_fraction: t.saturation_fraction, min_samples: t.saturation_min_samples },
        ),
    );
    out.push(StandardCheck::ExtremeOutlier(ExtremeOutlier { z_threshold: t.outlier_z }));
    out.push(StandardCheck::NonFiniteObserved(NonFiniteObserved));
    out.push(StandardCheck::DeclaredRangeConformance(DeclaredRangeConformance));
    out.push(StandardCheck::TaskQuality(TaskQuality));
    out.push(StandardCheck::StreamKeyClarity(StreamKeyClarity));
    out.push(StandardCheck::AnnotationIntegrity(AnnotationIntegrity));
    out.push(StandardCheck::MediaReadable(MediaReadable));
    out.push(StandardCheck::MediaConformance(MediaConformance { fps_tolerance: t.rate_deviation }));
    out.push(StandardCheck::ProvenanceCompleteness(ProvenanceCompleteness));
    proof {
        assert(out@ =~= standard_list(*t)) by {
            reveal(standard_list);
        }
        lemma_list_ids(*t);
    }
    out
}

/// The standard checks, in a stable order, each with default tolerances.
pub fn standard_checks() -> (r: Vec<StandardCheck>)
    ensures
        r@ == standard_list(tolerances::default_tolerances()),
        engine::ids(r@) == standard_ids(),
{
    standard_checks_with(&Tolerances::default())
}

/// Build an [`Engine`] preloaded with [`standard_checks`] (default tolerances).
pub fn default_engine() -> (r: Result<Engine<StandardCheck>, RegistryError>)
    ensures
        r matches Ok(e) && e.wf() && e.checks() == standard_list(tolerances::default_tolerances()),
{
    default_engine_with(&Tolerances::default())
}

/// Build an [`Engine`] preloaded with the standard checks at the given [`Tolerances`]. The ids of the
/// standard checks are unique, so none is refused.
pub fn default_engine_with(t: &Tolerances) -> (r: Result<Engine<StandardCheck>, RegistryError>)
    ensures
        r matches Ok(e) && e.wf() && e.checks() == standard_list(*t),
{
    let checks: Vec<StandardCheck> = standard_checks_with(t);
    let ghost all = checks@;
    let n: usize = checks.len();
    let mut builder: EngineBuilder<StandardCheck> = Engine::builder();
    let mut rest: Vec<StandardCheck> = checks;
    let ghost mut done: int = 0;
    assert(all.take(0) =~= Seq::empty());
    assert(all.skip(0) =~= all);
    while rest.len() > 0
        invariant
            0 <= done,
            done + rest@.len() == all.len(),
            rest@ == all.skip(done),
            builder.wf(),
            builder.checks() == all.take(done),
            engine::ids(all) == standard_ids(),
        decreases rest@.len(),
    {
        let check: StandardCheck = rest.remove(0);
        proof {
            assert(check == all[done]);
            assert(all.take(done + 1) =~= all.take(done).push(check));
            assert(rest@ =~= all.skip(done + 1));
            law_standard_ids_are_unique();
            let seen = engine::ids(all.take(done));
            if seen.contains(check.meta().id) {
                let k = choose|k: int| 0 <= k < seen.len() && seen[k] == check.meta().id;
                assert(engine::ids(all)[k] == seen[k]);
                assert(engine::ids(all)[done] == check.meta().id);
            }
        }
        builder = match builder.register(check) {
            Ok(b) => b,
            Err(e) => {
                return Err(e);
            },
        };
        proof {
            done = done + 1;
        }
    }
    assert(all.take(done) =~= all);
    Ok(builder.build())
}

} // verus!
