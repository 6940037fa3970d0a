use veridex_core::cdm::{
    Calibration, CameraIntrinsics, ClockKind, Codec, Dataset, DeclaredRange, DimStats, EgoPose, Episode, Frame, Label,
    Media, MediaParams, MediaStatus, Modality, Pose, Provenance, ProvenanceClass, ProvenanceElement, SaturationCounts,
    Stream, StreamStats, Transform, ValueRef,
};
use veridex_core::check::{Check, CheckContext, Finding, Location, Severity};
use veridex_core::checks::autonomy::{EgoPoseContinuity, GnssPlausibility, RigSync, SequenceComplete};
use veridex_core::checks::cycles::tf_directed_cycle;
use veridex_core::checks::calibration::{CalibrationCompleteness, SensorFrameResolution};
use veridex_core::checks::duplicates::DuplicateEpisode;
use veridex_core::checks::near_duplicates::NearDuplicateEpisode;
use veridex_core::checks::provenance::ProvenanceCompleteness;
use veridex_core::checks::semantic::{AnnotationIntegrity, StreamKeyClarity, TaskQuality};
use veridex_core::checks::statistical::{
    DeclaredRangeConformance, ExtremeOutlier, NonFiniteObserved, RangeSanity, Saturation, StoredVsObserved,
    ValueMeasurability,
};
use veridex_core::checks::structural::{
    ContentMeasurability, DeclaredEpisodeCount, DeclaredFrameCount, DegenerateEpisode, EpisodeBoundary,
    EpisodeContinuity, FrozenEpisode, ShapeConsistency, StepAlignment, StreamPresence, StuckStream,
};
use veridex_core::checks::temporal::{
    ClockMeasurability, ClockSkew, EndOffset, EpisodeDuration, Gaps, Jitter, Monotonicity, RateConformance,
    RateConsistency, RateValidity, StartOffset,
};
use veridex_core::checks::video::{MediaConformance, MediaReadable};

const MS: i64 = 1_000_000;

fn bits(x: f64) -> u64 {
    x.to_bits()
}

fn frame(ts: i64, content: Option<u8>) -> Frame {
    Frame {
        ts,
        value_ref: ValueRef {
            uri: "data".to_string(),
            byte_offset: None,
            byte_len: None,
            content_hash: content.map(|c| [c; 32]),
        },
    }
}

fn stream(name: &str, stamps: &[i64]) -> Stream {
    Stream {
        name: name.to_string(),
        modality: Modality::ScalarState,
        declared_rate_hz: None,
        clock_id: "clock".to_string(),
        clock_kind: ClockKind::Measured,
        dtype: None,
        shape: None,
        dim_names: None,
        frames: stamps.iter().enumerate().map(|(i, t)| frame(*t, Some(i as u8))).collect(),
        stats: None,
        dim_stats: None,
        observed_stats: None,
        observed_dim_stats: None,
        observed_saturation: None,
        observed_non_finite: None,
        declared_range: None,
        latched: None,
        media: None,
        frame_id: None,
    }
}

fn regular(name: &str, count: i64, step: i64) -> Stream {
    let stamps: Vec<i64> = (0..count).map(|i| i * step).collect();
    stream(name, &stamps)
}

fn rate(hz: f64) -> Option<u64> {
    Some(bits(hz))
}

fn episode(index: u64, streams: Vec<Stream>) -> Episode {
    Episode {
        index,
        start_ts: None,
        end_ts: None,
        streams,
        task: None,
        labels: Vec::new(),
        ego_poses: None,
        declared_frame_count: None,
        duration_ns: None,
    }
}

fn dataset(episodes: Vec<Episode>) -> Dataset {
    Dataset { id: "d".to_string(), calibration: None, metadata: Vec::new(), provenance: Vec::new(), episodes }
}

fn one(s: Stream) -> Dataset {
    dataset(vec![episode(0, vec![s])])
}

fn codes(findings: &[Finding]) -> Vec<&str> {
    findings.iter().map(|f| f.code.as_str()).collect()
}

fn run<C: Check>(check: &C, d: &Dataset) -> Vec<Finding> {
    let found = check.run(d);
    for f in &found {
        assert_eq!(f.check_id, check.id());
        assert!(check.finding_codes().contains(&f.code.as_str()), "{}", f.code);
        assert!(!f.risk.is_empty() && !f.remedy.is_empty());
    }
    found
}

// ---- temporal --------------------------------------------------------------------------------

#[test]
fn a_setback_in_time_is_reported_where_it_happens() {
    let found = run(&Monotonicity, &one(stream("s", &[0, 5, 5, 9])));
    assert_eq!(codes(&found), ["TEMPORAL.NON_MONOTONIC"]);
    assert_eq!(found[0].severity, Severity::Error);
    assert_eq!(found[0].message, "stream `s` in episode 0: timestamp does not increase at frame 2 (5 -> 5)");
    assert!(matches!(&found[0].location, Location::FrameRange { start_frame: 1, end_frame: 2, .. }));
    assert!(run(&Monotonicity, &one(stream("s", &[0, 5, 9]))).is_empty());
}

#[test]
fn an_observed_rate_is_held_against_the_declared_one() {
    let check = RateConformance::default();
    let mut s = regular("s", 11, 100 * MS);
    s.declared_rate_hz = rate(10.0);
    assert!(run(&check, &one(s)).is_empty());
    let mut s = regular("s", 11, 100 * MS);
    s.declared_rate_hz = rate(11.2);
    let found = run(&check, &one(s));
    assert_eq!(codes(&found), ["TEMPORAL.RATE"]);
    assert_eq!(found[0].message, "stream `s` in episode 0: observed 10.000 Hz vs declared 11.200 Hz (10.7% off)");
    // Ten percent off is not more than ten percent.
    let mut s = regular("s", 12, 100 * MS);
    s.frames.pop();
    s.declared_rate_hz = rate(9.1);
    assert!(run(&check, &one(s)).is_empty());
    let mut s = regular("s", 11, 100 * MS);
    s.declared_rate_hz = rate(8.9);
    assert_eq!(run(&check, &one(s)).len(), 1);
}

#[test]
fn a_declared_rate_must_be_a_positive_number() {
    for hz in [0.0, -1.0, f64::NAN, f64::INFINITY] {
        let mut s = regular("s", 3, MS);
        s.declared_rate_hz = rate(hz);
        assert_eq!(codes(&run(&RateValidity, &one(s))), ["TEMPORAL.INVALID_RATE"]);
    }
    let mut s = regular("s", 3, MS);
    s.declared_rate_hz = rate(30.0);
    assert!(run(&RateValidity, &one(s)).is_empty());
}

#[test]
fn episodes_must_agree_on_a_rate() {
    let at = |i: u64, hz: f64| {
        let mut s = regular("s", 3, MS);
        s.declared_rate_hz = rate(hz);
        episode(i, vec![s])
    };
    let found = run(&RateConsistency, &dataset(vec![at(0, 30.0), at(1, 30.2), at(2, 15.0), at(3, 15.0)]));
    assert_eq!(found.len(), 1);
    assert_eq!(found[0].message, "stream `s` declares 30.000 Hz in episode 0 but 15.000 Hz in episode 2");
}

#[test]
fn an_interval_three_times_too_long_is_a_gap() {
    let found = run(&Gaps::default(), &one(stream("s", &[0, 10 * MS, 20 * MS, 30 * MS, 71 * MS, 81 * MS])));
    assert_eq!(codes(&found), ["TEMPORAL.GAP"]);
    assert_eq!(found[0].message, "stream `s` in episode 0: 41.0 ms gap (expected ~10.0 ms)");
    assert!(matches!(found[0].location, Location::TimeRange { start_ts: 30_000_000, end_ts: 71_000_000, .. }));
    // Exactly three times is no gap.
    assert!(run(&Gaps::default(), &one(stream("s", &[0, 10 * MS, 20 * MS, 30 * MS, 60 * MS]))).is_empty());
    // A declared rate that the data agrees with is the baseline; one that it does not is not.
    let mut s = stream("s", &[0, 20 * MS, 40 * MS, 60 * MS, 100 * MS]);
    s.declared_rate_hz = rate(100.0);
    let found = run(&Gaps::default(), &one(s));
    assert_eq!(found.len(), 1);
    assert_eq!(found[0].message, "stream `s` in episode 0: 40.0 ms gap (expected ~10.0 ms)");
    let mut s = stream("s", &[0, 20 * MS, 40 * MS, 60 * MS, 100 * MS]);
    s.declared_rate_hz = rate(1000.0);
    assert!(run(&Gaps::default(), &one(s)).is_empty());
}

#[test]
fn uneven_intervals_are_jitter() {
    let mut stamps = vec![0i64];
    for i in 0..10 {
        let step = if i % 2 == 0 { 1 } else { 4 };
        stamps.push(stamps[i] + step * MS);
    }
    // Mean 2.5, deviation 1.5: 0.6 of the mean.
    let found = run(&Jitter::default(), &one(stream("s", &stamps)));
    assert_eq!(codes(&found), ["TEMPORAL.JITTER"]);
    assert_eq!(
        found[0].message,
        "stream `s` in episode 0: irregular timeline (interval cv 0.60 vs allowed 0.50; mean ~2.5 ms)"
    );
    let allowed = Jitter { max_cv: bits(0.6) };
    assert!(run(&allowed, &one(stream("s", &stamps))).is_empty());
    let below = Jitter { max_cv: bits(0.6 - 1e-15) };
    assert_eq!(run(&below, &one(stream("s", &stamps))).len(), 1);
    // Too few intervals say nothing.
    assert!(run(&Jitter::default(), &one(stream("s", &stamps[..8]))).is_empty());
}

#[test]
fn streams_that_span_different_times_are_skewed() {
    let mut b = regular("b", 101, 11 * MS);
    b.clock_id = "other".to_string();
    let d = dataset(vec![episode(0, vec![regular("a", 101, 10 * MS), b])]);
    let found = run(&ClockSkew::default(), &d);
    assert_eq!(codes(&found), ["TEMPORAL.CLOCK_SKEW"]);
    assert_eq!(
        found[0].message,
        "episode 0: streams `a` (clock `clock`, span 1000.0 ms) and `b` (clock `other`, span 1100.0 ms) drift by 100.0 ms"
    );
    // The larger sampling period is added to the tolerance.
    assert!(run(&ClockSkew { tolerance_ns: 89 * MS }, &d).is_empty());
    assert_eq!(run(&ClockSkew { tolerance_ns: 89 * MS - 1 }, &d).len(), 1);
}

#[test]
fn streams_that_start_or_end_apart_are_reported() {
    let late: Vec<i64> = (0..20).map(|i| 500 * MS + i * 10 * MS).collect();
    let d = dataset(vec![episode(3, vec![regular("a", 70, 10 * MS), stream("b", &late)])]);
    let found = run(&StartOffset::default(), &d);
    assert_eq!(codes(&found), ["TEMPORAL.START_OFFSET"]);
    assert_eq!(found[0].message, "episode 3: on clock `clock`, stream `b` starts 500.0 ms after `a`");
    let d = dataset(vec![episode(3, vec![regular("a", 70, 10 * MS), regular("b", 20, 10 * MS)])]);
    let found = run(&EndOffset::default(), &d);
    assert_eq!(found[0].message, "episode 3: on clock `clock`, stream `b` ends 500.0 ms before `a`");
}

#[test]
fn an_episode_far_off_the_median_length_is_an_outlier() {
    let mut episodes: Vec<Episode> = Vec::new();
    for i in 0..9 {
        let mut e = episode(i, vec![regular("s", 11, 100 * MS)]);
        e.duration_ns = Some(1_000_000_000);
        episodes.push(e);
    }
    let mut e = episode(9, vec![regular("s", 11, MS)]);
    e.duration_ns = Some(10_000_000);
    episodes.push(e);
    let found = run(&EpisodeDuration::default(), &dataset(episodes));
    assert_eq!(codes(&found), ["TEMPORAL.EPISODE_DURATION_OUTLIER"]);
    assert_eq!(found[0].message, "episode 9 lasts 10.0 ms — 100.0x shorter than the dataset median of 1000.0 ms");
}

#[test]
fn a_step_index_is_no_clock() {
    let mut s = regular("s", 3, 1);
    s.clock_kind = ClockKind::StepIndex;
    let found = run(&ClockMeasurability, &one(s));
    assert_eq!(codes(&found), ["TEMPORAL.UNMEASURED_CLOCK"]);
    assert!(found[0].message.contains("could not grade 1 stream(s) on it (s)"));
}

// ---- structural ------------------------------------------------------------------------------

#[test]
fn an_episode_that_ends_before_it_starts_is_reported() {
    let mut e = episode(0, vec![regular("s", 3, 1)]);
    e.start_ts = Some(5);
    e.end_ts = Some(4);
    assert_eq!(codes(&run(&EpisodeBoundary, &dataset(vec![e]))), ["STRUCTURAL.EPISODE_BOUNDARY"]);
    let mut e = episode(0, vec![regular("s", 3, 1)]);
    e.start_ts = Some(0);
    e.end_ts = Some(2);
    e.declared_frame_count = Some(3);
    assert!(run(&EpisodeBoundary, &dataset(vec![e])).is_empty());
}

#[test]
fn declared_counts_are_held_against_the_data() {
    let mut d = dataset(vec![episode(0, vec![regular("s", 3, 1)])]);
    d.metadata = vec![("declared_episodes".to_string(), "1".to_string()), ("declared_frames".to_string(), "3".to_string())];
    assert!(run(&DeclaredEpisodeCount, &d).is_empty());
    assert!(run(&DeclaredFrameCount, &d).is_empty());
    d.metadata = vec![("declared_episodes".to_string(), "2".to_string()), ("declared_frames".to_string(), "4".to_string())];
    assert_eq!(codes(&run(&DeclaredEpisodeCount, &d)), ["STRUCTURAL.EPISODE_COUNT_MISMATCH"]);
    assert_eq!(codes(&run(&DeclaredFrameCount, &d)), ["STRUCTURAL.FRAME_COUNT_MISMATCH"]);
}

#[test]
fn a_dataset_without_episodes_is_degenerate_unless_nothing_was_read() {
    assert_eq!(run(&DegenerateEpisode, &dataset(Vec::new())).len(), 1);
    let hollow = dataset(vec![episode(0, vec![stream("s", &[])])]);
    assert!(!run(&DegenerateEpisode, &hollow).is_empty());
    let unread = CheckContext { frames_read: false, attested_keys: Vec::new() };
    assert!(DegenerateEpisode.run_in(&hollow, &unread).is_empty());
    assert!(run(&DegenerateEpisode, &one(regular("s", 3, 1))).is_empty());
}

#[test]
fn a_missing_episode_index_is_reported() {
    let d = dataset(vec![episode(0, Vec::new()), episode(2, Vec::new())]);
    assert_eq!(codes(&run(&EpisodeContinuity, &d)), ["STRUCTURAL.EPISODE_INDEX_GAP"]);
    let d = dataset(vec![episode(0, Vec::new()), episode(1, Vec::new())]);
    assert!(run(&EpisodeContinuity, &d).is_empty());
}

#[test]
fn a_stream_that_repeats_a_frame_is_stuck() {
    let with = |n: usize| {
        let mut s = regular("s", 8, 1);
        s.modality = Modality::Video;
        for i in 0..n {
            s.frames[i].value_ref.content_hash = Some([9; 32]);
        }
        run(&StuckStream, &one(s))
    };
    let found = with(6);
    assert_eq!(codes(&found), ["STRUCTURAL.STUCK_STREAM"]);
    assert!(found[0].message.contains("repeats one identical frame for 6 consecutive frames"));
    assert_eq!(with(5).len(), 1);
    assert!(with(4).is_empty());
}

#[test]
fn a_stream_missing_from_some_episodes_is_reported() {
    let d = dataset(vec![
        episode(0, vec![regular("a", 2, 1), regular("b", 2, 1)]),
        episode(1, vec![regular("a", 2, 1)]),
    ]);
    assert_eq!(codes(&run(&StreamPresence, &d)), ["STRUCTURAL.STREAM_PRESENCE_INCONSISTENT"]);
}

#[test]
fn content_without_fingerprints_cannot_be_compared() {
    let mut s = regular("s", 3, 1);
    for f in s.frames.iter_mut() {
        f.value_ref.content_hash = None;
    }
    let found = run(&ContentMeasurability, &one(s));
    assert_eq!(codes(&found), ["STRUCTURAL.UNCOMPARED_EPISODES", "STRUCTURAL.UNFINGERPRINTED_CONTENT"]);
    let found = run(&ContentMeasurability, &one(regular("s", 3, 1)));
    assert_eq!(codes(&found), ["STRUCTURAL.UNCOMPARED_EPISODES"]);
}

#[test]
fn step_indexed_streams_must_have_the_same_steps() {
    let step = |name: &str, n: i64| {
        let mut s = regular(name, n, 1);
        s.clock_kind = ClockKind::StepIndex;
        s
    };
    let d = dataset(vec![episode(0, vec![step("a", 6), step("b", 4)])]);
    assert_eq!(codes(&run(&StepAlignment, &d)), ["STRUCTURAL.STEP_COUNT_MISMATCH"]);
    assert_eq!(
        run(&StepAlignment, &d)[0].message,
        "episode 0: on step index `clock`, stream `a` holds 6 step(s) but `b` holds 4 — they cannot both be this episode's length"
    );
    // One row apart is the terminal-observation convention.
    let d = dataset(vec![episode(0, vec![step("a", 5), step("b", 4)])]);
    assert!(run(&StepAlignment, &d).is_empty());
}

#[test]
fn a_shape_that_changes_is_reported() {
    let shaped = |i: u64, n: u64| {
        let mut s = regular("s", 2, 1);
        s.shape = Some(vec![n]);
        episode(i, vec![s])
    };
    assert_eq!(codes(&run(&ShapeConsistency, &dataset(vec![shaped(0, 7), shaped(1, 6)]))), ["STRUCTURAL.SHAPE_MISMATCH"]);
    assert!(run(&ShapeConsistency, &dataset(vec![shaped(0, 7), shaped(1, 7)])).is_empty());
}

#[test]
fn duplicated_episodes_are_found() {
    let d = dataset(vec![
        episode(0, vec![regular("s", 4, 1)]),
        episode(1, vec![regular("s", 5, 1)]),
        episode(2, vec![regular("s", 4, 1)]),
    ]);
    let found = run(&DuplicateEpisode, &d);
    assert_eq!(codes(&found), ["STRUCTURAL.DUPLICATE_EPISODE"]);
}

#[test]
fn nearly_duplicated_episodes_are_found() {
    let mut other = regular("s", 40, 1);
    other.frames[39].value_ref.content_hash = Some([200; 32]);
    let d = dataset(vec![episode(0, vec![regular("s", 40, 1)]), episode(1, vec![other])]);
    let found = run(&NearDuplicateEpisode { min_overlap: bits(0.9) }, &d);
    assert_eq!(codes(&found), ["STRUCTURAL.NEAR_DUPLICATE_EPISODE"]);
    let found = run(&NearDuplicateEpisode { min_overlap: bits(0.99) }, &d);
    assert!(found.is_empty());
}

#[test]
fn an_exact_duplicate_is_no_near_duplicate() {
    let check = NearDuplicateEpisode { min_overlap: bits(0.9) };
    let twins = dataset(vec![episode(0, vec![regular("s", 40, 1)]), episode(1, vec![regular("s", 40, 1)])]);
    assert!(run(&check, &twins).is_empty());
    assert_eq!(codes(&run(&DuplicateEpisode, &twins)), ["STRUCTURAL.DUPLICATE_EPISODE"]);
    // An index shared with a twin does not make an episode one.
    let mut other = regular("s", 40, 1);
    other.frames[39].value_ref.content_hash = Some([200; 32]);
    let mixed = dataset(vec![
        episode(0, vec![regular("s", 40, 1)]),
        episode(1, vec![regular("s", 40, 1)]),
        episode(1, vec![other]),
    ]);
    let found = run(&check, &mixed);
    assert!(!found.is_empty());
    assert!(codes(&found).iter().all(|c| *c == "STRUCTURAL.NEAR_DUPLICATE_EPISODE"));
}

#[test]
fn a_stream_that_stands_still_in_one_episode_alone_is_frozen() {
    let with = |frozen: usize| {
        let mut episodes: Vec<Episode> = Vec::new();
        for i in 0..10u64 {
            let mut s = regular("arm", 20, 1);
            s.shape = Some(vec![7]);
            if (i as usize) < frozen {
                for f in s.frames.iter_mut() {
                    f.value_ref.content_hash = Some([1; 32]);
                }
            }
            episodes.push(episode(i, vec![s]));
        }
        run(&FrozenEpisode, &dataset(episodes))
    };
    let found = with(1);
    assert_eq!(codes(&found), ["STRUCTURAL.FROZEN_EPISODE"]);
    assert!(found[0].message.contains("while it changes in 9 of the 10 episode(s) carrying it"), "{}", found[0].message);
    assert!(with(0).is_empty());
    // Half of the episodes is the dataset's shape, not a fault in it.
    assert_eq!(with(4).len(), 4);
    assert!(with(5).is_empty());
}

// ---- statistical -----------------------------------------------------------------------------

fn stats(min: f64, max: f64, mean: f64, std: f64) -> StreamStats {
    StreamStats {
        min: bits(min),
        max: bits(max),
        mean: bits(mean),
        std: bits(std),
    }
}

fn stored(s: StreamStats) -> Dataset {
    let mut x = regular("s", 3, 1);
    x.stats = Some(s);
    one(x)
}

#[test]
fn impossible_statistics_are_named() {
    let at = |min: f64, max: f64, mean: f64, std: f64| -> Vec<String> {
        run(&RangeSanity, &stored(stats(min, max, mean, std))).into_iter().map(|f| f.code).collect()
    };
    assert!(at(-1.0, 1.0, 0.0, 0.5).is_empty());
    assert_eq!(at(f64::NAN, 1.0, 0.0, 0.5), ["STATISTICAL.NON_FINITE"]);
    assert_eq!(at(2.0, 1.0, 1.5, 0.5), ["STATISTICAL.RANGE_INVERTED"]);
    assert_eq!(at(-1.0, 1.0, 0.0, -0.5), ["STATISTICAL.NEGATIVE_STD"]);
    assert_eq!(at(-1.0, 1.0, 1.5, 0.5), ["STATISTICAL.MEAN_OUT_OF_RANGE"]);
    assert_eq!(at(-1.0, 1.0, 0.0, 1.5), ["STATISTICAL.STD_IMPLAUSIBLE"]);
    assert_eq!(at(-1.0, 1.0, 0.0, 0.0), ["STATISTICAL.STD_IMPLAUSIBLE"]);
    assert_eq!(at(1.0, 1.0, 1.0, 0.0), ["STATISTICAL.DEGENERATE"]);
}

#[test]
fn rounding_is_allowed_for_but_not_more() {
    let at = |min: f64, max: f64, mean: f64, std: f64| run(&RangeSanity, &stored(stats(min, max, mean, std))).len();
    // A millionth of the size of the values, and a billionth.
    let slack = 1e-9 + 1.0 * 1e-6;
    assert_eq!(at(-1.0, 1.0, 1.0 + slack, 0.5), 0);
    assert_eq!(at(-1.0, 1.0, 1.0 + slack + 1e-12, 0.5), 1);
    assert_eq!(at(-1.0, 1.0, 0.0, 1.0 + slack), 0);
    assert_eq!(at(-1.0, 1.0, 0.0, 1.0 + slack + 1e-12), 1);
    // Far from zero the range caps the slack.
    assert_eq!(at(1e9, 1e9 + 100.0, 1e9 + 500.0, 10.0), 0);
    assert_eq!(at(1e9, 1e9 + 100.0, 1e9 + 501.0, 10.0), 1);
}

#[test]
fn stored_statistics_must_cover_the_data() {
    let with = |s: StreamStats, o: StreamStats| {
        let mut x = regular("s", 3, 1);
        x.stats = Some(s);
        x.observed_stats = Some(o);
        run(&StoredVsObserved, &one(x)).len()
    };
    assert_eq!(with(stats(0.0, 1.0, 0.5, 0.1), stats(0.0, 1.0, 0.5, 0.1)), 0);
    assert_eq!(with(stats(0.0, 1.0, 0.5, 0.1), stats(0.0, 1.5, 0.5, 0.1)), 1);
    assert_eq!(with(stats(0.0, 1.0, 0.5, 0.1), stats(-1e-6, 1.0, 0.5, 0.1)), 0);
    assert_eq!(with(stats(0.0, 1.0, 0.5, 0.1), stats(-1.1e-6, 1.0, 0.5, 0.1)), 1);
    assert_eq!(with(stats(0.0, 1.0, 0.5, 0.1), stats(f64::NAN, 1.0, 0.5, 0.1)), 0);
    assert_eq!(with(stats(0.0, f64::INFINITY, 0.5, 0.1), stats(-5.0, 1.0, 0.5, 0.1)), 0);
}

#[test]
fn the_farther_extreme_is_the_outlier() {
    let with = |s: StreamStats, z: f64| {
        let mut x = regular("s", 3, 1);
        x.observed_dim_stats = Some(vec![DimStats { dim: 0, stats: stats(0.0, 1.0, 0.5, 0.5) }, DimStats { dim: 1, stats: s }]);
        run(&ExtremeOutlier { z_threshold: bits(z) }, &one(x)).into_iter().map(|f| f.message).collect::<Vec<String>>()
    };
    let found = with(stats(-1.0, 100.0, 0.0, 1.0), 50.0);
    assert_eq!(found.len(), 1);
    assert!(found[0].contains(
        "(dimension 1): its maximum (100) is 100.0σ from the mean — an extreme outlier (at most 0.01% of samples"
    ), "{}", found[0]);
    let found = with(stats(-100.0, 1.0, 0.0, 1.0), 100.0);
    assert!(found[0].contains("its minimum (-100) is 100.0σ"), "{}", found[0]);
    assert!(with(stats(-100.0, 1.0, 0.0, 1.0), 100.1).is_empty());
    // A tiny deviation puts an extreme hundreds of digits away.
    let found = with(stats(0.0, 1.0, 0.0, 4.5e-308), 50.0);
    assert!(found[0].contains("its maximum (1) is 2.2e307σ from the mean"), "{}", found[0]);
    assert!(found[0].contains("(at most 0.00% of samples"), "{}", found[0]);
    // A third is not a double: what the division rounds to is what is compared.
    assert_eq!(with(stats(0.0, 1.0, 0.0, 3.0), 1.0 / 3.0).len(), 1);
}

#[test]
fn a_declared_range_is_held_against_the_data() {
    let with = |low: f64, high: f64, o: StreamStats| {
        let mut x = regular("s", 3, 1);
        x.declared_range = Some(DeclaredRange { min: bits(low), max: bits(high) });
        x.observed_stats = Some(o);
        run(&DeclaredRangeConformance, &one(x)).len()
    };
    assert_eq!(with(-1.0, 1.0, stats(-1.0, 1.0, 0.0, 0.5)), 0);
    assert_eq!(with(-1.0, 1.0, stats(-2.0, 1.0, 0.0, 0.5)), 1);
    assert_eq!(with(-1.0, 1.0, stats(-1.0, 2.0, 0.0, 0.5)), 1);
    assert_eq!(with(-1.0, 1.0, stats(f64::NAN, 2.0, 0.0, 0.5)), 1);
    assert_eq!(with(-1.0, 1.0, stats(f64::NAN, f64::NAN, 0.0, 0.5)), 0);
    assert_eq!(with(-1.0, 1.0, stats(-1.0, f64::INFINITY, 0.0, 0.5)), 0);
    assert_eq!(with(f64::NEG_INFINITY, 1.0, stats(-1.0, 2.0, 0.0, 0.5)), 0);
}

#[test]
fn a_pinned_channel_is_saturated() {
    let with = |at_max: u64| {
        let mut x = regular("s", 3, 1);
        x.observed_saturation = Some(SaturationCounts {
            sample_count: 1000,
            at_min: 1,
            at_max,
            min: bits(-1.5),
            max: bits(1.5),
            dim: 0,
        });
        run(&Saturation::default(), &one(x)).len()
    };
    assert_eq!(with(900), 1);
    assert_eq!(with(1), 0);
}

#[test]
fn values_that_are_not_finite_are_counted() {
    let mut x = regular("s", 3, 1);
    x.observed_non_finite = Some(2);
    let found = run(&NonFiniteObserved, &one(x));
    assert_eq!(found[0].message, "stream `s`: 2 non-finite value(s) (NaN or ±inf) in the recorded data");
    let mut x = regular("s", 3, 1);
    x.observed_non_finite = Some(0);
    assert!(run(&NonFiniteObserved, &one(x)).is_empty());
}

#[test]
fn a_stream_without_statistics_is_said_to_be_unmeasured() {
    let found = run(&ValueMeasurability, &one(regular("s", 3, 1)));
    assert_eq!(codes(&found), ["STATISTICAL.UNMEASURED_VALUES"]);
    let mut x = regular("s", 3, 1);
    x.observed_stats = Some(stats(0.0, 1.0, 0.5, 0.1));
    assert_eq!(codes(&run(&ValueMeasurability, &one(x))), ["STATISTICAL.NO_STORED_STATS"]);
}

// ---- semantic and provenance -----------------------------------------------------------------

#[test]
fn tasks_must_say_something() {
    let with = |task: &str| {
        let mut e = episode(0, vec![regular("s", 3, 1)]);
        e.task = Some(task.to_string());
        run(&TaskQuality, &dataset(vec![e])).into_iter().map(|f| f.code).collect::<Vec<String>>()
    };
    assert_eq!(with("  "), ["SEMANTIC.EMPTY_TASK"]);
    assert_eq!(with("test"), ["SEMANTIC.PLACEHOLDER_TASK"]);
    assert!(with("put the red cup on the shelf").is_empty());
}

#[test]
fn stream_names_must_be_told_apart() {
    let d = dataset(vec![episode(0, vec![regular("a", 2, 1), regular("a", 2, 1)])]);
    let found = run(&StreamKeyClarity, &d);
    assert_eq!(codes(&found), ["SEMANTIC.DUPLICATE_STREAM_KEY"]);
    let d = dataset(vec![episode(0, vec![regular("Cam", 2, 1), regular("cam", 2, 1)])]);
    let found = run(&StreamKeyClarity, &d);
    assert_eq!(codes(&found), ["SEMANTIC.AMBIGUOUS_STREAM_KEY", "SEMANTIC.AMBIGUOUS_STREAM_KEY"]);
    assert!(found[0].message.contains("stream `Cam` in episode 0 is ambiguous with `cam`"), "{}", found[0].message);
}

#[test]
fn annotations_must_lie_in_the_episode_and_agree() {
    let label = |value: &str, ts: i64| Label { key: "language".to_string(), value: value.to_string(), ts: Some(ts) };
    let with = |labels: Vec<Label>| {
        let mut e = episode(0, vec![regular("s", 3, 10)]);
        e.labels = labels;
        run(&AnnotationIntegrity, &dataset(vec![e])).into_iter().map(|f| f.code).collect::<Vec<String>>()
    };
    assert_eq!(with(vec![label("grasp", 99)]), ["SEMANTIC.ANNOTATION_UNALIGNED"]);
    assert_eq!(with(vec![label("grasp", 10), label("lift", 10)]), ["SEMANTIC.ANNOTATION_CONFLICT"]);
    assert_eq!(with(vec![label(" ", 10)]), ["SEMANTIC.EMPTY_ANNOTATION"]);
    assert!(with(vec![label("grasp", 10), label("lift", 20)]).is_empty());
}

#[test]
fn provenance_must_fit_its_class() {
    let mut d = dataset(Vec::new());
    d.provenance = vec![Provenance {
        elements: vec![
            ProvenanceElement {
                key: "license".to_string(),
                value: None,
                class: ProvenanceClass::Known,
                placeholder: false,
            },
            ProvenanceElement {
                key: "sensor".to_string(),
                value: Some("n/a".to_string()),
                class: ProvenanceClass::Known,
                placeholder: true,
            },
        ],
    }];
    let found = run(&ProvenanceCompleteness, &d);
    assert!(codes(&found).contains(&"PROVENANCE.INCONSISTENT"));
    assert!(codes(&found).contains(&"PROVENANCE.PLACEHOLDER_VALUE"));
}

#[test]
fn missing_provenance_is_named_key_by_key() {
    let found = run(&ProvenanceCompleteness, &dataset(Vec::new()));
    assert_eq!(
        codes(&found),
        [
            "PROVENANCE.MISSING_LICENSE",
            "PROVENANCE.MISSING_SENSOR",
            "PROVENANCE.MISSING_CLOCK",
            "PROVENANCE.MISSING_CALIBRATION",
            "PROVENANCE.MISSING_ANNOTATOR",
            "PROVENANCE.MISSING_UPSTREAM",
        ]
    );
    let severities: Vec<Severity> = found.iter().map(|f| f.severity).collect();
    assert_eq!(severities[0], Severity::Warning);
    assert!(severities[1..].iter().all(|s| *s == Severity::Info));
}

// ---- the rig ---------------------------------------------------------------------------------

fn sensor(name: &str, modality: Modality, count: i64, step: i64) -> Stream {
    let mut s = regular(name, count, step);
    s.modality = modality;
    s
}

/// Three sensors of two kinds make a rig.
fn rig(mut streams: Vec<Stream>) -> Episode {
    streams.push(sensor("lidar", Modality::PointCloud, 11, 100 * MS));
    streams.push(sensor("radar", Modality::PointCloud, 11, 100 * MS));
    streams.push(sensor("bus", Modality::CanSignal, 11, 100 * MS));
    episode(0, streams)
}

#[test]
fn rig_sensors_that_drift_are_reported() {
    let d = dataset(vec![rig(vec![sensor("imu", Modality::Imu, 101, 13 * MS)])]);
    let found = run(&RigSync { tolerance_ns: 50 * MS }, &d);
    assert_eq!(codes(&found), ["AUTONOMY.RIG_SYNC"]);
    let d = dataset(vec![rig(vec![sensor("imu", Modality::Imu, 101, 10 * MS)])]);
    assert!(run(&RigSync { tolerance_ns: 50 * MS }, &d).is_empty());
}

#[test]
fn frames_missing_at_multiples_of_the_cadence_are_counted() {
    let mut kept: Vec<i64> = Vec::new();
    for i in 0..41i64 {
        if i % 10 != 5 {
            kept.push(i * 100 * MS);
        }
    }
    let mut imu = stream("imu", &kept);
    imu.modality = Modality::Imu;
    let found = run(&SequenceComplete::default(), &dataset(vec![rig(vec![imu])]));
    assert_eq!(codes(&found), ["AUTONOMY.SEQUENCE_COMPLETE"]);
    assert!(found[0].message.contains("37 arrived"), "{}", found[0].message);
    assert!(found[0].message.contains("account for ~4 more"), "{}", found[0].message);
    // Without a steady cadence there is nothing to fall short of.
    let mut bursts: Vec<i64> = Vec::new();
    for i in 0..20i64 {
        bursts.push(i * 1_000 * MS);
        bursts.push(i * 1_000 * MS + 100 * MS);
    }
    let mut can = stream("can", &bursts);
    can.modality = Modality::CanSignal;
    assert!(run(&SequenceComplete::default(), &dataset(vec![rig(vec![can])])).is_empty());
}

fn pose(ts: i64, at: [f64; 3]) -> EgoPose {
    EgoPose { ts, translation: [bits(at[0]), bits(at[1]), bits(at[2])] }
}

#[test]
fn a_jump_of_the_ego_pose_is_measured() {
    let with = |poses: Vec<EgoPose>| {
        let mut e = episode(0, vec![regular("s", 3, 1)]);
        e.ego_poses = Some(poses);
        run(&EgoPoseContinuity::default(), &dataset(vec![e]))
    };
    let found = with(vec![
        pose(0, [0.0, 0.0, 0.0]),
        pose(1_000 * MS, [3.0, 4.0, 0.0]),
        pose(2_000 * MS, [3.0, 4.0, 120.0]),
        pose(3_000 * MS, [3.0, 4.0, 221.0]),
    ]);
    assert_eq!(codes(&found), ["AUTONOMY.EGO_POSE_CONTINUITY"]);
    assert_eq!(
        found[0].message,
        "episode 0: ego trajectory has 2 discontinuities — the worst implies 120 m/s at ts 2000000000 (max plausible 100 m/s)"
    );
    // A hundred metres in a second is not more than a hundred metres a second.
    assert!(with(vec![pose(0, [0.0; 3]), pose(1_000 * MS, [60.0, 80.0, 0.0])]).is_empty());
    // No time passes: not this check's fault to report.
    assert!(with(vec![pose(5, [0.0; 3]), pose(5, [1e9, 0.0, 0.0])]).is_empty());
    let found = with(vec![pose(0, [0.0; 3]), pose(1, [f64::NAN, 0.0, 0.0]), pose(2, [1e308, 0.0, 0.0])]);
    assert_eq!(codes(&found), ["AUTONOMY.EGO_POSE_NON_FINITE"]);
    assert!(found[0].message.contains("2 ego-trajectory step(s)"));
    // The square of the distance overflows.
    let found = with(vec![pose(0, [0.0; 3]), pose(1, [1e200, 0.0, 0.0])]);
    assert_eq!(codes(&found), ["AUTONOMY.EGO_POSE_NON_FINITE"]);
}

fn transform(parent: &str, child: &str, rotation: [f64; 4]) -> Transform {
    Transform {
        parent_frame: parent.to_string(),
        child_frame: child.to_string(),
        pose: Pose {
            translation: [0.0f64.to_bits(); 3],
            rotation: [rotation[0].to_bits(), rotation[1].to_bits(), rotation[2].to_bits(), rotation[3].to_bits()],
        },
        valid_from: None,
        valid_to: None,
    }
}

fn calibrated(rotation: [f64; 4], fx: f64) -> Dataset {
    let mut camera = sensor("cam", Modality::Video, 11, 100 * MS);
    camera.frame_id = Some("camera".to_string());
    let mut e = rig(vec![camera]);
    e.streams[1].frame_id = Some("lidar".to_string());
    e.streams[2].frame_id = Some("lidar".to_string());
    let mut d = dataset(vec![e]);
    d.calibration = Some(Calibration {
        intrinsics: vec![CameraIntrinsics {
            stream: "cam".to_string(),
            fx: bits(fx),
            fy: bits(500.0),
            cx: bits(320.0),
            cy: bits(240.0),
            distortion: vec![0.0f64.to_bits()],
        }],
        transforms: vec![transform("base", "camera", rotation), transform("base", "lidar", [0.0, 0.0, 0.0, 1.0])],
    });
    d
}

#[test]
fn a_zero_rotation_is_no_rotation() {
    assert!(run(&CalibrationCompleteness, &calibrated([0.0, 0.0, 0.0, 1.0], 500.0)).is_empty());
    let found = run(&CalibrationCompleteness, &calibrated([0.0; 4], 500.0));
    assert_eq!(codes(&found), ["AUTONOMY.CALIBRATION_IMPLAUSIBLE"]);
    assert!(found[0].message.contains("zero rotation quaternion"), "{}", found[0].message);
    let found = run(&CalibrationCompleteness, &calibrated([9e-7, 0.0, 0.0, 0.0], 500.0));
    assert_eq!(found.len(), 1);
    assert!(run(&CalibrationCompleteness, &calibrated([1e-6, 1e-9, 0.0, 0.0], 500.0)).is_empty());
    let found = run(&CalibrationCompleteness, &calibrated([1e200, 0.0, 0.0, 0.0], 500.0));
    assert!(found[0].message.contains("holds a non-finite value"), "{}", found[0].message);
    let found = run(&CalibrationCompleteness, &calibrated([0.0, 0.0, 0.0, 1.0], 0.0));
    assert!(found[0].message.contains("focal length of (0, 500)"), "{}", found[0].message);
}

#[test]
fn missing_calibration_is_incomplete() {
    let mut d = calibrated([0.0, 0.0, 0.0, 1.0], 500.0);
    d.calibration = None;
    let found = run(&CalibrationCompleteness, &d);
    assert!(codes(&found).iter().all(|c| *c == "AUTONOMY.CALIBRATION_INCOMPLETE"));
    assert!(!found.is_empty());
}

#[test]
fn a_frame_must_have_one_place_in_the_tree() {
    let with = |extra: Transform| {
        let mut d = calibrated([0.0, 0.0, 0.0, 1.0], 500.0);
        if let Some(c) = d.calibration.as_mut() {
            c.transforms.push(extra);
        }
        run(&CalibrationCompleteness, &d)
    };
    let found = with(transform("lidar", "base", [0.0, 0.0, 0.0, 1.0]));
    assert!(codes(&found).iter().all(|c| *c == "AUTONOMY.CALIBRATION_AMBIGUOUS"));
    assert!(!found.is_empty());
    let found = with(transform("roof", "lidar", [0.0, 0.0, 0.0, 1.0]));
    assert!(codes(&found).contains(&"AUTONOMY.CALIBRATION_AMBIGUOUS"), "{:?}", codes(&found));
    assert!(with(transform("lidar", "mount", [0.0, 0.0, 0.0, 1.0])).is_empty());
}

fn held(parent: &str, child: &str, from: i64, to: i64) -> Transform {
    let mut t = transform(parent, child, [0.0, 0.0, 0.0, 1.0]);
    t.valid_from = Some(from);
    t.valid_to = Some(to);
    t
}

#[test]
fn a_cycle_is_one_at_some_instant() {
    // The way back exists when the way out does too, though not when it is first seen.
    let c = tf_directed_cycle(&vec![held("a", "b", 0, 1), held("b", "a", 5, 6), held("a", "b", 5, 6)]).unwrap();
    assert!(c == ["a", "b", "a"] || c == ["b", "a", "b"], "{c:?}");
    // Never at the same time.
    assert!(tf_directed_cycle(&vec![held("a", "b", 0, 1), held("b", "a", 5, 6)]).is_none());
    assert!(tf_directed_cycle(&Vec::new()).is_none());
    let loop_of = |t: Transform| tf_directed_cycle(&vec![t]).unwrap();
    assert_eq!(loop_of(held("a", "a", 0, 1)), ["a", "a"]);
    // A longer one, behind a branch that leads nowhere.
    let long = vec![
        transform("r", "x", [0.0, 0.0, 0.0, 1.0]),
        held("r", "a", 0, 9),
        held("a", "b", 2, 9),
        held("b", "c", 0, 4),
        held("c", "a", 4, 8),
    ];
    let c = tf_directed_cycle(&long).unwrap();
    assert_eq!(c.len(), 4);
    assert_eq!(c[0], c[3]);
}

#[test]
fn two_parents_at_once_contest_a_frame() {
    let with = |extra: Vec<Transform>| {
        let mut d = calibrated([0.0, 0.0, 0.0, 1.0], 500.0);
        if let Some(c) = d.calibration.as_mut() {
            for t in extra {
                c.transforms.push(t);
            }
        }
        run(&CalibrationCompleteness, &d)
    };
    let found = with(vec![held("left", "mount", 0, 5), held("right", "mount", 5, 9)]);
    assert_eq!(codes(&found), ["AUTONOMY.CALIBRATION_AMBIGUOUS"]);
    assert!(found[0].message.contains("mount"));
    // One after the other is a re-mount.
    assert!(with(vec![held("left", "mount", 0, 4), held("right", "mount", 5, 9)]).is_empty());
    // The overlap is with an earlier claim that lasts, not with the one just before.
    let found = with(vec![held("left", "mount", 0, 9), held("left", "mount", 1, 2), held("right", "mount", 7, 8)]);
    assert_eq!(codes(&found), ["AUTONOMY.CALIBRATION_AMBIGUOUS"]);
}

#[test]
fn a_common_difference_in_length_is_one_defect() {
    let filmed_at = |i: u64, frames: u64| {
        let mut d = filmed(MediaStatus::Read, params("h264", 640, 30.0), frames);
        let mut e = d.episodes.remove(0);
        e.index = i;
        e
    };
    let check = MediaConformance { fps_tolerance: bits(0.02) };
    let one_off = run(&check, &dataset(vec![filmed_at(0, 11), filmed_at(1, 11), filmed_at(2, 11)]));
    assert_eq!(codes(&one_off), ["VIDEO.FRAME_COUNT_MISMATCH"]);
    let mixed = run(&check, &dataset(vec![filmed_at(0, 11), filmed_at(1, 12), filmed_at(2, 10)]));
    assert_eq!(codes(&mixed), ["VIDEO.FRAME_COUNT_MISMATCH", "VIDEO.FRAME_COUNT_MISMATCH"]);
}

#[test]
fn every_sensor_must_stand_in_the_tree() {
    let d = calibrated([0.0, 0.0, 0.0, 1.0], 500.0);
    assert!(run(&SensorFrameResolution, &d).is_empty());
    let mut d = calibrated([0.0, 0.0, 0.0, 1.0], 500.0);
    d.episodes[0].streams[1].frame_id = None;
    assert_eq!(codes(&run(&SensorFrameResolution, &d)), ["AUTONOMY.SENSOR_FRAME_UNDECLARED"]);
    let mut d = calibrated([0.0, 0.0, 0.0, 1.0], 500.0);
    d.episodes[0].streams[1].frame_id = Some("nowhere".to_string());
    assert_eq!(codes(&run(&SensorFrameResolution, &d)), ["AUTONOMY.SENSOR_FRAME_UNKNOWN"]);
    let mut d = calibrated([0.0, 0.0, 0.0, 1.0], 500.0);
    if let Some(c) = d.calibration.as_mut() {
        c.transforms[1].parent_frame = "island".to_string();
    }
    assert_eq!(codes(&run(&SensorFrameResolution, &d)), ["AUTONOMY.SENSOR_FRAME_UNRELATED", "AUTONOMY.SENSOR_FRAME_UNRELATED"]);
}

#[test]
fn a_position_must_be_a_place() {
    let with = |lat: f64, lon: f64| {
        let mut s = sensor("gnss", Modality::Gnss, 11, 100 * MS);
        s.observed_dim_stats = Some(vec![
            DimStats { dim: 0, stats: stats(lat, lat, lat, 0.0) },
            DimStats { dim: 1, stats: stats(lon, lon, lon, 0.0) },
        ]);
        s.dim_names = Some(vec!["latitude".to_string(), "longitude".to_string()]);
        run(&GnssPlausibility, &dataset(vec![rig(vec![s])])).into_iter().map(|f| f.code).collect::<Vec<String>>()
    };
    assert!(with(48.1, 11.6).is_empty());
    assert_eq!(with(91.0, 11.6), ["AUTONOMY.GNSS_IMPLAUSIBLE"]);
    assert_eq!(with(0.0, 0.0), ["AUTONOMY.GNSS_UNSET"]);
}

// ---- video -----------------------------------------------------------------------------------

fn params(codec: &str, width: u64, fps: f64) -> MediaParams {
    MediaParams {
        codec: Some(Codec { name: codec.to_string(), canonical: Some(codec.to_string()) }),
        width: Some(width),
        height: Some(480),
        fps: Some(bits(fps)),
    }
}

fn filmed(status: MediaStatus, observed: MediaParams, frames: u64) -> Dataset {
    let mut s = sensor("cam", Modality::Video, 10, 33 * MS);
    s.media = Some(Media {
        uri: "v.mp4".to_string(),
        declared: params("h264", 640, 30.0),
        status,
        observed,
        frame_count: Some(frames),
    });
    one(s)
}

#[test]
fn media_must_be_there_and_readable() {
    let found = run(&MediaReadable, &filmed(MediaStatus::Missing, params("h264", 640, 30.0), 10));
    assert_eq!(codes(&found), ["VIDEO.MEDIA_ABSENT"]);
    let broken = MediaStatus::Unreadable { reason: "cut off".to_string() };
    let found = run(&MediaReadable, &filmed(broken, params("h264", 640, 30.0), 10));
    assert_eq!(codes(&found), ["VIDEO.MEDIA_UNREADABLE"]);
    assert_eq!(found[0].message, "episode 0 stream `cam`: `v.mp4` is not a readable video container (cut off)");
    let lost = MediaStatus::Unattributable { reason: "no index".to_string() };
    let found = run(&MediaReadable, &filmed(lost, params("h264", 640, 30.0), 10));
    assert_eq!(codes(&found), ["VIDEO.MEDIA_UNATTRIBUTED"]);
    assert!(run(&MediaReadable, &filmed(MediaStatus::Read, params("h264", 640, 30.0), 10)).is_empty());
}

#[test]
fn media_must_be_what_the_manifest_says() {
    let check = MediaConformance { fps_tolerance: bits(0.02) };
    let with = |observed: MediaParams, frames: u64| -> Vec<String> {
        run(&check, &filmed(MediaStatus::Read, observed, frames)).into_iter().map(|f| f.code).collect()
    };
    assert!(with(params("h264", 640, 30.0), 10).is_empty());
    assert_eq!(with(params("h264", 640, 30.0), 9), ["VIDEO.FRAME_COUNT_MISMATCH"]);
    assert_eq!(with(params("h264", 320, 30.0), 10), ["VIDEO.RESOLUTION_MISMATCH"]);
    assert_eq!(with(params("av1", 640, 30.0), 10), ["VIDEO.CODEC_MISMATCH"]);
    assert_eq!(with(params("h264", 640, 25.0), 10), ["VIDEO.FPS_MISMATCH"]);
    let found = run(&check, &filmed(MediaStatus::Read, params("h264", 640, 25.0), 10));
    assert!(
        found[0].message.contains("declared 30.000 fps, container plays at 25.000 fps (16.7% off)"),
        "{}",
        found[0].message
    );
    assert!(with(params("h264", 640, 30.59), 10).is_empty());
    assert_eq!(with(params("h264", 640, 30.61), 10), ["VIDEO.FPS_MISMATCH"]);
}

#[test]
fn an_unreadable_file_is_an_abstention() {
    assert_eq!(MediaReadable.abstention_codes().to_vec(), vec!["VIDEO.MEDIA_UNREADABLE"]);
}
