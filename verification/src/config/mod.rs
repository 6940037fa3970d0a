//! Configuration: a `veridex.toml` that selects which checks run, disables checks, overrides
//! severities, and sets the CI failure threshold. Configuration is explicit and, once applied, is
//! recorded in the verdict's effective config so a run stays reproducible from it.

use vstd::prelude::*;
use vstd::string::*;

use crate::assoc;
use crate::assoc::Entry;
use crate::cat::{cat2, cat3};
use crate::check::{Category, Severity};
use crate::engine::{collect_overrides, copy_categories, copy_overrides, RunConfig};
use crate::decimal;
use crate::number;
use crate::text;
use crate::text::{copy_texts, dec_u64, holds};
use crate::tolerances;
use crate::tolerances::Tolerances;

pub mod env;

verus! {

broadcast use text::lemma_texts_push;

/// Errors parsing a configuration.
#[derive(Debug)]
pub enum ConfigError {
    /// The configuration was malformed or had unexpected fields/values.
    Parse(String),
}

impl ConfigError {
    /// What is wrong with the configuration.
    pub open spec fn reason(self) -> Seq<char> {
        match self {
            ConfigError::Parse(m) => m@,
        }
    }

    /// The error as a message.
    pub fn message(&self) -> (r: String)
        ensures
            r@ == "invalid config: "@ + self.reason(),
    {
        match self {
            ConfigError::Parse(m) => cat2("invalid config: ", m.as_str()),
        }
    }
}

/// The failure threshold: which severity makes `veridex check` exit with a failure code.
#[derive(Debug, Clone, Copy, PartialEq, Eq, Structural)]
pub enum FailOn {
    /// Only `error` findings fail the run (default).
    Error,
    /// `warning` (or worse) fails the run.
    Warning,
}

impl Default for FailOn {
    fn default() -> (r: Self)
        ensures
            r == FailOn::Error,
    {
        FailOn::Error
    }
}

/// The `[tolerances]` table: per-check numeric thresholds. Each is optional and falls back to the
/// check's built-in default. Times are in milliseconds for readability.
#[derive(Debug, Clone, Copy, PartialEq, Eq, Structural)]
pub struct TolerancesConfig {
    /// `TEMPORAL.CLOCK_SKEW` max cross-stream duration drift, in milliseconds.
    pub clock_skew_ms: Option<u64>,
    /// `TEMPORAL.START_OFFSET` max shared-clock start offset, in milliseconds.
    pub start_offset_ms: Option<u64>,
    /// `TEMPORAL.END_OFFSET` max shared-clock end offset, in milliseconds.
    pub end_offset_ms: Option<u64>,
    /// `TEMPORAL.RATE` allowed relative rate deviation (0.10 = 10%).
    pub rate_deviation: Option<u64>,
    /// `TEMPORAL.GAP` gap factor: an interval this many times the expected one is a gap.
    pub gap_factor: Option<u64>,
    /// `TEMPORAL.JITTER` max coefficient of variation (std / mean) of inter-frame intervals.
    pub jitter_cv: Option<u64>,
    /// `TEMPORAL.EPISODE_DURATION_OUTLIER` multiple-of-median past which an episode duration is an
    /// outlier. Must be greater than 1.0 (a factor of 1.0 or less would flag every episode).
    pub episode_duration_factor: Option<u64>,
    /// `STATISTICAL.SATURATED` pinned-fraction threshold (0.50 = half the samples). Must be within
    /// (0.0, 1.0]: a threshold of 0 would flag every stream, and above 1.0 nothing could ever reach it.
    pub saturation_fraction: Option<u64>,
    /// `STATISTICAL.SATURATED` minimum sample count below which the check abstains.
    pub saturation_min_samples: Option<u64>,
    /// `STATISTICAL.OUTLIER` standard-deviations-from-mean at or beyond which a value is flagged. Must
    /// be greater than 1.0: at or below one deviation every stream would be flagged.
    pub outlier_z: Option<u64>,
    /// `AUTONOMY.SEQUENCE_COMPLETE` tolerated fraction of a rig sensor's implied frames that may be
    /// missing (0.05 = 5%). Must be within [0.0, 1.0).
    pub sequence_drop_fraction: Option<u64>,
    /// `AUTONOMY.EGO_POSE_CONTINUITY` maximum plausible ego speed, in metres per second; a step
    /// implying more than this is a teleport.
    pub ego_max_speed_mps: Option<u64>,
    /// `STRUCTURAL.NEAR_DUPLICATE_EPISODE` shared-frame fraction at which two episodes are reported as
    /// near-duplicates. Must be within (0.0, 1.0]: at 0 every pair matches.
    pub near_duplicate_fraction: Option<u64>,
    /// `AUTONOMY.SENSOR_CLOCK_OFFSET` maximum tolerated disagreement between a sensor's own capture
    /// stamps and the recorder's clock, in milliseconds. Must be non-negative.
    pub sensor_clock_offset_ms: Option<u64>,
}

impl Default for TolerancesConfig {
    /// Nothing is set.
    fn default() -> (r: Self)
        ensures
            r == no_tolerances(),
    {
        TolerancesConfig {
            clock_skew_ms: None,
            start_offset_ms: None,
            end_offset_ms: None,
            rate_deviation: None,
            gap_factor: None,
            jitter_cv: None,
            episode_duration_factor: None,
            saturation_fraction: None,
            saturation_min_samples: None,
            outlier_z: None,
            sequence_drop_fraction: None,
            ego_max_speed_mps: None,
            near_duplicate_fraction: None,
            sensor_clock_offset_ms: None,
        }
    }
}

/// A table of tolerances that sets nothing.
pub open spec fn no_tolerances() -> TolerancesConfig {
    TolerancesConfig {
        clock_skew_ms: None,
        start_offset_ms: None,
        end_offset_ms: None,
        rate_deviation: None,
        gap_factor: None,
        jitter_cv: None,
        episode_duration_factor: None,
        saturation_fraction: None,
        saturation_min_samples: None,
        outlier_z: None,
        sequence_drop_fraction: None,
        ego_max_speed_mps: None,
        near_duplicate_fraction: None,
        sensor_clock_offset_ms: None,
    }
}

/// A parsed `veridex.toml`.
#[derive(Debug)]
pub struct CheckConfig {
    /// Failure threshold for the CLI exit code.
    pub fail_on: FailOn,
    /// If set, only these categories run.
    pub categories: Option<Vec<Category>>,
    /// If set, only these check ids run.
    pub only_checks: Option<Vec<String>>,
    /// Check ids to disable.
    pub disabled_checks: Vec<String>,
    /// Per-check severity overrides, id → severity.
    pub severity_overrides: Vec<Entry<Severity>>,
    /// Minimum trust score (0–100) required to pass; a lower score fails the run. With `None`
    /// every score passes. The `--min-score` CLI flag overrides this.
    pub min_score: Option<u8>,
    /// Per-check numeric tolerances. Unset entries use the check's default.
    pub tolerances: TolerancesConfig,
    /// The top-level keys the file actually carried. Three settings have no "unset" value to test
    /// for: `fail_on` defaults to `error`, `disabled_checks` and `severity_overrides` to empty, so
    /// whether the file set them is recorded here.
    pub keys_present: Vec<String>,
}

/// What a configuration holds.
#[verifier::ext_equal]
pub struct CheckConfigView {
    /// The value of `fail_on`.
    pub fail_on: FailOn,
    /// The value of `categories`.
    pub categories: Option<Seq<Category>>,
    /// The value of `only_checks`.
    pub only_checks: Option<Seq<Seq<char>>>,
    /// The value of `disabled_checks`.
    pub disabled_checks: Seq<Seq<char>>,
    /// The value of `severity_overrides`.
    pub severity_overrides: Seq<(Seq<char>, Severity)>,
    /// The value of `min_score`.
    pub min_score: Option<u8>,
    /// The value of `tolerances`.
    pub tolerances: TolerancesConfig,
    /// The value of `keys_present`.
    pub keys_present: Seq<Seq<char>>,
}

/// What an optional list of categories holds.
pub open spec fn categories_of(c: Option<Vec<Category>>) -> Option<Seq<Category>> {
    match c {
        Some(v) => Some(v@),
        None => None,
    }
}

/// What an optional list of ids holds.
pub open spec fn ids_of(c: Option<Vec<String>>) -> Option<Seq<Seq<char>>> {
    match c {
        Some(v) => Some(text::texts(v@)),
        None => None,
    }
}

impl View for CheckConfig {
    type V = CheckConfigView;

    open spec fn view(&self) -> CheckConfigView {
        CheckConfigView {
            fail_on: self.fail_on,
            categories: categories_of(self.categories),
            only_checks: ids_of(self.only_checks),
            disabled_checks: text::texts(self.disabled_checks@),
            severity_overrides: assoc::pairs(self.severity_overrides@),
            min_score: self.min_score,
            tolerances: self.tolerances,
            keys_present: text::texts(self.keys_present@),
        }
    }
}

/// The configuration where there is none.
pub open spec fn default_config() -> CheckConfigView {
    CheckConfigView {
        fail_on: FailOn::Error,
        categories: None,
        only_checks: None,
        disabled_checks: Seq::empty(),
        severity_overrides: Seq::empty(),
        min_score: None,
        tolerances: no_tolerances(),
        keys_present: Seq::empty(),
    }
}

impl Default for CheckConfig {
    /// Nothing is configured.
    fn default() -> (r: Self)
        ensures
            r@ == default_config(),
    {
        let r: CheckConfig = CheckConfig {
            fail_on: FailOn::Error,
            categories: None,
            only_checks: None,
            disabled_checks: Vec::new(),
            severity_overrides: Vec::new(),
            min_score: None,
            tolerances: TolerancesConfig::default(),
            keys_present: Vec::new(),
        };
        assert(r@ =~= default_config());
        r
    }
}

// ---- validation ------------------------------------------------------------------------------

/// One, as a double.
pub const ONE: u64 = 0x3ff0_0000_0000_0000;

/// A fault, or another where there is none.
pub open spec fn or_fault(a: Option<Seq<char>>, b: Option<Seq<char>>) -> Option<Seq<char>> {
    if a is Some { a } else { b }
}

/// What is wrong with a threshold of which `holds` is asked.
pub open spec fn threshold_fault(t: Option<u64>, holds: spec_fn(u64) -> bool, demand: Seq<char>) -> Option<Seq<char>> {
    match t {
        Some(v) => if number::is_finite(v) && holds(v) {
            None
        } else {
            Some(demand + decimal::plain_text(v))
        },
        None => None,
    }
}

/// What is wrong with a threshold that must not be negative.
pub open spec fn negative_fault(name: Seq<char>, t: Option<u64>) -> Option<Seq<char>> {
    threshold_fault(
        t,
        |bits: u64| !number::less(bits, 0),
        name + " must be a finite, non-negative number, got "@,
    )
}

/// What is wrong with a threshold that must be positive.
pub open spec fn positive_fault(name: Seq<char>, t: Option<u64>) -> Option<Seq<char>> {
    threshold_fault(
        t,
        |bits: u64| number::less(0, bits),
        name + " must be a finite, positive number, got "@,
    )
}

/// What is wrong with a threshold that must be greater than one.
pub open spec fn factor_fault(name: Seq<char>, t: Option<u64>) -> Option<Seq<char>> {
    threshold_fault(
        t,
        |bits: u64| number::less(ONE, bits),
        name + " must be a finite number greater than 1.0, got "@,
    )
}

/// What is wrong with a threshold that must be a share greater than zero.
pub open spec fn share_fault(name: Seq<char>, t: Option<u64>) -> Option<Seq<char>> {
    threshold_fault(
        t,
        |bits: u64| number::less(0, bits) && number::at_most(bits, ONE),
        name + " must be a finite number in (0.0, 1.0], got "@,
    )
}

/// What is wrong with a threshold that must be a share less than one.
pub open spec fn part_fault(name: Seq<char>, t: Option<u64>) -> Option<Seq<char>> {
    threshold_fault(
        t,
        |bits: u64| number::at_most(0, bits) && number::less(bits, ONE),
        name + " must be a finite number in [0.0, 1.0), got "@,
    )
}

/// What is wrong with a table of tolerances: the first fault, in a stable order.
pub open spec fn tolerances_fault(t: TolerancesConfig) -> Option<Seq<char>> {
    let f0 = negative_fault("clock_skew_ms"@, t.clock_skew_ms);
    let f1 = negative_fault("sensor_clock_offset_ms"@, t.sensor_clock_offset_ms);
    let f2 = negative_fault("start_offset_ms"@, t.start_offset_ms);
    let f3 = negative_fault("end_offset_ms"@, t.end_offset_ms);
    let f4 = negative_fault("rate_deviation"@, t.rate_deviation);
    let f5 = negative_fault("jitter_cv"@, t.jitter_cv);
    let f6 = positive_fault("gap_factor"@, t.gap_factor);
    let f7 = factor_fault("episode_duration_factor"@, t.episode_duration_factor);
    let f8 = share_fault("saturation_fraction"@, t.saturation_fraction);
    let f9 = factor_fault("outlier_z"@, t.outlier_z);
    let f10 = part_fault("sequence_drop_fraction"@, t.sequence_drop_fraction);
    let f11 = positive_fault("ego_max_speed_mps"@, t.ego_max_speed_mps);
    let f12 = share_fault("near_duplicate_fraction"@, t.near_duplicate_fraction);
    or_fault(f0, or_fault(f1, or_fault(f2, or_fault(f3, or_fault(f4, or_fault(f5, or_fault(f6, or_fault(f7, or_fault(f8, or_fault(f9, or_fault(f10, or_fault(f11, f12))))))))))))
}

/// What is wrong with a configuration.
pub open spec fn fault(c: CheckConfigView) -> Option<Seq<char>> {
    if c.min_score is Some && c.min_score->0 > 100 {
        Some("min_score must be between 0 and 100, got "@ + text::dec(c.min_score->0 as nat))
    } else {
        tolerances_fault(c.tolerances)
    }
}

/// Whether a result reports a fault where there is one, and only there.
pub open spec fn reports(r: Result<(), ConfigError>, f: Option<Seq<char>>) -> bool {
    match r {
        Ok(_) => f is None,
        Err(e) => f == Some(e.reason()),
    }
}

/// Refuses a threshold that breaks a rule: it must not be negative.
fn check_negative(name: &str, t: &Option<u64>) -> (r: Result<(), ConfigError>)
    ensures
        reports(r, negative_fault(name@, *t)),
{
    match t {
        Some(v) => if number::finite(*v) && !number::lt(*v, 0) {
            Ok(())
        } else {
            Err(ConfigError::Parse(cat3(name, " must be a finite, non-negative number, got ", decimal::plain(*v).as_str())))
        },
        None => Ok(()),
    }
}

/// Refuses a threshold that breaks a rule: it must be positive.
fn check_positive(name: &str, t: &Option<u64>) -> (r: Result<(), ConfigError>)
    ensures
        reports(r, positive_fault(name@, *t)),
{
    match t {
        Some(v) => if number::finite(*v) && number::lt(0, *v) {
            Ok(())
        } else {
            Err(ConfigError::Parse(cat3(name, " must be a finite, positive number, got ", decimal::plain(*v).as_str())))
        },
        None => Ok(()),
    }
}

/// Refuses a threshold that breaks a rule: it must be greater than one.
fn check_factor(name: &str, t: &Option<u64>) -> (r: Result<(), ConfigError>)
    ensures
        reports(r, factor_fault(name@, *t)),
{
    match t {
        Some(v) => if number::finite(*v) && number::lt(ONE, *v) {
            Ok(())
        } else {
            Err(ConfigError::Parse(cat3(name, " must be a finite number greater than 1.0, got ", decimal::plain(*v).as_str())))
        },
        None => Ok(()),
    }
}

/// Refuses a threshold that breaks a rule: it must be a share greater than zero.
fn check_share(name: &str, t: &Option<u64>) -> (r: Result<(), ConfigError>)
    ensures
        reports(r, share_fault(name@, *t)),
{
    match t {
        Some(v) => if number::finite(*v) && number::lt(0, *v) && number::le(*v, ONE) {
            Ok(())
        } else {
            Err(ConfigError::Parse(cat3(name, " must be a finite number in (0.0, 1.0], got ", decimal::plain(*v).as_str())))
        },
        None => Ok(()),
    }
}

/// Refuses a threshold that breaks a rule: it must be a share less than one.
fn check_part(name: &str, t: &Option<u64>) -> (r: Result<(), ConfigError>)
    ensures
        reports(r, part_fault(name@, *t)),
{
    match t {
        Some(v) => if number::finite(*v) && number::le(0, *v) && number::lt(*v, ONE) {
            Ok(())
        } else {
            Err(ConfigError::Parse(cat3(name, " must be a finite number in [0.0, 1.0), got ", decimal::plain(*v).as_str())))
        },
        None => Ok(()),
    }
}

impl TolerancesConfig {
    /// Reject non-finite or negative values, and a non-positive gap factor (which would flag every
    /// interval). Called before a run so a bad threshold is an error, not a silent misbehavior.
    fn validate(&self) -> (r: Result<(), ConfigError>)
        ensures
            reports(r, tolerances_fault(*self)),
    {
        if let Err(e) = check_negative("clock_skew_ms", &self.clock_skew_ms) {
            return Err(e);
        }
        if let Err(e) = check_negative("sensor_clock_offset_ms", &self.sensor_clock_offset_ms) {
            return Err(e);
        }
        if let Err(e) = check_negative("start_offset_ms", &self.start_offset_ms) {
            return Err(e);
        }
        if let Err(e) = check_negative("end_offset_ms", &self.end_offset_ms) {
            return Err(e);
        }
        if let Err(e) = check_negative("rate_deviation", &self.rate_deviation) {
            return Err(e);
        }
        if let Err(e) = check_negative("jitter_cv", &self.jitter_cv) {
            return Err(e);
        }
        if let Err(e) = check_positive("gap_factor", &self.gap_factor) {
            return Err(e);
        }
        if let Err(e) = check_factor("episode_duration_factor", &self.episode_duration_factor) {
            return Err(e);
        }
        if let Err(e) = check_share("saturation_fraction", &self.saturation_fraction) {
            return Err(e);
        }
        if let Err(e) = check_factor("outlier_z", &self.outlier_z) {
            return Err(e);
        }
        if let Err(e) = check_part("sequence_drop_fraction", &self.sequence_drop_fraction) {
            return Err(e);
        }
        if let Err(e) = check_positive("ego_max_speed_mps", &self.ego_max_speed_mps) {
            return Err(e);
        }
        check_share("near_duplicate_fraction", &self.near_duplicate_fraction)
    }

    /// Resolve into concrete [`Tolerances`], filling unset entries from the defaults. Millisecond
    /// times are converted to nanoseconds (saturating on absurd values).
    pub fn resolve(&self) -> (r: Tolerances)
        ensures
            r == resolved(*self),
    {
        let d: Tolerances = Tolerances::default();
        Tolerances {
            clock_skew_ns: time_or(&self.clock_skew_ms, d.clock_skew_ns),
            start_offset_ns: time_or(&self.start_offset_ms, d.start_offset_ns),
            end_offset_ns: time_or(&self.end_offset_ms, d.end_offset_ns),
            rate_deviation: value_or(&self.rate_deviation, d.rate_deviation),
            gap_factor: value_or(&self.gap_factor, d.gap_factor),
            jitter_cv: value_or(&self.jitter_cv, d.jitter_cv),
            episode_duration_factor: value_or(&self.episode_duration_factor, d.episode_duration_factor),
            saturation_fraction: value_or(&self.saturation_fraction, d.saturation_fraction),
            saturation_min_samples: match self.saturation_min_samples {
                Some(n) => n,
                None => d.saturation_min_samples,
            },
            outlier_z: value_or(&self.outlier_z, d.outlier_z),
            sequence_drop_fraction: value_or(&self.sequence_drop_fraction, d.sequence_drop_fraction),
            ego_max_speed_mps: value_or(&self.ego_max_speed_mps, d.ego_max_speed_mps),
            near_duplicate_fraction: value_or(&self.near_duplicate_fraction, d.near_duplicate_fraction),
            sensor_clock_offset_ns: time_or(&self.sensor_clock_offset_ms, d.sensor_clock_offset_ns),
        }
    }
}

/// A time in nanoseconds, or another where none is set.
pub open spec fn time_of(t: Option<u64>, other: i64) -> i64 {
    match t {
        Some(t) => number::nanos(t) as i64,
        None => other,
    }
}

/// A threshold, or another where none is set.
pub open spec fn value_of(t: Option<u64>, other: u64) -> u64 {
    match t {
        Some(t) => t,
        None => other,
    }
}

/// The tolerances that a table implies.
pub open spec fn resolved(t: TolerancesConfig) -> Tolerances {
    let d = tolerances::default_tolerances();
    Tolerances {
        clock_skew_ns: time_of(t.clock_skew_ms, d.clock_skew_ns),
        start_offset_ns: time_of(t.start_offset_ms, d.start_offset_ns),
        end_offset_ns: time_of(t.end_offset_ms, d.end_offset_ns),
        rate_deviation: value_of(t.rate_deviation, d.rate_deviation),
        gap_factor: value_of(t.gap_factor, d.gap_factor),
        jitter_cv: value_of(t.jitter_cv, d.jitter_cv),
        episode_duration_factor: value_of(t.episode_duration_factor, d.episode_duration_factor),
        saturation_fraction: value_of(t.saturation_fraction, d.saturation_fraction),
        saturation_min_samples: match t.saturation_min_samples {
            Some(n) => n,
            None => d.saturation_min_samples,
        },
        outlier_z: value_of(t.outlier_z, d.outlier_z),
        sequence_drop_fraction: value_of(t.sequence_drop_fraction, d.sequence_drop_fraction),
        ego_max_speed_mps: value_of(t.ego_max_speed_mps, d.ego_max_speed_mps),
        near_duplicate_fraction: value_of(t.near_duplicate_fraction, d.near_duplicate_fraction),
        sensor_clock_offset_ns: time_of(t.sensor_clock_offset_ms, d.sensor_clock_offset_ns),
    }
}

/// A time in nanoseconds, or another where none is set.
fn time_or(t: &Option<u64>, other: i64) -> (r: i64)
    ensures
        r == time_of(*t, other),
{
    match t {
        Some(t) => number::to_nanos(*t),
        None => other,
    }
}

/// A threshold, or another where none is set.
fn value_or(t: &Option<u64>, other: u64) -> (r: u64)
    ensures
        r == value_of(*t, other),
{
    match t {
        Some(t) => *t,
        None => other,
    }
}

// ---- check ids -------------------------------------------------------------------------------

/// The ids that overrides name.
pub open spec fn override_ids(s: Seq<(Seq<char>, Severity)>) -> Seq<Seq<char>> {
    s.map_values(|p: (Seq<char>, Severity)| p.0)
}

/// The check ids that a configuration refers to: those selected, those disabled, those overridden.
pub open spec fn referenced(c: CheckConfigView) -> Seq<Seq<char>> {
    (match c.only_checks {
        Some(ids) => ids,
        None => Seq::empty(),
    }) + c.disabled_checks + override_ids(assoc::collected(c.severity_overrides))
}

/// The first of some ids that is not known.
pub open spec fn unknown_id(ids: Seq<Seq<char>>, known: Seq<Seq<char>>) -> Option<Seq<char>>
    decreases ids.len(),
{
    if ids.len() == 0 {
        None
    } else if !known.contains(ids[0]) {
        Some(ids[0])
    } else {
        unknown_id(ids.skip(1), known)
    }
}

/// What is wrong with the ids that a configuration refers to.
pub open spec fn id_fault(ids: Seq<Seq<char>>, known: Seq<Seq<char>>) -> Option<Seq<char>> {
    match unknown_id(ids, known) {
        Some(id) => Some(
            "unknown check id `"@ + id + "` in config (run `veridex checks` to list valid ids)"@,
        ),
        None => None,
    }
}

/// Where every id before position `i` is known, the first unknown one is the first from there.
proof fn lemma_unknown_from(ids: Seq<Seq<char>>, known: Seq<Seq<char>>, i: int)
    requires
        0 <= i <= ids.len(),
        forall|k: int| 0 <= k < i ==> known.contains(#[trigger] ids[k]),
    ensures
        unknown_id(ids, known) == unknown_id(ids.skip(i), known),
    decreases i,
{
    if i > 0 {
        let rest = ids.skip(1);
        assert forall|k: int| 0 <= k < i - 1 implies known.contains(#[trigger] rest[k]) by {
            assert(rest[k] == ids[k + 1]);
        }
        lemma_unknown_from(rest, known, i - 1);
        assert(rest.skip(i - 1) =~= ids.skip(i));
        assert(known.contains(ids[0]));
    } else {
        assert(ids.skip(0) =~= ids);
    }
}

/// A configuration passes where every id it refers to is known, and only there.
pub proof fn law_every_referenced_id_is_known(ids: Seq<Seq<char>>, known: Seq<Seq<char>>)
    ensures
        unknown_id(ids, known) is None <==> (forall|i: int| 0 <= i < ids.len() ==> known.contains(#[trigger] ids[i])),
        unknown_id(ids, known) matches Some(id) ==> ids.contains(id) && !known.contains(id),
    decreases ids.len(),
{
    if ids.len() > 0 {
        let rest = ids.skip(1);
        law_every_referenced_id_is_known(rest, known);
        if known.contains(ids[0]) {
            if unknown_id(rest, known) is None {
                assert forall|i: int| 0 <= i < ids.len() implies known.contains(#[trigger] ids[i]) by {
                    if i > 0 {
                        assert(rest[i - 1] == ids[i]);
                    }
                }
            } else {
                let id = unknown_id(rest, known)->0;
                let k = choose|k: int| 0 <= k < rest.len() && rest[k] == id;
                assert(ids[k + 1] == id);
            }
        }
    }
}

impl CheckConfig {
    /// Validate the values this config carries, independent of where they came from.
    ///
    /// Public because a config is not only parsed from a file: the environment layer merges onto a
    /// parsed config, and a value that arrives that way has to meet exactly the same bar as one
    /// written in the file.
    pub fn validate(&self) -> (r: Result<(), ConfigError>)
        ensures
            reports(r, fault(self@)),
    {
        if let Some(n) = self.min_score {
            if n > 100 {
                return Err(
                    ConfigError::Parse(
                        cat2("min_score must be between 0 and 100, got ", dec_u64(n as u64).as_str()),
                    ),
                );
            }
        }
        self.tolerances.validate()
    }

    /// The check ids that this config refers to.
    fn list_referenced(&self) -> (r: Vec<String>)
        ensures
            text::texts(r@) == referenced(self@),
    {
        let mut out: Vec<String> = match &self.only_checks {
            Some(ids) => copy_texts(ids),
            None => Vec::new(),
        };
        let mut i: usize = 0;
        let ghost d = text::texts(self.disabled_checks@);
        let ghost head = match self@.only_checks {
            Some(ids) => ids,
            None => Seq::empty(),
        };
        assert(text::texts(out@) =~= head);
        assert(text::texts(out@) =~= head + d.take(0));
        while i < self.disabled_checks.len()
            invariant
                i <= self.disabled_checks@.len(),
                d == text::texts(self.disabled_checks@),
                text::texts(out@) == head + d.take(i as int),
            decreases self.disabled_checks@.len() - i,
        {
            out.push(self.disabled_checks[i].clone());
            assert(d[i as int] == self.disabled_checks@[i as int]@);
            assert(head + d.take(i + 1) =~= (head + d.take(i as int)).push(d[i as int]));
            i = i + 1;
        }
        assert(d.take(i as int) =~= d);
        let overrides: Vec<Entry<Severity>> = collect_overrides(&self.severity_overrides);
        let ghost p = assoc::pairs(overrides@);
        let ghost ids = override_ids(p);
        let mut j: usize = 0;
        assert(head + d + ids.take(0) =~= head + d);
        while j < overrides.len()
            invariant
                j <= overrides@.len(),
                p == assoc::pairs(overrides@),
                ids == override_ids(p),
                text::texts(out@) == head + d + ids.take(j as int),
            decreases overrides@.len() - j,
        {
            out.push(overrides[j].key.clone());
            assert(p[j as int] == (overrides@[j as int].key@, overrides@[j as int].value));
            assert(ids[j as int] == overrides@[j as int].key@);
            assert(head + d + ids.take(j + 1) =~= (head + d + ids.take(j as int)).push(ids[j as int]));
            j = j + 1;
        }
        assert(ids.take(j as int) =~= ids);
        out
    }

    /// Validate that every check id this config references — `only_checks`, `disabled_checks`, and
    /// the keys of `severity_overrides` — names a real check in `known`. A typo would otherwise
    /// silently no-op (a "disabled" check that keeps running, or a severity override that never
    /// applies), so an unknown id is a hard error. Reports the first unknown id encountered, in a
    /// stable order (only-checks, then disabled, then overrides).
    pub fn validate_check_ids(&self, known: &Vec<String>) -> (r: Result<(), ConfigError>)
        ensures
            reports(r, id_fault(referenced(self@), text::texts(known@))),
    {
        let ids: Vec<String> = self.list_referenced();
        let ghost t = text::texts(ids@);
        let ghost k = text::texts(known@);
        let mut i: usize = 0;
        while i < ids.len()
            invariant
                i <= ids@.len(),
                t == text::texts(ids@),
                k == text::texts(known@),
                t == referenced(self@),
                forall|j: int| 0 <= j < i ==> k.contains(#[trigger] t[j]),
            decreases ids@.len() - i,
        {
            assert(t[i as int] == ids@[i as int]@);
            if !holds(known, ids[i].as_str()) {
                proof {
                    lemma_unknown_from(t, k, i as int);
                    assert(t.skip(i as int)[0] == t[i as int]);
                }
                return Err(
                    ConfigError::Parse(
                        cat3(
                            "unknown check id `",
                            ids[i].as_str(),
                            "` in config (run `veridex checks` to list valid ids)",
                        ),
                    ),
                );
            }
            i = i + 1;
        }
        proof {
            assert(t.len() == ids@.len());
            lemma_unknown_from(t, k, i as int);
        }
        Ok(())
    }

    /// The engine [`RunConfig`] this configuration implies (everything except the exit threshold,
    /// which the CLI applies).
    pub fn to_run_config(&self) -> (r: RunConfig)
        ensures
            categories_of(r.categories) == self@.categories,
            ids_of(r.only_checks) == self@.only_checks,
            text::texts(r.disabled_checks@) == self@.disabled_checks,
            assoc::pairs(r.severity_overrides@) == self@.severity_overrides,
            r.tolerances == resolved(self@.tolerances),
    {
        RunConfig {
            categories: match &self.categories {
                Some(c) => Some(copy_categories(c)),
                None => None,
            },
            only_checks: match &self.only_checks {
                Some(c) => Some(copy_texts(c)),
                None => None,
            },
            disabled_checks: copy_texts(&self.disabled_checks),
            severity_overrides: copy_overrides(&self.severity_overrides),
            tolerances: self.tolerances.resolve(),
        }
    }
}

} // verus!
