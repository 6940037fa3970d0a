use veridex_core::assoc::Entry;
use veridex_core::check::{Category, Severity};
use veridex_core::config::env::{merge, Given, TOLERANCE_KEYS, VARIABLES};
use veridex_core::config::{CheckConfig, ConfigError, FailOn, TolerancesConfig};

fn threshold(v: f64) -> u64 {
    v.to_bits()
}

fn with(set: impl Fn(&mut TolerancesConfig)) -> CheckConfig {
    let mut c = CheckConfig::default();
    set(&mut c.tolerances);
    c
}

fn complaint(c: &CheckConfig) -> String {
    match c.validate() {
        Ok(()) => panic!("the configuration must be refused"),
        Err(e) => e.message(),
    }
}

#[test]
fn an_empty_configuration_is_valid() {
    let c = CheckConfig::default();
    assert!(c.validate().is_ok());
    assert_eq!(c.fail_on, FailOn::Error);
    let run = c.to_run_config();
    assert!(run.categories.is_none() && run.only_checks.is_none());
    assert_eq!(run.tolerances.clock_skew_ns, 50_000_000);
    assert_eq!(run.tolerances.gap_factor, 3.0f64.to_bits());
}

#[test]
fn an_out_of_range_value_is_named() {
    let mut c = CheckConfig::default();
    c.min_score = Some(101);
    assert_eq!(complaint(&c), "invalid config: min_score must be between 0 and 100, got 101");
    c.min_score = Some(100);
    assert!(c.validate().is_ok());
    assert_eq!(
        complaint(&with(|t| t.clock_skew_ms = Some(threshold(-1.0)))),
        "invalid config: clock_skew_ms must be a finite, non-negative number, got -1"
    );
    assert_eq!(
        complaint(&with(|t| t.jitter_cv = Some(threshold(f64::NAN)))),
        "invalid config: jitter_cv must be a finite, non-negative number, got NaN"
    );
    assert_eq!(
        complaint(&with(|t| t.gap_factor = Some(threshold(0.0)))),
        "invalid config: gap_factor must be a finite, positive number, got 0"
    );
    assert_eq!(
        complaint(&with(|t| t.episode_duration_factor = Some(threshold(1.0)))),
        "invalid config: episode_duration_factor must be a finite number greater than 1.0, got 1"
    );
    assert_eq!(
        complaint(&with(|t| t.saturation_fraction = Some(threshold(1.5)))),
        "invalid config: saturation_fraction must be a finite number in (0.0, 1.0], got 1.5"
    );
    assert_eq!(
        complaint(&with(|t| t.outlier_z = Some(threshold(f64::INFINITY)))),
        "invalid config: outlier_z must be a finite number greater than 1.0, got inf"
    );
    assert_eq!(
        complaint(&with(|t| t.sequence_drop_fraction = Some(threshold(1.0)))),
        "invalid config: sequence_drop_fraction must be a finite number in [0.0, 1.0), got 1"
    );
    assert_eq!(
        complaint(&with(|t| t.ego_max_speed_mps = Some(threshold(-3.0)))),
        "invalid config: ego_max_speed_mps must be a finite, positive number, got -3"
    );
    assert_eq!(
        complaint(&with(|t| t.near_duplicate_fraction = Some(threshold(0.0)))),
        "invalid config: near_duplicate_fraction must be a finite number in (0.0, 1.0], got 0"
    );
    assert!(with(|t| t.sequence_drop_fraction = Some(threshold(0.0))).validate().is_ok());
    assert!(with(|t| t.saturation_fraction = Some(threshold(1.0))).validate().is_ok());
}

#[test]
fn the_first_fault_in_the_order_of_the_table_is_told() {
    let c = with(|t| {
        t.near_duplicate_fraction = Some(threshold(0.0));
        t.sensor_clock_offset_ms = Some(threshold(-2.0));
    });
    assert_eq!(
        complaint(&c),
        "invalid config: sensor_clock_offset_ms must be a finite, non-negative number, got -2"
    );
}

#[test]
fn milliseconds_resolve_to_nanoseconds() {
    let c = with(|t| {
        t.clock_skew_ms = Some(threshold(20.5));
        t.end_offset_ms = Some(threshold(1e300));
        t.saturation_min_samples = Some(7);
    });
    let t = c.to_run_config().tolerances;
    assert_eq!(t.clock_skew_ns, 20_500_000);
    assert_eq!(t.start_offset_ns, 50_000_000);
    assert_eq!(t.end_offset_ns, i64::MAX);
    assert_eq!(t.saturation_min_samples, 7);
}

#[test]
fn an_unknown_check_id_is_refused_in_a_stable_order() {
    let known = vec!["a".to_string(), "b".to_string()];
    let mut c = CheckConfig::default();
    c.only_checks = Some(vec!["a".to_string()]);
    c.disabled_checks = vec!["b".to_string()];
    assert!(c.validate_check_ids(&known).is_ok());
    c.severity_overrides = vec![
        Entry { key: "z".to_string(), value: Severity::Info },
        Entry { key: "y".to_string(), value: Severity::Info },
    ];
    let message = |c: &CheckConfig| c.validate_check_ids(&known).unwrap_err().message();
    assert_eq!(
        message(&c),
        "invalid config: unknown check id `y` in config (run `veridex checks` to list valid ids)"
    );
    c.disabled_checks.push("x".to_string());
    assert!(message(&c).contains("`x`"));
    c.only_checks = Some(vec!["w".to_string()]);
    assert!(message(&c).contains("`w`"));
}

// ---- the environment --------------------------------------------------------------------------

fn variables(pairs: &[(&str, &str)]) -> Vec<Entry<Given>> {
    pairs
        .iter()
        .map(|(name, value)| Entry {
            key: name.to_string(),
            value: Given { text: value.to_string(), number: value.trim().parse::<f64>().ok().map(threshold) },
        })
        .collect()
}

fn merged(pairs: &[(&str, &str)]) -> (CheckConfig, Vec<String>) {
    match merge(CheckConfig::default(), variables(pairs)) {
        Ok(x) => x,
        Err(e) => panic!("{}", e.message()),
    }
}

fn rejected(name: &str, value: &str) -> String {
    match merge(CheckConfig::default(), variables(&[(name, value)])) {
        Ok(_) => panic!("the environment must be refused"),
        Err(ConfigError::Parse(m)) => m,
    }
}

#[test]
fn every_key_has_a_variable() {
    assert_eq!(VARIABLES.len(), 6);
    assert_eq!(TOLERANCE_KEYS.len(), 14);
    let (c, set) = merged(&[
        ("VERIDEX_FAIL_ON", " warning "),
        ("VERIDEX_MIN_SCORE", "80"),
        ("VERIDEX_CATEGORIES", "temporal, structural"),
        ("VERIDEX_ONLY_CHECKS", "a,,b ,"),
        ("VERIDEX_DISABLED_CHECKS", "c"),
        ("VERIDEX_SEVERITY_OVERRIDES", "y = error, x=info, y=warning"),
        ("VERIDEX_TOLERANCE_GAP_FACTOR", "2.5"),
        ("VERIDEX_TOLERANCE_SATURATION_MIN_SAMPLES", "12"),
        ("VERIDEX_BIN", "/usr/bin/veridex"),
        ("HOME", "/root"),
    ]);
    assert_eq!(c.fail_on, FailOn::Warning);
    assert_eq!(c.min_score, Some(80));
    assert_eq!(c.categories, Some(vec![Category::Temporal, Category::Structure]));
    assert_eq!(c.only_checks, Some(vec!["a".to_string(), "b".to_string()]));
    assert_eq!(c.disabled_checks, vec!["c".to_string()]);
    let overrides: Vec<(String, Severity)> =
        c.severity_overrides.iter().map(|e| (e.key.clone(), e.value)).collect();
    assert_eq!(overrides, vec![("x".to_string(), Severity::Info), ("y".to_string(), Severity::Warning)]);
    assert_eq!(c.tolerances.gap_factor, Some(2.5f64.to_bits()));
    assert_eq!(c.tolerances.saturation_min_samples, Some(12));
    assert_eq!(
        set,
        vec![
            "categories",
            "disabled_checks",
            "fail_on",
            "min_score",
            "only_checks",
            "severity_overrides",
            "tolerances.gap_factor",
            "tolerances.saturation_min_samples",
        ]
    );
}

#[test]
fn every_tolerance_can_be_set() {
    for key in TOLERANCE_KEYS {
        let name = format!("VERIDEX_TOLERANCE_{}", key.to_uppercase());
        let value = if key == "saturation_min_samples" {
            "3"
        } else if key.ends_with("fraction") {
            "0.25"
        } else {
            "4.5"
        };
        let (_, set) = merged(&[(name.as_str(), value)]);
        assert_eq!(set, vec![format!("tolerances.{key}")]);
    }
}

#[test]
fn a_key_that_the_environment_leaves_alone_keeps_its_value() {
    let mut base = CheckConfig::default();
    base.min_score = Some(55);
    base.disabled_checks = vec!["d".to_string()];
    base.keys_present = vec!["min_score".to_string()];
    let (c, set) = merge(base, variables(&[("VERIDEX_FAIL_ON", "warning")])).unwrap();
    assert_eq!(c.min_score, Some(55));
    assert_eq!(c.disabled_checks, vec!["d".to_string()]);
    assert_eq!(c.keys_present, vec!["min_score".to_string()]);
    assert_eq!(set, vec!["fail_on"]);
}

#[test]
fn the_last_of_two_variables_of_one_name_counts() {
    let (c, _) = merged(&[("VERIDEX_MIN_SCORE", "10"), ("VERIDEX_MIN_SCORE", "20")]);
    assert_eq!(c.min_score, Some(20));
}

#[test]
fn a_bad_variable_is_named() {
    assert_eq!(
        rejected("VERIDEX_TOLERANCE_GAPFACTOR", "2"),
        "unknown environment variable `VERIDEX_TOLERANCE_GAPFACTOR` (known tolerances: clock_skew_ms, \
         start_offset_ms, end_offset_ms, rate_deviation, gap_factor, jitter_cv, episode_duration_factor, \
         saturation_fraction, saturation_min_samples, outlier_z, sequence_drop_fraction, ego_max_speed_mps, \
         near_duplicate_fraction, sensor_clock_offset_ms)"
    );
    assert_eq!(
        rejected("VERIDEX_ONLY_CHECKS", "  "),
        "VERIDEX_ONLY_CHECKS is empty; unset it to leave `only_checks` alone rather than setting it to nothing"
    );
    assert_eq!(
        rejected("VERIDEX_FAIL_ON", "info"),
        "VERIDEX_FAIL_ON: invalid fail_on `info` (expected `error` or `warning`)"
    );
    assert_eq!(
        rejected("VERIDEX_MIN_SCORE", "256"),
        "VERIDEX_MIN_SCORE: invalid min_score `256` (expected an integer 0-100)"
    );
    assert_eq!(rejected("VERIDEX_MIN_SCORE", "200"), "min_score must be between 0 and 100, got 200");
    assert_eq!(
        rejected("VERIDEX_CATEGORIES", "temporal,tactile"),
        "VERIDEX_CATEGORIES: unknown category `tactile` (known: structural, temporal, statistical, semantic, \
         video, provenance, autonomy)"
    );
    assert_eq!(
        rejected("VERIDEX_SEVERITY_OVERRIDES", "a"),
        "VERIDEX_SEVERITY_OVERRIDES: `a` is not a `check-id=severity` pair"
    );
    assert_eq!(
        rejected("VERIDEX_SEVERITY_OVERRIDES", "a= fatal"),
        "VERIDEX_SEVERITY_OVERRIDES: unknown severity ` fatal` (expected info, warning, or error)"
    );
    assert_eq!(
        rejected("VERIDEX_TOLERANCE_GAP_FACTOR", "wide"),
        "VERIDEX_TOLERANCE_GAP_FACTOR: invalid gap_factor `wide` (expected a number)"
    );
    assert_eq!(
        rejected("VERIDEX_TOLERANCE_SATURATION_MIN_SAMPLES", "1.5"),
        "VERIDEX_TOLERANCE_SATURATION_MIN_SAMPLES: invalid saturation_min_samples `1.5` (expected a whole number)"
    );
    assert_eq!(
        rejected("VERIDEX_TOLERANCE_GAP_FACTOR", "-1"),
        "gap_factor must be a finite, positive number, got -1"
    );
}
