use veridex_core::assoc::Entry;
use veridex_core::cdm::{ClockKind, Dataset, Episode, Frame, Modality, Stream, ValueRef};
use veridex_core::certificate::score::Grade;
use veridex_core::check::{sort_findings, Category, Check, CheckInfo, Finding, Location, Scope, Severity};
use veridex_core::checks::standard::{default_engine, standard_checks, StandardCheck};
use veridex_core::checks::temporal::Monotonicity;
use veridex_core::engine::{
    check_selected, conclude, AppliedAttestation, CheckRun, CoverageNote, Engine, RegistryError, RunConfig, Status,
};
use veridex_core::pipeline::check_ingested;
use veridex_core::tolerances::{loosened_tolerances, Tolerances};

fn stream(stamps: &[i64]) -> Stream {
    Stream {
        name: "s".to_string(),
        modality: Modality::ScalarState,
        declared_rate_hz: None,
        clock_id: "clock".to_string(),
        clock_kind: ClockKind::Measured,
        dtype: None,
        shape: None,
        dim_names: None,
        frames: stamps
            .iter()
            .map(|ts| Frame {
                ts: *ts,
                value_ref: ValueRef {
                    uri: String::new(),
                    byte_offset: None,
                    byte_len: None,
                    content_hash: Some([*ts as u8; 32]),
                },
            })
            .collect(),
        stats: None,
        dim_stats: None,
        observed_stats: None,
        observed_dim_stats: None,
        observed_saturation: None,
        observed_non_finite: None,
        declared_range: None,
        latched: None,
        media: None,
        frame_id: None,
    }
}

fn dataset(stamps: &[i64]) -> Dataset {
    Dataset {
        id: "d".to_string(),
        calibration: None,
        metadata: Vec::new(),
        provenance: Vec::new(),
        episodes: vec![Episode {
            index: 0,
            start_ts: None,
            end_ts: None,
            streams: vec![stream(stamps)],
            task: None,
            labels: Vec::new(),
            ego_poses: None,
            declared_frame_count: None,
            duration_ns: None,
        }],
    }
}

fn info(id: &'static str) -> CheckInfo {
    CheckInfo {
        id,
        title: "t",
        category: Category::Temporal,
        default_severity: Severity::Error,
        scope: Scope::Dataset,
        version: "1",
        finding_codes: &["X"],
    }
}

fn finding(id: &'static str, severity: Severity) -> Finding {
    Finding::new(id, Category::Temporal, severity, Location::Dataset, "X", "m".to_string())
}

#[test]
fn a_repeated_id_is_refused() {
    let engine = Engine::<StandardCheck>::builder();
    let engine = engine.register(StandardCheck::Monotonicity(Monotonicity)).unwrap();
    match engine.register(StandardCheck::Monotonicity(Monotonicity)) {
        Err(e) => {
            assert_eq!(e, RegistryError::DuplicateId("temporal.monotonicity"));
            assert_eq!(e.message(), "duplicate check id: temporal.monotonicity");
        }
        Ok(_) => panic!("registered twice"),
    }
}

#[test]
fn the_standard_checks_have_distinct_ids_and_codes() {
    let engine = default_engine().unwrap();
    let ids = engine.check_ids();
    assert_eq!(ids.len(), standard_checks().len());
    assert_eq!(engine.catalog().len(), ids.len());
    for (i, a) in ids.iter().enumerate() {
        for b in &ids[..i] {
            assert_ne!(a, b);
        }
    }
    for c in standard_checks() {
        assert!(!c.finding_codes().is_empty());
        assert!(c.id().starts_with(c.category().tag()), "{}", c.id());
    }
}

#[test]
fn selection_is_by_category_and_id() {
    let mut c = RunConfig::default();
    assert!(check_selected(&info("a"), &c));
    c.categories = Some(vec![Category::Semantic]);
    assert!(!check_selected(&info("a"), &c));
    c.categories = Some(vec![Category::Temporal]);
    c.only_checks = Some(vec!["b".to_string()]);
    assert!(!check_selected(&info("a"), &c));
    c.only_checks = Some(vec!["a".to_string()]);
    assert!(check_selected(&info("a"), &c));
    c.disabled_checks = vec!["a".to_string()];
    assert!(!check_selected(&info("a"), &c));
}

#[test]
fn a_status_is_that_of_the_worst_finding() {
    let at = |severities: &[Severity]| {
        let found: Vec<Finding> = severities.iter().map(|s| finding("a", *s)).collect();
        let runs = vec![CheckRun { info: info("a"), outcome: Ok(found) }];
        conclude(&[1], &RunConfig::default(), CoverageNote::Full, runs, 1).status
    };
    assert_eq!(at(&[]), Status::Pass);
    assert_eq!(at(&[Severity::Info]), Status::Pass);
    assert_eq!(at(&[Severity::Info, Severity::Warning]), Status::PassWithWarnings);
    assert_eq!(at(&[Severity::Warning, Severity::Error, Severity::Info]), Status::Fail);
}

#[test]
fn an_override_counts_and_is_disclosed() {
    let mut c = RunConfig::default();
    c.severity_overrides = vec![
        Entry { key: "a".to_string(), value: Severity::Warning },
        Entry { key: "a".to_string(), value: Severity::Info },
    ];
    let runs = vec![CheckRun { info: info("a"), outcome: Ok(vec![finding("a", Severity::Error)]) }];
    let v = conclude(&[1], &c, CoverageNote::Full, runs, 1);
    assert_eq!(v.status, Status::Pass);
    assert_eq!((v.counts.error, v.counts.warning, v.counts.info), (0, 0, 2));
    assert!(v.scope_narrowed());
    assert!(v.findings.iter().any(|f| f.code == "SCOPE.NARROWED"));
}

#[test]
fn a_check_that_failed_is_listed_apart() {
    let runs = vec![
        CheckRun { info: info("b"), outcome: Ok(Vec::new()) },
        CheckRun { info: info("a"), outcome: Err("boom".to_string()) },
    ];
    let v = conclude(&[0xff, 0x01], &RunConfig::default(), CoverageNote::Full, runs, 2);
    assert_eq!(v.cdm_content_hash, "ff01");
    assert_eq!(v.errored_checks.len(), 1);
    assert_eq!(v.errored_checks[0].message, "boom");
    let ids: Vec<&str> = v.executed_checks.iter().map(|c| c.check_id.as_str()).collect();
    assert_eq!(ids, ["a", "b"]);
    assert_eq!(v.checks_categories(), [Category::Temporal]);
}

#[test]
fn the_order_of_execution_does_not_show() {
    let run = |id: &'static str, s: Severity| CheckRun { info: info(id), outcome: Ok(vec![finding(id, s)]) };
    let runs = |flip: bool| {
        let mut r = vec![run("a", Severity::Info), run("b", Severity::Error), run("c", Severity::Warning)];
        if flip {
            r.reverse();
        }
        conclude(&[1], &RunConfig::default(), CoverageNote::Full, r, 3)
    };
    let ids = |flip: bool| -> Vec<&'static str> { runs(flip).findings.iter().map(|f| f.check_id).collect() };
    assert_eq!(ids(false), ids(true));
    assert_eq!(ids(false), ["a", "b", "c"]);
}

#[test]
fn findings_are_sorted_by_check_then_place() {
    let at = |id: &'static str, location: Location| {
        Finding::new(id, Category::Temporal, Severity::Info, location, "X", "m".to_string())
    };
    let sorted = sort_findings(vec![
        at("b", Location::Dataset),
        at("a", Location::Episode { episode: 10 }),
        at("a", Location::Stream { episode: 0, stream: "s".to_string() }),
        at("a", Location::Episode { episode: 9 }),
        at("a", Location::Dataset),
    ]);
    let order: Vec<(&str, Option<u64>)> = sorted.iter().map(|f| (f.check_id, f.location.episode())).collect();
    assert_eq!(order, [("a", None), ("a", Some(9)), ("a", Some(10)), ("a", Some(0)), ("b", None)]);
}

#[test]
fn a_partial_run_says_so() {
    let engine = default_engine().unwrap();
    let d = dataset(&[0, 1, 2]);
    let note = CoverageNote::Sample { request: "first 1".to_string(), episodes_ingested: 1 };
    assert!(note.is_partial() && note.frames_read());
    let v = engine.run_over(&d, &[1], &RunConfig::default(), note);
    assert!(v.findings.iter().any(|f| f.code == "COVERAGE.SAMPLE" && f.message.contains("first 1")));
    let note = CoverageNote::MetadataOnly { episodes_declared: 4 };
    assert!(note.is_partial() && !note.frames_read());
    let v = engine.run_over(&d, &[1], &RunConfig::default(), note);
    assert!(v.findings.iter().any(|f| f.code == "COVERAGE.METADATA_ONLY"));
    let v = engine.run(&d, &[1], &RunConfig::default());
    assert!(!v.findings.iter().any(|f| f.code.starts_with("COVERAGE.")));
    assert!(!v.scope_narrowed());
    let mut config = RunConfig::default();
    config.tolerances.gap_factor = 9.0f64.to_bits();
    let v = engine.run(&d, &[1], &config);
    assert!(v.scope_narrowed());
    assert!(v.findings.iter().any(|f| f.code == "SCOPE.NARROWED" && f.message.contains("gap_factor = 9 (default 3)")));
}

#[test]
fn a_verdict_carries_the_hash_of_its_result() {
    let engine = default_engine().unwrap();
    let run = |stamps: &[i64], config: &RunConfig| engine.run(&dataset(stamps), &[1], config).result_content_hash;
    let config = RunConfig::default();
    let a = run(&[0, 1, 2], &config);
    assert_eq!(a.len(), 64);
    assert_eq!(run(&[0, 1, 2], &config), a);
    assert_ne!(run(&[0, 2, 1], &config), a);
    let mut other = RunConfig::default();
    other.tolerances.jitter_cv = 0.75f64.to_bits();
    assert_ne!(run(&[0, 1, 2], &other), a);
    // What a partial ingest covered belongs to the result.
    let note = CoverageNote::MetadataOnly { episodes_declared: 4 };
    assert_ne!(engine.run_over(&dataset(&[0, 1, 2]), &[1], &config, note).result_content_hash, a);
}

#[test]
fn the_order_of_registration_does_not_show() {
    let verdict = |flip: bool| {
        let mut checks = standard_checks();
        if flip {
            checks.reverse();
        }
        let mut engine = Engine::<StandardCheck>::builder();
        for c in checks {
            engine = engine.register(c).unwrap();
        }
        engine.build().run(&dataset(&[0, 2, 1]), &[1], &RunConfig::default())
    };
    let (a, b) = (verdict(false), verdict(true));
    assert_eq!(a.result_content_hash, b.result_content_hash);
    let shown = |v: &veridex_core::engine::Verdict| -> Vec<String> { v.findings.iter().map(|f| f.message.clone()).collect() };
    assert_eq!(shown(&a), shown(&b));
    assert!(!a.findings.is_empty());
}

#[test]
fn episodes_and_streams_are_put_in_order() {
    let messy = || {
        let mut d = dataset(&[0, 1, 2]);
        let mut e = dataset(&[0, 1, 2]).episodes.remove(0);
        e.index = 1;
        let mut late = stream(&[0, 1, 2]);
        late.name = "b".to_string();
        let mut early = stream(&[0, 1, 2]);
        early.name = "a".to_string();
        e.streams = vec![late, early];
        d.episodes.insert(0, e);
        d
    };
    let d = messy().canonicalize_order();
    assert_eq!(d.episodes.iter().map(|e| e.index).collect::<Vec<u64>>(), [0, 1]);
    let names: Vec<&str> = d.episodes[1].streams.iter().map(|s| s.name.as_str()).collect();
    assert_eq!(names, ["a", "b"]);
    // The result does not depend on the order of the ingest.
    let check = |d: Dataset| {
        check_ingested(d, &[7; 32], RunConfig::default(), CoverageNote::Full, None).unwrap()
    };
    let a = check(messy());
    let mut turned = messy();
    turned.episodes.reverse();
    let b = check(turned);
    assert_eq!(a.verdict.result_content_hash, b.verdict.result_content_hash);
    assert_eq!(a.dataset.episodes[0].index, 0);
}

#[test]
fn only_a_larger_threshold_is_loosened() {
    let mut t = Tolerances::default();
    assert!(loosened_tolerances(&t).is_empty());
    t.gap_factor = 2.0f64.to_bits();
    t.outlier_z = (f64::from_bits(t.outlier_z) / 2.0).to_bits();
    t.clock_skew_ns -= 1;
    assert!(loosened_tolerances(&t).is_empty());
    t.gap_factor = 4.5f64.to_bits();
    t.saturation_min_samples += 1;
    let listed = loosened_tolerances(&t);
    assert_eq!(listed.len(), 2);
    assert_eq!(listed[0], "gap_factor = 4.5 (default 3)");
    assert!(listed[1].starts_with("saturation_min_samples = "));
}

#[test]
fn a_dataset_is_judged_and_scored() {
    let good = check_ingested(dataset(&[0, 1, 2]), &[7; 32], RunConfig::default(), CoverageNote::Full, None)
        .unwrap();
    assert_eq!(good.verdict.cdm_content_hash, "07".repeat(32));
    assert_eq!(good.verdict.counts.error, 0);
    assert_eq!(good.trust.provenance_pct, 0);
    let bad = check_ingested(dataset(&[0, 2, 1]), &[7; 32], RunConfig::default(), CoverageNote::Full, None)
        .unwrap();
    assert_eq!(bad.verdict.status, Status::Fail);
    assert!(bad.verdict.findings.iter().any(|f| f.code == "TEMPORAL.NON_MONOTONIC"));
    assert!(bad.trust.score < good.trust.score);
    // An attestation raises the coverage, and not the content hash.
    let attested = AppliedAttestation {
        keys: vec!["license".to_string()],
        producer_key: "k".to_string(),
        timestamp: "t".to_string(),
    };
    let raised = check_ingested(
        dataset(&[0, 1, 2]),
        &[7; 32],
        RunConfig::default(),
        CoverageNote::Full,
        Some(&attested),
    )
    .unwrap();
    assert!(raised.trust.provenance_pct > 0);
    assert_eq!(raised.verdict.cdm_content_hash, good.verdict.cdm_content_hash);
    assert_ne!(good.trust.grade, Grade::A);
}

#[test]
fn a_deselected_check_does_not_run() {
    let engine = default_engine().unwrap();
    let mut config = RunConfig::default();
    config.disabled_checks = vec!["temporal.monotonicity".to_string()];
    let v = engine.run(&dataset(&[0, 2, 1]), &[1], &config);
    assert!(!v.executed_checks.iter().any(|c| c.check_id == "temporal.monotonicity"));
    assert!(!v.findings.iter().any(|f| f.check_id == "temporal.monotonicity"));
    assert_eq!(v.executed_checks.len() + 1, engine.check_ids().len());
    assert!(v.scope_narrowed());
}

#[test]
fn a_threshold_that_is_not_finite_is_replaced() {
    let mut t = Tolerances::default();
    t.gap_factor = f64::NAN.to_bits();
    t.jitter_cv = 0.25f64.to_bits();
    let t = t.finite_or_default();
    assert_eq!(t.gap_factor, 3.0f64.to_bits());
    assert_eq!(t.jitter_cv, 0.25f64.to_bits());
    let again = t.clone().finite_or_default();
    assert_eq!(again.gap_factor, t.gap_factor);
}
