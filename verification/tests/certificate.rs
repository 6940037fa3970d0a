use veridex_core::assoc::Entry;
use veridex_core::cdm::{Dataset, Provenance, ProvenanceClass, ProvenanceElement};
use veridex_core::certificate::coverage::{ProvenanceCoverage, EXPECTED_PROVENANCE_KEYS};
use veridex_core::certificate::document::{
    AttestationRecord, Certificate, CriterionResult, Issuance, ReadinessReport, CERTIFICATE_SCHEMA_VERSION,
};
use veridex_core::certificate::label::render_label;
use veridex_core::certificate::render::{
    narrowing_clauses, readiness_verdict, render_readiness, render_verified, status_label, verified_json,
};
use veridex_core::certificate::score::{score, Grade, TrustScore, RUBRIC_VERSION};
use veridex_core::certificate::signing::{
    sign, verify, verify_detached, CertError, SignedCertificate, SigningKeypair, Verified,
};
use veridex_core::check::{Category, CheckInfo, Finding, Location, Scope, Severity};
use veridex_core::digest::{from_hex, is_canonical_hex, to_hex};
use veridex_core::engine::{conclude, CheckRun, CoverageNote, EffectiveConfig, RunConfig, Status, Verdict};

fn element(key: &str, value: Option<&str>, class: ProvenanceClass) -> ProvenanceElement {
    ProvenanceElement {
        key: key.to_string(),
        value: value.map(|v| v.to_string()),
        class,
        placeholder: value == Some("unknown"),
    }
}

fn dataset(elements: Vec<ProvenanceElement>) -> Dataset {
    Dataset {
        id: "d".to_string(),
        calibration: None,
        metadata: Vec::new(),
        provenance: vec![Provenance { elements }],
        episodes: Vec::new(),
    }
}

fn info(id: &'static str, category: Category) -> CheckInfo {
    CheckInfo {
        id,
        title: "t",
        category,
        default_severity: Severity::Error,
        scope: Scope::Dataset,
        version: "1",
        finding_codes: &["X"],
    }
}

fn finding(id: &'static str, severity: Severity, code: &str) -> Finding {
    Finding::new(id, Category::Temporal, severity, Location::Dataset, code, "m".to_string())
}

fn verdict(errors: usize, warnings: usize, failed: usize) -> Verdict {
    let mut found: Vec<Finding> = Vec::new();
    for _ in 0..errors {
        found.push(finding("a", Severity::Error, "A.E"));
    }
    for _ in 0..warnings {
        found.push(finding("a", Severity::Warning, "A.W"));
    }
    let mut runs = vec![CheckRun { info: info("a", Category::Temporal), outcome: Ok(found) }];
    for _ in 0..failed {
        runs.push(CheckRun { info: info("b", Category::Semantic), outcome: Err("boom".to_string()) });
    }
    let n = runs.len();
    conclude(&[0xab; 32], &RunConfig::default(), CoverageNote::Full, runs, n)
}

fn coverage(known: u32, asserted: u32) -> ProvenanceCoverage {
    ProvenanceCoverage { known, asserted, unknown: 6 - known - asserted }
}

fn certificate(v: &Verdict) -> Certificate {
    let c = coverage(3, 1);
    Certificate::build(
        "demo",
        v,
        score(v, &c),
        c,
        Issuance { key_id: "k".to_string(), timestamp: "2026-01-02T03:04:05Z".to_string() },
    )
}

fn keypair() -> SigningKeypair {
    SigningKeypair::from_seed([7; 32])
}

fn signed() -> SignedCertificate {
    sign(certificate(&verdict(0, 1, 0)), &keypair())
}

// ---- coverage and score ----------------------------------------------------------------------

#[test]
fn coverage_counts_the_strongest_class_of_each_key() {
    let d = dataset(vec![
        element(EXPECTED_PROVENANCE_KEYS[0], Some("x"), ProvenanceClass::Asserted),
        element(EXPECTED_PROVENANCE_KEYS[0], Some("x"), ProvenanceClass::Known),
        element(EXPECTED_PROVENANCE_KEYS[1], Some("x"), ProvenanceClass::Asserted),
        element(EXPECTED_PROVENANCE_KEYS[2], Some("unknown"), ProvenanceClass::Known),
        element(EXPECTED_PROVENANCE_KEYS[3], None, ProvenanceClass::Known),
        element("weather", Some("x"), ProvenanceClass::Known),
    ]);
    let c = ProvenanceCoverage::of(&d);
    assert_eq!((c.known, c.asserted, c.unknown), (1, 1, 4));
    assert_eq!(c.total(), 6);
    assert_eq!(c.covered_pct(), 33);
    // An attestation raises what is missing, and never what is known.
    let keys = vec![EXPECTED_PROVENANCE_KEYS[0].to_string(), EXPECTED_PROVENANCE_KEYS[2].to_string()];
    let c = ProvenanceCoverage::of_with_attested(&d, &keys);
    assert_eq!((c.known, c.asserted, c.unknown), (1, 2, 3));
}

#[test]
fn a_score_weighs_data_and_provenance() {
    let s = score(&verdict(0, 0, 0), &coverage(6, 0));
    assert_eq!((s.score, s.data_score, s.provenance_pct), (100, 100, 100));
    assert_eq!(s.grade, Grade::A);
    assert_eq!(s.rubric_version, RUBRIC_VERSION);
    // Seven tenths of 85, rounded down.
    let s = score(&verdict(1, 0, 0), &coverage(0, 0));
    assert_eq!((s.data_score, s.provenance_pct, s.score), (85, 0, 59));
    let s = score(&verdict(0, 1, 1), &coverage(0, 0));
    assert_eq!(s.data_score, 86);
    let s = score(&verdict(100, 0, 0), &coverage(0, 0));
    assert_eq!((s.score, s.grade), (0, Grade::F));
}

#[test]
fn findings_about_provenance_and_hints_cost_nothing() {
    let found = vec![
        Finding::new("a", Category::Provenance, Severity::Error, Location::Dataset, "P", "m".to_string()),
        Finding::new("a", Category::Temporal, Severity::Info, Location::Dataset, "T", "m".to_string()),
    ];
    let runs = vec![CheckRun { info: info("a", Category::Temporal), outcome: Ok(found) }];
    let v = conclude(&[1], &RunConfig::default(), CoverageNote::Full, runs, 1);
    assert_eq!(score(&v, &coverage(6, 0)).score, 100);
    // Without any provenance clean data stops at seventy.
    assert_eq!(score(&v, &coverage(0, 0)).score, 70);
}

#[test]
fn grades_have_fixed_floors() {
    for (n, letter) in [(100u8, 'A'), (90, 'A'), (89, 'B'), (80, 'B'), (79, 'C'), (70, 'C'), (69, 'D'), (60, 'D'), (59, 'F'), (0, 'F')] {
        assert_eq!(Grade::from_score(n).letter(), letter);
    }
}

// ---- the document ----------------------------------------------------------------------------

#[test]
fn a_certificate_sums_up_its_verdict() {
    let v = verdict(2, 1, 1);
    let c = certificate(&v);
    assert_eq!(c.schema, CERTIFICATE_SCHEMA_VERSION);
    assert_eq!(c.dataset_id, "demo");
    assert_eq!(c.cdm_content_hash, "ab".repeat(32));
    assert_eq!(c.status, Status::Fail);
    assert_eq!(c.checks_errored, ["b"]);
    assert_eq!(c.findings_summary.by_severity.error, 2);
    let codes: Vec<(&str, u64)> = c.findings_summary.by_code.iter().map(|e| (e.key.as_str(), e.value)).collect();
    assert_eq!(codes, [("A.E", 2), ("A.W", 1)]);
    let kinds: Vec<(&str, u64)> = c.findings_summary.by_category.iter().map(|e| (e.key.as_str(), e.value)).collect();
    assert_eq!(kinds, [("temporal", 3)]);
    // A category whose every check failed does not count as covered.
    assert!(c.categories_skipped.contains(&Category::Semantic));
    assert!(!c.categories_skipped.contains(&Category::Temporal));
}

// ---- keys and signatures ---------------------------------------------------------------------

#[test]
fn keys_are_read_and_written_in_hex() {
    let k = keypair();
    assert_eq!(k.secret_hex(), "07".repeat(32));
    assert_eq!(k.public_hex().len(), 64);
    let again = SigningKeypair::from_secret_hex(&format!(" {}\n", k.secret_hex())).unwrap();
    assert_eq!(again.public_hex(), k.public_hex());
    assert!(SigningKeypair::from_secret_hex("07").is_none());
    assert!(SigningKeypair::from_secret_hex("zz").is_none());
    let made = SigningKeypair::generate().unwrap();
    let other = SigningKeypair::generate().unwrap();
    assert_ne!(made.secret_hex(), other.secret_hex());
    // The published key of the all-zero seed.
    assert_eq!(
        SigningKeypair::from_seed([0; 32]).public_hex(),
        "3b6a27bcceb6a42d62a3a8d02a6f0d73653215771de243a63ac048a18b59da29"
    );
}

#[test]
fn hex_is_read_as_it_is_written() {
    assert_eq!(to_hex(&[0, 171, 255]), "00abff");
    assert_eq!(from_hex("00aBff"), Some(vec![0, 171, 255]));
    assert_eq!(from_hex("0"), None);
    assert_eq!(from_hex("0g"), None);
    assert!(is_canonical_hex("00abff"));
    assert!(!is_canonical_hex("00ABff"));
}

#[test]
fn what_was_signed_verifies() {
    let s = signed();
    let v = verify(&s, Some(&"ab".repeat(32)), Some(&keypair().public_hex())).unwrap();
    assert_eq!(v.key_id, keypair().public_hex());
    assert_eq!(v.timestamp, "2026-01-02T03:04:05Z");
    assert!(verify(&s, None, Some(&keypair().public_hex().to_uppercase())).is_ok());
    assert!(verify(&s, None, None).is_ok());
}

#[test]
fn each_fault_of_a_certificate_has_its_error() {
    let mut s = signed();
    s.algorithm = "rsa".to_string();
    let e = verify(&s, None, None).unwrap_err();
    assert_eq!(e.message(), "unsupported signature algorithm `rsa` (expected `ed25519`)");
    let mut s = signed();
    s.certificate.schema = "veridex.certificate/9".to_string();
    let e = verify(&s, None, None).unwrap_err();
    assert_eq!(
        e.message(),
        "unsupported certificate schema veridex.certificate/9: this Veridex issues and verifies veridex.certificate/1"
    );
    let mut s = signed();
    s.signature = s.signature.to_uppercase();
    let e = verify(&s, None, None).unwrap_err();
    assert_eq!(e.message(), "malformed signature: expected 64 hex bytes");
    let mut s = signed();
    s.signature = "00".to_string();
    assert!(matches!(verify(&s, None, None), Err(CertError::Malformed { what: "signature", expected: 64 })));
    let mut s = signed();
    s.public_key = "00".to_string();
    assert!(matches!(verify(&s, None, None), Err(CertError::Malformed { what: "public key", expected: 32 })));
    let e = verify(&signed(), None, Some(&"00".repeat(32))).unwrap_err();
    assert!(matches!(&e, CertError::UntrustedIssuer { found } if *found == keypair().public_hex()));
    assert!(e.message().starts_with("untrusted issuer: certificate key "));
    let e = verify(&signed(), None, Some(&keypair().secret_hex())).unwrap_err();
    assert!(matches!(e, CertError::SecretKeyGiven));
    let mut s = signed();
    s.certificate.dataset_id = "other".to_string();
    let e = verify(&s, None, None).unwrap_err();
    assert!(matches!(&e, CertError::SignatureMismatch));
    assert_eq!(e.message(), "signature mismatch: the certificate was altered or signed by a different key");
    let e = verify(&signed(), Some("cd"), None).unwrap_err();
    assert_eq!(
        e.message(),
        format!("content-hash mismatch: certificate is bound to {}, but the dataset hashes to cd", "ab".repeat(32))
    );
    let mut c = certificate(&verdict(0, 1, 0));
    c.veridex_version = "0.0.9".to_string();
    let s = sign(c, &keypair());
    let e = verify(&s, Some("cd"), None).unwrap_err();
    assert!(e.message().contains(" — note this certificate was issued by veridex 0.0.9 and you are verifying with "));
}

/// What a signature covers, written out.
fn framed(json: &str) -> Vec<u8> {
    let mut m = b"veridex.certificate.sig.v1".to_vec();
    m.push(0);
    m.extend_from_slice(json.as_bytes());
    m
}

#[test]
fn a_signature_covers_the_document_field_by_field() {
    let mut c = certificate(&verdict(0, 1, 0));
    c.attestation = Some(AttestationRecord {
        keys: vec!["license".to_string()],
        producer_key: "pk".to_string(),
        timestamp: "t".to_string(),
    });
    let version = c.veridex_version.clone();
    let t = &c.effective_config.tolerances;
    let double = |b: u64| serde_json::to_string(&f64::from_bits(b)).unwrap();
    let tolerances = format!(
        "{{\"clock_skew_ns\":{},\"start_offset_ns\":{},\"end_offset_ns\":{},\"rate_deviation\":{},\"gap_factor\":3.0,\"jitter_cv\":{},\"episode_duration_factor\":{},\
         \"saturation_fraction\":{},\"saturation_min_samples\":{},\"outlier_z\":{},\"sequence_drop_fraction\":{},\
         \"ego_max_speed_mps\":{},\"near_duplicate_fraction\":{},\"sensor_clock_offset_ns\":{}}}",
        t.clock_skew_ns,
        t.start_offset_ns,
        t.end_offset_ns,
        double(t.rate_deviation),
        double(t.jitter_cv),
        double(t.episode_duration_factor),
        double(t.saturation_fraction),
        t.saturation_min_samples,
        double(t.outlier_z),
        double(t.sequence_drop_fraction),
        double(t.ego_max_speed_mps),
        double(t.near_duplicate_fraction),
        t.sensor_clock_offset_ns
    );
    let skipped: Vec<String> = c.categories_skipped.iter().map(|k| format!("\"{}\"", k.tag())).collect();
    let trust = c.trust_score.clone();
    let json = format!(
        "{{\"schema\":\"veridex.certificate/1\",\"dataset_id\":\"demo\",\"cdm_content_hash\":\"{}\",\
         \"veridex_version\":\"{}\",\"status\":\"pass-with-warnings\",\"effective_config\":{{\"categories\":null,\
         \"only_checks\":null,\"disabled_checks\":[],\"severity_overrides\":{{}},\"tolerances\":{}}},\
         \"checks_run\":[{{\"check_id\":\"a\",\"version\":\"1\",\"category\":\"temporal\"}}],\"checks_errored\":[],\
         \"categories_skipped\":[{}],\"findings_summary\":{{\"by_severity\":{{\"error\":0,\"warning\":1,\"info\":0}},\
         \"by_category\":{{\"temporal\":1}},\"by_code\":{{\"A.W\":1}}}},\"trust_score\":{{\"score\":{},\"grade\":\"{}\",\
         \"rubric_version\":\"{}\",\"data_score\":{},\"provenance_pct\":{}}},\
         \"provenance_coverage\":{{\"known\":3,\"asserted\":1,\"unknown\":2}},\
         \"attestation\":{{\"keys\":[\"license\"],\"producer_key\":\"pk\",\"timestamp\":\"t\"}},\"readiness\":null,\
         \"issuance\":{{\"key_id\":\"k\",\"timestamp\":\"2026-01-02T03:04:05Z\"}}}}",
        "ab".repeat(32),
        version,
        tolerances,
        skipped.join(","),
        trust.score,
        trust.grade.letter(),
        trust.rubric_version,
        trust.data_score,
        trust.provenance_pct
    );
    let s = sign(c, &keypair());
    assert!(verify_detached(&framed(&json), &s.public_key, &s.signature).is_ok(), "{json}");
    assert!(verify_detached(json.as_bytes(), &s.public_key, &s.signature).is_err());
}

#[test]
fn any_altered_field_is_tampering_even_where_the_hash_is_presented() {
    let cases: Vec<Box<dyn Fn(&mut Certificate)>> = vec![
        Box::new(|c| c.status = Status::Fail),
        Box::new(|c| c.trust_score.score += 1),
        Box::new(|c| c.provenance_coverage.known = 6),
        Box::new(|c| c.checks_errored = vec!["a".to_string()]),
        Box::new(|c| c.categories_skipped = Vec::new()),
        Box::new(|c| c.findings_summary.by_severity.warning = 0),
        Box::new(|c| c.findings_summary.by_code = Vec::new()),
        Box::new(|c| c.effective_config.tolerances.gap_factor = 9.0f64.to_bits()),
        Box::new(|c| c.issuance.timestamp = "later".to_string()),
        Box::new(|c| c.readiness = Some(readiness(true, true))),
        Box::new(|c| c.cdm_content_hash = "cd".to_string()),
    ];
    for alter in &cases {
        let mut s = signed();
        alter(&mut s.certificate);
        let presented = s.certificate.cdm_content_hash.clone();
        assert!(matches!(verify(&s, Some(&presented), None), Err(CertError::SignatureMismatch)));
        assert!(matches!(verify(&s, None, None), Err(CertError::SignatureMismatch)));
    }
}

#[test]
fn a_detached_signature_belongs_to_its_message() {
    let k = keypair();
    let signature = to_hex(&k.sign_bytes(b"hello"));
    assert!(verify_detached(b"hello", &k.public_hex(), &signature).is_ok());
    assert!(matches!(verify_detached(b"hullo", &k.public_hex(), &signature), Err(CertError::SignatureMismatch)));
    let other = SigningKeypair::from_seed([8; 32]);
    assert!(matches!(verify_detached(b"hello", &other.public_hex(), &signature), Err(CertError::SignatureMismatch)));
}

// ---- reports ---------------------------------------------------------------------------------

fn checked() -> Verified {
    Verified { key_id: keypair().public_hex(), timestamp: "2026-01-02T03:04:05Z".to_string() }
}

#[test]
fn a_verification_says_what_was_not_confirmed() {
    let full = render_verified(&signed(), &checked(), true, true);
    assert!(full.starts_with("✓ certificate verified\n"));
    assert!(full.contains("demo"));
    let bare = render_verified(&signed(), &checked(), false, false);
    assert!(bare.lines().count() > full.lines().count());
    let mut s = signed();
    s.certificate.effective_config.tolerances.gap_factor = 9.0f64.to_bits();
    let loose = render_verified(&s, &checked(), true, true);
    assert!(loose.contains("gap_factor = 9 (default 3)"), "{loose}");
    assert!(!full.contains("gap_factor"));
    let doc: serde_json::Value = serde_json::from_str(&verified_json(&s, &checked(), true, true)).unwrap();
    assert_eq!(doc["narrowed"], true);
}

#[test]
fn the_summary_is_machine_readable() {
    let doc: serde_json::Value =
        serde_json::from_str(&verified_json(&signed(), &checked(), true, false)).unwrap();
    assert_eq!(doc["verified"], true);
    assert_eq!(doc["issuer_verified"], true);
    assert_eq!(doc["dataset_checked"], false);
    assert_eq!(doc["dataset_id"], "demo");
    assert_eq!(doc["cdm_content_hash"], "ab".repeat(32).as_str());
    assert_eq!(doc["status"], "pass-with-warnings");
    assert_eq!(doc["checks_run"], 1);
    assert_eq!(doc["narrowed"], false);
    assert_eq!(doc["findings_by_code"]["A.W"], 1);
    assert_eq!(doc["attestation"], serde_json::Value::Null);
    assert!(doc.get("readiness").is_none());
}

#[test]
fn a_label_carries_the_attestation_and_the_caveat() {
    let mut s = signed();
    s.certificate.attestation = Some(AttestationRecord {
        keys: vec!["license".to_string()],
        producer_key: "f".repeat(64),
        timestamp: "2026-01-01T00:00:00Z".to_string(),
    });
    let trusted = render_label(&s, true);
    let bare = render_label(&s, false);
    assert!(trusted.contains("demo"));
    assert!(trusted.contains("license"));
    assert!(trusted.contains("| Content hash | `abababab…abababab` |"));
    assert!(trusted.contains("by producer key `ffffffff…ffffffff`"));
    assert_ne!(trusted, bare);
    assert!(!trusted.contains("gap_factor"));
    s.certificate.effective_config.tolerances.gap_factor = 9.0f64.to_bits();
    assert!(render_label(&s, true).contains("gap_factor = 9 (default 3)"));
    assert!(trusted.ends_with(
        "*A Veridex certificate records what was checked and what was found. It is a statement of fact about a specific dataset, not an endorsement of it.*\n"
    ));
}

fn readiness(applicable: bool, ready: bool) -> ReadinessReport {
    ReadinessReport {
        profile: "p".to_string(),
        applicable,
        ready,
        criteria: vec![
            CriterionResult {
                check_id: "temporal.gap".to_string(),
                threshold: "no gaps".to_string(),
                ran: true,
                passed: ready,
            },
            CriterionResult {
                check_id: "temporal.jitter".to_string(),
                threshold: "even".to_string(),
                ran: false,
                passed: false,
            },
        ],
    }
}

#[test]
fn readiness_has_three_answers() {
    let answers: Vec<&str> = [readiness(false, false), readiness(true, true), readiness(true, false)]
        .iter()
        .map(readiness_verdict)
        .collect();
    assert_ne!(answers[0], answers[1]);
    assert_ne!(answers[1], answers[2]);
    let text = render_readiness(&readiness(true, false), "  ");
    assert!(text.contains("temporal.gap"));
    assert!(text.lines().all(|l| l.starts_with("  ")));
}

#[test]
fn a_status_has_a_label() {
    assert_eq!(status_label(Status::Pass), "pass");
    assert_eq!(status_label(Status::PassWithWarnings), "pass (warnings)");
    assert_eq!(status_label(Status::Fail), "fail");
}

#[test]
fn every_way_to_narrow_a_run_is_named() {
    let mut c = RunConfig::default();
    assert!(narrowing_clauses(&EffectiveConfig::of(&c)).is_empty());
    c.disabled_checks = vec!["temporal.gap".to_string()];
    c.severity_overrides = vec![Entry { key: "temporal.rate".to_string(), value: Severity::Info }];
    c.categories = Some(vec![Category::Temporal]);
    c.only_checks = Some(vec!["temporal.rate".to_string()]);
    c.tolerances.gap_factor = 9.0f64.to_bits();
    let clauses = narrowing_clauses(&EffectiveConfig::of(&c));
    assert_eq!(clauses.len(), 5);
    assert!(clauses.iter().any(|s| s.contains("temporal.gap")));
}

#[test]
fn a_trust_score_can_be_copied() {
    let s: TrustScore = score(&verdict(0, 0, 0), &coverage(6, 0));
    let t = s.clone();
    assert_eq!((s.score, s.grade), (t.score, t.grade));
}
