use veridex_core::diff::{diff_reports, is_report_shaped, render_diff, render_diff_json};
use veridex_core::json::{same_json, Json, Member};

fn text(s: &str) -> Json {
    Json::Text(s.to_string())
}

fn object(members: Vec<(&str, Json)>) -> Json {
    Json::Object(
        members
            .into_iter()
            .map(|(name, value)| Member { name: name.to_string(), value })
            .collect(),
    )
}

fn covered(kind: &str, score: u64) -> Json {
    object(vec![
        ("schema", text("veridex.report/1")),
        (
            "verdict",
            object(vec![
                ("coverage", object(vec![("kind", text(kind))])),
                ("findings", Json::List(Vec::new())),
            ]),
        ),
        ("trust_score", object(vec![("score", Json::Natural(score))])),
    ])
}

fn report(findings: Vec<Json>, score: u64) -> Json {
    object(vec![
        ("schema", text("veridex.report/1")),
        ("verdict", object(vec![("findings", Json::List(findings))])),
        ("trust_score", object(vec![("score", Json::Natural(score))])),
    ])
}

fn finding(code: &str, severity: &str) -> Json {
    object(vec![
        ("check_id", text("c")),
        ("code", text(code)),
        ("severity", text(severity)),
        ("message", text("m")),
        ("location", object(vec![("kind", text("dataset"))])),
    ])
}

fn alike(a: &[Json], b: &[Json]) -> bool {
    a.len() == b.len() && a.iter().zip(b.iter()).all(|(x, y)| same_json(x, y))
}

fn parsed(s: &str) -> serde_json::Value {
    serde_json::from_str(s).unwrap()
}

#[test]
fn the_json_diff_carries_the_coverage_the_terminal_render_leads_with() {
    let full = covered("full", 90);
    let partial = covered("metadata_only", 99);
    let doc = parsed(&render_diff_json(&full, &partial));
    assert_eq!(doc["coverage"]["old"], "full");
    assert_eq!(doc["coverage"]["new"], "metadata_only");
    assert_eq!(doc["coverage"]["changed"], true);
}

#[test]
fn an_unchanged_coverage_is_reported_as_unchanged() {
    let full = covered("full", 90);
    let doc = parsed(&render_diff_json(&full, &full));
    assert_eq!(doc["coverage"]["changed"], false);
}

#[test]
fn classifies_introduced_resolved_unchanged() {
    let old = report(vec![finding("A", "error"), finding("B", "warning")], 60);
    let new = report(vec![finding("B", "warning"), finding("C", "info")], 75);
    let d = diff_reports(&old, &new);
    assert!(alike(&d.introduced, &[finding("C", "info")]));
    assert!(alike(&d.resolved, &[finding("A", "error")]));
    assert!(alike(&d.unchanged, &[finding("B", "warning")]));
    assert_eq!(d.score_delta(), Some(15));
}

#[test]
fn render_diff_json_carries_the_summary_fields() {
    let old = report(vec![finding("A", "error")], 60);
    let new = report(vec![finding("A", "error"), finding("C", "info")], 55);
    let doc = parsed(&render_diff_json(&old, &new));
    assert_eq!(
        doc["introduced"],
        parsed(
            "[{\"check_id\":\"c\",\"code\":\"C\",\"severity\":\"info\",\"message\":\"m\",\
             \"location\":{\"kind\":\"dataset\"}}]"
        )
    );
    assert_eq!(doc["resolved"], serde_json::Value::Array(Vec::new()));
    assert_eq!(doc["unchanged_count"], 1);
    assert_eq!(doc["score_delta"], -5);
}

#[test]
fn a_changed_severity_shows_as_resolved_plus_introduced() {
    let old = report(vec![finding("A", "warning")], 80);
    let new = report(vec![finding("A", "error")], 65);
    let d = diff_reports(&old, &new);
    assert!(alike(&d.resolved, &[finding("A", "warning")]));
    assert!(alike(&d.introduced, &[finding("A", "error")]));
    assert_eq!(d.score_delta(), Some(-15));
}

#[test]
fn identical_reports_have_no_changes() {
    let r = report(vec![finding("A", "error")], 50);
    let d = diff_reports(&r, &r);
    assert!(d.introduced.is_empty());
    assert!(d.resolved.is_empty());
    assert_eq!(d.unchanged.len(), 1);
    assert_eq!(d.score_delta(), Some(0));
}

#[test]
fn tolerates_bare_verdict_without_envelope() {
    let old = object(vec![("findings", Json::List(vec![finding("A", "error")]))]);
    let new = object(vec![("findings", Json::List(Vec::new()))]);
    let d = diff_reports(&old, &new);
    assert_eq!(d.resolved.len(), 1);
    assert_eq!(d.score_delta(), None);
}

#[test]
fn every_new_finding_is_introduced_or_unchanged() {
    let old = report(vec![finding("A", "error"), finding("A", "error")], 10);
    let new = report(vec![finding("A", "error"), finding("B", "info"), finding("A", "error")], 10);
    let d = diff_reports(&old, &new);
    assert_eq!(d.introduced.len() + d.unchanged.len(), 3);
    assert_eq!(d.introduced.len(), 1);
}

#[test]
fn a_report_needs_a_list_of_findings() {
    assert!(is_report_shaped(&report(Vec::new(), 1)));
    assert!(is_report_shaped(&object(vec![("findings", Json::List(Vec::new()))])));
    assert!(!is_report_shaped(&object(vec![("findings", text("none"))])));
    assert!(!is_report_shaped(&object(Vec::new())));
    assert!(!is_report_shaped(&Json::Null));
}

fn detailed(id: &str, hash: &str, version: &str, codes: &[&str], errored: &[&str]) -> Json {
    object(vec![
        (
            "verdict",
            object(vec![
                ("findings", Json::List(codes.iter().map(|c| finding(c, "info")).collect())),
                ("cdm_content_hash", text(hash)),
                ("veridex_version", text(version)),
                (
                    "errored_checks",
                    Json::List(errored.iter().map(|c| object(vec![("check_id", text(c))])).collect()),
                ),
            ]),
        ),
        ("dataset", object(vec![("id", text(id))])),
    ])
}

#[test]
fn what_invalidates_a_comparison_is_told() {
    let old = detailed("a", "1", "0.1.0", &["REPORT.REDACTED"], &["x"]);
    let new = detailed("b", "1", "0.2.0", &[], &["x", "y"]);
    let d = diff_reports(&old, &new);
    assert!(d.dataset_differs());
    assert!(d.same_content());
    assert!(d.redaction_differs());
    assert!(d.version_differs());
    assert!(!d.coverage_differs());
    assert_eq!(d.newly_errored(), vec!["y".to_string()]);
    let shown = render_diff(&d);
    assert!(shown.starts_with("Veridex diff\n  Dataset: DIFFERENT — `a` vs `b`."));
    assert!(shown.contains("  Redaction: CHANGED"));
    assert!(shown.contains("  Veridex: CHANGED — 0.1.0 -> 0.2.0."));
    assert!(shown.contains("  Findings: 0 introduced · 1 resolved · 0 unchanged\n"));
    assert!(shown.contains("  Checks newly crashed: y — "));
    assert!(shown.ends_with("\nResolved:\n  [info] REPORT.REDACTED  m\n"));
}

#[test]
fn a_moved_score_is_shown_with_its_sign() {
    let up = diff_reports(&report(Vec::new(), 60), &report(vec![finding("A", "error")], 75));
    assert_eq!(
        render_diff(&up),
        "Veridex diff\n  Trust score: 60 -> 75 (+15)\n  Findings: 1 introduced · 0 resolved · 0 unchanged\n\
         \nIntroduced:\n  [error] A  m\n"
    );
    let down = diff_reports(&report(Vec::new(), 75), &report(Vec::new(), 60));
    assert!(render_diff(&down).contains("  Trust score: 75 -> 60 (-15)\n"));
}

#[test]
fn a_bare_verdict_carries_its_version_and_redaction_too() {
    let bare = |version: &str, codes: &[&str]| {
        object(vec![
            ("findings", Json::List(codes.iter().map(|c| finding(c, "info")).collect())),
            ("veridex_version", text(version)),
        ])
    };
    let d = diff_reports(&bare("0.1.0", &["REPORT.REDACTED"]), &bare("0.2.0", &[]));
    assert!(d.version_differs());
    assert_eq!((d.old_version.as_deref(), d.new_version.as_deref()), (Some("0.1.0"), Some("0.2.0")));
    assert!(d.redaction_differs());
    assert!(d.old_redacted && !d.new_redacted);
}

/// A value with the members of each object in the opposite order.
fn reversed(j: &Json) -> Json {
    match j {
        Json::Object(m) => Json::Object(
            m.iter().rev().map(|x| Member { name: x.name.clone(), value: reversed(&x.value) }).collect(),
        ),
        Json::List(v) => Json::List(v.iter().map(reversed).collect()),
        Json::Text(s) => text(s),
        Json::Natural(n) => Json::Natural(*n),
        Json::Negative(n) => Json::Negative(*n),
        Json::Float(b, s) => Json::Float(*b, s.clone()),
        Json::Bool(b) => Json::Bool(*b),
        Json::Null => Json::Null,
    }
}

#[test]
fn the_order_of_members_is_no_change() {
    let bare = |f: Json| object(vec![("findings", Json::List(vec![f]))]);
    let old = bare(object(vec![("code", text("A")), ("message", text("m"))]));
    let new = bare(object(vec![("message", text("m")), ("code", text("A"))]));
    let d = diff_reports(&old, &new);
    assert_eq!((d.introduced.len(), d.resolved.len(), d.unchanged.len()), (0, 0, 1));

    let old = report(vec![finding("A", "error"), finding("B", "info")], 60);
    let new = reversed(&old);
    let d = diff_reports(&old, &new);
    assert_eq!((d.introduced.len(), d.resolved.len(), d.unchanged.len()), (0, 0, 2));
    assert_eq!(d.score_delta(), Some(0));
    let doc = parsed(&render_diff_json(&old, &new));
    assert_eq!(doc["introduced"], serde_json::Value::Array(Vec::new()));
    assert_eq!(doc["unchanged_count"], 2);

    // Against a third report it counts as the same, old or new.
    let third = report(vec![finding("B", "info"), finding("C", "info")], 70);
    for r in [&old, &new] {
        let d = diff_reports(r, &third);
        assert_eq!((d.introduced.len(), d.resolved.len(), d.unchanged.len()), (1, 1, 1));
        let d = diff_reports(&third, r);
        assert_eq!((d.introduced.len(), d.resolved.len(), d.unchanged.len()), (1, 1, 1));
    }
}

#[test]
fn values_are_equal_whatever_the_order_of_members() {
    let a = object(vec![("x", Json::Natural(1)), ("y", Json::List(vec![text("p"), text("q")]))]);
    let b = object(vec![("y", Json::List(vec![text("p"), text("q")])), ("x", Json::Natural(1))]);
    assert!(same_json(&a, &b) && same_json(&b, &a));
    // The order of a list counts.
    let c = object(vec![("y", Json::List(vec![text("q"), text("p")])), ("x", Json::Natural(1))]);
    assert!(!same_json(&a, &c));
    // A member more, another name or another value makes a difference.
    let d = object(vec![("x", Json::Natural(1))]);
    assert!(!same_json(&a, &d) && !same_json(&d, &a));
    assert!(!same_json(&d, &object(vec![("z", Json::Natural(1))])));
    assert!(!same_json(&d, &object(vec![("x", Json::Natural(2))])));
    assert!(!same_json(&Json::Natural(1), &Json::Float(1.0f64.to_bits(), "1".to_string())));
    assert!(same_json(
        &Json::Float(0.0f64.to_bits(), "0".to_string()),
        &Json::Float((-0.0f64).to_bits(), "-0".to_string())
    ));
}
