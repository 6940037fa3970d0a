//! Rendering a certificate's substance — for the terminal and as JSON.
//!
//! A certificate is only useful offline if a reader can *see* what it attests without parsing the
//! document by hand: what it is bound to, the trust score, and — for a readiness certificate — each
//! criterion's verdict. Everything rendered here comes from the signed document.

use vstd::prelude::*;
use vstd::string::*;

use crate::assoc;
use crate::assoc::Entry;
use crate::cat::{cat2, cat3, cat4, cat5, cat6, cat7, cat8, cat9};
use crate::certificate::document::{AttestationRecord, Certificate, CriterionResult, ReadinessReport};
use crate::certificate::score::{TrustScore, TrustScoreView, RUBRIC_VERSION};
use crate::certificate::signing::{SignedCertificate, Verified};
use crate::check::Category;
use crate::engine;
use crate::engine::{describe_overrides, EffectiveConfig, EffectiveConfigView, Status};
use crate::json;
use crate::json::{member, pretty_text, text_json, texts_json, Json, JsonView, Member};
use crate::lines;
use crate::lines::{extend, find_prefix, write_lines};
use crate::records;
use crate::records::{config_json, counts_json, tag_status};
use crate::text;
use crate::text::{chars_of, dec_u64, dec_usize, join, same, text_of};
use crate::tolerances;
use crate::tolerances::loosened_tolerances;

verus! {

broadcast use text::lemma_texts_push;

// ---- readiness -------------------------------------------------------------------------------

/// The readiness verdict as a short label. A profile that does not apply is never a vacuous pass.
pub open spec fn readiness_label(r: ReadinessReport) -> Seq<char> {
    if !r.applicable {
        "N/A (profile does not apply)"@
    } else if r.ready {
        "READY"@
    } else {
        "NOT READY"@
    }
}

/// The readiness verdict as a short label: `READY`, `NOT READY`, or `N/A` when the profile does not
/// apply to this dataset.
pub fn readiness_verdict(report: &ReadinessReport) -> (r: &'static str)
    ensures
        r@ == readiness_label(*report),
{
    if !report.applicable {
        "N/A (profile does not apply)"
    } else if report.ready {
        "READY"
    } else {
        "NOT READY"
    }
}

/// The line of a criterion. A criterion whose check never ran is neither a pass nor a failure of the
/// data.
pub open spec fn criterion_line(c: CriterionResult, indent: Seq<char>) -> Seq<char> {
    let mark = if !c.ran {
        "?"@
    } else if c.passed {
        "✓"@
    } else {
        "✗"@
    };
    let suffix = if c.ran { ""@ } else { " [check did not run]"@ };
    indent + "  "@ + mark + " "@ + c.check_id@ + " — "@ + c.threshold@ + suffix
}

/// The lines of a readiness report.
pub open spec fn readiness_lines(r: ReadinessReport, indent: Seq<char>) -> Seq<Seq<char>> {
    seq![indent + r.profile@ + " profile: "@ + readiness_label(r)] + r.criteria@.map_values(
        |c: CriterionResult| criterion_line(c, indent),
    )
}

/// The lines of a readiness report.
fn list_readiness(report: &ReadinessReport, indent: &str) -> (r: Vec<String>)
    ensures
        text::texts(r@) == readiness_lines(*report, indent@),
{
    let ghost all = readiness_lines(*report, indent@);
    let mut out: Vec<String> = Vec::new();
    out.push(cat4(indent, report.profile.as_str(), " profile: ", readiness_verdict(report)));
    let mut i: usize = 0;
    assert(text::texts(out@) =~= all.take(1));
    while i < report.criteria.len()
        invariant
            i <= report.criteria@.len(),
            all == readiness_lines(*report, indent@),
            text::texts(out@) == all.take(i + 1),
        decreases report.criteria@.len() - i,
    {
        let c: &CriterionResult = &report.criteria[i];
        let mark: &str = if !c.ran {
            "?"
        } else if c.passed {
            "✓"
        } else {
            "✗"
        };
        let suffix: &str = if c.ran {
            ""
        } else {
            " [check did not run]"
        };
        out.push(cat8(indent, "  ", mark, " ", c.check_id.as_str(), " — ", c.threshold.as_str(), suffix));
        assert(all[i + 1] == criterion_line(*c, indent@));
        assert(all.take(i + 2) =~= all.take(i + 1).push(all[i + 1]));
        i = i + 1;
    }
    assert(all.take(i + 1) =~= all);
    out
}

/// Render a readiness report as an indented terminal block: the profile verdict, then each criterion
/// with the guarantee it attests. `indent` is the leading whitespace for the profile line.
pub fn render_readiness(report: &ReadinessReport, indent: &str) -> (r: String)
    ensures
        r@ == lines::written(readiness_lines(*report, indent@)),
{
    write_lines(&list_readiness(report, indent))
}

/// The certificate's wording for a verdict status.
pub open spec fn status_text(status: Status) -> Seq<char> {
    match status {
        Status::Pass => "pass"@,
        Status::PassWithWarnings => "pass (warnings)"@,
        Status::Fail => "fail"@,
    }
}

/// The certificate's wording for a verdict status, shared so the issuing side, the verifying side,
/// and the terminal all say the same word about the same result.
pub fn status_label(status: Status) -> (r: &'static str)
    ensures
        r@ == status_text(status),
{
    match status {
        Status::Pass => "pass",
        Status::PassWithWarnings => "pass (warnings)",
        Status::Fail => "fail",
    }
}

// ---- narrowing -------------------------------------------------------------------------------

/// The ways a certificate's run departed from the declared catalog, as short human labels. Empty when
/// it ran the whole catalog at declared severities and default thresholds.
pub open spec fn narrowing(cfg: EffectiveConfigView) -> Seq<Seq<char>> {
    (match cfg.only_checks {
        Some(only) => seq![
            if only.len() == 0 {
                "only_checks = none"@
            } else {
                "only_checks = "@ + text::joined(only, ", "@)
            },
        ],
        None => Seq::empty(),
    }) + (match cfg.categories {
        Some(cats) => seq![
            if cats.len() == 0 {
                "categories = none"@
            } else {
                "categories = "@ + text::joined(engine::tags(cats), ", "@)
            },
        ],
        None => Seq::empty(),
    }) + lines::line_if(cfg.disabled_checks.len() > 0, "disabled = "@ + text::joined(cfg.disabled_checks, ", "@))
        + lines::line_if(
        cfg.severity_overrides.len() > 0,
        "severity overridden: "@ + text::joined(engine::override_texts(cfg.severity_overrides), ", "@),
    ) + lines::line_if(
        tolerances::loosened(cfg.tolerances).len() > 0,
        "thresholds loosened: "@ + text::joined(tolerances::loosened(cfg.tolerances), ", "@),
    )
}

/// The tags of categories.
pub fn list_tags(categories: &Vec<Category>) -> (r: Vec<String>)
    ensures
        text::texts(r@) == engine::tags(categories@),
{
    let ghost t = engine::tags(categories@);
    let mut out: Vec<String> = Vec::new();
    let mut i: usize = 0;
    assert(text::texts(out@) =~= t.take(0));
    while i < categories.len()
        invariant
            i <= categories@.len(),
            t == engine::tags(categories@),
            text::texts(out@) == t.take(i as int),
        decreases categories@.len() - i,
    {
        out.push(String::from_str(categories[i].tag()));
        assert(t[i as int] == categories@[i as int].spec_tag());
        assert(t.take(i + 1) =~= t.take(i as int).push(t[i as int]));
        i = i + 1;
    }
    assert(t.take(i as int) =~= t);
    out
}

/// The ways a certificate's run departed from the declared catalog.
pub fn narrowing_clauses(cfg: &EffectiveConfig) -> (r: Vec<String>)
    ensures
        text::texts(r@) == narrowing(cfg@),
{
    let ghost all = narrowing(cfg@);
    let mut out: Vec<String> = Vec::new();
    assert(text::texts(out@) =~= Seq::empty());
    let loosened: Vec<String> = loosened_tolerances(&cfg.tolerances);
    assert(text::texts(loosened@).len() == loosened@.len());
    assert(text::texts(cfg.disabled_checks@).len() == cfg.disabled_checks@.len());
    assert(assoc::pairs(cfg.severity_overrides@).len() == cfg.severity_overrides@.len());
    if let Some(only) = &cfg.only_checks {
        assert(text::texts(only@).len() == only@.len());
        out.push(
            if only.len() == 0 {
                String::from_str("only_checks = none")
            } else {
                cat2("only_checks = ", join(only, ", ").as_str())
            },
        );
    }
    if let Some(cats) = &cfg.categories {
        out.push(
            if cats.len() == 0 {
                String::from_str("categories = none")
            } else {
                cat2("categories = ", join(&list_tags(cats), ", ").as_str())
            },
        );
    }
    if cfg.disabled_checks.len() > 0 {
        out.push(cat2("disabled = ", join(&cfg.disabled_checks, ", ").as_str()));
    }
    if cfg.severity_overrides.len() > 0 {
        out.push(
            cat2("severity overridden: ", join(&describe_overrides(&cfg.severity_overrides), ", ").as_str()),
        );
    }
    if loosened.len() > 0 {
        out.push(cat2("thresholds loosened: ", join(&loosened, ", ").as_str()));
    }
    assert(text::texts(out@) =~= all);
    out
}

// ---- verification ----------------------------------------------------------------------------

/// One line naming who asserted which provenance elements.
pub open spec fn attestation_text(a: AttestationRecord) -> Seq<char> {
    "  attested:   "@ + text::joined(text::texts(a.keys@), ", "@) + " by producer key "@ + a.producer_key@ + " ("@
        + a.timestamp@ + ")"@
}

/// A count as a text.
pub open spec fn count_text(p: (Seq<char>, u64)) -> Seq<char> {
    p.0 + " "@ + text::dec(p.1 as nat)
}

/// Counts as texts.
pub open spec fn count_texts(s: Seq<(Seq<char>, u64)>) -> Seq<Seq<char>> {
    s.map_values(|p: (Seq<char>, u64)| count_text(p))
}

/// Counts as texts.
pub fn list_counts(list: &Vec<Entry<u64>>) -> (r: Vec<String>)
    ensures
        text::texts(r@) == count_texts(assoc::pairs(list@)),
{
    let ghost c = count_texts(assoc::pairs(list@));
    let mut out: Vec<String> = Vec::new();
    let mut i: usize = 0;
    assert(text::texts(out@) =~= c.take(0));
    while i < list.len()
        invariant
            i <= list@.len(),
            c == count_texts(assoc::pairs(list@)),
            text::texts(out@) == c.take(i as int),
        decreases list@.len() - i,
    {
        out.push(cat3(list[i].key.as_str(), " ", dec_u64(list[i].value).as_str()));
        proof {
            assert(assoc::pairs(list@)[i as int] == (list@[i as int].key@, list@[i as int].value));
            assert(c.take(i + 1) =~= c.take(i as int).push(c[i as int]));
        }
        i = i + 1;
    }
    assert(c.take(i as int) =~= c);
    out
}

/// The beginning of a text that takes a number of bytes, or the text where none does.
pub open spec fn beginning(s: Seq<char>, bytes: nat) -> Seq<char> {
    match lines::prefix_of(s, bytes, 0) {
        Some(n) => s.take(n),
        None => s,
    }
}

/// The beginning of a text that takes a number of bytes, or the text where none does.
fn take_bytes(s: &str, bytes: u128) -> (r: String)
    ensures
        r@ == beginning(s@, bytes as nat),
{
    let chars: Vec<char> = chars_of(s);
    match find_prefix(&chars, bytes) {
        Some(n) => {
            let out: String = text_of(&chars, 0, n);
            assert(out@ =~= s@.take(n as int));
            out
        },
        None => String::from_str(s),
    }
}

/// What qualifies a certificate, line by line.
pub open spec fn warning_lines(
    c: Certificate,
    issuer_verified: bool,
    dataset_checked: bool,
) -> Seq<Seq<char>> {
    let narrowed = narrowing(c.effective_config@);
    lines::line_if(
        !issuer_verified,
        "⚠ issuer NOT verified: this certificate is internally consistent, but anyone could have issued it — re-run with --key <trusted-public-key> to check who did"@,
    ) + lines::line_if(
        !dataset_checked,
        "⚠ dataset NOT checked: no dataset was given, so nothing confirms this certificate describes the data you hold — pass the dataset path to compare its content hash"@,
    ) + lines::line_if(
        narrowed.len() > 0,
        "⚠ narrowed run: "@ + text::dec(c.checks_run@.len()) + " check(s) ran ("@ + text::joined(narrowed, "; "@)
            + ") — this score was earned within that selection, not over the full catalog"@,
    ) + lines::line_if(
        c.checks_errored@.len() > 0,
        "⚠ "@ + text::dec(c.checks_errored@.len()) + " check(s) errored and measured nothing: "@ + text::joined(
            text::texts(c.checks_errored@),
            ", "@,
        ) + " — their silence is not evidence about the data"@,
    ) + lines::line_if(
        c.categories_skipped@.len() > 0,
        "⚠ "@ + text::dec(c.categories_skipped@.len()) + " categor"@ + (if c.categories_skipped@.len() == 1 {
            "y"@
        } else {
            "ies"@
        }) + " ran no checks: "@ + text::joined(engine::tags(c.categories_skipped@), ", "@),
    )
}

/// What a certificate states, line by line.
pub open spec fn substance_lines(c: Certificate, v: Verified) -> Seq<Seq<char>> {
    let t = c.trust_score;
    seq![
        "  issuer key: "@ + v.key_id@,
        "  issued at:  "@ + v.timestamp@,
        "  dataset:    "@ + c.dataset_id@,
        "  bound to:   "@ + beginning(c.cdm_content_hash@, 16) + "…"@,
        "  status:     "@ + status_text(c.status),
        "  trust:      "@ + seq![t.grade.spec_letter()] + " ("@ + text::dec(t.score as nat) + ")  [data "@ + text::dec(
            t.data_score as nat,
        ) + " · provenance "@ + text::dec(t.provenance_pct as nat) + "%]"@,
    ] + (match c.attestation {
        Some(a) => seq![attestation_text(a)],
        None => Seq::empty(),
    }) + lines::line_if(
        t.rubric_version@ != RUBRIC_VERSION@,
        "⚠ scored under rubric "@ + t.rubric_version@ + " (this build uses "@ + RUBRIC_VERSION@
            + ") — the number above is not comparable to scores from this version"@,
    ) + seq!["  issued by:  veridex "@ + c.veridex_version@] + lines::line_if(
        c.findings_summary.by_code@.len() > 0,
        "  findings:   "@ + text::joined(count_texts(assoc::pairs(c.findings_summary.by_code@)), ", "@),
    ) + (match c.readiness {
        Some(r) => readiness_lines(r, "  "@),
        None => Seq::empty(),
    })
}

/// A successful verification, line by line.
pub open spec fn verified_lines(
    c: Certificate,
    v: Verified,
    issuer_verified: bool,
    dataset_checked: bool,
) -> Seq<Seq<char>> {
    seq!["✓ certificate verified"@] + warning_lines(c, issuer_verified, dataset_checked) + substance_lines(c, v)
}

/// What qualifies a certificate, line by line.
fn list_warnings(c: &Certificate, issuer_verified: bool, dataset_checked: bool) -> (r: Vec<
    String,
>)
    ensures
        text::texts(r@) == warning_lines(*c, issuer_verified, dataset_checked),
{
    let ghost all = warning_lines(*c, issuer_verified, dataset_checked);
    let mut out: Vec<String> = Vec::new();
    assert(text::texts(out@) =~= Seq::empty());
    if !issuer_verified {
        out.push(
            String::from_str(
                "⚠ issuer NOT verified: this certificate is internally consistent, but anyone could have issued it — re-run with --key <trusted-public-key> to check who did",
            ),
        );
    }
    if !dataset_checked {
        out.push(
            String::from_str(
                "⚠ dataset NOT checked: no dataset was given, so nothing confirms this certificate describes the data you hold — pass the dataset path to compare its content hash",
            ),
        );
    }
    let narrowed: Vec<String> = narrowing_clauses(&c.effective_config);
    assert(text::texts(narrowed@).len() == narrowed@.len());
    if narrowed.len() > 0 {
        out.push(
            cat5(
                "⚠ narrowed run: ",
                dec_usize(c.checks_run.len()).as_str(),
                " check(s) ran (",
                join(&narrowed, "; ").as_str(),
                ") — this score was earned within that selection, not over the full catalog",
            ),
        );
    }
    if c.checks_errored.len() > 0 {
        out.push(
            cat5(
                "⚠ ",
                dec_usize(c.checks_errored.len()).as_str(),
                " check(s) errored and measured nothing: ",
                join(&c.checks_errored, ", ").as_str(),
                " — their silence is not evidence about the data",
            ),
        );
    }
    if c.categories_skipped.len() > 0 {
        out.push(
            cat6(
                "⚠ ",
                dec_usize(c.categories_skipped.len()).as_str(),
                " categor",
                if c.categories_skipped.len() == 1 {
                    "y"
                } else {
                    "ies"
                },
                " ran no checks: ",
                join(&list_tags(&c.categories_skipped), ", ").as_str(),
            ),
        );
    }
    assert(text::texts(out@) =~= all);
    out
}

/// A character as a text.
pub fn char_text(c: char) -> (r: String)
    ensures
        r@ == seq![c],
{
    let mut out: String = String::new();
    out.push(c);
    assert(out@ =~= seq![c]);
    out
}

/// What a certificate states, line by line.
fn list_substance(c: &Certificate, v: &Verified) -> (r: Vec<String>)
    ensures
        text::texts(r@) == substance_lines(*c, *v),
{
    let ghost all = substance_lines(*c, *v);
    let mut out: Vec<String> = Vec::new();
    assert(text::texts(out@) =~= Seq::empty());
    out.push(cat2("  issuer key: ", v.key_id.as_str()));
    out.push(cat2("  issued at:  ", v.timestamp.as_str()));
    out.push(cat2("  dataset:    ", c.dataset_id.as_str()));
    out.push(cat3("  bound to:   ", take_bytes(c.cdm_content_hash.as_str(), 16).as_str(), "…"));
    out.push(cat2("  status:     ", status_label(c.status)));
    out.push(
        cat9(
            "  trust:      ",
            char_text(c.trust_score.grade.letter()).as_str(),
            " (",
            dec_u64(c.trust_score.score as u64).as_str(),
            ")  [data ",
            dec_u64(c.trust_score.data_score as u64).as_str(),
            " · provenance ",
            dec_u64(c.trust_score.provenance_pct as u64).as_str(),
            "%]",
        ),
    );
    if let Some(a) = &c.attestation {
        out.push(
            cat7(
                "  attested:   ",
                join(&a.keys, ", ").as_str(),
                " by producer key ",
                a.producer_key.as_str(),
                " (",
                a.timestamp.as_str(),
                ")",
            ),
        );
    }
    if !same(c.trust_score.rubric_version.as_str(), RUBRIC_VERSION) {
        out.push(
            cat5(
                "⚠ scored under rubric ",
                c.trust_score.rubric_version.as_str(),
                " (this build uses ",
                RUBRIC_VERSION,
                ") — the number above is not comparable to scores from this version",
            ),
        );
    }
    out.push(cat2("  issued by:  veridex ", c.veridex_version.as_str()));
    if c.findings_summary.by_code.len() > 0 {
        out.push(cat2("  findings:   ", join(&list_counts(&c.findings_summary.by_code), ", ").as_str()));
    }
    if let Some(r) = &c.readiness {
        extend(&mut out, list_readiness(r, "  "));
    }
    assert(text::texts(out@) =~= all);
    out
}

/// Render a successful verification for the terminal: who signed it, when, what data it is bound to,
/// what it scored, and — when present — the per-criterion readiness verdict.
///
/// `issuer_verified` says whether the signature was checked against a **trusted** issuer key, and
/// `dataset_checked` whether the certificate's bound content hash was compared against an actual
/// dataset: what was not confirmed is called out, not implied.
pub fn render_verified(
    signed: &SignedCertificate,
    verified: &Verified,
    issuer_verified: bool,
    dataset_checked: bool,
) -> (r: String)
    ensures
        r@ == lines::written(
            verified_lines(signed.certificate, *verified, issuer_verified, dataset_checked),
        ),
{
    let mut out: Vec<String> = Vec::new();
    out.push(String::from_str("✓ certificate verified"));
    extend(&mut out, list_warnings(&signed.certificate, issuer_verified, dataset_checked));
    extend(&mut out, list_substance(&signed.certificate, verified));
    assert(text::texts(out@) =~= verified_lines(
        signed.certificate,
        *verified,
        issuer_verified,
        dataset_checked,
    ));
    write_lines(&out)
}

// ---- the machine-readable summary ------------------------------------------------------------

/// A trust score as a document.
pub open spec fn score_doc(t: TrustScoreView) -> JsonView {
    JsonView::Object(
        seq![
            ("score"@, JsonView::Natural(t.score as u64)),
            ("grade"@, JsonView::Text(seq![t.grade.spec_letter()])),
            ("rubric_version"@, JsonView::Text(t.rubric_version)),
            ("data_score"@, JsonView::Natural(t.data_score as u64)),
            ("provenance_pct"@, JsonView::Natural(t.provenance_pct as u64)),
        ],
    )
}

/// A trust score as a document.
pub fn score_json(t: &TrustScore) -> (r: Json)
    ensures
        r.doc() == score_doc(t@),
{
    broadcast use json::group_json;

    let mut m: Vec<Member> = Vec::new();
    m.push(member("score", Json::Natural(t.score as u64)));
    m.push(member("grade", Json::Text(char_text(t.grade.letter()))));
    m.push(member("rubric_version", text_json(t.rubric_version.as_str())));
    m.push(member("data_score", Json::Natural(t.data_score as u64)));
    m.push(member("provenance_pct", Json::Natural(t.provenance_pct as u64)));
    assert(json::members(m@) =~= score_doc(t@)->Object_0);
    Json::Object(m)
}

/// An attestation record as a document.
pub open spec fn attestation_doc(a: Option<AttestationRecord>) -> JsonView {
    match a {
        Some(a) => JsonView::Object(
            seq![
                ("keys"@, JsonView::List(json::text_views(text::texts(a.keys@)))),
                ("producer_key"@, JsonView::Text(a.producer_key@)),
                ("timestamp"@, JsonView::Text(a.timestamp@)),
            ],
        ),
        None => JsonView::Null,
    }
}

/// An attestation record as a document.
pub fn attestation_json(a: &Option<AttestationRecord>) -> (r: Json)
    ensures
        r.doc() == attestation_doc(*a),
{
    broadcast use json::group_json;

    match a {
        Some(x) => {
            let mut m: Vec<Member> = Vec::new();
            m.push(member("keys", texts_json(&x.keys)));
            m.push(member("producer_key", text_json(x.producer_key.as_str())));
            m.push(member("timestamp", text_json(x.timestamp.as_str())));
            assert(json::members(m@) =~= attestation_doc(*a)->Object_0);
            Json::Object(m)
        },
        None => Json::Null,
    }
}

/// A criterion as a document.
pub open spec fn criterion_doc(c: CriterionResult) -> JsonView {
    JsonView::Object(
        seq![
            ("check_id"@, JsonView::Text(c.check_id@)),
            ("threshold"@, JsonView::Text(c.threshold@)),
            ("ran"@, JsonView::Bool(c.ran)),
            ("passed"@, JsonView::Bool(c.passed)),
        ],
    )
}

/// Criteria as documents.
pub open spec fn criterion_docs(s: Seq<CriterionResult>) -> Seq<JsonView> {
    s.map_values(|c: CriterionResult| criterion_doc(c))
}

/// A readiness report as a document.
pub open spec fn readiness_doc(r: ReadinessReport) -> JsonView {
    JsonView::Object(
        seq![
            ("profile"@, JsonView::Text(r.profile@)),
            ("applicable"@, JsonView::Bool(r.applicable)),
            ("ready"@, JsonView::Bool(r.ready)),
            ("criteria"@, JsonView::List(criterion_docs(r.criteria@))),
        ],
    )
}

/// A criterion as a document.
fn criterion_json(c: &CriterionResult) -> (r: Json)
    ensures
        r.doc() == criterion_doc(*c),
{
    broadcast use json::group_json;

    let mut m: Vec<Member> = Vec::new();
    m.push(member("check_id", text_json(c.check_id.as_str())));
    m.push(member("threshold", text_json(c.threshold.as_str())));
    m.push(member("ran", Json::Bool(c.ran)));
    m.push(member("passed", Json::Bool(c.passed)));
    assert(json::members(m@) =~= criterion_doc(*c)->Object_0);
    Json::Object(m)
}

/// A readiness report as a document.
pub fn readiness_json(report: &ReadinessReport) -> (r: Json)
    ensures
        r.doc() == readiness_doc(*report),
{
    broadcast use json::group_json;

    let ghost all = criterion_docs(report.criteria@);
    let mut list: Vec<Json> = Vec::new();
    let mut i: usize = 0;
    assert(json::docs(list@) =~= all.take(0));
    while i < report.criteria.len()
        invariant
            i <= report.criteria@.len(),
            all == criterion_docs(report.criteria@),
            json::docs(list@) == all.take(i as int),
        decreases report.criteria@.len() - i,
    {
        let c: &CriterionResult = &report.criteria[i];
        assert(all[i as int] == criterion_doc(*c));
        list.push(criterion_json(c));
        assert(all.take(i + 1) =~= all.take(i as int).push(all[i as int]));
        i = i + 1;
    }
    assert(all.take(i as int) =~= all);
    let mut m: Vec<Member> = Vec::new();
    m.push(member("profile", text_json(report.profile.as_str())));
    m.push(member("applicable", Json::Bool(report.applicable)));
    m.push(member("ready", Json::Bool(report.ready)));
    m.push(member("criteria", Json::List(list)));
    assert(json::members(m@) =~= readiness_doc(*report)->Object_0);
    Json::Object(m)
}

/// The machine-readable summary of a successful verification: the same facts as the terminal's, with
/// the scope that the score was earned within, so a gate can tell a full run from a narrowed one.
pub open spec fn verified_doc(
    c: Certificate,
    v: Verified,
    issuer_verified: bool,
    dataset_checked: bool,
) -> JsonView {
    let narrowed = narrowing(c.effective_config@);
    JsonView::Object(
        seq![
            ("verified"@, JsonView::Bool(true)),
            ("issuer_verified"@, JsonView::Bool(issuer_verified)),
            ("dataset_checked"@, JsonView::Bool(dataset_checked)),
            ("key_id"@, JsonView::Text(v.key_id@)),
            ("timestamp"@, JsonView::Text(v.timestamp@)),
            ("dataset_id"@, JsonView::Text(c.dataset_id@)),
            ("cdm_content_hash"@, JsonView::Text(c.cdm_content_hash@)),
            ("status"@, JsonView::Text(records::status_tag(c.status))),
            ("trust_score"@, score_doc(c.trust_score@)),
            ("checks_run"@, JsonView::Natural(c.checks_run@.len() as u64)),
            ("checks_errored"@, JsonView::List(json::text_views(text::texts(c.checks_errored@)))),
            ("categories_skipped"@, JsonView::List(json::text_views(engine::tags(c.categories_skipped@)))),
            ("effective_config"@, records::config_doc(c.effective_config@)),
            ("narrowed"@, JsonView::Bool(narrowed.len() > 0)),
            ("narrowing"@, JsonView::List(json::text_views(narrowed))),
            ("veridex_version"@, JsonView::Text(c.veridex_version@)),
            ("attestation"@, attestation_doc(c.attestation)),
            ("findings_by_code"@, JsonView::Object(records::count_members(assoc::pairs(c.findings_summary.by_code@)))),
        ] + (match c.readiness {
            Some(r) => seq![("readiness"@, readiness_doc(r))],
            None => Seq::empty(),
        }),
    )
}

/// The machine-readable summary of a successful verification, as a document.
pub fn verified_document(
    signed: &SignedCertificate,
    verified: &Verified,
    issuer_verified: bool,
    dataset_checked: bool,
) -> (r: Json)
    ensures
        r.doc() == verified_doc(
            signed.certificate,
            *verified,
            issuer_verified,
            dataset_checked,
            ),
{
    broadcast use json::group_json;

    let c: &Certificate = &signed.certificate;
    let narrowed: Vec<String> = narrowing_clauses(&c.effective_config);
    assert(text::texts(narrowed@).len() == narrowed@.len());
    let mut m: Vec<Member> = Vec::new();
    m.push(member("verified", Json::Bool(true)));
    m.push(member("issuer_verified", Json::Bool(issuer_verified)));
    m.push(member("dataset_checked", Json::Bool(dataset_checked)));
    m.push(member("key_id", text_json(verified.key_id.as_str())));
    m.push(member("timestamp", text_json(verified.timestamp.as_str())));
    m.push(member("dataset_id", text_json(c.dataset_id.as_str())));
    m.push(member("cdm_content_hash", text_json(c.cdm_content_hash.as_str())));
    m.push(member("status", text_json(tag_status(c.status))));
    m.push(member("trust_score", score_json(&c.trust_score)));
    m.push(member("checks_run", Json::Natural(c.checks_run.len() as u64)));
    m.push(member("checks_errored", texts_json(&c.checks_errored)));
    m.push(member("categories_skipped", texts_json(&list_tags(&c.categories_skipped))));
    m.push(member("effective_config", config_json(&c.effective_config)));
    m.push(member("narrowed", Json::Bool(narrowed.len() > 0)));
    m.push(member("narrowing", texts_json(&narrowed)));
    m.push(member("veridex_version", text_json(c.veridex_version.as_str())));
    m.push(member("attestation", attestation_json(&c.attestation)));
    m.push(member("findings_by_code", counts_json(&c.findings_summary.by_code)));
    if let Some(r) = &c.readiness {
        m.push(member("readiness", readiness_json(r)));
    }
    assert(json::members(m@) =~= verified_doc(
        signed.certificate,
        *verified,
        issuer_verified,
        dataset_checked,
    )->Object_0);
    Json::Object(m)
}

/// The machine-readable summary of a successful verification, as pretty JSON.
pub fn verified_json(
    signed: &SignedCertificate,
    verified: &Verified,
    issuer_verified: bool,
    dataset_checked: bool,
) -> (r: String)
    ensures
        r@ == json::pretty(
            verified_doc(signed.certificate, *verified, issuer_verified, dataset_checked),
        ),
{
    pretty_text(&verified_document(signed, verified, issuer_verified, dataset_checked))
}

} // verus!
