//! The certificate document: the portable, content-bound statement about a dataset.
//!
//! A certificate is a *nutrition label*, not a seal of approval — it records what was checked, what
//! was found, the trust score, and provenance coverage, and binds to the exact CDM content hash so it
//! cannot be transplanted onto different data. It is signed separately.

use vstd::prelude::*;
use vstd::string::*;

use crate::assoc;
use crate::assoc::Entry;
use crate::certificate::coverage::ProvenanceCoverage;
use crate::certificate::score::{TrustScore, TrustScoreView};
use crate::check;
use crate::check::{Category, FindingView};
use crate::engine;
use crate::engine::{holds_category, EffectiveConfig, ExecutedCheck, SeverityCounts, Status, Verdict};
use crate::order;
use crate::text;

verus! {

broadcast use text::lemma_texts_push;

/// The certificate schema id. Stable and additive within a major version.
pub const CERTIFICATE_SCHEMA_VERSION: &'static str = "veridex.certificate/1";

/// Caller-supplied issuance metadata. Timestamps are caller-supplied so signing stays reproducible
/// and testable — the core never reads a wall clock.
#[derive(Debug)]
pub struct Issuance {
    /// Issuer key identifier (e.g. the public key hex).
    pub key_id: String,
    /// Issuance timestamp, supplied by the caller (e.g. RFC 3339).
    pub timestamp: String,
}

/// Findings rolled up by severity, by category and by code.
#[derive(Debug)]
pub struct FindingsSummary {
    /// Counts by severity.
    pub by_severity: SeverityCounts,
    /// Counts by category (only categories with findings appear).
    pub by_category: Vec<Entry<u64>>,
    /// Counts by finding code (only codes with findings appear).
    pub by_code: Vec<Entry<u64>>,
}

/// A producer attestation that raised a certificate's provenance coverage.
#[derive(Debug)]
pub struct AttestationRecord {
    /// The attested provenance keys.
    pub keys: Vec<String>,
    /// The producer's public key (hex).
    pub producer_key: String,
    /// When the attestation was issued.
    pub timestamp: String,
}

/// One criterion of a readiness profile.
#[derive(Debug)]
pub struct CriterionResult {
    /// The check that decides it.
    pub check_id: String,
    /// The guarantee it attests.
    pub threshold: String,
    /// Whether the check ran.
    pub ran: bool,
    /// Whether the data met it.
    pub passed: bool,
}

/// How a dataset measures up to a readiness profile.
#[derive(Debug)]
pub struct ReadinessReport {
    /// The profile's name.
    pub profile: String,
    /// Whether the profile applies to this dataset.
    pub applicable: bool,
    /// Whether every criterion was met.
    pub ready: bool,
    /// The criteria.
    pub criteria: Vec<CriterionResult>,
}

/// The unsigned certificate content.
#[derive(Debug)]
pub struct Certificate {
    /// Schema id.
    pub schema: String,
    /// Dataset identity.
    pub dataset_id: String,
    /// The CDM content hash this certificate is bound to (hex).
    pub cdm_content_hash: String,
    /// The version that produced the verdict.
    pub veridex_version: String,
    /// Overall verdict status.
    pub status: Status,
    /// Effective configuration used for the run.
    pub effective_config: EffectiveConfig,
    /// Checks executed, with versions.
    pub checks_run: Vec<ExecutedCheck>,
    /// Ids of the checks that failed to run, which measured nothing.
    pub checks_errored: Vec<String>,
    /// Check categories that did not run (so a reader knows the coverage limits).
    pub categories_skipped: Vec<Category>,
    /// Findings rolled up.
    pub findings_summary: FindingsSummary,
    /// Trust score and grade.
    pub trust_score: TrustScore,
    /// Provenance coverage (known/asserted/unknown).
    pub provenance_coverage: ProvenanceCoverage,
    /// The producer attestation that raised provenance coverage, if any.
    pub attestation: Option<AttestationRecord>,
    /// The readiness profile the run was held to, if any.
    pub readiness: Option<ReadinessReport>,
    /// Caller-supplied issuance metadata.
    pub issuance: Issuance,
}

/// All categories, in order.
pub open spec fn all_categories() -> Seq<Category> {
    seq![
        Category::Structure,
        Category::Temporal,
        Category::Statistical,
        Category::Semantic,
        Category::Video,
        Category::Provenance,
        Category::Autonomy,
    ]
}

/// The categories that are not among some.
pub open spec fn missing_from(all: Seq<Category>, ran: Seq<Category>) -> Seq<Category>
    decreases all.len(),
{
    if all.len() == 0 {
        Seq::empty()
    } else if ran.contains(all.last()) {
        missing_from(all.drop_last(), ran)
    } else {
        missing_from(all.drop_last(), ran).push(all.last())
    }
}

/// The tags of the categories of findings.
pub open spec fn category_tags(s: Seq<FindingView>) -> Seq<Seq<char>> {
    s.map_values(|f: FindingView| f.category.spec_tag())
}

/// The codes of findings.
pub open spec fn codes(s: Seq<FindingView>) -> Seq<Seq<char>> {
    s.map_values(|f: FindingView| f.code)
}

/// The ids of checks that failed.
pub open spec fn errored_ids(s: Seq<engine::ErroredCheckView>) -> Seq<Seq<char>> {
    s.map_values(|c: engine::ErroredCheckView| c.check_id)
}

/// Whether a certificate states a verdict, its score and its coverage.
pub open spec fn certifies(
    c: Certificate,
    dataset_id: Seq<char>,
    v: Verdict,
    trust_score: TrustScoreView,
    provenance_coverage: ProvenanceCoverage,
    issuance: Issuance,
) -> bool {
    let f = check::views(v.findings@);
    &&& c.schema@ == CERTIFICATE_SCHEMA_VERSION@
    &&& c.dataset_id@ == dataset_id
    &&& c.cdm_content_hash@ == v.cdm_content_hash@
    &&& c.veridex_version@ == v.veridex_version@
    &&& c.status == v.status
    &&& c.effective_config@ == v.effective_config@
    &&& order::views(c.checks_run@) == order::views(v.executed_checks@)
    &&& text::texts(c.checks_errored@) == errored_ids(order::views(v.errored_checks@))
    &&& c.categories_skipped@ == missing_from(
        all_categories(),
        engine::category_set(
            engine::finished(order::views(v.executed_checks@), order::views(v.errored_checks@)),
        ),
    )
    &&& c.findings_summary.by_severity == v.counts
    &&& assoc::pairs(c.findings_summary.by_category@) == assoc::counted(category_tags(f))
    &&& assoc::pairs(c.findings_summary.by_code@) == assoc::counted(codes(f))
    &&& c.trust_score@ == trust_score
    &&& c.provenance_coverage == provenance_coverage
    &&& c.attestation is None
    &&& c.readiness is None
    &&& c.issuance == issuance
}

/// Counts the findings of a verdict by category and by code.
fn roll_up(v: &Verdict) -> (r: (Vec<Entry<u64>>, Vec<Entry<u64>>))
    ensures
        assoc::pairs(r.0@) == assoc::counted(category_tags(check::views(v.findings@))),
        assoc::pairs(r.1@) == assoc::counted(codes(check::views(v.findings@))),
{
    let ghost f = check::views(v.findings@);
    let ghost t = category_tags(f);
    let ghost k = codes(f);
    let mut by_category: Vec<Entry<u64>> = Vec::new();
    let mut by_code: Vec<Entry<u64>> = Vec::new();
    let mut i: usize = 0;
    assert(assoc::pairs(by_category@) =~= Seq::empty());
    assert(assoc::pairs(by_code@) =~= Seq::empty());
    while i < v.findings.len()
        invariant
            i <= v.findings@.len(),
            f == check::views(v.findings@),
            t == category_tags(f),
            k == codes(f),
            assoc::pairs(by_category@) == assoc::counted(t.take(i as int)),
            assoc::pairs(by_code@) == assoc::counted(k.take(i as int)),
        decreases v.findings@.len() - i,
    {
        proof {
            assert(f[i as int] == v.findings@[i as int]@);
            assert(t.take(i + 1) =~= t.take(i as int).push(t[i as int]));
            assert(k.take(i + 1) =~= k.take(i as int).push(k[i as int]));
        }
        assoc::tally(&mut by_category, v.findings[i].category.tag(), Ghost(t.take(i as int)));
        assoc::tally(&mut by_code, v.findings[i].code.as_str(), Ghost(k.take(i as int)));
        i = i + 1;
    }
    assert(t.take(i as int) =~= t);
    assert(k.take(i as int) =~= k);
    (by_category, by_code)
}

/// The categories that are not among some.
fn skipped(ran: &Vec<Category>) -> (r: Vec<Category>)
    ensures
        r@ == missing_from(all_categories(), ran@),
{
    let all: [Category; 7] = [
        Category::Structure,
        Category::Temporal,
        Category::Statistical,
        Category::Semantic,
        Category::Video,
        Category::Provenance,
        Category::Autonomy,
    ];
    let ghost a = all_categories();
    assert(all@ =~= a);
    let mut out: Vec<Category> = Vec::new();
    let mut i: usize = 0;
    while i < 7
        invariant
            i <= 7,
            all@ == a,
            a == all_categories(),
            out@ == missing_from(a.take(i as int), ran@),
        decreases 7 - i,
    {
        assert(a.take(i + 1).drop_last() =~= a.take(i as int));
        if !holds_category(ran, all[i]) {
            out.push(all[i]);
        }
        i = i + 1;
    }
    assert(a.take(i as int) =~= a);
    out
}

/// A copy of a list of executed checks.
fn copy_executed(list: &Vec<ExecutedCheck>) -> (r: Vec<ExecutedCheck>)
    ensures
        order::views(r@) == order::views(list@),
{
    let ghost v = order::views(list@);
    let mut out: Vec<ExecutedCheck> = Vec::new();
    let mut i: usize = 0;
    assert(order::views(out@) =~= v.take(0));
    while i < list.len()
        invariant
            i <= list@.len(),
            v == order::views(list@),
            order::views(out@) == v.take(i as int),
        decreases list@.len() - i,
    {
        let c: ExecutedCheck = list[i].clone();
        proof {
            assert(v[i as int] == list@[i as int]@);
            order::lemma_views_push(out@, c);
            assert(v.take(i + 1) =~= v.take(i as int).push(v[i as int]));
        }
        out.push(c);
        i = i + 1;
    }
    assert(v.take(i as int) =~= v);
    out
}

/// The ids of the checks that failed.
fn failed_ids(v: &Verdict) -> (r: Vec<String>)
    ensures
        text::texts(r@) == errored_ids(order::views(v.errored_checks@)),
{
    let ghost e = errored_ids(order::views(v.errored_checks@));
    let mut out: Vec<String> = Vec::new();
    let mut i: usize = 0;
    assert(text::texts(out@) =~= e.take(0));
    while i < v.errored_checks.len()
        invariant
            i <= v.errored_checks@.len(),
            e == errored_ids(order::views(v.errored_checks@)),
            text::texts(out@) == e.take(i as int),
        decreases v.errored_checks@.len() - i,
    {
        proof {
            assert(order::views(v.errored_checks@)[i as int] == v.errored_checks@[i as int]@);
            assert(e.take(i + 1) =~= e.take(i as int).push(e[i as int]));
        }
        out.push(String::from_str(v.errored_checks[i].check_id));
        i = i + 1;
    }
    assert(e.take(i as int) =~= e);
    out
}

impl Certificate {
    /// Build a certificate from a verdict, its trust score, provenance coverage, and issuance
    /// metadata. The verdict's `cdm_content_hash` becomes the binding.
    pub fn build(
        dataset_id: &str,
        verdict: &Verdict,
        trust_score: TrustScore,
        provenance_coverage: ProvenanceCoverage,
        issuance: Issuance,
    ) -> (r: Certificate)
        ensures
            certifies(r, dataset_id@, *verdict, trust_score@, provenance_coverage, issuance),
    {
        let (by_category, by_code): (Vec<Entry<u64>>, Vec<Entry<u64>>) = roll_up(verdict);
        let ran: Vec<Category> = verdict.checks_categories();
        Certificate {
            schema: String::from_str(CERTIFICATE_SCHEMA_VERSION),
            dataset_id: String::from_str(dataset_id),
            cdm_content_hash: verdict.cdm_content_hash.clone(),
            veridex_version: verdict.veridex_version.clone(),
            status: verdict.status,
            effective_config: verdict.effective_config.clone(),
            checks_run: copy_executed(&verdict.executed_checks),
            checks_errored: failed_ids(verdict),
            categories_skipped: skipped(&ran),
            findings_summary: FindingsSummary { by_severity: verdict.counts, by_category, by_code },
            trust_score,
            provenance_coverage,
            attestation: None,
            readiness: None,
            issuance,
        }
    }
}

/// A category is listed as skipped exactly where no check of it ran and finished.
pub proof fn law_skipped_categories(all: Seq<Category>, ran: Seq<Category>, c: Category)
    ensures
        missing_from(all, ran).contains(c) <==> all.contains(c) && !ran.contains(c),
    decreases all.len(),
{
    if all.len() > 0 {
        let rest = all.drop_last();
        law_skipped_categories(rest, ran, c);
        assert(all =~= rest.push(all.last()));
        let m = missing_from(rest, ran);
        if rest.contains(c) {
            let i = choose|i: int| 0 <= i < rest.len() && rest[i] == c;
            assert(all[i] == c);
        }
        if all.contains(c) && c != all.last() {
            let i = choose|i: int| 0 <= i < all.len() && all[i] == c;
            assert(rest[i] == c);
        }
        if m.contains(c) {
            let i = choose|i: int| 0 <= i < m.len() && m[i] == c;
            assert(m.push(all.last())[i] == c);
        }
        if c == all.last() {
            assert(all[all.len() - 1] == c);
            assert(m.push(c)[m.len() as int] == c);
        }
    }
}

} // verus!
