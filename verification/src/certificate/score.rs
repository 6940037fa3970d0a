//! The trust-scoring rubric: a documented, versioned, deterministic function from a [`Verdict`] and
//! [`ProvenanceCoverage`] to a 0–100 score and an A–F grade.
//!
//! Deliberately boring and integer-only so it is exactly reproducible. Scores are only comparable
//! within the same rubric version.

use vstd::prelude::*;
use vstd::string::*;

use crate::certificate::coverage;
use crate::certificate::coverage::ProvenanceCoverage;
use crate::check;
use crate::check::{Category, FindingView, Severity};
use crate::engine::Verdict;
use crate::seqs;

verus! {

/// The rubric version. Bump on any scoring change; scores across versions are not comparable.
pub const RUBRIC_VERSION: &'static str = "v1";

/// What an `error` finding takes from the data-quality sub-score.
pub const ERROR_PENALTY: u128 = 15;

/// What a `warning` finding takes from the data-quality sub-score.
pub const WARNING_PENALTY: u128 = 4;

/// What a check that failed to run takes: it is a coverage gap, not a clean result.
pub const ERRORED_CHECK_PENALTY: u128 = 10;

/// The weight of data quality, out of ten.
pub const DATA_WEIGHT: u32 = 7;

/// The weight of provenance coverage, out of ten. It caps a dataset with no provenance at 70 no
/// matter how clean its data.
pub const PROVENANCE_WEIGHT: u32 = 3;

/// A letter grade.
#[derive(Debug, Clone, Copy, PartialEq, Eq, Structural)]
pub enum Grade {
    /// 90–100.
    A,
    /// 80–89.
    B,
    /// 70–79.
    C,
    /// 60–69.
    D,
    /// below 60.
    F,
}

impl Grade {
    /// The band for an overall score.
    pub open spec fn of(score: u8) -> Grade {
        if 90 <= score <= 100 {
            Grade::A
        } else if 80 <= score <= 89 {
            Grade::B
        } else if 70 <= score <= 79 {
            Grade::C
        } else if 60 <= score <= 69 {
            Grade::D
        } else {
            Grade::F
        }
    }

    /// The band for an overall score.
    pub fn from_score(score: u8) -> (r: Grade)
        ensures
            r == Grade::of(score),
    {
        if 90 <= score && score <= 100 {
            Grade::A
        } else if 80 <= score && score <= 89 {
            Grade::B
        } else if 70 <= score && score <= 79 {
            Grade::C
        } else if 60 <= score && score <= 69 {
            Grade::D
        } else {
            Grade::F
        }
    }

    /// The single-letter label.
    pub open spec fn spec_letter(self) -> char {
        match self {
            Grade::A => 'A',
            Grade::B => 'B',
            Grade::C => 'C',
            Grade::D => 'D',
            Grade::F => 'F',
        }
    }

    /// The single-letter label.
    pub fn letter(self) -> (r: char)
        ensures
            r == self.spec_letter(),
    {
        match self {
            Grade::A => 'A',
            Grade::B => 'B',
            Grade::C => 'C',
            Grade::D => 'D',
            Grade::F => 'F',
        }
    }
}

/// The computed trust score, with both sub-scores exposed so the certificate can show its work.
#[derive(Debug)]
pub struct TrustScore {
    /// Overall 0–100 score.
    pub score: u8,
    /// Letter grade for `score`.
    pub grade: Grade,
    /// The rubric version used.
    pub rubric_version: String,
    /// Data-quality sub-score (0–100), before provenance weighting.
    pub data_score: u8,
    /// Provenance coverage percentage (0–100).
    pub provenance_pct: u8,
}

/// What a trust score is.
pub struct TrustScoreView {
    /// Overall 0–100 score.
    pub score: u8,
    /// Letter grade for `score`.
    pub grade: Grade,
    /// The rubric version used.
    pub rubric_version: Seq<char>,
    /// Data-quality sub-score.
    pub data_score: u8,
    /// Provenance coverage percentage.
    pub provenance_pct: u8,
}

impl View for TrustScore {
    type V = TrustScoreView;

    open spec fn view(&self) -> TrustScoreView {
        TrustScoreView {
            score: self.score,
            grade: self.grade,
            rubric_version: self.rubric_version@,
            data_score: self.data_score,
            provenance_pct: self.provenance_pct,
        }
    }
}

impl Clone for TrustScore {
    fn clone(&self) -> (r: Self)
        ensures
            r@ == self@,
    {
        TrustScore {
            score: self.score,
            grade: self.grade,
            rubric_version: self.rubric_version.clone(),
            data_score: self.data_score,
            provenance_pct: self.provenance_pct,
        }
    }
}

/// How many findings of a severity count against the data. Provenance is scored on its own axis.
pub open spec fn data_findings(s: Seq<FindingView>, severity: Severity) -> nat
    decreases s.len(),
{
    if s.len() == 0 {
        0
    } else {
        data_findings(s.drop_last(), severity) + (if s.last().severity == severity && !(s.last().category is Provenance) {
            1nat
        } else {
            0
        })
    }
}

/// The data-quality sub-score: 100, less what each finding and each failed check takes, and no less
/// than 0.
pub open spec fn data_score(errors: nat, warnings: nat, failed: nat) -> int {
    let left = 100 - 15 * errors - 4 * warnings - 10 * failed;
    if left < 0 { 0 } else { left }
}

/// The overall score: seven parts data quality to three parts provenance, rounded down.
pub open spec fn overall(data: int, provenance: int) -> int {
    (7 * data + 3 * provenance) / 10
}

/// The trust score of findings.
pub open spec fn rubric(s: Seq<FindingView>, failed: nat, c: ProvenanceCoverage) -> TrustScoreView {
    let data = data_score(data_findings(s, Severity::Error), data_findings(s, Severity::Warning), failed);
    let pct = c.spec_covered_pct();
    TrustScoreView {
        score: overall(data, pct) as u8,
        grade: Grade::of(overall(data, pct) as u8),
        rubric_version: RUBRIC_VERSION@,
        data_score: data as u8,
        provenance_pct: pct as u8,
    }
}

/// Compute the trust score from a verdict and provenance coverage.
///
/// Data quality: start at 100, deduct per non-provenance finding by severity and per errored check,
/// floor at 0. Provenance: the percentage of expected elements that are known or asserted. Overall: a
/// 70/30 weighting of the two, rounded down.
pub fn score(verdict: &Verdict, coverage: &ProvenanceCoverage) -> (r: TrustScore)
    requires
        coverage.fits(),
    ensures
        r@ == rubric(check::views(verdict.findings@), verdict.errored_checks@.len(), *coverage),
        r.score <= 100,
        r.data_score <= 100,
        r.provenance_pct <= 100,
{
    let ghost v = check::views(verdict.findings@);
    let mut errors: u128 = 0;
    let mut warnings: u128 = 0;
    let mut i: usize = 0;
    while i < verdict.findings.len()
        invariant
            i <= verdict.findings@.len(),
            v == check::views(verdict.findings@),
            errors <= i,
            warnings <= i,
            errors as nat == data_findings(v.take(i as int), Severity::Error),
            warnings as nat == data_findings(v.take(i as int), Severity::Warning),
        decreases verdict.findings@.len() - i,
    {
        assert(v[i as int] == verdict.findings@[i as int]@);
        assert(v.take(i + 1).drop_last() =~= v.take(i as int));
        let counts: bool = match verdict.findings[i].category {
            Category::Provenance => false,
            _ => true,
        };
        if counts {
            match verdict.findings[i].severity {
                Severity::Error => {
                    errors = errors + 1;
                },
                Severity::Warning => {
                    warnings = warnings + 1;
                },
                Severity::Info => {},
            }
        }
        i = i + 1;
    }
    assert(v.take(i as int) =~= v);
    let failed: u128 = verdict.errored_checks.len() as u128;
    let taken: u128 = errors * ERROR_PENALTY + warnings * WARNING_PENALTY + failed * ERRORED_CHECK_PENALTY;
    let data: u32 = if taken >= 100 { 0 } else { (100 - taken) as u32 };
    let pct: u32 = coverage.covered_pct();
    let score: u8 = ((data * DATA_WEIGHT + pct * PROVENANCE_WEIGHT) / (DATA_WEIGHT + PROVENANCE_WEIGHT)) as u8;
    TrustScore {
        score,
        grade: Grade::from_score(score),
        rubric_version: String::from_str(RUBRIC_VERSION),
        data_score: data as u8,
        provenance_pct: pct as u8,
    }
}

/// A trust score is between 0 and 100. Without any provenance it is at most 70, however clean the
/// data; without a finding against the data it is at least 70.
pub proof fn law_score_bounds(s: Seq<FindingView>, failed: nat, c: ProvenanceCoverage)
    ensures
        rubric(s, failed, c).score <= 100,
        c.known == 0 && c.asserted == 0 && c.unknown > 0 ==> rubric(s, failed, c).score <= 70,
        data_findings(s, Severity::Error) == 0 && data_findings(s, Severity::Warning) == 0 && failed == 0 ==> rubric(
            s,
            failed,
            c,
        ).score >= 70,
{
    coverage::law_share_is_a_percentage(c);
}

/// More findings against the data, or more failed checks, never raise a score; nor does less
/// provenance.
pub proof fn law_score_is_monotone(
    s: Seq<FindingView>,
    failed: nat,
    c: ProvenanceCoverage,
    t: Seq<FindingView>,
    more: nat,
    d: ProvenanceCoverage,
)
    requires
        data_findings(s, Severity::Error) <= data_findings(t, Severity::Error),
        data_findings(s, Severity::Warning) <= data_findings(t, Severity::Warning),
        failed <= more,
        d.spec_covered_pct() <= c.spec_covered_pct(),
    ensures
        rubric(t, more, d).score <= rubric(s, failed, c).score,
{
    coverage::law_share_is_a_percentage(c);
    coverage::law_share_is_a_percentage(d);
}

/// A finding about provenance, or an informational one, changes no score.
pub proof fn law_provenance_findings_do_not_count(
    s: Seq<FindingView>,
    f: FindingView,
    failed: nat,
    c: ProvenanceCoverage,
)
    requires
        f.category is Provenance || f.severity is Info,
    ensures
        rubric(s.push(f), failed, c) == rubric(s, failed, c),
{
    assert(s.push(f).drop_last() =~= s);
}

/// What is left of a sub-score when something is taken from it: never less than nothing.
pub open spec fn less_by(score: u8, taken: u8) -> u8 {
    if score < taken { 0 } else { (score - taken) as u8 }
}

/// Nothing found and nothing failed leaves the data sub-score whole.
pub proof fn law_clean_data_scores_full(c: ProvenanceCoverage)
    ensures
        rubric(Seq::empty(), 0, c).data_score == 100,
{
}

/// Every finding that is not about provenance counts, whatever its category: an error takes fifteen
/// from the data sub-score and a warning four, down to nothing.
pub proof fn law_every_data_finding_counts(s: Seq<FindingView>, f: FindingView, failed: nat, c: ProvenanceCoverage)
    requires
        f.category != Category::Provenance,
    ensures
        f.severity == Severity::Error ==> rubric(s.push(f), failed, c).data_score == less_by(
            rubric(s, failed, c).data_score,
            15,
        ),
        f.severity == Severity::Warning ==> rubric(s.push(f), failed, c).data_score == less_by(
            rubric(s, failed, c).data_score,
            4,
        ),
{
    assert(s.push(f).drop_last() =~= s);
}

/// Every check that failed to run takes ten from the data sub-score, down to nothing.
pub proof fn law_every_failed_check_counts(s: Seq<FindingView>, failed: nat, c: ProvenanceCoverage)
    ensures
        rubric(s, failed + 1, c).data_score == less_by(rubric(s, failed, c).data_score, 10),
{
}

/// The overall score is seven tenths of the data sub-score and three tenths of the provenance
/// percentage, rounded down; the percentage is the share of the expected elements that are known or
/// asserted, rounded down.
pub proof fn law_score_weighs_its_parts(s: Seq<FindingView>, failed: nat, c: ProvenanceCoverage)
    ensures
        ({
            let t = rubric(s, failed, c);
            let total = c.known + c.asserted + c.unknown;
            &&& 10 * t.score <= 7 * t.data_score + 3 * t.provenance_pct < 10 * t.score + 10
            &&& t.provenance_pct <= 100
            &&& total == 0 ==> t.provenance_pct == 100
            &&& total > 0 ==> t.provenance_pct * total <= 100 * (c.known + c.asserted) < (t.provenance_pct + 1) * total
        }),
{
    coverage::law_share_is_a_percentage(c);
    let total = c.known + c.asserted + c.unknown;
    if total > 0 {
        let n = (c.known + c.asserted) * 100;
        vstd::arithmetic::div_mod::lemma_fundamental_div_mod(n, total);
        vstd::arithmetic::div_mod::lemma_mod_bound(n, total);
        let q = n / total;
        assert(total * q == q * total) by (nonlinear_arith);
        assert((q + 1) * total == q * total + total) by (nonlinear_arith);
    }
}

/// The grade follows from the score: ninety and up is an A, and each band below is ten wide down to
/// sixty.
pub proof fn law_grades_follow_scores(s: Seq<FindingView>, failed: nat, c: ProvenanceCoverage)
    ensures
        ({
            let t = rubric(s, failed, c);
            &&& t.grade == Grade::A <==> 90 <= t.score
            &&& t.grade == Grade::B <==> 80 <= t.score < 90
            &&& t.grade == Grade::C <==> 70 <= t.score < 80
            &&& t.grade == Grade::D <==> 60 <= t.score < 70
            &&& t.grade == Grade::F <==> t.score < 60
        }),
{
    coverage::law_share_is_a_percentage(c);
}

/// The order of the findings does not matter.
pub proof fn law_score_ignores_the_order(s: Seq<FindingView>, t: Seq<FindingView>, failed: nat, c: ProvenanceCoverage)
    requires
        s.to_multiset() == t.to_multiset(),
    ensures
        rubric(s, failed, c) == rubric(t, failed, c),
{
    lemma_counted(s, Severity::Error);
    lemma_counted(t, Severity::Error);
    lemma_counted(s, Severity::Warning);
    lemma_counted(t, Severity::Warning);
    seqs::lemma_gather_multiset(s, t, counted(Severity::Error));
    seqs::lemma_gather_multiset(s, t, counted(Severity::Warning));
}

/// One for a finding of a severity that counts against the data, nothing for another.
spec fn counted(severity: Severity) -> spec_fn(FindingView) -> Seq<int> {
    |f: FindingView| if f.severity == severity && !(f.category is Provenance) { seq![1int] } else { Seq::empty() }
}

/// The findings that count, as a list.
proof fn lemma_counted(s: Seq<FindingView>, severity: Severity)
    ensures
        data_findings(s, severity) == seqs::gather(s, counted(severity)).len(),
    decreases s.len(),
{
    if s.len() > 0 {
        lemma_counted(s.drop_last(), severity);
    }
}

} // verus!
