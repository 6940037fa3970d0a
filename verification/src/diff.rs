//! Verdict diffing: compare two reports for the same dataset lineage and report what changed —
//! findings introduced, resolved, or unchanged, and how the trust score moved.
//!
//! Operates on the report JSON (`veridex.report/1`) so it works on any two saved reports without
//! re-running validation. A finding is "the same" when its full JSON object is equal.

use vstd::prelude::*;
use vstd::string::*;

use crate::cat::{cat2, cat3, cat5, cat6, cat7};
use crate::json;
use crate::json::{copy_json, get_in, member, opt_json, pretty_text, same_json, text_in, texts_json, Json, JsonView, Member};
use crate::lines;
use crate::lines::{extend, write_lines};
use crate::text;
use crate::text::{dec_i64, dec_usize, holds, join, same};

verus! {

broadcast use text::lemma_texts_push;

/// The code under which a report discloses that it was redacted for sharing.
pub const REDACTION_CODE: &'static str = "REPORT.REDACTED";

/// The result of diffing two reports.
#[derive(Debug)]
pub struct ReportDiff {
    /// Findings present in the new report but not the old (regressions/new issues).
    pub introduced: Vec<Json>,
    /// Findings present in the old report but not the new (resolved).
    pub resolved: Vec<Json>,
    /// Findings present in both.
    pub unchanged: Vec<Json>,
    /// The old trust score, if present.
    pub old_score: Option<i64>,
    /// The new trust score, if present.
    pub new_score: Option<i64>,
    /// The two reports' coverage kinds (`full`, `sample`, `metadata_only`), when recorded.
    pub old_coverage: Option<String>,
    /// See [`ReportDiff::old_coverage`].
    pub new_coverage: Option<String>,
    /// Whether the old report was redacted for sharing (carries `REPORT.REDACTED`).
    pub old_redacted: bool,
    /// See [`ReportDiff::old_redacted`].
    pub new_redacted: bool,
    /// The dataset each report is about, by the id the CDM carries.
    pub old_dataset: Option<String>,
    /// See [`ReportDiff::old_dataset`].
    pub new_dataset: Option<String>,
    /// The CDM content hash each report was computed over, when it records one.
    pub old_cdm_hash: Option<String>,
    /// See [`ReportDiff::old_cdm_hash`].
    pub new_cdm_hash: Option<String>,
    /// The version each report was produced by, when it records one.
    pub old_version: Option<String>,
    /// See [`ReportDiff::old_version`].
    pub new_version: Option<String>,
    /// Ids of checks that crashed instead of producing findings, in the old report.
    pub old_errored: Vec<String>,
    /// See [`ReportDiff::old_errored`].
    pub new_errored: Vec<String>,
}

// ---- reading a report ------------------------------------------------------------------------

/// The verdict of a report, tolerant of a bare verdict.
pub open spec fn verdict_of(report: JsonView) -> JsonView {
    match report.at("verdict"@) {
        Some(v) => v,
        None => report,
    }
}

/// The findings member of a report: in a full envelope, or in a bare verdict.
pub open spec fn findings_member(report: JsonView) -> Option<JsonView> {
    match json::at(report.at("verdict"@), "findings"@) {
        Some(f) => Some(f),
        None => report.at("findings"@),
    }
}

/// The findings of a report; none where it has no list of them.
pub open spec fn findings_of(report: JsonView) -> Seq<JsonView> {
    match findings_member(report) {
        Some(f) => match f.as_list() {
            Some(s) => s,
            None => Seq::empty(),
        },
        None => Seq::empty(),
    }
}

/// The trust score of a report.
pub open spec fn score_of(report: JsonView) -> Option<int> {
    match json::at(report.at("trust_score"@), "score"@) {
        Some(n) => n.as_number(),
        None => None,
    }
}

/// The coverage kind that a report records.
pub open spec fn coverage_of(report: JsonView) -> Option<Seq<char>> {
    json::text_at(json::at(verdict_of(report).at("coverage"@), "kind"@))
}

/// The dataset id that a report is about.
pub open spec fn dataset_of(report: JsonView) -> Option<Seq<char>> {
    json::text_at(json::at(report.at("dataset"@), "id"@))
}

/// The CDM content hash that a report records.
pub open spec fn hash_of(report: JsonView) -> Option<Seq<char>> {
    json::text_at(verdict_of(report).at("cdm_content_hash"@))
}

/// The version that a report records.
pub open spec fn version_of(report: JsonView) -> Option<Seq<char>> {
    json::text_at(verdict_of(report).at("veridex_version"@))
}

/// The ids among errored checks.
pub open spec fn ids_of(s: Seq<JsonView>) -> Seq<Seq<char>>
    decreases s.len(),
{
    if s.len() == 0 {
        Seq::empty()
    } else {
        match json::text_at(s.last().at("check_id"@)) {
            Some(id) => ids_of(s.drop_last()).push(id),
            None => ids_of(s.drop_last()),
        }
    }
}

/// The ids of the checks that a report records as having crashed.
pub open spec fn errored_of(report: JsonView) -> Seq<Seq<char>> {
    match verdict_of(report).at("errored_checks"@) {
        Some(x) => match x.as_list() {
            Some(s) => ids_of(s),
            None => Seq::empty(),
        },
        None => Seq::empty(),
    }
}

/// Whether a finding has a code.
pub open spec fn has_code(f: JsonView, code: Seq<char>) -> bool {
    json::text_at(f.at("code"@)) == Some(code)
}

/// Whether a finding of a list has a code.
pub open spec fn any_code(s: Seq<JsonView>, code: Seq<char>) -> bool {
    exists|i: int| 0 <= i < s.len() && has_code(#[trigger] s[i], code)
}

/// Whether a report carries the redaction disclosure.
pub open spec fn redacted(report: JsonView) -> bool {
    any_code(findings_of(report), REDACTION_CODE@)
}

/// The verdict of a report, tolerant of a bare verdict.
fn verdict_in(report: &Json) -> (r: &Json)
    ensures
        r.doc() == verdict_of(report.doc()),
{
    match report.get("verdict") {
        Some(v) => v,
        None => report,
    }
}

/// The findings member of a report.
fn findings_in(report: &Json) -> (r: Option<&Json>)
    ensures
        json::seen(r) == findings_member(report.doc()),
{
    match get_in(report.get("verdict"), "findings") {
        Some(f) => Some(f),
        None => report.get("findings"),
    }
}

/// Whether a JSON value is shaped like a report at all: it must carry a findings array, either in a
/// full envelope (`{"verdict": {"findings": [...]}}`) or as a bare verdict (`{"findings": [...]}`).
///
/// Absence is not emptiness: a truncated or wrong-shaped artifact must not read as "no findings".
pub fn is_report_shaped(report: &Json) -> (r: bool)
    ensures
        r == (findings_member(report.doc()) matches Some(f) && f is List),
{
    match findings_in(report) {
        Some(f) => f.as_list().is_some(),
        None => false,
    }
}

/// The findings of a report.
fn list_findings(report: &Json) -> (r: Vec<Json>)
    ensures
        json::docs(r@) == findings_of(report.doc()),
{
    broadcast use json::group_json;

    let none: Vec<Json> = Vec::new();
    assert(json::docs(none@) =~= Seq::empty());
    match findings_in(report) {
        Some(f) => match f.as_list() {
            Some(v) => {
                let ghost d = json::docs(v@);
                let mut out: Vec<Json> = Vec::new();
                let mut i: usize = 0;
                assert(json::docs(out@) =~= d.take(0));
                while i < v.len()
                    invariant
                        i <= v@.len(),
                        d == json::docs(v@),
                        json::docs(out@) == d.take(i as int),
                    decreases v@.len() - i,
                {
                    out.push(copy_json(&v[i]));
                    assert(d[i as int] == v@[i as int].doc());
                    assert(d.take(i + 1) =~= d.take(i as int).push(d[i as int]));
                    i = i + 1;
                }
                assert(d.take(i as int) =~= d);
                out
            },
            None => none,
        },
        None => none,
    }
}

/// The trust score of a report.
fn trust_score(report: &Json) -> (r: Option<i64>)
    ensures
        match r {
            Some(n) => score_of(report.doc()) == Some(n as int),
            None => score_of(report.doc()) is None,
        },
{
    match get_in(report.get("trust_score"), "score") {
        Some(n) => n.as_number(),
        None => None,
    }
}

/// The ids of the checks that a report records as having crashed.
fn list_errored(report: &Json) -> (r: Vec<String>)
    ensures
        text::texts(r@) == errored_of(report.doc()),
{
    let mut out: Vec<String> = Vec::new();
    assert(text::texts(out@) =~= Seq::empty());
    if let Some(x) = verdict_in(report).get("errored_checks") {
        if let Some(v) = x.as_list() {
            let ghost d = json::docs(v@);
            let mut i: usize = 0;
            while i < v.len()
                invariant
                    i <= v@.len(),
                    d == json::docs(v@),
                    text::texts(out@) == ids_of(d.take(i as int)),
                decreases v@.len() - i,
            {
                assert(d[i as int] == v@[i as int].doc());
                assert(d.take(i + 1).drop_last() =~= d.take(i as int));
                if let Some(id) = text_in(v[i].get("check_id")) {
                    out.push(id);
                }
                i = i + 1;
            }
            assert(d.take(i as int) =~= d);
        }
    }
    out
}

/// Whether a report carries the redaction disclosure.
fn is_redacted(report: &Json) -> (r: bool)
    ensures
        r == redacted(report.doc()),
{
    if let Some(f) = findings_in(report) {
        if let Some(v) = f.as_list() {
            let ghost d = json::docs(v@);
            let mut i: usize = 0;
            while i < v.len()
                invariant
                    i <= v@.len(),
                    d == json::docs(v@),
                    d == findings_of(report.doc()),
                    forall|k: int| 0 <= k < i ==> !has_code(#[trigger] d[k], REDACTION_CODE@),
                decreases v@.len() - i,
            {
                assert(d[i as int] == v@[i as int].doc());
                if let Some(code) = text_in(v[i].get("code")) {
                    if same(code.as_str(), REDACTION_CODE) {
                        assert(has_code(d[i as int], REDACTION_CODE@));
                        assert(any_code(d, REDACTION_CODE@));
                        return true;
                    }
                }
                i = i + 1;
            }
        }
    }
    false
}

// ---- diffing ---------------------------------------------------------------------------------

/// Whether a list holds a finding.
pub open spec fn has_finding(s: Seq<JsonView>, f: JsonView) -> bool {
    exists|i: int| 0 <= i < s.len() && json::json_eq(#[trigger] s[i], f)
}

/// The findings of a list that another holds, or does not.
pub open spec fn sieve(s: Seq<JsonView>, other: Seq<JsonView>, held: bool) -> Seq<JsonView>
    decreases s.len(),
{
    if s.len() == 0 {
        Seq::empty()
    } else if has_finding(other, s.last()) == held {
        sieve(s.drop_last(), other, held).push(s.last())
    } else {
        sieve(s.drop_last(), other, held)
    }
}

/// Whether a list holds a finding.
fn contains(list: &Vec<Json>, f: &Json) -> (r: bool)
    ensures
        r == has_finding(json::docs(list@), f.doc()),
{
    let ghost d = json::docs(list@);
    let mut i: usize = 0;
    while i < list.len()
        invariant
            i <= list@.len(),
            d == json::docs(list@),
            forall|k: int| 0 <= k < i ==> !json::json_eq(#[trigger] d[k], f.doc()),
        decreases list@.len() - i,
    {
        assert(d[i as int] == list@[i as int].doc());
        if same_json(&list[i], f) {
            return true;
        }
        i = i + 1;
    }
    false
}

/// The findings of a list that another holds, or does not.
fn sift(list: &Vec<Json>, other: &Vec<Json>, held: bool) -> (r: Vec<Json>)
    ensures
        json::docs(r@) == sieve(json::docs(list@), json::docs(other@), held),
{
    broadcast use json::group_json;

    let ghost d = json::docs(list@);
    let ghost o = json::docs(other@);
    let mut out: Vec<Json> = Vec::new();
    let mut i: usize = 0;
    assert(json::docs(out@) =~= Seq::empty());
    while i < list.len()
        invariant
            i <= list@.len(),
            d == json::docs(list@),
            o == json::docs(other@),
            json::docs(out@) == sieve(d.take(i as int), o, held),
        decreases list@.len() - i,
    {
        assert(d[i as int] == list@[i as int].doc());
        assert(d.take(i + 1).drop_last() =~= d.take(i as int));
        if contains(other, &list[i]) == held {
            out.push(copy_json(&list[i]));
        }
        i = i + 1;
    }
    assert(d.take(i as int) =~= d);
    out
}

/// Whether a number is what there is.
pub open spec fn number_is(n: Option<i64>, x: Option<int>) -> bool {
    match n {
        Some(n) => x == Some(n as int),
        None => x is None,
    }
}

/// Whether a diff is that of two reports.
pub open spec fn compares(d: ReportDiff, old: JsonView, new: JsonView) -> bool {
    &&& json::docs(d.introduced@) == sieve(findings_of(new), findings_of(old), false)
    &&& json::docs(d.resolved@) == sieve(findings_of(old), findings_of(new), false)
    &&& json::docs(d.unchanged@) == sieve(findings_of(new), findings_of(old), true)
    &&& number_is(d.old_score, score_of(old))
    &&& number_is(d.new_score, score_of(new))
    &&& json::opt_view(d.old_coverage) == coverage_of(old)
    &&& json::opt_view(d.new_coverage) == coverage_of(new)
    &&& d.old_redacted == redacted(old)
    &&& d.new_redacted == redacted(new)
    &&& json::opt_view(d.old_dataset) == dataset_of(old)
    &&& json::opt_view(d.new_dataset) == dataset_of(new)
    &&& json::opt_view(d.old_cdm_hash) == hash_of(old)
    &&& json::opt_view(d.new_cdm_hash) == hash_of(new)
    &&& json::opt_view(d.old_version) == version_of(old)
    &&& json::opt_view(d.new_version) == version_of(new)
    &&& text::texts(d.old_errored@) == errored_of(old)
    &&& text::texts(d.new_errored@) == errored_of(new)
}

/// Diff two reports.
pub fn diff_reports(old: &Json, new: &Json) -> (r: ReportDiff)
    ensures
        compares(r, old.doc(), new.doc()),
{
    let old_findings: Vec<Json> = list_findings(old);
    let new_findings: Vec<Json> = list_findings(new);
    ReportDiff {
        introduced: sift(&new_findings, &old_findings, false),
        resolved: sift(&old_findings, &new_findings, false),
        unchanged: sift(&new_findings, &old_findings, true),
        old_score: trust_score(old),
        new_score: trust_score(new),
        old_coverage: text_in(get_in(verdict_in(old).get("coverage"), "kind")),
        new_coverage: text_in(get_in(verdict_in(new).get("coverage"), "kind")),
        old_redacted: is_redacted(old),
        new_redacted: is_redacted(new),
        old_dataset: text_in(get_in(old.get("dataset"), "id")),
        new_dataset: text_in(get_in(new.get("dataset"), "id")),
        old_cdm_hash: text_in(verdict_in(old).get("cdm_content_hash")),
        new_cdm_hash: text_in(verdict_in(new).get("cdm_content_hash")),
        old_version: text_in(verdict_in(old).get("veridex_version")),
        new_version: text_in(verdict_in(new).get("veridex_version")),
        old_errored: list_errored(old),
        new_errored: list_errored(new),
    }
}

/// Whether two optional texts are both there and differ.
pub open spec fn differ(a: Option<String>, b: Option<String>) -> bool {
    match (a, b) {
        (Some(x), Some(y)) => x@ != y@,
        _ => false,
    }
}

/// Whether two optional texts are both there and differ.
fn differs(a: &Option<String>, b: &Option<String>) -> (r: bool)
    ensures
        r == differ(*a, *b),
{
    match (a, b) {
        (Some(x), Some(y)) => !same(x.as_str(), y.as_str()),
        _ => false,
    }
}

/// The ids of a list that another does not hold.
pub open spec fn absent_from(s: Seq<Seq<char>>, other: Seq<Seq<char>>) -> Seq<Seq<char>>
    decreases s.len(),
{
    if s.len() == 0 {
        Seq::empty()
    } else if other.contains(s.last()) {
        absent_from(s.drop_last(), other)
    } else {
        absent_from(s.drop_last(), other).push(s.last())
    }
}

impl ReportDiff {
    /// Whether the difference of the scores is representable.
    pub open spec fn delta_fits(&self) -> bool {
        match (self.old_score, self.new_score) {
            (Some(o), Some(n)) => i64::MIN <= n - o <= i64::MAX,
            _ => true,
        }
    }

    /// `new_score - old_score`, when both are present.
    pub fn score_delta(&self) -> (r: Option<i64>)
        requires
            self.delta_fits(),
        ensures
            match (self.old_score, self.new_score) {
                (Some(o), Some(n)) => r is Some && r->0 == n - o,
                _ => r is None,
            },
    {
        match (self.old_score, self.new_score) {
            (Some(o), Some(n)) => Some(n - o),
            _ => None,
        }
    }

    /// Whether the two reports cover different amounts of their dataset. Callers gating on a diff must
    /// treat this as a regression, not an improvement.
    pub fn coverage_differs(&self) -> (r: bool)
        ensures
            r == differ(self.old_coverage, self.new_coverage),
    {
        differs(&self.old_coverage, &self.new_coverage)
    }

    /// Whether the two reports are about **different datasets**. Identity is the dataset id, not the
    /// content hash: the hash differs between every pair of reports worth diffing.
    pub fn dataset_differs(&self) -> (r: bool)
        ensures
            r == differ(self.old_dataset, self.new_dataset),
    {
        differs(&self.old_dataset, &self.new_dataset)
    }

    /// Whether both reports were computed over byte-identical dataset content.
    pub fn same_content(&self) -> (r: bool)
        ensures
            r == (self.old_cdm_hash is Some && self.new_cdm_hash is Some && !differ(
                self.old_cdm_hash,
                self.new_cdm_hash,
            )),
    {
        match (&self.old_cdm_hash, &self.new_cdm_hash) {
            (Some(o), Some(n)) => same(o.as_str(), n.as_str()),
            _ => false,
        }
    }

    /// Whether exactly one of the two reports was redacted.
    pub fn redaction_differs(&self) -> (r: bool)
        ensures
            r == (self.old_redacted != self.new_redacted),
    {
        self.old_redacted != self.new_redacted
    }

    /// Whether the two reports were produced by **different versions**: across versions what moved
    /// cannot be attributed to the data.
    pub fn version_differs(&self) -> (r: bool)
        ensures
            r == differ(self.old_version, self.new_version),
    {
        differs(&self.old_version, &self.new_version)
    }

    /// Checks that crashed in the new report and did not in the old one. A crash is cheaper than the
    /// finding it suppresses, so its silence is not an improvement.
    pub fn newly_errored(&self) -> (r: Vec<String>)
        ensures
            text::texts(r@) == absent_from(text::texts(self.new_errored@), text::texts(self.old_errored@)),
    {
        let ghost t = text::texts(self.new_errored@);
        let mut out: Vec<String> = Vec::new();
        let mut i: usize = 0;
        assert(text::texts(out@) =~= Seq::empty());
        while i < self.new_errored.len()
            invariant
                i <= self.new_errored@.len(),
                t == text::texts(self.new_errored@),
                text::texts(out@) == absent_from(t.take(i as int), text::texts(self.old_errored@)),
            decreases self.new_errored@.len() - i,
        {
            assert(t[i as int] == self.new_errored@[i as int]@);
            assert(t.take(i + 1).drop_last() =~= t.take(i as int));
            if !holds(&self.old_errored, self.new_errored[i].as_str()) {
                out.push(self.new_errored[i].clone());
            }
            i = i + 1;
        }
        assert(t.take(i as int) =~= t);
        out
    }
}

// ---- rendering -------------------------------------------------------------------------------

/// A text, or a word where it is not known.
pub open spec fn or_else(s: Option<String>, other: Seq<char>) -> Seq<char> {
    match s {
        Some(s) => s@,
        None => other,
    }
}

/// A text, or a word where it is not known.
fn text_or<'a>(s: &'a Option<String>, other: &'a str) -> (r: &'a str)
    ensures
        r@ == or_else(*s, other@),
{
    match s {
        Some(x) => x.as_str(),
        None => other,
    }
}

/// What qualifies a comparison, line by line.
pub open spec fn caveat_lines(d: ReportDiff) -> Seq<Seq<char>> {
    (if differ(d.old_dataset, d.new_dataset) {
        seq![
            "  Dataset: DIFFERENT — `"@ + or_else(d.old_dataset, "unknown"@) + "` vs `"@ + or_else(
                d.new_dataset,
                "unknown"@,
            ) + "`. These reports are about two different datasets, so every count below is a comparison between unrelated runs."@,
        ]
    } else if d.old_cdm_hash is Some && d.new_cdm_hash is Some && !differ(d.old_cdm_hash, d.new_cdm_hash) {
        seq![
            "  Dataset: identical content (same CDM hash), so anything that changed below changed in Veridex or its configuration, not in the data."@,
        ]
    } else {
        Seq::empty()
    }) + lines::line_if(
        d.old_redacted != d.new_redacted,
        "  Redaction: CHANGED — one of these reports is redacted and the other is not. Every finding that names a stream, a task, or a path differs textually between them, so the counts below are of substitutions, not of changes to the data."@,
    ) + lines::line_if(
        differ(d.old_coverage, d.new_coverage),
        "  Coverage: CHANGED — "@ + or_else(d.old_coverage, "unknown"@) + " -> "@ + or_else(d.new_coverage, "unknown"@)
            + ". The two runs did not look at the same thing, so every comparison below is between unlike reports."@,
    ) + lines::line_if(
        differ(d.old_version, d.new_version),
        "  Veridex: CHANGED — "@ + or_else(d.old_version, "unknown"@) + " -> "@ + or_else(d.new_version, "unknown"@)
            + ". A release that adds a check or a finding code produces findings under `introduced` on a dataset that did not change, so what moved below cannot be attributed to the data. Re-baseline against a report from this version."@,
    )
}

/// How the score moved.
pub open spec fn score_lines(d: ReportDiff) -> Seq<Seq<char>> {
    match (d.old_score, d.new_score) {
        (Some(o), Some(n)) => seq![
            "  Trust score: "@ + text::int_text(o as int) + " -> "@ + text::int_text(n as int) + " ("@ + (if n > o {
                "+"@
            } else {
                ""@
            }) + text::int_text(n - o) + ")"@,
        ],
        _ => Seq::empty(),
    }
}

/// What changed, in numbers.
pub open spec fn count_lines(d: ReportDiff) -> Seq<Seq<char>> {
    let crashed = absent_from(text::texts(d.new_errored@), text::texts(d.old_errored@));
    seq![
        "  Findings: "@ + text::dec(d.introduced@.len()) + " introduced · "@ + text::dec(d.resolved@.len())
            + " resolved · "@ + text::dec(d.unchanged@.len()) + " unchanged"@,
    ] + lines::line_if(
        crashed.len() > 0,
        "  Checks newly crashed: "@ + text::joined(crashed, ", "@)
            + " — a check that did not run cannot have resolved anything, and costs the score less than the findings it suppressed"@,
    )
}

/// A member of a finding as a text, or another text.
pub open spec fn field(f: JsonView, name: Seq<char>, other: Seq<char>) -> Seq<char> {
    match json::text_at(f.at(name)) {
        Some(s) => s,
        None => other,
    }
}

/// The line of a finding.
pub open spec fn finding_line(f: JsonView) -> Seq<char> {
    "  ["@ + field(f, "severity"@, "?"@) + "] "@ + field(f, "code"@, "?"@) + "  "@ + field(f, "message"@, ""@)
}

/// The lines of findings.
pub open spec fn finding_lines(s: Seq<JsonView>) -> Seq<Seq<char>> {
    s.map_values(|f: JsonView| finding_line(f))
}

/// A section of findings under a title; nothing where there are none.
pub open spec fn section_lines(title: Seq<char>, s: Seq<JsonView>) -> Seq<Seq<char>> {
    if s.len() == 0 {
        Seq::empty()
    } else {
        seq![""@, title] + finding_lines(s)
    }
}

/// A diff, line by line.
pub open spec fn diff_lines(d: ReportDiff) -> Seq<Seq<char>> {
    seq!["Veridex diff"@] + caveat_lines(d) + score_lines(d) + count_lines(d) + section_lines(
        "Introduced:"@,
        json::docs(d.introduced@),
    ) + section_lines("Resolved:"@, json::docs(d.resolved@))
}

/// What qualifies a comparison, line by line.
fn list_caveats(d: &ReportDiff) -> (r: Vec<String>)
    ensures
        text::texts(r@) == caveat_lines(*d),
{
    let ghost all = caveat_lines(*d);
    let mut out: Vec<String> = Vec::new();
    assert(text::texts(out@) =~= Seq::empty());
    if d.dataset_differs() {
        out.push(
            cat5(
                "  Dataset: DIFFERENT — `",
                text_or(&d.old_dataset, "unknown"),
                "` vs `",
                text_or(&d.new_dataset, "unknown"),
                "`. These reports are about two different datasets, so every count below is a comparison between unrelated runs.",
            ),
        );
    } else if d.same_content() {
        out.push(
            String::from_str(
                "  Dataset: identical content (same CDM hash), so anything that changed below changed in Veridex or its configuration, not in the data.",
            ),
        );
    }
    if d.redaction_differs() {
        out.push(
            String::from_str(
                "  Redaction: CHANGED — one of these reports is redacted and the other is not. Every finding that names a stream, a task, or a path differs textually between them, so the counts below are of substitutions, not of changes to the data.",
            ),
        );
    }
    if d.coverage_differs() {
        out.push(
            cat5(
                "  Coverage: CHANGED — ",
                text_or(&d.old_coverage, "unknown"),
                " -> ",
                text_or(&d.new_coverage, "unknown"),
                ". The two runs did not look at the same thing, so every comparison below is between unlike reports.",
            ),
        );
    }
    if d.version_differs() {
        out.push(
            cat5(
                "  Veridex: CHANGED — ",
                text_or(&d.old_version, "unknown"),
                " -> ",
                text_or(&d.new_version, "unknown"),
                ". A release that adds a check or a finding code produces findings under `introduced` on a dataset that did not change, so what moved below cannot be attributed to the data. Re-baseline against a report from this version.",
            ),
        );
    }
    assert(text::texts(out@) =~= all);
    out
}

/// How the score moved.
fn list_score(d: &ReportDiff) -> (r: Vec<String>)
    requires
        d.delta_fits(),
    ensures
        text::texts(r@) == score_lines(*d),
{
    let mut out: Vec<String> = Vec::new();
    assert(text::texts(out@) =~= Seq::empty());
    if let (Some(o), Some(n)) = (d.old_score, d.new_score) {
        let delta: i64 = n - o;
        let sign: &str = if delta > 0 { "+" } else { "" };
        let moved: String = cat3(sign, dec_i64(delta).as_str(), ")");
        let head: String = cat5("  Trust score: ", dec_i64(o).as_str(), " -> ", dec_i64(n).as_str(), " (");
        out.push(cat2(head.as_str(), moved.as_str()));
        proof {
            let h = head@;
            let (s, t) = (sign@, text::int_text(n - o));
            assert(h + (s + t + ")"@) =~= h + s + t + ")"@);
        }
    }
    assert(text::texts(out@) =~= score_lines(*d));
    out
}

/// What changed, in numbers.
fn list_counts(d: &ReportDiff) -> (r: Vec<String>)
    ensures
        text::texts(r@) == count_lines(*d),
{
    let mut out: Vec<String> = Vec::new();
    assert(text::texts(out@) =~= Seq::empty());
    out.push(
        cat7(
            "  Findings: ",
            dec_usize(d.introduced.len()).as_str(),
            " introduced · ",
            dec_usize(d.resolved.len()).as_str(),
            " resolved · ",
            dec_usize(d.unchanged.len()).as_str(),
            " unchanged",
        ),
    );
    let crashed: Vec<String> = d.newly_errored();
    assert(text::texts(crashed@).len() == crashed@.len());
    if crashed.len() > 0 {
        out.push(
            cat3(
                "  Checks newly crashed: ",
                join(&crashed, ", ").as_str(),
                " — a check that did not run cannot have resolved anything, and costs the score less than the findings it suppressed",
            ),
        );
    }
    assert(text::texts(out@) =~= count_lines(*d));
    out
}

/// A member of a finding as a text, or another text.
fn field_of(f: &Json, name: &str, other: &str) -> (r: String)
    ensures
        r@ == field(f.doc(), name@, other@),
{
    match text_in(f.get(name)) {
        Some(s) => s,
        None => String::from_str(other),
    }
}

/// A section of findings under a title.
fn list_section(title: &str, items: &Vec<Json>) -> (r: Vec<String>)
    ensures
        text::texts(r@) == section_lines(title@, json::docs(items@)),
{
    let ghost d = json::docs(items@);
    let ghost all = section_lines(title@, d);
    let mut out: Vec<String> = Vec::new();
    assert(text::texts(out@) =~= Seq::empty());
    if items.len() == 0 {
        return out;
    }
    out.push(String::from_str(""));
    out.push(String::from_str(title));
    let mut i: usize = 0;
    assert(text::texts(out@) =~= all.take(2));
    while i < items.len()
        invariant
            i <= items@.len(),
            items@.len() > 0,
            d == json::docs(items@),
            all == section_lines(title@, d),
            text::texts(out@) == all.take(i + 2),
        decreases items@.len() - i,
    {
        let f: &Json = &items[i];
        out.push(
            cat6(
                "  [",
                field_of(f, "severity", "?").as_str(),
                "] ",
                field_of(f, "code", "?").as_str(),
                "  ",
                field_of(f, "message", "").as_str(),
            ),
        );
        proof {
            assert(d[i as int] == f.doc());
            assert(finding_lines(d)[i as int] == finding_line(f.doc()));
            assert(all[i + 2] == finding_lines(d)[i as int]);
            assert(all.take(i + 3) =~= all.take(i + 2).push(all[i + 2]));
        }
        i = i + 1;
    }
    assert(all.take(i + 2) =~= all);
    out
}

/// Render a diff as a human-readable summary. What invalidates the comparison comes first.
pub fn render_diff(diff: &ReportDiff) -> (r: String)
    requires
        diff.delta_fits(),
    ensures
        r@ == lines::written(diff_lines(*diff)),
{
    let mut out: Vec<String> = Vec::new();
    out.push(String::from_str("Veridex diff"));
    extend(&mut out, list_caveats(diff));
    extend(&mut out, list_score(diff));
    extend(&mut out, list_counts(diff));
    extend(&mut out, list_section("Introduced:", &diff.introduced));
    extend(&mut out, list_section("Resolved:", &diff.resolved));
    assert(text::texts(out@) =~= diff_lines(*diff));
    write_lines(&out)
}

// ---- the machine-readable diff ---------------------------------------------------------------

/// Two optional texts, and whether they changed.
pub open spec fn change_members(a: Option<String>, b: Option<String>) -> Seq<(Seq<char>, JsonView)> {
    seq![
        ("old"@, json::opt_text_view(json::opt_view(a))),
        ("new"@, json::opt_text_view(json::opt_view(b))),
        ("changed"@, JsonView::Bool(differ(a, b))),
    ]
}

/// The difference of the scores.
pub open spec fn delta_doc(d: ReportDiff) -> JsonView {
    match (d.old_score, d.new_score) {
        (Some(o), Some(n)) => if n - o < 0 {
            JsonView::Negative((n - o) as i64)
        } else {
            JsonView::Natural((n - o) as u64)
        },
        _ => JsonView::Null,
    }
}

/// A diff as a document. Dataset and coverage lead it because they qualify everything after them.
pub open spec fn diff_doc(d: ReportDiff) -> JsonView {
    JsonView::Object(
        seq![
            (
                "dataset"@,
                JsonView::Object(
                    change_members(d.old_dataset, d.new_dataset).push(
                        (
                            "same_content"@,
                            JsonView::Bool(
                                d.old_cdm_hash is Some && d.new_cdm_hash is Some && !differ(
                                    d.old_cdm_hash,
                                    d.new_cdm_hash,
                                ),
                            ),
                        ),
                    ),
                ),
            ),
            ("coverage"@, JsonView::Object(change_members(d.old_coverage, d.new_coverage))),
            (
                "redaction"@,
                JsonView::Object(
                    seq![
                        ("old"@, JsonView::Bool(d.old_redacted)),
                        ("new"@, JsonView::Bool(d.new_redacted)),
                        ("changed"@, JsonView::Bool(d.old_redacted != d.new_redacted)),
                    ],
                ),
            ),
            ("veridex_version"@, JsonView::Object(change_members(d.old_version, d.new_version))),
            ("introduced"@, JsonView::List(json::docs(d.introduced@))),
            ("resolved"@, JsonView::List(json::docs(d.resolved@))),
            ("unchanged_count"@, JsonView::Natural(d.unchanged@.len() as u64)),
            ("score_delta"@, delta_doc(d)),
            (
                "newly_errored_checks"@,
                JsonView::List(
                    json::text_views(absent_from(text::texts(d.new_errored@), text::texts(d.old_errored@))),
                ),
            ),
        ],
    )
}

/// Two optional texts, and whether they changed.
fn list_change(a: &Option<String>, b: &Option<String>) -> (r: Vec<Member>)
    ensures
        json::members(r@) == change_members(*a, *b),
{
    broadcast use json::group_json;

    let mut m: Vec<Member> = Vec::new();
    m.push(member("old", opt_json(a)));
    m.push(member("new", opt_json(b)));
    m.push(member("changed", Json::Bool(differs(a, b))));
    assert(json::members(m@) =~= change_members(*a, *b));
    m
}

/// A copy of findings.
fn copy_list(list: &Vec<Json>) -> (r: Json)
    ensures
        r.doc() == JsonView::List(json::docs(list@)),
{
    broadcast use json::group_json;

    let ghost d = json::docs(list@);
    let mut out: Vec<Json> = Vec::new();
    let mut i: usize = 0;
    assert(json::docs(out@) =~= d.take(0));
    while i < list.len()
        invariant
            i <= list@.len(),
            d == json::docs(list@),
            json::docs(out@) == d.take(i as int),
        decreases list@.len() - i,
    {
        out.push(copy_json(&list[i]));
        assert(d[i as int] == list@[i as int].doc());
        assert(d.take(i + 1) =~= d.take(i as int).push(d[i as int]));
        i = i + 1;
    }
    assert(d.take(i as int) =~= d);
    Json::List(out)
}

/// A diff as a document.
pub fn diff_document(d: &ReportDiff) -> (r: Json)
    requires
        d.delta_fits(),
    ensures
        r.doc() == diff_doc(*d),
{
    broadcast use json::group_json;

    let mut dataset: Vec<Member> = list_change(&d.old_dataset, &d.new_dataset);
    dataset.push(member("same_content", Json::Bool(d.same_content())));
    let mut redaction: Vec<Member> = Vec::new();
    redaction.push(member("old", Json::Bool(d.old_redacted)));
    redaction.push(member("new", Json::Bool(d.new_redacted)));
    redaction.push(member("changed", Json::Bool(d.redaction_differs())));
    assert(json::members(redaction@) =~= seq![
        ("old"@, JsonView::Bool(d.old_redacted)),
        ("new"@, JsonView::Bool(d.new_redacted)),
        ("changed"@, JsonView::Bool(d.old_redacted != d.new_redacted)),
    ]);
    let delta: Json = match d.score_delta() {
        Some(n) => if n < 0 {
            Json::Negative(n)
        } else {
            Json::Natural(n as u64)
        },
        None => Json::Null,
    };
    assert(delta.doc() == delta_doc(*d));
    let mut m: Vec<Member> = Vec::new();
    m.push(member("dataset", Json::Object(dataset)));
    m.push(member("coverage", Json::Object(list_change(&d.old_coverage, &d.new_coverage))));
    m.push(member("redaction", Json::Object(redaction)));
    m.push(member("veridex_version", Json::Object(list_change(&d.old_version, &d.new_version))));
    m.push(member("introduced", copy_list(&d.introduced)));
    m.push(member("resolved", copy_list(&d.resolved)));
    m.push(member("unchanged_count", Json::Natural(d.unchanged.len() as u64)));
    m.push(member("score_delta", delta));
    m.push(member("newly_errored_checks", texts_json(&d.newly_errored())));
    assert(json::members(m@) =~= diff_doc(*d)->Object_0);
    Json::Object(m)
}

/// Whether the difference of the scores of two reports is representable.
pub open spec fn scores_fit(old: JsonView, new: JsonView) -> bool {
    match (score_of(old), score_of(new)) {
        (Some(o), Some(n)) => i64::MIN <= n - o <= i64::MAX,
        _ => true,
    }
}

/// Diff two report JSON values and render the machine-readable summary as a pretty JSON string.
pub fn render_diff_json(old: &Json, new: &Json) -> (r: String)
    requires
        scores_fit(old.doc(), new.doc()),
    ensures
        exists|d: ReportDiff| #[trigger] compares(d, old.doc(), new.doc()) && r@ == json::pretty(diff_doc(d)),
{
    let diff: ReportDiff = diff_reports(old, new);
    pretty_text(&diff_document(&diff))
}

// ---- laws ------------------------------------------------------------------------------------

/// A report compared with itself has no changes: nothing introduced, nothing resolved, everything
/// unchanged.
pub proof fn law_identical_reports_have_no_changes(s: Seq<JsonView>)
    requires
        forall|i: int| 0 <= i < s.len() ==> json::is_plain(#[trigger] s[i]),
    ensures
        sieve(s, s, false) == Seq::<JsonView>::empty(),
        sieve(s, s, true) == s,
{
    assert forall|i: int| 0 <= i < s.len() implies has_finding(s, #[trigger] s[i]) by {
        json::law_equality_is_reflexive(s[i]);
    }
    lemma_sieve_all(s, s);
}

/// What the other list holds stays, and nothing else.
proof fn lemma_sieve_all(s: Seq<JsonView>, other: Seq<JsonView>)
    requires
        forall|i: int| 0 <= i < s.len() ==> has_finding(other, #[trigger] s[i]),
    ensures
        sieve(s, other, false) == Seq::<JsonView>::empty(),
        sieve(s, other, true) == s,
    decreases s.len(),
{
    if s.len() > 0 {
        let rest = s.drop_last();
        assert forall|i: int| 0 <= i < rest.len() implies has_finding(other, #[trigger] rest[i]) by {
            assert(rest[i] == s[i]);
        }
        lemma_sieve_all(rest, other);
        assert(has_finding(other, s[s.len() - 1]));
        assert(s =~= rest.push(s.last()));
    }
}

/// Every finding of the new report is either introduced or unchanged, and none is both.
pub proof fn law_findings_are_partitioned(new: Seq<JsonView>, old: Seq<JsonView>)
    ensures
        sieve(new, old, false).len() + sieve(new, old, true).len() == new.len(),
        forall|i: int| 0 <= i < sieve(new, old, false).len() ==> !has_finding(old, #[trigger] sieve(new, old, false)[i]),
        forall|i: int| 0 <= i < sieve(new, old, true).len() ==> has_finding(old, #[trigger] sieve(new, old, true)[i]),
    decreases new.len(),
{
    if new.len() > 0 {
        law_findings_are_partitioned(new.drop_last(), old);
    }
}

/// Whether lists are equal value by value.
pub open spec fn pairwise_eq(s: Seq<JsonView>, t: Seq<JsonView>) -> bool {
    s.len() == t.len() && forall|i: int| 0 <= i < s.len() ==> json::json_eq(#[trigger] s[i], t[i])
}

/// Whether the names in each value of a list are distinct.
pub open spec fn all_named_apart(s: Seq<JsonView>) -> bool {
    forall|i: int| 0 <= i < s.len() ==> json::is_named_apart(#[trigger] s[i])
}

/// Equal values, where there are some, have equal members of each name.
proof fn lemma_at_alike(a: Option<JsonView>, b: Option<JsonView>, name: Seq<char>)
    requires
        json::opt_eq(a, b),
        json::opt_named_apart(a),
        json::opt_named_apart(b),
    ensures
        json::opt_eq(json::at(a, name), json::at(b, name)),
        json::opt_named_apart(json::at(a, name)),
        json::opt_named_apart(json::at(b, name)),
{
    if let (Some(x), Some(y)) = (a, b) {
        json::law_equal_values_have_equal_members(x, y, name);
    }
}

/// Equal lists hold the same ids.
proof fn lemma_ids_alike(s: Seq<JsonView>, t: Seq<JsonView>)
    requires
        pairwise_eq(s, t),
        all_named_apart(s),
        all_named_apart(t),
    ensures
        ids_of(s) == ids_of(t),
    decreases s.len(),
{
    if s.len() > 0 {
        let (p, q) = (s.drop_last(), t.drop_last());
        assert forall|i: int| 0 <= i < p.len() implies json::json_eq(#[trigger] p[i], q[i]) by {
            assert(p[i] == s[i] && q[i] == t[i]);
        }
        assert forall|i: int| 0 <= i < p.len() implies json::is_named_apart(#[trigger] p[i]) by {
            assert(p[i] == s[i]);
        }
        assert forall|i: int| 0 <= i < q.len() implies json::is_named_apart(#[trigger] q[i]) by {
            assert(q[i] == t[i]);
        }
        lemma_ids_alike(p, q);
        let n = s.len() - 1;
        assert(json::json_eq(s[n], t[n]));
        json::law_equal_values_have_equal_members(s[n], t[n], "check_id"@);
    }
}

/// Equal reports have equal verdicts.
proof fn lemma_verdicts_alike(a: JsonView, b: JsonView)
    requires
        json::json_eq(a, b),
        json::is_named_apart(a),
        json::is_named_apart(b),
    ensures
        json::json_eq(verdict_of(a), verdict_of(b)),
        json::is_named_apart(verdict_of(a)),
        json::is_named_apart(verdict_of(b)),
{
    json::law_equal_values_have_equal_members(a, b, "verdict"@);
}

/// Equal reports have equal findings, in the same places.
proof fn lemma_findings_alike(a: JsonView, b: JsonView)
    requires
        json::json_eq(a, b),
        json::is_named_apart(a),
        json::is_named_apart(b),
    ensures
        pairwise_eq(findings_of(a), findings_of(b)),
        all_named_apart(findings_of(a)),
        all_named_apart(findings_of(b)),
        redacted(a) == redacted(b),
{
    json::law_equal_values_have_equal_members(a, b, "verdict"@);
    json::law_equal_values_have_equal_members(a, b, "findings"@);
    lemma_at_alike(a.at("verdict"@), b.at("verdict"@), "findings"@);
    assert(json::opt_eq(findings_member(a), findings_member(b)));
    let (s, t) = (findings_of(a), findings_of(b));
    assert(pairwise_eq(s, t));
    assert forall|i: int| 0 <= i < s.len() implies has_code(#[trigger] s[i], REDACTION_CODE@) == has_code(
        t[i],
        REDACTION_CODE@,
    ) by {
        json::law_equal_values_have_equal_members(s[i], t[i], "code"@);
    }
    if redacted(a) {
        let i = choose|i: int| 0 <= i < s.len() && has_code(#[trigger] s[i], REDACTION_CODE@);
        assert(has_code(t[i], REDACTION_CODE@));
    }
    if redacted(b) {
        let i = choose|i: int| 0 <= i < t.len() && has_code(#[trigger] t[i], REDACTION_CODE@);
        assert(has_code(s[i], REDACTION_CODE@));
    }
}

/// Equal reports, such as one and the same with the members of its objects in another order, say the
/// same: the findings are equal one by one, and so is all else that a diff reads.
pub proof fn law_equal_reports_read_alike(a: JsonView, b: JsonView)
    requires
        json::json_eq(a, b),
        json::is_named_apart(a),
        json::is_named_apart(b),
    ensures
        pairwise_eq(findings_of(a), findings_of(b)),
        redacted(a) == redacted(b),
        score_of(a) == score_of(b),
        coverage_of(a) == coverage_of(b),
        dataset_of(a) == dataset_of(b),
        hash_of(a) == hash_of(b),
        version_of(a) == version_of(b),
        errored_of(a) == errored_of(b),
{
    lemma_findings_alike(a, b);
    lemma_verdicts_alike(a, b);
    let (v, w) = (verdict_of(a), verdict_of(b));
    json::law_equal_values_have_equal_members(a, b, "trust_score"@);
    lemma_at_alike(a.at("trust_score"@), b.at("trust_score"@), "score"@);
    json::law_equal_values_have_equal_members(a, b, "dataset"@);
    lemma_at_alike(a.at("dataset"@), b.at("dataset"@), "id"@);
    json::law_equal_values_have_equal_members(v, w, "coverage"@);
    lemma_at_alike(v.at("coverage"@), w.at("coverage"@), "kind"@);
    json::law_equal_values_have_equal_members(v, w, "cdm_content_hash"@);
    json::law_equal_values_have_equal_members(v, w, "veridex_version"@);
    json::law_equal_values_have_equal_members(v, w, "errored_checks"@);
    if let (Some(JsonView::List(s)), Some(JsonView::List(t))) = (v.at("errored_checks"@), w.at("errored_checks"@)) {
        lemma_ids_alike(s, t);
    }
}

/// Equal lists hold the same findings.
proof fn lemma_held_alike(s: Seq<JsonView>, t: Seq<JsonView>, f: JsonView)
    requires
        pairwise_eq(s, t),
        all_named_apart(s),
        all_named_apart(t),
    ensures
        has_finding(s, f) == has_finding(t, f),
{
    if has_finding(s, f) {
        let i = choose|i: int| 0 <= i < s.len() && json::json_eq(#[trigger] s[i], f);
        json::law_equality_is_symmetric(s[i], t[i]);
        json::law_equality_is_transitive(t[i], s[i], f);
    }
    if has_finding(t, f) {
        let i = choose|i: int| 0 <= i < t.len() && json::json_eq(#[trigger] t[i], f);
        assert(json::json_eq(s[i], t[i]));
        json::law_equality_is_transitive(s[i], t[i], f);
    }
}

/// A list holds both or neither of two equal findings.
proof fn lemma_holds_alike(s: Seq<JsonView>, f: JsonView, g: JsonView)
    requires
        json::json_eq(f, g),
        json::is_named_apart(f),
        json::is_named_apart(g),
    ensures
        has_finding(s, f) == has_finding(s, g),
{
    json::law_equality_is_symmetric(f, g);
    if has_finding(s, f) {
        let i = choose|i: int| 0 <= i < s.len() && json::json_eq(#[trigger] s[i], f);
        json::law_equality_is_transitive(s[i], f, g);
    }
    if has_finding(s, g) {
        let i = choose|i: int| 0 <= i < s.len() && json::json_eq(#[trigger] s[i], g);
        json::law_equality_is_transitive(s[i], g, f);
    }
}

/// What is sieved against equal lists is the same.
proof fn lemma_sieve_against(s: Seq<JsonView>, t: Seq<JsonView>, u: Seq<JsonView>, held: bool)
    requires
        pairwise_eq(t, u),
        all_named_apart(t),
        all_named_apart(u),
    ensures
        sieve(s, t, held) == sieve(s, u, held),
    decreases s.len(),
{
    if s.len() > 0 {
        lemma_sieve_against(s.drop_last(), t, u, held);
        lemma_held_alike(t, u, s.last());
    }
}

/// What is sieved out of equal lists is equal.
proof fn lemma_sieve_of(s: Seq<JsonView>, t: Seq<JsonView>, other: Seq<JsonView>, held: bool)
    requires
        pairwise_eq(s, t),
        all_named_apart(s),
        all_named_apart(t),
    ensures
        pairwise_eq(sieve(s, other, held), sieve(t, other, held)),
    decreases s.len(),
{
    if s.len() > 0 {
        let (p, q) = (s.drop_last(), t.drop_last());
        assert forall|i: int| 0 <= i < p.len() implies json::json_eq(#[trigger] p[i], q[i]) by {
            assert(p[i] == s[i] && q[i] == t[i]);
        }
        assert forall|i: int| 0 <= i < p.len() implies json::is_named_apart(#[trigger] p[i]) by {
            assert(p[i] == s[i]);
        }
        assert forall|i: int| 0 <= i < q.len() implies json::is_named_apart(#[trigger] q[i]) by {
            assert(q[i] == t[i]);
        }
        lemma_sieve_of(p, q, other, held);
        let n = s.len() - 1;
        assert(json::json_eq(s[n], t[n]));
        lemma_holds_alike(other, s[n], t[n]);
    }
}

/// A diff does not depend on the order in which a report writes the members of its objects: with an
/// equal report in its place, old or new, the same findings are introduced, resolved and unchanged.
pub proof fn law_equal_reports_diff_alike(a: JsonView, b: JsonView, other: JsonView, held: bool)
    requires
        json::json_eq(a, b),
        json::is_named_apart(a),
        json::is_named_apart(b),
    ensures
        sieve(findings_of(other), findings_of(a), held) == sieve(findings_of(other), findings_of(b), held),
        pairwise_eq(
            sieve(findings_of(a), findings_of(other), held),
            sieve(findings_of(b), findings_of(other), held),
        ),
{
    lemma_findings_alike(a, b);
    lemma_sieve_against(findings_of(other), findings_of(a), findings_of(b), held);
    lemma_sieve_of(findings_of(a), findings_of(b), findings_of(other), held);
}

/// Equal reports have no changes between them, whatever the order in which each writes the members of
/// its objects: nothing introduced, nothing resolved, everything unchanged.
pub proof fn law_equal_reports_have_no_changes(old: JsonView, new: JsonView)
    requires
        json::json_eq(old, new),
        json::is_named_apart(old),
        json::is_named_apart(new),
    ensures
        sieve(findings_of(new), findings_of(old), false) == Seq::<JsonView>::empty(),
        sieve(findings_of(old), findings_of(new), false) == Seq::<JsonView>::empty(),
        sieve(findings_of(new), findings_of(old), true) == findings_of(new),
{
    lemma_findings_alike(old, new);
    let (s, t) = (findings_of(old), findings_of(new));
    assert forall|i: int| 0 <= i < t.len() implies has_finding(s, #[trigger] t[i]) by {
        assert(json::json_eq(s[i], t[i]));
    }
    assert forall|i: int| 0 <= i < s.len() implies has_finding(t, #[trigger] s[i]) by {
        json::law_equality_is_symmetric(s[i], t[i]);
    }
    lemma_sieve_all(t, s);
    lemma_sieve_all(s, t);
}

} // verus!
