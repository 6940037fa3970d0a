//! Laws of the comparison of reports, and of the thresholds that a run goes by.

use vstd::prelude::*;

use crate::diff;
use crate::diff::ReportDiff;
use crate::json;
use crate::json::JsonView;
use crate::laws::found;
use crate::number;
use crate::text;
use crate::tolerances;
use crate::tolerances::Tolerances;

verus! {

// ---- comparison ------------------------------------------------------------------------------

/// What is kept of a list.
proof fn lemma_sieve(s: Seq<JsonView>, other: Seq<JsonView>, held: bool, f: JsonView)
    ensures
        diff::sieve(s, other, held).contains(f) <==> s.contains(f) && diff::has_finding(other, f) == held,
    decreases s.len(),
{
    if s.len() > 0 {
        let rest = s.drop_last();
        lemma_sieve(rest, other, held, f);
        assert(s =~= rest.push(s.last()));
        found::lemma_one_more(rest, s.last(), f);
        found::lemma_one_more(diff::sieve(rest, other, held), s.last(), f);
    }
}

/// Whether a list holds a finding equal to one.
pub open spec fn holds_equal(s: Seq<JsonView>, f: JsonView) -> bool {
    exists|i: int| 0 <= i < s.len() && json::json_eq(#[trigger] s[i], f)
}

/// What is introduced is in the new report and has no equal in the old; what is resolved is in the old
/// and has none in the new; what is unchanged is in the new and has one in the old.
pub proof fn law_a_comparison_sorts_findings(d: ReportDiff, old: JsonView, new: JsonView, f: JsonView)
    requires
        diff::compares(d, old, new),
    ensures
        json::docs(d.introduced@).contains(f) <==> diff::findings_of(new).contains(f) && !holds_equal(diff::findings_of(old), f),
        json::docs(d.resolved@).contains(f) <==> diff::findings_of(old).contains(f) && !holds_equal(diff::findings_of(new), f),
        json::docs(d.unchanged@).contains(f) <==> diff::findings_of(new).contains(f) && holds_equal(diff::findings_of(old), f),
{
    lemma_sieve(diff::findings_of(new), diff::findings_of(old), false, f);
    lemma_sieve(diff::findings_of(old), diff::findings_of(new), false, f);
    lemma_sieve(diff::findings_of(new), diff::findings_of(old), true, f);
}

/// Compared the other way round, what was introduced is resolved, what was resolved is introduced, and
/// all that is said of the old report is said of the new.
pub proof fn law_a_comparison_can_be_reversed(d: ReportDiff, e: ReportDiff, old: JsonView, new: JsonView)
    requires
        diff::compares(d, old, new),
        diff::compares(e, new, old),
    ensures
        json::docs(d.introduced@) == json::docs(e.resolved@),
        json::docs(d.resolved@) == json::docs(e.introduced@),
        d.old_score == e.new_score && d.new_score == e.old_score,
        json::opt_view(d.old_coverage) == json::opt_view(e.new_coverage),
        json::opt_view(d.new_coverage) == json::opt_view(e.old_coverage),
        d.old_redacted == e.new_redacted && d.new_redacted == e.old_redacted,
        json::opt_view(d.old_dataset) == json::opt_view(e.new_dataset),
        json::opt_view(d.new_dataset) == json::opt_view(e.old_dataset),
        json::opt_view(d.old_cdm_hash) == json::opt_view(e.new_cdm_hash),
        json::opt_view(d.new_cdm_hash) == json::opt_view(e.old_cdm_hash),
        json::opt_view(d.old_version) == json::opt_view(e.new_version),
        json::opt_view(d.new_version) == json::opt_view(e.old_version),
        text::texts(d.old_errored@) == text::texts(e.new_errored@),
        text::texts(d.new_errored@) == text::texts(e.old_errored@),
{
}

/// The findings of a report are those of its verdict, where it has one that lists any, and else its own.
pub proof fn law_findings_are_those_of_the_verdict(report: JsonView, verdict: JsonView, list: JsonView)
    ensures
        report.at("verdict"@) == Some(verdict) && verdict.at("findings"@) == Some(list) && list.as_list() is Some
            ==> diff::findings_of(report) == list.as_list()->0,
        report.at("verdict"@) is None && report.at("findings"@) == Some(list) && list.as_list() is Some ==> diff::findings_of(
            report,
        ) == list.as_list()->0,
        report.at("verdict"@) is None && report.at("findings"@) is None ==> diff::findings_of(report).len() == 0,
{
}

/// The checks that failed in one report and not in another.
pub proof fn law_newly_failed_checks(s: Seq<Seq<char>>, other: Seq<Seq<char>>, id: Seq<char>)
    ensures
        diff::absent_from(s, other).contains(id) <==> s.contains(id) && !other.contains(id),
    decreases s.len(),
{
    if s.len() > 0 {
        let rest = s.drop_last();
        law_newly_failed_checks(rest, other, id);
        assert(s =~= rest.push(s.last()));
        found::lemma_one_more(rest, s.last(), id);
        found::lemma_one_more(diff::absent_from(rest, other), s.last(), id);
    }
}

// ---- thresholds ------------------------------------------------------------------------------

/// Whether a threshold is kept where it is a finite number, and the usual one otherwise.
pub open spec fn is_kept(now: u64, was: u64, usual: u64) -> bool {
    now == (if number::magnitude(was) < number::INFINITY { was } else { usual })
}

/// Every threshold that is a finite number is kept, every other is the usual one, and those that are
/// times and counts are kept.
pub proof fn law_sanitizing_keeps_what_is_a_number(t: Tolerances)
    ensures
        ({
            let s = tolerances::sanitized(t);
            let d = tolerances::default_tolerances();
            &&& is_kept(s.rate_deviation, t.rate_deviation, d.rate_deviation)
            &&& is_kept(s.gap_factor, t.gap_factor, d.gap_factor)
            &&& is_kept(s.jitter_cv, t.jitter_cv, d.jitter_cv)
            &&& is_kept(s.episode_duration_factor, t.episode_duration_factor, d.episode_duration_factor)
            &&& is_kept(s.saturation_fraction, t.saturation_fraction, d.saturation_fraction)
            &&& is_kept(s.outlier_z, t.outlier_z, d.outlier_z)
            &&& is_kept(s.sequence_drop_fraction, t.sequence_drop_fraction, d.sequence_drop_fraction)
            &&& is_kept(s.ego_max_speed_mps, t.ego_max_speed_mps, d.ego_max_speed_mps)
            &&& is_kept(s.near_duplicate_fraction, t.near_duplicate_fraction, d.near_duplicate_fraction)
            &&& s.clock_skew_ns == t.clock_skew_ns && s.start_offset_ns == t.start_offset_ns && s.end_offset_ns
                == t.end_offset_ns && s.sensor_clock_offset_ns == t.sensor_clock_offset_ns && s.saturation_min_samples
                == t.saturation_min_samples
        }),
{
}

} // verus!
