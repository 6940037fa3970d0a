//! Laws of a run and of what it concludes.

use vstd::prelude::*;

use crate::assoc;
use crate::cdm::{Dataset, ProvenanceClass, ProvenanceElement};
use crate::certificate::coverage;
use crate::certificate::coverage::ProvenanceCoverage;
use crate::check;
use crate::check::{Category, Check, CheckMeta, FindingView};
use crate::engine;
use crate::engine::{CheckRunView, CoverageNote, ErroredCheck, ErroredCheckView, ExecutedCheck, ExecutedCheckView, RunConfig, Verdict};
use crate::laws::found;
use crate::order;
use crate::seqs;
use crate::text;
use crate::tolerances;

verus! {

// ---- selection -------------------------------------------------------------------------------

/// A check runs exactly where its category is among those asked for, if any are, it is among the checks
/// asked for, if any are, and it is not disabled.
pub proof fn law_a_check_runs_unless_left_out(meta: CheckMeta, config: RunConfig)
    ensures
        engine::is_selected(meta, config) <==> {
            &&& config.categories matches Some(c) ==> exists|k: int| 0 <= k < c@.len() && #[trigger] c@[k] == meta.category
            &&& config.only_checks matches Some(c) ==> exists|k: int| 0 <= k < c@.len() && (#[trigger] c@[k])@ == meta.id
            &&& forall|k: int| 0 <= k < config.disabled_checks@.len() ==> (#[trigger] config.disabled_checks@[k])@ != meta.id
        },
{
    if let Some(c) = config.only_checks {
        let t = text::texts(c@);
        assert forall|k: int| 0 <= k < c@.len() implies #[trigger] t[k] == c@[k]@ by {}
        if t.contains(meta.id) {
            let k = choose|k: int| 0 <= k < t.len() && t[k] == meta.id;
            assert(c@[k]@ == meta.id);
        }
        if exists|k: int| 0 <= k < c@.len() && (#[trigger] c@[k])@ == meta.id {
            let k = choose|k: int| 0 <= k < c@.len() && (#[trigger] c@[k])@ == meta.id;
            assert(t[k] == meta.id);
        }
    }
    let d = config.disabled_checks@;
    let t = text::texts(d);
    if t.contains(meta.id) {
        let k = choose|k: int| 0 <= k < t.len() && t[k] == meta.id;
        assert(d[k]@ == meta.id);
    } else {
        assert forall|k: int| 0 <= k < d.len() implies (#[trigger] d[k])@ != meta.id by {
            assert(t[k] == d[k]@);
        }
    }
}

/// Nothing is run twice or in between: as many checks run as are selected.
pub proof fn law_each_selected_check_runs_once<C: Check>(
    checks: Seq<C>,
    dataset: &Dataset,
    config: RunConfig,
    frames_read: bool,
    attested: Seq<Seq<char>>,
)
    ensures
        engine::runs_of(checks, dataset, config, frames_read, attested).len() == checks.filter(
            |c: C| engine::is_selected(c.meta(), config),
        ).len(),
    decreases checks.len(),
{
    reveal(Seq::filter);
    if checks.len() > 0 {
        law_each_selected_check_runs_once(checks.drop_last(), dataset, config, frames_read, attested);
    }
}

// ---- what a verdict holds --------------------------------------------------------------------

/// What a sorted list holds.
proof fn lemma_sorted_holds<A>(s: Seq<A>, lt: spec_fn(A, A) -> bool, x: A)
    ensures
        seqs::sorted(s, lt).contains(x) <==> s.contains(x),
{
    broadcast use vstd::seq_lib::group_to_multiset_ensures;

    let t = seqs::sorted(s, lt);
    seqs::lemma_sorted_multiset(s, lt);
    assert(t.contains(x) <==> t.to_multiset().count(x) > 0);
    assert(s.contains(x) <==> s.to_multiset().count(x) > 0);
}

/// Whether a finding is one of a run: as the check found it, but for the severity that is set for it.
pub open spec fn is_of_run(config: RunConfig, r: CheckRunView, f: FindingView) -> bool {
    r.outcome matches Ok(list) && exists|k: int| 0 <= k < list.len() && is_as_set(config, r.meta.id, #[trigger] list[k], f)
}

/// Whether a finding is another with the severity that is set for its check: that of the last setting, or
/// its own where there is none.
pub open spec fn is_as_set(config: RunConfig, id: Seq<char>, g: FindingView, f: FindingView) -> bool {
    match assoc::last_value(assoc::pairs(config.severity_overrides@), id) {
        Some(severity) => f == (FindingView { severity, ..g }),
        None => f == g,
    }
}

/// The findings of runs.
#[verifier::rlimit(40)]
proof fn lemma_run_findings(config: RunConfig, runs: Seq<CheckRunView>, f: FindingView)
    ensures
        engine::run_findings(config, runs).contains(f) <==> exists|k: int|
            0 <= k < runs.len() && is_of_run(config, #[trigger] runs[k], f),
    decreases runs.len(),
{
    if runs.len() > 0 {
        let rest = runs.drop_last();
        let n = runs.len() - 1;
        let r = runs.last();
        lemma_run_findings(config, rest, f);
        assoc::law_last_pair_wins(assoc::pairs(config.severity_overrides@), r.meta.id);
        if let Ok(list) = r.outcome {
            let new = engine::all_with_severity(list, engine::override_for(config, r.meta.id));
            found::lemma_both(engine::run_findings(config, rest), new, f);
            if new.contains(f) {
                let k = choose|k: int| 0 <= k < new.len() && new[k] == f;
                assert(is_as_set(config, r.meta.id, list[k], f));
            }
            if is_of_run(config, r, f) {
                let k = choose|k: int| 0 <= k < list.len() && is_as_set(config, r.meta.id, #[trigger] list[k], f);
                assert(new[k] == f);
            }
        }
        assert(runs[n] == r);
        assert forall|j: int| 0 <= j < n implies #[trigger] runs[j] == rest[j] by {}
        if engine::run_findings(config, rest).contains(f) {
            let k = choose|k: int| 0 <= k < rest.len() && is_of_run(config, #[trigger] rest[k], f);
            assert(runs[k] == rest[k]);
        }
    }
}

/// A verdict holds every finding of every check that ran, with the severity that is set for it, what is
/// disclosed of how much was read and of how the run was narrowed, and nothing else.
pub proof fn law_a_verdict_holds_what_was_found(
    v: Verdict,
    hash: Seq<u8>,
    note: CoverageNote,
    config: RunConfig,
    runs: Seq<CheckRunView>,
    registered: nat,
    f: FindingView,
)
    requires
        engine::concludes(v, hash, note, config, runs, registered),
    ensures
        check::views(v.findings@).contains(f) <==> {
            ||| exists|k: int| 0 <= k < runs.len() && is_of_run(config, #[trigger] runs[k], f)
            ||| engine::coverage_findings(note).contains(f)
            ||| engine::scope_findings(
                config,
                runs.len(),
                registered,
                engine::overridden(config, runs),
                tolerances::loosened(config.tolerances),
            ).contains(f)
        },
{
    let a = engine::coverage_findings(note);
    let b = engine::run_findings(config, runs);
    let c = engine::scope_findings(
        config,
        runs.len(),
        registered,
        engine::overridden(config, runs),
        tolerances::loosened(config.tolerances),
    );
    lemma_sorted_holds(engine::all_findings(note, config, runs, registered), check::finding_order(), f);
    found::lemma_both(a, b, f);
    found::lemma_both(a + b, c, f);
    lemma_run_findings(config, runs, f);
}

/// The checks that failed.
proof fn lemma_errored(runs: Seq<CheckRunView>, x: ErroredCheckView)
    ensures
        engine::errored(runs).contains(x) <==> exists|k: int|
            0 <= k < runs.len() && (#[trigger] runs[k]).meta.id == x.check_id && runs[k].meta.version == x.version && (
            runs[k].outcome matches Err(m) && m == x.message),
    decreases runs.len(),
{
    if runs.len() > 0 {
        let rest = runs.drop_last();
        let n = runs.len() - 1;
        let r = runs.last();
        lemma_errored(rest, x);
        if let Err(message) = r.outcome {
            found::lemma_one_more(
                engine::errored(rest),
                ErroredCheckView { check_id: r.meta.id, version: r.meta.version, message },
                x,
            );
        }
        assert(runs[n] == r);
        assert forall|j: int| 0 <= j < n implies #[trigger] runs[j] == rest[j] by {}
        if engine::errored(rest).contains(x) {
            let k = choose|k: int|
                0 <= k < rest.len() && (#[trigger] rest[k]).meta.id == x.check_id && rest[k].meta.version == x.version && (
                rest[k].outcome matches Err(m) && m == x.message);
            assert(runs[k] == rest[k]);
        }
    }
}

/// A verdict lists every check that ran, and every one that failed with what it said.
pub proof fn law_a_verdict_lists_what_ran(
    v: Verdict,
    hash: Seq<u8>,
    note: CoverageNote,
    config: RunConfig,
    runs: Seq<CheckRunView>,
    registered: nat,
    x: ExecutedCheckView,
    y: ErroredCheckView,
)
    requires
        engine::concludes(v, hash, note, config, runs, registered),
    ensures
        order::views(v.executed_checks@).contains(x) <==> exists|k: int|
            0 <= k < runs.len() && (#[trigger] runs[k]).meta.id == x.check_id && runs[k].meta.version == x.version
                && runs[k].meta.category == x.category,
        v.executed_checks@.len() == runs.len(),
        order::views(v.errored_checks@).contains(y) <==> exists|k: int|
            0 <= k < runs.len() && (#[trigger] runs[k]).meta.id == y.check_id && runs[k].meta.version == y.version && (
            runs[k].outcome matches Err(m) && m == y.message),
{
    let all = engine::executed(runs);
    lemma_sorted_holds(all, order::label_order::<ExecutedCheck>(), x);
    lemma_sorted_holds(engine::errored(runs), order::label_order::<ErroredCheck>(), y);
    lemma_errored(runs, y);
    seqs::lemma_sorted_multiset(all, order::label_order::<ExecutedCheck>());
    assert(order::views(v.executed_checks@).len() == all.len());
    if all.contains(x) {
        let k = choose|k: int| 0 <= k < all.len() && all[k] == x;
        assert(runs[k].meta.id == x.check_id);
    }
    if exists|k: int|
        0 <= k < runs.len() && (#[trigger] runs[k]).meta.id == x.check_id && runs[k].meta.version == x.version
            && runs[k].meta.category == x.category {
        let k = choose|k: int|
            0 <= k < runs.len() && (#[trigger] runs[k]).meta.id == x.check_id && runs[k].meta.version == x.version
                && runs[k].meta.category == x.category;
        assert(all[k] == x);
    }
}

/// A severity is said to be overridden exactly where one is set for a check that ran.
pub proof fn law_overrides_of_what_ran_count(config: RunConfig, runs: Seq<CheckRunView>)
    ensures
        engine::overridden(config, runs) > 0 <==> exists|k: int|
            0 <= k < runs.len() && assoc::last_value(
                assoc::pairs(config.severity_overrides@),
                (#[trigger] runs[k]).meta.id,
            ) is Some,
    decreases runs.len(),
{
    if runs.len() > 0 {
        let rest = runs.drop_last();
        let n = runs.len() - 1;
        law_overrides_of_what_ran_count(config, rest);
        assoc::law_last_pair_wins(assoc::pairs(config.severity_overrides@), runs.last().meta.id);
        assert(runs[n] == runs.last());
        assert forall|j: int| 0 <= j < n implies #[trigger] runs[j] == rest[j] by {}
        if engine::overridden(config, rest) > 0 {
            let k = choose|k: int|
                0 <= k < rest.len() && assoc::last_value(
                    assoc::pairs(config.severity_overrides@),
                    (#[trigger] rest[k]).meta.id,
                ) is Some;
            assert(runs[k] == rest[k]);
        }
    }
}

/// A category is finished exactly where a check of it ran that did not fail.
pub proof fn law_finished_categories(ran: Seq<ExecutedCheckView>, failed: Seq<ErroredCheckView>, c: Category)
    ensures
        engine::finished(ran, failed).contains(c) <==> exists|k: int|
            0 <= k < ran.len() && (#[trigger] ran[k]).category == c && forall|i: int|
                0 <= i < failed.len() ==> (#[trigger] failed[i]).check_id != ran[k].check_id,
    decreases ran.len(),
{
    if ran.len() > 0 {
        let rest = ran.drop_last();
        let n = ran.len() - 1;
        law_finished_categories(rest, failed, c);
        found::lemma_one_more(engine::finished(rest, failed), ran.last().category, c);
        assert(ran[n] == ran.last());
        assert forall|j: int| 0 <= j < n implies #[trigger] ran[j] == rest[j] by {}
        if engine::finished(rest, failed).contains(c) {
            let k = choose|k: int|
                0 <= k < rest.len() && (#[trigger] rest[k]).category == c && forall|i: int|
                    0 <= i < failed.len() ==> (#[trigger] failed[i]).check_id != rest[k].check_id;
            assert(ran[k] == rest[k]);
        }
    }
}

// ---- coverage --------------------------------------------------------------------------------

/// Whether an element of a key says something, and is of a class.
pub open spec fn is_said(s: Seq<ProvenanceElement>, key: Seq<char>, class: ProvenanceClass) -> bool {
    exists|k: int|
        0 <= k < s.len() && (#[trigger] s[k]).key@ == key && s[k].class == class && s[k].value is Some && !s[k].placeholder
}

/// Whether something is said of a key.
proof fn lemma_said(s: Seq<ProvenanceElement>, key: Seq<char>, class: ProvenanceClass)
    ensures
        coverage::has_class(s, key, class) <==> is_said(s, key, class),
    decreases s.len(),
{
    if s.len() > 0 {
        let rest = s.drop_last();
        let n = s.len() - 1;
        lemma_said(rest, key, class);
        assert(s[n] == s.last());
        assert forall|j: int| 0 <= j < n implies #[trigger] s[j] == rest[j] by {}
        if is_said(rest, key, class) {
            let k = choose|k: int|
                0 <= k < rest.len() && (#[trigger] rest[k]).key@ == key && rest[k].class == class && rest[k].value is Some
                    && !rest[k].placeholder;
            assert(s[k] == rest[k]);
        }
    }
}

/// A key is known where something known is said of it, asserted where something asserted is or it is
/// attested, and nothing known is said, and unknown otherwise.
pub proof fn law_the_strongest_class_counts(s: Seq<ProvenanceElement>, attested: Seq<Seq<char>>, key: Seq<char>)
    ensures
        coverage::strongest(s, attested, key) is Known <==> is_said(s, key, ProvenanceClass::Known),
        coverage::strongest(s, attested, key) is Asserted <==> !is_said(s, key, ProvenanceClass::Known) && (is_said(
            s,
            key,
            ProvenanceClass::Asserted,
        ) || attested.contains(key)),
{
    lemma_said(s, key, ProvenanceClass::Known);
    lemma_said(s, key, ProvenanceClass::Asserted);
}

/// One where it holds, none where it does not.
pub open spec fn one_if(b: bool) -> int {
    if b { 1 } else { 0 }
}

/// The keys that are expected.
proof fn lemma_expected()
    ensures
        coverage::expected_keys() == seq!["license"@, "sensor"@, "clock"@, "calibration"@, "annotator"@, "upstream"@],
{
    assert(coverage::expected_keys() =~= seq!["license"@, "sensor"@, "clock"@, "calibration"@, "annotator"@, "upstream"@]);
}

/// How many of the six things that are expected are of a class: licence, sensor, clock, calibration,
/// annotator and upstream, each once.
pub open spec fn how_many(s: Seq<ProvenanceElement>, attested: Seq<Seq<char>>, class: ProvenanceClass) -> int {
    one_if(coverage::strongest(s, attested, "license"@) == class) + one_if(
        coverage::strongest(s, attested, "sensor"@) == class,
    ) + one_if(coverage::strongest(s, attested, "clock"@) == class) + one_if(
        coverage::strongest(s, attested, "calibration"@) == class,
    ) + one_if(coverage::strongest(s, attested, "annotator"@) == class) + one_if(
        coverage::strongest(s, attested, "upstream"@) == class,
    )
}

/// Coverage counts the six things that are expected, each once, under its strongest class.
pub proof fn law_coverage_counts_what_is_expected(c: ProvenanceCoverage, s: Seq<ProvenanceElement>, attested: Seq<Seq<char>>)
    requires
        coverage::covers(c, s, attested),
    ensures
        c.known == how_many(s, attested, ProvenanceClass::Known),
        c.asserted == how_many(s, attested, ProvenanceClass::Asserted),
        c.unknown == how_many(s, attested, ProvenanceClass::Unknown),
{
    lemma_expected();
    lemma_six(s, attested, ProvenanceClass::Known);
    lemma_six(s, attested, ProvenanceClass::Asserted);
    lemma_six(s, attested, ProvenanceClass::Unknown);
}

/// The count over six keys.
proof fn lemma_six(s: Seq<ProvenanceElement>, attested: Seq<Seq<char>>, class: ProvenanceClass)
    ensures
        ({
            let k = seq!["license"@, "sensor"@, "clock"@, "calibration"@, "annotator"@, "upstream"@];
            coverage::class_count(s, attested, k, class) == how_many(s, attested, class)
        }),
{
    let k = seq!["license"@, "sensor"@, "clock"@, "calibration"@, "annotator"@, "upstream"@];
    let k5 = k.drop_last();
    let k4 = k5.drop_last();
    let k3 = k4.drop_last();
    let k2 = k3.drop_last();
    let k1 = k2.drop_last();
    let k0 = k1.drop_last();
    assert(k0.len() == 0);
    assert(coverage::class_count(s, attested, k0, class) == 0);
    assert(k1.last() == k[0] && k2.last() == k[1] && k3.last() == k[2] && k4.last() == k[3] && k5.last() == k[4] && k.last() == k[5]);
    assert(coverage::class_count(s, attested, k1, class) == one_if(coverage::strongest(s, attested, k[0]) == class));
    assert(coverage::class_count(s, attested, k2, class) == coverage::class_count(s, attested, k1, class) + one_if(
        coverage::strongest(s, attested, k[1]) == class,
    ));
    assert(coverage::class_count(s, attested, k3, class) == coverage::class_count(s, attested, k2, class) + one_if(
        coverage::strongest(s, attested, k[2]) == class,
    ));
    assert(coverage::class_count(s, attested, k4, class) == coverage::class_count(s, attested, k3, class) + one_if(
        coverage::strongest(s, attested, k[3]) == class,
    ));
    assert(coverage::class_count(s, attested, k5, class) == coverage::class_count(s, attested, k4, class) + one_if(
        coverage::strongest(s, attested, k[4]) == class,
    ));
}

} // verus!
