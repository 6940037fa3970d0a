//! The end-to-end check pipeline: validate → score, over a dataset that has been ingested.
//!
//! Verdicts and certificates must be identical whichever front end produced them. The way to guarantee
//! that is to have exactly one implementation of it, which every front end calls.

use vstd::prelude::*;

use crate::arrange;
use crate::cdm::Dataset;
use crate::certificate::coverage;
use crate::certificate::coverage::ProvenanceCoverage;
use crate::certificate::score;
use crate::certificate::score::TrustScore;
use crate::check;
use crate::check::{Check, CheckContext};
use crate::checks::provenance;
use crate::checks::standard;
use crate::checks::standard::{default_engine_with, StandardCheck};
use crate::engine;
use crate::engine::{conclude, context_for, AppliedAttestation, CheckRun, CheckRunView, CoverageNote, Engine, RunConfig, Verdict};
use crate::order;
use crate::text;
use crate::text::copy_texts;
use crate::tolerances;

verus! {

/// The result of a full check: the dataset in canonical order, the verdict on it and its trust score.
#[derive(Debug)]
pub struct CheckOutput {
    /// The dataset, in canonical order.
    pub dataset: Dataset,
    /// The validation verdict.
    pub verdict: Verdict,
    /// The trust score.
    pub trust: TrustScore,
}

/// A configuration with its tolerances sanitized: a non-finite value would silently disable the checks
/// that guard on it and break certificate round-tripping.
pub open spec fn sanitized(c: RunConfig) -> RunConfig {
    RunConfig { tolerances: tolerances::sanitized(c.tolerances), ..c }
}

/// A dataset and a configuration as the checks get them.
#[derive(Debug)]
pub struct Prepared {
    /// The dataset, in canonical order.
    pub dataset: Dataset,
    /// The configuration, with finite tolerances.
    pub config: RunConfig,
}

/// Puts a dataset in canonical order, and its configuration in a form that the checks can rely on.
pub fn prepare(dataset: Dataset, run_config: RunConfig) -> (r: Prepared)
    ensures
        arrange::is_arranged(r.dataset, dataset),
        r.config == sanitized(run_config),
{
    Prepared {
        dataset: dataset.canonicalize_order(),
        config: RunConfig {
            categories: run_config.categories,
            only_checks: run_config.only_checks,
            disabled_checks: run_config.disabled_checks,
            severity_overrides: run_config.severity_overrides,
            tolerances: run_config.tolerances.finite_or_default(),
        },
    }
}

/// Whether an output is that of runs of checks on a dataset: the verdict is what the runs add up to,
/// and the score follows from it and from the provenance that the dataset carries and a producer
/// attests.
#[verifier::opaque]
pub open spec fn settles(
    r: CheckOutput,
    cdm_hash: Seq<u8>,
    config: RunConfig,
    note: CoverageNote,
    runs: Seq<CheckRunView>,
    registered: nat,
    attested: Seq<Seq<char>>,
    covered: ProvenanceCoverage,
) -> bool {
    &&& engine::concludes(r.verdict, cdm_hash, note, config, runs, registered)
    &&& coverage::covers(covered, provenance::all_elements(r.dataset.provenance@), attested)
    &&& r.trust@ == score::rubric(check::views(r.verdict.findings@), r.verdict.errored_checks@.len(), covered)
}

/// Sums up the runs of checks on a prepared dataset, and scores it.
pub fn assemble(
    prepared: Prepared,
    cdm_hash: &[u8],
    note: CoverageNote,
    runs: Vec<CheckRun>,
    registered: usize,
    attestation: Option<&AppliedAttestation>,
) -> (r: CheckOutput)
    ensures
        r.dataset == prepared.dataset,
        exists|covered: ProvenanceCoverage| #[trigger]
            settles(
                r,
                cdm_hash@,
                prepared.config,
                note,
                order::views(runs@),
                registered as nat,
                engine::attested_keys(attestation),
                covered,
            ),
{
    let verdict: Verdict = conclude(cdm_hash, &prepared.config, note, runs, registered);
    let keys: Vec<String> = match attestation {
        Some(a) => copy_texts(&a.keys),
        None => Vec::new(),
    };
    assert(text::texts(keys@) =~= engine::attested_keys(attestation));
    let covered: ProvenanceCoverage = ProvenanceCoverage::of_with_attested(&prepared.dataset, &keys);
    proof {
        coverage::law_coverage_adds_up(
            covered,
            provenance::all_elements(prepared.dataset.provenance@),
            engine::attested_keys(attestation),
        );
    }
    let trust: TrustScore = score::score(&verdict, &covered);
    let out: CheckOutput = CheckOutput { dataset: prepared.dataset, verdict, trust };
    assert(settles(
        out,
        cdm_hash@,
        prepared.config,
        note,
        order::views(runs@),
        registered as nat,
        engine::attested_keys(attestation),
        covered,
    )) by {
        reveal(settles);
    }
    out
}

/// Runs the checks of an engine on a prepared dataset, and scores it.
fn judge<C: Check>(
    engine: &Engine<C>,
    prepared: Prepared,
    cdm_hash: &[u8],
    note: CoverageNote,
    attestation: Option<&AppliedAttestation>,
) -> (r: CheckOutput)
    ensures
        r.dataset == prepared.dataset,
        exists|covered: ProvenanceCoverage| #[trigger]
            settles(
                r,
                cdm_hash@,
                prepared.config,
                note,
                engine::runs_of(
                    engine.checks(),
                    &prepared.dataset,
                    prepared.config,
                    engine::reads_frames(note),
                    engine::attested_keys(attestation),
                ),
                engine.checks().len(),
                engine::attested_keys(attestation),
                covered,
            ),
{
    let context: CheckContext = context_for(&note, attestation);
    let runs: Vec<CheckRun> = engine.run_checks(&prepared.dataset, &prepared.config, &context);
    assemble(prepared, cdm_hash, note, runs, engine.check_count(), attestation)
}

/// What comes of the standard checks on a dataset, under a configuration.
#[verifier::opaque]
pub open spec fn standard_runs(
    dataset: Dataset,
    config: RunConfig,
    note: CoverageNote,
    attested: Seq<Seq<char>>,
) -> Seq<CheckRunView> {
    engine::runs_of(
        standard::standard_list(config.tolerances),
        &dataset,
        config,
        engine::reads_frames(note),
        attested,
    )
}

/// Validate and score a dataset that has already been ingested, whose content hash is `cdm_hash`.
/// `note` says what the ingest actually covered, so a sampled run is never readable as a whole-dataset
/// one. Episodes and streams are put in canonical order first, so that the verdict does not depend on
/// theirs; the content hash does not depend on it either.
///
/// The attestation is a run *input*: it raises provenance coverage, and it does not touch the dataset
/// or its content hash. Verifying it is the caller's job, because only the caller knows which producer
/// key it trusts. The result is nothing only where the standard checks could not be registered, and
/// they always can: their ids are unique.
pub fn check_ingested(
    dataset: Dataset,
    cdm_hash: &[u8],
    run_config: RunConfig,
    note: CoverageNote,
    attestation: Option<&AppliedAttestation>,
) -> (r: Option<CheckOutput>)
    ensures
        r is Some,
        arrange::is_arranged(r->0.dataset, dataset),
        exists|covered: ProvenanceCoverage| #[trigger]
            settles(
                r->0,
                cdm_hash@,
                sanitized(run_config),
                note,
                standard_runs(r->0.dataset, sanitized(run_config), note, engine::attested_keys(attestation)),
                standard::standard_list(sanitized(run_config).tolerances).len(),
                engine::attested_keys(attestation),
                covered,
            ),
{
    let prepared: Prepared = prepare(dataset, run_config);
    let engine: Engine<StandardCheck> = match default_engine_with(&prepared.config.tolerances) {
        Ok(e) => e,
        Err(_) => {
            return None;
        },
    };
    let ghost (d, c) = (prepared.dataset, prepared.config);
    let ghost attested = engine::attested_keys(attestation);
    let out: CheckOutput = judge(&engine, prepared, cdm_hash, note, attestation);
    proof {
        let runs = engine::runs_of(engine.checks(), &d, c, engine::reads_frames(note), attested);
        assert(runs == standard_runs(d, c, note, attested)) by {
            reveal(standard_runs);
        }
        let n = engine.checks().len();
        let covered = choose|covered: ProvenanceCoverage| #[trigger]
            settles(out, cdm_hash@, c, note, runs, n, attested, covered);
        assert(settles(out, cdm_hash@, c, note, standard_runs(d, c, note, attested), n, attested, covered));
    }
    Some(out)
}

} // verus!
