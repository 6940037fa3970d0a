//! The validation engine: runs a registry of [`Check`]s over a CDM and produces a deterministic
//! [`Verdict`].
//!
//! The engine owns registration (with duplicate-id rejection), selection and configuration, and
//! result ordering. It knows nothing about specific checks. Determinism is guaranteed by running
//! checks and then sorting findings into a total order, so the order of execution cannot change the
//! output.

use vstd::prelude::*;
use vstd::string::*;

use crate::assoc;
use crate::assoc::Entry;
use crate::cat::{cat2, cat3, cat5};
use crate::cdm::Dataset;
use crate::check;
use crate::check::{sort_findings, Category, Check, CheckContext, CheckInfo, CheckMeta, Finding, FindingView, Location, LocationView, Severity};
use crate::digest;
use crate::json;
use crate::json::{Json, JsonView};
use crate::order;
use crate::order::{place, sort_texts, Labeled};
use crate::records;
use crate::seqs;
use crate::seqs::put_text;
use crate::text;
use crate::text::{copy_texts, holds, join, same, dec_u64, dec_usize};
use crate::tolerances;
use crate::tolerances::{loosened_tolerances, Tolerances};

verus! {

broadcast use text::lemma_texts_push;

/// The version of this library.
pub const VERSION: &'static str = "0.1.0";

// ---- the registry ----------------------------------------------------------------------------

/// Error raised while assembling the check registry.
#[derive(Debug, PartialEq, Eq)]
pub enum RegistryError {
    /// Two checks share a check id.
    DuplicateId(&'static str),
}

impl RegistryError {
    /// The error as a sentence.
    pub fn message(&self) -> (r: String)
        ensures
            r@ == "duplicate check id: "@ + self->0@,
    {
        match self {
            RegistryError::DuplicateId(id) => cat2("duplicate check id: ", id),
        }
    }
}

/// The ids of checks, in order.
pub open spec fn ids<C: Check>(s: Seq<C>) -> Seq<Seq<char>> {
    s.map_values(|c: C| c.meta().id)
}

/// What checks say about themselves, in order.
pub open spec fn metas<C: Check>(s: Seq<C>) -> Seq<CheckMeta> {
    s.map_values(|c: C| c.meta())
}

/// Builds an [`Engine`], rejecting duplicate check ids.
pub struct EngineBuilder<C: Check> {
    checks: Vec<C>,
}

impl<C: Check> EngineBuilder<C> {
    /// The checks that were registered.
    pub closed spec fn checks(&self) -> Seq<C> {
        self.checks@
    }

    /// Whether no two checks share an id.
    pub open spec fn wf(&self) -> bool {
        ids(self.checks()).no_duplicates()
    }

    /// Register a check. Fails if its id duplicates an already-registered one.
    pub fn register(self, check: C) -> (r: Result<Self, RegistryError>)
        requires
            self.wf(),
        ensures
            match r {
                Ok(b) => b.wf() && b.checks() == self.checks().push(check) && !ids(self.checks()).contains(
                    check.meta().id,
                ),
                Err(RegistryError::DuplicateId(id)) => id@ == check.meta().id && ids(self.checks()).contains(id@),
            },
    {
        let mut this: Self = self;
        let id: &'static str = check.id();
        let ghost before = ids(this.checks@);
        let mut i: usize = 0;
        while i < this.checks.len()
            invariant
                i <= this.checks@.len(),
                this == self,
                id@ == check.meta().id,
                before == ids(this.checks@),
                forall|k: int| 0 <= k < i ==> before[k] != id@,
            decreases this.checks@.len() - i,
        {
            assert(before[i as int] == this.checks@[i as int].meta().id);
            if same(this.checks[i].id(), id) {
                assert(before[i as int] == id@);
                return Err(RegistryError::DuplicateId(id));
            }
            i = i + 1;
        }
        this.checks.push(check);
        assert(ids(this.checks@) =~= before.push(id@));
        Ok(this)
    }

    /// Finish building.
    pub fn build(self) -> (r: Engine<C>)
        requires
            self.wf(),
        ensures
            r.wf(),
            r.checks() == self.checks(),
    {
        Engine { checks: self.checks }
    }
}

/// A registry of checks that can validate a CDM.
pub struct Engine<C: Check> {
    checks: Vec<C>,
}

impl<C: Check> Engine<C> {
    /// The registered checks.
    pub closed spec fn checks(&self) -> Seq<C> {
        self.checks@
    }

    /// Whether no two checks share an id.
    pub open spec fn wf(&self) -> bool {
        ids(self.checks()).no_duplicates()
    }

    /// Start building an engine.
    pub fn builder() -> (r: EngineBuilder<C>)
        ensures
            r.wf(),
            r.checks() == Seq::<C>::empty(),
    {
        let b: EngineBuilder<C> = EngineBuilder { checks: Vec::new() };
        assert(ids(b.checks@) =~= Seq::empty());
        b
    }

    /// Ids of every registered check, in registration order.
    pub fn check_ids(&self) -> (r: Vec<&'static str>)
        ensures
            text::str_texts(r@) == ids(self.checks()),
    {
        let ghost all = ids(self.checks@);
        let mut out: Vec<&'static str> = Vec::new();
        let mut i: usize = 0;
        assert(text::str_texts(out@) =~= all.take(0));
        while i < self.checks.len()
            invariant
                i <= self.checks@.len(),
                all == ids(self.checks@),
                text::str_texts(out@) == all.take(i as int),
            decreases self.checks@.len() - i,
        {
            let ghost was = text::str_texts(out@);
            let id: &'static str = self.checks[i].id();
            out.push(id);
            proof {
                assert(all[i as int] == self.checks@[i as int].meta().id);
                assert(text::str_texts(out@) =~= was.push(id@));
                assert(all.take(i + 1) =~= all.take(i as int).push(all[i as int]));
            }
            i = i + 1;
        }
        assert(all.take(i as int) =~= all);
        out
    }

    /// Static metadata for every registered check, in registration order, without running any of
    /// them.
    pub fn catalog(&self) -> (r: Vec<CheckInfo>)
        ensures
            order::views(r@) == metas(self.checks()),
    {
        let ghost all = metas(self.checks@);
        let mut out: Vec<CheckInfo> = Vec::new();
        let mut i: usize = 0;
        assert(order::views(out@) =~= all.take(0));
        while i < self.checks.len()
            invariant
                i <= self.checks@.len(),
                all == metas(self.checks@),
                order::views(out@) == all.take(i as int),
            decreases self.checks@.len() - i,
        {
            let info: CheckInfo = self.checks[i].info();
            proof {
                order::lemma_views_push(out@, info);
                assert(all[i as int] == self.checks@[i as int].meta());
                assert(all.take(i + 1) =~= all.take(i as int).push(all[i as int]));
            }
            out.push(info);
            i = i + 1;
        }
        assert(all.take(i as int) =~= all);
        out
    }
}

// ---- configuration ---------------------------------------------------------------------------

/// Caller configuration for a run. The lists stand for sets: order and repeats mean nothing. Of two
/// overrides for one check the later counts.
#[derive(Debug)]
pub struct RunConfig {
    /// If set, only checks in these categories run. `None` means all categories.
    pub categories: Option<Vec<Category>>,
    /// If set, only checks with these ids run. `None` means all ids.
    pub only_checks: Option<Vec<String>>,
    /// Checks disabled by id (applied after selection).
    pub disabled_checks: Vec<String>,
    /// Per-check severity overrides, applied to every finding of that check.
    pub severity_overrides: Vec<Entry<Severity>>,
    /// Numeric tolerances for the checks that take one. The engine builds its checks with these.
    pub tolerances: Tolerances,
}

impl Default for RunConfig {
    /// Everything runs, at its declared severity and threshold.
    fn default() -> (r: Self)
        ensures
            r.categories is None,
            r.only_checks is None,
            r.disabled_checks@.len() == 0,
            r.severity_overrides@.len() == 0,
            r.tolerances == tolerances::default_tolerances(),
    {
        RunConfig {
            categories: None,
            only_checks: None,
            disabled_checks: Vec::new(),
            severity_overrides: Vec::new(),
            tolerances: Tolerances::default(),
        }
    }
}

/// The order of categories, as a function.
pub open spec fn category_order() -> spec_fn(Category, Category) -> bool {
    |a: Category, b: Category| a.level() < b.level()
}

/// The distinct categories of a list, in order.
pub open spec fn category_set(s: Seq<Category>) -> Seq<Category> {
    seqs::distinct(s, category_order())
}

/// The tags of categories.
pub open spec fn tags(s: Seq<Category>) -> Seq<Seq<char>> {
    s.map_values(|c: Category| c.spec_tag())
}

/// The effective configuration, snapshotted into the verdict so a run is reproducible from it.
#[derive(Debug)]
pub struct EffectiveConfig {
    /// Selected categories, sorted; `None` means all.
    pub categories: Option<Vec<Category>>,
    /// Selected check ids, sorted; `None` means all.
    pub only_checks: Option<Vec<String>>,
    /// Disabled check ids, sorted.
    pub disabled_checks: Vec<String>,
    /// Severity overrides, id → severity.
    pub severity_overrides: Vec<Entry<Severity>>,
    /// The numeric tolerances the checks ran with.
    pub tolerances: Tolerances,
}

/// What an effective configuration is.
pub struct EffectiveConfigView {
    /// Selected categories.
    pub categories: Option<Seq<Category>>,
    /// Selected check ids.
    pub only_checks: Option<Seq<Seq<char>>>,
    /// Disabled check ids.
    pub disabled_checks: Seq<Seq<char>>,
    /// Severity overrides.
    pub severity_overrides: Seq<(Seq<char>, Severity)>,
    /// The tolerances.
    pub tolerances: Tolerances,
}

impl View for EffectiveConfig {
    type V = EffectiveConfigView;

    open spec fn view(&self) -> EffectiveConfigView {
        EffectiveConfigView {
            categories: match self.categories {
                Some(c) => Some(c@),
                None => None,
            },
            only_checks: match self.only_checks {
                Some(c) => Some(text::texts(c@)),
                None => None,
            },
            disabled_checks: text::texts(self.disabled_checks@),
            severity_overrides: assoc::pairs(self.severity_overrides@),
            tolerances: self.tolerances,
        }
    }
}

/// The effective configuration of a run: its sets in order, and its tolerances finite.
pub open spec fn effective(config: RunConfig) -> EffectiveConfigView {
    EffectiveConfigView {
        categories: match config.categories {
            Some(c) => Some(category_set(c@)),
            None => None,
        },
        only_checks: match config.only_checks {
            Some(c) => Some(seqs::text_set(text::texts(c@))),
            None => None,
        },
        disabled_checks: seqs::text_set(text::texts(config.disabled_checks@)),
        severity_overrides: assoc::collected(assoc::pairs(config.severity_overrides@)),
        tolerances: tolerances::sanitized(config.tolerances),
    }
}

/// Puts a category in its place.
pub fn put_category(list: &mut Vec<Category>, c: Category)
    ensures
        final(list)@ == seqs::with_new(old(list)@, c, category_order()),
{
    let mut i: usize = 0;
    while i < list.len() && list[i].rank() < c.rank()
        invariant
            i <= list@.len(),
            list@ == old(list)@,
            forall|k: int| 0 <= k < i ==> (#[trigger] list@[k]).level() < c.level(),
        decreases list@.len() - i,
    {
        i = i + 1;
    }
    proof {
        seqs::lemma_with_new_at(list@, c, category_order(), i as int);
    }
    if !(i < list.len() && list[i] == c) {
        list.insert(i, c);
    }
}

/// The distinct categories of a list, in order.
pub fn sort_categories(list: &Vec<Category>) -> (r: Vec<Category>)
    ensures
        r@ == category_set(list@),
{
    let mut out: Vec<Category> = Vec::new();
    let mut i: usize = 0;
    while i < list.len()
        invariant
            i <= list@.len(),
            out@ == category_set(list@.take(i as int)),
        decreases list@.len() - i,
    {
        proof {
            assert(list@.take(i + 1) =~= list@.take(i as int).push(list@[i as int]));
            seqs::lemma_distinct_step(list@.take(i as int), category_order(), list@[i as int]);
        }
        put_category(&mut out, list[i]);
        i = i + 1;
    }
    assert(list@.take(i as int) =~= list@);
    out
}

/// The distinct texts of a list, in order.
pub fn distinct_texts(list: &Vec<String>) -> (r: Vec<String>)
    ensures
        text::texts(r@) == seqs::text_set(text::texts(list@)),
{
    let ghost t = text::texts(list@);
    let mut out: Vec<String> = Vec::new();
    let mut i: usize = 0;
    assert(text::texts(out@) =~= Seq::empty());
    while i < list.len()
        invariant
            i <= list@.len(),
            t == text::texts(list@),
            text::texts(out@) == seqs::text_set(t.take(i as int)),
        decreases list@.len() - i,
    {
        proof {
            assert(t[i as int] == list@[i as int]@);
            assert(t.take(i + 1) =~= t.take(i as int).push(t[i as int]));
            seqs::lemma_distinct_step(t.take(i as int), seqs::text_order(), t[i as int]);
        }
        let _new: bool = put_text(&mut out, list[i].as_str());
        i = i + 1;
    }
    assert(t.take(i as int) =~= t);
    out
}

/// The overrides of a list, in order.
pub fn collect_overrides(list: &Vec<Entry<Severity>>) -> (r: Vec<Entry<Severity>>)
    ensures
        assoc::pairs(r@) == assoc::collected(assoc::pairs(list@)),
{
    let ghost p = assoc::pairs(list@);
    let mut out: Vec<Entry<Severity>> = Vec::new();
    let mut i: usize = 0;
    assert(assoc::pairs(out@) =~= Seq::empty());
    while i < list.len()
        invariant
            i <= list@.len(),
            p == assoc::pairs(list@),
            assoc::pairs(out@) == assoc::collected(p.take(i as int)),
        decreases list@.len() - i,
    {
        proof {
            assert(p[i as int] == (list@[i as int].key@, list@[i as int].value));
            assert(p.take(i + 1).drop_last() =~= p.take(i as int));
        }
        assoc::put(&mut out, list[i].key.clone(), list[i].value);
        i = i + 1;
    }
    assert(p.take(i as int) =~= p);
    out
}

impl EffectiveConfig {
    /// The effective configuration of a run.
    pub fn of(config: &RunConfig) -> (r: EffectiveConfig)
        ensures
            r@ == effective(*config),
    {
        EffectiveConfig {
            categories: match &config.categories {
                Some(c) => Some(sort_categories(c)),
                None => None,
            },
            only_checks: match &config.only_checks {
                Some(c) => Some(distinct_texts(c)),
                None => None,
            },
            disabled_checks: distinct_texts(&config.disabled_checks),
            severity_overrides: collect_overrides(&config.severity_overrides),
            tolerances: config.tolerances.clone().finite_or_default(),
        }
    }
}

impl Clone for EffectiveConfig {
    fn clone(&self) -> (r: Self)
        ensures
            r@ == self@,
    {
        EffectiveConfig {
            categories: match &self.categories {
                Some(c) => Some(copy_categories(c)),
                None => None,
            },
            only_checks: match &self.only_checks {
                Some(c) => Some(copy_texts(c)),
                None => None,
            },
            disabled_checks: copy_texts(&self.disabled_checks),
            severity_overrides: copy_overrides(&self.severity_overrides),
            tolerances: self.tolerances.clone(),
        }
    }
}

/// A copy of a list of categories.
pub fn copy_categories(list: &Vec<Category>) -> (r: Vec<Category>)
    ensures
        r@ == list@,
{
    let mut out: Vec<Category> = Vec::new();
    let mut i: usize = 0;
    while i < list.len()
        invariant
            i <= list@.len(),
            out@ == list@.take(i as int),
        decreases list@.len() - i,
    {
        out.push(list[i]);
        i = i + 1;
    }
    assert(list@.take(i as int) =~= list@);
    out
}

/// A copy of a list of overrides.
pub fn copy_overrides(list: &Vec<Entry<Severity>>) -> (r: Vec<Entry<Severity>>)
    ensures
        assoc::pairs(r@) == assoc::pairs(list@),
{
    let ghost p = assoc::pairs(list@);
    let mut out: Vec<Entry<Severity>> = Vec::new();
    let mut i: usize = 0;
    assert(assoc::pairs(out@) =~= p.take(0));
    while i < list.len()
        invariant
            i <= list@.len(),
            p == assoc::pairs(list@),
            assoc::pairs(out@) == p.take(i as int),
        decreases list@.len() - i,
    {
        let ghost was = assoc::pairs(out@);
        let e: Entry<Severity> = Entry { key: list[i].key.clone(), value: list[i].value };
        let ghost v = (e.key@, e.value);
        out.push(e);
        assert(assoc::pairs(out@) =~= was.push(v));
        assert(p.take(i + 1) =~= p.take(i as int).push(v));
        i = i + 1;
    }
    assert(p.take(i as int) =~= p);
    out
}

// ---- coverage --------------------------------------------------------------------------------

/// How much of the source dataset the run actually saw. A partial run is a different verdict from a
/// full one and must not be readable as the same thing.
#[derive(Debug)]
pub enum CoverageNote {
    /// Every episode of the source was ingested.
    Full,
    /// Only a sample was ingested; the verdict speaks for that sample alone.
    Sample {
        /// The sampling request that was honored, in human-readable form.
        request: String,
        /// Number of episodes actually ingested.
        episodes_ingested: u64,
    },
    /// Only the source's manifest was read: every episode is present but none has frames. The
    /// verdict speaks for the declared structure, the stored statistics, and the provenance — and
    /// for nothing that requires the data itself.
    MetadataOnly {
        /// Number of episodes the manifest declared.
        episodes_declared: u64,
    },
}

impl Default for CoverageNote {
    /// Everything was read.
    fn default() -> (r: Self)
        ensures
            r is Full,
    {
        CoverageNote::Full
    }
}

/// Whether a run of some coverage read stream payloads at all.
pub open spec fn reads_frames(coverage: CoverageNote) -> bool {
    !(coverage is MetadataOnly)
}

impl CoverageNote {
    /// Whether the run saw less than the whole dataset.
    pub fn is_partial(&self) -> (r: bool)
        ensures
            r == !(self is Full),
    {
        match self {
            CoverageNote::Full => false,
            _ => true,
        }
    }

    /// Whether stream payloads were read at all. The checks that reason about frames read this and
    /// abstain: with no frames read, "0 frames ingested" is not a finding about the dataset.
    pub fn frames_read(&self) -> (r: bool)
        ensures
            r == !(self is MetadataOnly),
    {
        match self {
            CoverageNote::MetadataOnly { .. } => false,
            _ => true,
        }
    }
}

/// The check id under which a partial run discloses its own scope. It is no registered check, so that
/// configuration cannot disable the disclosure.
pub const COVERAGE_CHECK_ID: &'static str = "veridex.coverage";

/// The code of a sampled run.
pub const SAMPLE_CODE: &'static str = "COVERAGE.SAMPLE";

/// The code of a run over the manifest alone.
pub const METADATA_ONLY_CODE: &'static str = "COVERAGE.METADATA_ONLY";

pub const SAMPLE_RISK: &'static str = "The episodes this run never opened are exactly where an \
     undetected problem would be. A clean result over a sample is not a clean result over the \
     dataset, and read as one it waves through the data it never looked at.";

pub const SAMPLE_REMEDY: &'static str = "Re-run without the sampling flags before treating this as a \
     verdict on the dataset. `veridex certify` refuses a sampled run for the same reason.";

/// What a sampled run discloses about itself.
pub open spec fn sample_finding(request: Seq<char>, episodes: u64) -> FindingView {
    check::finding(
        COVERAGE_CHECK_ID@,
        Category::Structure,
        Severity::Info,
        LocationView::Dataset,
        SAMPLE_CODE@,
        "this run read a sample of the dataset ("@ + request + "; "@ + text::dec(episodes as nat)
            + " episode(s) ingested), so every result below speaks for those episodes alone"@,
        SAMPLE_RISK@,
        SAMPLE_REMEDY@,
    )
}

/// What a sampled run discloses about itself.
fn make_sample(request: &str, episodes: u64) -> (r: Finding)
    ensures
        r@ == sample_finding(request@, episodes),
{
    let message: String = cat5(
        "this run read a sample of the dataset (",
        request,
        "; ",
        dec_u64(episodes).as_str(),
        " episode(s) ingested), so every result below speaks for those episodes alone",
    );
    Finding::new(COVERAGE_CHECK_ID, Category::Structure, Severity::Info, Location::Dataset, SAMPLE_CODE, message).with_risk(
        SAMPLE_RISK,
    ).with_remedy(SAMPLE_REMEDY)
}

pub const METADATA_ONLY_RISK: &'static str = "The checks that need the data — every temporal check, \
     every recomputed statistic, the duplicate, stuck-stream, and video checks — had nothing to \
     measure and produced nothing. Their silence is the shape of the request, not evidence about \
     the dataset.";

pub const METADATA_ONLY_REMEDY: &'static str = "Re-run without --metadata-only before treating this \
     as a verdict on the data. `veridex certify` refuses a metadata-only run for the same reason.";

/// What a run over the manifest alone discloses about itself.
pub open spec fn metadata_only_finding(episodes: u64) -> FindingView {
    check::finding(
        COVERAGE_CHECK_ID@,
        Category::Structure,
        Severity::Info,
        LocationView::Dataset,
        METADATA_ONLY_CODE@,
        "this run read only the dataset's manifest ("@ + text::dec(episodes as nat)
            + " episode(s) declared); no stream payload was opened, so no timestamp, value, content hash, or media header was examined"@,
        METADATA_ONLY_RISK@,
        METADATA_ONLY_REMEDY@,
    )
}

/// What a run over the manifest alone discloses about itself.
fn make_metadata_only(episodes: u64) -> (r: Finding)
    ensures
        r@ == metadata_only_finding(episodes),
{
    let message: String = cat3(
        "this run read only the dataset's manifest (",
        dec_u64(episodes).as_str(),
        " episode(s) declared); no stream payload was opened, so no timestamp, value, content hash, or media header was examined",
    );
    Finding::new(COVERAGE_CHECK_ID, Category::Structure, Severity::Info, Location::Dataset, METADATA_ONLY_CODE, message).with_risk(
        METADATA_ONLY_RISK,
    ).with_remedy(METADATA_ONLY_REMEDY)
}

/// What a partial run discloses about itself; nothing for a full run.
pub open spec fn coverage_findings(coverage: CoverageNote) -> Seq<FindingView> {
    match coverage {
        CoverageNote::Full => Seq::empty(),
        CoverageNote::Sample { request, episodes_ingested } => seq![sample_finding(request@, episodes_ingested)],
        CoverageNote::MetadataOnly { episodes_declared } => seq![metadata_only_finding(episodes_declared)],
    }
}

/// The finding a partial run discloses about itself, or `None` for a full run.
fn coverage_finding(coverage: &CoverageNote) -> (r: Option<Finding>)
    ensures
        match r {
            Some(f) => coverage_findings(*coverage) == seq![f@],
            None => coverage_findings(*coverage) == Seq::<FindingView>::empty(),
        },
{
    match coverage {
        CoverageNote::Full => None,
        CoverageNote::Sample { request, episodes_ingested } => Some(make_sample(request.as_str(), *episodes_ingested)),
        CoverageNote::MetadataOnly { episodes_declared } => Some(make_metadata_only(*episodes_declared)),
    }
}

// ---- scope -----------------------------------------------------------------------------------

/// The check id under which a narrowed run discloses its own scope. It is no registered check, so
/// that configuration cannot switch off the disclosure that configuration was narrowed.
pub const SCOPE_CHECK_ID: &'static str = "veridex.scope";

/// The code of a narrowed run.
pub const NARROWED_CODE: &'static str = "SCOPE.NARROWED";

pub const NARROWED_RISK: &'static str = "The checks that did not run produced nothing, a check whose \
     severity was lowered produced something quieter than its author intended, and a check \
     measured against a moved threshold passed data the default would have failed. None of those \
     silences is evidence about the data. A clean result here is a clean result within this \
     selection, and read as a verdict on the dataset it waves through everything outside it.";

pub const NARROWED_REMEDY: &'static str = "Re-run with the default catalog before treating this as a \
     verdict on the dataset, or keep the narrowing and read the result as scoped to it. Compare \
     only against runs made under the same selection — `veridex diff --fail-on-regression` now \
     treats a change in scope as a regression for this reason.";

/// What a narrowed run discloses about itself.
pub open spec fn narrowed_finding(clauses: Seq<char>) -> FindingView {
    check::finding(
        SCOPE_CHECK_ID@,
        Category::Structure,
        Severity::Info,
        LocationView::Dataset,
        NARROWED_CODE@,
        "this run did not apply the full check catalog at its declared thresholds ("@ + clauses
            + "), so every result below speaks for the narrowed scope alone"@,
        NARROWED_RISK@,
        NARROWED_REMEDY@,
    )
}

/// What a narrowed run discloses about itself.
fn make_narrowed(clauses: &str) -> (r: Finding)
    ensures
        r@ == narrowed_finding(clauses@),
{
    let message: String = cat3(
        "this run did not apply the full check catalog at its declared thresholds (",
        clauses,
        "), so every result below speaks for the narrowed scope alone",
    );
    Finding::new(SCOPE_CHECK_ID, Category::Structure, Severity::Info, Location::Dataset, NARROWED_CODE, message).with_risk(
        NARROWED_RISK,
    ).with_remedy(NARROWED_REMEDY)
}

/// A text, once, where a condition holds.
pub open spec fn clause_if(holds: bool, clause: Seq<char>) -> Seq<Seq<char>> {
    if holds { seq![clause] } else { Seq::empty() }
}

/// Which categories a run is limited to.
pub open spec fn categories_clause(categories: Seq<Category>) -> Seq<char> {
    if categories.len() == 0 {
        "categories limited to none"@
    } else {
        "categories limited to "@ + text::joined(seqs::text_set(tags(categories)), ", "@)
    }
}

/// An override as a text.
pub open spec fn override_text(p: (Seq<char>, Severity)) -> Seq<char> {
    p.0 + " -> "@ + p.1.spec_tag()
}

/// Overrides as texts.
pub open spec fn override_texts(s: Seq<(Seq<char>, Severity)>) -> Seq<Seq<char>> {
    s.map_values(|p: (Seq<char>, Severity)| override_text(p))
}

/// The ways in which a run departs from the whole catalog.
pub open spec fn scope_clauses(
    config: RunConfig,
    executed: nat,
    registered: nat,
    overridden: nat,
    loosened: Seq<Seq<char>>,
) -> Seq<Seq<char>> {
    let fewer = executed < registered;
    clause_if(fewer, text::dec(executed) + " of "@ + text::dec(registered) + " catalog checks ran"@) + (match config.categories {
        Some(c) => clause_if(fewer, categories_clause(c@)),
        None => Seq::empty(),
    }) + (match config.only_checks {
        Some(c) => clause_if(fewer, "only_checks = "@ + text::joined(seqs::text_set(text::texts(c@)), ", "@)),
        None => Seq::empty(),
    }) + clause_if(
        fewer && config.disabled_checks@.len() > 0,
        "disabled = "@ + text::joined(seqs::text_set(text::texts(config.disabled_checks@)), ", "@),
    ) + clause_if(
        overridden > 0,
        "severity overridden: "@ + text::joined(
            seqs::sorted(
                override_texts(assoc::collected(assoc::pairs(config.severity_overrides@))),
                seqs::text_order(),
            ),
            ", "@,
        ),
    ) + clause_if(loosened.len() > 0, "thresholds loosened: "@ + text::joined(loosened, ", "@))
}

/// What a narrowed run discloses about itself; nothing where the full catalog ran at its declared
/// severities and thresholds. Only a threshold moved to be looser narrows a run: a tightened one can
/// only lower the score.
pub open spec fn scope_findings(
    config: RunConfig,
    executed: nat,
    registered: nat,
    overridden: nat,
    loosened: Seq<Seq<char>>,
) -> Seq<FindingView> {
    if executed == registered && overridden == 0 && loosened.len() == 0 {
        Seq::empty()
    } else {
        seq![narrowed_finding(text::joined(scope_clauses(config, executed, registered, overridden, loosened), "; "@))]
    }
}

/// Which categories a run is limited to.
fn describe_categories(categories: &Vec<Category>) -> (r: String)
    ensures
        r@ == categories_clause(categories@),
{
    if categories.len() == 0 {
        return String::from_str("categories limited to none");
    }
    let ghost t = tags(categories@);
    let mut names: Vec<String> = Vec::new();
    let mut i: usize = 0;
    assert(text::texts(names@) =~= Seq::empty());
    while i < categories.len()
        invariant
            i <= categories@.len(),
            t == tags(categories@),
            text::texts(names@) == seqs::text_set(t.take(i as int)),
        decreases categories@.len() - i,
    {
        proof {
            assert(t[i as int] == categories@[i as int].spec_tag());
            assert(t.take(i + 1) =~= t.take(i as int).push(t[i as int]));
            seqs::lemma_distinct_step(t.take(i as int), seqs::text_order(), t[i as int]);
        }
        let _new: bool = put_text(&mut names, categories[i].tag());
        i = i + 1;
    }
    assert(t.take(i as int) =~= t);
    cat2("categories limited to ", join(&names, ", ").as_str())
}

/// Overrides as texts.
pub fn describe_overrides(list: &Vec<Entry<Severity>>) -> (r: Vec<String>)
    ensures
        text::texts(r@) == override_texts(assoc::pairs(list@)),
{
    let ghost o = override_texts(assoc::pairs(list@));
    let mut out: Vec<String> = Vec::new();
    let mut i: usize = 0;
    assert(text::texts(out@) =~= o.take(0));
    while i < list.len()
        invariant
            i <= list@.len(),
            o == override_texts(assoc::pairs(list@)),
            text::texts(out@) == o.take(i as int),
        decreases list@.len() - i,
    {
        out.push(cat3(list[i].key.as_str(), " -> ", list[i].value.tag()));
        proof {
            assert(assoc::pairs(list@)[i as int] == (list@[i as int].key@, list@[i as int].value));
            assert(o.take(i + 1) =~= o.take(i as int).push(o[i as int]));
        }
        i = i + 1;
    }
    assert(o.take(i as int) =~= o);
    out
}

/// The finding a narrowed run discloses about itself, or `None` where nothing was narrowed.
fn scope_finding(
    config: &RunConfig,
    overrides: &Vec<Entry<Severity>>,
    executed: usize,
    registered: usize,
    overridden: usize,
    loosened: &Vec<String>,
) -> (r: Option<Finding>)
    requires
        assoc::pairs(overrides@) == assoc::collected(assoc::pairs(config.severity_overrides@)),
    ensures
        match r {
            Some(f) => scope_findings(
                *config,
                executed as nat,
                registered as nat,
                overridden as nat,
                text::texts(loosened@),
            ) == seq![f@],
            None => scope_findings(
                *config,
                executed as nat,
                registered as nat,
                overridden as nat,
                text::texts(loosened@),
            ) == Seq::<FindingView>::empty(),
        },
{
    let ghost all = scope_clauses(
        *config,
        executed as nat,
        registered as nat,
        overridden as nat,
        text::texts(loosened@),
    );
    assert(text::texts(loosened@).len() == loosened@.len());
    if executed == registered && overridden == 0 && loosened.len() == 0 {
        return None;
    }
    let mut clauses: Vec<String> = Vec::new();
    assert(text::texts(clauses@) =~= Seq::empty());
    if executed < registered {
        clauses.push(cat3(dec_usize(executed).as_str(), " of ", cat2(dec_usize(registered).as_str(), " catalog checks ran").as_str()));
        proof {
            let (a, b) = (text::dec(executed as nat), text::dec(registered as nat));
            assert(a + " of "@ + (b + " catalog checks ran"@) =~= a + " of "@ + b + " catalog checks ran"@);
        }
        if let Some(c) = &config.categories {
            clauses.push(describe_categories(c));
        }
        if let Some(c) = &config.only_checks {
            clauses.push(cat2("only_checks = ", join(&distinct_texts(c), ", ").as_str()));
        }
        if config.disabled_checks.len() > 0 {
            clauses.push(cat2("disabled = ", join(&distinct_texts(&config.disabled_checks), ", ").as_str()));
        }
    }
    if overridden > 0 {
        let pairs: Vec<String> = sort_texts(&describe_overrides(overrides));
        clauses.push(cat2("severity overridden: ", join(&pairs, ", ").as_str()));
    }
    if loosened.len() > 0 {
        clauses.push(cat2("thresholds loosened: ", join(loosened, ", ").as_str()));
    }
    assert(text::texts(clauses@) =~= all);
    Some(make_narrowed(join(&clauses, "; ").as_str()))
}

// ---- runs ------------------------------------------------------------------------------------

/// Whether a check runs under a configuration: category filter, id allow-list, then disable-list.
pub open spec fn is_selected(meta: CheckMeta, config: RunConfig) -> bool {
    &&& match config.categories {
        Some(c) => c@.contains(meta.category),
        None => true,
    }
    &&& match config.only_checks {
        Some(c) => text::texts(c@).contains(meta.id),
        None => true,
    }
    &&& !text::texts(config.disabled_checks@).contains(meta.id)
}

/// Whether a list holds a category.
pub fn holds_category(list: &Vec<Category>, c: Category) -> (r: bool)
    ensures
        r == list@.contains(c),
{
    let mut i: usize = 0;
    while i < list.len()
        invariant
            i <= list@.len(),
            forall|k: int| 0 <= k < i ==> list@[k] != c,
        decreases list@.len() - i,
    {
        if list[i] == c {
            return true;
        }
        i = i + 1;
    }
    false
}

/// Whether a check runs under a configuration.
pub fn check_selected(info: &CheckInfo, config: &RunConfig) -> (r: bool)
    ensures
        r == is_selected(info@, *config),
{
    if let Some(c) = &config.categories {
        if !holds_category(c, info.category) {
            return false;
        }
    }
    if let Some(only) = &config.only_checks {
        if !holds(only, info.id) {
            return false;
        }
    }
    !holds(&config.disabled_checks, info.id)
}

/// What came of one check: its findings, or the message with which it failed.
#[derive(Debug)]
pub struct CheckRun {
    /// The check.
    pub info: CheckInfo,
    /// Its findings, or the message with which it failed.
    pub outcome: Result<Vec<Finding>, String>,
}

/// What came of one check.
pub struct CheckRunView {
    /// The check.
    pub meta: CheckMeta,
    /// Its findings, or the message with which it failed.
    pub outcome: Result<Seq<FindingView>, Seq<char>>,
}

impl View for CheckRun {
    type V = CheckRunView;

    open spec fn view(&self) -> CheckRunView {
        CheckRunView {
            meta: self.info@,
            outcome: match self.outcome {
                Ok(f) => Ok(check::views(f@)),
                Err(m) => Err(m@),
            },
        }
    }
}

/// A check that was selected to run.
#[derive(Debug)]
pub struct ExecutedCheck {
    /// Check id.
    pub check_id: String,
    /// Check version.
    pub version: String,
    /// Check category.
    pub category: Category,
}

/// A check that was selected to run.
pub struct ExecutedCheckView {
    /// Check id.
    pub check_id: Seq<char>,
    /// Check version.
    pub version: Seq<char>,
    /// Check category.
    pub category: Category,
}

impl View for ExecutedCheck {
    type V = ExecutedCheckView;

    open spec fn view(&self) -> ExecutedCheckView {
        ExecutedCheckView { check_id: self.check_id@, version: self.version@, category: self.category }
    }
}

impl Clone for ExecutedCheck {
    fn clone(&self) -> (r: Self)
        ensures
            r@ == self@,
    {
        ExecutedCheck {
            check_id: self.check_id.clone(),
            version: self.version.clone(),
            category: self.category,
        }
    }
}

impl Labeled for ExecutedCheck {
    open spec fn label_of(v: ExecutedCheckView) -> Seq<char> {
        v.check_id
    }

    fn label(&self) -> (r: &str) {
        self.check_id.as_str()
    }
}

/// A check that failed internally instead of producing findings.
#[derive(Debug)]
pub struct ErroredCheck {
    /// Check id.
    pub check_id: &'static str,
    /// Check version.
    pub version: &'static str,
    /// Captured error message.
    pub message: String,
}

/// A check that failed internally instead of producing findings.
pub struct ErroredCheckView {
    /// Check id.
    pub check_id: Seq<char>,
    /// Check version.
    pub version: Seq<char>,
    /// Captured error message.
    pub message: Seq<char>,
}

impl View for ErroredCheck {
    type V = ErroredCheckView;

    open spec fn view(&self) -> ErroredCheckView {
        ErroredCheckView { check_id: self.check_id@, version: self.version@, message: self.message@ }
    }
}

impl Labeled for ErroredCheck {
    open spec fn label_of(v: ErroredCheckView) -> Seq<char> {
        v.check_id
    }

    fn label(&self) -> (r: &str) {
        self.check_id
    }
}

/// The severity that a run gives to the findings of a check, where it overrides theirs.
pub open spec fn override_for(config: RunConfig, id: Seq<char>) -> Option<Severity> {
    assoc::value_of(assoc::collected(assoc::pairs(config.severity_overrides@)), id)
}

/// A finding with another severity.
pub open spec fn with_severity(f: FindingView, severity: Option<Severity>) -> FindingView {
    match severity {
        Some(severity) => FindingView { severity, ..f },
        None => f,
    }
}

/// Findings with another severity.
pub open spec fn all_with_severity(s: Seq<FindingView>, severity: Option<Severity>) -> Seq<FindingView> {
    s.map_values(|f: FindingView| with_severity(f, severity))
}

/// The findings of runs, as they come.
pub open spec fn run_findings(config: RunConfig, runs: Seq<CheckRunView>) -> Seq<FindingView>
    decreases runs.len(),
{
    if runs.len() == 0 {
        Seq::empty()
    } else {
        let rest = run_findings(config, runs.drop_last());
        match runs.last().outcome {
            Ok(f) => rest + all_with_severity(f, override_for(config, runs.last().meta.id)),
            Err(_) => rest,
        }
    }
}

/// The checks that ran, as they come.
pub open spec fn executed(runs: Seq<CheckRunView>) -> Seq<ExecutedCheckView> {
    runs.map_values(
        |r: CheckRunView| ExecutedCheckView { check_id: r.meta.id, version: r.meta.version, category: r.meta.category },
    )
}

/// The checks that failed, as they come.
pub open spec fn errored(runs: Seq<CheckRunView>) -> Seq<ErroredCheckView>
    decreases runs.len(),
{
    if runs.len() == 0 {
        Seq::empty()
    } else {
        let rest = errored(runs.drop_last());
        let r = runs.last();
        match r.outcome {
            Ok(_) => rest,
            Err(message) => rest.push(ErroredCheckView { check_id: r.meta.id, version: r.meta.version, message }),
        }
    }
}

/// How many checks that ran have an overridden severity.
pub open spec fn overridden(config: RunConfig, runs: Seq<CheckRunView>) -> nat
    decreases runs.len(),
{
    if runs.len() == 0 {
        0
    } else {
        overridden(config, runs.drop_last()) + (if override_for(config, runs.last().meta.id) is Some {
            1nat
        } else {
            0
        })
    }
}

// ---- verdicts --------------------------------------------------------------------------------

/// Overall verdict status.
#[derive(Debug, Clone, Copy, PartialEq, Eq, Structural)]
pub enum Status {
    /// No findings, or only `info`.
    Pass,
    /// Worst finding is a `warning`.
    PassWithWarnings,
    /// At least one `error` finding.
    Fail,
}

/// Counts of findings by severity.
#[derive(Debug, Clone, Copy, PartialEq, Eq, Structural)]
pub struct SeverityCounts {
    /// Number of `error` findings.
    pub error: u64,
    /// Number of `warning` findings.
    pub warning: u64,
    /// Number of `info` findings.
    pub info: u64,
}

impl Default for SeverityCounts {
    /// None of each.
    fn default() -> (r: Self)
        ensures
            r == (SeverityCounts { error: 0, warning: 0, info: 0 }),
    {
        SeverityCounts { error: 0, warning: 0, info: 0 }
    }
}

/// How many findings have a severity.
pub open spec fn count_of(s: Seq<FindingView>, severity: Severity) -> nat
    decreases s.len(),
{
    if s.len() == 0 {
        0
    } else {
        count_of(s.drop_last(), severity) + (if s.last().severity == severity { 1nat } else { 0 })
    }
}

/// Whether counts are those of findings.
pub open spec fn counts_of(c: SeverityCounts, s: Seq<FindingView>) -> bool {
    &&& c.error == count_of(s, Severity::Error)
    &&& c.warning == count_of(s, Severity::Warning)
    &&& c.info == count_of(s, Severity::Info)
}

/// The findings by severity.
pub fn count_severities(findings: &Vec<Finding>) -> (r: SeverityCounts)
    ensures
        counts_of(r, check::views(findings@)),
{
    let ghost v = check::views(findings@);
    let mut c: SeverityCounts = SeverityCounts { error: 0, warning: 0, info: 0 };
    let mut i: usize = 0;
    while i < findings.len()
        invariant
            i <= findings@.len(),
            v == check::views(findings@),
            c.error <= i,
            c.warning <= i,
            c.info <= i,
            counts_of(c, v.take(i as int)),
        decreases findings@.len() - i,
    {
        assert(v[i as int] == findings@[i as int]@);
        assert(v.take(i + 1).drop_last() =~= v.take(i as int));
        match findings[i].severity {
            Severity::Error => {
                c.error = c.error + 1;
            },
            Severity::Warning => {
                c.warning = c.warning + 1;
            },
            Severity::Info => {
                c.info = c.info + 1;
            },
        }
        i = i + 1;
    }
    assert(v.take(i as int) =~= v);
    c
}

/// The run's overall status. A check that failed produced no findings, and its silence is not a
/// pass: it is evidence the verdict is incomplete.
pub open spec fn status_of(errors: nat, warnings: nat, failed: nat) -> Status {
    if errors > 0 {
        Status::Fail
    } else if warnings > 0 || failed > 0 {
        Status::PassWithWarnings
    } else {
        Status::Pass
    }
}

/// The run's overall status.
fn status_from(counts: &SeverityCounts, errored: &Vec<ErroredCheck>) -> (r: Status)
    ensures
        r == status_of(counts.error as nat, counts.warning as nat, errored@.len()),
{
    if counts.error > 0 {
        Status::Fail
    } else if counts.warning > 0 || errored.len() > 0 {
        Status::PassWithWarnings
    } else {
        Status::Pass
    }
}

/// The full result of a run.
#[derive(Debug)]
pub struct Verdict {
    /// How much of the source dataset this verdict covers.
    pub coverage: CoverageNote,
    /// The version that produced this verdict.
    pub veridex_version: String,
    /// The CDM content hash the run was performed over (hex).
    pub cdm_content_hash: String,
    /// Overall status.
    pub status: Status,
    /// Finding counts by severity.
    pub counts: SeverityCounts,
    /// Findings, in a stable total order independent of execution order.
    pub findings: Vec<Finding>,
    /// Checks that failed internally, listed separately from data findings.
    pub errored_checks: Vec<ErroredCheck>,
    /// Checks that were selected and executed, sorted by id.
    pub executed_checks: Vec<ExecutedCheck>,
    /// The effective configuration used.
    pub effective_config: EffectiveConfig,
    /// SHA-256 over the canonical JSON of every other field (hex). Two identical runs share it.
    pub result_content_hash: String,
}

/// The tag that goes before a verdict's bytes when they are hashed.
pub const VERDICT_DOMAIN: &'static str = "veridex.verdict.v1";

/// A producer attestation that the caller has verified: the provenance keys it supplies, and the key
/// that signed it.
#[derive(Debug)]
pub struct AppliedAttestation {
    /// The attested provenance keys, as the attestation lists them.
    pub keys: Vec<String>,
    /// The producer's public key (hex).
    pub producer_key: String,
    /// When the attestation was issued.
    pub timestamp: String,
}

/// The attested keys, where there are any.
pub open spec fn attested_keys(attestation: Option<&AppliedAttestation>) -> Seq<Seq<char>> {
    match attestation {
        Some(a) => text::texts(a.keys@),
        None => Seq::empty(),
    }
}

/// All findings of a run, as they come.
pub open spec fn all_findings(
    coverage: CoverageNote,
    config: RunConfig,
    runs: Seq<CheckRunView>,
    registered: nat,
) -> Seq<FindingView> {
    coverage_findings(coverage) + run_findings(config, runs) + scope_findings(
        config,
        runs.len(),
        registered,
        overridden(config, runs),
        tolerances::loosened(config.tolerances),
    )
}

/// The content hash of a result: SHA-256 over a domain tag and the JSON of the result, in hex.
pub open spec fn result_hash(doc: JsonView) -> Seq<char> {
    digest::hex(digest::sha256(digest::frame(VERDICT_DOMAIN@, json::compact(doc))))
}

/// The content hash of a result.
fn digest_hex(doc: &Json) -> (r: String)
    ensures
        r@ == result_hash(doc.doc()),
{
    let message: Vec<u8> = digest::framed(VERDICT_DOMAIN, json::compact_bytes(doc).as_slice());
    let hash: [u8; 32] = digest::hash_bytes(message.as_slice());
    digest::to_hex(hash.as_slice())
}

/// Whether a verdict is what runs of checks add up to.
pub open spec fn concludes(
    v: Verdict,
    hash: Seq<u8>,
    coverage: CoverageNote,
    config: RunConfig,
    runs: Seq<CheckRunView>,
    registered: nat,
) -> bool {
    &&& v.coverage == coverage
    &&& v.veridex_version@ == VERSION@
    &&& v.cdm_content_hash@ == digest::hex(hash)
    &&& check::views(v.findings@) == seqs::sorted(
        all_findings(coverage, config, runs, registered),
        check::finding_order(),
    )
    &&& counts_of(v.counts, check::views(v.findings@))
    &&& v.status == status_of(v.counts.error as nat, v.counts.warning as nat, v.errored_checks@.len())
    &&& order::views(v.errored_checks@) == order::ordered::<ErroredCheck>(errored(runs))
    &&& order::views(v.executed_checks@) == order::ordered::<ExecutedCheck>(executed(runs))
    &&& v.effective_config@ == effective(config)
    &&& v.result_content_hash@ == result_hash(records::verdict_doc(v))
}

/// Gives findings another severity.
fn override_severity(findings: &mut Vec<Finding>, severity: Option<Severity>)
    ensures
        check::views(final(findings)@) == all_with_severity(check::views(old(findings)@), severity),
{
    let ghost v = check::views(findings@);
    let s: Severity = match severity {
        Some(s) => s,
        None => {
            assert(all_with_severity(v, severity) =~= v);
            return ;
        },
    };
    let mut out: Vec<Finding> = Vec::new();
    let mut i: usize = 0;
    assert(check::views(out@) =~= Seq::empty());
    while i < findings.len()
        invariant
            i <= findings@.len(),
            v == check::views(findings@),
            severity == Some(s),
            check::views(out@) == all_with_severity(v.take(i as int), severity),
        decreases findings@.len() - i,
    {
        broadcast use check::group_views;

        let mut f: Finding = findings[i].clone();
        f.severity = s;
        proof {
            assert(v[i as int] == findings@[i as int]@);
            assert(f@ == with_severity(v[i as int], severity));
            assert(all_with_severity(v.take(i + 1), severity) =~= all_with_severity(v.take(i as int), severity).push(f@));
        }
        out.push(f);
        i = i + 1;
    }
    assert(v.take(i as int) =~= v);
    *findings = out;
}

/// What runs of checks have added up to so far.
struct Sums {
    /// The findings.
    findings: Vec<Finding>,
    /// The checks that failed.
    errored: Vec<ErroredCheck>,
    /// The checks that ran.
    executed: Vec<ExecutedCheck>,
    /// How many of them have an overridden severity.
    overridden: usize,
}

/// Whether sums are those of runs.
spec fn adds_up(s: Sums, first: Seq<FindingView>, config: RunConfig, runs: Seq<CheckRunView>) -> bool {
    &&& check::views(s.findings@) == first + run_findings(config, runs)
    &&& order::views(s.errored@) == order::ordered::<ErroredCheck>(errored(runs))
    &&& order::views(s.executed@) == order::ordered::<ExecutedCheck>(executed(runs))
    &&& s.overridden == overridden(config, runs)
    &&& s.overridden <= runs.len()
}

/// Adds one run.
fn add_run(
    sums: Sums,
    overrides: &Vec<Entry<Severity>>,
    run: CheckRun,
    Ghost(first): Ghost<Seq<FindingView>>,
    Ghost(config): Ghost<RunConfig>,
    Ghost(runs): Ghost<Seq<CheckRunView>>,
) -> (r: Sums)
    requires
        adds_up(sums, first, config, runs),
        assoc::pairs(overrides@) == assoc::collected(assoc::pairs(config.severity_overrides@)),
        runs.len() < usize::MAX,
    ensures
        adds_up(r, first, config, runs.push(run@)),
{
    broadcast use check::group_views;

    let mut s: Sums = sums;
    let ghost now = runs.push(run@);
    let ghost v = run@;
    assert(now.drop_last() =~= runs);
    let severity: Option<Severity> = match assoc::find(overrides, run.info.id) {
        Some(i) => Some(overrides[i].value),
        None => None,
    };
    assert(severity == override_for(config, v.meta.id));
    if severity.is_some() {
        s.overridden = s.overridden + 1;
    }
    let e: ExecutedCheck = ExecutedCheck {
        check_id: String::from_str(run.info.id),
        version: String::from_str(run.info.version),
        category: run.info.category,
    };
    proof {
        assert(executed(now) =~= executed(runs).push(e@));
        order::lemma_ordered_push::<ExecutedCheck>(executed(runs), e@);
    }
    place(&mut s.executed, e);
    match run.outcome {
        Ok(f) => {
            let mut produced: Vec<Finding> = f;
            override_severity(&mut produced, severity);
            s.findings.append(&mut produced);
            assert(check::views(s.findings@) =~= first + run_findings(config, now));
        },
        Err(message) => {
            let x: ErroredCheck = ErroredCheck { check_id: run.info.id, version: run.info.version, message };
            proof {
                order::lemma_ordered_push::<ErroredCheck>(errored(runs), x@);
            }
            place(&mut s.errored, x);
        },
    }
    s
}

/// Sums up the runs of checks: the findings in order, how many there are, the status, and what ran.
pub fn conclude(
    hash: &[u8],
    config: &RunConfig,
    coverage: CoverageNote,
    runs: Vec<CheckRun>,
    registered: usize,
) -> (r: Verdict)
    ensures
        concludes(r, hash@, coverage, *config, order::views(runs@), registered as nat),
{
    broadcast use check::group_views;

    let overrides: Vec<Entry<Severity>> = collect_overrides(&config.severity_overrides);
    let ghost all = order::views(runs@);
    let ghost first = coverage_findings(coverage);
    let n: usize = runs.len();
    let mut findings: Vec<Finding> = Vec::new();
    if let Some(f) = coverage_finding(&coverage) {
        findings.push(f);
    }
    assert(check::views(findings@) =~= first);
    let mut sums: Sums = Sums { findings, errored: Vec::new(), executed: Vec::new(), overridden: 0 };
    let mut rest: Vec<CheckRun> = runs;
    let ghost mut done: int = 0;
    proof {
        assert(first + run_findings(*config, all.take(0)) =~= first);
        assert(executed(all.take(0)) =~= Seq::empty());
        assert(order::views(sums.errored@) =~= Seq::empty());
        assert(order::views(sums.executed@) =~= Seq::empty());
        assert(all.skip(0) =~= order::views(rest@));
    }
    while rest.len() > 0
        invariant
            0 <= done <= all.len(),
            all.len() == n,
            done + rest@.len() == n,
            order::views(rest@) == all.skip(done),
            assoc::pairs(overrides@) == assoc::collected(assoc::pairs(config.severity_overrides@)),
            adds_up(sums, first, *config, all.take(done)),
        decreases rest@.len(),
    {
        let ghost was = rest@;
        let run: CheckRun = rest.remove(0);
        proof {
            assert(order::views(was)[0] == run@);
            assert(all.skip(done)[0] == all[done]);
            assert(all.take(done + 1) =~= all.take(done).push(run@));
            assert forall|k: int| 0 <= k < rest@.len() implies #[trigger] order::views(rest@)[k] == all.skip(done + 1)[k] by {
                assert(order::views(was)[k + 1] == was[k + 1]@);
                assert(all.skip(done)[k + 1] == all[done + 1 + k]);
            }
            assert(order::views(rest@) =~= all.skip(done + 1));
        }
        sums = add_run(sums, &overrides, run, Ghost(first), Ghost(*config), Ghost(all.take(done)));
        proof {
            done = done + 1;
        }
    }
    assert(all.take(done) =~= all);
    let mut findings: Vec<Finding> = sums.findings;
    let loosened: Vec<String> = loosened_tolerances(&config.tolerances);
    if let Some(f) = scope_finding(config, &overrides, n, registered, sums.overridden, &loosened) {
        findings.push(f);
    }
    assert(check::views(findings@) =~= all_findings(
        coverage,
        *config,
        all,
        registered as nat,
    ));
    let findings: Vec<Finding> = sort_findings(findings);
    let counts: SeverityCounts = count_severities(&findings);
    let status: Status = status_from(&counts, &sums.errored);
    let mut verdict: Verdict = Verdict {
        coverage,
        veridex_version: String::from_str(VERSION),
        cdm_content_hash: digest::to_hex(hash),
        status,
        counts,
        findings,
        errored_checks: sums.errored,
        executed_checks: sums.executed,
        effective_config: EffectiveConfig::of(config),
        result_content_hash: String::new(),
    };
    let ghost doc = records::verdict_doc(verdict);
    verdict.result_content_hash = digest_hex(&records::verdict_json(&verdict));
    assert(records::verdict_doc(verdict) == doc);
    verdict
}

/// What comes of running the selected checks.
pub open spec fn runs_of<C: Check>(
    checks: Seq<C>,
    dataset: &Dataset,
    config: RunConfig,
    frames_read: bool,
    attested: Seq<Seq<char>>,
) -> Seq<CheckRunView>
    decreases checks.len(),
{
    if checks.len() == 0 {
        Seq::empty()
    } else {
        let rest = runs_of(checks.drop_last(), dataset, config, frames_read, attested);
        let c = checks.last();
        if is_selected(c.meta(), config) {
            rest.push(CheckRunView { meta: c.meta(), outcome: Ok(c.report_in(dataset, frames_read, attested)) })
        } else {
            rest
        }
    }
}

/// What the checks of a run may conclude from absence, and which provenance was attested.
pub fn context_for(coverage: &CoverageNote, attestation: Option<&AppliedAttestation>) -> (r: CheckContext)
    ensures
        r.frames_read == reads_frames(*coverage),
        text::texts(r.attested_keys@) == attested_keys(attestation),
{
    let keys: Vec<String> = match attestation {
        Some(a) => copy_texts(&a.keys),
        None => Vec::new(),
    };
    assert(text::texts(keys@) =~= attested_keys(attestation));
    CheckContext { frames_read: coverage.frames_read(), attested_keys: keys }
}

impl<C: Check> Engine<C> {
    /// How many checks are registered.
    pub fn check_count(&self) -> (r: usize)
        ensures
            r as nat == self.checks().len(),
    {
        self.checks.len()
    }

    /// Runs the selected checks, in registration order.
    pub fn run_checks(&self, dataset: &Dataset, config: &RunConfig, context: &CheckContext) -> (r: Vec<CheckRun>)
        ensures
            order::views(r@) == runs_of(
                self.checks(),
                dataset,
                *config,
                context.frames_read,
                text::texts(context.attested_keys@),
            ),
            r@.len() <= self.checks().len(),
    {
        let ghost all = self.checks@;
        let mut out: Vec<CheckRun> = Vec::new();
        let mut i: usize = 0;
        assert(order::views(out@) =~= Seq::empty());
        while i < self.checks.len()
            invariant
                i <= self.checks@.len(),
                all == self.checks@,
                out@.len() <= i,
                order::views(out@) == runs_of(
                    all.take(i as int),
                    dataset,
                    *config,
                    context.frames_read,
                    text::texts(context.attested_keys@),
                ),
            decreases self.checks@.len() - i,
        {
            let info: CheckInfo = self.checks[i].info();
            assert(all.take(i + 1).drop_last() =~= all.take(i as int));
            if check_selected(&info, config) {
                let found: Vec<Finding> = self.checks[i].run_in(dataset, context);
                let run: CheckRun = CheckRun { info, outcome: Ok(found) };
                proof {
                    order::lemma_views_push(out@, run);
                }
                out.push(run);
            }
            i = i + 1;
        }
        assert(all.take(i as int) =~= all);
        out
    }

    /// Validate `dataset` (whose content hash is `cdm_hash`) under `config`, over the whole source.
    ///
    /// Use [`Engine::run_over`] when the dataset in hand is only a sample of its source, so the
    /// verdict says so.
    pub fn run(&self, dataset: &Dataset, cdm_hash: &[u8], config: &RunConfig) -> (r: Verdict)
        ensures
            concludes(
                r,
                cdm_hash@,
                CoverageNote::Full,
                *config,
                runs_of(self.checks(), dataset, *config, true, Seq::empty()),
                self.checks().len(),
            ),
    {
        self.run_over(dataset, cdm_hash, config, CoverageNote::Full)
    }

    /// Like [`Engine::run`], but records that the dataset covers only part of its source.
    pub fn run_over(
        &self,
        dataset: &Dataset,
        cdm_hash: &[u8],
        config: &RunConfig,
        coverage: CoverageNote,
    ) -> (r: Verdict)
        ensures
            concludes(
                r,
                cdm_hash@,
                coverage,
                *config,
                runs_of(self.checks(), dataset, *config, reads_frames(coverage), Seq::empty()),
                self.checks().len(),
            ),
    {
        self.run_over_attested(dataset, cdm_hash, config, coverage, None)
    }

    /// Like [`Engine::run_over`], with a producer attestation that the caller has verified.
    pub fn run_over_attested(
        &self,
        dataset: &Dataset,
        cdm_hash: &[u8],
        config: &RunConfig,
        coverage: CoverageNote,
        attestation: Option<&AppliedAttestation>,
    ) -> (r: Verdict)
        ensures
            concludes(
                r,
                cdm_hash@,
                coverage,
                *config,
                runs_of(self.checks(), dataset, *config, reads_frames(coverage), attested_keys(attestation)),
                self.checks().len(),
            ),
    {
        let context: CheckContext = context_for(&coverage, attestation);
        let runs: Vec<CheckRun> = self.run_checks(dataset, config, &context);
        conclude(cdm_hash, config, coverage, runs, self.checks.len())
    }
}

/// The categories of the checks that finished, as they come.
pub open spec fn finished(executed: Seq<ExecutedCheckView>, errored: Seq<ErroredCheckView>) -> Seq<Category>
    decreases executed.len(),
{
    if executed.len() == 0 {
        Seq::empty()
    } else {
        let rest = finished(executed.drop_last(), errored);
        if exists|i: int| 0 <= i < errored.len() && (#[trigger] errored[i]).check_id == executed.last().check_id {
            rest
        } else {
            rest.push(executed.last().category)
        }
    }
}

impl Verdict {
    /// The distinct categories of the checks that ran **and finished**. A category whose every check
    /// failed does not count as covered.
    pub fn checks_categories(&self) -> (r: Vec<Category>)
        ensures
            r@ == category_set(finished(order::views(self.executed_checks@), order::views(self.errored_checks@))),
    {
        let ghost ex = order::views(self.executed_checks@);
        let ghost er = order::views(self.errored_checks@);
        let mut out: Vec<Category> = Vec::new();
        let mut i: usize = 0;
        while i < self.executed_checks.len()
            invariant
                i <= self.executed_checks@.len(),
                ex == order::views(self.executed_checks@),
                er == order::views(self.errored_checks@),
                out@ == category_set(finished(ex.take(i as int), er)),
            decreases self.executed_checks@.len() - i,
        {
            let c: &ExecutedCheck = &self.executed_checks[i];
            let mut failed: bool = false;
            let mut k: usize = 0;
            while k < self.errored_checks.len()
                invariant
                    k <= self.errored_checks@.len(),
                    er == order::views(self.errored_checks@),
                    failed <==> exists|j: int| 0 <= j < k && (#[trigger] er[j]).check_id == c.check_id@,
                decreases self.errored_checks@.len() - k,
            {
                assert(er[k as int] == self.errored_checks@[k as int]@);
                if same(self.errored_checks[k].check_id, c.check_id.as_str()) {
                    failed = true;
                }
                k = k + 1;
            }
            proof {
                assert(ex[i as int] == c@);
                assert(ex.take(i + 1).drop_last() =~= ex.take(i as int));
                seqs::lemma_distinct_step(finished(ex.take(i as int), er), category_order(), c.category);
            }
            if !failed {
                put_category(&mut out, c.category);
            }
            i = i + 1;
        }
        assert(ex.take(i as int) =~= ex);
        out
    }

    /// Whether this run departed from the declared catalog in a way that could have *raised* its
    /// score — checks deselected, a severity overridden, or a threshold loosened. Reads the finding
    /// rather than re-deriving the condition, so there is one answer.
    pub fn scope_narrowed(&self) -> (r: bool)
        ensures
            r == exists|i: int|
                0 <= i < self.findings@.len() && (#[trigger] check::views(self.findings@)[i]).check_id == SCOPE_CHECK_ID@,
    {
        let ghost v = check::views(self.findings@);
        let mut i: usize = 0;
        while i < self.findings.len()
            invariant
                i <= self.findings@.len(),
                v == check::views(self.findings@),
                forall|k: int| 0 <= k < i ==> (#[trigger] v[k]).check_id != SCOPE_CHECK_ID@,
            decreases self.findings@.len() - i,
        {
            assert(v[i as int] == self.findings@[i as int]@);
            if same(self.findings[i].check_id, SCOPE_CHECK_ID) {
                return true;
            }
            i = i + 1;
        }
        false
    }
}

// ---- laws ------------------------------------------------------------------------------------

/// The order of findings is a total order.
proof fn lemma_finding_order()
    ensures
        seqs::total_order(check::finding_order()),
{
    let lt = check::finding_order();
    assert forall|a: FindingView, b: FindingView| #[trigger] lt(a, b) implies !lt(b, a) by {
        check::law_finding_order_is_total(a, b);
    }
    assert forall|a: FindingView, b: FindingView| !(#[trigger] lt(a, b)) && !lt(b, a) implies a == b by {
        check::law_finding_order_is_total(a, b);
    }
    assert forall|a: FindingView, b: FindingView, c: FindingView| #[trigger] lt(a, b) && #[trigger] lt(b, c) implies lt(a, c) by {
        check::law_finding_order_is_transitive(a, b, c);
    }
}

/// What comes of one check.
spec fn run_of<C: Check>(
    dataset: &Dataset,
    config: RunConfig,
    frames_read: bool,
    attested: Seq<Seq<char>>,
) -> spec_fn(C) -> Seq<CheckRunView> {
    |c: C|
        if is_selected(c.meta(), config) {
            seq![CheckRunView { meta: c.meta(), outcome: Ok(c.report_in(dataset, frames_read, attested)) }]
        } else {
            Seq::empty()
        }
}

/// What comes of checks is what comes of each.
proof fn lemma_runs<C: Check>(
    checks: Seq<C>,
    dataset: &Dataset,
    config: RunConfig,
    frames_read: bool,
    attested: Seq<Seq<char>>,
)
    ensures
        runs_of(checks, dataset, config, frames_read, attested) == seqs::gather(
            checks,
            run_of::<C>(dataset, config, frames_read, attested),
        ),
    decreases checks.len(),
{
    if checks.len() > 0 {
        let f = run_of::<C>(dataset, config, frames_read, attested);
        lemma_runs(checks.drop_last(), dataset, config, frames_read, attested);
        let rest = runs_of(checks.drop_last(), dataset, config, frames_read, attested);
        assert(runs_of(checks, dataset, config, frames_read, attested) =~= rest + f(checks.last()));
    }
}

/// The ids of the checks that ran.
pub open spec fn run_ids(runs: Seq<CheckRunView>) -> Seq<Seq<char>> {
    runs.map_values(|r: CheckRunView| r.meta.id)
}

/// Checks with distinct ids run at most once each.
proof fn lemma_run_ids<C: Check>(
    checks: Seq<C>,
    dataset: &Dataset,
    config: RunConfig,
    frames_read: bool,
    attested: Seq<Seq<char>>,
)
    requires
        ids(checks).no_duplicates(),
    ensures
        run_ids(runs_of(checks, dataset, config, frames_read, attested)).no_duplicates(),
        forall|x: Seq<char>| #[trigger]
            run_ids(runs_of(checks, dataset, config, frames_read, attested)).contains(x) ==> ids(checks).contains(x),
    decreases checks.len(),
{
    if checks.len() > 0 {
        let rest = checks.drop_last();
        let all = ids(checks);
        let last = checks.last().meta().id;
        assert(ids(rest) =~= all.drop_last());
        assert(all[checks.len() - 1] == last);
        lemma_run_ids(rest, dataset, config, frames_read, attested);
        let before = run_ids(runs_of(rest, dataset, config, frames_read, attested));
        let now = run_ids(runs_of(checks, dataset, config, frames_read, attested));
        assert(!before.contains(last)) by {
            if before.contains(last) {
                let k = choose|k: int| 0 <= k < ids(rest).len() && ids(rest)[k] == last;
                assert(all[k] == last);
            }
        }
        assert(now =~= before || now =~= before.push(last));
        assert forall|x: Seq<char>| #[trigger] now.contains(x) implies all.contains(x) by {
            let k = choose|k: int| 0 <= k < now.len() && now[k] == x;
            if k < before.len() {
                assert(before[k] == x);
                assert(before.contains(x));
                let j = choose|j: int| 0 <= j < ids(rest).len() && ids(rest)[j] == x;
                assert(all[j] == x);
            }
        }
    }
}

/// The findings of one run.
spec fn findings_of_run(config: RunConfig) -> spec_fn(CheckRunView) -> Seq<FindingView> {
    |r: CheckRunView|
        match r.outcome {
            Ok(f) => all_with_severity(f, override_for(config, r.meta.id)),
            Err(_) => Seq::empty(),
        }
}

/// A run that failed.
spec fn error_of_run() -> spec_fn(CheckRunView) -> Seq<ErroredCheckView> {
    |r: CheckRunView|
        match r.outcome {
            Ok(_) => Seq::empty(),
            Err(message) => seq![ErroredCheckView { check_id: r.meta.id, version: r.meta.version, message }],
        }
}

/// A run whose severity is overridden.
spec fn override_of_run(config: RunConfig) -> spec_fn(CheckRunView) -> Seq<int> {
    |r: CheckRunView|
        if override_for(config, r.meta.id) is Some {
            seq![0int]
        } else {
            Seq::empty()
        }
}

/// What runs add up to is what each gives.
proof fn lemma_sums(config: RunConfig, runs: Seq<CheckRunView>)
    ensures
        run_findings(config, runs) == seqs::gather(runs, findings_of_run(config)),
        errored(runs) == seqs::gather(runs, error_of_run()),
        overridden(config, runs) == seqs::gather(runs, override_of_run(config)).len(),
    decreases runs.len(),
{
    if runs.len() > 0 {
        let rest = runs.drop_last();
        let r = runs.last();
        lemma_sums(config, rest);
        assert(run_findings(config, runs) =~= run_findings(config, rest) + findings_of_run(config)(r));
        assert(errored(runs) =~= errored(rest) + error_of_run()(r));
    }
}

/// Runs of distinct checks have distinct failures.
proof fn lemma_errored_ids(runs: Seq<CheckRunView>)
    requires
        run_ids(runs).no_duplicates(),
    ensures
        order::labels::<ErroredCheck>(errored(runs)).no_duplicates(),
        forall|x: Seq<char>| #[trigger]
            order::labels::<ErroredCheck>(errored(runs)).contains(x) ==> run_ids(runs).contains(x),
    decreases runs.len(),
{
    if runs.len() > 0 {
        let rest = runs.drop_last();
        let all = run_ids(runs);
        let last = runs.last().meta.id;
        assert(run_ids(rest) =~= all.drop_last());
        assert(all[runs.len() - 1] == last);
        lemma_errored_ids(rest);
        let before = order::labels::<ErroredCheck>(errored(rest));
        let now = order::labels::<ErroredCheck>(errored(runs));
        assert(!before.contains(last)) by {
            if before.contains(last) {
                let k = choose|k: int| 0 <= k < run_ids(rest).len() && run_ids(rest)[k] == last;
                assert(all[k] == last);
            }
        }
        assert(now =~= before || now =~= before.push(last));
        assert forall|x: Seq<char>| #[trigger] now.contains(x) implies all.contains(x) by {
            let k = choose|k: int| 0 <= k < now.len() && now[k] == x;
            if k < before.len() {
                assert(before[k] == x);
                assert(before.contains(x));
                let j = choose|j: int| 0 <= j < run_ids(rest).len() && run_ids(rest)[j] == x;
                assert(all[j] == x);
            }
        }
    }
}

/// Whether two verdicts say the same.
pub open spec fn same_verdict(v: Verdict, w: Verdict) -> bool {
    &&& v.coverage == w.coverage
    &&& v.veridex_version@ == w.veridex_version@
    &&& v.cdm_content_hash@ == w.cdm_content_hash@
    &&& v.status == w.status
    &&& v.counts == w.counts
    &&& check::views(v.findings@) == check::views(w.findings@)
    &&& order::views(v.errored_checks@) == order::views(w.errored_checks@)
    &&& order::views(v.executed_checks@) == order::views(w.executed_checks@)
    &&& v.effective_config@ == w.effective_config@
    &&& v.result_content_hash@ == w.result_content_hash@
}

/// The verdict does not depend on the order in which checks ran, whatever came of them: the same runs
/// in another order give the same verdict, its content hash included.
pub proof fn law_execution_order_does_not_matter(
    v: Verdict,
    w: Verdict,
    hash: Seq<u8>,
    coverage: CoverageNote,
    config: RunConfig,
    a: Seq<CheckRunView>,
    b: Seq<CheckRunView>,
    registered: nat,
)
    requires
        run_ids(a).no_duplicates(),
        a.to_multiset() == b.to_multiset(),
        concludes(v, hash, coverage, config, a, registered),
        concludes(w, hash, coverage, config, b, registered),
    ensures
        same_verdict(v, w),
{
    broadcast use vstd::seq_lib::group_to_multiset_ensures;

    lemma_sums(config, a);
    lemma_sums(config, b);
    seqs::lemma_gather_multiset(a, b, findings_of_run(config));
    seqs::lemma_gather_multiset(a, b, error_of_run());
    seqs::lemma_gather_multiset(a, b, override_of_run(config));
    assert(a.len() == a.to_multiset().len());
    assert(b.len() == b.to_multiset().len());
    // the findings
    let first = coverage_findings(coverage);
    let last = scope_findings(
        config,
        a.len(),
        registered,
        overridden(config, a),
        tolerances::loosened(config.tolerances),
    );
    let (p, q) = (run_findings(config, a), run_findings(config, b));
    vstd::seq_lib::lemma_multiset_commutative(first, p);
    vstd::seq_lib::lemma_multiset_commutative(first, q);
    vstd::seq_lib::lemma_multiset_commutative(first + p, last);
    vstd::seq_lib::lemma_multiset_commutative(first + q, last);
    lemma_finding_order();
    seqs::law_sorting_forgets_the_order(
        all_findings(coverage, config, a, registered),
        all_findings(coverage, config, b, registered),
        check::finding_order(),
    );
    // the checks that ran
    let as_executed = |r: CheckRunView|
        ExecutedCheckView { check_id: r.meta.id, version: r.meta.version, category: r.meta.category };
    seqs::lemma_map_is_gather(a, as_executed);
    seqs::lemma_map_is_gather(b, as_executed);
    seqs::lemma_gather_multiset(a, b, |r: CheckRunView| seq![as_executed(r)]);
    assert(executed(a) =~= a.map_values(as_executed));
    assert(executed(b) =~= b.map_values(as_executed));
    assert(order::labels::<ExecutedCheck>(executed(a)) =~= run_ids(a));
    order::lemma_ordered_is_unique::<ExecutedCheck>(executed(a), executed(b));
    // the checks that failed
    lemma_errored_ids(a);
    order::lemma_ordered_is_unique::<ErroredCheck>(errored(a), errored(b));
    assert(v.errored_checks@.len() == order::views(v.errored_checks@).len());
    assert(w.errored_checks@.len() == order::views(w.errored_checks@).len());
    assert(records::verdict_doc(v) == records::verdict_doc(w));
}

/// The verdict does not depend on the order in which checks were registered: engines over the same
/// checks give the same verdict on the same dataset, its content hash included, and so do two runs of
/// one engine.
pub proof fn law_verdict_does_not_depend_on_order<C: Check>(
    v: Verdict,
    w: Verdict,
    a: Seq<C>,
    b: Seq<C>,
    dataset: &Dataset,
    hash: Seq<u8>,
    coverage: CoverageNote,
    config: RunConfig,
    frames_read: bool,
    attested: Seq<Seq<char>>,
)
    requires
        ids(a).no_duplicates(),
        a.to_multiset() == b.to_multiset(),
        concludes(v, hash, coverage, config, runs_of(a, dataset, config, frames_read, attested), a.len()),
        concludes(w, hash, coverage, config, runs_of(b, dataset, config, frames_read, attested), b.len()),
    ensures
        same_verdict(v, w),
{
    broadcast use vstd::seq_lib::group_to_multiset_ensures;

    assert(a.len() == a.to_multiset().len());
    assert(b.len() == b.to_multiset().len());
    lemma_runs(a, dataset, config, frames_read, attested);
    lemma_runs(b, dataset, config, frames_read, attested);
    seqs::lemma_gather_multiset(a, b, run_of::<C>(dataset, config, frames_read, attested));
    lemma_run_ids(a, dataset, config, frames_read, attested);
    law_execution_order_does_not_matter(
        v,
        w,
        hash,
        coverage,
        config,
        runs_of(a, dataset, config, frames_read, attested),
        runs_of(b, dataset, config, frames_read, attested),
        a.len(),
    );
}

/// Exactly the selected checks run: every run is of a selected check, and every selected check that is
/// registered has one, with the findings it reports.
pub proof fn law_exactly_the_selected_checks_run<C: Check>(
    checks: Seq<C>,
    dataset: &Dataset,
    config: RunConfig,
    frames_read: bool,
    attested: Seq<Seq<char>>,
)
    ensures
        forall|i: int|
            0 <= i < runs_of(checks, dataset, config, frames_read, attested).len() ==> is_selected(
                (#[trigger] runs_of(checks, dataset, config, frames_read, attested)[i]).meta,
                config,
            ),
        forall|k: int|
            0 <= k < checks.len() && is_selected((#[trigger] checks[k]).meta(), config) ==> runs_of(
                checks,
                dataset,
                config,
                frames_read,
                attested,
            ).contains(CheckRunView { meta: checks[k].meta(), outcome: Ok(checks[k].report_in(dataset, frames_read, attested)) }),
    decreases checks.len(),
{
    if checks.len() > 0 {
        let rest = checks.drop_last();
        law_exactly_the_selected_checks_run(rest, dataset, config, frames_read, attested);
        let before = runs_of(rest, dataset, config, frames_read, attested);
        let runs = runs_of(checks, dataset, config, frames_read, attested);
        assert forall|i: int| 0 <= i < runs.len() implies is_selected((#[trigger] runs[i]).meta, config) by {
            if i < before.len() {
                assert(runs[i] == before[i]);
            }
        }
        assert forall|k: int| 0 <= k < checks.len() && is_selected((#[trigger] checks[k]).meta(), config) implies runs.contains(
            CheckRunView { meta: checks[k].meta(), outcome: Ok(checks[k].report_in(dataset, frames_read, attested)) },
        ) by {
            let run = CheckRunView { meta: checks[k].meta(), outcome: Ok(checks[k].report_in(dataset, frames_read, attested)) };
            if k < rest.len() {
                assert(rest[k] == checks[k]);
                let i = choose|i: int| 0 <= i < before.len() && before[i] == run;
                assert(runs[i] == run);
            } else {
                assert(runs.last() == run);
            }
        }
    }
}

/// A run that executed fewer checks than are registered, overrode a severity or loosened a threshold
/// says so in its verdict, whatever its configuration.
pub proof fn law_narrowing_is_disclosed(
    v: Verdict,
    hash: Seq<u8>,
    coverage: CoverageNote,
    config: RunConfig,
    runs: Seq<CheckRunView>,
    registered: nat,
)
    requires
        concludes(v, hash, coverage, config, runs, registered),
        runs.len() != registered || overridden(config, runs) > 0 || tolerances::loosened(config.tolerances).len() > 0,
    ensures
        exists|i: int|
            0 <= i < v.findings@.len() && (#[trigger] check::views(v.findings@)[i]).check_id == SCOPE_CHECK_ID@,
{
    let f = narrowed_finding(
        text::joined(scope_clauses(
                config,
                runs.len(),
                registered,
                overridden(config, runs),
                tolerances::loosened(config.tolerances),
            ), "; "@),
    );
    let all = all_findings(coverage, config, runs, registered);
    assert(all.last() == f);
    lemma_reported(all, f, all.len() - 1);
    let i = choose|i: int| 0 <= i < check::views(v.findings@).len() && check::views(v.findings@)[i] == f;
    assert(check::views(v.findings@)[i].check_id == SCOPE_CHECK_ID@);
}

/// A partial run says so in its verdict, whatever its configuration.
pub proof fn law_partial_coverage_is_disclosed(
    v: Verdict,
    hash: Seq<u8>,
    coverage: CoverageNote,
    config: RunConfig,
    runs: Seq<CheckRunView>,
    registered: nat,
)
    requires
        concludes(v, hash, coverage, config, runs, registered),
        !(coverage is Full),
    ensures
        exists|i: int|
            0 <= i < v.findings@.len() && (#[trigger] check::views(v.findings@)[i]).check_id == COVERAGE_CHECK_ID@,
{
    let f = coverage_findings(coverage)[0];
    let all = all_findings(coverage, config, runs, registered);
    assert(all[0] == f);
    lemma_reported(all, f, 0);
    let i = choose|i: int| 0 <= i < check::views(v.findings@).len() && check::views(v.findings@)[i] == f;
    assert(check::views(v.findings@)[i].check_id == COVERAGE_CHECK_ID@);
}

/// What was found is reported.
proof fn lemma_reported(all: Seq<FindingView>, f: FindingView, at: int)
    requires
        0 <= at < all.len(),
        all[at] == f,
    ensures
        seqs::sorted(all, check::finding_order()).contains(f),
{
    let s = seqs::sorted(all, check::finding_order());
    seqs::lemma_sorted_multiset(all, check::finding_order());
    broadcast use vstd::seq_lib::group_to_multiset_ensures;

    assert(all.contains(f));
    assert(all.to_multiset().contains(f));
    assert(s.to_multiset().contains(f));
}

/// A verdict passes exactly where it reports no error and no warning and no check failed, and fails
/// exactly where it reports an error.
pub proof fn law_status(
    v: Verdict,
    hash: Seq<u8>,
    coverage: CoverageNote,
    config: RunConfig,
    runs: Seq<CheckRunView>,
    registered: nat,
)
    requires
        concludes(v, hash, coverage, config, runs, registered),
    ensures
        v.status is Fail <==> exists|i: int|
            0 <= i < v.findings@.len() && (#[trigger] check::views(v.findings@)[i]).severity is Error,
        v.status is Pass <==> v.errored_checks@.len() == 0 && forall|i: int|
            0 <= i < v.findings@.len() ==> (#[trigger] check::views(v.findings@)[i]).severity is Info,
{
    let s = check::views(v.findings@);
    lemma_counted(s, Severity::Error);
    lemma_counted(s, Severity::Warning);
}

/// A severity is counted exactly where a finding has it.
proof fn lemma_counted(s: Seq<FindingView>, severity: Severity)
    ensures
        count_of(s, severity) > 0 <==> exists|i: int| 0 <= i < s.len() && (#[trigger] s[i]).severity == severity,
    decreases s.len(),
{
    if s.len() > 0 {
        let rest = s.drop_last();
        lemma_counted(rest, severity);
        if count_of(rest, severity) > 0 {
            let i = choose|i: int| 0 <= i < rest.len() && (#[trigger] rest[i]).severity == severity;
            assert(s[i].severity == severity);
        }
        if s.last().severity == severity {
            assert(s[s.len() - 1].severity == severity);
        }
        if exists|i: int| 0 <= i < s.len() && (#[trigger] s[i]).severity == severity {
            let i = choose|i: int| 0 <= i < s.len() && (#[trigger] s[i]).severity == severity;
            if i < rest.len() {
                assert(rest[i].severity == severity);
            }
        }
    }
}

/// Every finding is counted once.
pub proof fn law_counts_add_up(c: SeverityCounts, s: Seq<FindingView>)
    requires
        counts_of(c, s),
    ensures
        c.error + c.warning + c.info == s.len(),
{
    lemma_all_counted(s);
}

/// Every finding has one of three severities.
proof fn lemma_all_counted(s: Seq<FindingView>)
    ensures
        count_of(s, Severity::Error) + count_of(s, Severity::Warning) + count_of(s, Severity::Info) == s.len(),
    decreases s.len(),
{
    if s.len() > 0 {
        lemma_all_counted(s.drop_last());
    }
}

} // verus!
