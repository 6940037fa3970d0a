//! Provenance-completeness checks: missing or internally inconsistent provenance is surfaced rather
//! than accepted by default.

use vstd::prelude::*;
use vstd::string::*;

use crate::cat::{cat3, cat6, cat7};
use crate::cdm::{Dataset, Provenance, ProvenanceClass, ProvenanceElement};
use crate::check;
use crate::check::{Category, Check, CheckContext, CheckInfo, CheckMeta, Finding, FindingView, Location, LocationView, Scope, Severity};
use crate::text;
use crate::text::{holds, same};

verus! {

broadcast use text::lemma_texts_push;

/// Presence and internal consistency of dataset provenance.
#[derive(Debug, Clone, Copy)]
pub struct ProvenanceCompleteness;

/// The id of [`ProvenanceCompleteness`].
pub const COMPLETENESS_ID: &'static str = "provenance.completeness";

/// The code for an element whose class and value disagree.
pub const INCONSISTENT_CODE: &'static str = "PROVENANCE.INCONSISTENT";

/// The code for an element that says nothing.
pub const PLACEHOLDER_CODE: &'static str = "PROVENANCE.PLACEHOLDER_VALUE";

pub const INCONSISTENT_RISK: &'static str = "Inconsistent provenance can't be trusted or attested.";

pub const INCONSISTENT_REMEDY: &'static str = "Fix the extractor so class and value agree.";

/// The finding for an element whose class and value disagree.
pub open spec fn inconsistent_finding(key: Seq<char>, class: Seq<char>, what: Seq<char>) -> FindingView {
    check::finding(
        COMPLETENESS_ID@,
        Category::Provenance,
        Severity::Warning,
        LocationView::Dataset,
        INCONSISTENT_CODE@,
        "provenance element `"@ + key + "` is classified `"@ + class + "` but "@ + what,
        INCONSISTENT_RISK@,
        INCONSISTENT_REMEDY@,
    )
}

/// The finding for an element whose class and value disagree.
fn make_inconsistent(key: &str, class: &str, what: &str) -> (r: Finding)
    ensures
        r@ == inconsistent_finding(key@, class@, what@),
{
    let message: String = cat6("provenance element `", key, "` is classified `", class, "` but ", what);
    Finding::new(COMPLETENESS_ID, Category::Provenance, Severity::Warning, Location::Dataset, INCONSISTENT_CODE, message).with_risk(
        INCONSISTENT_RISK,
    ).with_remedy(INCONSISTENT_REMEDY)
}

pub const PLACEHOLDER_RISK: &'static str = "A placeholder value looks like provenance but records \
     nothing; it can mask that the real origin is unknown.";

pub const PLACEHOLDER_REMEDY: &'static str = "Record the actual value, or classify the element as \
     `unknown`.";

/// The finding for an element that says nothing.
pub open spec fn placeholder_finding(key: Seq<char>, class: Seq<char>, value: Seq<char>) -> FindingView {
    check::finding(
        COMPLETENESS_ID@,
        Category::Provenance,
        Severity::Info,
        LocationView::Dataset,
        PLACEHOLDER_CODE@,
        "provenance element `"@ + key + "` is `"@ + class + "` but its value `"@ + value
            + "` is a placeholder"@,
        PLACEHOLDER_RISK@,
        PLACEHOLDER_REMEDY@,
    )
}

/// The finding for an element that says nothing.
fn make_placeholder(key: &str, class: &str, value: &str) -> (r: Finding)
    ensures
        r@ == placeholder_finding(key@, class@, value@),
{
    let message: String = cat7(
        "provenance element `",
        key,
        "` is `",
        class,
        "` but its value `",
        value,
        "` is a placeholder",
    );
    Finding::new(COMPLETENESS_ID, Category::Provenance, Severity::Info, Location::Dataset, PLACEHOLDER_CODE, message).with_risk(
        PLACEHOLDER_RISK,
    ).with_remedy(PLACEHOLDER_REMEDY)
}

/// A provenance element that a trustworthy dataset is expected to carry, with the severity of its
/// absence.
#[derive(Debug, Clone, Copy)]
pub struct Expected {
    /// What the element is about.
    pub key: &'static str,
    /// The severity of its absence.
    pub severity: Severity,
    /// The code of its absence.
    pub code: &'static str,
    /// Why its absence matters.
    pub risk: &'static str,
}

/// What an expected element is.
pub struct ExpectedView {
    /// What the element is about.
    pub key: Seq<char>,
    /// The severity of its absence.
    pub severity: Severity,
    /// The code of its absence.
    pub code: Seq<char>,
    /// Why its absence matters.
    pub risk: Seq<char>,
}

impl View for Expected {
    type V = ExpectedView;

    open spec fn view(&self) -> ExpectedView {
        ExpectedView { key: self.key@, severity: self.severity, code: self.code@, risk: self.risk@ }
    }
}

/// The elements that a trustworthy dataset is expected to carry.
pub open spec fn expected() -> Seq<ExpectedView> {
    seq![
        ExpectedView {
            key: "license"@,
            severity: Severity::Warning,
            code: "PROVENANCE.MISSING_LICENSE"@,
            risk: "Without a license the data's usage terms are unknown; training on it may be legally unsafe."@,
        },
        ExpectedView {
            key: "sensor"@,
            severity: Severity::Info,
            code: "PROVENANCE.MISSING_SENSOR"@,
            risk: "Unknown sensor/device means calibration and domain gaps can't be reasoned about."@,
        },
        ExpectedView {
            key: "clock"@,
            severity: Severity::Info,
            code: "PROVENANCE.MISSING_CLOCK"@,
            risk: "Unknown clock source undermines cross-stream synchronization guarantees."@,
        },
        ExpectedView {
            key: "calibration"@,
            severity: Severity::Info,
            code: "PROVENANCE.MISSING_CALIBRATION"@,
            risk: "Missing calibration blocks spatial and multi-camera reasoning."@,
        },
        ExpectedView {
            key: "annotator"@,
            severity: Severity::Info,
            code: "PROVENANCE.MISSING_ANNOTATOR"@,
            risk: "Unknown annotator/operator identity weakens label accountability."@,
        },
        ExpectedView {
            key: "upstream"@,
            severity: Severity::Info,
            code: "PROVENANCE.MISSING_UPSTREAM"@,
            risk: "Missing upstream lineage hides where the data came from and what it derives from."@,
        },
    ]
}

/// The elements that a trustworthy dataset is expected to carry.
fn expected_elements() -> (r: Vec<Expected>)
    ensures
        wanted_views(r@) == expected(),
{
    let mut out: Vec<Expected> = Vec::new();
    out.push(
        Expected {
            key: "license",
            severity: Severity::Warning,
            code: "PROVENANCE.MISSING_LICENSE",
            risk: "Without a license the data's usage terms are unknown; training on it may be legally unsafe.",
        },
    );
    out.push(
        Expected {
            key: "sensor",
            severity: Severity::Info,
            code: "PROVENANCE.MISSING_SENSOR",
            risk: "Unknown sensor/device means calibration and domain gaps can't be reasoned about.",
        },
    );
    out.push(
        Expected {
            key: "clock",
            severity: Severity::Info,
            code: "PROVENANCE.MISSING_CLOCK",
            risk: "Unknown clock source undermines cross-stream synchronization guarantees.",
        },
    );
    out.push(
        Expected {
            key: "calibration",
            severity: Severity::Info,
            code: "PROVENANCE.MISSING_CALIBRATION",
            risk: "Missing calibration blocks spatial and multi-camera reasoning.",
        },
    );
    out.push(
        Expected {
            key: "annotator",
            severity: Severity::Info,
            code: "PROVENANCE.MISSING_ANNOTATOR",
            risk: "Unknown annotator/operator identity weakens label accountability.",
        },
    );
    out.push(
        Expected {
            key: "upstream",
            severity: Severity::Info,
            code: "PROVENANCE.MISSING_UPSTREAM",
            risk: "Missing upstream lineage hides where the data came from and what it derives from.",
        },
    );
    assert(wanted_views(out@) =~= expected());
    out
}


/// What to do about an element that is missing.
pub const MISSING_REMEDY: &'static str = "Attest this element with `veridex certify` inputs, or \
     extract it from a richer source.";

/// The finding for an element that is missing.
pub open spec fn missing_finding(e: ExpectedView) -> FindingView {
    check::finding(
        COMPLETENESS_ID@,
        Category::Provenance,
        e.severity,
        LocationView::Dataset,
        e.code,
        "provenance is missing `"@ + e.key + "`"@,
        e.risk,
        MISSING_REMEDY@,
    )
}

/// The finding for an element that is missing.
fn make_missing(e: &Expected) -> (r: Finding)
    ensures
        r@ == missing_finding(e@),
{
    Finding::new(
        COMPLETENESS_ID,
        Category::Provenance,
        e.severity,
        Location::Dataset,
        e.code,
        cat3("provenance is missing `", e.key, "`"),
    ).with_risk(e.risk).with_remedy(MISSING_REMEDY)
}

/// The elements of all records, in order.
pub open spec fn all_elements(records: Seq<Provenance>) -> Seq<ProvenanceElement>
    decreases records.len(),
{
    if records.len() == 0 {
        Seq::empty()
    } else {
        all_elements(records.drop_last()) + records.last().elements@
    }
}

/// Whether an element's class and value disagree: a known or asserted element must carry a value, an
/// unknown one must not.
pub open spec fn is_inconsistent(e: ProvenanceElement) -> bool {
    (e.class is Unknown) == (e.value is Some)
}

/// Whether an element is present in form but empty in substance.
pub open spec fn is_hollow(e: ProvenanceElement) -> bool {
    e.value is Some && !(e.class is Unknown) && !e.spec_has_real_value()
}

/// Whether an element says something.
pub open spec fn is_real(e: ProvenanceElement) -> bool {
    !(e.class is Unknown) && e.spec_has_real_value()
}

/// Whether some element of a key is hollow.
pub open spec fn has_hollow(s: Seq<ProvenanceElement>, key: Seq<char>) -> bool
    decreases s.len(),
{
    s.len() > 0 && (has_hollow(s.drop_last(), key) || (is_hollow(s.last()) && s.last().key@ == key))
}

/// Whether some element of a key says something.
pub open spec fn has_real(s: Seq<ProvenanceElement>, key: Seq<char>) -> bool
    decreases s.len(),
{
    s.len() > 0 && (has_real(s.drop_last(), key) || (is_real(s.last()) && s.last().key@ == key))
}

/// What is wrong with an element whose class and value disagree.
pub open spec fn disagreement(e: ProvenanceElement) -> Seq<char> {
    if e.value is Some { "carries a value"@ } else { "has no value"@ }
}

/// What is reported of elements: each whose class and value disagree, and of each key the first
/// hollow one.
pub open spec fn element_findings(s: Seq<ProvenanceElement>) -> Seq<FindingView>
    decreases s.len(),
{
    if s.len() == 0 {
        Seq::empty()
    } else {
        let rest = s.drop_last();
        let e = s.last();
        element_findings(rest) + (if is_inconsistent(e) {
            seq![inconsistent_finding(e.key@, e.class.spec_tag(), disagreement(e))]
        } else {
            Seq::empty()
        }) + (if is_hollow(e) && !has_hollow(rest, e.key@) {
            seq![placeholder_finding(e.key@, e.class.spec_tag(), e.value->0@)]
        } else {
            Seq::empty()
        })
    }
}

/// Whether only a stream payload can supply an element. A run that opens no payload has none of
/// these, so their absence there is a fact about the run, not about the dataset.
pub open spec fn is_payload_derived(key: Seq<char>) -> bool {
    key == "calibration"@ || key == "upstream"@
}

/// Whether an expected element is missing.
pub open spec fn is_missing(
    s: Seq<ProvenanceElement>,
    attested: Seq<Seq<char>>,
    skip_payload_derived: bool,
    key: Seq<char>,
) -> bool {
    !has_real(s, key) && !attested.contains(key) && !(skip_payload_derived && is_payload_derived(key))
}

/// What is reported of expected elements.
pub open spec fn missing_findings(
    s: Seq<ProvenanceElement>,
    attested: Seq<Seq<char>>,
    skip_payload_derived: bool,
    wanted: Seq<ExpectedView>,
) -> Seq<FindingView>
    decreases wanted.len(),
{
    if wanted.len() == 0 {
        Seq::empty()
    } else {
        let rest = missing_findings(s, attested, skip_payload_derived, wanted.drop_last());
        if is_missing(s, attested, skip_payload_derived, wanted.last().key) {
            rest.push(missing_finding(wanted.last()))
        } else {
            rest
        }
    }
}

/// What expected elements are.
pub open spec fn wanted_views(s: Seq<Expected>) -> Seq<ExpectedView> {
    s.map_values(|e: Expected| e@)
}

/// Judges one element, and remembers its key where the element is hollow or says something.
fn judge(
    e: &ProvenanceElement,
    hollow: &mut Vec<String>,
    stated: &mut Vec<String>,
    out: &mut Vec<Finding>,
    Ghost(s): Ghost<Seq<ProvenanceElement>>,
)
    requires
        check::views(old(out)@) == element_findings(s),
        forall|k: Seq<char>| #[trigger] text::texts(old(hollow)@).contains(k) <==> has_hollow(s, k),
        forall|k: Seq<char>| #[trigger] text::texts(old(stated)@).contains(k) <==> has_real(s, k),
    ensures
        check::views(final(out)@) == element_findings(s.push(*e)),
        forall|k: Seq<char>| #[trigger] text::texts(final(hollow)@).contains(k) <==> has_hollow(s.push(*e), k),
        forall|k: Seq<char>| #[trigger] text::texts(final(stated)@).contains(k) <==> has_real(s.push(*e), k),
{
    broadcast use check::group_views;

    let ghost was = check::views(out@);
    proof {
        assert(s.push(*e).drop_last() =~= s);
        text::lemma_pushed_contains(text::texts(hollow@), e.key@);
        text::lemma_pushed_contains(text::texts(stated@), e.key@);
    }
    let has_value: bool = e.value.is_some();
    let unknown: bool = match e.class {
        ProvenanceClass::Unknown => true,
        _ => false,
    };
    if unknown == has_value {
        let what: &str = if has_value {
            "carries a value"
        } else {
            "has no value"
        };
        out.push(make_inconsistent(e.key.as_str(), e.class.tag(), what));
    }
    if let Some(value) = &e.value {
        if !unknown {
            if !e.has_real_value() {
                if !holds(hollow, e.key.as_str()) {
                    hollow.push(e.key.clone());
                    out.push(make_placeholder(e.key.as_str(), e.class.tag(), value.as_str()));
                }
            } else {
                stated.push(e.key.clone());
            }
        }
    }
    assert(check::views(out@) =~= element_findings(s.push(*e)));
}

/// Reports the expected elements that are missing.
fn report_missing(
    stated: &Vec<String>,
    attested: &Vec<String>,
    skip_payload_derived: bool,
    Ghost(s): Ghost<Seq<ProvenanceElement>>,
) -> (r: Vec<Finding>)
    requires
        forall|k: Seq<char>| #[trigger] text::texts(stated@).contains(k) <==> has_real(s, k),
    ensures
        check::views(r@) == missing_findings(s, text::texts(attested@), skip_payload_derived, expected()),
{
    broadcast use check::group_views;

    let wanted: Vec<Expected> = expected_elements();
    let ghost v = wanted_views(wanted@);
    let ghost a = text::texts(attested@);
    let mut out: Vec<Finding> = Vec::new();
    let mut i: usize = 0;
    while i < wanted.len()
        invariant
            i <= wanted@.len(),
            v == wanted_views(wanted@),
            a == text::texts(attested@),
            forall|k: Seq<char>| #[trigger] text::texts(stated@).contains(k) <==> has_real(s, k),
            check::views(out@) == missing_findings(s, a, skip_payload_derived, v.take(i as int)),
        decreases wanted@.len() - i,
    {
        let e: &Expected = &wanted[i];
        assert(v[i as int] == e@);
        assert(v.take(i + 1).drop_last() =~= v.take(i as int));
        let payload: bool = same(e.key, "calibration") || same(e.key, "upstream");
        if !holds(stated, e.key) && !holds(attested, e.key) && !(skip_payload_derived && payload) {
            out.push(make_missing(e));
        }
        i = i + 1;
    }
    assert(v.take(i as int) =~= v);
    out
}

impl ProvenanceCompleteness {
    /// What the check reports: what is wrong with the elements there are, and the expected ones that
    /// are neither recorded nor attested.
    pub open spec fn outcome(
        dataset: &Dataset,
        skip_payload_derived: bool,
        attested: Seq<Seq<char>>,
    ) -> Seq<FindingView> {
        let s = all_elements(dataset.provenance@);
        element_findings(s) + missing_findings(s, attested, skip_payload_derived, expected())
    }

    /// Judges the provenance of a dataset that was read in full and that no producer attests.
    fn run_bare(&self, dataset: &Dataset) -> (r: Vec<Finding>)
        ensures
            check::views(r@) == Self::outcome(dataset, false, Seq::empty()),
    {
        let attested: Vec<String> = Vec::new();
        assert(text::texts(attested@) =~= Seq::empty());
        self.evaluate(dataset, false, &attested)
    }

    /// Judges the provenance of a dataset, given the keys that a verified producer attests.
    pub fn evaluate(&self, dataset: &Dataset, skip_payload_derived: bool, attested: &Vec<String>) -> (r: Vec<Finding>)
        ensures
            check::views(r@) == Self::outcome(dataset, skip_payload_derived, text::texts(attested@)),
    {
        broadcast use check::group_views;

        let ghost p = dataset.provenance@;
        let mut hollow: Vec<String> = Vec::new();
        let mut stated: Vec<String> = Vec::new();
        let mut out: Vec<Finding> = Vec::new();
        let mut i: usize = 0;
        assert(text::texts(hollow@) =~= Seq::empty());
        assert(text::texts(stated@) =~= Seq::empty());
        while i < dataset.provenance.len()
            invariant
                i <= p.len(),
                p == dataset.provenance@,
                check::views(out@) == element_findings(all_elements(p.take(i as int))),
                forall|k: Seq<char>| #[trigger]
                    text::texts(hollow@).contains(k) <==> has_hollow(all_elements(p.take(i as int)), k),
                forall|k: Seq<char>| #[trigger]
                    text::texts(stated@).contains(k) <==> has_real(all_elements(p.take(i as int)), k),
            decreases p.len() - i,
        {
            let record: &Provenance = &dataset.provenance[i];
            let ghost done = all_elements(p.take(i as int));
            let mut j: usize = 0;
            assert(done + record.elements@.take(0) =~= done);
            while j < record.elements.len()
                invariant
                    j <= record.elements@.len(),
                    check::views(out@) == element_findings(done + record.elements@.take(j as int)),
                    forall|k: Seq<char>| #[trigger]
                        text::texts(hollow@).contains(k) <==> has_hollow(done + record.elements@.take(j as int), k),
                    forall|k: Seq<char>| #[trigger]
                        text::texts(stated@).contains(k) <==> has_real(done + record.elements@.take(j as int), k),
                decreases record.elements@.len() - j,
            {
                let ghost s = done + record.elements@.take(j as int);
                judge(&record.elements[j], &mut hollow, &mut stated, &mut out, Ghost(s));
                assert(s.push(record.elements@[j as int]) =~= done + record.elements@.take(j + 1));
                j = j + 1;
            }
            assert(record.elements@.take(j as int) =~= record.elements@);
            assert(p.take(i + 1).drop_last() =~= p.take(i as int));
            i = i + 1;
        }
        assert(p.take(i as int) =~= p);
        let mut more: Vec<Finding> = report_missing(
            &stated,
            attested,
            skip_payload_derived,
            Ghost(all_elements(p)),
        );
        out.append(&mut more);
        out
    }
}

impl Check for ProvenanceCompleteness {
    open spec fn meta(&self) -> CheckMeta {
        CheckMeta {
            id: COMPLETENESS_ID@,
            title: "Provenance completeness and consistency"@,
            category: Category::Provenance,
            default_severity: Severity::Info,
            scope: Scope::Dataset,
            version: "1"@,
            finding_codes: seq![
                INCONSISTENT_CODE@,
                PLACEHOLDER_CODE@,
                "PROVENANCE.MISSING_LICENSE"@,
                "PROVENANCE.MISSING_SENSOR"@,
                "PROVENANCE.MISSING_CLOCK"@,
                "PROVENANCE.MISSING_CALIBRATION"@,
                "PROVENANCE.MISSING_ANNOTATOR"@,
                "PROVENANCE.MISSING_UPSTREAM"@,
            ],
        }
    }

    fn info(&self) -> (r: CheckInfo) {
        let finding_codes: &'static [&'static str] = &[
                INCONSISTENT_CODE,
                PLACEHOLDER_CODE,
                "PROVENANCE.MISSING_LICENSE",
                "PROVENANCE.MISSING_SENSOR",
                "PROVENANCE.MISSING_CLOCK",
                "PROVENANCE.MISSING_CALIBRATION",
                "PROVENANCE.MISSING_ANNOTATOR",
                "PROVENANCE.MISSING_UPSTREAM",
            ];
        assert(text::str_texts(finding_codes@) =~= self.meta().finding_codes);
        CheckInfo {
            id: COMPLETENESS_ID,
            title: "Provenance completeness and consistency",
            category: Category::Provenance,
            default_severity: Severity::Info,
            scope: Scope::Dataset,
            version: "1",
            finding_codes,
        }
    }

    open spec fn report(&self, dataset: &Dataset) -> Seq<FindingView> {
        Self::outcome(dataset, false, Seq::empty())
    }

    open spec fn report_in(&self, dataset: &Dataset, frames_read: bool, attested: Seq<Seq<char>>) -> Seq<FindingView> {
        Self::outcome(dataset, !frames_read, attested)
    }

    fn run(&self, dataset: &Dataset) -> (r: Vec<Finding>) {
        self.run_bare(dataset)
    }

    fn run_in(&self, dataset: &Dataset, context: &CheckContext) -> (r: Vec<Finding>) {
        self.evaluate(dataset, !context.frames_read, &context.attested_keys)
    }
}

/// An element that is recorded and says something, or that a verified producer attests, is not
/// reported missing.
pub proof fn law_covered_elements_are_not_missing(
    s: Seq<ProvenanceElement>,
    attested: Seq<Seq<char>>,
    skip_payload_derived: bool,
    key: Seq<char>,
)
    requires
        has_real(s, key) || attested.contains(key),
    ensures
        !is_missing(s, attested, skip_payload_derived, key),
{
}

} // verus!
