//! Laws of the check on provenance.

use vstd::prelude::*;
use vstd::string::*;

use crate::cdm::{Dataset, Provenance, ProvenanceElement};
use crate::checks::provenance;
use crate::checks::provenance::{ExpectedView, ProvenanceCompleteness, INCONSISTENT_CODE, PLACEHOLDER_CODE};
use crate::laws::found;

verus! {

/// Whether a dataset states an element.
pub open spec fn states(records: Seq<Provenance>, e: ProvenanceElement) -> bool {
    exists|r: int, k: int|
        0 <= r < records.len() && 0 <= k < records[r].elements@.len() && e == #[trigger] records[r].elements@[k]
}

/// The elements are those of all records.
#[verifier::rlimit(40)]
proof fn lemma_elements(records: Seq<Provenance>, e: ProvenanceElement)
    ensures
        provenance::all_elements(records).contains(e) <==> states(records, e),
    decreases records.len(),
{
    if records.len() > 0 {
        let rest = records.drop_last();
        let n = records.len() - 1;
        let last = records.last().elements@;
        lemma_elements(rest, e);
        found::lemma_both(provenance::all_elements(rest), last, e);
        assert(records[n] == records.last());
        assert forall|j: int| 0 <= j < n implies #[trigger] records[j] == rest[j] by {}
        if states(rest, e) {
            let (r, k) = choose|r: int, k: int|
                0 <= r < rest.len() && 0 <= k < rest[r].elements@.len() && e == #[trigger] rest[r].elements@[k];
            assert(records[r].elements@[k] == e);
        }
        if last.contains(e) {
            let k = choose|k: int| 0 <= k < last.len() && last[k] == e;
            assert(records[n].elements@[k] == e);
        }
        if states(records, e) {
            let (r, k) = choose|r: int, k: int|
                0 <= r < records.len() && 0 <= k < records[r].elements@.len() && e == #[trigger] records[r].elements@[k];
            if r < n {
                assert(rest[r].elements@[k] == e);
            } else {
                assert(last[k] == e);
            }
        }
    }
}

/// Whether an element says something: it is not of unknown standing, and has a value that does not only
/// stand in for one.
pub open spec fn is_known(e: ProvenanceElement) -> bool {
    !(e.class is Unknown) && e.value is Some && !e.placeholder
}

/// Whether an element is of known standing, but its value only stands in for one.
pub open spec fn is_empty_word(e: ProvenanceElement) -> bool {
    !(e.class is Unknown) && e.value is Some && e.placeholder
}

/// Whether an element has a value though its standing is unknown, or none though it is known.
pub open spec fn is_contrary(e: ProvenanceElement) -> bool {
    (e.class is Unknown && e.value is Some) || (!(e.class is Unknown) && e.value is None)
}

/// Whether something is known under a key.
pub open spec fn is_known_under(s: Seq<ProvenanceElement>, key: Seq<char>) -> bool {
    exists|k: int| 0 <= k < s.len() && (#[trigger] s[k]).key@ == key && is_known(s[k])
}

/// What is known under a key.
proof fn lemma_known(s: Seq<ProvenanceElement>, key: Seq<char>)
    ensures
        provenance::has_real(s, key) <==> is_known_under(s, key),
        provenance::has_hollow(s, key) <==> exists|k: int|
            0 <= k < s.len() && (#[trigger] s[k]).key@ == key && is_empty_word(s[k]),
    decreases s.len(),
{
    if s.len() > 0 {
        let rest = s.drop_last();
        let n = s.len() - 1;
        lemma_known(rest, key);
        assert(s[n] == s.last());
        assert forall|j: int| 0 <= j < n implies #[trigger] s[j] == rest[j] by {}
        if is_known_under(rest, key) {
            let k = choose|k: int| 0 <= k < rest.len() && (#[trigger] rest[k]).key@ == key && is_known(rest[k]);
            assert(s[k] == rest[k]);
        }
        if provenance::has_hollow(rest, key) {
            let k = choose|k: int| 0 <= k < rest.len() && (#[trigger] rest[k]).key@ == key && is_empty_word(rest[k]);
            assert(s[k] == rest[k]);
        }
    }
}

/// What is said of elements.
#[verifier::rlimit(40)]
proof fn lemma_element_findings(s: Seq<ProvenanceElement>, code: Seq<char>)
    ensures
        found::finds_any(provenance::element_findings(s), code) <==> {
            ||| code == INCONSISTENT_CODE@ && exists|k: int| 0 <= k < s.len() && is_contrary(#[trigger] s[k])
            ||| code == PLACEHOLDER_CODE@ && exists|k: int| 0 <= k < s.len() && is_empty_word(#[trigger] s[k])
        },
    decreases s.len(),
{
    if s.len() > 0 {
        let rest = s.drop_last();
        let n = s.len() - 1;
        let e = s.last();
        let old = provenance::element_findings(rest);
        let a = if provenance::is_inconsistent(e) {
            seq![provenance::inconsistent_finding(e.key@, e.class.spec_tag(), provenance::disagreement(e))]
        } else {
            Seq::empty()
        };
        let b = if provenance::is_hollow(e) && !provenance::has_hollow(rest, e.key@) {
            seq![provenance::placeholder_finding(e.key@, e.class.spec_tag(), e.value->0@)]
        } else {
            Seq::empty()
        };
        lemma_element_findings(rest, code);
        lemma_known(rest, e.key@);
        found::lemma_named_both(old, a, code, code);
        found::lemma_named_both(old + a, b, code, code);
        if a.len() > 0 {
            assert(a[0].code == INCONSISTENT_CODE@);
        }
        if b.len() > 0 {
            assert(b[0].code == PLACEHOLDER_CODE@);
        }
        assert(s[n] == e);
        assert forall|j: int| 0 <= j < n implies #[trigger] s[j] == rest[j] by {}
        if exists|k: int| 0 <= k < rest.len() && is_contrary(#[trigger] rest[k]) {
            let k = choose|k: int| 0 <= k < rest.len() && is_contrary(#[trigger] rest[k]);
            assert(is_contrary(s[k]));
        }
        if exists|k: int| 0 <= k < rest.len() && is_empty_word(#[trigger] rest[k]) {
            let k = choose|k: int| 0 <= k < rest.len() && is_empty_word(#[trigger] rest[k]);
            assert(is_empty_word(s[k]));
        }
        if provenance::has_hollow(rest, e.key@) {
            let k = choose|k: int| 0 <= k < rest.len() && (#[trigger] rest[k]).key@ == e.key@ && is_empty_word(rest[k]);
            assert(is_empty_word(rest[k]));
        }
    }
}

/// Whether an element that is expected is missing: nothing is known under its key, it is not attested,
/// and it could have been known where the payload was not read.
pub open spec fn is_lacking(s: Seq<ProvenanceElement>, attested: Seq<Seq<char>>, unread: bool, key: Seq<char>) -> bool {
    !is_known_under(s, key) && !attested.contains(key) && !(unread && (key == "calibration"@ || key == "upstream"@))
}

/// What is said of what is expected.
proof fn lemma_missing(
    s: Seq<ProvenanceElement>,
    attested: Seq<Seq<char>>,
    unread: bool,
    wanted: Seq<ExpectedView>,
    code: Seq<char>,
)
    ensures
        found::finds_any(provenance::missing_findings(s, attested, unread, wanted), code) <==> exists|k: int|
            0 <= k < wanted.len() && (#[trigger] wanted[k]).code == code && is_lacking(s, attested, unread, wanted[k].key),
    decreases wanted.len(),
{
    if wanted.len() > 0 {
        let rest = wanted.drop_last();
        let n = wanted.len() - 1;
        let w = wanted.last();
        let old = provenance::missing_findings(s, attested, unread, rest);
        let g = provenance::missing_finding(w);
        lemma_missing(s, attested, unread, rest, code);
        lemma_known(s, w.key);
        assert(old.push(g) =~= old + seq![g]);
        found::lemma_named_both(old, seq![g], code, code);
        assert(seq![g][0] == g);
        assert(g.code == w.code);
        assert(wanted[n] == w);
        assert forall|j: int| 0 <= j < n implies #[trigger] wanted[j] == rest[j] by {}
        if found::finds_any(old, code) {
            let k = choose|k: int|
                0 <= k < rest.len() && (#[trigger] rest[k]).code == code && is_lacking(s, attested, unread, rest[k].key);
            assert(wanted[k] == rest[k]);
        }
    }
}

/// The codes differ.
proof fn lemma_codes()
    ensures
        INCONSISTENT_CODE@.len() == 23,
        PLACEHOLDER_CODE@.len() == 28,
        PLACEHOLDER_CODE@[11] == 'P',
        "PROVENANCE.MISSING_LICENSE"@.len() == 26,
        "PROVENANCE.MISSING_SENSOR"@.len() == 25,
        "PROVENANCE.MISSING_CLOCK"@.len() == 24,
        "PROVENANCE.MISSING_CALIBRATION"@.len() == 30,
        "PROVENANCE.MISSING_ANNOTATOR"@.len() == 28,
        "PROVENANCE.MISSING_ANNOTATOR"@[11] == 'M',
        "PROVENANCE.MISSING_UPSTREAM"@.len() == 27,
{
    reveal_strlit("PROVENANCE.INCONSISTENT");
    reveal_strlit("PROVENANCE.PLACEHOLDER_VALUE");
    reveal_strlit("PROVENANCE.MISSING_LICENSE");
    reveal_strlit("PROVENANCE.MISSING_SENSOR");
    reveal_strlit("PROVENANCE.MISSING_CLOCK");
    reveal_strlit("PROVENANCE.MISSING_CALIBRATION");
    reveal_strlit("PROVENANCE.MISSING_ANNOTATOR");
    reveal_strlit("PROVENANCE.MISSING_UPSTREAM");
}

/// What the report says of a code.
proof fn lemma_outcome(dataset: &Dataset, unread: bool, attested: Seq<Seq<char>>, code: Seq<char>)
    ensures
        found::finds_any(ProvenanceCompleteness::outcome(dataset, unread, attested), code) <==> found::finds_any(
            provenance::element_findings(provenance::all_elements(dataset.provenance@)),
            code,
        ) || exists|k: int|
            0 <= k < 6 && (#[trigger] provenance::expected()[k]).code == code && is_lacking(
                provenance::all_elements(dataset.provenance@),
                attested,
                unread,
                provenance::expected()[k].key,
            ),
{
    let s = provenance::all_elements(dataset.provenance@);
    lemma_missing(s, attested, unread, provenance::expected(), code);
    found::lemma_named_both(
        provenance::element_findings(s),
        provenance::missing_findings(s, attested, unread, provenance::expected()),
        code,
        code,
    );
}

/// Each of licence, sensor, clock, calibration, annotator and upstream is reported as missing exactly
/// where nothing is known of it, it is not attested, and, for the two that are read from the payload,
/// the payload was read.
pub proof fn law_missing_provenance_is_reported(dataset: &Dataset, unread: bool, attested: Seq<Seq<char>>)
    ensures
        ({
            let r = ProvenanceCompleteness::outcome(dataset, unread, attested);
            let s = provenance::all_elements(dataset.provenance@);
            &&& found::finds_any(r, "PROVENANCE.MISSING_LICENSE"@) <==> is_lacking(s, attested, unread, "license"@)
            &&& found::finds_any(r, "PROVENANCE.MISSING_SENSOR"@) <==> is_lacking(s, attested, unread, "sensor"@)
            &&& found::finds_any(r, "PROVENANCE.MISSING_CLOCK"@) <==> is_lacking(s, attested, unread, "clock"@)
            &&& found::finds_any(r, "PROVENANCE.MISSING_CALIBRATION"@) <==> is_lacking(s, attested, unread, "calibration"@)
            &&& found::finds_any(r, "PROVENANCE.MISSING_ANNOTATOR"@) <==> is_lacking(s, attested, unread, "annotator"@)
            &&& found::finds_any(r, "PROVENANCE.MISSING_UPSTREAM"@) <==> is_lacking(s, attested, unread, "upstream"@)
        }),
{
    let s = provenance::all_elements(dataset.provenance@);
    let w = provenance::expected();
    lemma_codes();
    assert(w.len() == 6);
    lemma_element_findings(s, "PROVENANCE.MISSING_LICENSE"@);
    lemma_element_findings(s, "PROVENANCE.MISSING_SENSOR"@);
    lemma_element_findings(s, "PROVENANCE.MISSING_CLOCK"@);
    lemma_element_findings(s, "PROVENANCE.MISSING_CALIBRATION"@);
    lemma_element_findings(s, "PROVENANCE.MISSING_ANNOTATOR"@);
    lemma_element_findings(s, "PROVENANCE.MISSING_UPSTREAM"@);
    lemma_outcome(dataset, unread, attested, "PROVENANCE.MISSING_LICENSE"@);
    lemma_outcome(dataset, unread, attested, "PROVENANCE.MISSING_SENSOR"@);
    lemma_outcome(dataset, unread, attested, "PROVENANCE.MISSING_CLOCK"@);
    lemma_outcome(dataset, unread, attested, "PROVENANCE.MISSING_CALIBRATION"@);
    lemma_outcome(dataset, unread, attested, "PROVENANCE.MISSING_ANNOTATOR"@);
    lemma_outcome(dataset, unread, attested, "PROVENANCE.MISSING_UPSTREAM"@);
    assert(w[0].code == "PROVENANCE.MISSING_LICENSE"@ && w[0].key == "license"@);
    assert(w[1].code == "PROVENANCE.MISSING_SENSOR"@ && w[1].key == "sensor"@);
    assert(w[2].code == "PROVENANCE.MISSING_CLOCK"@ && w[2].key == "clock"@);
    assert(w[3].code == "PROVENANCE.MISSING_CALIBRATION"@ && w[3].key == "calibration"@);
    assert(w[4].code == "PROVENANCE.MISSING_ANNOTATOR"@ && w[4].key == "annotator"@);
    assert(w[5].code == "PROVENANCE.MISSING_UPSTREAM"@ && w[5].key == "upstream"@);
}

/// An element is reported as contrary exactly where one has a value though its standing is unknown or
/// none though it is known, and as one that only stands in for a value exactly where one does.
#[verifier::rlimit(40)]
pub proof fn law_poor_provenance_is_reported(dataset: &Dataset, unread: bool, attested: Seq<Seq<char>>)
    ensures
        found::finds_any(ProvenanceCompleteness::outcome(dataset, unread, attested), INCONSISTENT_CODE@) <==> exists|e: ProvenanceElement|
            #[trigger] states(dataset.provenance@, e) && is_contrary(e),
        found::finds_any(ProvenanceCompleteness::outcome(dataset, unread, attested), PLACEHOLDER_CODE@) <==> exists|e: ProvenanceElement|
            #[trigger] states(dataset.provenance@, e) && is_empty_word(e),
{
    let s = provenance::all_elements(dataset.provenance@);
    let w = provenance::expected();
    lemma_codes();
    lemma_element_findings(s, INCONSISTENT_CODE@);
    lemma_element_findings(s, PLACEHOLDER_CODE@);
    lemma_outcome(dataset, unread, attested, INCONSISTENT_CODE@);
    lemma_outcome(dataset, unread, attested, PLACEHOLDER_CODE@);
    assert forall|k: int| 0 <= k < 6 implies (#[trigger] w[k]).code != INCONSISTENT_CODE@ && w[k].code != PLACEHOLDER_CODE@ by {
        assert(k == 0 || k == 1 || k == 2 || k == 3 || k == 4 || k == 5);
    }
    assert forall|k: int| 0 <= k < s.len() implies states(dataset.provenance@, #[trigger] s[k]) by {
        assert(s.contains(s[k]));
        lemma_elements(dataset.provenance@, s[k]);
    }
    if exists|e: ProvenanceElement| #[trigger] states(dataset.provenance@, e) && is_contrary(e) {
        let e = choose|e: ProvenanceElement| #[trigger] states(dataset.provenance@, e) && is_contrary(e);
        lemma_elements(dataset.provenance@, e);
        let k = choose|k: int| 0 <= k < s.len() && s[k] == e;
        assert(is_contrary(s[k]));
    }
    if exists|e: ProvenanceElement| #[trigger] states(dataset.provenance@, e) && is_empty_word(e) {
        let e = choose|e: ProvenanceElement| #[trigger] states(dataset.provenance@, e) && is_empty_word(e);
        lemma_elements(dataset.provenance@, e);
        let k = choose|k: int| 0 <= k < s.len() && s[k] == e;
        assert(is_empty_word(s[k]));
    }
}

/// What is known is what some record states.
pub proof fn law_what_is_known_is_stated(dataset: &Dataset, key: Seq<char>)
    ensures
        is_known_under(provenance::all_elements(dataset.provenance@), key) <==> exists|e: ProvenanceElement|
            #[trigger] states(dataset.provenance@, e) && e.key@ == key && is_known(e),
{
    let s = provenance::all_elements(dataset.provenance@);
    if is_known_under(s, key) {
        let k = choose|k: int| 0 <= k < s.len() && (#[trigger] s[k]).key@ == key && is_known(s[k]);
        assert(s.contains(s[k]));
        lemma_elements(dataset.provenance@, s[k]);
    }
    if exists|e: ProvenanceElement| #[trigger] states(dataset.provenance@, e) && e.key@ == key && is_known(e) {
        let e = choose|e: ProvenanceElement| #[trigger] states(dataset.provenance@, e) && e.key@ == key && is_known(e);
        lemma_elements(dataset.provenance@, e);
        let k = choose|k: int| 0 <= k < s.len() && s[k] == e;
        assert(s[k].key@ == key);
    }
}

} // verus!
