//! Provenance coverage: how much of the expected provenance a dataset actually carries, split into
//! known / asserted / unknown. Kept separate from the check score so a clean data verdict can never
//! mask missing provenance.

use vstd::prelude::*;
use vstd::string::*;

use crate::cdm::{Dataset, Provenance, ProvenanceClass, ProvenanceElement};
use crate::checks::provenance;
use crate::text;
use crate::text::{holds, same};

verus! {

/// The provenance elements a trustworthy dataset is expected to carry. The coverage denominator.
pub const EXPECTED_PROVENANCE_KEYS: [&'static str; 6] = [
    "license",
    "sensor",
    "clock",
    "calibration",
    "annotator",
    "upstream",
];

/// The provenance elements a trustworthy dataset is expected to carry.
pub open spec fn expected_keys() -> Seq<Seq<char>> {
    text::str_texts(EXPECTED_PROVENANCE_KEYS@)
}

/// Coverage of the expected provenance set.
#[derive(Debug, Clone, Copy, PartialEq, Eq, Structural)]
pub struct ProvenanceCoverage {
    /// Expected keys present as extracted (`known`).
    pub known: u32,
    /// Expected keys present as producer-attested (`asserted`).
    pub asserted: u32,
    /// Expected keys absent or only ever `unknown`.
    pub unknown: u32,
}

/// Whether some element of a key says something, and is of a class.
pub open spec fn has_class(s: Seq<ProvenanceElement>, key: Seq<char>, class: ProvenanceClass) -> bool
    decreases s.len(),
{
    s.len() > 0 && (has_class(s.drop_last(), key, class) || (s.last().key@ == key && s.last().spec_has_real_value()
        && s.last().class == class))
}

/// The strongest class found for a key: known, asserted (by an element or by a producer's
/// attestation), or unknown.
pub open spec fn strongest(s: Seq<ProvenanceElement>, attested: Seq<Seq<char>>, key: Seq<char>) -> ProvenanceClass {
    if has_class(s, key, ProvenanceClass::Known) {
        ProvenanceClass::Known
    } else if has_class(s, key, ProvenanceClass::Asserted) || attested.contains(key) {
        ProvenanceClass::Asserted
    } else {
        ProvenanceClass::Unknown
    }
}

/// How many of some keys are of a class.
pub open spec fn class_count(
    s: Seq<ProvenanceElement>,
    attested: Seq<Seq<char>>,
    keys: Seq<Seq<char>>,
    class: ProvenanceClass,
) -> nat
    decreases keys.len(),
{
    if keys.len() == 0 {
        0
    } else {
        class_count(s, attested, keys.drop_last(), class) + (if strongest(s, attested, keys.last()) == class {
            1nat
        } else {
            0
        })
    }
}

/// Whether a coverage is that of provenance elements and attested keys.
pub open spec fn covers(c: ProvenanceCoverage, s: Seq<ProvenanceElement>, attested: Seq<Seq<char>>) -> bool {
    &&& c.known == class_count(s, attested, expected_keys(), ProvenanceClass::Known)
    &&& c.asserted == class_count(s, attested, expected_keys(), ProvenanceClass::Asserted)
    &&& c.unknown == class_count(s, attested, expected_keys(), ProvenanceClass::Unknown)
}

/// Whether a dataset has an element of a key that says something and is of a class: known, asserted.
fn classes_of(dataset: &Dataset, key: &str) -> (r: (bool, bool))
    ensures
        r.0 == has_class(provenance::all_elements(dataset.provenance@), key@, ProvenanceClass::Known),
        r.1 == has_class(provenance::all_elements(dataset.provenance@), key@, ProvenanceClass::Asserted),
{
    let ghost p = dataset.provenance@;
    let mut known: bool = false;
    let mut asserted: bool = false;
    let mut i: usize = 0;
    while i < dataset.provenance.len()
        invariant
            i <= p.len(),
            p == dataset.provenance@,
            known == has_class(provenance::all_elements(p.take(i as int)), key@, ProvenanceClass::Known),
            asserted == has_class(provenance::all_elements(p.take(i as int)), key@, ProvenanceClass::Asserted),
        decreases p.len() - i,
    {
        let record: &Provenance = &dataset.provenance[i];
        let ghost done = provenance::all_elements(p.take(i as int));
        let mut j: usize = 0;
        assert(done + record.elements@.take(0) =~= done);
        while j < record.elements.len()
            invariant
                j <= record.elements@.len(),
                known == has_class(done + record.elements@.take(j as int), key@, ProvenanceClass::Known),
                asserted == has_class(done + record.elements@.take(j as int), key@, ProvenanceClass::Asserted),
            decreases record.elements@.len() - j,
        {
            let e: &ProvenanceElement = &record.elements[j];
            assert((done + record.elements@.take(j + 1)).drop_last() =~= done + record.elements@.take(j as int));
            if same(e.key.as_str(), key) && e.has_real_value() {
                match e.class {
                    ProvenanceClass::Known => {
                        known = true;
                    },
                    ProvenanceClass::Asserted => {
                        asserted = true;
                    },
                    ProvenanceClass::Unknown => {},
                }
            }
            j = j + 1;
        }
        assert(record.elements@.take(j as int) =~= record.elements@);
        assert(p.take(i + 1).drop_last() =~= p.take(i as int));
        i = i + 1;
    }
    assert(p.take(i as int) =~= p);
    (known, asserted)
}

impl ProvenanceCoverage {
    /// Compute coverage of the expected keys over a dataset's provenance records. For each expected
    /// key, the strongest class found wins (`known` > `asserted` > absent/`unknown`).
    pub fn of(dataset: &Dataset) -> (r: Self)
        ensures
            covers(r, provenance::all_elements(dataset.provenance@), Seq::empty()),
    {
        let attested: Vec<String> = Vec::new();
        assert(text::texts(attested@) =~= Seq::empty());
        Self::of_with_attested(dataset, &attested)
    }

    /// As [`ProvenanceCoverage::of`], where the keys that a verified producer attests count as
    /// asserted. A value the dataset records itself keeps its place.
    pub fn of_with_attested(dataset: &Dataset, attested: &Vec<String>) -> (r: Self)
        ensures
            covers(r, provenance::all_elements(dataset.provenance@), text::texts(attested@)),
    {
        let keys: [&'static str; 6] = EXPECTED_PROVENANCE_KEYS;
        let ghost k = expected_keys();
        let ghost s = provenance::all_elements(dataset.provenance@);
        let ghost a = text::texts(attested@);
        let mut cov: ProvenanceCoverage = ProvenanceCoverage { known: 0, asserted: 0, unknown: 0 };
        let mut i: usize = 0;
        while i < keys.len()
            invariant
                i <= keys@.len(),
                keys@.len() == 6,
                k == text::str_texts(keys@),
                s == provenance::all_elements(dataset.provenance@),
                a == text::texts(attested@),
                cov.known <= i,
                cov.asserted <= i,
                cov.unknown <= i,
                cov.known == class_count(s, a, k.take(i as int), ProvenanceClass::Known),
                cov.asserted == class_count(s, a, k.take(i as int), ProvenanceClass::Asserted),
                cov.unknown == class_count(s, a, k.take(i as int), ProvenanceClass::Unknown),
            decreases keys@.len() - i,
        {
            assert(k[i as int] == keys@[i as int]@);
            assert(k.take(i + 1).drop_last() =~= k.take(i as int));
            let (known, asserted): (bool, bool) = classes_of(dataset, keys[i]);
            if known {
                cov.known = cov.known + 1;
            } else if asserted || holds(attested, keys[i]) {
                cov.asserted = cov.asserted + 1;
            } else {
                cov.unknown = cov.unknown + 1;
            }
            i = i + 1;
        }
        assert(k.take(i as int) =~= k);
        cov
    }

    /// The number of expected elements considered.
    pub open spec fn spec_total(self) -> int {
        self.known + self.asserted + self.unknown
    }

    /// Percentage of expected elements that are known or asserted; 100 when nothing is expected.
    pub open spec fn spec_covered_pct(self) -> int {
        if self.spec_total() == 0 {
            100
        } else {
            (self.known + self.asserted) * 100 / self.spec_total()
        }
    }

    /// Whether the counts can be added up and taken a hundred times.
    pub open spec fn fits(self) -> bool {
        self.spec_total() <= u32::MAX && (self.known + self.asserted) * 100 <= u32::MAX
    }

    /// Total expected elements considered (the denominator).
    pub fn total(&self) -> (r: u32)
        requires
            self.spec_total() <= u32::MAX,
        ensures
            r as int == self.spec_total(),
    {
        self.known + self.asserted + self.unknown
    }

    /// Percentage of expected elements that are known or asserted (0–100, integer). 100 when nothing
    /// is expected.
    pub fn covered_pct(&self) -> (r: u32)
        requires
            self.fits(),
        ensures
            r as int == self.spec_covered_pct(),
            r <= 100,
    {
        proof {
            law_share_is_a_percentage(*self);
        }
        let total: u32 = self.total();
        if total == 0 {
            return 100;
        }
        (self.known + self.asserted) * 100 / total
    }
}

/// The covered share is between nothing and all of the expected elements.
pub proof fn law_share_is_a_percentage(c: ProvenanceCoverage)
    ensures
        0 <= c.spec_covered_pct() <= 100,
        c.known == 0 && c.asserted == 0 && c.unknown > 0 ==> c.spec_covered_pct() == 0,
{
    let t = c.spec_total();
    if t > 0 {
        let n = (c.known + c.asserted) * 100;
        assert(n <= 100 * t);
        assert(0 <= n / t <= 100) by (nonlinear_arith)
            requires
                0 <= n <= 100 * t,
                t > 0,
        ;
        if n == 0 {
            assert(n / t == 0) by (nonlinear_arith)
                requires
                    n == 0,
                    t > 0,
            ;
        }
    }
}

/// Every expected element is counted once: as known, as asserted or as unknown.
pub proof fn law_coverage_adds_up(c: ProvenanceCoverage, s: Seq<ProvenanceElement>, attested: Seq<Seq<char>>)
    requires
        covers(c, s, attested),
    ensures
        c.spec_total() == 6,
        c.fits(),
{
    lemma_counted(s, attested, expected_keys());
}

/// Each of some keys is of one class.
proof fn lemma_counted(s: Seq<ProvenanceElement>, attested: Seq<Seq<char>>, keys: Seq<Seq<char>>)
    ensures
        class_count(s, attested, keys, ProvenanceClass::Known) + class_count(
            s,
            attested,
            keys,
            ProvenanceClass::Asserted,
        ) + class_count(s, attested, keys, ProvenanceClass::Unknown) == keys.len(),
    decreases keys.len(),
{
    if keys.len() > 0 {
        lemma_counted(s, attested, keys.drop_last());
    }
}

/// An attestation never lowers coverage, and never takes the place of a value that the dataset
/// records itself.
pub proof fn law_attesting_never_lowers_coverage(
    a: ProvenanceCoverage,
    b: ProvenanceCoverage,
    s: Seq<ProvenanceElement>,
    attested: Seq<Seq<char>>,
)
    requires
        covers(a, s, Seq::empty()),
        covers(b, s, attested),
    ensures
        a.known == b.known,
        a.asserted <= b.asserted,
        b.unknown <= a.unknown,
{
    lemma_attested(s, attested, expected_keys());
}

/// What an attestation does to some keys.
proof fn lemma_attested(s: Seq<ProvenanceElement>, attested: Seq<Seq<char>>, keys: Seq<Seq<char>>)
    ensures
        class_count(s, Seq::empty(), keys, ProvenanceClass::Known) == class_count(
            s,
            attested,
            keys,
            ProvenanceClass::Known,
        ),
        class_count(s, Seq::empty(), keys, ProvenanceClass::Asserted) <= class_count(
            s,
            attested,
            keys,
            ProvenanceClass::Asserted,
        ),
        class_count(s, attested, keys, ProvenanceClass::Unknown) <= class_count(
            s,
            Seq::empty(),
            keys,
            ProvenanceClass::Unknown,
        ),
    decreases keys.len(),
{
    if keys.len() > 0 {
        lemma_attested(s, attested, keys.drop_last());
    }
}

} // verus!
