//! Provenance emit: render the CDM's extracted provenance as portable metadata.
//!
//! Veridex rides existing standards rather than inventing a rival format: it emits **MLCommons
//! Croissant** (JSON-LD) for distribution, plus a **minimal W3C PROV** lineage. Both carry only what
//! the CDM actually knows — each provenance element keeps its known / asserted / unknown class, and
//! nothing is fabricated.

use vstd::prelude::*;
use vstd::string::*;
use vstd::utf8::*;

use crate::cat::{cat2, cat3, cat4};
use crate::cdm::{Dataset, Provenance, ProvenanceClass, ProvenanceElement};
use crate::checks::provenance;
use crate::json;
use crate::json::{member, opt_json, pretty_text, text_json, texts_json, Json, JsonView, Member};
use crate::seqs;
use crate::seqs::put_text;
use crate::split;
use crate::split::list;
use crate::text;
use crate::text::{among, before, join, lower, same};

verus! {

broadcast use text::lemma_texts_push;

// ---- elements --------------------------------------------------------------------------------

/// What a provenance element says.
pub struct ElementView {
    /// What the statement is about.
    pub key: Seq<char>,
    /// What it says.
    pub value: Option<Seq<char>>,
    /// How it is known.
    pub class: ProvenanceClass,
    /// Whether the value only stands in for one that is missing.
    pub placeholder: bool,
}

/// What a provenance element says.
pub open spec fn facts(e: ProvenanceElement) -> ElementView {
    ElementView { key: e.key@, value: json::opt_view(e.value), class: e.class, placeholder: e.placeholder }
}

/// What provenance elements say.
pub open spec fn all_facts(s: Seq<ProvenanceElement>) -> Seq<ElementView> {
    s.map_values(|e: ProvenanceElement| facts(e))
}

/// What a producer attests, as an element: it is asserted.
pub open spec fn attested_facts(e: ProvenanceElement) -> ElementView {
    ElementView { class: ProvenanceClass::Asserted, ..facts(e) }
}

/// What a producer attests.
pub open spec fn all_attested(s: Seq<ProvenanceElement>) -> Seq<ElementView> {
    s.map_values(|e: ProvenanceElement| attested_facts(e))
}

/// What a dataset records about itself, and what a producer attests about it. An attestation never
/// overwrites an element the dataset records.
pub open spec fn recorded(records: Seq<Provenance>, attested: Seq<ProvenanceElement>) -> Seq<ElementView> {
    all_facts(provenance::all_elements(records)) + all_attested(attested)
}

/// The place of a class in the order.
pub open spec fn class_level(c: ProvenanceClass) -> int {
    match c {
        ProvenanceClass::Known => 0,
        ProvenanceClass::Asserted => 1,
        ProvenanceClass::Unknown => 2,
    }
}

/// Whether an optional text comes before another: nothing comes first.
pub open spec fn value_lt(a: Option<Seq<char>>, b: Option<Seq<char>>) -> bool {
    match (a, b) {
        (None, Some(_)) => true,
        (Some(x), Some(y)) => text::str_lt(x, y),
        _ => false,
    }
}

/// Whether an element comes before another: by key, then by value, then by class.
pub open spec fn element_lt(a: ElementView, b: ElementView) -> bool {
    text::str_lt(a.key, b.key) || (a.key == b.key && (value_lt(a.value, b.value) || (a.value == b.value
        && class_level(a.class) < class_level(b.class))))
}

/// The order of elements, as a function.
pub open spec fn element_order() -> spec_fn(ElementView, ElementView) -> bool {
    |a: ElementView, b: ElementView| element_lt(a, b)
}

/// Whether an element comes before another.
fn element_before(a: &ProvenanceElement, b: &ProvenanceElement) -> (r: bool)
    ensures
        r == element_lt(facts(*a), facts(*b)),
{
    if before(a.key.as_str(), b.key.as_str()) {
        return true;
    }
    if !same(a.key.as_str(), b.key.as_str()) {
        return false;
    }
    match (&a.value, &b.value) {
        (None, Some(_)) => {
            return true;
        },
        (Some(_), None) => {
            return false;
        },
        (Some(x), Some(y)) => {
            if before(x.as_str(), y.as_str()) {
                return true;
            }
            if !same(x.as_str(), y.as_str()) {
                return false;
            }
        },
        (None, None) => {},
    }
    rank(a.class) < rank(b.class)
}

/// The place of a class in the order.
fn rank(c: ProvenanceClass) -> (r: u8)
    ensures
        r as int == class_level(c),
{
    match c {
        ProvenanceClass::Known => 0,
        ProvenanceClass::Asserted => 1,
        ProvenanceClass::Unknown => 2,
    }
}

/// A copy of an element, under a class.
fn copy_element(e: &ProvenanceElement, class: ProvenanceClass) -> (r: ProvenanceElement)
    ensures
        facts(r) == (ElementView { class, ..facts(*e) }),
{
    ProvenanceElement {
        key: e.key.clone(),
        value: match &e.value {
            Some(v) => Some(v.clone()),
            None => None,
        },
        class,
        placeholder: e.placeholder,
    }
}

/// One element more.
proof fn lemma_facts_push(s: Seq<ProvenanceElement>, e: ProvenanceElement)
    ensures
        all_facts(s.push(e)) == all_facts(s).push(facts(e)),
{
    assert(all_facts(s.push(e)) =~= all_facts(s).push(facts(e)));
}

/// What a dataset records about itself, and what a producer attests about it.
fn gather(dataset: &Dataset, attested: &Vec<ProvenanceElement>) -> (r: Vec<ProvenanceElement>)
    ensures
        all_facts(r@) == recorded(dataset.provenance@, attested@),
{
    let ghost p = dataset.provenance@;
    let mut out: Vec<ProvenanceElement> = Vec::new();
    let mut i: usize = 0;
    assert(all_facts(out@) =~= all_facts(provenance::all_elements(p.take(0))));
    while i < dataset.provenance.len()
        invariant
            i <= p.len(),
            p == dataset.provenance@,
            all_facts(out@) == all_facts(provenance::all_elements(p.take(i as int))),
        decreases p.len() - i,
    {
        let record: &Provenance = &dataset.provenance[i];
        let ghost done = provenance::all_elements(p.take(i as int));
        let ghost s = record.elements@;
        let mut j: usize = 0;
        assert(done + s.take(0) =~= done);
        while j < record.elements.len()
            invariant
                j <= s.len(),
                s == record.elements@,
                all_facts(out@) == all_facts(done + s.take(j as int)),
            decreases s.len() - j,
        {
            proof {
                assert(done + s.take(j + 1) =~= (done + s.take(j as int)).push(s[j as int]));
                lemma_facts_push(done + s.take(j as int), s[j as int]);
            }
            let e: ProvenanceElement = copy_element(&record.elements[j], record.elements[j].class);
            proof {
                lemma_facts_push(out@, e);
            }
            out.push(e);
            j = j + 1;
        }
        proof {
            assert(s.take(j as int) =~= s);
            assert(p.take(i + 1).drop_last() =~= p.take(i as int));
        }
        i = i + 1;
    }
    assert(p.take(i as int) =~= p);
    let ghost head = all_facts(provenance::all_elements(p));
    let ghost a = all_attested(attested@);
    let mut k: usize = 0;
    assert(head + a.take(0) =~= head);
    while k < attested.len()
        invariant
            k <= attested@.len(),
            a == all_attested(attested@),
            all_facts(out@) == head + a.take(k as int),
        decreases attested@.len() - k,
    {
        let e: ProvenanceElement = copy_element(&attested[k], ProvenanceClass::Asserted);
        proof {
            lemma_facts_push(out@, e);
            assert(a[k as int] == facts(e));
            assert(head + a.take(k + 1) =~= (head + a.take(k as int)).push(a[k as int]));
        }
        out.push(e);
        k = k + 1;
    }
    assert(a.take(k as int) =~= a);
    out
}

/// Elements sorted by their full content, so that datasets that record the same render the same.
fn sort_elements(elements: Vec<ProvenanceElement>) -> (r: Vec<ProvenanceElement>)
    ensures
        all_facts(r@) == seqs::sorted(all_facts(elements@), element_order()),
{
    let ghost all = all_facts(elements@);
    let mut out: Vec<ProvenanceElement> = Vec::new();
    let mut i: usize = 0;
    assert(all_facts(out@) =~= seqs::sorted(all.take(0), element_order()));
    while i < elements.len()
        invariant
            i <= elements@.len(),
            all == all_facts(elements@),
            all_facts(out@) == seqs::sorted(all.take(i as int), element_order()),
        decreases elements@.len() - i,
    {
        let e: ProvenanceElement = copy_element(&elements[i], elements[i].class);
        let ghost v = all_facts(out@);
        let mut k: usize = 0;
        while k < out.len() && !element_before(&e, &out[k])
            invariant
                k <= out@.len(),
                v == all_facts(out@),
                forall|j: int| 0 <= j < k ==> !element_lt(facts(e), #[trigger] v[j]),
            decreases out@.len() - k,
        {
            assert(v[k as int] == facts(out@[k as int]));
            k = k + 1;
        }
        proof {
            if k < out@.len() {
                assert(v[k as int] == facts(out@[k as int]));
            }
            seqs::lemma_placed_at(v, facts(e), element_order(), k as int);
            assert(all_facts(out@.insert(k as int, e)) =~= v.insert(k as int, facts(e)));
            assert(all[i as int] == facts(e));
            assert(all.take(i + 1).drop_last() =~= all.take(i as int));
        }
        out.insert(k, e);
        i = i + 1;
    }
    assert(all.take(i as int) =~= all);
    out
}

// ---- known values ----------------------------------------------------------------------------

/// Whether an element carries a value under a key that is known or asserted. A placeholder value
/// would present fake provenance as real.
pub open spec fn states(e: ElementView, key: Seq<char>) -> bool {
    e.key == key && !(e.class is Unknown) && e.value is Some && !e.placeholder
}

/// The values that elements state under a key, as they stand.
pub open spec fn stated(s: Seq<ElementView>, key: Seq<char>) -> Seq<Seq<char>>
    decreases s.len(),
{
    if s.len() == 0 {
        Seq::empty()
    } else if states(s.last(), key) {
        stated(s.drop_last(), key).push(s.last().value->0)
    } else {
        stated(s.drop_last(), key)
    }
}

/// Every distinct known-or-asserted value recorded under a key, sorted: for the keys where more than
/// one value is a fact about the dataset rather than a contradiction.
pub open spec fn values_of(s: Seq<ElementView>, key: Seq<char>) -> Seq<Seq<char>> {
    seqs::text_set(stated(s, key))
}

/// The known-or-asserted value under a key: the smallest, whatever the order of the elements.
pub open spec fn value_of(s: Seq<ElementView>, key: Seq<char>) -> Option<Seq<char>> {
    if values_of(s, key).len() > 0 { Some(values_of(s, key)[0]) } else { None }
}

/// Every distinct known-or-asserted value recorded for a key, sorted.
fn known_values(elements: &Vec<ProvenanceElement>, key: &str) -> (r: Vec<String>)
    ensures
        text::texts(r@) == values_of(all_facts(elements@), key@),
{
    let ghost s = all_facts(elements@);
    let mut out: Vec<String> = Vec::new();
    let mut i: usize = 0;
    assert(text::texts(out@) =~= Seq::empty());
    while i < elements.len()
        invariant
            i <= elements@.len(),
            s == all_facts(elements@),
            text::texts(out@) == values_of(s.take(i as int), key@),
        decreases elements@.len() - i,
    {
        let e: &ProvenanceElement = &elements[i];
        proof {
            assert(s[i as int] == facts(*e));
            assert(s.take(i + 1).drop_last() =~= s.take(i as int));
            assert(s.take(i + 1).last() == s[i as int]);
        }
        if e.class != ProvenanceClass::Unknown && e.has_real_value() && same(e.key.as_str(), key) {
            if let Some(v) = &e.value {
                proof {
                    seqs::lemma_distinct_step(stated(s.take(i as int), key@), seqs::text_order(), v@);
                }
                let _new: bool = put_text(&mut out, v.as_str());
            }
        }
        i = i + 1;
    }
    assert(s.take(i as int) =~= s);
    out
}

/// The known-or-asserted value under a key.
fn known_value(elements: &Vec<ProvenanceElement>, key: &str) -> (r: Option<String>)
    ensures
        json::opt_view(r) == value_of(all_facts(elements@), key@),
{
    let values: Vec<String> = known_values(elements, key);
    assert(text::texts(values@).len() == values@.len());
    if values.len() > 0 {
        assert(text::texts(values@)[0] == values@[0]@);
        Some(values[0].clone())
    } else {
        None
    }
}

/// Nothing is fabricated: what is emitted under a key is the value of an element that states it, and
/// every such value is emitted.
pub proof fn law_values_are_recorded(s: Seq<ElementView>, key: Seq<char>, v: Seq<char>)
    ensures
        values_of(s, key).contains(v) <==> (exists|i: int|
            0 <= i < s.len() && states(#[trigger] s[i], key) && s[i].value == Some(v)),
{
    seqs::lemma_distinct_contains(stated(s, key), seqs::text_order(), v);
    lemma_stated(s, key, v);
}

/// The stated values are those of the elements that state one.
proof fn lemma_stated(s: Seq<ElementView>, key: Seq<char>, v: Seq<char>)
    ensures
        stated(s, key).contains(v) <==> (exists|i: int|
            0 <= i < s.len() && states(#[trigger] s[i], key) && s[i].value == Some(v)),
    decreases s.len(),
{
    if s.len() > 0 {
        let rest = s.drop_last();
        lemma_stated(rest, key, v);
        let t = stated(rest, key);
        if states(s.last(), key) {
            let x = s.last().value->0;
            if t.push(x).contains(v) {
                let k = choose|k: int| 0 <= k < t.push(x).len() && t.push(x)[k] == v;
                if k < t.len() {
                    assert(t[k] == v);
                    let i = choose|i: int| 0 <= i < rest.len() && states(#[trigger] rest[i], key) && rest[i].value == Some(v);
                    assert(states(s[i], key));
                } else {
                    assert(states(s[s.len() - 1], key));
                }
            }
        } else if t.contains(v) {
            let i = choose|i: int| 0 <= i < rest.len() && states(#[trigger] rest[i], key) && rest[i].value == Some(v);
            assert(states(s[i], key));
        }
        if exists|i: int| 0 <= i < s.len() && states(#[trigger] s[i], key) && s[i].value == Some(v) {
            let i = choose|i: int| 0 <= i < s.len() && states(#[trigger] s[i], key) && s[i].value == Some(v);
            if i < s.len() - 1 {
                assert(states(rest[i], key));
                let k = choose|k: int| 0 <= k < t.len() && t[k] == v;
                if states(s.last(), key) {
                    assert(t.push(s.last().value->0)[k] == v);
                }
            } else {
                assert(t.push(v)[t.len() as int] == v);
            }
        }
    }
}

// ---- annotators ------------------------------------------------------------------------------

/// The Hugging Face `annotations_creators` vocabulary: how a dataset's annotations were *produced*,
/// not who produced them. They are categories, not agents: emitting a person of such a name would
/// assert one that no source named.
pub const ANNOTATION_CREATOR_CATEGORIES: [&'static str; 6] = [
    "crowdsourced",
    "expert-generated",
    "machine-generated",
    "found",
    "no-annotation",
    "other",
];

/// Whether an `annotator` value names an agent that can be attributed to: some part of it is not a
/// category, in whatever case.
pub open spec fn names_an_agent(value: Seq<char>) -> bool {
    exists|i: int|
        0 <= i < split::items(value).len() && !text::str_texts(ANNOTATION_CREATOR_CATEGORIES@).contains(
            text::lowered(#[trigger] split::items(value)[i]),
        )
}

/// Whether an `annotator` value names an agent that can be attributed to, rather than a category of
/// how the annotations were made.
fn annotator_names_an_agent(value: &str) -> (r: bool)
    ensures
        r == names_an_agent(value@),
{
    let parts: Vec<String> = list(value);
    let categories: [&'static str; 6] = ANNOTATION_CREATOR_CATEGORIES;
    let ghost t = text::texts(parts@);
    let mut i: usize = 0;
    while i < parts.len()
        invariant
            i <= parts@.len(),
            t == text::texts(parts@),
            t == split::items(value@),
            categories == ANNOTATION_CREATOR_CATEGORIES,
            forall|k: int|
                0 <= k < i ==> text::str_texts(ANNOTATION_CREATOR_CATEGORIES@).contains(text::lowered(#[trigger] t[k])),
        decreases parts@.len() - i,
    {
        assert(t[i as int] == parts@[i as int]@);
        if !among(categories.as_slice(), lower(parts[i].as_str()).as_str()) {
            return true;
        }
        i = i + 1;
    }
    assert(t.len() == parts@.len());
    false
}

/// The annotators that name an agent, or those that do not.
pub open spec fn annotators(s: Seq<Seq<char>>, agents: bool) -> Seq<Seq<char>>
    decreases s.len(),
{
    if s.len() == 0 {
        Seq::empty()
    } else if names_an_agent(s.last()) == agents {
        annotators(s.drop_last(), agents).push(s.last())
    } else {
        annotators(s.drop_last(), agents)
    }
}

/// The annotators that name an agent, or those that do not.
fn list_annotators(values: &Vec<String>, agents: bool) -> (r: Vec<String>)
    ensures
        text::texts(r@) == annotators(text::texts(values@), agents),
{
    let ghost t = text::texts(values@);
    let mut out: Vec<String> = Vec::new();
    let mut i: usize = 0;
    assert(text::texts(out@) =~= Seq::empty());
    while i < values.len()
        invariant
            i <= values@.len(),
            t == text::texts(values@),
            text::texts(out@) == annotators(t.take(i as int), agents),
        decreases values@.len() - i,
    {
        assert(t[i as int] == values@[i as int]@);
        assert(t.take(i + 1).drop_last() =~= t.take(i as int));
        if annotator_names_an_agent(values[i].as_str()) == agents {
            out.push(values[i].clone());
        }
        i = i + 1;
    }
    assert(t.take(i as int) =~= t);
    out
}

// ---- identifiers -----------------------------------------------------------------------------

/// Whether a byte stands for itself in an identifier.
pub open spec fn is_unreserved(b: u8) -> bool {
    (65 <= b <= 90) || (97 <= b <= 122) || (48 <= b <= 57) || b == 45 || b == 46 || b == 95 || b == 126
}

/// An upper-case hexadecimal digit.
pub open spec fn hex_digit(d: int) -> char {
    if d < 10 { (48 + d) as char } else { (55 + d) as char }
}

/// A byte in an identifier.
pub open spec fn escaped_byte(b: u8) -> Seq<char> {
    if is_unreserved(b) {
        seq![b as char]
    } else {
        seq!['%', hex_digit(b as int / 16), hex_digit(b as int % 16)]
    }
}

/// Bytes in an identifier.
pub open spec fn escaped(s: Seq<u8>) -> Seq<char>
    decreases s.len(),
{
    if s.len() == 0 {
        Seq::empty()
    } else {
        escaped(s.drop_last()) + escaped_byte(s.last())
    }
}

/// A text as one segment of a compact IRI: unreserved characters pass through, every other byte of
/// its encoding is percent-encoded.
pub open spec fn segment(s: Seq<char>) -> Seq<char> {
    escaped(encode_utf8(s))
}

/// An upper-case hexadecimal digit.
fn hex_of(d: u8) -> (r: char)
    requires
        d < 16,
    ensures
        r == hex_digit(d as int),
{
    if d < 10 {
        (48u8 + d) as char
    } else {
        (55u8 + d) as char
    }
}

/// Percent-encode one segment of a compact IRI. Every value interpolated into an `@id` is free text,
/// and a JSON-LD processor drops a node whose identifier is not well-formed, with every statement
/// about it.
pub fn iri_segment(s: &str) -> (r: String)
    ensures
        r@ == segment(s@),
{
    let bytes: &[u8] = s.as_bytes();
    let mut out: String = String::new();
    let mut i: usize = 0;
    while i < bytes.len()
        invariant
            i <= bytes@.len(),
            bytes@ == encode_utf8(s@),
            out@ == escaped(bytes@.take(i as int)),
        decreases bytes@.len() - i,
    {
        let b: u8 = bytes[i];
        let ghost was = out@;
        assert(bytes@.take(i + 1).drop_last() =~= bytes@.take(i as int));
        if (65 <= b && b <= 90) || (97 <= b && b <= 122) || (48 <= b && b <= 57) || b == 45 || b == 46 || b == 95
            || b == 126 {
            out.push(b as char);
        } else {
            out.push('%');
            out.push(hex_of(b / 16));
            out.push(hex_of(b % 16));
        }
        assert(out@ =~= was + escaped_byte(b));
        i = i + 1;
    }
    assert(bytes@.take(i as int) =~= bytes@);
    out
}

/// Whether a character may stand in an identifier.
pub open spec fn is_safe(c: char) -> bool {
    ('A' <= c && c <= 'Z') || ('a' <= c && c <= 'z') || ('0' <= c && c <= '9') || c == '-' || c == '.' || c == '_' || c
        == '~' || c == '%'
}

/// A segment holds only characters that may stand in an identifier.
pub proof fn law_segments_are_well_formed(s: Seq<char>)
    ensures
        forall|i: int| 0 <= i < segment(s).len() ==> is_safe(#[trigger] segment(s)[i]),
{
    lemma_escaped_is_safe(encode_utf8(s));
}

/// Bytes in an identifier are safe characters.
proof fn lemma_escaped_is_safe(s: Seq<u8>)
    ensures
        forall|i: int| 0 <= i < escaped(s).len() ==> is_safe(#[trigger] escaped(s)[i]),
    decreases s.len(),
{
    if s.len() > 0 {
        lemma_escaped_is_safe(s.drop_last());
        let (head, tail) = (escaped(s.drop_last()), escaped_byte(s.last()));
        assert forall|i: int| 0 <= i < escaped(s).len() implies is_safe(#[trigger] escaped(s)[i]) by {
            if i < head.len() {
                assert(escaped(s)[i] == head[i]);
            } else {
                assert(escaped(s)[i] == tail[i - head.len()]);
            }
        }
    }
}

/// Different texts have different segments, so that no two agents or datasets share an identifier.
pub proof fn law_segments_differ(a: Seq<char>, b: Seq<char>)
    ensures
        segment(a) == segment(b) <==> a == b,
{
    text::lemma_encoding_is_injective(a, b);
    if segment(a) == segment(b) {
        lemma_escaped_differ(encode_utf8(a), encode_utf8(b));
    }
}

/// A byte is written in one way: its first character tells how long it is.
proof fn lemma_first(s: Seq<u8>)
    requires
        s.len() > 0,
    ensures
        escaped(s) == escaped_byte(s[0]) + escaped(s.skip(1)),
    decreases s.len(),
{
    if s.len() == 1 {
        assert(s.drop_last() =~= Seq::empty());
        assert(s.skip(1) =~= Seq::empty());
        assert(escaped(s) =~= escaped_byte(s[0]) + escaped(s.skip(1)));
    } else {
        lemma_first(s.drop_last());
        assert(s.drop_last().skip(1) =~= s.skip(1).drop_last());
        assert(escaped(s) =~= escaped_byte(s[0]) + escaped(s.skip(1)));
    }
}

/// Different bytes are written differently.
proof fn lemma_escaped_differ(a: Seq<u8>, b: Seq<u8>)
    requires
        escaped(a) == escaped(b),
    ensures
        a == b,
    decreases a.len(),
{
    if a.len() == 0 {
        if b.len() > 0 {
            lemma_first(b);
            assert(escaped(b).len() > 0);
        }
        assert(a =~= b);
    } else if b.len() == 0 {
        lemma_first(a);
        assert(escaped(a).len() > 0);
    } else {
        lemma_first(a);
        lemma_first(b);
        let (x, y) = (escaped_byte(a[0]), escaped_byte(b[0]));
        let (u, v) = (escaped(a.skip(1)), escaped(b.skip(1)));
        let t = x + u;
        assert(t[0] == x[0]);
        assert((y + v)[0] == y[0]);
        assert(is_unreserved(a[0]) == is_unreserved(b[0]));
        if !is_unreserved(a[0]) {
            assert(t[1] == x[1] && t[2] == x[2]);
            assert((y + v)[1] == y[1] && (y + v)[2] == y[2]);
        }
        assert(a[0] == b[0]);
        assert(t.skip(x.len() as int) =~= u);
        assert((y + v).skip(y.len() as int) =~= v);
        lemma_escaped_differ(a.skip(1), b.skip(1));
        assert(a =~= seq![a[0]] + a.skip(1));
        assert(b =~= seq![b[0]] + b.skip(1));
    }
}

// ---- parts of documents ----------------------------------------------------------------------

/// A member where a condition holds; nothing elsewhere.
pub open spec fn member_if(holds: bool, name: Seq<char>, value: JsonView) -> Seq<(Seq<char>, JsonView)> {
    if holds { seq![(name, value)] } else { Seq::empty() }
}

/// A reference to a node.
pub open spec fn reference(id: Seq<char>) -> JsonView {
    JsonView::Object(seq![("@id"@, JsonView::Text(id))])
}

/// References to nodes.
pub open spec fn references(ids: Seq<Seq<char>>) -> Seq<JsonView> {
    ids.map_values(|id: Seq<char>| reference(id))
}

/// A person.
pub open spec fn person(name: Seq<char>) -> JsonView {
    JsonView::Object(seq![("@type"@, JsonView::Text("Person"@)), ("name"@, JsonView::Text(name))])
}

/// Persons.
pub open spec fn persons(names: Seq<Seq<char>>) -> Seq<JsonView> {
    names.map_values(|n: Seq<char>| person(n))
}

/// A list, or its only element.
pub open spec fn one_or_many(s: Seq<JsonView>) -> JsonView {
    if s.len() == 1 { s[0] } else { JsonView::List(s) }
}

/// An element as a document.
pub open spec fn element_doc(e: ElementView) -> JsonView {
    JsonView::Object(
        seq![
            ("key"@, JsonView::Text(e.key)),
            ("value"@, json::opt_text_view(e.value)),
            ("class"@, JsonView::Text(e.class.spec_tag())),
        ],
    )
}

/// Elements as documents.
pub open spec fn element_docs(s: Seq<ElementView>) -> Seq<JsonView> {
    s.map_values(|e: ElementView| element_doc(e))
}

/// The keys of elements.
pub open spec fn keys_of(s: Seq<ElementView>) -> Seq<Seq<char>> {
    s.map_values(|e: ElementView| e.key)
}

/// A reference to a node.
fn make_reference(id: &str) -> (r: Json)
    ensures
        r.doc() == reference(id@),
{
    broadcast use json::group_json;

    let mut m: Vec<Member> = Vec::new();
    m.push(member("@id", text_json(id)));
    assert(json::members(m@) =~= reference(id@)->Object_0);
    Json::Object(m)
}

/// References to nodes.
fn list_references(ids: &Vec<String>) -> (r: Vec<Json>)
    ensures
        json::docs(r@) == references(text::texts(ids@)),
{
    broadcast use json::group_json;

    let ghost all = references(text::texts(ids@));
    let mut out: Vec<Json> = Vec::new();
    let mut i: usize = 0;
    assert(json::docs(out@) =~= all.take(0));
    while i < ids.len()
        invariant
            i <= ids@.len(),
            all == references(text::texts(ids@)),
            json::docs(out@) == all.take(i as int),
        decreases ids@.len() - i,
    {
        out.push(make_reference(ids[i].as_str()));
        assert(all.take(i + 1) =~= all.take(i as int).push(all[i as int]));
        i = i + 1;
    }
    assert(all.take(i as int) =~= all);
    out
}

/// A person.
fn make_person(name: &str) -> (r: Json)
    ensures
        r.doc() == person(name@),
{
    broadcast use json::group_json;

    let mut m: Vec<Member> = Vec::new();
    m.push(member("@type", text_json("Person")));
    m.push(member("name", text_json(name)));
    assert(json::members(m@) =~= person(name@)->Object_0);
    Json::Object(m)
}

/// Persons.
fn list_persons(names: &Vec<String>) -> (r: Vec<Json>)
    ensures
        json::docs(r@) == persons(text::texts(names@)),
{
    broadcast use json::group_json;

    let ghost all = persons(text::texts(names@));
    let mut out: Vec<Json> = Vec::new();
    let mut i: usize = 0;
    assert(json::docs(out@) =~= all.take(0));
    while i < names.len()
        invariant
            i <= names@.len(),
            all == persons(text::texts(names@)),
            json::docs(out@) == all.take(i as int),
        decreases names@.len() - i,
    {
        out.push(make_person(names[i].as_str()));
        assert(all.take(i + 1) =~= all.take(i as int).push(all[i as int]));
        i = i + 1;
    }
    assert(all.take(i as int) =~= all);
    out
}

/// A list, or its only element.
fn pack(list: Vec<Json>) -> (r: Json)
    ensures
        r.doc() == one_or_many(json::docs(list@)),
{
    broadcast use json::group_json;

    let ghost d = json::docs(list@);
    let mut items: Vec<Json> = list;
    if items.len() == 1 {
        assert(d[0] == items@[0].doc());
        items.remove(0)
    } else {
        assert(d.len() == items@.len());
        Json::List(items)
    }
}

/// An element as a document.
fn make_element(e: &ProvenanceElement) -> (r: Json)
    ensures
        r.doc() == element_doc(facts(*e)),
{
    broadcast use json::group_json;

    let mut m: Vec<Member> = Vec::new();
    m.push(member("key", text_json(e.key.as_str())));
    m.push(member("value", opt_json(&e.value)));
    m.push(member("class", text_json(e.class.tag())));
    assert(json::members(m@) =~= element_doc(facts(*e))->Object_0);
    Json::Object(m)
}

/// Elements as documents.
fn list_elements(elements: &Vec<ProvenanceElement>) -> (r: Vec<Json>)
    ensures
        json::docs(r@) == element_docs(all_facts(elements@)),
{
    broadcast use json::group_json;

    let ghost all = element_docs(all_facts(elements@));
    let mut out: Vec<Json> = Vec::new();
    let mut i: usize = 0;
    assert(json::docs(out@) =~= all.take(0));
    while i < elements.len()
        invariant
            i <= elements@.len(),
            all == element_docs(all_facts(elements@)),
            json::docs(out@) == all.take(i as int),
        decreases elements@.len() - i,
    {
        out.push(make_element(&elements[i]));
        assert(all[i as int] == element_doc(facts(elements@[i as int])));
        assert(all.take(i + 1) =~= all.take(i as int).push(all[i as int]));
        i = i + 1;
    }
    assert(all.take(i as int) =~= all);
    out
}

/// The keys of elements.
fn list_keys(elements: &Vec<ProvenanceElement>) -> (r: Vec<String>)
    ensures
        text::texts(r@) == keys_of(all_attested(elements@)),
{
    let ghost all = keys_of(all_attested(elements@));
    let mut out: Vec<String> = Vec::new();
    let mut i: usize = 0;
    assert(text::texts(out@) =~= all.take(0));
    while i < elements.len()
        invariant
            i <= elements@.len(),
            all == keys_of(all_attested(elements@)),
            text::texts(out@) == all.take(i as int),
        decreases elements@.len() - i,
    {
        out.push(elements[i].key.clone());
        assert(all[i as int] == elements@[i as int].key@);
        assert(all.take(i + 1) =~= all.take(i as int).push(all[i as int]));
        i = i + 1;
    }
    assert(all.take(i as int) =~= all);
    out
}

/// Adds a member.
fn add_text(m: &mut Vec<Member>, name: &str, value: &str)
    ensures
        json::members(final(m)@) == json::members(old(m)@).push((name@, JsonView::Text(value@))),
{
    broadcast use json::group_json;

    m.push(member(name, text_json(value)));
}

// ---- Croissant -------------------------------------------------------------------------------

/// The context of a Croissant document: a JSON-LD document means whatever its context says it means.
pub open spec fn croissant_context() -> JsonView {
    JsonView::Object(
        seq![
            ("@vocab"@, JsonView::Text("https://schema.org/"@)),
            ("sc"@, JsonView::Text("https://schema.org/"@)),
            ("cr"@, JsonView::Text("http://mlcommons.org/croissant/"@)),
            ("dct"@, JsonView::Text("http://purl.org/dc/terms/"@)),
            ("conformsTo"@, JsonView::Text("dct:conformsTo"@)),
            ("veridex"@, JsonView::Text("https://veridex.dev/ns#"@)),
        ],
    )
}

/// The file object that the certificate also binds to.
pub open spec fn file_object(hash: Seq<char>) -> JsonView {
    JsonView::Object(
        seq![
            ("@type"@, JsonView::Text("cr:FileObject"@)),
            ("@id"@, JsonView::Text("cdm"@)),
            ("name"@, JsonView::Text("canonical-dataset-model"@)),
            ("description"@, JsonView::Text("The canonicalized Veridex CDM this metadata describes."@)),
            ("sha256"@, JsonView::Text(hash)),
        ],
    )
}

/// Who attested what.
pub open spec fn attested_by(producer: Seq<char>, keys: Seq<Seq<char>>) -> JsonView {
    JsonView::Object(
        seq![
            ("producer_key"@, JsonView::Text(producer)),
            ("keys"@, JsonView::List(json::text_views(keys))),
        ],
    )
}

/// A Croissant document of a dataset with an id, under a content hash, with recorded and attested
/// provenance. The license and the annotators that are known stand in the standard fields; a category
/// of annotators is no person, and is carried as what it is; the classified list holds every element.
pub open spec fn croissant(
    id: Seq<char>,
    hash: Seq<char>,
    elements: Seq<ElementView>,
    producer: Seq<char>,
    attested: Seq<Seq<char>>,
) -> JsonView {
    let license = value_of(elements, "license"@);
    let people = annotators(values_of(elements, "annotator"@), true);
    let categories = annotators(values_of(elements, "annotator"@), false);
    JsonView::Object(
        seq![
            ("@context"@, croissant_context()),
            ("@type"@, JsonView::Text("sc:Dataset"@)),
            ("conformsTo"@, JsonView::Text("http://mlcommons.org/croissant/1.0"@)),
            ("name"@, JsonView::Text(id)),
            ("description"@, JsonView::Text("Veridex-extracted provenance for `"@ + id + "`."@)),
        ] + member_if(license is Some, "license"@, JsonView::Text(license->0)) + member_if(
            people.len() > 0,
            "creator"@,
            one_or_many(persons(people)),
        ) + member_if(
            categories.len() > 0,
            "veridex:annotationCreators"@,
            JsonView::Text(text::joined(categories, ", "@)),
        ) + seq![
            ("distribution"@, JsonView::List(seq![file_object(hash)])),
            (
                "veridex:provenance"@,
                JsonView::List(element_docs(seqs::sorted(elements, element_order()))),
            ),
        ] + member_if(attested.len() > 0, "veridex:attestedBy"@, attested_by(producer, attested)),
    )
}

/// The context of a Croissant document.
fn make_croissant_context() -> (r: Json)
    ensures
        r.doc() == croissant_context(),
{
    broadcast use json::group_json;

    let mut m: Vec<Member> = Vec::new();
    add_text(&mut m, "@vocab", "https://schema.org/");
    add_text(&mut m, "sc", "https://schema.org/");
    add_text(&mut m, "cr", "http://mlcommons.org/croissant/");
    add_text(&mut m, "dct", "http://purl.org/dc/terms/");
    add_text(&mut m, "conformsTo", "dct:conformsTo");
    add_text(&mut m, "veridex", "https://veridex.dev/ns#");
    assert(json::members(m@) =~= croissant_context()->Object_0);
    Json::Object(m)
}

/// The file object that the certificate also binds to.
fn make_file_object(hash: &str) -> (r: Json)
    ensures
        r.doc() == file_object(hash@),
{
    broadcast use json::group_json;

    let mut m: Vec<Member> = Vec::new();
    add_text(&mut m, "@type", "cr:FileObject");
    add_text(&mut m, "@id", "cdm");
    add_text(&mut m, "name", "canonical-dataset-model");
    add_text(&mut m, "description", "The canonicalized Veridex CDM this metadata describes.");
    add_text(&mut m, "sha256", hash);
    assert(json::members(m@) =~= file_object(hash@)->Object_0);
    Json::Object(m)
}

/// Who attested what.
fn make_attested_by(producer: &str, keys: &Vec<String>) -> (r: Json)
    ensures
        r.doc() == attested_by(producer@, text::texts(keys@)),
{
    broadcast use json::group_json;

    let mut m: Vec<Member> = Vec::new();
    add_text(&mut m, "producer_key", producer);
    m.push(member("keys", texts_json(keys)));
    assert(json::members(m@) =~= attested_by(producer@, text::texts(keys@))->Object_0);
    Json::Object(m)
}

/// Emit an MLCommons Croissant (JSON-LD) document carrying the dataset identity, its CDM content
/// hash, and its extracted provenance.
pub fn to_croissant(dataset: &Dataset, cdm_content_hash: &str) -> (r: Json)
    ensures
        r.doc() == croissant(
            dataset.id@,
            cdm_content_hash@,
            recorded(dataset.provenance@, Seq::empty()),
            ""@,
            Seq::empty(),
        ),
{
    let none: Vec<ProvenanceElement> = Vec::new();
    assert(keys_of(all_attested(none@)) =~= Seq::empty());
    assert(none@ =~= Seq::empty());
    to_croissant_attested(dataset, cdm_content_hash, &none, "")
}

/// [`to_croissant`], including provenance a producer attested and naming the key that signed it. The
/// hash is the dataset's own: an attestation adds to what the document says, never to what the data
/// is.
pub fn to_croissant_attested(
    dataset: &Dataset,
    cdm_content_hash: &str,
    attested: &Vec<ProvenanceElement>,
    producer_key: &str,
) -> (r: Json)
    ensures
        r.doc() == croissant(
            dataset.id@,
            cdm_content_hash@,
            recorded(dataset.provenance@, attested@),
            producer_key@,
            keys_of(all_attested(attested@)),
        ),
{
    broadcast use json::group_json;

    let elements: Vec<ProvenanceElement> = gather(dataset, attested);
    let ghost s = all_facts(elements@);
    let ghost all = croissant(
        dataset.id@,
        cdm_content_hash@,
        s,
        producer_key@,
        keys_of(all_attested(attested@)),
    )->Object_0;
    let mut m: Vec<Member> = Vec::new();
    m.push(member("@context", make_croissant_context()));
    add_text(&mut m, "@type", "sc:Dataset");
    add_text(&mut m, "conformsTo", "http://mlcommons.org/croissant/1.0");
    add_text(&mut m, "name", dataset.id.as_str());
    add_text(
        &mut m,
        "description",
        cat3("Veridex-extracted provenance for `", dataset.id.as_str(), "`.").as_str(),
    );
    if let Some(license) = known_value(&elements, "license") {
        add_text(&mut m, "license", license.as_str());
    }
    let annotators: Vec<String> = known_values(&elements, "annotator");
    let people: Vec<String> = list_annotators(&annotators, true);
    assert(text::texts(people@).len() == people@.len());
    if people.len() > 0 {
        m.push(member("creator", pack(list_persons(&people))));
    }
    let categories: Vec<String> = list_annotators(&annotators, false);
    assert(text::texts(categories@).len() == categories@.len());
    if categories.len() > 0 {
        add_text(&mut m, "veridex:annotationCreators", join(&categories, ", ").as_str());
    }
    let mut files: Vec<Json> = Vec::new();
    files.push(make_file_object(cdm_content_hash));
    assert(json::docs(files@) =~= seq![file_object(cdm_content_hash@)]);
    m.push(member("distribution", Json::List(files)));
    m.push(member("veridex:provenance", Json::List(list_elements(&sort_elements(elements)))));
    let keys: Vec<String> = list_keys(attested);
    assert(text::texts(keys@).len() == keys@.len());
    if keys.len() > 0 {
        m.push(member("veridex:attestedBy", make_attested_by(producer_key, &keys)));
    }
    assert(json::members(m@) =~= all);
    Json::Object(m)
}

// ---- PROV ------------------------------------------------------------------------------------

/// The id of an agent.
pub open spec fn agent_id(key: Seq<char>, value: Seq<char>) -> Seq<char> {
    "veridex:agent/"@ + key + "/"@ + segment(value)
}

/// The ids of agents.
pub open spec fn agent_ids(key: Seq<char>, values: Seq<Seq<char>>) -> Seq<Seq<char>> {
    values.map_values(|v: Seq<char>| agent_id(key, v))
}

/// An agent.
pub open spec fn agent(key: Seq<char>, kind: Seq<char>, value: Seq<char>) -> JsonView {
    JsonView::Object(
        seq![
            ("@id"@, JsonView::Text(agent_id(key, value))),
            ("@type"@, JsonView::Text(kind)),
            ("veridex:role"@, JsonView::Text(key)),
            ("veridex:label"@, JsonView::Text(value)),
        ],
    )
}

/// Agents.
pub open spec fn agents(key: Seq<char>, kind: Seq<char>, values: Seq<Seq<char>>) -> Seq<JsonView> {
    values.map_values(|v: Seq<char>| agent(key, kind, v))
}

/// The id of a dataset.
pub open spec fn dataset_id(id: Seq<char>) -> Seq<char> {
    "veridex:dataset/"@ + segment(id)
}

/// The ids of datasets.
pub open spec fn dataset_ids(s: Seq<Seq<char>>) -> Seq<Seq<char>> {
    s.map_values(|v: Seq<char>| dataset_id(v))
}

/// A dataset that another is derived from.
pub open spec fn upstream(id: Seq<char>) -> JsonView {
    JsonView::Object(seq![("@id"@, JsonView::Text(id)), ("@type"@, JsonView::Text("prov:Entity"@))])
}

/// Datasets that another is derived from.
pub open spec fn upstreams(ids: Seq<Seq<char>>) -> Seq<JsonView> {
    ids.map_values(|id: Seq<char>| upstream(id))
}

/// The id of a producer.
pub open spec fn producer_id(producer: Seq<char>) -> Seq<char> {
    "veridex:producer/"@ + segment(producer)
}

/// A producer that attested provenance.
pub open spec fn producer_doc(producer: Seq<char>, keys: Seq<Seq<char>>) -> JsonView {
    JsonView::Object(
        seq![
            ("@id"@, JsonView::Text(producer_id(producer))),
            ("@type"@, JsonView::Text("prov:Agent"@)),
            ("veridex:role"@, JsonView::Text("producer-attestation"@)),
            ("veridex:label"@, JsonView::Text(producer)),
            ("veridex:attests"@, JsonView::List(json::text_views(keys))),
        ],
    )
}

/// Autonomy rig-lineage elements surfaced as descriptive `veridex:` properties on the entity — they
/// attribute the recording (firmware, platform, drive, region, map, consent/redaction, and the
/// scenario, map or simulation it was recorded or replayed against), not an agent.
pub const PROV_ENTITY_PROPERTIES: [&'static str; 13] = [
    "firmware",
    "calibration_session",
    "platform",
    "drive",
    "region",
    "map_version",
    "redaction",
    "consent",
    "scenario_ref",
    "scenario_version",
    "map_ref",
    "osi_version",
    "simulator",
];

/// The descriptive properties of a dataset: those of which a value is known.
pub open spec fn properties(elements: Seq<ElementView>, keys: Seq<Seq<char>>) -> Seq<(Seq<char>, JsonView)>
    decreases keys.len(),
{
    if keys.len() == 0 {
        Seq::empty()
    } else {
        properties(elements, keys.drop_last()) + member_if(
            value_of(elements, keys.last()) is Some,
            "veridex:"@ + keys.last(),
            JsonView::Text(value_of(elements, keys.last())->0),
        )
    }
}

/// The ids of the agents that a dataset is attributed to: what recorded it, who annotated it, what
/// sensed it, and the producer who attests to it.
pub open spec fn attributions(elements: Seq<ElementView>, producer: Seq<char>, attested: Seq<Seq<char>>) -> Seq<Seq<char>> {
    agent_ids("recorder"@, values_of(elements, "recorder"@)) + agent_ids(
        "annotator"@,
        annotators(values_of(elements, "annotator"@), true),
    ) + agent_ids("sensor"@, values_of(elements, "sensor"@)) + (if attested.len() > 0 {
        seq![producer_id(producer)]
    } else {
        Seq::empty()
    })
}

/// The dataset as an entity.
pub open spec fn entity(
    id: Seq<char>,
    elements: Seq<ElementView>,
    producer: Seq<char>,
    attested: Seq<Seq<char>>,
) -> JsonView {
    let ids = attributions(elements, producer, attested);
    let categories = annotators(values_of(elements, "annotator"@), false);
    let parents = dataset_ids(values_of(elements, "upstream"@));
    JsonView::Object(
        seq![("@id"@, JsonView::Text(dataset_id(id))), ("@type"@, JsonView::Text("prov:Entity"@))] + member_if(
            ids.len() > 0,
            "prov:wasAttributedTo"@,
            JsonView::List(references(ids)),
        ) + member_if(
            categories.len() > 0,
            "veridex:annotationCreators"@,
            JsonView::Text(text::joined(categories, ", "@)),
        ) + properties(elements, text::str_texts(PROV_ENTITY_PROPERTIES@)) + member_if(
            parents.len() > 0,
            "prov:wasDerivedFrom"@,
            one_or_many(references(parents)),
        ),
    )
}

/// The graph: the entity first, then the agents and the upstream datasets it refers to.
pub open spec fn graph(
    id: Seq<char>,
    elements: Seq<ElementView>,
    producer: Seq<char>,
    attested: Seq<Seq<char>>,
) -> Seq<JsonView> {
    seq![entity(id, elements, producer, attested)] + agents(
        "recorder"@,
        "prov:SoftwareAgent"@,
        values_of(elements, "recorder"@),
    ) + agents("annotator"@, "prov:Person"@, annotators(values_of(elements, "annotator"@), true)) + agents(
        "sensor"@,
        "prov:Agent"@,
        values_of(elements, "sensor"@),
    ) + upstreams(dataset_ids(values_of(elements, "upstream"@))) + (if attested.len() > 0 {
        seq![producer_doc(producer, attested)]
    } else {
        Seq::empty()
    })
}

/// The context of a PROV document.
pub open spec fn prov_context() -> JsonView {
    JsonView::Object(
        seq![
            ("prov"@, JsonView::Text("http://www.w3.org/ns/prov#"@)),
            ("veridex"@, JsonView::Text("https://veridex.dev/ns#"@)),
        ],
    )
}

/// A PROV document of a dataset.
pub open spec fn prov(
    id: Seq<char>,
    elements: Seq<ElementView>,
    producer: Seq<char>,
    attested: Seq<Seq<char>>,
) -> JsonView {
    JsonView::Object(
        seq![
            ("@context"@, prov_context()),
            ("@graph"@, JsonView::List(graph(id, elements, producer, attested))),
        ],
    )
}

/// Adds agents and their ids.
fn add_agents(nodes: &mut Vec<Json>, ids: &mut Vec<String>, key: &str, kind: &str, values: &Vec<String>)
    ensures
        json::docs(final(nodes)@) == json::docs(old(nodes)@) + agents(key@, kind@, text::texts(values@)),
        text::texts(final(ids)@) == text::texts(old(ids)@) + agent_ids(key@, text::texts(values@)),
{
    broadcast use json::group_json;

    let ghost t = text::texts(values@);
    let ghost n = json::docs(nodes@);
    let ghost s = text::texts(ids@);
    let mut i: usize = 0;
    assert(n + agents(key@, kind@, t.take(0)) =~= n);
    assert(s + agent_ids(key@, t.take(0)) =~= s);
    while i < values.len()
        invariant
            i <= values@.len(),
            t == text::texts(values@),
            json::docs(nodes@) == n + agents(key@, kind@, t.take(i as int)),
            text::texts(ids@) == s + agent_ids(key@, t.take(i as int)),
        decreases values@.len() - i,
    {
        let v: &str = values[i].as_str();
        let id: String = cat4("veridex:agent/", key, "/", iri_segment(v).as_str());
        let node: Json = make_agent(id.as_str(), kind, key, v);
        proof {
            assert(t[i as int] == v@);
            assert(node.doc() == agent(key@, kind@, v@));
            assert(n + agents(key@, kind@, t.take(i + 1)) =~= (n + agents(key@, kind@, t.take(i as int))).push(
                agent(key@, kind@, v@),
            ));
            assert(s + agent_ids(key@, t.take(i + 1)) =~= (s + agent_ids(key@, t.take(i as int))).push(
                agent_id(key@, v@),
            ));
        }
        nodes.push(node);
        ids.push(id);
        i = i + 1;
    }
    assert(t.take(i as int) =~= t);
}

/// An agent.
fn make_agent(id: &str, kind: &str, key: &str, value: &str) -> (r: Json)
    requires
        id@ == agent_id(key@, value@),
    ensures
        r.doc() == agent(key@, kind@, value@),
{
    broadcast use json::group_json;

    let mut m: Vec<Member> = Vec::new();
    add_text(&mut m, "@id", id);
    add_text(&mut m, "@type", kind);
    add_text(&mut m, "veridex:role", key);
    add_text(&mut m, "veridex:label", value);
    assert(json::members(m@) =~= agent(key@, kind@, value@)->Object_0);
    Json::Object(m)
}

/// The ids of datasets.
fn list_dataset_ids(values: &Vec<String>) -> (r: Vec<String>)
    ensures
        text::texts(r@) == dataset_ids(text::texts(values@)),
{
    let ghost t = text::texts(values@);
    let ghost all = dataset_ids(t);
    let mut out: Vec<String> = Vec::new();
    let mut i: usize = 0;
    assert(text::texts(out@) =~= all.take(0));
    while i < values.len()
        invariant
            i <= values@.len(),
            t == text::texts(values@),
            all == dataset_ids(t),
            text::texts(out@) == all.take(i as int),
        decreases values@.len() - i,
    {
        out.push(cat2("veridex:dataset/", iri_segment(values[i].as_str()).as_str()));
        assert(t[i as int] == values@[i as int]@);
        assert(all.take(i + 1) =~= all.take(i as int).push(all[i as int]));
        i = i + 1;
    }
    assert(all.take(i as int) =~= all);
    out
}

/// A dataset that another is derived from.
fn make_upstream(id: &str) -> (r: Json)
    ensures
        r.doc() == upstream(id@),
{
    broadcast use json::group_json;

    let mut m: Vec<Member> = Vec::new();
    add_text(&mut m, "@id", id);
    add_text(&mut m, "@type", "prov:Entity");
    assert(json::members(m@) =~= upstream(id@)->Object_0);
    Json::Object(m)
}

/// Adds the datasets that another is derived from.
fn add_upstreams(nodes: &mut Vec<Json>, ids: &Vec<String>)
    ensures
        json::docs(final(nodes)@) == json::docs(old(nodes)@) + upstreams(text::texts(ids@)),
{
    broadcast use json::group_json;

    let ghost t = text::texts(ids@);
    let ghost n = json::docs(nodes@);
    let mut i: usize = 0;
    assert(n + upstreams(t.take(0)) =~= n);
    while i < ids.len()
        invariant
            i <= ids@.len(),
            t == text::texts(ids@),
            json::docs(nodes@) == n + upstreams(t.take(i as int)),
        decreases ids@.len() - i,
    {
        nodes.push(make_upstream(ids[i].as_str()));
        proof {
            assert(t[i as int] == ids@[i as int]@);
            assert(n + upstreams(t.take(i + 1)) =~= (n + upstreams(t.take(i as int))).push(upstream(t[i as int])));
        }
        i = i + 1;
    }
    assert(t.take(i as int) =~= t);
}

/// A producer that attested provenance.
fn make_producer(producer: &str, keys: &Vec<String>) -> (r: Json)
    ensures
        r.doc() == producer_doc(producer@, text::texts(keys@)),
{
    broadcast use json::group_json;

    let mut m: Vec<Member> = Vec::new();
    add_text(&mut m, "@id", cat2("veridex:producer/", iri_segment(producer).as_str()).as_str());
    add_text(&mut m, "@type", "prov:Agent");
    add_text(&mut m, "veridex:role", "producer-attestation");
    add_text(&mut m, "veridex:label", producer);
    m.push(member("veridex:attests", texts_json(keys)));
    assert(json::members(m@) =~= producer_doc(producer@, text::texts(keys@))->Object_0);
    Json::Object(m)
}

/// Adds the descriptive properties of a dataset.
fn add_properties(m: &mut Vec<Member>, elements: &Vec<ProvenanceElement>)
    ensures
        json::members(final(m)@) == json::members(old(m)@) + properties(
            all_facts(elements@),
            text::str_texts(PROV_ENTITY_PROPERTIES@),
        ),
{
    let keys: [&'static str; 13] = PROV_ENTITY_PROPERTIES;
    let ghost t = text::str_texts(keys@);
    let ghost n = json::members(m@);
    let ghost s = all_facts(elements@);
    let mut i: usize = 0;
    assert(n + properties(s, t.take(0)) =~= n);
    while i < 13
        invariant
            i <= 13,
            keys == PROV_ENTITY_PROPERTIES,
            t == text::str_texts(keys@),
            t.len() == 13,
            s == all_facts(elements@),
            json::members(m@) == n + properties(s, t.take(i as int)),
        decreases 13 - i,
    {
        let key: &str = keys[i];
        let ghost was = json::members(m@);
        assert(t.take(i + 1).drop_last() =~= t.take(i as int));
        assert(t.take(i + 1).last() == key@);
        if let Some(v) = known_value(elements, key) {
            add_text(m, cat2("veridex:", key).as_str(), v.as_str());
        }
        proof {
            let more = member_if(
                value_of(s, key@) is Some,
                "veridex:"@ + key@,
                JsonView::Text(value_of(s, key@)->0),
            );
            assert(json::members(m@) =~= was + more);
            assert(n + properties(s, t.take(i + 1)) =~= n + properties(s, t.take(i as int)) + more);
        }
        i = i + 1;
    }
    assert(t.take(13) =~= t);
}

/// The dataset as an entity.
fn make_entity(
    dataset: &Dataset,
    elements: &Vec<ProvenanceElement>,
    ids: &Vec<String>,
    parents: &Vec<String>,
    Ghost(producer): Ghost<Seq<char>>,
    Ghost(attested): Ghost<Seq<Seq<char>>>,
) -> (r: Json)
    requires
        text::texts(ids@) == attributions(all_facts(elements@), producer, attested),
        text::texts(parents@) == dataset_ids(values_of(all_facts(elements@), "upstream"@)),
    ensures
        r.doc() == entity(dataset.id@, all_facts(elements@), producer, attested),
{
    broadcast use json::group_json;

    let ghost all = entity(dataset.id@, all_facts(elements@), producer, attested)->Object_0;
    let mut m: Vec<Member> = Vec::new();
    add_text(&mut m, "@id", cat2("veridex:dataset/", iri_segment(dataset.id.as_str()).as_str()).as_str());
    add_text(&mut m, "@type", "prov:Entity");
    assert(text::texts(ids@).len() == ids@.len());
    if ids.len() > 0 {
        m.push(member("prov:wasAttributedTo", Json::List(list_references(ids))));
    }
    let categories: Vec<String> = list_annotators(&known_values(elements, "annotator"), false);
    assert(text::texts(categories@).len() == categories@.len());
    if categories.len() > 0 {
        add_text(&mut m, "veridex:annotationCreators", join(&categories, ", ").as_str());
    }
    add_properties(&mut m, elements);
    assert(text::texts(parents@).len() == parents@.len());
    if parents.len() > 0 {
        m.push(member("prov:wasDerivedFrom", pack(list_references(parents))));
    }
    assert(json::members(m@) =~= all);
    Json::Object(m)
}

/// Emit a minimal W3C PROV document: the dataset as a `prov:Entity`, attributed to each known agent
/// (recorder / annotator / sensor) and derived from a known upstream dataset. Agents and the upstream
/// appear as nodes in the graph so the attributions resolve; nothing is fabricated.
pub fn to_prov(dataset: &Dataset) -> (r: Json)
    ensures
        r.doc() == prov(dataset.id@, recorded(dataset.provenance@, Seq::empty()), ""@, Seq::empty()),
{
    let none: Vec<ProvenanceElement> = Vec::new();
    assert(keys_of(all_attested(none@)) =~= Seq::empty());
    assert(none@ =~= Seq::empty());
    to_prov_attested(dataset, &none, "")
}

/// [`to_prov`], including provenance a producer attested and the agent that signed for it.
pub fn to_prov_attested(dataset: &Dataset, attested: &Vec<ProvenanceElement>, producer_key: &str) -> (r: Json)
    ensures
        r.doc() == prov(
            dataset.id@,
            recorded(dataset.provenance@, attested@),
            producer_key@,
            keys_of(all_attested(attested@)),
        ),
{
    broadcast use json::group_json;

    let elements: Vec<ProvenanceElement> = gather(dataset, attested);
    let ghost s = all_facts(elements@);
    let keys: Vec<String> = list_keys(attested);
    let ghost k = text::texts(keys@);
    assert(k.len() == keys@.len());
    let mut nodes: Vec<Json> = Vec::new();
    let mut ids: Vec<String> = Vec::new();
    assert(json::docs(nodes@) =~= Seq::empty());
    assert(text::texts(ids@) =~= Seq::empty());
    add_agents(&mut nodes, &mut ids, "recorder", "prov:SoftwareAgent", &known_values(&elements, "recorder"));
    let people: Vec<String> = list_annotators(&known_values(&elements, "annotator"), true);
    add_agents(&mut nodes, &mut ids, "annotator", "prov:Person", &people);
    add_agents(&mut nodes, &mut ids, "sensor", "prov:Agent", &known_values(&elements, "sensor"));
    let parents: Vec<String> = list_dataset_ids(&known_values(&elements, "upstream"));
    add_upstreams(&mut nodes, &parents);
    if keys.len() > 0 {
        nodes.push(make_producer(producer_key, &keys));
        ids.push(cat2("veridex:producer/", iri_segment(producer_key).as_str()));
    }
    assert(text::texts(ids@) =~= attributions(s, producer_key@, k));
    let mut list: Vec<Json> = Vec::new();
    list.push(make_entity(dataset, &elements, &ids, &parents, Ghost(producer_key@), Ghost(k)));
    let ghost head = json::docs(list@);
    let ghost tail = json::docs(nodes@);
    let ghost rest = nodes@;
    let ghost first = list@;
    list.append(&mut nodes);
    assert(json::docs(list@) =~= head + tail) by {
        assert(list@ == first + rest);
    }
    assert(json::docs(list@) =~= graph(dataset.id@, s, producer_key@, k));
    let mut c: Vec<Member> = Vec::new();
    add_text(&mut c, "prov", "http://www.w3.org/ns/prov#");
    add_text(&mut c, "veridex", "https://veridex.dev/ns#");
    assert(json::members(c@) =~= prov_context()->Object_0);
    let mut m: Vec<Member> = Vec::new();
    m.push(member("@context", Json::Object(c)));
    m.push(member("@graph", Json::List(list)));
    assert(json::members(m@) =~= prov(dataset.id@, s, producer_key@, k)->Object_0);
    Json::Object(m)
}

// ---- rendering -------------------------------------------------------------------------------

/// The document of a format; nothing where the format is not known.
pub open spec fn emitted(
    emit: Seq<char>,
    id: Seq<char>,
    hash: Seq<char>,
    elements: Seq<ElementView>,
    producer: Seq<char>,
    attested: Seq<Seq<char>>,
) -> Option<JsonView> {
    if emit == "croissant"@ {
        Some(croissant(id, hash, elements, producer, attested))
    } else if emit == "prov"@ {
        Some(prov(id, elements, producer, attested))
    } else {
        None
    }
}

/// Whether a result is a rendered document, or the message that a format is not known.
pub open spec fn renders(r: Result<String, String>, doc: Option<JsonView>, emit: Seq<char>) -> bool {
    match r {
        Ok(s) => doc is Some && s@ == json::pretty(doc->0),
        Err(m) => doc is None && m@ == "unknown emit `"@ + emit + "` (expected `croissant` or `prov`)"@,
    }
}

/// Render provenance as a pretty JSON string in the requested format — `croissant` (default) or
/// `prov`. `cdm_content_hash` is the dataset's own content hash. Returns `Err` with a message for an
/// unknown format.
pub fn render_provenance(dataset: &Dataset, cdm_content_hash: &str, emit: &str) -> (r: Result<String, String>)
    ensures
        renders(
            r,
            emitted(
                emit@,
                dataset.id@,
                cdm_content_hash@,
                recorded(dataset.provenance@, Seq::empty()),
                ""@,
                Seq::empty(),
            ),
            emit@,
        ),
{
    let none: Vec<ProvenanceElement> = Vec::new();
    assert(keys_of(all_attested(none@)) =~= Seq::empty());
    assert(none@ =~= Seq::empty());
    render_provenance_attested(dataset, cdm_content_hash, emit, &none, "")
}

/// [`render_provenance`], including a verified producer attestation's elements.
pub fn render_provenance_attested(
    dataset: &Dataset,
    cdm_content_hash: &str,
    emit: &str,
    attested: &Vec<ProvenanceElement>,
    producer_key: &str,
) -> (r: Result<String, String>)
    ensures
        renders(
            r,
            emitted(
                emit@,
                dataset.id@,
                cdm_content_hash@,
                recorded(dataset.provenance@, attested@),
                producer_key@,
                keys_of(all_attested(attested@)),
            ),
            emit@,
        ),
{
    if same(emit, "croissant") {
        Ok(pretty_text(&to_croissant_attested(dataset, cdm_content_hash, attested, producer_key)))
    } else if same(emit, "prov") {
        Ok(pretty_text(&to_prov_attested(dataset, attested, producer_key)))
    } else {
        Err(cat3("unknown emit `", emit, "` (expected `croissant` or `prov`)"))
    }
}

} // verus!
