//! Certificates and attestations as JSON documents: what their signatures cover.

use vstd::prelude::*;
use vstd::string::*;

use crate::assoc;
use crate::certificate::attestation::{AttestedElement, Attestation};
use crate::certificate::coverage::ProvenanceCoverage;
use crate::certificate::document::{Certificate, FindingsSummary, Issuance};
use crate::certificate::render;
use crate::certificate::render::{attestation_json, list_tags, readiness_json, score_json};
use crate::engine;
use crate::json;
use crate::json::{member, text_json, texts_json, Json, JsonView, Member};
use crate::order;
use crate::records;
use crate::records::{config_json, counts_json, executed_list, severities_json, tag_status};
use crate::text;

verus! {

/// Rolled-up findings as a document.
pub open spec fn summary_doc(s: FindingsSummary) -> JsonView {
    JsonView::Object(
        seq![
            ("by_severity"@, records::severities_doc(s.by_severity)),
            ("by_category"@, JsonView::Object(records::count_members(assoc::pairs(s.by_category@)))),
            ("by_code"@, JsonView::Object(records::count_members(assoc::pairs(s.by_code@)))),
        ],
    )
}

/// Rolled-up findings as a document.
fn summary_json(s: &FindingsSummary) -> (r: Json)
    ensures
        r.doc() == summary_doc(*s),
{
    broadcast use json::group_json;

    let mut m: Vec<Member> = Vec::new();
    m.push(member("by_severity", severities_json(&s.by_severity)));
    m.push(member("by_category", counts_json(&s.by_category)));
    m.push(member("by_code", counts_json(&s.by_code)));
    assert(json::members(m@) =~= summary_doc(*s)->Object_0);
    Json::Object(m)
}

/// Provenance coverage as a document.
pub open spec fn provenance_doc(c: ProvenanceCoverage) -> JsonView {
    JsonView::Object(
        seq![
            ("known"@, JsonView::Natural(c.known as u64)),
            ("asserted"@, JsonView::Natural(c.asserted as u64)),
            ("unknown"@, JsonView::Natural(c.unknown as u64)),
        ],
    )
}

/// Provenance coverage as a document.
fn provenance_json(c: &ProvenanceCoverage) -> (r: Json)
    ensures
        r.doc() == provenance_doc(*c),
{
    broadcast use json::group_json;

    let mut m: Vec<Member> = Vec::new();
    m.push(member("known", Json::Natural(c.known as u64)));
    m.push(member("asserted", Json::Natural(c.asserted as u64)));
    m.push(member("unknown", Json::Natural(c.unknown as u64)));
    assert(json::members(m@) =~= provenance_doc(*c)->Object_0);
    Json::Object(m)
}

/// Issuance metadata as a document.
pub open spec fn issuance_doc(i: Issuance) -> JsonView {
    JsonView::Object(
        seq![("key_id"@, JsonView::Text(i.key_id@)), ("timestamp"@, JsonView::Text(i.timestamp@))],
    )
}

/// Issuance metadata as a document.
fn issuance_json(i: &Issuance) -> (r: Json)
    ensures
        r.doc() == issuance_doc(*i),
{
    broadcast use json::group_json;

    let mut m: Vec<Member> = Vec::new();
    m.push(member("key_id", text_json(i.key_id.as_str())));
    m.push(member("timestamp", text_json(i.timestamp.as_str())));
    assert(json::members(m@) =~= issuance_doc(*i)->Object_0);
    Json::Object(m)
}

/// A certificate as a document, its fields in the order of its declaration.
pub open spec fn certificate_doc(c: Certificate) -> JsonView {
    JsonView::Object(
        seq![
            ("schema"@, JsonView::Text(c.schema@)),
            ("dataset_id"@, JsonView::Text(c.dataset_id@)),
            ("cdm_content_hash"@, JsonView::Text(c.cdm_content_hash@)),
            ("veridex_version"@, JsonView::Text(c.veridex_version@)),
            ("status"@, JsonView::Text(records::status_tag(c.status))),
            ("effective_config"@, records::config_doc(c.effective_config@)),
            ("checks_run"@, JsonView::List(records::executed_docs(order::views(c.checks_run@)))),
            ("checks_errored"@, JsonView::List(json::text_views(text::texts(c.checks_errored@)))),
            ("categories_skipped"@, JsonView::List(json::text_views(engine::tags(c.categories_skipped@)))),
            ("findings_summary"@, summary_doc(c.findings_summary)),
            ("trust_score"@, render::score_doc(c.trust_score@)),
            ("provenance_coverage"@, provenance_doc(c.provenance_coverage)),
            ("attestation"@, render::attestation_doc(c.attestation)),
            ("readiness"@, match c.readiness {
                Some(r) => render::readiness_doc(r),
                None => JsonView::Null,
            }),
            ("issuance"@, issuance_doc(c.issuance)),
        ],
    )
}

/// A certificate as a document.
pub fn certificate_json(c: &Certificate) -> (r: Json)
    ensures
        r.doc() == certificate_doc(*c),
{
    broadcast use json::group_json;

    let mut m: Vec<Member> = Vec::new();
    m.push(member("schema", text_json(c.schema.as_str())));
    m.push(member("dataset_id", text_json(c.dataset_id.as_str())));
    m.push(member("cdm_content_hash", text_json(c.cdm_content_hash.as_str())));
    m.push(member("veridex_version", text_json(c.veridex_version.as_str())));
    m.push(member("status", text_json(tag_status(c.status))));
    m.push(member("effective_config", config_json(&c.effective_config)));
    m.push(member("checks_run", executed_list(&c.checks_run)));
    m.push(member("checks_errored", texts_json(&c.checks_errored)));
    m.push(member("categories_skipped", texts_json(&list_tags(&c.categories_skipped))));
    m.push(member("findings_summary", summary_json(&c.findings_summary)));
    m.push(member("trust_score", score_json(&c.trust_score)));
    m.push(member("provenance_coverage", provenance_json(&c.provenance_coverage)));
    m.push(member("attestation", attestation_json(&c.attestation)));
    m.push(
        member(
            "readiness",
            match &c.readiness {
                Some(r) => readiness_json(r),
                None => Json::Null,
            },
        ),
    );
    m.push(member("issuance", issuance_json(&c.issuance)));
    assert(json::members(m@) =~= certificate_doc(*c)->Object_0);
    Json::Object(m)
}

/// An element of an attestation as a document.
pub open spec fn element_doc(e: AttestedElement) -> JsonView {
    JsonView::Object(seq![("key"@, JsonView::Text(e.key@)), ("value"@, JsonView::Text(e.value@))])
}

/// An element of an attestation as a document.
fn element_json(e: &AttestedElement) -> (r: Json)
    ensures
        r.doc() == element_doc(*e),
{
    broadcast use json::group_json;

    let mut m: Vec<Member> = Vec::new();
    m.push(member("key", text_json(e.key.as_str())));
    m.push(member("value", text_json(e.value.as_str())));
    assert(json::members(m@) =~= element_doc(*e)->Object_0);
    Json::Object(m)
}

/// The elements of an attestation as documents.
pub open spec fn element_docs(s: Seq<AttestedElement>) -> Seq<JsonView> {
    s.map_values(|e: AttestedElement| element_doc(e))
}

/// The elements of an attestation as a document.
fn elements_json(list: &Vec<AttestedElement>) -> (r: Json)
    ensures
        r.doc() == JsonView::List(element_docs(list@)),
{
    broadcast use json::group_json;

    let ghost all = element_docs(list@);
    let mut out: Vec<Json> = Vec::new();
    let mut i: usize = 0;
    assert(json::docs(out@) =~= all.take(0));
    while i < list.len()
        invariant
            i <= list@.len(),
            all == element_docs(list@),
            json::docs(out@) == all.take(i as int),
        decreases list@.len() - i,
    {
        let x: Json = element_json(&list[i]);
        out.push(x);
        assert(all.take(i + 1) =~= all.take(i as int).push(all[i as int]));
        i = i + 1;
    }
    assert(all.take(i as int) =~= all);
    Json::List(out)
}

/// An attestation as a document, its fields in the order of its declaration.
pub open spec fn attested_doc(a: Attestation) -> JsonView {
    JsonView::Object(
        seq![
            ("schema"@, JsonView::Text(a.schema@)),
            ("dataset_id"@, JsonView::Text(a.dataset_id@)),
            ("cdm_content_hash"@, JsonView::Text(a.cdm_content_hash@)),
            ("elements"@, JsonView::List(element_docs(a.elements@))),
            ("timestamp"@, JsonView::Text(a.timestamp@)),
        ],
    )
}

/// An attestation as a document.
pub fn attested_json(a: &Attestation) -> (r: Json)
    ensures
        r.doc() == attested_doc(*a),
{
    broadcast use json::group_json;

    let mut m: Vec<Member> = Vec::new();
    m.push(member("schema", text_json(a.schema.as_str())));
    m.push(member("dataset_id", text_json(a.dataset_id.as_str())));
    m.push(member("cdm_content_hash", text_json(a.cdm_content_hash.as_str())));
    m.push(member("elements", elements_json(&a.elements)));
    m.push(member("timestamp", text_json(a.timestamp.as_str())));
    assert(json::members(m@) =~= attested_doc(*a)->Object_0);
    Json::Object(m)
}

} // verus!
