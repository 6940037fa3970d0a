//! Laws of emitting provenance: what a document says is what the elements state, all of it and nothing
//! else.

use vstd::prelude::*;
use vstd::string::*;

use crate::cdm::{Dataset, Provenance, ProvenanceClass, ProvenanceElement};
use crate::checks::provenance;
use crate::emit;
use crate::emit::ElementView;
use crate::json;
use crate::json::JsonView;
use crate::laws::found;
use crate::seqs;
use crate::split;
use crate::text;

verus! {

// ---- what is stated --------------------------------------------------------------------------

/// Whether an element of a dataset's records states a value under a key: it is known or asserted, and
/// no placeholder.
pub open spec fn is_recorded(records: Seq<Provenance>, key: Seq<char>, v: Seq<char>) -> bool {
    exists|i: int, j: int|
        0 <= i < records.len() && 0 <= j < records[i].elements@.len() && {
            let e = #[trigger] records[i].elements@[j];
            &&& e.key@ == key
            &&& e.class != ProvenanceClass::Unknown
            &&& !e.placeholder
            &&& e.value matches Some(x) && x@ == v
        }
}

/// Whether a producer attests a value under a key.
pub open spec fn is_attested(attested: Seq<ProvenanceElement>, key: Seq<char>, v: Seq<char>) -> bool {
    exists|i: int|
        0 <= i < attested.len() && {
            let e = #[trigger] attested[i];
            &&& e.key@ == key
            &&& !e.placeholder
            &&& e.value matches Some(x) && x@ == v
        }
}

/// Whether a value is stated under a key: by the dataset, or by a producer.
pub open spec fn is_stated(records: Seq<Provenance>, attested: Seq<ProvenanceElement>, key: Seq<char>, v: Seq<char>) -> bool {
    is_recorded(records, key, v) || is_attested(attested, key, v)
}

/// Whether an annotator's name is one: some part of it is no category of how annotations are made.
pub open spec fn is_someone(v: Seq<char>) -> bool {
    exists|i: int|
        0 <= i < split::items(v).len() && {
            let part = text::lowered(#[trigger] split::items(v)[i]);
            &&& part != "crowdsourced"@
            &&& part != "expert-generated"@
            &&& part != "machine-generated"@
            &&& part != "found"@
            &&& part != "no-annotation"@
            &&& part != "other"@
        }
}

/// The elements of the records are those of each.
#[verifier::rlimit(40)]
proof fn lemma_elements(records: Seq<Provenance>, e: ProvenanceElement)
    ensures
        provenance::all_elements(records).contains(e) <==> exists|i: int, j: int|
            0 <= i < records.len() && 0 <= j < records[i].elements@.len() && #[trigger] records[i].elements@[j] == e,
    decreases records.len(),
{
    if records.len() > 0 {
        let rest = records.drop_last();
        let here = records.last().elements@;
        lemma_elements(rest, e);
        found::lemma_both(provenance::all_elements(rest), here, e);
        if provenance::all_elements(rest).contains(e) {
            let (i, j) = choose|i: int, j: int|
                0 <= i < rest.len() && 0 <= j < rest[i].elements@.len() && #[trigger] rest[i].elements@[j] == e;
            assert(records[i].elements@[j] == e);
        }
        if here.contains(e) {
            let j = choose|j: int| 0 <= j < here.len() && here[j] == e;
            assert(records[records.len() - 1].elements@[j] == e);
        }
        if exists|i: int, j: int|
            0 <= i < records.len() && 0 <= j < records[i].elements@.len() && #[trigger] records[i].elements@[j] == e {
            let (i, j) = choose|i: int, j: int|
                0 <= i < records.len() && 0 <= j < records[i].elements@.len() && #[trigger] records[i].elements@[j] == e;
            if i < rest.len() {
                assert(rest[i].elements@[j] == e);
            } else {
                assert(here[j] == e);
            }
        }
    }
}

/// The values under a key are the stated ones.
#[verifier::rlimit(40)]
pub proof fn law_values_are_the_stated_ones(
    records: Seq<Provenance>,
    attested: Seq<ProvenanceElement>,
    key: Seq<char>,
    v: Seq<char>,
)
    ensures
        emit::values_of(emit::recorded(records, attested), key).contains(v) <==> is_stated(records, attested, key, v),
{
    let s = emit::recorded(records, attested);
    let all = provenance::all_elements(records);
    let n = all.len() as int;
    emit::law_values_are_recorded(s, key, v);
    if emit::values_of(s, key).contains(v) {
        let i = choose|i: int| 0 <= i < s.len() && emit::states(#[trigger] s[i], key) && s[i].value == Some(v);
        if i < n {
            let e = all[i];
            assert(s[i] == emit::facts(e));
            assert(all.contains(e));
            lemma_elements(records, e);
            let (a, b) = choose|a: int, b: int|
                0 <= a < records.len() && 0 <= b < records[a].elements@.len() && #[trigger] records[a].elements@[b] == e;
            assert(records[a].elements@[b].key@ == key);
            assert(is_recorded(records, key, v));
        } else {
            assert(s[i] == emit::attested_facts(attested[i - n]));
            assert(attested[i - n].key@ == key);
        }
    }
    if is_recorded(records, key, v) {
        let (i, j) = choose|i: int, j: int|
            0 <= i < records.len() && 0 <= j < records[i].elements@.len() && {
                let e = #[trigger] records[i].elements@[j];
                &&& e.key@ == key
                &&& e.class != ProvenanceClass::Unknown
                &&& !e.placeholder
                &&& e.value matches Some(x) && x@ == v
            };
        let e = records[i].elements@[j];
        lemma_elements(records, e);
        let k = choose|k: int| 0 <= k < all.len() && all[k] == e;
        assert(s[k] == emit::facts(e));
        assert(emit::states(s[k], key));
    }
    if is_attested(attested, key, v) {
        let i = choose|i: int|
            0 <= i < attested.len() && {
                let e = #[trigger] attested[i];
                &&& e.key@ == key
                &&& !e.placeholder
                &&& e.value matches Some(x) && x@ == v
            };
        assert(s[n + i] == emit::attested_facts(attested[i]));
        assert(emit::states(s[n + i], key));
    }
}

/// The one value under a key is the least of the stated ones, where there is any.
pub proof fn law_the_value_is_the_least_stated(records: Seq<Provenance>, attested: Seq<ProvenanceElement>, key: Seq<char>)
    ensures
        match emit::value_of(emit::recorded(records, attested), key) {
            Some(v) => is_stated(records, attested, key, v) && forall|w: Seq<char>|
                #[trigger] is_stated(records, attested, key, w) ==> !text::str_lt(w, v),
            None => forall|w: Seq<char>| !#[trigger] is_stated(records, attested, key, w),
        },
{
    let s = emit::recorded(records, attested);
    let values = emit::values_of(s, key);
    seqs::lemma_text_set_ordered(emit::stated(s, key));
    if values.len() > 0 {
        assert(values.contains(values[0]));
        law_values_are_the_stated_ones(records, attested, key, values[0]);
    }
    assert forall|w: Seq<char>| #[trigger] is_stated(records, attested, key, w) implies values.len() > 0 && !text::str_lt(
        w,
        values[0],
    ) by {
        law_values_are_the_stated_ones(records, attested, key, w);
        let k = choose|k: int| 0 <= k < values.len() && values[k] == w;
        if k > 0 {
            assert(text::str_lt(values[0], values[k]));
        }
        text::lemma_str_trichotomy(values[0], w);
    }
}

/// An annotator names an agent where some part of the name is no category.
proof fn lemma_someone(v: Seq<char>)
    ensures
        emit::names_an_agent(v) == is_someone(v),
{
    let c = text::str_texts(emit::ANNOTATION_CREATOR_CATEGORIES@);
    assert(c.len() == 6);
    assert(c[0] == "crowdsourced"@ && c[1] == "expert-generated"@ && c[2] == "machine-generated"@ && c[3] == "found"@
        && c[4] == "no-annotation"@ && c[5] == "other"@);
    if emit::names_an_agent(v) {
        let i = choose|i: int| 0 <= i < split::items(v).len() && !c.contains(text::lowered(#[trigger] split::items(v)[i]));
        assert(!c.contains(text::lowered(split::items(v)[i])));
        assert(is_someone(v));
    }
    if is_someone(v) {
        let i = choose|i: int|
            0 <= i < split::items(v).len() && {
                let part = text::lowered(#[trigger] split::items(v)[i]);
                &&& part != "crowdsourced"@
                &&& part != "expert-generated"@
                &&& part != "machine-generated"@
                &&& part != "found"@
                &&& part != "no-annotation"@
                &&& part != "other"@
            };
        assert(!c.contains(text::lowered(split::items(v)[i])));
    }
}

/// The annotators that name an agent, or those that do not, are those among all.
proof fn lemma_annotators(s: Seq<Seq<char>>, agents: bool, v: Seq<char>)
    ensures
        emit::annotators(s, agents).contains(v) <==> s.contains(v) && is_someone(v) == agents,
    decreases s.len(),
{
    if s.len() > 0 {
        let rest = s.drop_last();
        lemma_annotators(rest, agents, v);
        lemma_someone(s.last());
        assert(s =~= rest.push(s.last()));
        found::lemma_one_more(rest, s.last(), v);
        found::lemma_one_more(emit::annotators(rest, agents), s.last(), v);
    }
}

// ---- PROV ------------------------------------------------------------------------------------

/// A reference to a node.
pub open spec fn points_to(id: Seq<char>) -> JsonView {
    JsonView::Object(seq![("@id"@, JsonView::Text(id))])
}

/// Whether a member of a name refers to a node: alone, or in a list.
pub open spec fn refers(node: JsonView, name: Seq<char>, id: Seq<char>) -> bool {
    node matches JsonView::Object(m) && exists|k: int|
        0 <= k < m.len() && (#[trigger] m[k]).0 == name && (m[k].1 == points_to(id) || (m[k].1 matches JsonView::List(refs)
            && refs.contains(points_to(id))))
}

/// The kind of agent that a provenance key names, where it names one.
pub open spec fn kind_of(key: Seq<char>) -> Option<Seq<char>> {
    if key == "recorder"@ {
        Some("prov:SoftwareAgent"@)
    } else if key == "annotator"@ {
        Some("prov:Person"@)
    } else if key == "sensor"@ {
        Some("prov:Agent"@)
    } else {
        None
    }
}

/// Whether someone, or something, is named as an agent under a key: what recorded, who annotated, what
/// sensed.
pub open spec fn is_agent(records: Seq<Provenance>, attested: Seq<ProvenanceElement>, key: Seq<char>, v: Seq<char>) -> bool {
    kind_of(key) is Some && is_stated(records, attested, key, v) && (key == "annotator"@ ==> is_someone(v))
}

/// Ids are among those of values where they are of one.
proof fn lemma_agent_ids(key: Seq<char>, values: Seq<Seq<char>>, id: Seq<char>)
    ensures
        emit::agent_ids(key, values).contains(id) <==> exists|v: Seq<char>| #[trigger]
            values.contains(v) && id == emit::agent_id(key, v),
{
    let ids = emit::agent_ids(key, values);
    if ids.contains(id) {
        let k = choose|k: int| 0 <= k < ids.len() && ids[k] == id;
        assert(values.contains(values[k]));
    }
    if exists|v: Seq<char>| #[trigger] values.contains(v) && id == emit::agent_id(key, v) {
        let v = choose|v: Seq<char>| #[trigger] values.contains(v) && id == emit::agent_id(key, v);
        let k = choose|k: int| 0 <= k < values.len() && values[k] == v;
        assert(ids[k] == id);
    }
}

/// The three keys that name agents are three.
proof fn lemma_agent_keys()
    ensures
        "recorder"@ != "annotator"@,
        "recorder"@ != "sensor"@,
        "annotator"@ != "sensor"@,
{
    reveal_strlit("recorder");
    reveal_strlit("annotator");
    reveal_strlit("sensor");
    assert("recorder"@.len() == 8);
    assert("annotator"@.len() == 9);
    assert("sensor"@.len() == 6);
}

/// The ids that a dataset is attributed to.
#[verifier::rlimit(40)]
proof fn lemma_attributions(
    records: Seq<Provenance>,
    attested: Seq<ProvenanceElement>,
    producer: Seq<char>,
    keys: Seq<Seq<char>>,
    id: Seq<char>,
)
    ensures
        emit::attributions(emit::recorded(records, attested), producer, keys).contains(id) <==> (exists|
            key: Seq<char>,
            v: Seq<char>,
        | #[trigger] is_agent(records, attested, key, v) && id == "veridex:agent/"@ + key + "/"@ + emit::segment(v)) || (
        keys.len() > 0 && id == "veridex:producer/"@ + emit::segment(producer)),
{
    let s = emit::recorded(records, attested);
    let (r, a, t) = (emit::values_of(s, "recorder"@), emit::annotators(emit::values_of(s, "annotator"@), true), emit::values_of(
        s,
        "sensor"@,
    ));
    let p = if keys.len() > 0 { seq![emit::producer_id(producer)] } else { Seq::empty() };
    let (x, y, z) = (emit::agent_ids("recorder"@, r), emit::agent_ids("annotator"@, a), emit::agent_ids("sensor"@, t));
    found::lemma_both(x + y + z, p, id);
    found::lemma_both(x + y, z, id);
    found::lemma_both(x, y, id);
    found::lemma_only(emit::producer_id(producer), id);
    lemma_agent_ids("recorder"@, r, id);
    lemma_agent_ids("annotator"@, a, id);
    lemma_agent_ids("sensor"@, t, id);
    lemma_agent_keys();
    assert forall|v: Seq<char>| r.contains(v) <==> #[trigger] is_agent(records, attested, "recorder"@, v) by {
        law_values_are_the_stated_ones(records, attested, "recorder"@, v);
    }
    assert forall|v: Seq<char>| t.contains(v) <==> #[trigger] is_agent(records, attested, "sensor"@, v) by {
        law_values_are_the_stated_ones(records, attested, "sensor"@, v);
    }
    assert forall|v: Seq<char>| a.contains(v) <==> #[trigger] is_agent(records, attested, "annotator"@, v) by {
        law_values_are_the_stated_ones(records, attested, "annotator"@, v);
        lemma_annotators(emit::values_of(s, "annotator"@), true, v);
    }
    if x.contains(id) {
        let v = choose|v: Seq<char>| #[trigger] r.contains(v) && id == emit::agent_id("recorder"@, v);
        assert(is_agent(records, attested, "recorder"@, v));
    }
    if y.contains(id) {
        let v = choose|v: Seq<char>| #[trigger] a.contains(v) && id == emit::agent_id("annotator"@, v);
        assert(is_agent(records, attested, "annotator"@, v));
    }
    if z.contains(id) {
        let v = choose|v: Seq<char>| #[trigger] t.contains(v) && id == emit::agent_id("sensor"@, v);
        assert(is_agent(records, attested, "sensor"@, v));
    }
    if exists|key: Seq<char>, v: Seq<char>|
        #[trigger] is_agent(records, attested, key, v) && id == "veridex:agent/"@ + key + "/"@ + emit::segment(v) {
        let (key, v) = choose|key: Seq<char>, v: Seq<char>|
            #[trigger] is_agent(records, attested, key, v) && id == "veridex:agent/"@ + key + "/"@ + emit::segment(v);
        if key == "recorder"@ {
            assert(r.contains(v));
        } else if key == "annotator"@ {
            assert(a.contains(v));
        } else {
            assert(t.contains(v));
        }
    }
}

/// The descriptive properties of an entity are named after it.
proof fn lemma_property_names(elements: Seq<ElementView>, keys: Seq<Seq<char>>)
    ensures
        forall|k: int|
            0 <= k < emit::properties(elements, keys).len() ==> (#[trigger] emit::properties(elements, keys)[k]).0.len() > 0
                && emit::properties(elements, keys)[k].0[0] == 'v',
    decreases keys.len(),
{
    if keys.len() > 0 {
        lemma_property_names(elements, keys.drop_last());
        reveal_strlit("veridex:");
        let name = "veridex:"@ + keys.last();
        assert(name[0] == "veridex:"@[0]);
        let rest = emit::properties(elements, keys.drop_last());
        let all = emit::properties(elements, keys);
        assert forall|k: int| 0 <= k < all.len() implies (#[trigger] all[k]).0.len() > 0 && all[k].0[0] == 'v' by {
            if k < rest.len() {
                assert(all[k] == rest[k]);
            } else {
                assert(all[k].0 == name);
            }
        }
    }
}

/// References are among those to ids where they are to one.
proof fn lemma_references(ids: Seq<Seq<char>>, id: Seq<char>)
    ensures
        emit::references(ids).contains(points_to(id)) <==> ids.contains(id),
{
    let refs = emit::references(ids);
    if refs.contains(points_to(id)) {
        let k = choose|k: int| 0 <= k < refs.len() && refs[k] == points_to(id);
        let (a, b) = (refs[k]->Object_0, points_to(id)->Object_0);
        assert(a == b);
        assert(a[0].1 == JsonView::Text(ids[k]));
        assert(b[0].1 == JsonView::Text(id));
        assert(ids[k] == id);
    }
    if ids.contains(id) {
        let k = choose|k: int| 0 <= k < ids.len() && ids[k] == id;
        assert(refs[k] == points_to(id));
    }
}

/// What a document of a dataset is about, and refers to.
#[verifier::rlimit(40)]
proof fn lemma_entity(
    id: Seq<char>,
    elements: Seq<ElementView>,
    producer: Seq<char>,
    keys: Seq<Seq<char>>,
    x: Seq<char>,
)
    ensures
        refers(emit::entity(id, elements, producer, keys), "prov:wasAttributedTo"@, x) <==> emit::attributions(
            elements,
            producer,
            keys,
        ).contains(x),
        refers(emit::entity(id, elements, producer, keys), "prov:wasDerivedFrom"@, x) <==> emit::dataset_ids(
            emit::values_of(elements, "upstream"@),
        ).contains(x),
{
    let m = emit::entity(id, elements, producer, keys)->Object_0;
    let ids = emit::attributions(elements, producer, keys);
    let categories = emit::annotators(emit::values_of(elements, "annotator"@), false);
    let parents = emit::dataset_ids(emit::values_of(elements, "upstream"@));
    let props = emit::properties(elements, text::str_texts(emit::PROV_ENTITY_PROPERTIES@));
    let head = seq![("@id"@, JsonView::Text(emit::dataset_id(id))), ("@type"@, JsonView::Text("prov:Entity"@))];
    let one = emit::member_if(ids.len() > 0, "prov:wasAttributedTo"@, JsonView::List(emit::references(ids)));
    let two = emit::member_if(
        categories.len() > 0,
        "veridex:annotationCreators"@,
        JsonView::Text(text::joined(categories, ", "@)),
    );
    let four = emit::member_if(parents.len() > 0, "prov:wasDerivedFrom"@, emit::one_or_many(emit::references(parents)));
    assert(m == head + one + two + props + four);
    lemma_property_names(elements, text::str_texts(emit::PROV_ENTITY_PROPERTIES@));
    reveal_strlit("@id");
    reveal_strlit("@type");
    reveal_strlit("prov:wasAttributedTo");
    reveal_strlit("prov:wasDerivedFrom");
    reveal_strlit("veridex:annotationCreators");
    let (p, q) = ("prov:wasAttributedTo"@, "prov:wasDerivedFrom"@);
    assert(p[0] == 'p' && q[0] == 'p');
    assert(p.len() != q.len());
    let (n1, n2, n3) = (2 + one.len(), 2 + one.len() + two.len(), 2 + one.len() + two.len() + props.len());
    assert forall|k: int| 0 <= k < m.len() implies ((#[trigger] m[k]).0 == p ==> k == 2 && one.len() == 1) && (m[k].0 == q ==>
        k == n3 && four.len() == 1) by {
        if k < 2 {
            assert(m[k] == head[k]);
            assert(m[k].0[0] == '@');
        } else if k < n1 {
            assert(m[k] == one[k - 2]);
        } else if k < n2 {
            assert(m[k] == two[k - n1]);
            assert(m[k].0[0] == 'v');
        } else if k < n3 {
            assert(m[k] == props[k - n2]);
        } else {
            assert(m[k] == four[k - n3]);
        }
    }
    lemma_references(ids, x);
    lemma_references(parents, x);
    if ids.len() > 0 {
        assert(m[2] == one[0]);
        assert(JsonView::List(emit::references(ids)) != points_to(x));
    }
    if ids.contains(x) {
        assert(m[2].0 == p);
    }
    if parents.len() > 0 {
        let refs = emit::references(parents);
        assert(m[n3 as int] == four[0]);
        if parents.len() == 1 {
            assert(refs.len() == 1);
            if parents.contains(x) {
                assert(parents[0] == x);
                assert(refs[0] == points_to(x));
            }
            if refs[0] == points_to(x) {
                assert(refs.contains(points_to(x)));
            }
            assert(refs[0] is Object);
        } else {
            assert(four[0].1 == JsonView::List(refs));
        }
    }
    if parents.contains(x) {
        assert(m[n3 as int].0 == q);
    }
}

/// A dataset is attributed to each agent that is named, by the key it is named under, and to the
/// producer that attests; and to no other. What recorded is one, and each annotator that names someone,
/// and what sensed.
pub proof fn law_the_entity_is_attributed_to_its_agents(
    dataset: Dataset,
    attested: Seq<ProvenanceElement>,
    producer: Seq<char>,
    id: Seq<char>,
)
    ensures
        ({
            let doc = emit::prov(
                dataset.id@,
                emit::recorded(dataset.provenance@, attested),
                producer,
                emit::keys_of(emit::all_attested(attested)),
            );
            doc matches JsonView::Object(m) && m[1].0 == "@graph"@ && (m[1].1 matches JsonView::List(graph) && graph.len() > 0
                && (refers(graph[0], "prov:wasAttributedTo"@, id) <==> (exists|key: Seq<char>, v: Seq<char>|
                #[trigger] is_agent(dataset.provenance@, attested, key, v) && id == "veridex:agent/"@ + key + "/"@
                    + emit::segment(v)) || (attested.len() > 0 && id == "veridex:producer/"@ + emit::segment(producer))))
        }),
{
    let s = emit::recorded(dataset.provenance@, attested);
    let keys = emit::keys_of(emit::all_attested(attested));
    let graph = emit::graph(dataset.id@, s, producer, keys);
    assert(graph[0] == emit::entity(dataset.id@, s, producer, keys));
    lemma_attributions(dataset.provenance@, attested, producer, keys, id);
    lemma_entity(dataset.id@, s, producer, keys, id);
}

/// A dataset is derived from each upstream that is stated, and from no other.
pub proof fn law_the_entity_is_derived_from_its_upstreams(
    dataset: Dataset,
    attested: Seq<ProvenanceElement>,
    producer: Seq<char>,
    id: Seq<char>,
)
    ensures
        ({
            let doc = emit::prov(
                dataset.id@,
                emit::recorded(dataset.provenance@, attested),
                producer,
                emit::keys_of(emit::all_attested(attested)),
            );
            doc matches JsonView::Object(m) && m[1].0 == "@graph"@ && (m[1].1 matches JsonView::List(graph) && graph.len() > 0
                && (refers(graph[0], "prov:wasDerivedFrom"@, id) <==> exists|v: Seq<char>|
                #[trigger] is_stated(dataset.provenance@, attested, "upstream"@, v) && id == "veridex:dataset/"@
                    + emit::segment(v)))
        }),
{
    let s = emit::recorded(dataset.provenance@, attested);
    let keys = emit::keys_of(emit::all_attested(attested));
    let graph = emit::graph(dataset.id@, s, producer, keys);
    let values = emit::values_of(s, "upstream"@);
    let ids = emit::dataset_ids(values);
    assert(graph[0] == emit::entity(dataset.id@, s, producer, keys));
    lemma_entity(dataset.id@, s, producer, keys, id);
    if ids.contains(id) {
        let k = choose|k: int| 0 <= k < ids.len() && ids[k] == id;
        assert(values.contains(values[k]));
        law_values_are_the_stated_ones(dataset.provenance@, attested, "upstream"@, values[k]);
        assert(is_stated(dataset.provenance@, attested, "upstream"@, values[k]));
    }
    if exists|v: Seq<char>|
        #[trigger] is_stated(dataset.provenance@, attested, "upstream"@, v) && id == "veridex:dataset/"@ + emit::segment(v) {
        let v = choose|v: Seq<char>|
            #[trigger] is_stated(dataset.provenance@, attested, "upstream"@, v) && id == "veridex:dataset/"@ + emit::segment(v);
        law_values_are_the_stated_ones(dataset.provenance@, attested, "upstream"@, v);
        let k = choose|k: int| 0 <= k < values.len() && values[k] == v;
        assert(ids[k] == id);
    }
}

/// The node of an agent.
pub open spec fn agent_node(key: Seq<char>, kind: Seq<char>, v: Seq<char>) -> JsonView {
    JsonView::Object(
        seq![
            ("@id"@, JsonView::Text("veridex:agent/"@ + key + "/"@ + emit::segment(v))),
            ("@type"@, JsonView::Text(kind)),
            ("veridex:role"@, JsonView::Text(key)),
            ("veridex:label"@, JsonView::Text(v)),
        ],
    )
}

/// The node of an upstream dataset.
pub open spec fn upstream_node(v: Seq<char>) -> JsonView {
    JsonView::Object(
        seq![
            ("@id"@, JsonView::Text("veridex:dataset/"@ + emit::segment(v))),
            ("@type"@, JsonView::Text("prov:Entity"@)),
        ],
    )
}

/// Whether a node is that of an agent that is named, or of an upstream that is stated.
pub open spec fn is_named_node(records: Seq<Provenance>, attested: Seq<ProvenanceElement>, node: JsonView) -> bool {
    ||| exists|key: Seq<char>, v: Seq<char>|
        #[trigger] is_agent(records, attested, key, v) && node == agent_node(key, kind_of(key)->0, v)
    ||| exists|v: Seq<char>| #[trigger] is_stated(records, attested, "upstream"@, v) && node == upstream_node(v)
}

/// Nodes of agents are of values.
proof fn lemma_agents(key: Seq<char>, kind: Seq<char>, values: Seq<Seq<char>>, node: JsonView)
    ensures
        emit::agents(key, kind, values).contains(node) <==> exists|v: Seq<char>| #[trigger]
            values.contains(v) && node == agent_node(key, kind, v),
{
    let nodes = emit::agents(key, kind, values);
    if nodes.contains(node) {
        let k = choose|k: int| 0 <= k < nodes.len() && nodes[k] == node;
        assert(values.contains(values[k]));
        assert(node == agent_node(key, kind, values[k]));
    }
    if exists|v: Seq<char>| #[trigger] values.contains(v) && node == agent_node(key, kind, v) {
        let v = choose|v: Seq<char>| #[trigger] values.contains(v) && node == agent_node(key, kind, v);
        let k = choose|k: int| 0 <= k < values.len() && values[k] == v;
        assert(nodes[k] == node);
    }
}

/// Nodes of upstreams are of values.
proof fn lemma_upstreams(values: Seq<Seq<char>>, node: JsonView)
    ensures
        emit::upstreams(emit::dataset_ids(values)).contains(node) <==> exists|v: Seq<char>| #[trigger]
            values.contains(v) && node == upstream_node(v),
{
    let nodes = emit::upstreams(emit::dataset_ids(values));
    if nodes.contains(node) {
        let k = choose|k: int| 0 <= k < nodes.len() && nodes[k] == node;
        assert(values.contains(values[k]));
        assert(node == upstream_node(values[k]));
    }
    if exists|v: Seq<char>| #[trigger] values.contains(v) && node == upstream_node(v) {
        let v = choose|v: Seq<char>| #[trigger] values.contains(v) && node == upstream_node(v);
        let k = choose|k: int| 0 <= k < values.len() && values[k] == v;
        assert(nodes[k] == node);
    }
}

/// The nodes of the agents are of those that are named.
#[verifier::rlimit(40)]
proof fn lemma_agent_nodes(records: Seq<Provenance>, attested: Seq<ProvenanceElement>, node: JsonView)
    ensures
        ({
            let s = emit::recorded(records, attested);
            (emit::agents("recorder"@, "prov:SoftwareAgent"@, emit::values_of(s, "recorder"@)) + emit::agents(
                "annotator"@,
                "prov:Person"@,
                emit::annotators(emit::values_of(s, "annotator"@), true),
            ) + emit::agents("sensor"@, "prov:Agent"@, emit::values_of(s, "sensor"@))).contains(node)
        }) <==> exists|key: Seq<char>, v: Seq<char>|
            #[trigger] is_agent(records, attested, key, v) && node == agent_node(key, kind_of(key)->0, v),
{
    let s = emit::recorded(records, attested);
    let (r, a, t) = (
        emit::values_of(s, "recorder"@),
        emit::annotators(emit::values_of(s, "annotator"@), true),
        emit::values_of(s, "sensor"@),
    );
    let (x, y, z) = (
        emit::agents("recorder"@, "prov:SoftwareAgent"@, r),
        emit::agents("annotator"@, "prov:Person"@, a),
        emit::agents("sensor"@, "prov:Agent"@, t),
    );
    found::lemma_both(x + y, z, node);
    found::lemma_both(x, y, node);
    lemma_agents("recorder"@, "prov:SoftwareAgent"@, r, node);
    lemma_agents("annotator"@, "prov:Person"@, a, node);
    lemma_agents("sensor"@, "prov:Agent"@, t, node);
    lemma_agent_keys();
    if x.contains(node) {
        let v = choose|v: Seq<char>| #[trigger] r.contains(v) && node == agent_node("recorder"@, "prov:SoftwareAgent"@, v);
        law_values_are_the_stated_ones(records, attested, "recorder"@, v);
        assert(is_agent(records, attested, "recorder"@, v));
    }
    if y.contains(node) {
        let v = choose|v: Seq<char>| #[trigger] a.contains(v) && node == agent_node("annotator"@, "prov:Person"@, v);
        law_values_are_the_stated_ones(records, attested, "annotator"@, v);
        lemma_annotators(emit::values_of(s, "annotator"@), true, v);
        assert(is_agent(records, attested, "annotator"@, v));
    }
    if z.contains(node) {
        let v = choose|v: Seq<char>| #[trigger] t.contains(v) && node == agent_node("sensor"@, "prov:Agent"@, v);
        law_values_are_the_stated_ones(records, attested, "sensor"@, v);
        assert(is_agent(records, attested, "sensor"@, v));
    }
    if exists|key: Seq<char>, v: Seq<char>|
        #[trigger] is_agent(records, attested, key, v) && node == agent_node(key, kind_of(key)->0, v) {
        let (key, v) = choose|key: Seq<char>, v: Seq<char>|
            #[trigger] is_agent(records, attested, key, v) && node == agent_node(key, kind_of(key)->0, v);
        law_values_are_the_stated_ones(records, attested, key, v);
        if key == "recorder"@ {
            assert(r.contains(v));
        } else if key == "annotator"@ {
            lemma_annotators(emit::values_of(s, "annotator"@), true, v);
            assert(a.contains(v));
        } else {
            assert(t.contains(v));
        }
    }
}

/// The nodes of the upstreams are of those that are stated.
proof fn lemma_upstream_nodes(records: Seq<Provenance>, attested: Seq<ProvenanceElement>, node: JsonView)
    ensures
        emit::upstreams(
            emit::dataset_ids(emit::values_of(emit::recorded(records, attested), "upstream"@)),
        ).contains(node) <==> exists|v: Seq<char>|
            #[trigger] is_stated(records, attested, "upstream"@, v) && node == upstream_node(v),
{
    let u = emit::values_of(emit::recorded(records, attested), "upstream"@);
    lemma_upstreams(u, node);
    if exists|v: Seq<char>| #[trigger] u.contains(v) && node == upstream_node(v) {
        let v = choose|v: Seq<char>| #[trigger] u.contains(v) && node == upstream_node(v);
        law_values_are_the_stated_ones(records, attested, "upstream"@, v);
        assert(is_stated(records, attested, "upstream"@, v));
    }
    if exists|v: Seq<char>| #[trigger] is_stated(records, attested, "upstream"@, v) && node == upstream_node(v) {
        let v = choose|v: Seq<char>| #[trigger] is_stated(records, attested, "upstream"@, v) && node == upstream_node(v);
        law_values_are_the_stated_ones(records, attested, "upstream"@, v);
        assert(u.contains(v));
    }
}

/// Besides the dataset, the graph holds a node for each agent that is named and each upstream that is
/// stated, one for the producer that attests, and no other; so that what the dataset refers to is
/// there.
pub proof fn law_the_graph_holds_what_is_referred_to(
    dataset: Dataset,
    attested: Seq<ProvenanceElement>,
    producer: Seq<char>,
    node: JsonView,
)
    ensures
        ({
            let keys = emit::keys_of(emit::all_attested(attested));
            let graph = emit::graph(dataset.id@, emit::recorded(dataset.provenance@, attested), producer, keys);
            &&& graph.len() > 0
            &&& graph[0] matches JsonView::Object(m) && m.len() >= 2 && m[0] == ("@id"@, JsonView::Text(
                "veridex:dataset/"@ + emit::segment(dataset.id@),
            )) && m[1] == ("@type"@, JsonView::Text("prov:Entity"@))
            &&& graph.skip(1).contains(node) <==> is_named_node(dataset.provenance@, attested, node) || (attested.len() > 0
                && node == JsonView::Object(
                seq![
                    ("@id"@, JsonView::Text("veridex:producer/"@ + emit::segment(producer))),
                    ("@type"@, JsonView::Text("prov:Agent"@)),
                    ("veridex:role"@, JsonView::Text("producer-attestation"@)),
                    ("veridex:label"@, JsonView::Text(producer)),
                    ("veridex:attests"@, JsonView::List(json::text_views(keys))),
                ],
            ))
        }),
{
    let records = dataset.provenance@;
    let s = emit::recorded(records, attested);
    let keys = emit::keys_of(emit::all_attested(attested));
    let graph = emit::graph(dataset.id@, s, producer, keys);
    let agents = emit::agents("recorder"@, "prov:SoftwareAgent"@, emit::values_of(s, "recorder"@)) + emit::agents(
        "annotator"@,
        "prov:Person"@,
        emit::annotators(emit::values_of(s, "annotator"@), true),
    ) + emit::agents("sensor"@, "prov:Agent"@, emit::values_of(s, "sensor"@));
    let w = emit::upstreams(emit::dataset_ids(emit::values_of(s, "upstream"@)));
    let p = if keys.len() > 0 { seq![emit::producer_doc(producer, keys)] } else { Seq::empty() };
    assert(graph.skip(1) =~= agents + w + p);
    assert(graph[0] == emit::entity(dataset.id@, s, producer, keys));
    found::lemma_both(agents + w, p, node);
    found::lemma_both(agents, w, node);
    found::lemma_only(emit::producer_doc(producer, keys), node);
    lemma_agent_nodes(records, attested, node);
    lemma_upstream_nodes(records, attested, node);
}

// ---- Croissant -------------------------------------------------------------------------------

/// Whether an object has a member.
pub open spec fn carries(doc: JsonView, name: Seq<char>, value: JsonView) -> bool {
    doc matches JsonView::Object(m) && m.contains((name, value))
}

/// Persons are among those of names where they are of one.
proof fn lemma_persons(names: Seq<Seq<char>>, v: Seq<char>)
    ensures
        emit::persons(names).contains(emit::person(v)) <==> names.contains(v),
{
    let all = emit::persons(names);
    if all.contains(emit::person(v)) {
        let k = choose|k: int| 0 <= k < all.len() && all[k] == emit::person(v);
        assert(all[k]->Object_0[1].1 == JsonView::Text(names[k]));
        assert(emit::person(v)->Object_0[1].1 == JsonView::Text(v));
    }
    if names.contains(v) {
        let k = choose|k: int| 0 <= k < names.len() && names[k] == v;
        assert(all[k] == emit::person(v));
    }
}

/// A person of a name.
pub open spec fn someone(name: Seq<char>) -> JsonView {
    JsonView::Object(seq![("@type"@, JsonView::Text("Person"@)), ("name"@, JsonView::Text(name))])
}

/// Whether a document credits a person: alone, or in a list.
pub open spec fn credits(doc: JsonView, name: Seq<char>) -> bool {
    doc matches JsonView::Object(m) && exists|k: int|
        0 <= k < m.len() && (#[trigger] m[k]).0 == "creator"@ && (m[k].1 == someone(name) || (m[k].1 matches JsonView::List(
            list,
        ) && list.contains(someone(name))))
}

/// The members of a Croissant document that say who made a dataset, and under which license.
#[verifier::rlimit(40)]
proof fn lemma_croissant(
    id: Seq<char>,
    hash: Seq<char>,
    elements: Seq<ElementView>,
    producer: Seq<char>,
    keys: Seq<Seq<char>>,
    v: Seq<char>,
)
    ensures
        credits(emit::croissant(id, hash, elements, producer, keys), v) <==> emit::annotators(
            emit::values_of(elements, "annotator"@),
            true,
        ).contains(v),
        carries(emit::croissant(id, hash, elements, producer, keys), "license"@, JsonView::Text(v)) <==> emit::value_of(
            elements,
            "license"@,
        ) == Some(v),
        carries(emit::croissant(id, hash, elements, producer, keys), "name"@, JsonView::Text(id)),
        carries(
            emit::croissant(id, hash, elements, producer, keys),
            "distribution"@,
            JsonView::List(seq![emit::file_object(hash)]),
        ),
        carries(
            emit::croissant(id, hash, elements, producer, keys),
            "veridex:provenance"@,
            JsonView::List(emit::element_docs(seqs::sorted(elements, emit::element_order()))),
        ),
{
    let m = emit::croissant(id, hash, elements, producer, keys)->Object_0;
    let license = emit::value_of(elements, "license"@);
    let people = emit::annotators(emit::values_of(elements, "annotator"@), true);
    let categories = emit::annotators(emit::values_of(elements, "annotator"@), false);
    let head = seq![
        ("@context"@, emit::croissant_context()),
        ("@type"@, JsonView::Text("sc:Dataset"@)),
        ("conformsTo"@, JsonView::Text("http://mlcommons.org/croissant/1.0"@)),
        ("name"@, JsonView::Text(id)),
        ("description"@, JsonView::Text("Veridex-extracted provenance for `"@ + id + "`."@)),
    ];
    let one = emit::member_if(license is Some, "license"@, JsonView::Text(license->0));
    let two = emit::member_if(people.len() > 0, "creator"@, emit::one_or_many(emit::persons(people)));
    let three = emit::member_if(
        categories.len() > 0,
        "veridex:annotationCreators"@,
        JsonView::Text(text::joined(categories, ", "@)),
    );
    let four = seq![
        ("distribution"@, JsonView::List(seq![emit::file_object(hash)])),
        ("veridex:provenance"@, JsonView::List(emit::element_docs(seqs::sorted(elements, emit::element_order())))),
    ];
    let five = emit::member_if(keys.len() > 0, "veridex:attestedBy"@, emit::attested_by(producer, keys));
    assert(m == head + one + two + three + four + five);
    reveal_strlit("@context");
    reveal_strlit("@type");
    reveal_strlit("conformsTo");
    reveal_strlit("name");
    reveal_strlit("description");
    reveal_strlit("license");
    reveal_strlit("creator");
    reveal_strlit("veridex:annotationCreators");
    reveal_strlit("distribution");
    reveal_strlit("veridex:provenance");
    reveal_strlit("veridex:attestedBy");
    let (p, q) = ("license"@, "creator"@);
    assert(p.len() == 7 && q.len() == 7 && p[0] == 'l' && q[0] == 'c');
    let n1 = 5 + one.len();
    let n2 = n1 + two.len();
    let n3 = n2 + three.len();
    let n4 = n3 + 2;
    assert forall|k: int| 0 <= k < m.len() implies ((#[trigger] m[k]).0 == p ==> k == 5 && one.len() == 1) && (m[k].0 == q ==>
        k == n1 && two.len() == 1) by {
        if k < 5 {
            assert(m[k] == head[k]);
            assert(m[k].0.len() != 7);
        } else if k < n1 {
            assert(m[k] == one[k - 5]);
        } else if k < n2 {
            assert(m[k] == two[k - n1]);
        } else if k < n3 {
            assert(m[k] == three[k - n2]);
            assert(m[k].0.len() != 7);
        } else if k < n4 {
            assert(m[k] == four[k - n3]);
            assert(m[k].0.len() != 7);
        } else {
            assert(m[k] == five[k - n4]);
            assert(m[k].0.len() != 7);
        }
    }
    assert(m[3] == head[3]);
    assert(m[n3 as int] == four[0]);
    assert(m[(n3 + 1) as int] == four[1]);
    if license is Some {
        assert(m[5] == one[0]);
    }
    let all = emit::persons(people);
    lemma_persons(people, v);
    assert(emit::person(v) == someone(v));
    if people.len() > 0 {
        assert(m[n1 as int] == two[0]);
        if people.len() == 1 {
            assert(all.len() == 1);
            assert(all[0] is Object);
            if all[0] == someone(v) {
                assert(all.contains(someone(v)));
            }
            if people.contains(v) {
                assert(people[0] == v);
                assert(all[0] == someone(v));
            }
        }
    }
    if people.contains(v) {
        assert(m[n1 as int].0 == q);
    }
}

/// A Croissant document names the dataset, binds its content hash, and credits exactly the annotators
/// that name someone; its license is the least of the stated ones.
pub proof fn law_a_croissant_document_says_what_is_stated(
    dataset: Dataset,
    hash: Seq<char>,
    attested: Seq<ProvenanceElement>,
    producer: Seq<char>,
    v: Seq<char>,
)
    ensures
        ({
            let doc = emit::croissant(
                dataset.id@,
                hash,
                emit::recorded(dataset.provenance@, attested),
                producer,
                emit::keys_of(emit::all_attested(attested)),
            );
            let records = dataset.provenance@;
            &&& carries(doc, "name"@, JsonView::Text(dataset.id@))
            &&& credits(doc, v) <==> is_stated(records, attested, "annotator"@, v) && is_someone(v)
            &&& carries(doc, "license"@, JsonView::Text(v)) <==> is_stated(records, attested, "license"@, v) && forall|
                w: Seq<char>,
            | #[trigger] is_stated(records, attested, "license"@, w) ==> !text::str_lt(w, v)
            &&& exists|file: JsonView|
                #![trigger carries(doc, "distribution"@, JsonView::List(seq![file]))]
                carries(doc, "distribution"@, JsonView::List(seq![file])) && carries(file, "sha256"@, JsonView::Text(hash))
        }),
{
    let records = dataset.provenance@;
    let s = emit::recorded(records, attested);
    let keys = emit::keys_of(emit::all_attested(attested));
    lemma_croissant(dataset.id@, hash, s, producer, keys, v);
    law_values_are_the_stated_ones(records, attested, "annotator"@, v);
    lemma_annotators(emit::values_of(s, "annotator"@), true, v);
    law_the_value_is_the_least_stated(records, attested, "license"@);
    if is_stated(records, attested, "license"@, v) && (forall|w: Seq<char>|
        #[trigger] is_stated(records, attested, "license"@, w) ==> !text::str_lt(w, v)) {
        let x = emit::value_of(s, "license"@)->0;
        assert(!text::str_lt(x, v) && !text::str_lt(v, x));
        text::lemma_str_trichotomy(x, v);
    }
    let file = emit::file_object(hash);
    assert(file->Object_0[4] == ("sha256"@, JsonView::Text(hash)));
}

/// Whether an object has a member that is a list.
pub open spec fn lists(doc: JsonView, name: Seq<char>, list: Seq<JsonView>) -> bool {
    carries(doc, name, JsonView::List(list))
}

/// The document of an element: its key, its value and how it is known.
pub open spec fn told(key: Seq<char>, value: Option<Seq<char>>, class: ProvenanceClass) -> JsonView {
    JsonView::Object(
        seq![
            ("key"@, JsonView::Text(key)),
            (
                "value"@,
                match value {
                    Some(v) => JsonView::Text(v),
                    None => JsonView::Null,
                },
            ),
            (
                "class"@,
                JsonView::Text(
                    match class {
                        ProvenanceClass::Known => "known"@,
                        ProvenanceClass::Asserted => "asserted"@,
                        ProvenanceClass::Unknown => "unknown"@,
                    },
                ),
            ),
        ],
    )
}

/// The classified list of a Croissant document holds each element that is recorded under its class,
/// and each that is attested as asserted, once for each time; and nothing else.
#[verifier::rlimit(40)]
pub proof fn law_a_croissant_document_lists_every_element(
    dataset: Dataset,
    hash: Seq<char>,
    attested: Seq<ProvenanceElement>,
    producer: Seq<char>,
    node: JsonView,
)
    ensures
        exists|list: Seq<JsonView>|
            #[trigger] lists(
                emit::croissant(
                    dataset.id@,
                    hash,
                    emit::recorded(dataset.provenance@, attested),
                    producer,
                    emit::keys_of(emit::all_attested(attested)),
                ),
                "veridex:provenance"@,
                list,
            ) && list.len() == provenance::all_elements(dataset.provenance@).len() + attested.len() && (list.contains(node)
                <==> (exists|i: int, j: int|
                0 <= i < dataset.provenance@.len() && 0 <= j < dataset.provenance@[i].elements@.len() && {
                    let e = #[trigger] dataset.provenance@[i].elements@[j];
                    node == told(e.key@, json::opt_view(e.value), e.class)
                }) || (exists|i: int|
                0 <= i < attested.len() && {
                    let e = #[trigger] attested[i];
                    node == told(e.key@, json::opt_view(e.value), ProvenanceClass::Asserted)
                })),
{
    let records = dataset.provenance@;
    let s = emit::recorded(records, attested);
    let keys = emit::keys_of(emit::all_attested(attested));
    let t = seqs::sorted(s, emit::element_order());
    let list = emit::element_docs(t);
    let all = provenance::all_elements(records);
    let n = all.len() as int;
    lemma_croissant(dataset.id@, hash, s, producer, keys, Seq::empty());
    seqs::lemma_sorted_multiset(s, emit::element_order());
    assert forall|x: ElementView| t.contains(x) <==> s.contains(x) by {
        broadcast use vstd::seq_lib::group_to_multiset_ensures;

        assert(t.contains(x) <==> t.to_multiset().count(x) > 0);
        assert(s.contains(x) <==> s.to_multiset().count(x) > 0);
    }
    assert forall|x: ElementView| emit::element_doc(x) == #[trigger] told(x.key, x.value, x.class) by {
        assert(emit::element_doc(x)->Object_0 =~= told(x.key, x.value, x.class)->Object_0);
    }
    if list.contains(node) {
        let k = choose|k: int| 0 <= k < list.len() && list[k] == node;
        assert(t.contains(t[k]));
        assert(s.contains(t[k]));
        let i = choose|i: int| 0 <= i < s.len() && s[i] == t[k];
        assert(node == told(s[i].key, s[i].value, s[i].class));
        if i < n {
            assert(s[i] == emit::facts(all[i]));
            assert(all.contains(all[i]));
            lemma_elements(records, all[i]);
            let (a, b) = choose|a: int, b: int|
                0 <= a < records.len() && 0 <= b < records[a].elements@.len() && #[trigger] records[a].elements@[b] == all[i];
            let e = records[a].elements@[b];
            assert(node == told(e.key@, json::opt_view(e.value), e.class));
        } else {
            assert(s[i] == emit::attested_facts(attested[i - n]));
            let e = attested[i - n];
            assert(node == told(e.key@, json::opt_view(e.value), ProvenanceClass::Asserted));
        }
    }
    if exists|i: int, j: int|
        0 <= i < records.len() && 0 <= j < records[i].elements@.len() && {
            let e = #[trigger] records[i].elements@[j];
            node == told(e.key@, json::opt_view(e.value), e.class)
        } {
        let (i, j) = choose|i: int, j: int|
            0 <= i < records.len() && 0 <= j < records[i].elements@.len() && {
                let e = #[trigger] records[i].elements@[j];
                node == told(e.key@, json::opt_view(e.value), e.class)
            };
        let e = records[i].elements@[j];
        lemma_elements(records, e);
        let k = choose|k: int| 0 <= k < all.len() && all[k] == e;
        assert(s[k] == emit::facts(e));
        assert(t.contains(s[k]));
        let m = choose|m: int| 0 <= m < t.len() && t[m] == s[k];
        assert(list[m] == node);
    }
    if exists|i: int|
        0 <= i < attested.len() && {
            let e = #[trigger] attested[i];
            node == told(e.key@, json::opt_view(e.value), ProvenanceClass::Asserted)
        } {
        let i = choose|i: int|
            0 <= i < attested.len() && {
                let e = #[trigger] attested[i];
                node == told(e.key@, json::opt_view(e.value), ProvenanceClass::Asserted)
            };
        assert(s[n + i] == emit::attested_facts(attested[i]));
        assert(t.contains(s[n + i]));
        let m = choose|m: int| 0 <= m < t.len() && t[m] == s[n + i];
        assert(list[m] == node);
    }
    assert(lists(emit::croissant(dataset.id@, hash, s, producer, keys), "veridex:provenance"@, list));
}

} // verus!
