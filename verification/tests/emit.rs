use veridex_core::cdm::{Dataset, Provenance, ProvenanceClass, ProvenanceElement};
use veridex_core::emit::{iri_segment, render_provenance, render_provenance_attested};

fn element(key: &str, value: Option<&str>, class: ProvenanceClass) -> ProvenanceElement {
    ProvenanceElement {
        key: key.to_string(),
        value: value.map(|v| v.to_string()),
        class,
        placeholder: value == Some("n/a"),
    }
}

fn known(key: &str, value: &str) -> ProvenanceElement {
    element(key, Some(value), ProvenanceClass::Known)
}

fn dataset(elements: Vec<ProvenanceElement>) -> Dataset {
    Dataset {
        id: "my robot".to_string(),
        calibration: None,
        metadata: Vec::new(),
        provenance: vec![Provenance { elements }],
        episodes: Vec::new(),
    }
}

fn emitted(d: &Dataset, format: &str) -> serde_json::Value {
    serde_json::from_str(&render_provenance(d, "ab12", format).unwrap()).unwrap()
}

#[test]
fn identifiers_are_percent_encoded() {
    assert_eq!(iri_segment("my robot data"), "my%20robot%20data");
    assert_eq!(iri_segment("Az09-._~"), "Az09-._~");
    assert_eq!(iri_segment("é/%"), "%C3%A9%2F%25");
    assert_ne!(iri_segment("a b"), iri_segment("a%20b"));
}

#[test]
fn croissant_maps_what_is_known() {
    let d = dataset(vec![
        known("license", "mit"),
        element("license", Some("apache-2.0"), ProvenanceClass::Asserted),
        known("license", "n/a"),
        element("sensor", None, ProvenanceClass::Unknown),
        known("annotator", "Jane Doe"),
        known("annotator", "Crowdsourced, other"),
        known("annotator", "crowdsourced, Acme Labs"),
    ]);
    let doc = emitted(&d, "croissant");
    assert_eq!(doc["@type"], "sc:Dataset");
    assert_eq!(doc["@context"]["conformsTo"], "dct:conformsTo");
    assert_eq!(doc["name"], "my robot");
    assert_eq!(doc["description"], "Veridex-extracted provenance for `my robot`.");
    assert_eq!(doc["license"], "apache-2.0");
    assert_eq!(doc["creator"][0]["name"], "Jane Doe");
    assert_eq!(doc["creator"][1]["name"], "crowdsourced, Acme Labs");
    assert_eq!(doc["veridex:annotationCreators"], "Crowdsourced, other");
    assert_eq!(doc["distribution"][0]["sha256"], "ab12");
    let list = doc["veridex:provenance"].as_array().unwrap();
    assert_eq!(list.len(), 7);
    assert_eq!(list[0]["value"], "Crowdsourced, other");
    assert_eq!(list[3]["key"], "license");
    assert_eq!(list[3]["value"], "apache-2.0");
    assert_eq!(list[3]["class"], "asserted");
    assert_eq!(list[6]["key"], "sensor");
    assert_eq!(list[6]["value"], serde_json::Value::Null);
}

#[test]
fn one_creator_is_an_object_and_none_is_absent() {
    let doc = emitted(&dataset(vec![known("annotator", "Jane")]), "croissant");
    assert_eq!(doc["creator"]["name"], "Jane");
    let doc = emitted(&dataset(Vec::new()), "croissant");
    assert!(doc.get("creator").is_none());
    assert!(doc.get("license").is_none());
    assert!(doc.get("veridex:attestedBy").is_none());
}

#[test]
fn prov_attributes_to_every_agent() {
    let d = dataset(vec![
        known("recorder", "ros2"),
        known("sensor", "cam b"),
        known("sensor", "cam a"),
        known("annotator", "found"),
        known("platform", "truck"),
        known("upstream", "base set"),
    ]);
    let doc = emitted(&d, "prov");
    let graph = doc["@graph"].as_array().unwrap();
    assert_eq!(graph.len(), 5);
    let entity = &graph[0];
    assert_eq!(entity["@id"], "veridex:dataset/my%20robot");
    assert_eq!(entity["prov:wasAttributedTo"][0]["@id"], "veridex:agent/recorder/ros2");
    assert_eq!(entity["prov:wasAttributedTo"][1]["@id"], "veridex:agent/sensor/cam%20a");
    assert_eq!(entity["veridex:annotationCreators"], "found");
    assert_eq!(entity["veridex:platform"], "truck");
    assert_eq!(entity["prov:wasDerivedFrom"]["@id"], "veridex:dataset/base%20set");
    assert_eq!(graph[1]["@type"], "prov:SoftwareAgent");
    assert_eq!(graph[2]["veridex:label"], "cam a");
    assert_eq!(graph[4]["@type"], "prov:Entity");
}

#[test]
fn several_upstreams_are_a_list() {
    let d = dataset(vec![known("upstream", "b"), known("upstream", "a"), known("upstream", "b")]);
    let doc = emitted(&d, "prov");
    let parents = doc["@graph"][0]["prov:wasDerivedFrom"].as_array().unwrap();
    assert_eq!(parents.len(), 2);
    assert_eq!(parents[0]["@id"], "veridex:dataset/a");
}

#[test]
fn attested_provenance_is_asserted_and_named() {
    let d = dataset(vec![known("recorder", "ros2")]);
    let attested = vec![known("license", "cc-by-4.0")];
    let text = render_provenance_attested(&d, "ab12", "croissant", &attested, "k1").unwrap();
    let doc: serde_json::Value = serde_json::from_str(&text).unwrap();
    assert_eq!(doc["license"], "cc-by-4.0");
    assert_eq!(doc["veridex:provenance"][0]["class"], "asserted");
    assert_eq!(doc["veridex:attestedBy"]["producer_key"], "k1");
    assert_eq!(doc["veridex:attestedBy"]["keys"][0], "license");
    let text = render_provenance_attested(&d, "ab12", "prov", &attested, "k 1").unwrap();
    let doc: serde_json::Value = serde_json::from_str(&text).unwrap();
    let graph = doc["@graph"].as_array().unwrap();
    assert_eq!(graph[0]["prov:wasAttributedTo"][1]["@id"], "veridex:producer/k%201");
    assert_eq!(graph[2]["veridex:role"], "producer-attestation");
    assert_eq!(graph[2]["veridex:attests"][0], "license");
}

#[test]
fn an_unknown_format_is_refused() {
    assert_eq!(
        render_provenance(&dataset(Vec::new()), "ab12", "rdf"),
        Err("unknown emit `rdf` (expected `croissant` or `prov`)".to_string())
    );
}
