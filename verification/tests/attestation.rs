use veridex_core::cdm::{Dataset, Provenance, ProvenanceClass, ProvenanceElement};
use veridex_core::certificate::attestation::{
    conflicts, sign_attestation, verify_attestation, AttestError, Attestation, SignedAttestation,
    ATTESTATION_SCHEMA_VERSION,
};
use veridex_core::certificate::signing::{verify_detached, SigningKeypair};
use veridex_core::digest::to_hex;

const JSON: &[u8] = b"{\"schema\":\"veridex.attestation/1\",\"dataset_id\":\"demo\",\"cdm_content_hash\":\"abcd\",\
\"elements\":[{\"key\":\"license\",\"value\":\"mit\"}],\"timestamp\":\"2026-01-02T03:04:05Z\"}";

fn pair(key: &str, value: &str) -> (String, String) {
    (key.to_string(), value.to_string())
}

fn attestation(elements: Vec<(String, String)>) -> Attestation {
    Attestation::build("demo", "abcd", elements, "2026-01-02T03:04:05Z")
}

fn keypair() -> SigningKeypair {
    SigningKeypair::from_seed([3; 32])
}

fn signed() -> SignedAttestation {
    sign_attestation(attestation(vec![pair("license", "mit")]), &keypair())
}

fn elements(a: &Attestation) -> Vec<(&str, &str)> {
    a.elements.iter().map(|e| (e.key.as_str(), e.value.as_str())).collect()
}

#[test]
fn the_same_request_makes_the_same_document() {
    let a = attestation(vec![pair("license", "mit"), pair("annotator", "x"), pair("license", "bsd")]);
    assert_eq!(a.schema, ATTESTATION_SCHEMA_VERSION);
    assert_eq!((a.dataset_id.as_str(), a.cdm_content_hash.as_str()), ("demo", "abcd"));
    assert_eq!(elements(&a), [("annotator", "x"), ("license", "bsd")]);
    let b = attestation(vec![pair("annotator", "x"), pair("license", "bsd")]);
    assert_eq!(elements(&a), elements(&b));
}

#[test]
fn a_signed_attestation_verifies() {
    let s = signed();
    assert_eq!(verify_attestation(&s, "abcd", None).unwrap(), keypair().public_hex());
    assert_eq!(verify_attestation(&s, "abcd", Some(&keypair().public_hex())).unwrap(), keypair().public_hex());
    // The bytes are framed: what is signed is not the JSON alone.
    assert!(verify_detached(JSON, &s.public_key, &s.signature).is_err());
}

#[test]
fn each_refusal_has_its_error() {
    let mut s = signed();
    s.algorithm = "rsa".to_string();
    let e = verify_attestation(&s, "abcd", None).unwrap_err();
    assert_eq!(e.message(), "unsupported signature algorithm `rsa` (expected `ed25519`)");
    let mut s = signed();
    s.attestation.schema = "other".to_string();
    let e = verify_attestation(&s, "abcd", None).unwrap_err();
    assert_eq!(e.message(), "unsupported attestation schema `other` (expected `veridex.attestation/1`)");
    let mut s = signed();
    s.signature = "zz".to_string();
    let e = verify_attestation(&s, "abcd", None).unwrap_err();
    assert!(matches!(&e, AttestError::Malformed(_)));
    assert_eq!(e.message(), "malformed signature: expected 64 hex bytes");
    let mut s = signed();
    s.public_key = "zz".to_string();
    let e = verify_attestation(&s, "abcd", None).unwrap_err();
    assert_eq!(e.message(), "malformed public key: expected 32 hex bytes");
    let mut s = signed();
    s.attestation.elements[0].value = "bsd".to_string();
    let e = verify_attestation(&s, "abcd", None).unwrap_err();
    assert!(matches!(&e, AttestError::SignatureMismatch));
    assert_eq!(e.message(), "signature mismatch: the attestation was altered, or signed by a different key");
    let e = verify_attestation(&signed(), "ffff", None).unwrap_err();
    assert_eq!(e.message(), "this attestation is about a different dataset: it is bound to abcd, and this one hashes to ffff");
    let e = verify_attestation(&signed(), "abcd", Some("other")).unwrap_err();
    assert!(matches!(&e, AttestError::UntrustedProducer { found } if *found == keypair().public_hex()));
}

#[test]
fn a_contradiction_is_reported_once() {
    let element = |key: &str, value: &str, class: ProvenanceClass| ProvenanceElement {
        key: key.to_string(),
        value: Some(value.to_string()),
        class,
        placeholder: false,
    };
    let d = Dataset {
        id: "d".to_string(),
        calibration: None,
        metadata: Vec::new(),
        provenance: vec![Provenance {
            elements: vec![
                element("license", "mit", ProvenanceClass::Known),
                element("license", "mit", ProvenanceClass::Known),
                element("annotator", "x", ProvenanceClass::Asserted),
            ],
        }],
        episodes: Vec::new(),
    };
    let found = conflicts(&d, &attestation(vec![pair("license", "bsd"), pair("annotator", "y"), pair("sensor", "z")]));
    assert_eq!(found.len(), 1);
    assert_eq!((found[0].key.as_str(), found[0].recorded.as_str(), found[0].attested.as_str()), ("license", "mit", "bsd"));
    assert!(conflicts(&d, &attestation(vec![pair("license", "mit")])).is_empty());
}

#[test]
fn a_signature_for_one_kind_of_document_is_none_for_another() {
    let k = keypair();
    let framed = |tag: &str| {
        let mut m = tag.as_bytes().to_vec();
        m.push(0);
        m.extend_from_slice(JSON);
        m
    };
    let s = signed();
    assert!(verify_detached(&framed("veridex.attestation.sig.v1"), &s.public_key, &s.signature).is_ok());
    assert!(verify_detached(&framed("veridex.certificate.sig.v1"), &s.public_key, &s.signature).is_err());
    let other = to_hex(&k.sign_bytes(&framed("veridex.certificate.sig.v1")));
    let mut moved = signed();
    moved.signature = other;
    assert!(matches!(verify_attestation(&moved, "abcd", None), Err(AttestError::SignatureMismatch)));
}
