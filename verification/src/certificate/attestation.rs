//! Producer attestation: provenance a producer signs for, bound to the data it is about.
//!
//! Most of what provenance means is not in the file, and none of it is inferred. An attestation is
//! the producer saying it, in a document that can be checked: signed by the producer's key, bound to
//! the dataset's CDM content hash, and carried beside the CDM, never folded into it. It records that
//! a named key asserted a value, which is why attested elements count as `asserted` rather than
//! `known`.

use vstd::prelude::*;
use vstd::string::*;
use vstd::utf8;

use crate::assoc;
use crate::assoc::Entry;
use crate::cat::{cat4, cat5};
use crate::cdm::{Dataset, Provenance, ProvenanceClass, ProvenanceElement};
use crate::certificate::content;
use crate::certificate::signing;
use crate::certificate::signing::{verify_detached, CertError, SigningKeypair, ALGORITHM};
use crate::checks::provenance;
use crate::digest;
use crate::digest::{framed, to_hex};
use crate::json;
use crate::json::compact_bytes;
use crate::order;
use crate::order::{place, Labeled};
use crate::text;
use crate::text::same;

verus! {

/// Schema id for the attestation document.
pub const ATTESTATION_SCHEMA_VERSION: &'static str = "veridex.attestation/1";

/// The tag that goes before an attestation's bytes when they are signed. Distinct from the
/// certificate's, so an attestation can never be presented as a certificate, or the reverse.
pub const SIGN_DOMAIN: &'static str = "veridex.attestation.sig.v1";

/// One attested provenance element: a key a producer asserts a value for.
#[derive(Debug)]
pub struct AttestedElement {
    /// The provenance key (e.g. `license`, `annotator`, `calibration`).
    pub key: String,
    /// The value the producer asserts.
    pub value: String,
}

impl View for AttestedElement {
    type V = (Seq<char>, Seq<char>);

    open spec fn view(&self) -> (Seq<char>, Seq<char>) {
        (self.key@, self.value@)
    }
}

/// The unsigned attestation content.
#[derive(Debug)]
pub struct Attestation {
    /// Schema id.
    pub schema: String,
    /// The dataset this attestation is about.
    pub dataset_id: String,
    /// The CDM content hash it is bound to (hex). An attestation presented against other data is
    /// refused.
    pub cdm_content_hash: String,
    /// The elements the producer asserts, sorted by key so the document is deterministic.
    pub elements: Vec<AttestedElement>,
    /// Caller-supplied issuance timestamp (the core never reads a clock).
    pub timestamp: String,
}

/// An attestation with its Ed25519 signature.
#[derive(Debug)]
pub struct SignedAttestation {
    /// The signed content.
    pub attestation: Attestation,
    /// Signature algorithm (`ed25519`).
    pub algorithm: String,
    /// The producer's public key (hex) — the key the signature verifies against.
    pub public_key: String,
    /// The signature (hex).
    pub signature: String,
}

/// What pairs of a key and a value are.
pub open spec fn request(s: Seq<(String, String)>) -> Seq<(Seq<char>, Seq<char>)> {
    s.map_values(|p: (String, String)| (p.0@, p.1@))
}

/// What entries are, with their values as texts.
spec fn entry_texts(s: Seq<Entry<String>>) -> Seq<(Seq<char>, Seq<char>)> {
    s.map_values(|e: Entry<String>| (e.key@, e.value@))
}

/// A map of strings as a map of texts.
spec fn as_texts(s: Seq<(Seq<char>, String)>) -> Seq<(Seq<char>, Seq<char>)> {
    s.map_values(|p: (Seq<char>, String)| (p.0, p.1@))
}

/// Setting a string under a key sets its text.
proof fn lemma_texts_with_pair(s: Seq<(Seq<char>, String)>, k: Seq<char>, v: String)
    ensures
        as_texts(assoc::with_pair(s, k, v)) == assoc::with_pair(as_texts(s), k, v@),
    decreases s.len(),
{
    let t = as_texts(s);
    if s.len() > 0 {
        assert(t[0] == (s[0].0, s[0].1@));
        assert(as_texts(s.skip(1)) =~= t.skip(1));
        lemma_texts_with_pair(s.skip(1), k, v);
    }
    assert(as_texts(assoc::with_pair(s, k, v)) =~= assoc::with_pair(t, k, v@));
}

impl Attestation {
    /// Build an attestation over `elements` for a dataset and its content hash.
    ///
    /// Elements are sorted by key and de-duplicated (last value for a repeated key wins), so the same
    /// request always produces the same document.
    pub fn build(
        dataset_id: &str,
        cdm_content_hash: &str,
        elements: Vec<(String, String)>,
        timestamp: &str,
    ) -> (r: Attestation)
        ensures
            r.schema@ == ATTESTATION_SCHEMA_VERSION@,
            r.dataset_id@ == dataset_id@,
            r.cdm_content_hash@ == cdm_content_hash@,
            order::views(r.elements@) == assoc::collected(request(elements@)),
            r.timestamp@ == timestamp@,
    {
        let ghost all = request(elements@);
        let mut map: Vec<Entry<String>> = Vec::new();
        let mut i: usize = 0;
        assert(entry_texts(map@) =~= Seq::empty());
        while i < elements.len()
            invariant
                i <= elements@.len(),
                all == request(elements@),
                entry_texts(map@) == assoc::collected(all.take(i as int)),
            decreases elements@.len() - i,
        {
            let (key, value): (String, String) = (elements[i].0.clone(), elements[i].1.clone());
            proof {
                assert(all[i as int] == (key@, value@));
                assert(all.take(i + 1).drop_last() =~= all.take(i as int));
                assert(as_texts(assoc::pairs(map@)) =~= entry_texts(map@));
                lemma_texts_with_pair(assoc::pairs(map@), key@, value);
            }
            assoc::put(&mut map, key, value);
            assert(as_texts(assoc::pairs(map@)) =~= entry_texts(map@));
            i = i + 1;
        }
        assert(all.take(i as int) =~= all);
        let mut out: Vec<AttestedElement> = Vec::new();
        let ghost m = entry_texts(map@);
        let mut k: usize = 0;
        assert(order::views(out@) =~= m.take(0));
        while k < map.len()
            invariant
                k <= map@.len(),
                m == entry_texts(map@),
                order::views(out@) == m.take(k as int),
            decreases map@.len() - k,
        {
            let e: AttestedElement = AttestedElement { key: map[k].key.clone(), value: map[k].value.clone() };
            proof {
                assert(m[k as int] == e@);
                order::lemma_views_push(out@, e);
                assert(m.take(k + 1) =~= m.take(k as int).push(e@));
            }
            out.push(e);
            k = k + 1;
        }
        assert(m.take(k as int) =~= m);
        Attestation {
            schema: String::from_str(ATTESTATION_SCHEMA_VERSION),
            dataset_id: String::from_str(dataset_id),
            cdm_content_hash: String::from_str(cdm_content_hash),
            elements: out,
            timestamp: String::from_str(timestamp),
        }
    }
}

/// Requests that ask for the same value under every key give the same elements, in whatever order
/// they come.
pub proof fn law_request_order_does_not_matter(a: Seq<(Seq<char>, Seq<char>)>, b: Seq<(Seq<char>, Seq<char>)>)
    requires
        forall|k: Seq<char>| #[trigger] assoc::last_value(a, k) == assoc::last_value(b, k),
    ensures
        assoc::collected(a) == assoc::collected(b),
{
    assoc::law_last_pair_wins(a, Seq::empty());
    assoc::law_last_pair_wins(b, Seq::empty());
    assert forall|k: Seq<char>| #[trigger] assoc::value_of(assoc::collected(a), k) == assoc::value_of(
        assoc::collected(b),
        k,
    ) by {
        assoc::law_last_pair_wins(a, k);
        assoc::law_last_pair_wins(b, k);
        assert(assoc::last_value(a, k) == assoc::last_value(b, k));
    }
    assoc::lemma_maps_equal(assoc::collected(a), assoc::collected(b));
}

// ---- signing ---------------------------------------------------------------------------------

/// The exact bytes signed and verified: a domain tag plus the JSON of the attestation.
pub open spec fn signed_message(a: Attestation) -> Seq<u8> {
    digest::frame(SIGN_DOMAIN@, json::compact(content::attested_doc(a)))
}

/// The exact bytes signed and verified.
fn signing_message(a: &Attestation) -> (r: Vec<u8>)
    ensures
        r@ == signed_message(*a),
{
    framed(SIGN_DOMAIN, compact_bytes(&content::attested_json(a)).as_slice())
}

/// Sign an attestation with the producer's key.
pub fn sign_attestation(attestation: Attestation, keypair: &SigningKeypair) -> (r: SignedAttestation)
    requires
        keypair.wf(),
    ensures
        r.attestation == attestation,
        r.algorithm@ == ALGORITHM@,
        r.public_key@ == digest::hex(signing::ed25519_public(keypair.seed())),
        r.signature@ == digest::hex(signing::ed25519_signature(keypair.seed(), signed_message(attestation))),
        signing::ed25519_is_key(signing::ed25519_public(keypair.seed())),
        signing::ed25519_public(keypair.seed()).len() == 32,
        signing::ed25519_signature(keypair.seed(), signed_message(attestation)).len() == 64,
        !signing::has_neutral_point(signing::ed25519_signature(keypair.seed(), signed_message(attestation)))
            ==> signing::ed25519_accepts(
            signing::ed25519_public(keypair.seed()),
            signed_message(attestation),
            signing::ed25519_signature(keypair.seed(), signed_message(attestation)),
        ),
{
    let message: Vec<u8> = signing_message(&attestation);
    let signature: Vec<u8> = keypair.sign_bytes(message.as_slice());
    SignedAttestation {
        attestation,
        algorithm: String::from_str(ALGORITHM),
        public_key: keypair.public_hex(),
        signature: to_hex(signature.as_slice()),
    }
}

/// Why an attestation was refused.
///
/// Its own type rather than the certificate's, because the certificate's messages name a
/// certificate.
#[derive(Debug)]
pub enum AttestError {
    /// The signature did not verify against the content and the producer key.
    SignatureMismatch,
    /// The attestation is bound to a different dataset than the one presented.
    NotThisDataset {
        /// The hash the attestation is bound to.
        bound: String,
        /// The presented dataset's hash.
        presented: String,
    },
    /// Signed by a key other than the one the caller trusts.
    UntrustedProducer {
        /// The public key the document carries.
        found: String,
    },
    /// A malformed key or signature, an unknown algorithm, or an unknown schema.
    Malformed(String),
}

/// What an attestation error says.
pub enum AttestErrorView {
    /// The signature did not verify.
    SignatureMismatch,
    /// Another dataset.
    NotThisDataset {
        /// The hash the attestation is bound to.
        bound: Seq<char>,
        /// The presented dataset's hash.
        presented: Seq<char>,
    },
    /// Another producer.
    UntrustedProducer {
        /// The public key the document carries.
        found: Seq<char>,
    },
    /// Something malformed or unknown.
    Malformed(Seq<char>),
}

impl View for AttestError {
    type V = AttestErrorView;

    open spec fn view(&self) -> AttestErrorView {
        match *self {
            AttestError::SignatureMismatch => AttestErrorView::SignatureMismatch,
            AttestError::NotThisDataset { bound, presented } => AttestErrorView::NotThisDataset {
                bound: bound@,
                presented: presented@,
            },
            AttestError::UntrustedProducer { found } => AttestErrorView::UntrustedProducer { found: found@ },
            AttestError::Malformed(s) => AttestErrorView::Malformed(s@),
        }
    }
}

impl AttestErrorView {
    /// The error as a sentence.
    pub open spec fn message(self) -> Seq<char> {
        match self {
            AttestErrorView::SignatureMismatch =>
                "signature mismatch: the attestation was altered, or signed by a different key"@,
            AttestErrorView::NotThisDataset { bound, presented } =>
                "this attestation is about a different dataset: it is bound to "@ + bound + ", and this one hashes to "@
                    + presented,
            AttestErrorView::UntrustedProducer { found } => "untrusted producer: this attestation is signed by "@ + found
                + ", not the expected key"@,
            AttestErrorView::Malformed(s) => s,
        }
    }
}

impl AttestError {
    /// The error as a sentence.
    pub fn message(&self) -> (r: String)
        ensures
            r@ == self@.message(),
    {
        match self {
            AttestError::SignatureMismatch => String::from_str(
                "signature mismatch: the attestation was altered, or signed by a different key",
            ),
            AttestError::NotThisDataset { bound, presented } => cat4(
                "this attestation is about a different dataset: it is bound to ",
                bound.as_str(),
                ", and this one hashes to ",
                presented.as_str(),
            ),
            AttestError::UntrustedProducer { found } => crate::cat::cat3(
                "untrusted producer: this attestation is signed by ",
                found.as_str(),
                ", not the expected key",
            ),
            AttestError::Malformed(s) => s.clone(),
        }
    }
}

/// A certificate error as an attestation error.
pub open spec fn converted(e: CertError) -> AttestErrorView {
    match e {
        CertError::SignatureMismatch => AttestErrorView::SignatureMismatch,
        _ => AttestErrorView::Malformed(e.spec_message()),
    }
}

/// A certificate error as an attestation error.
fn convert(e: CertError) -> (r: AttestError)
    ensures
        r@ == converted(e),
{
    match e {
        CertError::SignatureMismatch => AttestError::SignatureMismatch,
        _ => AttestError::Malformed(e.message()),
    }
}

/// Why a signed attestation is refused: nothing, or the first of the reasons in the order they are
/// looked for.
pub open spec fn refusal(
    signed: SignedAttestation,
    presented: Seq<char>,
    expected: Option<Seq<char>>,
) -> Option<AttestErrorView> {
    let a = signed.attestation;
    let detached = signing::detached_error(signed_message(a), signed.public_key@, signed.signature@);
    if signed.algorithm@ != ALGORITHM@ {
        Some(
            AttestErrorView::Malformed(
                "unsupported signature algorithm `"@ + signed.algorithm@ + "` (expected `"@ + ALGORITHM@ + "`)"@,
            ),
        )
    } else if a.schema@ != ATTESTATION_SCHEMA_VERSION@ {
        Some(
            AttestErrorView::Malformed(
                "unsupported attestation schema `"@ + a.schema@ + "` (expected `"@ + ATTESTATION_SCHEMA_VERSION@ + "`)"@,
            ),
        )
    } else if detached is Some {
        Some(converted(detached->0))
    } else if a.cdm_content_hash@ != presented {
        Some(AttestErrorView::NotThisDataset { bound: a.cdm_content_hash@, presented })
    } else if expected is Some && expected->0 != signed.public_key@ {
        Some(AttestErrorView::UntrustedProducer { found: signed.public_key@ })
    } else {
        None
    }
}

/// Verify an attestation offline.
///
/// - `presented_cdm_hash`: the attestation must be bound to this hash, so it cannot be moved to other
///   data.
/// - `expected_producer`: if `Some`, the attestation must be signed by this public key.
///
/// Returns the producer key the signature actually verified against — the authoritative identity.
pub fn verify_attestation(
    signed: &SignedAttestation,
    presented_cdm_hash: &str,
    expected_producer: Option<&str>,
) -> (r: Result<String, AttestError>)
    ensures
        match r {
            Ok(key) => refusal(*signed, presented_cdm_hash@, signing::text_of(expected_producer)) is None && key@
                == signed.public_key@,
            Err(e) => refusal(*signed, presented_cdm_hash@, signing::text_of(expected_producer)) == Some(e@),
        },
{
    if !same(signed.algorithm.as_str(), ALGORITHM) {
        return Err(
            AttestError::Malformed(
                cat5(
                    "unsupported signature algorithm `",
                    signed.algorithm.as_str(),
                    "` (expected `",
                    ALGORITHM,
                    "`)",
                ),
            ),
        );
    }
    if !same(signed.attestation.schema.as_str(), ATTESTATION_SCHEMA_VERSION) {
        return Err(
            AttestError::Malformed(
                cat5(
                    "unsupported attestation schema `",
                    signed.attestation.schema.as_str(),
                    "` (expected `",
                    ATTESTATION_SCHEMA_VERSION,
                    "`)",
                ),
            ),
        );
    }
    let message: Vec<u8> = signing_message(&signed.attestation);
    match verify_detached(message.as_slice(), signed.public_key.as_str(), signed.signature.as_str()) {
        Ok(()) => {},
        Err(e) => {
            return Err(convert(e));
        },
    }
    if !same(signed.attestation.cdm_content_hash.as_str(), presented_cdm_hash) {
        return Err(
            AttestError::NotThisDataset {
                bound: signed.attestation.cdm_content_hash.clone(),
                presented: String::from_str(presented_cdm_hash),
            },
        );
    }
    if let Some(expected) = expected_producer {
        if !same(expected, signed.public_key.as_str()) {
            return Err(AttestError::UntrustedProducer { found: signed.public_key.clone() });
        }
    }
    Ok(signed.public_key.clone())
}

/// An attestation that was signed verifies for the data it is about and for the producer whose key
/// signed it. (Ed25519 accepts what it signed unless the signature's point is neutral.)
pub proof fn law_signed_attestation_verifies(signed: SignedAttestation, seed: Seq<u8>)
    requires
        signed.attestation.schema@ == ATTESTATION_SCHEMA_VERSION@,
        signed.algorithm@ == ALGORITHM@,
        signing::is_signed_with(signed.public_key@, signed.signature@, seed, signed_message(signed.attestation)),
        signing::ed25519_accepts(
            signing::ed25519_public(seed),
            signed_message(signed.attestation),
            signing::ed25519_signature(seed, signed_message(signed.attestation)),
        ),
    ensures
        refusal(signed, signed.attestation.cdm_content_hash@, None) is None,
        refusal(signed, signed.attestation.cdm_content_hash@, Some(signed.public_key@)) is None,
{
    digest::law_hex_reads_back(signing::ed25519_public(seed));
    digest::law_hex_reads_back(signing::ed25519_signature(seed, signed_message(signed.attestation)));
}

/// An attestation that was altered after it was signed is refused as tampering: the signature still
/// covers the content that was signed, and Ed25519 does not accept it over the altered content.
pub proof fn law_altered_attestations_are_refused(
    original: SignedAttestation,
    altered: SignedAttestation,
    seed: Seq<u8>,
    presented: Seq<char>,
    expected: Option<Seq<char>>,
)
    requires
        signing::is_signed_with(original.public_key@, original.signature@, seed, signed_message(original.attestation)),
        original.algorithm@ == ALGORITHM@,
        altered.algorithm@ == original.algorithm@,
        altered.public_key@ == original.public_key@,
        altered.signature@ == original.signature@,
        altered.attestation.schema@ == ATTESTATION_SCHEMA_VERSION@,
        !signing::ed25519_accepts(
            signing::ed25519_public(seed),
            signed_message(altered.attestation),
            signing::ed25519_signature(seed, signed_message(original.attestation)),
        ),
    ensures
        refusal(altered, presented, expected) == Some(AttestErrorView::SignatureMismatch),
{
    digest::law_hex_reads_back(signing::ed25519_public(seed));
    digest::law_hex_reads_back(signing::ed25519_signature(seed, signed_message(original.attestation)));
}

/// An attestation presented against other data, or by another producer than the trusted one, is
/// refused, whatever else holds of it.
pub proof fn law_moved_attestations_are_refused(
    signed: SignedAttestation,
    presented: Seq<char>,
    expected: Option<Seq<char>>,
)
    requires
        presented != signed.attestation.cdm_content_hash@ || (expected is Some && expected->0 != signed.public_key@),
    ensures
        refusal(signed, presented, expected) is Some,
{
}

/// What is signed as an attestation was not signed as a certificate: the messages differ, whatever
/// their content.
pub proof fn law_domains_are_separate(a: Seq<u8>, b: Seq<u8>)
    ensures
        digest::frame(SIGN_DOMAIN@, a) != digest::frame(signing::SIGN_DOMAIN@, b),
{
    reveal_strlit("veridex.attestation.sig.v1");
    reveal_strlit("veridex.certificate.sig.v1");
    let (x, y) = (SIGN_DOMAIN@, signing::SIGN_DOMAIN@);
    assert(x.len() == 26 && y.len() == 26);
    assert(x[8] == 'a' && y[8] == 'c');
    assert(x != y);
    text::lemma_encoding_is_injective(x, y);
    assert(utf8::is_ascii_chars(x));
    assert(utf8::is_ascii_chars(y));
    utf8::is_ascii_chars_encode_utf8(x);
    utf8::is_ascii_chars_encode_utf8(y);
    digest::lemma_frames_differ(x, y, a, b);
}

// ---- conflicts -------------------------------------------------------------------------------

/// An attested value that contradicts what the dataset itself records.
#[derive(Debug)]
pub struct AttestationConflict {
    /// The provenance key both claim.
    pub key: String,
    /// What the dataset records.
    pub recorded: String,
    /// What the producer attests.
    pub attested: String,
}

/// An attested value that contradicts what the dataset itself records.
pub struct ConflictView {
    /// The provenance key both claim.
    pub key: Seq<char>,
    /// What the dataset records.
    pub recorded: Seq<char>,
    /// What the producer attests.
    pub attested: Seq<char>,
}

impl View for AttestationConflict {
    type V = ConflictView;

    open spec fn view(&self) -> ConflictView {
        ConflictView { key: self.key@, recorded: self.recorded@, attested: self.attested@ }
    }
}

impl Labeled for AttestationConflict {
    open spec fn label_of(v: ConflictView) -> Seq<char> {
        v.key
    }

    fn label(&self) -> (r: &str) {
        self.key.as_str()
    }
}

/// Whether an attested element contradicts a value that the dataset records as known.
pub open spec fn contradicts(e: (Seq<char>, Seq<char>), p: ProvenanceElement) -> bool {
    p.key@ == e.0 && p.class is Known && p.value is Some && p.value->0@ != e.1
}

/// The contradictions of one attested element, as they come.
pub open spec fn conflicts_of(e: (Seq<char>, Seq<char>), s: Seq<ProvenanceElement>) -> Seq<ConflictView>
    decreases s.len(),
{
    if s.len() == 0 {
        Seq::empty()
    } else {
        let rest = conflicts_of(e, s.drop_last());
        if contradicts(e, s.last()) {
            rest.push(ConflictView { key: e.0, recorded: s.last().value->0@, attested: e.1 })
        } else {
            rest
        }
    }
}

/// The contradictions of attested elements, as they come.
pub open spec fn all_conflicts(es: Seq<(Seq<char>, Seq<char>)>, s: Seq<ProvenanceElement>) -> Seq<ConflictView>
    decreases es.len(),
{
    if es.len() == 0 {
        Seq::empty()
    } else {
        all_conflicts(es.drop_last(), s) + conflicts_of(es.last(), s)
    }
}

/// A list without the elements that repeat the one before.
pub open spec fn without_repeats<A>(s: Seq<A>) -> Seq<A>
    decreases s.len(),
{
    if s.len() == 0 {
        Seq::empty()
    } else if s.len() > 1 && s[s.len() - 2] == s.last() {
        without_repeats(s.drop_last())
    } else {
        without_repeats(s.drop_last()).push(s.last())
    }
}

/// Puts the contradictions of one attested element in their places.
fn place_conflicts(out: &mut Vec<AttestationConflict>, dataset: &Dataset, e: &AttestedElement, Ghost(was): Ghost<Seq<ConflictView>>)
    requires
        order::views(old(out)@) == order::ordered::<AttestationConflict>(was),
    ensures
        order::views(final(out)@) == order::ordered::<AttestationConflict>(
            was + conflicts_of(e@, provenance::all_elements(dataset.provenance@)),
        ),
{
    let ghost p = dataset.provenance@;
    let mut i: usize = 0;
    assert(was + conflicts_of(e@, provenance::all_elements(p.take(0))) =~= was);
    while i < dataset.provenance.len()
        invariant
            i <= p.len(),
            p == dataset.provenance@,
            order::views(out@) == order::ordered::<AttestationConflict>(
                was + conflicts_of(e@, provenance::all_elements(p.take(i as int))),
            ),
        decreases p.len() - i,
    {
        let record: &Provenance = &dataset.provenance[i];
        let ghost done = provenance::all_elements(p.take(i as int));
        let mut j: usize = 0;
        assert(done + record.elements@.take(0) =~= done);
        while j < record.elements.len()
            invariant
                j <= record.elements@.len(),
                order::views(out@) == order::ordered::<AttestationConflict>(
                    was + conflicts_of(e@, done + record.elements@.take(j as int)),
                ),
            decreases record.elements@.len() - j,
        {
            let x: &ProvenanceElement = &record.elements[j];
            let ghost s = done + record.elements@.take(j as int);
            assert((done + record.elements@.take(j + 1)).drop_last() =~= s);
            let known: bool = match x.class {
                ProvenanceClass::Known => true,
                _ => false,
            };
            if known && same(x.key.as_str(), e.key.as_str()) {
                if let Some(value) = &x.value {
                    if !same(value.as_str(), e.value.as_str()) {
                        let c: AttestationConflict = AttestationConflict {
                            key: e.key.clone(),
                            recorded: value.clone(),
                            attested: e.value.clone(),
                        };
                        proof {
                            let all = was + conflicts_of(e@, s);
                            order::lemma_ordered_push::<AttestationConflict>(all, c@);
                            assert(was + conflicts_of(e@, s).push(c@) =~= all.push(c@));
                        }
                        place(out, c);
                    }
                }
            }
            j = j + 1;
        }
        assert(record.elements@.take(j as int) =~= record.elements@);
        assert(p.take(i + 1).drop_last() =~= p.take(i as int));
        i = i + 1;
    }
    assert(p.take(i as int) =~= p);
}

/// Attested keys that contradict a value the dataset itself records as `known`, by key, without
/// repeats.
///
/// An attestation that *adds* what the format does not carry is the point of the feature. One that
/// *overrides* what the format does carry is a disagreement, which is reported rather than silently
/// resolved.
pub fn conflicts(dataset: &Dataset, attestation: &Attestation) -> (r: Vec<AttestationConflict>)
    ensures
        order::views(r@) == without_repeats(
            order::ordered::<AttestationConflict>(
                all_conflicts(order::views(attestation.elements@), provenance::all_elements(dataset.provenance@)),
            ),
        ),
{
    let ghost es = order::views(attestation.elements@);
    let ghost s = provenance::all_elements(dataset.provenance@);
    let mut found: Vec<AttestationConflict> = Vec::new();
    let mut i: usize = 0;
    assert(order::views(found@) =~= Seq::empty());
    while i < attestation.elements.len()
        invariant
            i <= attestation.elements@.len(),
            es == order::views(attestation.elements@),
            s == provenance::all_elements(dataset.provenance@),
            order::views(found@) == order::ordered::<AttestationConflict>(all_conflicts(es.take(i as int), s)),
        decreases attestation.elements@.len() - i,
    {
        proof {
            assert(es[i as int] == attestation.elements@[i as int]@);
            assert(es.take(i + 1).drop_last() =~= es.take(i as int));
        }
        place_conflicts(&mut found, dataset, &attestation.elements[i], Ghost(all_conflicts(es.take(i as int), s)));
        i = i + 1;
    }
    assert(es.take(i as int) =~= es);
    let ghost f = order::views(found@);
    let mut out: Vec<AttestationConflict> = Vec::new();
    let mut k: usize = 0;
    assert(order::views(out@) =~= Seq::empty());
    while k < found.len()
        invariant
            k <= found@.len(),
            f == order::views(found@),
            order::views(out@) == without_repeats(f.take(k as int)),
        decreases found@.len() - k,
    {
        let c: &AttestationConflict = &found[k];
        proof {
            assert(f[k as int] == c@);
            assert(f.take(k + 1).drop_last() =~= f.take(k as int));
            if k > 0 {
                assert(f[k - 1] == found@[k - 1]@);
            }
        }
        let repeat: bool = k > 0 && same_conflict(&found[k - 1], c);
        if !repeat {
            let copy: AttestationConflict = AttestationConflict {
                key: c.key.clone(),
                recorded: c.recorded.clone(),
                attested: c.attested.clone(),
            };
            proof {
                order::lemma_views_push(out@, copy);
            }
            out.push(copy);
        }
        k = k + 1;
    }
    assert(f.take(k as int) =~= f);
    out
}

/// Whether two contradictions are one.
fn same_conflict(a: &AttestationConflict, b: &AttestationConflict) -> (r: bool)
    ensures
        r == (a@ == b@),
{
    same(a.key.as_str(), b.key.as_str()) && same(a.recorded.as_str(), b.recorded.as_str()) && same(
        a.attested.as_str(),
        b.attested.as_str(),
    )
}

} // verus!
