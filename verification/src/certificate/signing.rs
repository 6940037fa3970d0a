//! Certificate signing and offline verification.
//!
//! A certificate is signed with Ed25519 over the deterministic JSON of its content. Verification is
//! fully offline: it checks the signature over the canonical bytes against the issuer public key, and
//! confirms the bound CDM content hash matches the presented dataset — rejecting tampering (signature
//! mismatch) and transplantation (content-hash mismatch) respectively.
//!
//! The JSON of a certificate is that of the document which [`content::certificate_json`] builds of it.

use ed25519_dalek::{Signature, Signer, SigningKey, VerifyingKey};
use vstd::prelude::*;
use vstd::string::*;

use crate::cat::{cat3, cat4, cat5};
use crate::certificate::content;
use crate::certificate::document::{Certificate, CERTIFICATE_SCHEMA_VERSION};
use crate::digest;
use crate::digest::{framed, from_hex, is_canonical_hex, to_hex};
use crate::engine::VERSION;
use crate::json;
use crate::json::compact_bytes;
use crate::text;
use crate::text::{dec_usize, lower, same, trim};

verus! {

// ---- Ed25519 ---------------------------------------------------------------------------------

/// The Ed25519 public key of a secret seed.
pub uninterp spec fn ed25519_public(seed: Seq<u8>) -> Seq<u8>;

/// The Ed25519 signature that a secret seed puts under a message.
pub uninterp spec fn ed25519_signature(seed: Seq<u8>, message: Seq<u8>) -> Seq<u8>;

/// Whether bytes decode to an Ed25519 public key.
pub uninterp spec fn ed25519_is_key(key: Seq<u8>) -> bool;

/// Whether a signature under a message strictly verifies against a public key.
pub uninterp spec fn ed25519_accepts(key: Seq<u8>, message: Seq<u8>, signature: Seq<u8>) -> bool;

/// Whether the first half of a signature encodes the neutral element of the curve: a one, and zeros.
pub open spec fn has_neutral_point(signature: Seq<u8>) -> bool {
    signature.len() >= 32 && signature[0] == 1 && forall|i: int| 1 <= i < 32 ==> #[trigger] signature[i] == 0
}

/// `ed25519_dalek::SigningKey::from_bytes` and its `verifying_key`: the public key of a seed, which
/// depends on the seed alone, has 32 bytes and decodes.
#[verifier::external_body]
fn public_key(seed: &[u8]) -> (r: Vec<u8>)
    requires
        seed@.len() == 32,
    ensures
        r@ == ed25519_public(seed@),
        r@.len() == 32,
        ed25519_is_key(r@),
{
    let seed: [u8; 32] = seed.try_into().unwrap();
    SigningKey::from_bytes(&seed).verifying_key().to_bytes().to_vec()
}

/// `ed25519_dalek::SigningKey::sign`: the signature under a message, which depends on the seed and
/// the message alone and has 64 bytes. Strict verification refuses a point of small order: other
/// than in a signature whose point is the neutral element, it accepts what was signed.
#[verifier::external_body]
fn sign_message(seed: &[u8], message: &[u8]) -> (r: Vec<u8>)
    requires
        seed@.len() == 32,
    ensures
        r@ == ed25519_signature(seed@, message@),
        r@.len() == 64,
        !has_neutral_point(r@) ==> ed25519_accepts(ed25519_public(seed@), message@, r@),
{
    let seed: [u8; 32] = seed.try_into().unwrap();
    SigningKey::from_bytes(&seed).sign(message).to_bytes().to_vec()
}

/// `ed25519_dalek::VerifyingKey::from_bytes`: whether bytes decode to a public key, which depends on
/// them alone.
#[verifier::external_body]
fn is_key(key: &[u8]) -> (r: bool)
    requires
        key@.len() == 32,
    ensures
        r == ed25519_is_key(key@),
{
    let key: [u8; 32] = key.try_into().unwrap();
    VerifyingKey::from_bytes(&key).is_ok()
}

/// `ed25519_dalek::VerifyingKey::verify_strict`: whether a signature verifies, which depends on the
/// key, the message and the signature alone. It rejects non-canonical signatures and keys of small
/// order, so a document has one valid signature.
#[verifier::external_body]
fn accepts(key: &[u8], message: &[u8], signature: &[u8]) -> (r: bool)
    requires
        key@.len() == 32,
        signature@.len() == 64,
        ed25519_is_key(key@),
    ensures
        r == ed25519_accepts(key@, message@, signature@),
{
    let key: [u8; 32] = key.try_into().unwrap();
    let signature: [u8; 64] = signature.try_into().unwrap();
    match VerifyingKey::from_bytes(&key) {
        Ok(k) => k.verify_strict(message, &Signature::from_bytes(&signature)).is_ok(),
        Err(_) => false,
    }
}

/// `getrandom::getrandom`: 32 bytes from the operating system's generator, or nothing where it
/// fails. Nothing is promised of what the bytes are.
#[verifier::external_body]
fn random_seed() -> (r: Option<Vec<u8>>)
    ensures
        r matches Some(v) ==> v@.len() == 32,
{
    let mut seed: [u8; 32] = [0u8; 32];
    match getrandom::getrandom(&mut seed) {
        Ok(()) => Some(seed.to_vec()),
        Err(_) => None,
    }
}

// ---- keys ------------------------------------------------------------------------------------

/// The only signature algorithm that is issued and verified.
pub const ALGORITHM: &'static str = "ed25519";

/// An Ed25519 signing keypair.
pub struct SigningKeypair {
    seed: Vec<u8>,
}

impl SigningKeypair {
    /// The secret seed.
    pub closed spec fn seed(&self) -> Seq<u8> {
        self.seed@
    }

    /// Whether the seed has 32 bytes.
    pub open spec fn wf(&self) -> bool {
        self.seed().len() == 32
    }

    /// Construct from a 32-byte seed (deterministic; useful for tests and reproducible issuance).
    pub fn from_seed(seed: [u8; 32]) -> (r: Self)
        ensures
            r.wf(),
            r.seed() == seed@,
    {
        let mut bytes: Vec<u8> = Vec::new();
        let mut i: usize = 0;
        while i < 32
            invariant
                i <= 32,
                seed@.len() == 32,
                bytes@ == seed@.take(i as int),
            decreases 32 - i,
        {
            bytes.push(seed[i]);
            i = i + 1;
        }
        assert(seed@.take(i as int) =~= seed@);
        SigningKeypair { seed: bytes }
    }

    /// Construct from a 64-character hex secret seed, trimming surrounding whitespace. Returns `None`
    /// if the input is not exactly 32 hex-encoded bytes.
    pub fn from_secret_hex(hex: &str) -> (r: Option<Self>)
        ensures
            match r {
                Some(k) => k.wf() && digest::unhex(text::trimmed(hex@)) == Some(k.seed()),
                None => !is_seed_hex(hex@),
            },
    {
        match from_hex(trim(hex).as_str()) {
            Some(seed) => if seed.len() == 32 {
                Some(SigningKeypair { seed })
            } else {
                None
            },
            None => None,
        }
    }

    /// Generate a fresh random keypair from the OS CSPRNG; nothing where it fails.
    pub fn generate() -> (r: Option<Self>)
        ensures
            r matches Some(k) ==> k.wf(),
    {
        match random_seed() {
            Some(seed) => Some(SigningKeypair { seed }),
            None => None,
        }
    }

    /// The 32-byte secret seed, hex-encoded. Store this secret; never commit it.
    pub fn secret_hex(&self) -> (r: String)
        ensures
            r@ == digest::hex(self.seed()),
    {
        to_hex(self.seed.as_slice())
    }

    /// The public verifying key, hex-encoded. This is the issuer key id.
    pub fn public_hex(&self) -> (r: String)
        requires
            self.wf(),
        ensures
            r@ == digest::hex(ed25519_public(self.seed())),
    {
        to_hex(public_key(self.seed.as_slice()).as_slice())
    }

    /// The signature under a message.
    pub fn sign_bytes(&self, message: &[u8]) -> (r: Vec<u8>)
        requires
            self.wf(),
        ensures
            r@ == ed25519_signature(self.seed(), message@),
            r@.len() == 64,
            !has_neutral_point(r@) ==> ed25519_accepts(ed25519_public(self.seed()), message@, r@),
            ed25519_is_key(ed25519_public(self.seed())),
            ed25519_public(self.seed()).len() == 32,
    {
        let _key: Vec<u8> = public_key(self.seed.as_slice());
        sign_message(self.seed.as_slice(), message)
    }
}

/// Whether a text is a secret seed in hex, but for surrounding whitespace.
pub open spec fn is_seed_hex(s: Seq<char>) -> bool {
    digest::unhex(text::trimmed(s)) matches Some(b) && b.len() == 32
}

// ---- errors ----------------------------------------------------------------------------------

/// Errors from signing or verification.
#[derive(Debug)]
pub enum CertError {
    /// A key or signature was not valid lowercase hex of the expected length.
    Malformed {
        /// What was malformed (e.g. "public key").
        what: &'static str,
        /// Expected byte length.
        expected: usize,
    },
    /// The signature did not verify against the certificate content and public key (tampering).
    SignatureMismatch,
    /// The certificate is bound to a different dataset than the one presented (transplant).
    ContentHashMismatch {
        /// The hash the certificate is bound to.
        bound: String,
        /// The presented dataset's hash.
        presented: String,
        /// A trailing clause naming a version difference between the issuing and the verifying
        /// version, when there is one. Empty otherwise. A content hash is only comparable within one
        /// canonical encoding, and that encoding changes between releases.
        version_note: String,
    },
    /// The certificate was signed by a key other than the trusted issuer key provided.
    UntrustedIssuer {
        /// The public key embedded in the certificate.
        found: String,
    },
    /// The key supplied as the trusted issuer is the issuer's *secret* key, not its public one.
    SecretKeyGiven,
    /// The certificate declares a signature algorithm that cannot be verified.
    UnsupportedAlgorithm {
        /// The algorithm named in the certificate.
        found: String,
    },
    /// The certificate declares a schema that is not known.
    UnsupportedSchema {
        /// The schema named in the certificate.
        found: String,
        /// The schema that is known.
        expected: &'static str,
    },
}

impl CertError {
    /// The error as a sentence.
    pub open spec fn spec_message(self) -> Seq<char> {
        match self {
            CertError::Malformed { what, expected } => "malformed "@ + what@ + ": expected "@ + text::dec(expected as nat)
                + " hex bytes"@,
            CertError::SignatureMismatch =>
                "signature mismatch: the certificate was altered or signed by a different key"@,
            CertError::ContentHashMismatch { bound, presented, version_note } =>
                "content-hash mismatch: certificate is bound to "@ + bound@ + ", but the dataset hashes to "@ + presented@
                    + version_note@,
            CertError::UntrustedIssuer { found } => "untrusted issuer: certificate key "@ + found@
                + " does not match the expected issuer key"@,
            CertError::SecretKeyGiven =>
                "the key given to --key is this certificate's issuer secret key, not its public key — pass the `.pub` file `veridex keygen` wrote beside it"@,
            CertError::UnsupportedAlgorithm { found } => "unsupported signature algorithm `"@ + found@
                + "` (expected `ed25519`)"@,
            CertError::UnsupportedSchema { found, expected } => "unsupported certificate schema "@ + found@
                + ": this Veridex issues and verifies "@ + expected@,
        }
    }

    /// The error as a sentence.
    pub fn message(&self) -> (r: String)
        ensures
            r@ == self.spec_message(),
    {
        match self {
            CertError::Malformed { what, expected } => cat5(
                "malformed ",
                what,
                ": expected ",
                dec_usize(*expected).as_str(),
                " hex bytes",
            ),
            CertError::SignatureMismatch => String::from_str(
                "signature mismatch: the certificate was altered or signed by a different key",
            ),
            CertError::ContentHashMismatch { bound, presented, version_note } => cat5(
                "content-hash mismatch: certificate is bound to ",
                bound.as_str(),
                ", but the dataset hashes to ",
                presented.as_str(),
                version_note.as_str(),
            ),
            CertError::UntrustedIssuer { found } => cat3(
                "untrusted issuer: certificate key ",
                found.as_str(),
                " does not match the expected issuer key",
            ),
            CertError::SecretKeyGiven => String::from_str(
                "the key given to --key is this certificate's issuer secret key, not its public key — pass the `.pub` file `veridex keygen` wrote beside it",
            ),
            CertError::UnsupportedAlgorithm { found } => cat3(
                "unsupported signature algorithm `",
                found.as_str(),
                "` (expected `ed25519`)",
            ),
            CertError::UnsupportedSchema { found, expected } => cat4(
                "unsupported certificate schema ",
                found.as_str(),
                ": this Veridex issues and verifies ",
                expected,
            ),
        }
    }
}

// ---- certificates ----------------------------------------------------------------------------

/// The tag that goes before a certificate's bytes when they are signed.
pub const SIGN_DOMAIN: &'static str = "veridex.certificate.sig.v1";

/// A signed certificate: content plus its detached Ed25519 signature and the issuer public key.
#[derive(Debug)]
pub struct SignedCertificate {
    /// The certificate content.
    pub certificate: Certificate,
    /// Signature algorithm (always `ed25519`).
    pub algorithm: String,
    /// Issuer public key, hex-encoded (the key id).
    pub public_key: String,
    /// Ed25519 signature over the canonical certificate bytes, hex-encoded.
    pub signature: String,
}

/// What a successful verification reports.
#[derive(Debug)]
pub struct Verified {
    /// Issuer key id (public key hex).
    pub key_id: String,
    /// Issuance timestamp from the certificate.
    pub timestamp: String,
}

/// The exact bytes signed and verified: a domain tag plus the JSON of the certificate.
pub open spec fn signed_message(c: Certificate) -> Seq<u8> {
    digest::frame(SIGN_DOMAIN@, json::compact(content::certificate_doc(c)))
}

/// The exact bytes signed and verified.
fn signing_message(c: &Certificate) -> (r: Vec<u8>)
    ensures
        r@ == signed_message(*c),
{
    framed(SIGN_DOMAIN, compact_bytes(&content::certificate_json(c)).as_slice())
}

/// Sign a certificate, producing a portable [`SignedCertificate`].
pub fn sign(certificate: Certificate, keypair: &SigningKeypair) -> (r: SignedCertificate)
    requires
        keypair.wf(),
    ensures
        r.certificate == certificate,
        r.algorithm@ == ALGORITHM@,
        r.public_key@ == digest::hex(ed25519_public(keypair.seed())),
        r.signature@ == digest::hex(ed25519_signature(keypair.seed(), signed_message(certificate))),
        ed25519_is_key(ed25519_public(keypair.seed())),
        ed25519_public(keypair.seed()).len() == 32,
        ed25519_signature(keypair.seed(), signed_message(certificate)).len() == 64,
        !has_neutral_point(ed25519_signature(keypair.seed(), signed_message(certificate))) ==> ed25519_accepts(
            ed25519_public(keypair.seed()),
            signed_message(certificate),
            ed25519_signature(keypair.seed(), signed_message(certificate)),
        ),
{
    let message: Vec<u8> = signing_message(&certificate);
    let signature: Vec<u8> = keypair.sign_bytes(message.as_slice());
    SignedCertificate {
        certificate,
        algorithm: String::from_str(ALGORITHM),
        public_key: keypair.public_hex(),
        signature: to_hex(signature.as_slice()),
    }
}

/// A clause naming the version that issued a certificate, where it is another.
pub open spec fn version_note(issued_by: Seq<char>) -> Seq<char> {
    if issued_by == VERSION@ {
        Seq::empty()
    } else {
        " — note this certificate was issued by veridex "@ + issued_by + " and you are verifying with "@ + VERSION@
            + "; the canonical encoding can change between releases, which rehashes byte-identical data, so re-issue the certificate before reading this as tampering"@
    }
}

/// Whether a trusted key is the one that a document is signed with.
pub open spec fn is_issuer(expected: Seq<char>, key: Seq<char>) -> bool {
    text::lowered(expected) == text::lowered(key)
}

/// Whether a text is the secret seed behind a public key.
pub open spec fn is_secret_of(s: Seq<char>, key: Seq<char>) -> bool {
    is_seed_hex(s) && text::lowered(digest::hex(ed25519_public(digest::unhex(text::trimmed(s))->0))) == text::lowered(key)
}

/// Whether a text is some bytes of a given number in hex.
pub open spec fn is_hex_of(s: Seq<char>, n: nat) -> bool {
    digest::unhex(s) matches Some(b) && b.len() == n
}

/// What stands in the way of a key, a signature and a message: nothing, or an error. A key must be
/// 32 bytes in hex that decode, a signature 64 bytes in hex that strictly verify.
pub open spec fn detached_error(message: Seq<u8>, key: Seq<char>, signature: Seq<char>) -> Option<CertError> {
    if !is_hex_of(key, 32) || !ed25519_is_key(digest::unhex(key)->0) {
        Some(CertError::Malformed { what: "public key", expected: 32 })
    } else if !is_hex_of(signature, 64) {
        Some(CertError::Malformed { what: "signature", expected: 64 })
    } else if !ed25519_accepts(digest::unhex(key)->0, message, digest::unhex(signature)->0) {
        Some(CertError::SignatureMismatch)
    } else {
        None
    }
}

/// Checks a signature under a message against a public key.
pub fn verify_detached(message: &[u8], key: &str, signature: &str) -> (r: Result<(), CertError>)
    ensures
        match r {
            Ok(_) => detached_error(message@, key@, signature@) is None,
            Err(e) => detached_error(message@, key@, signature@) == Some(e),
        },
{
    let key_bytes: Vec<u8> = match from_hex(key) {
        Some(b) => b,
        None => {
            return Err(CertError::Malformed { what: "public key", expected: 32 });
        },
    };
    if key_bytes.len() != 32 || !is_key(key_bytes.as_slice()) {
        return Err(CertError::Malformed { what: "public key", expected: 32 });
    }
    let signature_bytes: Vec<u8> = match from_hex(signature) {
        Some(b) => b,
        None => {
            return Err(CertError::Malformed { what: "signature", expected: 64 });
        },
    };
    if signature_bytes.len() != 64 {
        return Err(CertError::Malformed { what: "signature", expected: 64 });
    }
    if !accepts(key_bytes.as_slice(), message, signature_bytes.as_slice()) {
        return Err(CertError::SignatureMismatch);
    }
    Ok(())
}

/// What is wrong with a signed certificate, as a message: nothing, or the first of the faults in the
/// order they are looked for.
pub open spec fn certificate_fault(
    signed: SignedCertificate,
    presented: Option<Seq<char>>,
    expected: Option<Seq<char>>,
) -> Option<Fault> {
    let key = signed.public_key@;
    let message = signed_message(signed.certificate);
    if signed.algorithm@ != ALGORITHM@ {
        Some(Fault::Algorithm)
    } else if signed.certificate.schema@ != CERTIFICATE_SCHEMA_VERSION@ {
        Some(Fault::Schema)
    } else if !digest::is_canonical(signed.signature@) {
        Some(Fault::Other(CertError::Malformed { what: "signature", expected: 64 }))
    } else if !digest::is_canonical(key) {
        Some(Fault::Other(CertError::Malformed { what: "public key", expected: 32 }))
    } else if expected is Some && !is_issuer(expected->0, key) {
        if is_secret_of(expected->0, key) {
            Some(Fault::Other(CertError::SecretKeyGiven))
        } else {
            Some(Fault::Issuer)
        }
    } else if detached_error(message, key, signed.signature@) is Some {
        Some(Fault::Other(detached_error(message, key, signed.signature@)->0))
    } else if presented is Some && presented->0 != signed.certificate.cdm_content_hash@ {
        Some(Fault::Binding(presented->0))
    } else {
        None
    }
}

/// A fault of a signed certificate.
pub enum Fault {
    /// Another signature algorithm.
    Algorithm,
    /// Another schema.
    Schema,
    /// Another issuer than the trusted one.
    Issuer,
    /// Another dataset than the one presented.
    Binding(Seq<char>),
    /// An error that says no more than its kind.
    Other(CertError),
}

/// Whether an error reports a fault.
pub open spec fn reports(e: CertError, signed: SignedCertificate, fault: Fault) -> bool {
    match fault {
        Fault::Algorithm => e matches CertError::UnsupportedAlgorithm { found } && found@ == signed.algorithm@,
        Fault::Schema => e matches CertError::UnsupportedSchema { found, expected } && found@
            == signed.certificate.schema@ && expected@ == CERTIFICATE_SCHEMA_VERSION@,
        Fault::Issuer => e matches CertError::UntrustedIssuer { found } && found@ == signed.public_key@,
        Fault::Binding(given) => e matches CertError::ContentHashMismatch { bound, presented, version_note: note } && bound@
            == signed.certificate.cdm_content_hash@ && presented@ == given && note@ == version_note(
            signed.certificate.veridex_version@,
        ),
        Fault::Other(x) => e == x,
    }
}

/// Whether two texts are equal but for the case of ASCII letters.
fn same_ignoring_case(a: &str, b: &str) -> (r: bool)
    ensures
        r == (text::lowered(a@) == text::lowered(b@)),
{
    same(lower(a).as_str(), lower(b).as_str())
}

/// Whether a text is the secret seed behind a public key.
fn is_secret(s: &str, key: &str) -> (r: bool)
    ensures
        r == is_secret_of(s@, key@),
{
    match SigningKeypair::from_secret_hex(s) {
        Some(k) => same_ignoring_case(k.public_hex().as_str(), key),
        None => false,
    }
}

/// What an optional text is.
pub open spec fn text_of(s: Option<&str>) -> Option<Seq<char>> {
    match s {
        Some(s) => Some(s@),
        None => None,
    }
}

/// Verify a signed certificate offline.
///
/// - `presented_cdm_hash`: if `Some`, the certificate must be bound to this hash (transplant check).
/// - `expected_issuer`: if `Some`, the certificate must be signed by this public key hex.
///
/// The returned [`Verified::key_id`] is the **actual signing key** — the authoritative issuer
/// identity. The certificate's own `issuance.key_id` is a self-asserted label.
pub fn verify(
    signed: &SignedCertificate,
    presented_cdm_hash: Option<&str>,
    expected_issuer: Option<&str>,
) -> (r: Result<Verified, CertError>)
    ensures
        match r {
            Ok(v) => certificate_fault(*signed, text_of(presented_cdm_hash), text_of(expected_issuer)) is None
                && v.key_id@ == signed.public_key@ && v.timestamp@ == signed.certificate.issuance.timestamp@,
            Err(e) => certificate_fault(*signed, text_of(presented_cdm_hash), text_of(expected_issuer)) matches Some(
                fault,
            ) && reports(e, *signed, fault),
        },
{
    if !same(signed.algorithm.as_str(), ALGORITHM) {
        return Err(CertError::UnsupportedAlgorithm { found: signed.algorithm.clone() });
    }
    if !same(signed.certificate.schema.as_str(), CERTIFICATE_SCHEMA_VERSION) {
        return Err(
            CertError::UnsupportedSchema {
                found: signed.certificate.schema.clone(),
                expected: CERTIFICATE_SCHEMA_VERSION,
            },
        );
    }
    if !is_canonical_hex(signed.signature.as_str()) {
        return Err(CertError::Malformed { what: "signature", expected: 64 });
    }
    if !is_canonical_hex(signed.public_key.as_str()) {
        return Err(CertError::Malformed { what: "public key", expected: 32 });
    }
    if let Some(expected) = expected_issuer {
        if !same_ignoring_case(expected, signed.public_key.as_str()) {
            if is_secret(expected, signed.public_key.as_str()) {
                return Err(CertError::SecretKeyGiven);
            }
            return Err(CertError::UntrustedIssuer { found: signed.public_key.clone() });
        }
    }
    let message: Vec<u8> = signing_message(&signed.certificate);
    match verify_detached(message.as_slice(), signed.public_key.as_str(), signed.signature.as_str()) {
        Ok(()) => {},
        Err(e) => {
            return Err(e);
        },
    }
    if let Some(presented) = presented_cdm_hash {
        if !same(presented, signed.certificate.cdm_content_hash.as_str()) {
            let issued_by: &str = signed.certificate.veridex_version.as_str();
            let note: String = if same(issued_by, VERSION) {
                String::new()
            } else {
                cat5(
                    " — note this certificate was issued by veridex ",
                    issued_by,
                    " and you are verifying with ",
                    VERSION,
                    "; the canonical encoding can change between releases, which rehashes byte-identical data, so re-issue the certificate before reading this as tampering",
                )
            };
            return Err(
                CertError::ContentHashMismatch {
                    bound: signed.certificate.cdm_content_hash.clone(),
                    presented: String::from_str(presented),
                    version_note: note,
                },
            );
        }
    }
    Ok(
        Verified {
            key_id: signed.public_key.clone(),
            timestamp: signed.certificate.issuance.timestamp.clone(),
        },
    )
}

// ---- laws ------------------------------------------------------------------------------------

/// Whether a key and a signature are what signing a message with a seed gives.
pub open spec fn is_signed_with(key: Seq<char>, signature: Seq<char>, seed: Seq<u8>, message: Seq<u8>) -> bool {
    &&& key == digest::hex(ed25519_public(seed))
    &&& signature == digest::hex(ed25519_signature(seed, message))
    &&& ed25519_is_key(ed25519_public(seed))
    &&& ed25519_public(seed).len() == 32
    &&& ed25519_signature(seed, message).len() == 64
}

/// A certificate that was signed verifies: for the dataset that it is bound to, and for the issuer
/// whose key signed it. (Ed25519 accepts what it signed unless the signature's point is neutral.)
pub proof fn law_signed_certificate_verifies(signed: SignedCertificate, seed: Seq<u8>)
    requires
        signed.certificate.schema@ == CERTIFICATE_SCHEMA_VERSION@,
        signed.algorithm@ == ALGORITHM@,
        is_signed_with(signed.public_key@, signed.signature@, seed, signed_message(signed.certificate)),
        ed25519_accepts(
            ed25519_public(seed),
            signed_message(signed.certificate),
            ed25519_signature(seed, signed_message(signed.certificate)),
        ),
    ensures
        certificate_fault(signed, None, None) is None,
        certificate_fault(
            signed,
            Some(signed.certificate.cdm_content_hash@),
            Some(digest::hex(ed25519_public(seed))),
        ) is None,
{
    digest::law_hex_reads_back(ed25519_public(seed));
    digest::law_hex_reads_back(ed25519_signature(seed, signed_message(signed.certificate)));
}

/// A certificate presented for other data than it is bound to is refused, whatever else holds of it.
pub proof fn law_transplants_are_refused(
    signed: SignedCertificate,
    presented: Seq<char>,
    expected: Option<Seq<char>>,
)
    requires
        presented != signed.certificate.cdm_content_hash@,
    ensures
        certificate_fault(signed, Some(presented), expected) is Some,
{
}

/// A certificate whose signature does not verify over its content is refused, whatever else holds of
/// it.
pub proof fn law_tampering_is_refused(
    signed: SignedCertificate,
    presented: Option<Seq<char>>,
    expected: Option<Seq<char>>,
)
    requires
        detached_error(signed_message(signed.certificate), signed.public_key@, signed.signature@) is Some,
    ensures
        certificate_fault(signed, presented, expected) is Some,
{
}

/// A certificate that was altered after it was signed is refused as tampering, even where the hash
/// presented is the one it was altered to: the signature still covers the content that was signed, and
/// Ed25519 does not accept it over the altered content.
pub proof fn law_altered_certificates_are_refused(
    original: SignedCertificate,
    altered: SignedCertificate,
    seed: Seq<u8>,
    presented: Option<Seq<char>>,
)
    requires
        is_signed_with(original.public_key@, original.signature@, seed, signed_message(original.certificate)),
        original.algorithm@ == ALGORITHM@,
        altered.algorithm@ == original.algorithm@,
        altered.public_key@ == original.public_key@,
        altered.signature@ == original.signature@,
        altered.certificate.schema@ == CERTIFICATE_SCHEMA_VERSION@,
        !ed25519_accepts(
            ed25519_public(seed),
            signed_message(altered.certificate),
            ed25519_signature(seed, signed_message(original.certificate)),
        ),
    ensures
        certificate_fault(altered, presented, None) == Some(Fault::Other(CertError::SignatureMismatch)),
{
    digest::law_hex_reads_back(ed25519_public(seed));
    digest::law_hex_reads_back(ed25519_signature(seed, signed_message(original.certificate)));
}

/// A certificate signed by another key than the trusted one is refused, whatever else holds of it.
pub proof fn law_other_issuers_are_refused(
    signed: SignedCertificate,
    presented: Option<Seq<char>>,
    expected: Seq<char>,
)
    requires
        !is_issuer(expected, signed.public_key@),
    ensures
        certificate_fault(signed, presented, Some(expected)) is Some,
{
}

} // verus!
