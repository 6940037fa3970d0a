//! The trust certificate: deterministic scoring, a content-bound document, and Ed25519 signing.
//!
//! - [`score::score`] and [`coverage::ProvenanceCoverage`] compute the trust score.
//! - [`document::Certificate`] is the portable, content-bound statement.
//! - [`signing::sign`] and [`signing::verify`] provide Ed25519 signing and offline verification with
//!   tamper and transplant rejection.

pub mod attestation;
pub mod content;
pub mod coverage;
pub mod document;
pub mod label;
pub mod render;
pub mod score;
pub mod signing;
