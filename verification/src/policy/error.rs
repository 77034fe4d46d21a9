//! What can go wrong when a policy is verified.

use vstd::prelude::*;

verus! {

/// Why a policy, or the key to verify it with, is refused.
#[derive(Debug, Clone, PartialEq, Eq)]
pub enum PolicyError {
    /// A configured public key cannot be used.
    InvalidEnvKey { message: String },
    /// The document has no signature.
    MissingSignature { path: String },
    /// The document's signature is not one.
    MalformedSignature { path: String, message: String },
    /// There is no key to verify the document with.
    NoVerificationKey { path: String },
    /// The signature is not good under the key.
    SignatureMismatch { path: String, issuer: String },
}

/// What a [`PolicyError`] says.
pub enum Refusal {
    InvalidEnvKey { message: Seq<char> },
    MissingSignature { path: Seq<char> },
    MalformedSignature { path: Seq<char>, message: Seq<char> },
    NoVerificationKey { path: Seq<char> },
    SignatureMismatch { path: Seq<char>, issuer: Seq<char> },
}

impl View for PolicyError {
    type V = Refusal;

    open spec fn view(&self) -> Refusal {
        match self {
            PolicyError::InvalidEnvKey { message } => Refusal::InvalidEnvKey { message: message@ },
            PolicyError::MissingSignature { path } => Refusal::MissingSignature { path: path@ },
            PolicyError::MalformedSignature { path, message } => Refusal::MalformedSignature {
                path: path@,
                message: message@,
            },
            PolicyError::NoVerificationKey { path } => Refusal::NoVerificationKey { path: path@ },
            PolicyError::SignatureMismatch { path, issuer } => Refusal::SignatureMismatch {
                path: path@,
                issuer: issuer@,
            },
        }
    }
}

} // verus!
