//! Base64, Ed25519, SHA-256 and the operating system's random numbers, from the
//! crates that implement them.
//!
//! Nothing here is proved: each function states what its crate promises of the
//! call that it makes. What takes more than a few lines to state has a name
//! instead, and two calls on the same input give the same named result.

use base64::Engine;
use ed25519_dalek::{Signature, Signer, SigningKey, Verifier, VerifyingKey};
use sha2::{Digest, Sha256};
use vstd::prelude::*;

verus! {

/// The bytes that a base64 text stands for, in the standard alphabet and with
/// canonical padding, or the message that says why it stands for none.
pub uninterp spec fn base64_decoding(text: Seq<char>) -> Result<Seq<u8>, Seq<char>>;

/// The base64 text of some bytes, in the standard alphabet and with padding.
pub uninterp spec fn base64_encoding(bytes: Seq<u8>) -> Seq<char>;

/// Thirty-two bytes are the compressed form of a point on the curve, and so a public key.
pub uninterp spec fn ed25519_decodes(key: Seq<u8>) -> bool;

/// A signature over a message is good under a public key.
pub uninterp spec fn ed25519_verifies(key: Seq<u8>, message: Seq<u8>, signature: Seq<u8>) -> bool;

/// The public key that belongs to a secret key.
pub uninterp spec fn ed25519_public(secret: Seq<u8>) -> Seq<u8>;

/// The signature over a message with a secret key.
pub uninterp spec fn ed25519_signature(secret: Seq<u8>, message: Seq<u8>) -> Seq<u8>;

/// The SHA-256 digest of some bytes.
pub uninterp spec fn sha256(bytes: Seq<u8>) -> Seq<u8>;

/// What a decoding holds: the bytes, or the text of the message.
pub open spec fn decoded_view(decoded: Result<Vec<u8>, String>) -> Result<Seq<u8>, Seq<char>> {
    match decoded {
        Ok(bytes) => Ok(bytes@),
        Err(message) => Err(message@),
    }
}

/// A base64 text stands for these bytes.
pub open spec fn decodes_to(text: Seq<char>, bytes: Seq<u8>) -> bool {
    base64_decoding(text) matches Ok(decoded) && decoded == bytes
}

/// `base64`'s `STANDARD.decode`: the bytes of the text, or the error's message.
#[verifier::external_body]
pub(crate) fn base64_decode(text: &str) -> (decoded: Result<Vec<u8>, String>)
    ensures
        decoded_view(decoded) == base64_decoding(text@),
{
    base64::engine::general_purpose::STANDARD.decode(text).map_err(|e| e.to_string())
}

/// `base64`'s `STANDARD.encode`: the text of the bytes, which decodes to the same bytes.
#[verifier::external_body]
pub(crate) fn base64_encode(bytes: &[u8; 64]) -> (text: String)
    ensures
        text@ == base64_encoding(bytes@),
        decodes_to(text@, bytes@),
{
    base64::engine::general_purpose::STANDARD.encode(bytes)
}

/// `ed25519_dalek`'s `VerifyingKey::from_bytes`: it fails exactly where the bytes
/// are no compressed point, always with the same message.
#[verifier::external_body]
pub(crate) fn ed25519_check_key(key: &[u8; 32]) -> (checked: Result<(), String>)
    ensures
        checked is Ok == ed25519_decodes(key@),
        checked matches Err(message) ==> message@
            == "signature error: Cannot decompress Edwards point"@,
{
    VerifyingKey::from_bytes(key).map(|_| ()).map_err(|e| e.to_string())
}

/// `ed25519_dalek`'s `Signature::from_slice`: it takes exactly sixty-four bytes, as
/// they are, and fails on any other length, always with the same message.
#[verifier::external_body]
pub(crate) fn ed25519_signature_bytes(bytes: &[u8]) -> (parsed: Result<[u8; 64], String>)
    ensures
        parsed is Ok == (bytes@.len() == 64),
        parsed matches Ok(signature) ==> signature@ == bytes@,
        parsed matches Err(message) ==> message@ == "signature error"@,
{
    Signature::from_slice(bytes).map(|s| s.to_bytes()).map_err(|e| e.to_string())
}

/// `ed25519_dalek`'s `VerifyingKey::verify`: whether the signature is good. Bytes
/// that are no public key verify nothing.
#[verifier::external_body]
pub(crate) fn ed25519_verify(key: &[u8; 32], message: &[u8], signature: &[u8; 64]) -> (good: bool)
    ensures
        good == ed25519_verifies(key@, message@, signature@),
{
    match VerifyingKey::from_bytes(key) {
        Ok(k) => k.verify(message, &Signature::from_bytes(signature)).is_ok(),
        Err(_) => false,
    }
}

/// `ed25519_dalek`'s `SigningKey::verifying_key`: the public key of a secret key, which decodes.
#[verifier::external_body]
pub(crate) fn ed25519_public_key(secret: &[u8; 32]) -> (key: [u8; 32])
    ensures
        key@ == ed25519_public(secret@),
        ed25519_decodes(key@),
{
    SigningKey::from_bytes(secret).verifying_key().to_bytes()
}

/// `ed25519_dalek`'s `SigningKey::sign`: the signature over the message, which is
/// good under the public key of the same secret key.
#[verifier::external_body]
pub(crate) fn ed25519_sign(secret: &[u8; 32], message: &[u8]) -> (signature: [u8; 64])
    ensures
        signature@ == ed25519_signature(secret@, message@),
        ed25519_verifies(ed25519_public(secret@), message@, signature@),
{
    SigningKey::from_bytes(secret).sign(message).to_bytes()
}

/// `sha2`'s `Sha256::digest`: the digest of the bytes.
#[verifier::external_body]
pub(crate) fn sha256_digest(bytes: &[u8]) -> (digest: [u8; 32])
    ensures
        digest@ == sha256(bytes@),
{
    Sha256::digest(bytes).into()
}

/// `getrandom`'s `getrandom`: thirty-two bytes from the operating system, or the
/// message that says why there are none. Nothing is said of which bytes come.
#[verifier::external_body]
pub(crate) fn os_random_bytes() -> (filled: Result<[u8; 32], String>) {
    let mut bytes = [0u8; 32];
    match getrandom::getrandom(&mut bytes) {
        Ok(()) => Ok(bytes),
        Err(e) => Err(e.to_string()),
    }
}

} // verus!
