//! What the operator's tool does with policy files: making keys, signing,
//! verifying, inspecting and fingerprinting.
//!
//! This is the only place that signs.

use vstd::prelude::*;
use vstd::utf8;

use crate::canonical;
use crate::canonical::write_canonical;
use crate::crypto;
use crate::crypto::{
    base64_encode, ed25519_public_key, ed25519_sign, os_random_bytes, sha256_digest,
};
use crate::json;
use crate::json::{Doc, Value};
use crate::policy::error::{PolicyError, Refusal};
use crate::policy::verify;
use crate::policy::verify::{
    canonical_signed_payload, decode_text_pubkey, strip_signature, to_array, utf8_text,
    verify_policy, KeySource, PublicKey,
};
use crate::text;
use crate::text::{hex_char, push_decimal};

verus! {

// ---------------------------------------------------------------------------
// Making keys

/// A file that is about to be written.
#[derive(Debug, Clone)]
pub struct Output {
    /// The path as error messages show it.
    pub shown: String,
    /// Something stands there already.
    pub exists: bool,
}

/// A public key and the private key that it belongs to, as raw bytes.
#[derive(Debug, Clone)]
pub struct KeyPair {
    pub public: [u8; 32],
    pub private: [u8; 32],
}

/// Why keys are not written: without `force`, the first output that exists.
pub open spec fn overwriting(outputs: Seq<Output>, force: bool) -> Option<Seq<char>>
    decreases outputs.len(),
{
    if force || outputs.len() == 0 {
        None
    } else if outputs[0].exists {
        Some(
            outputs[0].shown@
                + " exists — pass --force to overwrite (be careful with --private)"@,
        )
    } else {
        overwriting(outputs.skip(1), force)
    }
}

/// Why keys are not written to `outputs`, if they are not.
pub fn overwrite_refusal(outputs: &[Output], force: bool) -> (refusal: Option<String>)
    ensures
        match refusal {
            Some(message) => overwriting(outputs@, force) == Some(message@),
            None => overwriting(outputs@, force) is None,
        },
{
    if force {
        return None;
    }
    assert(outputs@.skip(0) =~= outputs@);
    for i in 0..outputs.len()
        invariant
            !force,
            overwriting(outputs@, force) == overwriting(outputs@.skip(i as int), force),
    {
        assert(outputs@.skip(i as int)[0] == outputs@[i as int]);
        assert(outputs@.skip(i as int).skip(1) =~= outputs@.skip(i + 1));
        if outputs[i].exists {
            let mut message = outputs[i].shown.clone();
            message.append(" exists — pass --force to overwrite (be careful with --private)");
            return Some(message);
        }
    }
    None
}

/// What comes of asking the system for random bytes.
pub fn secret_outcome(filled: Result<[u8; 32], String>) -> (secret: Result<[u8; 32], String>)
    ensures
        match filled {
            Ok(bytes) => secret == Ok::<[u8; 32], String>(bytes),
            Err(e) => secret matches Err(message) && message@ == "OS RNG failed: "@ + e@,
        },
{
    match filled {
        Ok(bytes) => Ok(bytes),
        Err(e) => {
            let mut message = String::new();
            message.append("OS RNG failed: ");
            message.append(e.as_str());
            assert(message@ =~= "OS RNG failed: "@ + e@);
            Err(message)
        },
    }
}

/// Fresh secret bytes from the operating system.
pub fn random_secret_bytes() -> (secret: Result<[u8; 32], String>)
    ensures
        secret matches Err(message) ==> text::occurs_at(message@, "OS RNG failed: "@, 0),
{
    let filled = os_random_bytes();
    let ghost drawn = filled;
    let secret = secret_outcome(filled);
    proof {
        if let Err(e) = drawn {
            assert(("OS RNG failed: "@ + e@).subrange(0, "OS RNG failed: "@.len() as int)
                =~= "OS RNG failed: "@);
        }
    }
    secret
}

/// The keys of a pair belong together, and the public key can be used as a key file.
pub open spec fn matching(pair: KeyPair) -> bool {
    &&& pair.public@ == crypto::ed25519_public(pair.private@)
    &&& operator_key(pair.public@) == Ok::<Seq<u8>, Seq<char>>(pair.public@)
}

/// The key pair of a secret key.
pub fn key_pair(secret: &[u8; 32]) -> (pair: KeyPair)
    ensures
        pair.private@ == secret@,
        matching(pair),
{
    KeyPair { public: ed25519_public_key(secret), private: *secret }
}

/// The key pair of the secret bytes that were drawn, to be written to `outputs`,
/// unless one of them exists and `force` is not given or none could be drawn.
pub fn keygen_from(outputs: &[Output], force: bool, drawn: Result<[u8; 32], String>) -> (pair:
    Result<KeyPair, String>)
    ensures
        match overwriting(outputs@, force) {
            Some(message) => pair matches Err(e) && e@ == message,
            None => match drawn {
                Ok(secret) => pair matches Ok(p) && p.private@ == secret@ && matching(p),
                Err(reason) => pair matches Err(e) && e@ == reason@,
            },
        },
{
    if let Some(refusal) = overwrite_refusal(outputs, force) {
        return Err(refusal);
    }
    match drawn {
        Ok(secret) => Ok(key_pair(&secret)),
        Err(e) => Err(e),
    }
}

/// A fresh key pair to be written to `outputs`, unless one of them exists and
/// `force` is not given.
pub fn keygen(outputs: &[Output], force: bool) -> (pair: Result<KeyPair, String>)
    ensures
        overwriting(outputs@, force) matches Some(message) ==> pair matches Err(e) && e@ == message,
        overwriting(outputs@, force) is None ==> match pair {
            Ok(p) => matching(p),
            Err(e) => text::occurs_at(e@, "OS RNG failed: "@, 0),
        },
{
    keygen_from(outputs, force, random_secret_bytes())
}

/// What the operator is told once keys were written.
pub open spec fn keygen_lines(public: Seq<char>, private: Seq<char>) -> Seq<char> {
    "✓ public key  → "@ + public + "\n✓ private key → "@ + private
        + " (chmod 600 on Unix)\n\nNext steps:\n  • For an enterprise build, set THCLAWS_POLICY_PUBKEY_PATH="@
        + public + " at build time\n  • Keep "@ + private
        + " OFFLINE. A leaked private key invalidates every signed policy.\n"@
}

/// What the operator is told once keys were written to these paths.
pub fn keygen_report(public: &str, private: &str) -> (report: String)
    ensures
        report@ == keygen_lines(public@, private@),
{
    let mut report = String::new();
    report.append("✓ public key  → ");
    report.append(public);
    report.append("\n✓ private key → ");
    report.append(private);
    report.append(
        " (chmod 600 on Unix)\n\nNext steps:\n  • For an enterprise build, set THCLAWS_POLICY_PUBKEY_PATH=",
    );
    report.append(public);
    report.append(" at build time\n  • Keep ");
    report.append(private);
    report.append(" OFFLINE. A leaked private key invalidates every signed policy.\n");
    assert(report@ =~= keygen_lines(public@, private@));
    report
}

// ---------------------------------------------------------------------------
// Signing

/// The signature over a document, as it stands in its `signature` member.
pub open spec fn signature_over(doc: Doc, secret: Seq<u8>) -> Seq<char> {
    crypto::base64_encoding(crypto::ed25519_signature(secret, verify::payload(doc)))
}

/// `v` is `doc` with the signature over it in its `signature` member, in place of
/// any that it has and after the other members. It verifies under the public key
/// that belongs to the secret key.
pub open spec fn signed_with(doc: Value, secret: Seq<u8>, v: Value) -> bool {
    &&& doc@ matches Doc::Object(m) && v@ == Doc::Object(
        m.insert("signature"@, Doc::String(signature_over(doc@, secret))),
    )
    &&& appended(doc, v)
    &&& forall|path: Seq<char>| #[trigger]
        verify::verification(v@, Some(crypto::ed25519_public(secret)), path) == Ok::<
            Seq<u8>,
            Refusal,
        >(verify::payload(doc@))
}

/// The members of `v` are those of `doc` without its `signature`, in their order,
/// and then a `signature`.
pub open spec fn appended(doc: Value, v: Value) -> bool {
    &&& doc is Object
    &&& v is Object
    &&& ({
        let after = json::members_list(v->Object_0);
        &&& after.len() > 0
        &&& after.last().0@ == "signature"@
        &&& after.drop_last() == json::without_entry(
            json::members_list(doc->Object_0),
            "signature"@,
        )
    })
}

/// Why a document cannot be signed with a private key file, if it cannot.
pub open spec fn sign_refusal(doc: Doc, key: Seq<u8>, shown: Seq<char>) -> Option<Seq<char>> {
    if key.len() != 32 {
        Some(
            "private key at "@ + shown + " is "@ + text::decimal(key.len())
                + " bytes; expected 32 raw Ed25519 bytes"@,
        )
    } else if doc is Object {
        None
    } else {
        Some("policy is not a JSON object, so it cannot hold a signature"@)
    }
}

/// Signs a document with the private key in `key_bytes`, in place of any
/// signature that it has. What comes out verifies under the public key that
/// belongs to the private key. What is no object is refused: it has no place for
/// a signature. `key_shown` labels the error.
pub fn sign(doc: Value, key_bytes: &[u8], key_shown: &str) -> (result: Result<Value, String>)
    ensures
        match sign_refusal(doc@, key_bytes@, key_shown@) {
            Some(message) => result matches Err(e) && e@ == message,
            None => result matches Ok(v) && signed_with(doc, key_bytes@, v),
        },
{
    if key_bytes.len() != 32 {
        let mut message = String::new();
        message.append("private key at ");
        message.append(key_shown);
        message.append(" is ");
        push_decimal(&mut message, key_bytes.len());
        message.append(" bytes; expected 32 raw Ed25519 bytes");
        assert(message@ =~= sign_refusal(doc@, key_bytes@, key_shown@)->0);
        return Err(message);
    }
    let secret = to_array(key_bytes);
    let ghost given = doc;
    let ghost before = doc@;
    let stripped = strip_signature(doc);
    let canonical = canonical_signed_payload(&stripped);
    proof {
        law_unsigned_twice(before);
    }
    let signature = ed25519_sign(&secret, canonical.as_slice());
    let encoded = base64_encode(&signature);
    let ghost text = encoded@;
    match stripped {
        Value::Object(mut members) => {
            let ghost rest = json::members_list(members);
            proof {
                json::lemma_not_there(members, "signature"@);
            }
            members.insert("signature".to_string(), Value::String(encoded));
            let v = Value::Object(members);
            proof {
                let m = before->Object_0;
                let key = "signature"@;
                assert(m.remove(key).insert(key, Doc::String(text)) =~= m.insert(
                    key,
                    Doc::String(text),
                ));
                law_signature_is_not_signed(before, Doc::String(text));
                assert(json::members_list(members).drop_last() =~= rest);
                assert forall|path: Seq<char>| #[trigger]
                    verify::verification(v@, Some(crypto::ed25519_public(key_bytes@)), path)
                        == Ok::<Seq<u8>, Refusal>(verify::payload(before)) by {
                    assert(signature@.len() == 64);
                }
                assert(signed_with(given, key_bytes@, v));
            }
            Ok(v)
        },
        _ => Err("policy is not a JSON object, so it cannot hold a signature".to_string()),
    }
}

/// A document's signature is no part of what is signed.
pub proof fn law_signature_is_not_signed(doc: Doc, signature: Doc)
    ensures
        doc matches Doc::Object(m) ==> verify::payload(
            Doc::Object(m.insert("signature"@, signature)),
        ) == verify::payload(doc),
{
    if let Doc::Object(m) = doc {
        assert(m.insert("signature"@, signature).remove("signature"@) =~= m.remove("signature"@));
    }
}

/// What is signed of a document is what is signed of it once its signature was taken out.
pub proof fn law_unsigned_twice(doc: Doc)
    ensures
        verify::payload(verify::unsigned(doc)) == verify::payload(doc),
{
    if let Doc::Object(m) = doc {
        assert(m.remove("signature"@).remove("signature"@) =~= m.remove("signature"@));
    }
}

// ---------------------------------------------------------------------------
// Verifying

/// Why a policy file does not verify.
#[derive(Debug)]
pub enum VerifyFailure {
    /// The public key file cannot be used.
    Key(String),
    /// The document is refused.
    Policy(PolicyError),
}

/// The public key that a key file holds, or why it holds none.
pub open spec fn operator_key(raw: Seq<u8>) -> Result<Seq<u8>, Seq<char>> {
    let decoded: Result<Seq<u8>, Seq<char>> = if raw.len() == 32 {
        Ok(raw)
    } else if utf8::valid_utf8(raw) {
        verify::text_key_outcome(utf8::decode_utf8(raw))
    } else {
        Err("public key is neither 32 raw bytes nor UTF-8 text"@)
    };
    match decoded {
        Err(e) => Err(e),
        Ok(bytes) => if bytes.len() != 32 {
            Err("public key decoded to "@ + text::decimal(bytes.len()) + " bytes; expected 32"@)
        } else if crypto::ed25519_decodes(bytes) {
            Ok(bytes)
        } else {
            Err("invalid pubkey: "@ + "signature error: Cannot decompress Edwards point"@)
        },
    }
}

/// The public key that a key file holds: thirty-two raw bytes, base64 text or PEM.
pub fn read_operator_key(raw: &[u8]) -> (key: Result<PublicKey, String>)
    ensures
        verify::key_view(key) == operator_key(raw@),
{
    let mut bytes: Vec<u8> = Vec::new();
    if raw.len() == 32 {
        bytes.extend_from_slice(raw);
        assert(bytes@ =~= raw@);
    } else {
        match utf8_text(raw) {
            Some(text) => match decode_text_pubkey(text) {
                Ok(decoded) => {
                    bytes = decoded;
                },
                Err(e) => {
                    return Err(e);
                },
            },
            None => {
                return Err("public key is neither 32 raw bytes nor UTF-8 text".to_string());
            },
        }
    }
    if bytes.len() != 32 {
        let mut message = String::new();
        message.append("public key decoded to ");
        push_decimal(&mut message, bytes.len());
        message.append(" bytes; expected 32");
        assert(message@ =~= "public key decoded to "@ + text::decimal(bytes@.len())
            + " bytes; expected 32"@);
        return Err(message);
    }
    match PublicKey::from_bytes(&to_array(bytes.as_slice())) {
        Ok(key) => Ok(key),
        Err(e) => {
            let mut message = String::new();
            message.append("invalid pubkey: ");
            message.append(e.as_str());
            assert(message@ =~= "invalid pubkey: "@ + e@);
            Err(message)
        },
    }
}

/// Why a document does not verify against a key file: the key, or the document.
pub enum Failure {
    Key(Seq<char>),
    Policy(Refusal),
}

/// Why a document does not verify against the public key in a key file, if it does not.
pub open spec fn verify_failure(doc: Doc, key_file: Seq<u8>, path: Seq<char>) -> Option<Failure> {
    match operator_key(key_file) {
        Err(message) => Some(Failure::Key(message)),
        Ok(key) => match verify::verification(doc, Some(key), path) {
            Ok(_) => None,
            Err(refusal) => Some(Failure::Policy(refusal)),
        },
    }
}

impl View for VerifyFailure {
    type V = Failure;

    open spec fn view(&self) -> Failure {
        match self {
            VerifyFailure::Key(message) => Failure::Key(message@),
            VerifyFailure::Policy(e) => Failure::Policy(e@),
        }
    }
}

/// Verifies a signed document against the public key in `key_file`.
pub fn verify(doc: &Value, key_file: &[u8], path: &str) -> (verified: Result<(), VerifyFailure>)
    ensures
        match verify_failure(doc@, key_file@, path@) {
            None => verified is Ok,
            Some(failure) => verified matches Err(e) && e@ == failure,
        },
{
    let key = match read_operator_key(key_file) {
        Ok(key) => key,
        Err(e) => {
            return Err(VerifyFailure::Key(e));
        },
    };
    match verify_policy(doc, &KeySource::Embedded(key), path) {
        Ok(_) => Ok(()),
        Err(e) => Err(VerifyFailure::Policy(e)),
    }
}

/// What is signed with the private key of a pair verifies against its public key
/// as a key file, whatever the document is called.
pub proof fn law_a_pair_verifies_what_it_signs(
    pair: KeyPair,
    doc: Value,
    v: Value,
    path: Seq<char>,
)
    requires
        matching(pair),
        signed_with(doc, pair.private@, v),
    ensures
        verify_failure(v@, pair.public@, path) is None,
{
    assert(verify::verification(v@, Some(crypto::ed25519_public(pair.private@)), path) is Ok);
}

// ---------------------------------------------------------------------------
// Inspecting

/// A labelled line, where there is something to say.
pub open spec fn labelled(label: Seq<char>, value: Option<Seq<char>>) -> Seq<char> {
    match value {
        Some(v) => label + v + "\n"@,
        None => Seq::empty(),
    }
}

/// Appends a labelled line to `report`, where there is something to say.
fn push_labelled(report: &mut String, label: &str, value: Option<&str>)
    ensures
        final(report)@ == old(report)@ + labelled(label@, text::option_view(value)),
{
    let ghost before = report@;
    if let Some(v) = value {
        report.append(label);
        report.append(v);
        report.append("\n");
    }
    assert(report@ =~= before + labelled(label@, text::option_view(value)));
}

/// A truth value in words.
pub open spec fn truth(b: bool) -> Seq<char> {
    if b {
        "true"@
    } else {
        "false"@
    }
}

fn truth_text(b: bool) -> (s: &'static str)
    ensures
        s@ == truth(b),
{
    if b {
        "true"
    } else {
        "false"
    }
}

/// What is said of what a policy is bound to.
pub open spec fn binding_lines(binding: Option<Doc>) -> Seq<char> {
    match binding {
        Some(b) => "  binding:\n"@ + labelled(
            "    org_id:             "@,
            json::string_of(json::member(b, "org_id"@)),
        ) + labelled(
            "    binary_fingerprint: "@,
            json::string_of(json::member(b, "binary_fingerprint"@)),
        ),
        None => Seq::empty(),
    }
}

/// One line for each block of rules, in document order.
pub open spec fn block_lines(blocks: Seq<(String, Value)>) -> Seq<char>
    decreases blocks.len(),
{
    if blocks.len() == 0 {
        Seq::empty()
    } else {
        let enabled = json::bool_of(json::member(blocks.last().1@, "enabled"@)) == Some(true);
        block_lines(blocks.drop_last()) + "    "@ + blocks.last().0@ + ": enabled="@ + truth(
            enabled,
        ) + "\n"@
    }
}

/// What is said of the blocks of rules.
pub open spec fn policies_lines(policies: Option<Value>) -> Seq<char> {
    match policies {
        Some(Value::Object(m)) => "  policies:\n"@ + block_lines(json::members_list(m)),
        _ => Seq::empty(),
    }
}

/// The JSON of a member, where there is one.
pub open spec fn member_json(member: Option<Doc>) -> Option<Seq<char>> {
    match member {
        Some(d) => Some(canonical::canonical(d)),
        None => None,
    }
}

/// What is said of a policy document.
pub open spec fn inspection(path: Seq<char>, doc: Value) -> Seq<char> {
    "policy: "@ + path + "\n"@ + labelled(
        "  version:    "@,
        member_json(json::member(doc@, "version"@)),
    ) + labelled(
        "  issuer:     "@,
        json::string_of(json::member(doc@, "issuer"@)),
    ) + labelled("  issued_at:  "@, json::string_of(json::member(doc@, "issued_at"@))) + labelled(
        "  expires_at: "@,
        json::string_of(json::member(doc@, "expires_at"@)),
    ) + binding_lines(json::member(doc@, "binding"@)) + policies_lines(
        json::value_member(doc, "policies"@),
    ) + "  signed:     "@ + truth(json::member(doc@, "signature"@) is Some) + "\n"@
}

/// Appends what is said of what a policy is bound to.
fn push_binding(report: &mut String, doc: &Value)
    ensures
        final(report)@ == old(report)@ + binding_lines(json::member(doc@, "binding"@)),
{
    let ghost before = report@;
    if let Some(b) = doc.get("binding") {
        report.append("  binding:\n");
        push_labelled(report, "    org_id:             ", b.get_str("org_id"));
        push_labelled(report, "    binary_fingerprint: ", b.get_str("binary_fingerprint"));
    }
    assert(report@ =~= before + binding_lines(json::member(doc@, "binding"@)));
}

/// Appends what is said of the blocks of rules.
fn push_policies(report: &mut String, doc: &Value)
    ensures
        final(report)@ == old(report)@ + policies_lines(json::value_member(*doc, "policies"@)),
{
    let ghost before = report@;
    if let Some(Value::Object(members)) = doc.get("policies") {
        report.append("  policies:\n");
        let blocks = members.entries();
        let ghost start = report@;
        assert(blocks@.take(0) =~= Seq::<(String, Value)>::empty());
        assert(report@ =~= start + block_lines(blocks@.take(0)));
        for i in 0..blocks.len()
            invariant
                report@ == start + block_lines(blocks@.take(i as int)),
        {
            let enabled = match blocks[i].1.get_bool("enabled") {
                Some(b) => b,
                None => false,
            };
            report.append("    ");
            report.append(blocks[i].0.as_str());
            report.append(": enabled=");
            report.append(truth_text(enabled));
            report.append("\n");
            assert(blocks@.take(i + 1).drop_last() =~= blocks@.take(i as int));
            assert(report@ =~= start + block_lines(blocks@.take(i + 1)));
        }
        assert(blocks@.take(blocks@.len() as int) =~= blocks@);
    }
    assert(report@ =~= before + policies_lines(json::value_member(*doc, "policies"@)));
}

/// Appends what is said of the version of a policy.
fn push_version(report: &mut String, doc: &Value)
    ensures
        final(report)@ == old(report)@ + labelled(
            "  version:    "@,
            member_json(json::member(doc@, "version"@)),
        ),
{
    let ghost before = report@;
    if let Some(v) = doc.get("version") {
        let mut bytes: Vec<u8> = Vec::new();
        write_canonical(v, &mut bytes);
        let ghost json = canonical::canonical(v@);
        proof {
            assert(bytes@ =~= utf8::encode_utf8(json));
            utf8::encode_utf8_valid_utf8(json);
            utf8::encode_utf8_decode_utf8(json);
        }
        if let Some(shown) = utf8_text(bytes.as_slice()) {
            push_labelled(report, "  version:    ", Some(shown));
        }
    }
    assert(report@ =~= before + labelled(
        "  version:    "@,
        member_json(json::member(doc@, "version"@)),
    ));
}

/// What is said of a policy document, to be read before it is signed.
pub fn inspect(path: &str, doc: &Value) -> (report: String)
    ensures
        report@ == inspection(path@, *doc),
{
    let mut report = String::new();
    report.append("policy: ");
    report.append(path);
    report.append("\n");
    push_version(&mut report, doc);
    push_labelled(&mut report, "  issuer:     ", doc.get_str("issuer"));
    push_labelled(&mut report, "  issued_at:  ", doc.get_str("issued_at"));
    push_labelled(&mut report, "  expires_at: ", doc.get_str("expires_at"));
    push_binding(&mut report, doc);
    push_policies(&mut report, doc);
    report.append("  signed:     ");
    report.append(truth_text(doc.get("signature").is_some()));
    report.append("\n");
    assert(report@ =~= inspection(path@, *doc));
    report
}

// ---------------------------------------------------------------------------
// Fingerprints

/// Bytes in hexadecimal, in small letters.
pub open spec fn hex(bytes: Seq<u8>) -> Seq<char>
    decreases bytes.len(),
{
    if bytes.len() == 0 {
        Seq::empty()
    } else {
        hex(bytes.drop_last()) + seq![
            text::hex_digit(bytes.last() as int / 16),
            text::hex_digit(bytes.last() as int % 16),
        ]
    }
}

/// A digest as a fingerprint: `sha256:` and its bytes in hexadecimal.
pub fn fingerprint_text(digest: &[u8]) -> (fingerprint: String)
    ensures
        fingerprint@ == "sha256:"@ + hex(digest@),
{
    let mut fingerprint = String::new();
    fingerprint.append("sha256:");
    assert(fingerprint@ =~= "sha256:"@ + hex(digest@.take(0)));
    for i in 0..digest.len()
        invariant
            fingerprint@ == "sha256:"@ + hex(digest@.take(i as int)),
    {
        let b: u8 = digest[i];
        fingerprint.push(hex_char(b / 16));
        fingerprint.push(hex_char(b % 16));
        assert(digest@.take(i + 1).drop_last() =~= digest@.take(i as int));
        assert(fingerprint@ =~= "sha256:"@ + hex(digest@.take(i + 1)));
    }
    assert(digest@.take(digest@.len() as int) =~= digest@);
    fingerprint
}

/// The SHA-256 fingerprint of a binary.
pub fn fingerprint(binary: &[u8]) -> (fingerprint: String)
    ensures
        fingerprint@ == "sha256:"@ + hex(crypto::sha256(binary@)),
{
    let digest = sha256_digest(binary);
    fingerprint_text(digest.as_slice())
}

} // verus!
