use base64::Engine;
use thclaws_core::json::{Members, Value};
use thclaws_core::policy::error::PolicyError;
use thclaws_core::policy::verify::{canonical_signed_payload, verify_policy, KeySource, PublicKey};
use thclaws_core::policy_tool::{
    fingerprint, fingerprint_text, inspect, key_pair, keygen, keygen_from, keygen_report, overwrite_refusal,
    random_secret_bytes, read_operator_key, secret_outcome, sign, verify, Output, VerifyFailure,
};

fn text(s: &str) -> Value {
    Value::String(s.to_string())
}

fn object(entries: Vec<(&str, Value)>) -> Value {
    let mut members = Members::new();
    for (k, v) in entries {
        members.insert(k.to_string(), v);
    }
    Value::Object(members)
}

fn sample() -> Value {
    object(vec![("version", Value::Number("1".into())), ("issuer", text("acme"))])
}

fn output(shown: &str, exists: bool) -> Output {
    Output { shown: shown.to_string(), exists }
}

/// The secret key of the first test vector of the Ed25519 standard, and its public key.
const SECRET: &str = "nWGxne/9WmC6hEr0kuwsxERJxWl7MmkZcDusAxyuf2A=";
const PUBLIC: &str = "11qYAYKxCrfVS/7TyWQHOg7hcvPapiMlrwIaaPcHURo=";

fn decoded(text: &str) -> [u8; 32] {
    base64::engine::general_purpose::STANDARD.decode(text).unwrap().try_into().unwrap()
}

#[test]
fn a_key_pair_of_the_standard() {
    let pair = key_pair(&decoded(SECRET));
    assert_eq!(pair.private, decoded(SECRET));
    assert_eq!(pair.public, decoded(PUBLIC));
}

#[test]
fn keys_are_not_overwritten_without_force() {
    let outputs = [output("\"a.pub\"", false), output("\"a.key\"", true)];
    let message = "\"a.key\" exists — pass --force to overwrite (be careful with --private)";
    assert_eq!(overwrite_refusal(&outputs, false).as_deref(), Some(message));
    assert_eq!(keygen(&outputs, false).unwrap_err(), message);
    assert_eq!(overwrite_refusal(&outputs, true), None);
    assert!(keygen(&outputs, true).is_ok());
    assert_eq!(overwrite_refusal(&outputs[..1], false), None);
    let both = [output("\"x\"", true), output("\"y\"", true)];
    assert!(overwrite_refusal(&both, false).unwrap().starts_with("\"x\" exists"));
}

#[test]
fn fresh_keys_sign_and_verify() {
    let pair = keygen(&[], false).unwrap();
    assert_eq!(key_pair(&pair.private).public, pair.public);
    let doc = sign(sample(), &pair.private, "k").unwrap();
    assert!(verify(&doc, &pair.public, "/p").is_ok());
    let other = keygen(&[], false).unwrap();
    assert_ne!(other.private, pair.private);
    assert!(verify(&doc, &other.public, "/p").is_err());
}

#[test]
fn the_drawn_bytes_are_the_private_key() {
    let outputs = [output("\"a.key\"", true)];
    let pair = keygen_from(&outputs, true, Ok(decoded(SECRET))).unwrap();
    assert_eq!(pair.private, decoded(SECRET));
    assert_eq!(pair.public, decoded(PUBLIC));
    assert!(keygen_from(&outputs, false, Ok([5; 32])).unwrap_err().starts_with("\"a.key\" exists"));
    assert!(keygen_from(&outputs, false, Err("x".into())).unwrap_err().contains("exists"));
    assert_eq!(keygen_from(&outputs, true, Err("x".into())).unwrap_err(), "x");
}

#[test]
fn random_bytes_come_from_the_system() {
    let a = random_secret_bytes().unwrap();
    let b = random_secret_bytes().unwrap();
    assert_ne!(a, b);
    assert_ne!(a, [0u8; 32]);
}

#[test]
fn when_there_are_no_random_bytes() {
    assert_eq!(secret_outcome(Err("no device".into())), Err("OS RNG failed: no device".into()));
    assert_eq!(secret_outcome(Ok([5; 32])), Ok([5; 32]));
}

#[test]
fn what_is_said_of_new_keys() {
    assert_eq!(
        keygen_report("a.pub", "a.key"),
        "✓ public key  → a.pub\n✓ private key → a.key (chmod 600 on Unix)\n\nNext steps:\n  • For an enterprise build, set THCLAWS_POLICY_PUBKEY_PATH=a.pub at build time\n  • Keep a.key OFFLINE. A leaked private key invalidates every signed policy.\n"
    );
}

#[test]
fn a_signed_document_verifies_under_the_matching_key() {
    let secret = decoded(SECRET);
    let doc = sign(sample(), &secret, "k").unwrap();
    let key = PublicKey::from_bytes(&decoded(PUBLIC)).unwrap();
    let bytes = verify_policy(&doc, &KeySource::Embedded(key), "/p").unwrap();
    assert_eq!(bytes, br#"{"issuer":"acme","version":1}"#);
}

#[test]
fn a_signature_is_replaced() {
    let secret = decoded(SECRET);
    let once = sign(sample(), &secret, "k").unwrap();
    let first = once.get_str("signature").unwrap().to_string();
    let payload = canonical_signed_payload(&once);
    let twice = sign(once, &secret, "k").unwrap();
    assert_eq!(twice.get_str("signature"), Some(first.as_str()));
    assert_eq!(canonical_signed_payload(&twice), payload);
    assert_eq!(payload, canonical_signed_payload(&sample()));
}

#[test]
fn signatures_are_those_of_the_signing_crate() {
    let secret = decoded(SECRET);
    let doc = sign(sample(), &secret, "k").unwrap();
    let signing = ed25519_dalek::SigningKey::from_bytes(&secret);
    let expected = ed25519_dalek::Signer::sign(&signing, br#"{"issuer":"acme","version":1}"#);
    assert_eq!(
        doc.get_str("signature").unwrap(),
        base64::engine::general_purpose::STANDARD.encode(expected.to_bytes())
    );
}

#[test]
fn what_is_no_object_cannot_be_signed() {
    for doc in [Value::Array(vec![Value::Null]), Value::Null, text("x")] {
        assert_eq!(
            sign(doc, &[1; 32], "k").unwrap_err(),
            "policy is not a JSON object, so it cannot hold a signature"
        );
    }
    assert!(sign(Value::Null, &[1; 31], "k").unwrap_err().starts_with("private key at k"));
}

#[test]
fn the_signature_comes_last() {
    let doc = object(vec![("signature", text("old")), ("b", text("1")), ("a", text("2"))]);
    let signed = sign(doc, &[1; 32], "k").unwrap();
    let keys: Vec<&str> = match &signed {
        Value::Object(m) => m.entries().iter().map(|e| e.0.as_str()).collect(),
        _ => panic!("no object"),
    };
    assert_eq!(keys, ["b", "a", "signature"]);
}

#[test]
fn private_keys_are_thirty_two_bytes() {
    assert_eq!(
        sign(sample(), &[0; 31], "\"a.key\"").unwrap_err(),
        "private key at \"a.key\" is 31 bytes; expected 32 raw Ed25519 bytes"
    );
    assert!(sign(sample(), &[], "k").is_err());
}

#[test]
fn public_keys_of_the_operator() {
    let raw = decoded(PUBLIC);
    assert_eq!(read_operator_key(&raw).unwrap().to_bytes(), raw);
    assert_eq!(read_operator_key(PUBLIC.as_bytes()).unwrap().to_bytes(), raw);
    let pem = format!("-----BEGIN PUBLIC KEY-----\n{PUBLIC}\n-----END PUBLIC KEY-----\n");
    assert_eq!(read_operator_key(pem.as_bytes()).unwrap().to_bytes(), raw);
    assert_eq!(
        read_operator_key(&[0xff]).unwrap_err(),
        "public key is neither 32 raw bytes nor UTF-8 text"
    );
    assert_eq!(
        read_operator_key(b"QUJD").unwrap_err(),
        "public key decoded to 3 bytes; expected 32"
    );
    let mut off_curve = [0u8; 32];
    off_curve[0] = 2;
    assert_eq!(
        read_operator_key(&off_curve).unwrap_err(),
        "invalid pubkey: signature error: Cannot decompress Edwards point"
    );
    assert!(read_operator_key(b"?").unwrap_err().starts_with("base64 decode failed: "));
}

#[test]
fn verifying_tells_keys_from_documents() {
    let doc = sign(sample(), &decoded(SECRET), "k").unwrap();
    assert!(verify(&doc, PUBLIC.as_bytes(), "/p").is_ok());
    assert!(matches!(verify(&doc, &[0xff], "/p"), Err(VerifyFailure::Key(_))));
    assert!(matches!(
        verify(&sample(), PUBLIC.as_bytes(), "/p"),
        Err(VerifyFailure::Policy(PolicyError::MissingSignature { .. }))
    ));
}

#[test]
fn what_is_said_of_a_policy() {
    let doc = object(vec![
        ("version", Value::Number("1".into())),
        ("issuer", text("acme")),
        ("issued_at", text("2026-01-01")),
        ("expires_at", text("2027-01-01")),
        (
            "binding",
            object(vec![("org_id", text("org-1")), ("binary_fingerprint", text("sha256:00"))]),
        ),
        (
            "policies",
            object(vec![
                ("plugins", object(vec![("enabled", Value::Bool(true))])),
                ("branding", object(vec![("enabled", text("yes"))])),
                ("audit", Value::Null),
            ]),
        ),
        ("signature", Value::Null),
    ]);
    assert_eq!(
        inspect("p.json", &doc),
        "policy: p.json\n  version:    1\n  issuer:     acme\n  issued_at:  2026-01-01\n  expires_at: 2027-01-01\n  binding:\n    org_id:             org-1\n    binary_fingerprint: sha256:00\n  policies:\n    plugins: enabled=true\n    branding: enabled=false\n    audit: enabled=false\n  signed:     true\n"
    );
}

#[test]
fn what_is_said_of_an_odd_policy() {
    let doc = object(vec![
        ("version", Value::Number("1".into())),
        ("issuer", Value::Number("7".into())),
        (
            "policies",
            object(vec![
                ("a", object(vec![("enabled", text("yes"))])),
                ("b", Value::Number("5".into())),
            ]),
        ),
        ("signature", Value::Null),
    ]);
    assert_eq!(
        inspect("p.json", &doc),
        "policy: p.json\n  version:    1\n  policies:\n    a: enabled=false\n    b: enabled=false\n  signed:     true\n"
    );
    let odd = object(vec![("version", object(vec![("b", text("x\n")), ("a", Value::Null)]))]);
    assert_eq!(
        inspect("p", &odd),
        "policy: p\n  version:    {\"a\":null,\"b\":\"x\\n\"}\n  signed:     false\n"
    );
}

#[test]
fn what_is_said_of_an_empty_policy() {
    assert_eq!(inspect("p", &object(vec![])), "policy: p\n  signed:     false\n");
    assert_eq!(inspect("p", &Value::Null), "policy: p\n  signed:     false\n");
    let odd = object(vec![("binding", Value::Null), ("policies", Value::Array(vec![]))]);
    assert_eq!(inspect("p", &odd), "policy: p\n  binding:\n  signed:     false\n");
}

#[test]
fn fingerprints() {
    assert_eq!(
        fingerprint(b"abc"),
        "sha256:ba7816bf8f01cfea414140de5dae2223b00361a396177a9cb410ff61f20015ad"
    );
    assert_eq!(
        fingerprint(b""),
        "sha256:e3b0c44298fc1c149afbf4c8996fb92427ae41e4649b934ca495991b7852b855"
    );
    assert_eq!(fingerprint_text(&[0x00, 0x0f, 0xa0, 0xff]), "sha256:000fa0ff");
}
