use base64::Engine;
use ed25519_dalek::{Signer, SigningKey};
use thclaws_core::canonical::write_canonical;
use thclaws_core::json::{Members, Value};
use thclaws_core::policy::error::PolicyError;
use thclaws_core::policy::verify::{
    canonical_signed_payload, conclude, decode_text_pubkey, decoding_outcome, parse_pubkey,
    pubkey_base64, pubkey_search_paths, read_pubkey_bytes, sized_key_bytes, strip_signature,
    verify_decoded,
    verify_policy, FileRead, KeyFile, KeySource, PublicKey,
};

/// The document that a JSON text holds.
fn json(text: &str) -> Value {
    let parsed: serde_json::Value = serde_json::from_str(text).unwrap();
    value(&parsed)
}

fn value(v: &serde_json::Value) -> Value {
    match v {
        serde_json::Value::Null => Value::Null,
        serde_json::Value::Bool(b) => Value::Bool(*b),
        serde_json::Value::Number(n) => Value::Number(n.to_string()),
        serde_json::Value::String(s) => Value::String(s.clone()),
        serde_json::Value::Array(a) => Value::Array(a.iter().map(value).collect()),
        serde_json::Value::Object(m) => {
            let mut members = Members::new();
            for (k, v) in m {
                members.insert(k.clone(), value(v));
            }
            Value::Object(members)
        }
    }
}

/// An object with these members, in this order.
fn object(entries: Vec<(&str, Value)>) -> Value {
    let mut members = Members::new();
    for (k, v) in entries {
        members.insert(k.to_string(), v);
    }
    Value::Object(members)
}

fn text(s: &str) -> Value {
    Value::String(s.to_string())
}

fn number(s: &str) -> Value {
    Value::Number(s.to_string())
}

fn canonical(v: &Value) -> String {
    let mut out = Vec::new();
    write_canonical(v, &mut out);
    String::from_utf8(out).unwrap()
}

fn fresh_keypair() -> (SigningKey, PublicKey) {
    let mut secret = [0u8; 32];
    getrandom::getrandom(&mut secret).expect("OS RNG");
    let signing = SigningKey::from_bytes(&secret);
    let verifying = PublicKey::from_bytes(&signing.verifying_key().to_bytes()).unwrap();
    (signing, verifying)
}

fn signed_doc(signing: &SigningKey, payload: Value) -> Value {
    let canonical = {
        let mut buf = Vec::new();
        write_canonical(&payload, &mut buf);
        buf
    };
    let sig = signing.sign(&canonical);
    let sig_b64 = base64::engine::general_purpose::STANDARD.encode(sig.to_bytes());
    let mut doc = payload;
    if let Value::Object(map) = &mut doc {
        map.insert("signature".to_string(), Value::String(sig_b64));
    }
    doc
}

#[test]
fn canonical_payload_sorts_keys_recursively() {
    let v = json(r#"{"b": 1, "a": {"y": 2, "x": [3, 4]}}"#);
    assert_eq!(canonical(&v), r#"{"a":{"x":[3,4],"y":2},"b":1}"#);
    let unsorted = object(vec![
        ("b", number("1")),
        (
            "a",
            object(vec![
                ("y", number("2")),
                ("x", Value::Array(vec![number("3"), number("4")])),
            ]),
        ),
    ]);
    assert_eq!(canonical(&unsorted), r#"{"a":{"x":[3,4],"y":2},"b":1}"#);
}

#[test]
fn canonical_payload_strips_signature_field() {
    let v = json(r#"{"a": 1, "signature": "should-not-affect-canonical"}"#);
    let canonical = canonical_signed_payload(&v);
    assert_eq!(String::from_utf8(canonical).unwrap(), r#"{"a":1}"#);
}

#[test]
fn round_trip_signature_verifies() {
    let (signing, verifying) = fresh_keypair();
    let doc = signed_doc(&signing, json(r#"{"version": 1, "issuer": "test"}"#));
    let result = verify_policy(&doc, &KeySource::Embedded(verifying), "/tmp/test.json");
    assert!(result.is_ok(), "expected verify ok, got {:?}", result.err());
}

#[test]
fn tampered_payload_fails_verification() {
    let (signing, verifying) = fresh_keypair();
    let mut doc = signed_doc(&signing, json(r#"{"version": 1, "issuer": "test"}"#));
    if let Value::Object(map) = &mut doc {
        map.insert("issuer".to_string(), Value::String("attacker".into()));
    }
    let result = verify_policy(&doc, &KeySource::Embedded(verifying), "/tmp/test.json");
    assert!(matches!(result, Err(PolicyError::SignatureMismatch { .. })));
}

#[test]
fn missing_signature_field_errors_explicitly() {
    let (_, verifying) = fresh_keypair();
    let doc = json(r#"{"version": 1, "issuer": "test"}"#);
    let result = verify_policy(&doc, &KeySource::Embedded(verifying), "/tmp/test.json");
    assert!(matches!(result, Err(PolicyError::MissingSignature { .. })));
}

#[test]
fn malformed_signature_field_errors_explicitly() {
    let (_, verifying) = fresh_keypair();
    let doc = json(r#"{"version": 1, "signature": "!!!not-base64!!!"}"#);
    let result = verify_policy(&doc, &KeySource::Embedded(verifying), "/tmp/test.json");
    assert!(matches!(
        result,
        Err(PolicyError::MalformedSignature { .. })
    ));
}

#[test]
fn no_key_source_with_present_signature_fails_closed() {
    let (signing, _) = fresh_keypair();
    let doc = signed_doc(&signing, json(r#"{"version": 1}"#));
    let result = verify_policy(&doc, &KeySource::Absent, "/tmp/test.json");
    assert!(matches!(result, Err(PolicyError::NoVerificationKey { .. })));
}

#[test]
fn cross_keypair_signature_does_not_verify() {
    let (signing_a, _) = fresh_keypair();
    let (_, verifying_b) = fresh_keypair();
    let doc = signed_doc(&signing_a, json(r#"{"version": 1, "issuer": "a"}"#));
    let result = verify_policy(&doc, &KeySource::Embedded(verifying_b), "/tmp/test.json");
    assert!(matches!(result, Err(PolicyError::SignatureMismatch { .. })));
}

#[test]
fn canonical_form_normalizes_key_order_for_signing() {
    let (signing, verifying) = fresh_keypair();
    let payload_a = object(vec![
        ("version", number("1")),
        ("issuer", text("test")),
        ("policies", object(vec![])),
    ]);
    let signed = signed_doc(&signing, payload_a);
    let signature = match signed.get("signature") {
        Some(Value::String(s)) => s.clone(),
        _ => panic!("no signature"),
    };
    let reordered = object(vec![
        ("signature", text(&signature)),
        ("policies", object(vec![])),
        ("issuer", text("test")),
        ("version", number("1")),
    ]);
    let s = format!(
        r#"{{"signature":"{signature}","version":1,"policies":{{}},"issuer":"test"}}"#
    );
    let reparsed = json(&s);
    for doc in [reordered, reparsed] {
        let result = verify_policy(&doc, &KeySource::Embedded(verifying), "/tmp/test.json");
        assert!(
            result.is_ok(),
            "round-trip verify failed: {:?}",
            result.err()
        );
    }
}

#[test]
fn read_pubkey_bytes_accepts_raw_32_bytes() {
    let raw = [7u8; 32];
    let out = read_pubkey_bytes(&raw).expect("raw bytes accepted");
    assert_eq!(out, raw.to_vec());
}

#[test]
fn read_pubkey_bytes_accepts_base64_text() {
    let raw = [9u8; 32];
    let b64 = base64::engine::general_purpose::STANDARD.encode(raw);
    let out = read_pubkey_bytes(b64.as_bytes()).expect("base64 accepted");
    assert_eq!(out, raw.to_vec());
}

#[test]
fn read_pubkey_bytes_accepts_pem_wrapped_text() {
    let raw = [11u8; 32];
    let b64 = base64::engine::general_purpose::STANDARD.encode(raw);
    let pem = format!("-----BEGIN PUBLIC KEY-----\n{b64}\n-----END PUBLIC KEY-----\n");
    let out = read_pubkey_bytes(pem.as_bytes()).expect("pem accepted");
    assert_eq!(out, raw.to_vec());
}

#[test]
fn read_pubkey_bytes_rejects_garbage() {
    let bytes = b"not a key, also not 32 bytes long";
    assert!(read_pubkey_bytes(bytes).is_err());
}

#[test]
fn key_source_file_label_includes_path() {
    let (_, verifying) = fresh_keypair();
    let src = KeySource::File(verifying, "/tmp/test.pub".to_string());
    assert!(src.label().contains("/tmp/test.pub"));
    assert!(src.label().starts_with("file ("));
}

#[test]
fn key_source_file_acts_as_valid_verification_source() {
    let (signing, verifying) = fresh_keypair();
    let doc = signed_doc(&signing, json(r#"{"version": 1, "issuer": "test"}"#));
    let src = KeySource::File(verifying, "/tmp/whatever.pub".to_string());
    assert!(verify_policy(&doc, &src, "/tmp/test.json").is_ok());
    assert!(verify_policy(&doc, &KeySource::Env(verifying), "/tmp/test.json").is_ok());
}

#[test]
fn canonical_values() {
    let cases = [
        ("null", "null"),
        ("true", "true"),
        (" false ", "false"),
        ("[]", "[]"),
        ("{}", "{}"),
        ("[1, -2.5, 1e30, [null]]", "[1,-2.5,1e+30,[null]]"),
        (r#"{"Z":1,"a":2,"A":3,"é":4,"":5}"#, r#"{"":5,"A":3,"Z":1,"a":2,"é":4}"#),
        (r#""a b""#, r#""a b""#),
    ];
    for (from, to) in cases {
        assert_eq!(canonical(&json(from)), to);
    }
}

#[test]
fn canonical_strings() {
    let raw = "\"\\/\n\r\t\u{8}\u{c}\u{0}\u{1}\u{1f}\u{7f}é😀";
    assert_eq!(
        canonical(&text(raw)),
        "\"\\\"\\\\/\\n\\r\\t\\b\\f\\u0000\\u0001\\u001f\u{7f}é😀\""
    );
    let reread: String = serde_json::from_str(&canonical(&text(raw))).unwrap();
    assert_eq!(reread, raw);
}

#[test]
fn canonical_text_reads_back() {
    for text in [
        r#"{"b":[1,-2,{"x":null}],"a":{"\u0000\n\"\\":"é \t","":[]},"z":true}"#,
        "[]",
        "{}",
        "\" a b \"",
        "18446744073709551615",
    ] {
        let parsed: serde_json::Value = serde_json::from_str(text).unwrap();
        let written = canonical(&value(&parsed));
        let reread: serde_json::Value = serde_json::from_str(&written).unwrap();
        assert_eq!(reread, parsed);
        assert_eq!(written, parsed.to_string());
    }
}

#[test]
fn keys_are_sorted_by_their_bytes() {
    let doc = object(vec![
        ("\u{ffff}", number("1")),
        ("\u{10000}", number("2")),
        ("ab", number("3")),
        ("a", number("4")),
    ]);
    assert_eq!(canonical(&doc), "{\"a\":4,\"ab\":3,\"\u{ffff}\":1,\"\u{10000}\":2}");
}

#[test]
fn only_the_outer_signature_is_left_out() {
    let doc = json(r#"{"signature":"s","inner":{"signature":"t"},"list":[{"signature":"u"}]}"#);
    let payload = String::from_utf8(canonical_signed_payload(&doc)).unwrap();
    assert_eq!(payload, r#"{"inner":{"signature":"t"},"list":[{"signature":"u"}]}"#);
    let stripped = strip_signature(doc);
    assert!(stripped.get("signature").is_none());
    assert_eq!(canonical(&stripped), payload);
    assert_eq!(canonical_signed_payload(&json("[1]")), b"[1]");
}

#[test]
fn documents_that_differ_are_signed_differently() {
    let texts = [
        r#"{"a":1}"#,
        r#"{"a":"1"}"#,
        r#"{"a":[1]}"#,
        r#"{"a":1,"b":null}"#,
        r#"{"a":{"b":null}}"#,
        r#"{"a,b":1}"#,
        r#"{"a\":1,\"b":1}"#,
        r#"["a",1]"#,
    ];
    for (i, a) in texts.iter().enumerate() {
        for (j, b) in texts.iter().enumerate() {
            let same = canonical_signed_payload(&json(a)) == canonical_signed_payload(&json(b));
            assert_eq!(same, i == j);
        }
    }
}

#[test]
fn the_signed_bytes_are_given_back() {
    let (signing, verifying) = fresh_keypair();
    let doc = signed_doc(&signing, json(r#"{"version": 1, "issuer": "test"}"#));
    let bytes = verify_policy(&doc, &KeySource::Embedded(verifying), "/p").unwrap();
    assert_eq!(bytes, br#"{"issuer":"test","version":1}"#);
}

#[test]
fn errors_name_the_path_and_the_issuer() {
    let (signing, _) = fresh_keypair();
    let (_, other) = fresh_keypair();
    let source = KeySource::Embedded(other);
    let doc = signed_doc(&signing, json(r#"{"issuer":"acme"}"#));
    assert_eq!(
        verify_policy(&doc, &source, "/p"),
        Err(PolicyError::SignatureMismatch { path: "/p".into(), issuer: "acme".into() })
    );
    let doc = signed_doc(&signing, json(r#"{"issuer":7}"#));
    assert_eq!(
        verify_policy(&doc, &source, "/p"),
        Err(PolicyError::SignatureMismatch { path: "/p".into(), issuer: "(no issuer)".into() })
    );
    assert_eq!(
        verify_policy(&json(r#"{"signature":1}"#), &source, "/p"),
        Err(PolicyError::MissingSignature { path: "/p".into() })
    );
    assert_eq!(
        verify_policy(&json("[]"), &source, "/p"),
        Err(PolicyError::MissingSignature { path: "/p".into() })
    );
    assert_eq!(
        verify_policy(&json(r#"{"signature":"AAAA"}"#), &source, "/p"),
        Err(PolicyError::MalformedSignature {
            path: "/p".into(),
            message: "not a valid Ed25519 signature: signature error".into()
        })
    );
    let reason = base64::engine::general_purpose::STANDARD.decode("!").unwrap_err().to_string();
    assert_eq!(
        verify_policy(&json(r#"{"signature":"!"}"#), &source, "/p"),
        Err(PolicyError::MalformedSignature {
            path: "/p".into(),
            message: format!("base64 decode failed: {reason}")
        })
    );
}

#[test]
fn the_signature_is_looked_at_before_the_key() {
    let doc = json(r#"{"signature":"AAAA"}"#);
    let result = verify_policy(&doc, &KeySource::Absent, "/p");
    assert!(matches!(result, Err(PolicyError::MalformedSignature { .. })));
}

#[test]
fn what_follows_the_decoding_and_the_check() {
    let doc = json(r#"{"issuer":"acme"}"#);
    assert_eq!(
        verify_decoded(&doc, &KeySource::Absent, "/p", Err("bad".into())),
        Err(PolicyError::MalformedSignature {
            path: "/p".into(),
            message: "base64 decode failed: bad".into()
        })
    );
    assert_eq!(
        verify_decoded(&doc, &KeySource::Absent, "/p", Ok(vec![0; 64])),
        Err(PolicyError::NoVerificationKey { path: "/p".into() })
    );
    assert_eq!(conclude(&doc, "/p", vec![1, 2], true), Ok(vec![1, 2]));
    assert_eq!(
        conclude(&doc, "/p", vec![1, 2], false),
        Err(PolicyError::SignatureMismatch { path: "/p".into(), issuer: "acme".into() })
    );
    assert_eq!(decoding_outcome(Ok(vec![3])), Ok(vec![3]));
    assert_eq!(decoding_outcome(Err("bad".into())), Err("base64 decode failed: bad".into()));
}

#[test]
fn keys_that_are_none() {
    assert_eq!(
        parse_pubkey(&[0u8; 31]).unwrap_err(),
        "expected 32-byte raw Ed25519 public key, got 31 bytes"
    );
    let mut off_curve = [0u8; 32];
    off_curve[0] = 2;
    assert_eq!(
        parse_pubkey(&off_curve).unwrap_err(),
        "invalid Ed25519 key: signature error: Cannot decompress Edwards point"
    );
    let (_, good) = fresh_keypair();
    assert_eq!(parse_pubkey(&good.to_bytes()).unwrap().to_bytes(), good.to_bytes());
}

#[test]
fn text_forms_of_keys() {
    assert_eq!(pubkey_base64("  QU\nJD\r\n RA== \n"), "QUJDRA==");
    assert_eq!(pubkey_base64("QU\tJD"), "QU\tJD");
    let pem = "-----BEGIN PUBLIC KEY-----\r\nQUJD\r\nRA==\r\n-----END PUBLIC KEY-----\r\n";
    assert_eq!(pubkey_base64(pem), "QUJDRA==");
    assert_eq!(pubkey_base64("-----BEGIN X-----\n QU\n-----\nJD"), " QUJD");
    assert_eq!(pubkey_base64("-----BEGIN"), "");
    assert_eq!(pubkey_base64("-----NOTHING"), "-----NOTHING");
    assert_eq!(decode_text_pubkey("QUJDRA=="), Ok(b"ABCD".to_vec()));
    assert_eq!(decode_text_pubkey(pem), Ok(b"ABCD".to_vec()));
    let reason = base64::engine::general_purpose::STANDARD.decode("QUJDRA").unwrap_err();
    assert_eq!(decode_text_pubkey("QUJDRA"), Err(format!("base64 decode failed: {reason}")));
}

#[test]
fn text_in_a_key_file_is_read_as_text_elsewhere() {
    let b64 = base64::engine::general_purpose::STANDARD.encode([9u8; 32]);
    let (a, b) = b64.split_at(20);
    for form in [
        b64.clone(),
        format!(" {a}\n{b}\n"),
        format!("-----BEGIN K-----\n{a}\n{b}\n-----END K-----"),
        "?".to_string(),
    ] {
        assert_eq!(read_pubkey_bytes(form.as_bytes()), decode_text_pubkey(&form));
    }
}

#[test]
fn key_files_hold_thirty_two_bytes() {
    let short = "expected 32-byte raw Ed25519 public key, got 4 bytes";
    assert_eq!(read_pubkey_bytes(b"QUJDRA=="), Err(short.into()));
    assert_eq!(sized_key_bytes(Ok(vec![0; 4])), Err(short.into()));
    assert_eq!(sized_key_bytes(Ok(vec![1; 32])), Ok(vec![1; 32]));
    assert_eq!(sized_key_bytes(Err("bad".into())), Err("bad".into()));
    let text = b"QUJDQUJDQUJDQUJDQUJDQUJDQUJDQUJD";
    assert_eq!(read_pubkey_bytes(text), Ok(text.to_vec()));
}

#[test]
fn key_files_that_are_no_text() {
    assert_eq!(
        read_pubkey_bytes(&[0xff, 0xfe]).unwrap_err(),
        "2 bytes and not valid UTF-8 — expected 32 raw bytes or base64/PEM text"
    );
    assert_eq!(read_pubkey_bytes(&[0xff; 32]), Ok(vec![0xff; 32]));
}

fn encoded(key: &PublicKey) -> String {
    base64::engine::general_purpose::STANDARD.encode(key.to_bytes())
}

fn key_file(path: &str, found: FileRead) -> KeyFile {
    KeyFile { path: path.to_string(), shown: format!("{path:?}"), found }
}

#[test]
fn an_embedded_key_comes_first() {
    let (_, a) = fresh_keypair();
    let (_, b) = fresh_keypair();
    let files = [key_file("/k", FileRead::Contents(b.to_bytes().to_vec()))];
    let source = KeySource::resolve(&encoded(&a), Some(&encoded(&b)), &files).unwrap();
    assert_eq!(source.label(), "embedded (compile-time)");
    assert_eq!(source.key().unwrap().to_bytes(), a.to_bytes());
    assert_eq!(
        KeySource::resolve("QUJD", Some(&encoded(&b)), &files).unwrap_err(),
        PolicyError::InvalidEnvKey {
            message: "embedded pubkey: expected 32-byte raw Ed25519 public key, got 3 bytes".into()
        }
    );
    let reason = base64::engine::general_purpose::STANDARD.decode("?").unwrap_err();
    assert_eq!(
        KeySource::resolve("?", None, &[]).unwrap_err(),
        PolicyError::InvalidEnvKey {
            message: format!("embedded pubkey base64 decode failed: {reason}")
        }
    );
}

#[test]
fn the_environment_comes_before_the_files() {
    let (_, a) = fresh_keypair();
    let (_, b) = fresh_keypair();
    let files = [key_file("/k", FileRead::Contents(b.to_bytes().to_vec()))];
    let source = KeySource::resolve("", Some(&encoded(&a)), &files).unwrap();
    assert_eq!(source.label(), "env (THCLAWS_POLICY_PUBLIC_KEY)");
    assert_eq!(source.key().unwrap().to_bytes(), a.to_bytes());
    for blank in [None, Some(""), Some(" \n\t")] {
        let source = KeySource::resolve("", blank, &files).unwrap();
        assert_eq!(source.label(), "file (/k)");
        assert_eq!(source.key().unwrap().to_bytes(), b.to_bytes());
    }
    assert_eq!(
        KeySource::resolve("", Some("QUJD"), &files).unwrap_err(),
        PolicyError::InvalidEnvKey {
            message: "expected 32-byte raw Ed25519 public key, got 3 bytes".into()
        }
    );
}

#[test]
fn the_first_key_file_that_is_there_is_used() {
    let (_, a) = fresh_keypair();
    let (_, b) = fresh_keypair();
    let there = |k: &PublicKey| FileRead::Contents(encoded(k).into_bytes());
    let files = [
        key_file("/etc/k", FileRead::Missing),
        key_file("/home/k", there(&a)),
        key_file("/other/k", there(&b)),
    ];
    let source = KeySource::resolve("", None, &files).unwrap();
    assert_eq!(source.label(), "file (/home/k)");
    assert_eq!(source.key().unwrap().to_bytes(), a.to_bytes());

    let broken = [key_file("/etc/k", FileRead::Unreadable("denied".into())), files[1].clone()];
    assert_eq!(
        KeySource::resolve("", None, &broken).unwrap_err(),
        PolicyError::InvalidEnvKey { message: "read \"/etc/k\": denied".into() }
    );
    let short = [key_file("/etc/k", FileRead::Contents(b"QUJD".to_vec()))];
    assert_eq!(
        KeySource::resolve("", None, &short).unwrap_err(),
        PolicyError::InvalidEnvKey {
            message: "\"/etc/k\": expected 32-byte raw Ed25519 public key, got 3 bytes".into()
        }
    );
    let binary = [key_file("/etc/k", FileRead::Contents(vec![0xff]))];
    assert_eq!(
        KeySource::resolve("", None, &binary).unwrap_err(),
        PolicyError::InvalidEnvKey {
            message: "\"/etc/k\": 1 bytes and not valid UTF-8 — expected 32 raw bytes or base64/PEM text".into()
        }
    );
    let none = KeySource::resolve("", None, &files[..1]).unwrap();
    assert_eq!(none.label(), "none");
    assert!(none.key().is_none());
}

#[test]
fn where_key_files_stand() {
    assert_eq!(pubkey_search_paths(None), ["/etc/thclaws/policy.pub"]);
    assert_eq!(
        pubkey_search_paths(Some("/home/ada")),
        ["/etc/thclaws/policy.pub", "/home/ada/.config/thclaws/policy.pub"]
    );
}

#[test]
fn members_keep_their_order_and_their_keys_once() {
    let mut m = Members::new();
    m.insert("b".into(), number("1"));
    m.insert("a".into(), number("2"));
    m.insert("b".into(), number("3"));
    let keys: Vec<&str> = m.entries().iter().map(|e| e.0.as_str()).collect();
    assert_eq!(keys, ["b", "a"]);
    assert!(matches!(m.get("b"), Some(Value::Number(n)) if n == "3"));
    m.remove("b");
    m.remove("missing");
    assert!(m.get("b").is_none());
    assert_eq!(m.entries().len(), 1);
}

#[test]
fn members_of_values() {
    let doc = json(r#"{"s":"x","b":true,"n":1}"#);
    assert_eq!(doc.get_str("s"), Some("x"));
    assert_eq!(doc.get_str("n"), None);
    assert_eq!(doc.get_bool("b"), Some(true));
    assert_eq!(doc.get_bool("s"), None);
    assert!(doc.get("missing").is_none());
    assert!(json("[1]").get("s").is_none());
}
