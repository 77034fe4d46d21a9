//! Laws of signing and verifying.

use vstd::prelude::*;
use vstd::utf8;

use crate::canonical;
use crate::crypto;
use crate::json;
use crate::json::{Doc, Members, Value};
use crate::laws;
use crate::policy::error::{PolicyError, Refusal};
use crate::policy::verify;
use crate::policy_tool;
use crate::policy_tool::{Failure, KeyPair, VerifyFailure};
use crate::reading;
use crate::text;

verus! {

/// What is signed of an object is the canonical text of all of it but its
/// `signature`, and of anything else all of it.
pub proof fn law_all_but_the_signature_is_signed(m: Map<Seq<char>, Doc>, doc: Doc)
    ensures
        verify::payload(Doc::Object(m)) == utf8::encode_utf8(
            canonical::canonical(Doc::Object(m.remove("signature"@))),
        ),
        !(doc is Object) ==> verify::payload(doc) == utf8::encode_utf8(canonical::canonical(doc)),
{
}

/// The signed bytes tell every member but `signature`: two objects with the same
/// signed bytes have the same value, or none, at every other key.
pub proof fn law_every_other_member_is_signed(
    a: Map<Seq<char>, Doc>,
    b: Map<Seq<char>, Doc>,
    k: Seq<char>,
)
    requires
        reading::plain(Doc::Object(a)),
        reading::plain(Doc::Object(b)),
        verify::payload(Doc::Object(a)) == verify::payload(Doc::Object(b)),
        k != "signature"@,
    ensures
        a.dom().contains(k) == b.dom().contains(k),
        a.dom().contains(k) ==> a[k] == b[k],
{
    let key = "signature"@;
    let x = a.remove(key);
    let y = b.remove(key);
    verify::law_signed_bytes_tell_the_document(Doc::Object(a), Doc::Object(b));
    assert(x == y);
    assert(x.dom().contains(k) == a.dom().contains(k));
    assert(y.dom().contains(k) == b.dom().contains(k));
    if a.dom().contains(k) {
        assert(x[k] == a[k]);
        assert(y[k] == b[k]);
    }
}

/// Setting a member other than `signature` to another value, adding one or taking one
/// out changes what is signed.
pub proof fn law_no_change_goes_unsigned(
    m: Map<Seq<char>, Doc>,
    k: Seq<char>,
    value: Doc,
)
    requires
        reading::plain(Doc::Object(m)),
        reading::plain(value),
        k != "signature"@,
    ensures
        !m.dom().contains(k) || m[k] != value ==> verify::payload(Doc::Object(m.insert(k, value)))
            != verify::payload(Doc::Object(m)),
        m.dom().contains(k) ==> verify::payload(Doc::Object(m.remove(k))) != verify::payload(
            Doc::Object(m),
        ),
{
    let set = m.insert(k, value);
    let gone = m.remove(k);
    assert(reading::plain(Doc::Object(set))) by {
        assert forall|j: Seq<char>| set.dom().contains(j) implies reading::plain(
            #[trigger] set[j],
        ) by {
            if j != k {
                assert(m.dom().contains(j));
                assert(reading::plain(m[j]));
            }
        }
    }
    assert(reading::plain(Doc::Object(gone))) by {
        assert forall|j: Seq<char>| gone.dom().contains(j) implies reading::plain(
            #[trigger] gone[j],
        ) by {
            assert(m.dom().contains(j));
            assert(reading::plain(m[j]));
        }
    }
    if verify::payload(Doc::Object(set)) == verify::payload(Doc::Object(m)) {
        law_every_other_member_is_signed(set, m, k);
    }
    if m.dom().contains(k) && verify::payload(Doc::Object(gone)) == verify::payload(
        Doc::Object(m),
    ) {
        law_every_other_member_is_signed(gone, m, k);
    }
}

/// A value is signed in full: two values of a member that differ, at whatever depth, are
/// signed differently.
pub proof fn law_values_are_signed_in_full(k: Seq<char>, a: Doc, b: Doc)
    requires
        reading::plain(a),
        reading::plain(b),
        k != "signature"@,
        a != b,
    ensures
        verify::payload(Doc::Object(Map::empty().insert(k, a))) != verify::payload(
            Doc::Object(Map::empty().insert(k, b)),
        ),
{
    let x = Map::<Seq<char>, Doc>::empty().insert(k, a);
    let y = Map::<Seq<char>, Doc>::empty().insert(k, b);
    assert(reading::plain(Doc::Object(x)));
    assert(reading::plain(Doc::Object(y)));
    if verify::payload(Doc::Object(x)) == verify::payload(Doc::Object(y)) {
        law_every_other_member_is_signed(x, y, k);
    }
}

/// The `signature` of an object makes no difference to what is signed.
pub proof fn law_the_signature_makes_no_difference(m: Map<Seq<char>, Doc>, signature: Doc)
    ensures
        verify::payload(Doc::Object(m.insert("signature"@, signature))) == verify::payload(
            Doc::Object(m),
        ),
        verify::payload(Doc::Object(m.remove("signature"@))) == verify::payload(Doc::Object(m)),
{
    let key = "signature"@;
    assert(m.insert(key, signature).remove(key) =~= m.remove(key));
    assert(m.remove(key).remove(key) =~= m.remove(key));
}

/// Stripping leaves every member but `signature`, in its place, and leaves what is no
/// object as it is.
pub proof fn law_stripping_leaves_the_rest(m: Members, v: Value, stripped: Value)
    ensures
        verify::strips(Value::Object(m), stripped) && (forall|i: int, j: int|
            0 <= i < j < json::members_list(m).len() ==> (#[trigger] json::members_list(m)[i]).0@
                != (#[trigger] json::members_list(m)[j]).0@) ==> (stripped matches Value::Object(r)
            && json::members_list(r) == json::members_list(m).filter(
            |e: (String, Value)| e.0@ != "signature"@,
        )),
        !(v is Object) && verify::strips(v, stripped) ==> stripped == v,
{
    if forall|i: int, j: int|
        0 <= i < j < json::members_list(m).len() ==> (#[trigger] json::members_list(m)[i]).0@ != (
        #[trigger] json::members_list(m)[j]).0@ {
        laws::json::law_taking_out_a_member(json::members_list(m), "signature"@);
        let key = "signature"@;
        assert((|e: (String, Value)| e.0@ != "signature"@) =~= (|e: (String, Value)| e.0@ != key));
    }
}

/// A document without a string as its `signature` is refused for that, whatever the key.
pub proof fn law_what_is_not_signed_is_refused(
    doc: Doc,
    m: Map<Seq<char>, Doc>,
    key: Option<Seq<u8>>,
    path: Seq<char>,
)
    ensures
        !(doc is Object) ==> verify::verification(doc, key, path) == Err::<Seq<u8>, Refusal>(
            Refusal::MissingSignature { path },
        ),
        !m.dom().contains("signature"@) || !(m["signature"@] is String) ==> verify::verification(
            Doc::Object(m),
            key,
            path,
        ) == Err::<Seq<u8>, Refusal>(Refusal::MissingSignature { path }),
{
}

/// A signed document verifies exactly where its signature decodes to sixty-four bytes
/// that are good under the key over all of it but the signature. Otherwise it is
/// refused, for the first thing that is wrong.
pub proof fn law_what_verifies(
    m: Map<Seq<char>, Doc>,
    signature: Seq<char>,
    bytes: Seq<u8>,
    message: Seq<char>,
    key: Seq<u8>,
    path: Seq<char>,
)
    requires
        m.dom().contains("signature"@),
        m["signature"@] == Doc::String(signature),
    ensures
        crypto::base64_decoding(signature) == Err::<Seq<u8>, Seq<char>>(message) ==> (forall|
            k: Option<Seq<u8>>,
        |
            #[trigger] verify::verification(Doc::Object(m), k, path) == Err::<Seq<u8>, Refusal>(
                Refusal::MalformedSignature { path, message: "base64 decode failed: "@ + message },
            )),
        crypto::base64_decoding(signature) == Ok::<Seq<u8>, Seq<char>>(bytes) && bytes.len() != 64
            ==> (forall|k: Option<Seq<u8>>| #[trigger]
            verify::verification(Doc::Object(m), k, path) == Err::<Seq<u8>, Refusal>(
                Refusal::MalformedSignature {
                    path,
                    message: "not a valid Ed25519 signature: "@ + "signature error"@,
                },
            )),
        crypto::base64_decoding(signature) == Ok::<Seq<u8>, Seq<char>>(bytes) && bytes.len() == 64
            ==> verify::verification(Doc::Object(m), None, path) == Err::<Seq<u8>, Refusal>(
            Refusal::NoVerificationKey { path },
        ),
        crypto::base64_decoding(signature) == Ok::<Seq<u8>, Seq<char>>(bytes) && bytes.len() == 64
            ==> ({
            let covered = utf8::encode_utf8(
                canonical::canonical(Doc::Object(m.remove("signature"@))),
            );
            let outcome = verify::verification(Doc::Object(m), Some(key), path);
            &&& crypto::ed25519_verifies(key, covered, bytes) ==> outcome == Ok::<
                Seq<u8>,
                Refusal,
            >(covered)
            &&& !crypto::ed25519_verifies(key, covered, bytes) ==> outcome == Err::<
                Seq<u8>,
                Refusal,
            >(
                Refusal::SignatureMismatch {
                    path,
                    issuer: if m.dom().contains("issuer"@) && m["issuer"@] is String {
                        m["issuer"@]->String_0
                    } else {
                        "(no issuer)"@
                    },
                },
            )
        }),
{
}

/// Once a signature was checked, what it covers comes back where it is good, and who
/// issued the document where it is not.
pub proof fn law_what_comes_of_a_check(
    doc: Doc,
    m: Map<Seq<char>, Doc>,
    path: Seq<char>,
    covered: Seq<u8>,
    issuer: Seq<char>,
)
    ensures
        verify::after_verifying(doc, path, covered, true) == Ok::<Seq<u8>, Refusal>(covered),
        m.dom().contains("issuer"@) && m["issuer"@] == Doc::String(issuer)
            ==> verify::after_verifying(Doc::Object(m), path, covered, false) == Err::<
            Seq<u8>,
            Refusal,
        >(Refusal::SignatureMismatch { path, issuer }),
        !m.dom().contains("issuer"@) || !(m["issuer"@] is String) ==> verify::after_verifying(
            Doc::Object(m),
            path,
            covered,
            false,
        ) == Err::<Seq<u8>, Refusal>(
            Refusal::SignatureMismatch { path, issuer: "(no issuer)"@ },
        ),
        !(doc is Object) ==> verify::after_verifying(doc, path, covered, false) == Err::<
            Seq<u8>,
            Refusal,
        >(Refusal::SignatureMismatch { path, issuer: "(no issuer)"@ }),
{
}

/// Once the base64 of a signature was decoded, it is refused where that failed or gave
/// no sixty-four bytes, then where there is no key, and else is checked over all of the
/// document but the signature.
pub proof fn law_what_comes_of_decoding(
    doc: Doc,
    key: Option<Seq<u8>>,
    path: Seq<char>,
    signature: Seq<u8>,
    e: Seq<char>,
    k: Seq<u8>,
)
    ensures
        verify::after_base64(doc, key, path, Err(e)) == Err::<Seq<u8>, Refusal>(
            Refusal::MalformedSignature { path, message: "base64 decode failed: "@ + e },
        ),
        signature.len() != 64 ==> verify::after_base64(doc, key, path, Ok(signature)) == Err::<
            Seq<u8>,
            Refusal,
        >(
            Refusal::MalformedSignature {
                path,
                message: "not a valid Ed25519 signature: "@ + "signature error"@,
            },
        ),
        signature.len() == 64 ==> verify::after_base64(doc, None, path, Ok(signature)) == Err::<
            Seq<u8>,
            Refusal,
        >(Refusal::NoVerificationKey { path }),
        signature.len() == 64 ==> verify::after_base64(doc, Some(k), path, Ok(signature))
            == verify::after_verifying(
            doc,
            path,
            verify::payload(doc),
            crypto::ed25519_verifies(k, verify::payload(doc), signature),
        ),
{
}

/// What an error says is what it holds.
pub proof fn law_what_errors_say(e: PolicyError, f: VerifyFailure, bytes: Vec<u8>)
    ensures
        e matches PolicyError::InvalidEnvKey { message } ==> e@ is InvalidEnvKey
            && e@->InvalidEnvKey_message == message@,
        e matches PolicyError::MissingSignature { path } ==> e@ is MissingSignature
            && e@->MissingSignature_path == path@,
        e matches PolicyError::MalformedSignature { path, message } ==> e@ is MalformedSignature
            && e@->MalformedSignature_path == path@ && e@->MalformedSignature_message == message@,
        e matches PolicyError::NoVerificationKey { path } ==> e@ is NoVerificationKey
            && e@->NoVerificationKey_path == path@,
        e matches PolicyError::SignatureMismatch { path, issuer } ==> e@ is SignatureMismatch
            && e@->SignatureMismatch_path == path@ && e@->issuer == issuer@,
        verify::verified_view(Ok(bytes)) == Ok::<Seq<u8>, Refusal>(bytes@),
        verify::verified_view(Err(e)) == Err::<Seq<u8>, Refusal>(e@),
        f matches VerifyFailure::Key(message) ==> f@ == Failure::Key(message@),
        f matches VerifyFailure::Policy(refused) ==> f@ == Failure::Policy(refused@),
{
}

/// Signing a document sets its `signature` to the signature over everything else in
/// it, puts it last, leaves every other member as it is and in its place, and gives
/// what verifies under the public key of the secret key.
pub proof fn law_what_signing_does(
    doc: Members,
    secret: Seq<u8>,
    v: Value,
    path: Seq<char>,
    k: Seq<char>,
)
    requires
        policy_tool::signed_with(Value::Object(doc), secret, v),
        forall|i: int, j: int|
            0 <= i < j < json::members_list(doc).len() ==> (#[trigger] json::members_list(
                doc,
            )[i]).0@ != (#[trigger] json::members_list(doc)[j]).0@,
    ensures
        v matches Value::Object(out) && ({
            let covered = utf8::encode_utf8(
                canonical::canonical(Doc::Object(doc@.remove("signature"@))),
            );
            &&& out@.dom().contains("signature"@)
            &&& out@["signature"@] == Doc::String(
                crypto::base64_encoding(crypto::ed25519_signature(secret, covered)),
            )
            &&& k != "signature"@ ==> out@.dom().contains(k) == doc@.dom().contains(k)
            &&& k != "signature"@ && doc@.dom().contains(k) ==> out@[k] == doc@[k]
            &&& json::members_list(out).len() > 0
            &&& json::members_list(out).last().0@ == "signature"@
            &&& json::members_list(out).drop_last() == json::members_list(doc).filter(
                |e: (String, Value)| e.0@ != "signature"@,
            )
            &&& verify::verification(v@, Some(crypto::ed25519_public(secret)), path) == Ok::<
                Seq<u8>,
                Refusal,
            >(covered)
        }),
{
    laws::json::law_taking_out_a_member(json::members_list(doc), "signature"@);
    let key = "signature"@;
    assert((|e: (String, Value)| e.0@ != "signature"@) =~= (|e: (String, Value)| e.0@ != key));
    assert(verify::verification(v@, Some(crypto::ed25519_public(secret)), path) is Ok);
    let out = v->Object_0;
    assert(v@ == Doc::Object(out@));
}

/// Signing is refused for a private key of the wrong length, then for what is no
/// object, and for nothing else.
pub proof fn law_what_signing_refuses(
    doc: Doc,
    m: Map<Seq<char>, Doc>,
    key: Seq<u8>,
    shown: Seq<char>,
)
    ensures
        key.len() != 32 ==> policy_tool::sign_refusal(doc, key, shown) == Some(
            "private key at "@ + shown + " is "@ + text::decimal(key.len())
                + " bytes; expected 32 raw Ed25519 bytes"@,
        ),
        key.len() == 32 && !(doc is Object) ==> policy_tool::sign_refusal(doc, key, shown) == Some(
            "policy is not a JSON object, so it cannot hold a signature"@,
        ),
        key.len() == 32 ==> policy_tool::sign_refusal(Doc::Object(m), key, shown) is None,
{
}

/// The public key of a pair is that of its private key, and a key file can hold it.
pub proof fn law_pairs_belong_together(pair: KeyPair)
    requires
        policy_tool::matching(pair),
    ensures
        pair.public@ == crypto::ed25519_public(pair.private@),
        crypto::ed25519_decodes(pair.public@),
        policy_tool::operator_key(pair.public@) == Ok::<Seq<u8>, Seq<char>>(pair.public@),
{
}

/// A key file verifies what its key verifies, and nothing where it holds no key.
pub proof fn law_key_files_verify(doc: Doc, file: Seq<u8>, path: Seq<char>, key: Seq<u8>, e: Seq<char>)
    ensures
        policy_tool::operator_key(file) == Ok::<Seq<u8>, Seq<char>>(key) ==> (
        policy_tool::verify_failure(doc, file, path) is None <==> verify::verification(
            doc,
            Some(key),
            path,
        ) is Ok),
        policy_tool::operator_key(file) == Ok::<Seq<u8>, Seq<char>>(key) && verify::verification(
            doc,
            Some(key),
            path,
        ) is Err ==> policy_tool::verify_failure(doc, file, path) == Some(
            Failure::Policy(verify::verification(doc, Some(key), path)->Err_0),
        ),
        policy_tool::operator_key(file) == Err::<Seq<u8>, Seq<char>>(e)
            ==> policy_tool::verify_failure(doc, file, path) == Some(Failure::Key(e)),
{
}

} // verus!
