//! Laws of the operator's tool: making keys, inspecting and fingerprinting.

use vstd::prelude::*;

use crate::canonical;
use crate::json;
use crate::json::{Doc, Members, Value};
use crate::laws;
use crate::policy_tool;
use crate::policy_tool::Output;
use crate::text;

verus! {

// ---------------------------------------------------------------------------
// Making keys

/// Keys are not written over the first output that exists, wherever it stands in the
/// list, unless that is forced; where none exists they are written.
pub proof fn law_nothing_is_overwritten(outputs: Seq<Output>, i: int)
    ensures
        policy_tool::overwriting(outputs, true) is None,
        (forall|j: int| 0 <= j < outputs.len() ==> !(#[trigger] outputs[j]).exists)
            ==> policy_tool::overwriting(outputs, false) is None,
        0 <= i < outputs.len() && outputs[i].exists && (forall|j: int|
            0 <= j < i ==> !(#[trigger] outputs[j]).exists) ==> policy_tool::overwriting(
            outputs,
            false,
        ) == Some(
            outputs[i].shown@
                + " exists — pass --force to overwrite (be careful with --private)"@,
        ),
    decreases outputs.len(),
{
    if outputs.len() > 0 && !outputs[0].exists {
        let rest = outputs.skip(1);
        law_nothing_is_overwritten(rest, i - 1);
        if forall|j: int| 0 <= j < outputs.len() ==> !(#[trigger] outputs[j]).exists {
            assert forall|j: int| 0 <= j < rest.len() implies !(#[trigger] rest[j]).exists by {
                assert(rest[j] == outputs[j + 1]);
            }
        }
        if 0 <= i < outputs.len() && outputs[i].exists && (forall|j: int|
            0 <= j < i ==> !(#[trigger] outputs[j]).exists) {
            assert(rest[i - 1] == outputs[i]);
            assert forall|j: int| 0 <= j < i - 1 implies !(#[trigger] rest[j]).exists by {
                assert(rest[j] == outputs[j + 1]);
            }
        }
    }
}

/// What the operator is told of new keys names both files, each where it belongs.
pub proof fn law_what_is_said_of_new_keys(public: Seq<char>, private: Seq<char>)
    ensures
        policy_tool::keygen_lines(public, private) == "✓ public key  → "@ + public
            + "\n✓ private key → "@ + private
            + " (chmod 600 on Unix)\n\nNext steps:\n  • For an enterprise build, set THCLAWS_POLICY_PUBKEY_PATH="@
            + public + " at build time\n  • Keep "@ + private
            + " OFFLINE. A leaked private key invalidates every signed policy.\n"@,
{
}

// ---------------------------------------------------------------------------
// Inspecting

/// A line for what may be missing.
pub open spec fn line(label: Seq<char>, shown: Option<Seq<char>>) -> Seq<char> {
    match shown {
        Some(s) => label + s + "\n"@,
        None => Seq::empty(),
    }
}

/// The text that a document has at a key.
pub open spec fn text_at(doc: Doc, key: Seq<char>) -> Option<Seq<char>> {
    match doc {
        Doc::Object(m) => if m.dom().contains(key) && m[key] is String {
            Some(m[key]->String_0)
        } else {
            None
        },
        _ => None,
    }
}

/// The lines of a report before those on the blocks of rules.
pub open spec fn opening(path: Seq<char>, m: Map<Seq<char>, Doc>) -> Seq<char> {
    "policy: "@ + path + "\n"@ + line(
        "  version:    "@,
        if m.dom().contains("version"@) {
            Some(canonical::canonical(m["version"@]))
        } else {
            None
        },
    ) + line("  issuer:     "@, text_at(Doc::Object(m), "issuer"@)) + line(
        "  issued_at:  "@,
        text_at(Doc::Object(m), "issued_at"@),
    ) + line("  expires_at: "@, text_at(Doc::Object(m), "expires_at"@)) + if m.dom().contains(
        "binding"@,
    ) {
        "  binding:\n"@ + line("    org_id:             "@, text_at(m["binding"@], "org_id"@))
            + line(
            "    binary_fingerprint: "@,
            text_at(m["binding"@], "binary_fingerprint"@),
        )
    } else {
        Seq::empty()
    }
}

/// The last line of a report.
pub open spec fn closing(m: Map<Seq<char>, Doc>) -> Seq<char> {
    "  signed:     "@ + (if m.dom().contains("signature"@) {
        "true"@
    } else {
        "false"@
    }) + "\n"@
}

proof fn lemma_nothing_between(a: Seq<char>, b: Seq<char>)
    ensures
        a + Seq::<char>::empty() + b == a + b,
{
    assert(a + Seq::<char>::empty() =~= a);
}

proof fn lemma_grouped(a: Seq<char>, b: Seq<char>, c: Seq<char>, d: Seq<char>)
    ensures
        a + b + c + d == a + (b + c + d),
{
    assert(a + b + c + d =~= a + (b + c + d));
}

/// The parts of a report.
proof fn lemma_inspection(path: Seq<char>, doc: Value, m: Map<Seq<char>, Doc>)
    requires
        doc@ == Doc::Object(m),
    ensures
        policy_tool::inspection(path, doc) == opening(path, m) + policy_tool::policies_lines(
            json::value_member(doc, "policies"@),
        ) + closing(m),
{
    let version = policy_tool::labelled(
        "  version:    "@,
        policy_tool::member_json(json::member(doc@, "version"@)),
    );
    let issuer = policy_tool::labelled(
        "  issuer:     "@,
        json::string_of(json::member(doc@, "issuer"@)),
    );
    let issued = policy_tool::labelled(
        "  issued_at:  "@,
        json::string_of(json::member(doc@, "issued_at"@)),
    );
    let expires = policy_tool::labelled(
        "  expires_at: "@,
        json::string_of(json::member(doc@, "expires_at"@)),
    );
    let binding = policy_tool::binding_lines(json::member(doc@, "binding"@));
    let shown = "policy: "@ + path + "\n"@ + version + issuer + issued + expires + binding;
    assert(shown == opening(path, m));
    let lines = policy_tool::policies_lines(json::value_member(doc, "policies"@));
    let truth = policy_tool::truth(json::member(doc@, "signature"@) is Some);
    lemma_grouped(shown + lines, "  signed:     "@, truth, "\n"@);
    assert("  signed:     "@ + truth + "\n"@ == closing(m));
}

/// Inspecting shows each part that is there, in a fixed order and whatever the others
/// are: version, issuer, dates, what the policy is bound to, the blocks of rules and
/// whether there is a signature.
pub proof fn law_what_inspecting_shows(path: Seq<char>, members: Members, rules: Members, at: int)
    ensures
        (forall|i: int|
            0 <= i < json::members_list(members).len() ==> (#[trigger] json::members_list(
                members,
            )[i]).0@ != "policies"@) ==> policy_tool::inspection(path, Value::Object(members))
            == opening(path, members@) + closing(members@),
        0 <= at < json::members_list(members).len() && json::members_list(members)[at].0@
            == "policies"@ && (forall|i: int|
            0 <= i < at ==> (#[trigger] json::members_list(members)[i]).0@ != "policies"@) ==> {
            let policies = json::members_list(members)[at].1;
            &&& policies == Value::Object(rules) ==> policy_tool::inspection(
                path,
                Value::Object(members),
            ) == opening(path, members@) + ("  policies:\n"@ + policy_tool::block_lines(
                json::members_list(rules),
            )) + closing(members@)
            &&& !(policies is Object) ==> policy_tool::inspection(path, Value::Object(members))
                == opening(path, members@) + closing(members@)
        },
{
    let entries = json::members_list(members);
    let doc = Value::Object(members);
    laws::json::law_looking_up_an_entry(members, entries, "policies"@, at);
    assert(doc@ == Doc::Object(members@));
    lemma_inspection(path, doc, members@);
    lemma_nothing_between(opening(path, members@), closing(members@));
}

/// Of what is no object, inspecting shows the path and that there is no signature.
pub proof fn law_what_inspecting_shows_of_the_rest(path: Seq<char>, doc: Value)
    requires
        !(doc is Object),
    ensures
        policy_tool::inspection(path, doc) == "policy: "@ + path + "\n"@ + "  signed:     "@
            + "false"@ + "\n"@,
{
    assert(!(doc@ is Object));
    assert(policy_tool::inspection(path, doc) =~= "policy: "@ + path + "\n"@ + "  signed:     "@
        + "false"@ + "\n"@);
}

/// Each block of rules has a line of its own, in document order, that says whether it
/// is switched on: whether its `enabled` is there and is `true`.
pub proof fn law_every_block_has_a_line(blocks: Seq<(String, Value)>, block: (String, Value))
    ensures
        policy_tool::block_lines(Seq::empty()) == Seq::<char>::empty(),
        policy_tool::block_lines(blocks.push(block)) == policy_tool::block_lines(blocks) + "    "@
            + block.0@ + ": enabled="@ + (if block.1@ is Object
            && block.1@->Object_0.dom().contains("enabled"@) && block.1@->Object_0["enabled"@]
            == Doc::Bool(true) {
            "true"@
        } else {
            "false"@
        }) + "\n"@,
{
    let all = blocks.push(block);
    assert(all.drop_last() =~= blocks);
    assert(all.last() == block);
}

// ---------------------------------------------------------------------------
// Fingerprints

/// A digest in hexadecimal has two digits for each byte, in their order, the higher
/// one first.
pub proof fn law_two_digits_for_each_byte(bytes: Seq<u8>, i: int)
    ensures
        policy_tool::hex(bytes).len() == 2 * bytes.len(),
        0 <= i < bytes.len() ==> policy_tool::hex(bytes)[2 * i] == text::hex_digit(
            bytes[i] as int / 16,
        ) && policy_tool::hex(bytes)[2 * i + 1] == text::hex_digit(bytes[i] as int % 16),
    decreases bytes.len(),
{
    if bytes.len() > 0 {
        let init = bytes.drop_last();
        law_two_digits_for_each_byte(init, i);
        if 0 <= i < init.len() {
            assert(init[i] == bytes[i]);
        }
    }
}

/// Different digests have different fingerprints.
pub proof fn law_fingerprints_tell_digests_apart(a: Seq<u8>, b: Seq<u8>)
    requires
        policy_tool::hex(a) == policy_tool::hex(b),
    ensures
        a == b,
{
    law_two_digits_for_each_byte(a, 0);
    law_two_digits_for_each_byte(b, 0);
    assert forall|i: int| 0 <= i < a.len() implies a[i] == b[i] by {
        law_two_digits_for_each_byte(a, i);
        law_two_digits_for_each_byte(b, i);
        laws::text::law_hexadecimal_digits(a[i] as int / 16);
        laws::text::law_hexadecimal_digits(a[i] as int % 16);
        laws::text::law_hexadecimal_digits(b[i] as int / 16);
        laws::text::law_hexadecimal_digits(b[i] as int % 16);
    }
    assert(a =~= b);
}

} // verus!
