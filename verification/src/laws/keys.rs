//! Laws of public keys: how they are read, and which one is used.

use vstd::prelude::*;
use vstd::utf8;

use crate::crypto;
use crate::laws;
use crate::policy::error::PolicyError;
use crate::policy::verify;
use crate::policy::verify::{FileRead, KeyFile, KeySource, PublicKey, Source};
use crate::policy_tool;
use crate::text;

verus! {

/// Bytes are a key exactly where they are thirty-two and a point on the curve.
pub proof fn law_what_is_a_key(bytes: Seq<u8>)
    ensures
        bytes.len() == 32 && crypto::ed25519_decodes(bytes) ==> verify::key_outcome(bytes) == Ok::<
            Seq<u8>,
            Seq<char>,
        >(bytes),
        bytes.len() != 32 ==> verify::key_outcome(bytes) == Err::<Seq<u8>, Seq<char>>(
            "expected 32-byte raw Ed25519 public key, got "@ + text::decimal(bytes.len())
                + " bytes"@,
        ),
        bytes.len() == 32 && !crypto::ed25519_decodes(bytes) ==> verify::key_outcome(bytes) == Err::<
            Seq<u8>,
            Seq<char>,
        >("invalid Ed25519 key: "@ + "signature error: Cannot decompress Edwards point"@),
{
}

/// What a parsed or decoded key holds is what it is.
pub proof fn law_what_keys_hold(key: PublicKey, path: String, message: String, bytes: Vec<u8>)
    ensures
        verify::key_view(Ok(key)) == Ok::<Seq<u8>, Seq<char>>(key@),
        verify::key_view(Err(message)) == Err::<Seq<u8>, Seq<char>>(message@),
        crypto::decoded_view(Ok(bytes)) == Ok::<Seq<u8>, Seq<char>>(bytes@),
        crypto::decoded_view(Err(message)) == Err::<Seq<u8>, Seq<char>>(message@),
        KeySource::Embedded(key)@ == Source::Embedded(key@),
        KeySource::Env(key)@ == Source::Env(key@),
        KeySource::File(key, path)@ == Source::File(key@, path@),
        KeySource::Absent@ is Nowhere,
        verify::resolution_view(Ok(KeySource::Env(key))) == Ok::<Source, Seq<char>>(
            Source::Env(key@),
        ),
        verify::resolution_view(Ok(KeySource::Embedded(key))) == Ok::<Source, Seq<char>>(
            Source::Embedded(key@),
        ),
        verify::resolution_view(Ok(KeySource::File(key, path))) == Ok::<Source, Seq<char>>(
            Source::File(key@, path@),
        ),
        verify::resolution_view(Ok(KeySource::Absent)) == Ok::<Source, Seq<char>>(Source::Nowhere),
        verify::resolution_view(Err(PolicyError::InvalidEnvKey { message })) == Err::<
            Source,
            Seq<char>,
        >(message@),
{
}

/// Every source but none has a key, and says where it came from.
pub proof fn law_sources(key: Seq<u8>, path: Seq<char>)
    ensures
        verify::source_key(Source::Embedded(key)) == Some(key),
        verify::source_key(Source::Env(key)) == Some(key),
        verify::source_key(Source::File(key, path)) == Some(key),
        verify::source_key(Source::Nowhere) is None,
        verify::source_label(Source::Embedded(key)) == "embedded (compile-time)"@,
        verify::source_label(Source::Env(key)) == "env (THCLAWS_POLICY_PUBLIC_KEY)"@,
        verify::source_label(Source::File(key, path)) == "file ("@ + path + ")"@,
        verify::source_label(Source::Nowhere) == "none"@,
{
}

/// Key files are looked for in the system's place and then in the user's.
pub proof fn law_where_key_files_stand(home: Seq<char>)
    ensures
        verify::search_paths(None) == seq!["/etc/thclaws/policy.pub"@],
        verify::search_paths(Some(home)).len() == 2,
        verify::search_paths(Some(home))[0] == "/etc/thclaws/policy.pub"@,
        home.len() > 0 && home.last() != '/' ==> verify::search_paths(Some(home))[1] == home
            + "/.config/thclaws/policy.pub"@,
        home.len() == 0 || home.last() == '/' ==> verify::search_paths(Some(home))[1] == home
            + ".config/thclaws/policy.pub"@,
{
    reveal_strlit(".config/thclaws/policy.pub");
    reveal_strlit("/.config/thclaws/policy.pub");
    assert("/.config/thclaws/policy.pub"@ =~= seq!['/'] + ".config/thclaws/policy.pub"@);
    assert(home.push('/') + ".config/thclaws/policy.pub"@ =~= home
        + "/.config/thclaws/policy.pub"@);
}

/// The texts of a list of strings are those of each, in their order.
pub proof fn law_texts_of_a_list(list: Seq<String>)
    ensures
        verify::texts(list).len() == list.len(),
        forall|i: int| 0 <= i < list.len() ==> #[trigger] verify::texts(list)[i] == list[i]@,
{
}

// ---------------------------------------------------------------------------
// Keys as text

/// Texts one after another.
pub open spec fn run_on(parts: Seq<Seq<char>>) -> Seq<char>
    decreases parts.len(),
{
    if parts.len() == 0 {
        Seq::empty()
    } else {
        run_on(parts.drop_last()) + parts.last()
    }
}

/// Lines of which none is armour are taken one after another.
proof fn lemma_armoured(top: Seq<char>, inner: Seq<Seq<char>>)
    requires
        text::occurs_at(top, "-----"@, 0),
        forall|i: int| 0 <= i < inner.len() ==> !text::occurs_at(#[trigger] inner[i], "-----"@, 0),
    ensures
        verify::armoured(seq![top] + inner) == run_on(inner),
    decreases inner.len(),
{
    let all = seq![top] + inner;
    if inner.len() == 0 {
        assert(all.drop_last() =~= Seq::<Seq<char>>::empty());
        assert(all.last() == top);
        assert(verify::armoured(all.drop_last()) =~= Seq::<char>::empty());
        assert(verify::armoured(all) =~= run_on(inner));
    } else {
        let init = inner.drop_last();
        assert(all.drop_last() =~= seq![top] + init);
        assert(all.last() == inner.last());
        assert(inner[inner.len() - 1] == inner.last());
        assert forall|i: int| 0 <= i < init.len() implies !text::occurs_at(
            #[trigger] init[i],
            "-----"@,
            0,
        ) by {
            assert(init[i] == inner[i]);
        }
        lemma_armoured(top, init);
    }
}

/// Of a PEM text, with line feeds or with carriage returns and line feeds, the lines
/// between the armour are read, one after another.
pub proof fn law_pem_texts_are_read(
    head: Seq<char>,
    inner: Seq<Seq<char>>,
    ends: Seq<bool>,
    foot: Seq<char>,
)
    requires
        head.len() >= 10,
        head.take(10) == "-----BEGIN"@,
        foot.len() >= 5,
        foot.take(5) == "-----"@,
        !text::is_white_space(foot.last()),
        !head.contains('\n'),
        !foot.contains('\n'),
        ends.len() == inner.len(),
        forall|i: int|
            0 <= i < inner.len() ==> !(#[trigger] inner[i]).contains('\n') && !inner[i].contains(
                '-',
            ) && !inner[i].contains('\r'),
    ensures
        verify::key_base64(
            laws::text::joined_with(
                seq![head] + Seq::new(
                    inner.len(),
                    |i: int|
                        if ends[i] {
                            inner[i].push('\r')
                        } else {
                            inner[i]
                        },
                ) + seq![foot],
                '\n',
            ),
        ) == run_on(inner),
{
    reveal_strlit("-----BEGIN");
    reveal_strlit("-----");
    reveal_strlit("\r");
    let ret = "\r"@;
    assert(ret =~= seq!['\r']);
    let raw = Seq::new(
        inner.len(),
        |i: int|
            if ends[i] {
                inner[i].push('\r')
            } else {
                inner[i]
            },
    );
    let all = seq![head] + raw + seq![foot];
    let pem = laws::text::joined_with(all, '\n');
    let n = all.len() as int;
    assert forall|i: int| 0 <= i < all.len() implies !(#[trigger] all[i]).contains('\n') by {
        if 0 < i < n - 1 {
            let line = inner[i - 1];
            assert(!line.contains('\n'));
            assert(all[i] == raw[i - 1]);
            if all[i].contains('\n') {
                let j = choose|j: int| 0 <= j < all[i].len() && all[i][j] == '\n';
                assert(line[j] == '\n');
            }
        } else if i == 0 {
            assert(all[i] == head);
        } else {
            assert(all[i] == foot);
        }
    }
    laws::text::law_splitting_undoes_joining(all, '\n');
    lemma_ends_of_joined(all, '\n');
    assert(pem[0] == head[0]);
    assert(pem.last() == foot.last());
    assert(head.take(10)[0] == head[0]);
    assert(pem.subrange(0, 10) =~= head.take(10));
    let top = text::without_suffix(head, ret);
    let lines = verify::lines(pem);
    assert(all[n - 1] == foot);
    assert forall|i: int| 0 <= i < inner.len() implies text::without_suffix(
        #[trigger] raw[i],
        ret,
    ) == inner[i] by {
        let line = inner[i];
        assert(!line.contains('\r'));
        if ends[i] {
            assert(raw[i] == line + ret);
            laws::text::law_suffixes_are_taken_off(raw[i], line, ret);
        } else {
            assert(raw[i] == line);
            if text::ends_in(line, ret) {
                assert(line.subrange(line.len() - 1, line.len() as int)[0] == line.last());
                assert(line.contains(line.last()));
            }
        }
    }
    let body = seq![top] + inner;
    assert(lines =~= body.push(foot)) by {
        assert forall|i: int| 0 <= i < n - 1 implies text::without_suffix(#[trigger] all[i], ret)
            == body[i] by {
            if i > 0 {
                assert(all[i] == raw[i - 1]);
            }
        }
    }
    assert(lines.drop_last() =~= body);
    assert(lines.last() == foot);
    assert(foot.subrange(0, 5) =~= foot.take(5));
    assert(top.len() >= 9);
    assert(top.subrange(0, 5) =~= "-----"@) by {
        assert forall|i: int| 0 <= i < 5 implies top.subrange(0, 5)[i] == "-----"@[i] by {
            assert(head.take(10)[i] == "-----BEGIN"@[i]);
            assert(top[i] == head[i]);
        }
    }
    assert forall|i: int| 0 <= i < inner.len() implies !text::occurs_at(
        #[trigger] inner[i],
        "-----"@,
        0,
    ) by {
        let line = inner[i];
        if text::occurs_at(line, "-----"@, 0) {
            assert(line.subrange(0, 5)[0] == line[0]);
            assert(line.contains(line[0]));
        }
    }
    lemma_armoured(top, inner);
}

/// A joined text starts with its first part and ends with its last.
proof fn lemma_ends_of_joined(parts: Seq<Seq<char>>, sep: char)
    requires
        parts.len() > 0,
        parts.last().len() > 0,
    ensures
        laws::text::joined_with(parts, sep).len() >= parts[0].len(),
        laws::text::joined_with(parts, sep).take(parts[0].len() as int) == parts[0],
        laws::text::joined_with(parts, sep).len() > 0,
        laws::text::joined_with(parts, sep).last() == parts.last().last(),
        parts[0].len() > 0 ==> laws::text::joined_with(parts, sep)[0] == parts[0][0],
        forall|i: int|
            0 <= i < parts[0].len() ==> laws::text::joined_with(parts, sep)[i] == #[trigger] parts[0][i],
    decreases parts.len(),
{
    let s = laws::text::joined_with(parts, sep);
    if parts.len() > 1 {
        let rest = parts.skip(1);
        assert(rest.last() == parts.last());
        lemma_ends_of_joined(rest, sep);
        assert(s.last() == laws::text::joined_with(rest, sep).last());
    }
    assert(s.take(parts[0].len() as int) =~= parts[0]);
}

/// Of any other text all is read but line feeds, carriage returns and spaces, and
/// but the white space around it.
pub proof fn law_bare_texts_are_read(s: Seq<char>)
    requires
        text::trimmed(s).len() < 10 || text::trimmed(s).take(10) != "-----BEGIN"@,
    ensures
        verify::key_base64(s) == text::trimmed(s).filter(
            |c: char| c != '\n' && c != '\r' && c != ' ',
        ),
{
    reveal_strlit("-----BEGIN");
    let t = text::trimmed(s);
    if text::occurs_at(t, "-----BEGIN"@, 0) {
        assert(t.take(10) =~= t.subrange(0, 10));
    }
    lemma_unspaced_filters(t);
}

proof fn lemma_unspaced_filters(s: Seq<char>)
    ensures
        verify::unspaced(s) == s.filter(|c: char| c != '\n' && c != '\r' && c != ' '),
    decreases s.len(),
{
    reveal(Seq::filter);
    let keeps = |c: char| c != '\n' && c != '\r' && c != ' ';
    if s.len() > 0 {
        lemma_unspaced_filters(s.drop_last());
    } else {
        assert(verify::unspaced(s) =~= s.filter(keeps));
    }
}

/// White space around a text form of a key, PEM or bare, makes no difference.
pub proof fn law_white_space_around_a_key_does_not_matter(
    before: Seq<char>,
    s: Seq<char>,
    after: Seq<char>,
)
    requires
        s.len() > 0,
        !text::is_white_space(s[0]),
        !text::is_white_space(s.last()),
        forall|i: int| 0 <= i < before.len() ==> text::is_white_space(#[trigger] before[i]),
        forall|i: int| 0 <= i < after.len() ==> text::is_white_space(#[trigger] after[i]),
    ensures
        verify::key_base64(before + s + after) == verify::key_base64(s),
{
    let none = Seq::<char>::empty();
    laws::text::law_white_space_around_does_not_matter(before, s, after);
    laws::text::law_white_space_around_does_not_matter(none, s, none);
    assert(none + s + none =~= s);
}

/// A text form of a key gives what its base64 decodes to, or says why it does not.
pub proof fn law_text_forms_are_decoded(s: Seq<char>, bytes: Seq<u8>, e: Seq<char>)
    ensures
        crypto::base64_decoding(verify::key_base64(s)) == Ok::<Seq<u8>, Seq<char>>(bytes)
            ==> verify::text_key_outcome(s) == Ok::<Seq<u8>, Seq<char>>(bytes),
        crypto::base64_decoding(verify::key_base64(s)) == Err::<Seq<u8>, Seq<char>>(e)
            ==> verify::text_key_outcome(s) == Err::<Seq<u8>, Seq<char>>(
            "base64 decode failed: "@ + e,
        ),
        verify::after_decoding(Ok(bytes)) == Ok::<Seq<u8>, Seq<char>>(bytes),
        verify::after_decoding(Err(e)) == Err::<Seq<u8>, Seq<char>>("base64 decode failed: "@ + e),
{
}

/// Decoded bytes are taken as a key where they are thirty-two.
pub proof fn law_decoded_keys_have_their_length(bytes: Seq<u8>, e: Seq<char>)
    ensures
        bytes.len() == 32 ==> verify::sized_key(Ok(bytes)) == Ok::<Seq<u8>, Seq<char>>(bytes),
        bytes.len() != 32 ==> verify::sized_key(Ok(bytes)) == Err::<Seq<u8>, Seq<char>>(
            "expected 32-byte raw Ed25519 public key, got "@ + text::decimal(bytes.len())
                + " bytes"@,
        ),
        verify::sized_key(Err(e)) == Err::<Seq<u8>, Seq<char>>(e),
{
}

/// A key file gives its thirty-two bytes as they are, or the thirty-two that its text
/// decodes to, or says why it gives none.
pub proof fn law_key_files_are_read(raw: Seq<u8>, s: Seq<char>, bytes: Seq<u8>, e: Seq<char>)
    ensures
        raw.len() == 32 ==> verify::file_key_outcome(raw) == Ok::<Seq<u8>, Seq<char>>(raw),
        raw == utf8::encode_utf8(s) && raw.len() != 32 ==> {
            let decoding = crypto::base64_decoding(verify::key_base64(s));
            let outcome = verify::file_key_outcome(raw);
            &&& decoding == Ok::<Seq<u8>, Seq<char>>(bytes) && bytes.len() == 32 ==> outcome == Ok::<
                Seq<u8>,
                Seq<char>,
            >(bytes)
            &&& decoding == Ok::<Seq<u8>, Seq<char>>(bytes) && bytes.len() != 32 ==> outcome
                == Err::<Seq<u8>, Seq<char>>(
                "expected 32-byte raw Ed25519 public key, got "@ + text::decimal(bytes.len())
                    + " bytes"@,
            )
            &&& decoding == Err::<Seq<u8>, Seq<char>>(e) ==> outcome == Err::<Seq<u8>, Seq<char>>(
                "base64 decode failed: "@ + e,
            )
        },
        raw.len() != 32 && !utf8::valid_utf8(raw) ==> verify::file_key_outcome(raw) == Err::<
            Seq<u8>,
            Seq<char>,
        >(
            text::decimal(raw.len())
                + " bytes and not valid UTF-8 — expected 32 raw bytes or base64/PEM text"@,
        ),
{
    if raw == utf8::encode_utf8(s) {
        utf8::encode_utf8_valid_utf8(s);
        utf8::encode_utf8_decode_utf8(s);
    }
}

/// The operator's key file is read in the same forms.
pub proof fn law_operator_keys_are_read(raw: Seq<u8>, s: Seq<char>, bytes: Seq<u8>, e: Seq<char>)
    ensures
        raw.len() == 32 && crypto::ed25519_decodes(raw) ==> policy_tool::operator_key(raw) == Ok::<
            Seq<u8>,
            Seq<char>,
        >(raw),
        raw.len() == 32 && !crypto::ed25519_decodes(raw) ==> policy_tool::operator_key(raw) == Err::<
            Seq<u8>,
            Seq<char>,
        >("invalid pubkey: "@ + "signature error: Cannot decompress Edwards point"@),
        raw == utf8::encode_utf8(s) && raw.len() != 32 ==> {
            let decoding = crypto::base64_decoding(verify::key_base64(s));
            let outcome = policy_tool::operator_key(raw);
            &&& decoding == Ok::<Seq<u8>, Seq<char>>(bytes) && bytes.len() == 32
                && crypto::ed25519_decodes(bytes) ==> outcome == Ok::<Seq<u8>, Seq<char>>(bytes)
            &&& decoding == Ok::<Seq<u8>, Seq<char>>(bytes) && bytes.len() == 32
                && !crypto::ed25519_decodes(bytes) ==> outcome == Err::<Seq<u8>, Seq<char>>(
                "invalid pubkey: "@ + "signature error: Cannot decompress Edwards point"@,
            )
            &&& decoding == Ok::<Seq<u8>, Seq<char>>(bytes) && bytes.len() != 32 ==> outcome
                == Err::<Seq<u8>, Seq<char>>(
                "public key decoded to "@ + text::decimal(bytes.len()) + " bytes; expected 32"@,
            )
            &&& decoding == Err::<Seq<u8>, Seq<char>>(e) ==> outcome == Err::<Seq<u8>, Seq<char>>(
                "base64 decode failed: "@ + e,
            )
        },
        raw.len() != 32 && !utf8::valid_utf8(raw) ==> policy_tool::operator_key(raw) == Err::<
            Seq<u8>,
            Seq<char>,
        >("public key is neither 32 raw bytes nor UTF-8 text"@),
{
    if raw == utf8::encode_utf8(s) {
        utf8::encode_utf8_valid_utf8(s);
        utf8::encode_utf8_decode_utf8(s);
    }
}

// ---------------------------------------------------------------------------
// Which key is used

/// An embedded key is used whatever else there is; where it is none, nothing else is.
pub proof fn law_the_embedded_key_is_used(
    embedded: Seq<char>,
    env_key: Option<Seq<char>>,
    files: Seq<KeyFile>,
    key: Seq<u8>,
    e: Seq<char>,
)
    requires
        embedded.len() > 0,
    ensures
        crypto::base64_decoding(embedded) == Ok::<Seq<u8>, Seq<char>>(key) && key.len() == 32
            && crypto::ed25519_decodes(key) ==> verify::resolved(embedded, env_key, files) == Ok::<
            Source,
            Seq<char>,
        >(Source::Embedded(key)),
        crypto::base64_decoding(embedded) == Ok::<Seq<u8>, Seq<char>>(key) && key.len() != 32
            ==> verify::resolved(embedded, env_key, files) == Err::<Source, Seq<char>>(
            "embedded pubkey: "@ + ("expected 32-byte raw Ed25519 public key, got "@
                + text::decimal(key.len()) + " bytes"@),
        ),
        crypto::base64_decoding(embedded) == Ok::<Seq<u8>, Seq<char>>(key) && key.len() == 32
            && !crypto::ed25519_decodes(key) ==> verify::resolved(embedded, env_key, files) == Err::<
            Source,
            Seq<char>,
        >(
            "embedded pubkey: "@ + ("invalid Ed25519 key: "@
                + "signature error: Cannot decompress Edwards point"@),
        ),
        crypto::base64_decoding(embedded) == Err::<Seq<u8>, Seq<char>>(e) ==> verify::resolved(
            embedded,
            env_key,
            files,
        ) == Err::<Source, Seq<char>>("embedded pubkey base64 decode failed: "@ + e),
{
}

/// Without an embedded key, a key in the environment that is not blank is used in any
/// of its text forms, whatever key files there are; where it is none, nothing else is.
pub proof fn law_the_environment_is_used(
    s: Seq<char>,
    at: int,
    files: Seq<KeyFile>,
    key: Seq<u8>,
    e: Seq<char>,
)
    requires
        0 <= at < s.len(),
        !text::is_white_space(s[at]),
    ensures
        ({
            let decoding = crypto::base64_decoding(verify::key_base64(s));
            let source = verify::resolved(Seq::empty(), Some(s), files);
            &&& decoding == Ok::<Seq<u8>, Seq<char>>(key) && key.len() == 32
                && crypto::ed25519_decodes(key) ==> source == Ok::<Source, Seq<char>>(
                Source::Env(key),
            )
            &&& decoding == Ok::<Seq<u8>, Seq<char>>(key) && key.len() != 32 ==> source == Err::<
                Source,
                Seq<char>,
            >(
                "expected 32-byte raw Ed25519 public key, got "@ + text::decimal(key.len())
                    + " bytes"@,
            )
            &&& decoding == Ok::<Seq<u8>, Seq<char>>(key) && key.len() == 32
                && !crypto::ed25519_decodes(key) ==> source == Err::<Source, Seq<char>>(
                "invalid Ed25519 key: "@ + "signature error: Cannot decompress Edwards point"@,
            )
            &&& decoding == Err::<Seq<u8>, Seq<char>>(e) ==> source == Err::<Source, Seq<char>>(
                "base64 decode failed: "@ + e,
            )
        }),
{
}

/// The same key in the environment, bare, with white space around it or as PEM, is
/// the same key.
pub proof fn law_forms_of_a_key_in_the_environment(
    base64: Seq<char>,
    before: Seq<char>,
    after: Seq<char>,
    head: Seq<char>,
    foot: Seq<char>,
    files: Seq<KeyFile>,
    key: Seq<u8>,
)
    requires
        base64.len() > 0,
        forall|i: int|
            0 <= i < base64.len() ==> !text::is_white_space(#[trigger] base64[i]) && base64[i]
                != '-',
        crypto::base64_decoding(base64) == Ok::<Seq<u8>, Seq<char>>(key),
        key.len() == 32,
        crypto::ed25519_decodes(key),
        forall|i: int| 0 <= i < before.len() ==> text::is_white_space(#[trigger] before[i]),
        forall|i: int| 0 <= i < after.len() ==> text::is_white_space(#[trigger] after[i]),
        head.len() >= 10,
        head.take(10) == "-----BEGIN"@,
        foot.len() >= 5,
        foot.take(5) == "-----"@,
        !text::is_white_space(foot.last()),
        !head.contains('\n'),
        !foot.contains('\n'),
    ensures
        verify::resolved(Seq::empty(), Some(base64), files) == Ok::<Source, Seq<char>>(
            Source::Env(key),
        ),
        verify::resolved(Seq::empty(), Some(before + base64 + after), files) == Ok::<
            Source,
            Seq<char>,
        >(Source::Env(key)),
        verify::resolved(
            Seq::empty(),
            Some(head + seq!['\n'] + base64 + seq!['\n'] + foot),
            files,
        ) == Ok::<Source, Seq<char>>(Source::Env(key)),
        verify::resolved(
            Seq::empty(),
            Some(before + (head + seq!['\n'] + base64 + seq!['\n'] + foot) + after),
            files,
        ) == Ok::<Source, Seq<char>>(Source::Env(key)),
{
    reveal_strlit("-----BEGIN");
    reveal_strlit("-----");
    let none = Seq::<char>::empty();
    assert(base64.contains(base64[0]));
    assert(!text::is_white_space(base64[base64.len() - 1]));
    laws::text::law_white_space_around_does_not_matter(none, base64, none);
    laws::text::law_white_space_around_does_not_matter(before, base64, after);
    assert(none + base64 + none =~= base64);
    assert(!text::occurs_at(base64, "-----BEGIN"@, 0)) by {
        if text::occurs_at(base64, "-----BEGIN"@, 0) {
            assert(base64.subrange(0, 10)[0] == base64[0]);
        }
    }
    verify::law_bare_base64_is_decoded_as_it_stands(base64);
    let spaced = before + base64 + after;
    assert(verify::key_base64(spaced) == verify::key_base64(base64));
    assert(spaced[before.len() as int] == base64[0]);
    law_the_environment_is_used(base64, 0, files, key, none);
    law_the_environment_is_used(spaced, before.len() as int, files, key, none);

    let pem = head + seq!['\n'] + base64 + seq!['\n'] + foot;
    assert(head.subrange(0, 10) =~= head.take(10));
    assert(foot.subrange(0, 5) =~= foot.take(5));
    assert(!base64.contains('\n'));
    assert(!text::occurs_at(base64, "-----"@, 0)) by {
        if text::occurs_at(base64, "-----"@, 0) {
            assert(base64.subrange(0, 5)[0] == base64[0]);
        }
    }
    verify::law_armour_is_taken_off(head, base64, foot);
    assert(head.take(10)[0] == head[0]);
    assert(pem[0] == head[0]);
    assert(pem.last() == foot.last());
    law_the_environment_is_used(pem, 0, files, key, none);
    laws::text::law_white_space_around_does_not_matter(none, pem, none);
    laws::text::law_white_space_around_does_not_matter(before, pem, after);
    assert(none + pem + none =~= pem);
    let spaced_pem = before + pem + after;
    assert(verify::key_base64(spaced_pem) == verify::key_base64(pem));
    assert(spaced_pem[before.len() as int] == pem[0]);
    law_the_environment_is_used(spaced_pem, before.len() as int, files, key, none);
}

/// Where there is neither an embedded key nor one in the environment but blanks, the
/// first key file that is there is used, and those after it are not looked at.
pub proof fn law_the_first_key_file_is_used(
    blanks: Seq<char>,
    files: Seq<KeyFile>,
    i: int,
    raw: Vec<u8>,
    reason: String,
    s: Seq<char>,
    key: Seq<u8>,
)
    requires
        forall|j: int| 0 <= j < blanks.len() ==> text::is_white_space(#[trigger] blanks[j]),
        0 <= i < files.len(),
        forall|j: int| 0 <= j < i ==> (#[trigger] files[j]).found is Missing,
    ensures
        verify::resolved(Seq::empty(), Some(blanks), files) == verify::resolved(
            Seq::empty(),
            None,
            files,
        ),
        files[i].found == FileRead::Contents(raw) && raw@.len() == 32 && crypto::ed25519_decodes(
            raw@,
        ) ==> verify::resolved(Seq::empty(), None, files) == Ok::<Source, Seq<char>>(
            Source::File(raw@, files[i].path@),
        ),
        files[i].found == FileRead::Contents(raw) && raw@ == utf8::encode_utf8(s) && raw@.len()
            != 32 && crypto::base64_decoding(verify::key_base64(s)) == Ok::<Seq<u8>, Seq<char>>(
            key,
        ) && key.len() == 32 && crypto::ed25519_decodes(key) ==> verify::resolved(
            Seq::empty(),
            None,
            files,
        ) == Ok::<Source, Seq<char>>(Source::File(key, files[i].path@)),
        files[i].found == FileRead::Contents(raw) && raw@.len() != 32 && !utf8::valid_utf8(raw@)
            ==> verify::resolved(Seq::empty(), None, files) == Err::<Source, Seq<char>>(
            files[i].shown@ + ": "@ + (text::decimal(raw@.len())
                + " bytes and not valid UTF-8 — expected 32 raw bytes or base64/PEM text"@),
        ),
        files[i].found == FileRead::Contents(raw) && raw@.len() == 32 && !crypto::ed25519_decodes(
            raw@,
        ) ==> verify::resolved(Seq::empty(), None, files) == Err::<Source, Seq<char>>(
            files[i].shown@ + ": "@ + ("invalid Ed25519 key: "@
                + "signature error: Cannot decompress Edwards point"@),
        ),
        files[i].found == FileRead::Unreadable(reason) ==> verify::resolved(
            Seq::empty(),
            None,
            files,
        ) == Err::<Source, Seq<char>>("read "@ + files[i].shown@ + ": "@ + reason@),
{
    let none = Seq::<KeyFile>::empty();
    assert(files + none =~= files);
    if files[i].found !is Missing {
        verify::law_first_key_file_wins(files, none, i);
    }
    if raw@ == utf8::encode_utf8(s) {
        utf8::encode_utf8_valid_utf8(s);
        utf8::encode_utf8_decode_utf8(s);
    }
}

/// Where there is no key anywhere, there is none.
pub proof fn law_there_may_be_no_key(files: Seq<KeyFile>)
    requires
        forall|j: int| 0 <= j < files.len() ==> (#[trigger] files[j]).found is Missing,
    ensures
        verify::resolved(Seq::empty(), None, files) == Ok::<Source, Seq<char>>(Source::Nowhere),
    decreases files.len(),
{
    if files.len() > 0 {
        let rest = files.skip(1);
        assert forall|j: int| 0 <= j < rest.len() implies (#[trigger] rest[j]).found is Missing by {
            assert(rest[j] == files[j + 1]);
        }
        law_there_may_be_no_key(rest);
        assert(files[0].found is Missing);
    }
}

} // verus!
