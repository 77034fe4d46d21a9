//! Ed25519 signatures over policy documents, and the keys that verify them.
//!
//! What is signed is the canonical form of the document without its `signature`
//! member. Signing stands in [`crate::policy_tool`]; this module only verifies.

use vstd::prelude::*;
use vstd::utf8;

use crate::canonical;
use crate::canonical::{write_canonical, write_object};
use crate::crypto;
use crate::crypto::{base64_decode, ed25519_check_key, ed25519_signature_bytes, ed25519_verify};
use crate::json;
use crate::json::{Doc, Value};
use crate::paths;
use crate::paths::join_path;
use crate::policy::error::{PolicyError, Refusal};
use crate::reading;
use crate::text;
use crate::text::{
    blank, push_chars, push_decimal, split_at_char, stands_at, strip_suffix, to_chars, trim,
};

verus! {

// ---------------------------------------------------------------------------
// What is signed

/// A document without its `signature` member.
pub open spec fn unsigned(doc: Doc) -> Doc {
    match doc {
        Doc::Object(m) => Doc::Object(m.remove("signature"@)),
        other => other,
    }
}

/// The bytes that a signature over a document covers.
pub open spec fn payload(doc: Doc) -> Seq<u8> {
    utf8::encode_utf8(canonical::canonical(unsigned(doc)))
}

/// `stripped` is `v` without its `signature` member, the other members in their order.
pub open spec fn strips(v: Value, stripped: Value) -> bool {
    match v {
        Value::Object(m) => stripped matches Value::Object(rest) && json::members_list(rest)
            == json::without_entry(json::members_list(m), "signature"@),
        other => stripped == other,
    }
}

/// `v` without its `signature` member.
pub fn strip_signature(v: Value) -> (stripped: Value)
    ensures
        stripped@ == unsigned(v@),
        strips(v, stripped),
{
    match v {
        Value::Object(mut members) => {
            members.remove("signature");
            Value::Object(members)
        },
        other => other,
    }
}

/// The bytes that a signature over `doc` covers: its canonical form without the
/// `signature` member.
pub fn canonical_signed_payload(doc: &Value) -> (bytes: Vec<u8>)
    ensures
        bytes@ == payload(doc@),
{
    let mut out: Vec<u8> = Vec::new();
    match doc {
        Value::Object(members) => {
            proof {
                json::lemma_members_finite(*members);
                canonical::lemma_object_without(members@, "signature"@);
            }
            write_object(members, Some("signature"), &mut out);
        },
        other => write_canonical(other, &mut out),
    }
    out
}

// ---------------------------------------------------------------------------
// Public keys

/// The thirty-two bytes of an Ed25519 public key.
#[derive(Debug, Clone, Copy)]
pub struct PublicKey {
    bytes: [u8; 32],
}

impl View for PublicKey {
    type V = Seq<u8>;

    closed spec fn view(&self) -> Seq<u8> {
        self.bytes@
    }
}

impl PublicKey {
    #[verifier::type_invariant]
    spec fn is_a_point(self) -> bool {
        crypto::ed25519_decodes(self.bytes@)
    }

    /// The key with these bytes, where they are a point on the curve.
    pub fn from_bytes(bytes: &[u8; 32]) -> (key: Result<PublicKey, String>)
        ensures
            key is Ok == crypto::ed25519_decodes(bytes@),
            key matches Ok(k) ==> k@ == bytes@,
            key matches Err(e) ==> e@ == "signature error: Cannot decompress Edwards point"@,
    {
        match ed25519_check_key(bytes) {
            Ok(()) => Ok(PublicKey { bytes: *bytes }),
            Err(e) => Err(e),
        }
    }

    /// The bytes of the key.
    pub fn to_bytes(&self) -> (bytes: [u8; 32])
        ensures
            bytes@ == self@,
    {
        self.bytes
    }
}

/// Thirty-two bytes as an array.
pub fn to_array(bytes: &[u8]) -> (array: [u8; 32])
    requires
        bytes@.len() == 32,
    ensures
        array@ == bytes@,
{
    let mut array = [0u8; 32];
    for i in 0..32
        invariant
            bytes@.len() == 32,
            forall|j: int| 0 <= j < i ==> array@[j] == bytes@[j],
    {
        array[i] = bytes[i];
    }
    assert(array@ =~= bytes@);
    array
}

/// The key that some bytes are, or why they are none.
pub open spec fn key_outcome(bytes: Seq<u8>) -> Result<Seq<u8>, Seq<char>> {
    if bytes.len() != 32 {
        Err(wrong_length(bytes.len()))
    } else if crypto::ed25519_decodes(bytes) {
        Ok(bytes)
    } else {
        Err("invalid Ed25519 key: "@ + "signature error: Cannot decompress Edwards point"@)
    }
}

/// What a parsed key holds: its bytes, or the text of the message.
pub open spec fn key_view(parsed: Result<PublicKey, String>) -> Result<Seq<u8>, Seq<char>> {
    match parsed {
        Ok(key) => Ok(key@),
        Err(message) => Err(message@),
    }
}

/// The public key that `bytes` are.
pub fn parse_pubkey(bytes: &[u8]) -> (parsed: Result<PublicKey, String>)
    ensures
        key_view(parsed) == key_outcome(bytes@),
{
    if bytes.len() != 32 {
        return Err(wrong_length_text(bytes.len()));
    }
    let array = to_array(bytes);
    match PublicKey::from_bytes(&array) {
        Ok(key) => Ok(key),
        Err(e) => {
            let mut message = String::new();
            message.append("invalid Ed25519 key: ");
            message.append(e.as_str());
            assert(message@ =~= "invalid Ed25519 key: "@ + e@);
            Err(message)
        },
    }
}

// ---------------------------------------------------------------------------
// Public keys as text

/// The lines of a text: ended by a line feed or by a carriage return and a line
/// feed, which the last line may lack.
pub open spec fn lines(s: Seq<char>) -> Seq<Seq<char>> {
    let pieces = text::split(s, '\n');
    let last = pieces.len() - 1;
    let ended = Seq::new(last as nat, |i: int| text::without_suffix(pieces[i], "\r"@));
    if pieces[last].len() == 0 {
        ended
    } else {
        ended.push(pieces[last])
    }
}

/// The lines that are no armour, one after another.
pub open spec fn armoured(lines: Seq<Seq<char>>) -> Seq<char>
    decreases lines.len(),
{
    if lines.len() == 0 {
        Seq::empty()
    } else if text::occurs_at(lines.last(), "-----"@, 0) {
        armoured(lines.drop_last())
    } else {
        armoured(lines.drop_last()) + lines.last()
    }
}

/// `s` without line feeds, carriage returns and spaces.
pub open spec fn unspaced(s: Seq<char>) -> Seq<char>
    decreases s.len(),
{
    if s.len() == 0 {
        Seq::empty()
    } else if s.last() == '\n' || s.last() == '\r' || s.last() == ' ' {
        unspaced(s.drop_last())
    } else {
        unspaced(s.drop_last()).push(s.last())
    }
}

/// The base64 that a text form of a key holds: what stands between the armour
/// lines of a PEM text, or the text itself without its spacing.
pub open spec fn key_base64(text: Seq<char>) -> Seq<char> {
    let trimmed = text::trimmed(text);
    if text::occurs_at(trimmed, "-----BEGIN"@, 0) {
        armoured(lines(trimmed))
    } else {
        unspaced(trimmed)
    }
}

fn armoured_text(s: &[char]) -> (out: String)
    ensures
        out@ == armoured(lines(s@)),
{
    let pieces = split_at_char(s, '\n');
    let ghost ps = text::split(s@, '\n');
    let ghost all = lines(s@);
    proof {
        text::lemma_parts(pieces@, ps);
    }
    let dashes = to_chars("-----");
    let ret = to_chars("\r");
    let n: usize = pieces.len();
    let mut out = String::new();
    assert(all.take(0) =~= Seq::<Seq<char>>::empty());
    for i in 0..n - 1
        invariant
            n == pieces@.len() == ps.len(),
            n > 0,
            all == lines(s@),
            ps == text::split(s@, '\n'),
            forall|j: int| 0 <= j < ps.len() ==> #[trigger] pieces@[j]@ == ps[j],
            dashes@ == "-----"@,
            ret@ == "\r"@,
            out@ == armoured(all.take(i as int)),
    {
        let line = strip_suffix(pieces[i], ret.as_slice());
        assert(all[i as int] == line@);
        assert(all.take(i + 1).drop_last() =~= all.take(i as int));
        assert(all.take(i + 1).last() == line@);
        if !stands_at(line, dashes.as_slice(), 0) {
            push_chars(&mut out, line);
        }
    }
    let last = pieces[n - 1];
    if last.len() > 0 {
        assert(all[n - 1] == last@);
        assert(all.drop_last() =~= all.take(n - 1));
        assert(all.last() == last@);
        if !stands_at(last, dashes.as_slice(), 0) {
            push_chars(&mut out, last);
        }
    } else {
        assert(all.take(n - 1) =~= all);
    }
    out
}

fn unspaced_text(s: &[char]) -> (out: String)
    ensures
        out@ == unspaced(s@),
{
    let mut out = String::new();
    for i in 0..s.len()
        invariant
            out@ == unspaced(s@.take(i as int)),
    {
        let c = s[i];
        assert(s@.take(i + 1).drop_last() =~= s@.take(i as int));
        if c != '\n' && c != '\r' && c != ' ' {
            out.push(c);
        }
    }
    assert(s@.take(s@.len() as int) =~= s@);
    out
}

/// The base64 that a text form of a key holds.
pub fn pubkey_base64(text: &str) -> (inner: String)
    ensures
        inner@ == key_base64(text@),
{
    let chars = to_chars(text);
    let trimmed = trim(chars.as_slice());
    if stands_at(trimmed, to_chars("-----BEGIN").as_slice(), 0) {
        armoured_text(trimmed)
    } else {
        unspaced_text(trimmed)
    }
}

/// What comes of decoding the base64 of a key: the bytes, or a message that says what failed.
pub open spec fn after_decoding(decoded: Result<Seq<u8>, Seq<char>>) -> Result<Seq<u8>, Seq<char>> {
    match decoded {
        Ok(bytes) => Ok(bytes),
        Err(e) => Err("base64 decode failed: "@ + e),
    }
}

/// The bytes that a text form of a key stands for, or why it stands for none.
pub open spec fn text_key_outcome(text: Seq<char>) -> Result<Seq<u8>, Seq<char>> {
    after_decoding(crypto::base64_decoding(key_base64(text)))
}

/// What comes of decoding the base64 of a key.
pub fn decoding_outcome(decoded: Result<Vec<u8>, String>) -> (outcome: Result<Vec<u8>, String>)
    ensures
        crypto::decoded_view(outcome) == after_decoding(crypto::decoded_view(decoded)),
{
    match decoded {
        Ok(bytes) => Ok(bytes),
        Err(e) => {
            let mut message = String::new();
            message.append("base64 decode failed: ");
            message.append(e.as_str());
            assert(message@ =~= "base64 decode failed: "@ + e@);
            Err(message)
        },
    }
}

/// The bytes that a text form of a key, raw base64 or PEM, stands for.
pub fn decode_text_pubkey(text: &str) -> (decoded: Result<Vec<u8>, String>)
    ensures
        crypto::decoded_view(decoded) == text_key_outcome(text@),
{
    let inner = pubkey_base64(text);
    decoding_outcome(base64_decode(inner.as_str()))
}

/// `std::str::from_utf8`: the text of the bytes where they are UTF-8, and only there.
#[verifier::external_body]
pub(crate) fn utf8_text(raw: &[u8]) -> (text: Option<&str>)
    ensures
        text is Some == utf8::valid_utf8(raw@),
        text matches Some(s) ==> s@ == utf8::decode_utf8(raw@),
{
    std::str::from_utf8(raw).ok()
}

/// What is said of a key of the wrong length.
pub open spec fn wrong_length(len: nat) -> Seq<char> {
    "expected 32-byte raw Ed25519 public key, got "@ + text::decimal(len) + " bytes"@
}

/// What comes of the text in a key file once it was decoded: thirty-two bytes, or why not.
pub open spec fn sized_key(decoded: Result<Seq<u8>, Seq<char>>) -> Result<Seq<u8>, Seq<char>> {
    match decoded {
        Ok(bytes) => if bytes.len() == 32 {
            Ok(bytes)
        } else {
            Err(wrong_length(bytes.len()))
        },
        Err(e) => Err(e),
    }
}

/// The thirty-two bytes of the key that a key file holds, or why it holds none.
pub open spec fn file_key_outcome(raw: Seq<u8>) -> Result<Seq<u8>, Seq<char>> {
    if raw.len() == 32 {
        Ok(raw)
    } else if utf8::valid_utf8(raw) {
        sized_key(text_key_outcome(utf8::decode_utf8(raw)))
    } else {
        Err(
            text::decimal(raw.len())
                + " bytes and not valid UTF-8 — expected 32 raw bytes or base64/PEM text"@,
        )
    }
}

fn wrong_length_text(len: usize) -> (message: String)
    ensures
        message@ == wrong_length(len as nat),
{
    let mut message = String::new();
    message.append("expected 32-byte raw Ed25519 public key, got ");
    push_decimal(&mut message, len);
    message.append(" bytes");
    assert(message@ =~= wrong_length(len as nat));
    message
}

/// What comes of the text in a key file once it was decoded: thirty-two bytes, or why not.
pub fn sized_key_bytes(decoded: Result<Vec<u8>, String>) -> (key: Result<Vec<u8>, String>)
    ensures
        crypto::decoded_view(key) == sized_key(crypto::decoded_view(decoded)),
{
    match decoded {
        Ok(bytes) => {
            if bytes.len() == 32 {
                Ok(bytes)
            } else {
                Err(wrong_length_text(bytes.len()))
            }
        },
        Err(e) => Err(e),
    }
}

/// The thirty-two bytes of the key that a key file holds: raw, as base64 text or as PEM.
pub fn read_pubkey_bytes(raw: &[u8]) -> (key: Result<Vec<u8>, String>)
    ensures
        crypto::decoded_view(key) == file_key_outcome(raw@),
        key matches Ok(bytes) ==> bytes@.len() == 32,
{
    if raw.len() == 32 {
        let mut bytes: Vec<u8> = Vec::new();
        bytes.extend_from_slice(raw);
        assert(bytes@ =~= raw@);
        return Ok(bytes);
    }
    match utf8_text(raw) {
        Some(text) => sized_key_bytes(decode_text_pubkey(text)),
        None => {
            let mut message = String::new();
            push_decimal(&mut message, raw.len());
            message.append(" bytes and not valid UTF-8 — expected 32 raw bytes or base64/PEM text");
            Err(message)
        },
    }
}

// ---------------------------------------------------------------------------
// Where the key comes from

/// Which public key policies are verified against, and where it came from.
#[derive(Debug, Clone)]
pub enum KeySource {
    /// Built in at compile time. Highest trust: nothing overrides it.
    Embedded(PublicKey),
    /// From the environment.
    Env(PublicKey),
    /// From a key file.
    File(PublicKey, String),
    /// No key is configured. A policy that exists is then refused.
    Absent,
}

/// What a [`KeySource`] says.
pub enum Source {
    Embedded(Seq<u8>),
    Env(Seq<u8>),
    File(Seq<u8>, Seq<char>),
    Nowhere,
}

impl View for KeySource {
    type V = Source;

    open spec fn view(&self) -> Source {
        match self {
            KeySource::Embedded(k) => Source::Embedded(k@),
            KeySource::Env(k) => Source::Env(k@),
            KeySource::File(k, path) => Source::File(k@, path@),
            KeySource::Absent => Source::Nowhere,
        }
    }
}

/// The key of a source.
pub open spec fn source_key(source: Source) -> Option<Seq<u8>> {
    match source {
        Source::Embedded(k) => Some(k),
        Source::Env(k) => Some(k),
        Source::File(k, _) => Some(k),
        Source::Nowhere => None,
    }
}

/// How a source is named to the user.
pub open spec fn source_label(source: Source) -> Seq<char> {
    match source {
        Source::Embedded(_) => "embedded (compile-time)"@,
        Source::Env(_) => "env (THCLAWS_POLICY_PUBLIC_KEY)"@,
        Source::File(_, path) => "file ("@ + path + ")"@,
        Source::Nowhere => "none"@,
    }
}

/// A place where a key file may stand, and what was found there.
#[derive(Debug, Clone)]
pub struct KeyFile {
    pub path: String,
    /// The path as error messages show it.
    pub shown: String,
    pub found: FileRead,
}

/// What came of looking for a file.
#[derive(Debug, Clone)]
pub enum FileRead {
    Missing,
    /// It is there and cannot be read, for this reason.
    Unreadable(String),
    Contents(Vec<u8>),
}

/// What the embedded key leads to.
pub open spec fn from_embedded(embedded: Seq<char>) -> Result<Source, Seq<char>> {
    match crypto::base64_decoding(embedded) {
        Ok(bytes) => match key_outcome(bytes) {
            Ok(key) => Ok(Source::Embedded(key)),
            Err(e) => Err("embedded pubkey: "@ + e),
        },
        Err(e) => Err("embedded pubkey base64 decode failed: "@ + e),
    }
}

/// What the key from the environment leads to.
pub open spec fn from_env(text: Seq<char>) -> Result<Source, Seq<char>> {
    match text_key_outcome(text) {
        Ok(bytes) => match key_outcome(bytes) {
            Ok(key) => Ok(Source::Env(key)),
            Err(e) => Err(e),
        },
        Err(e) => Err(e),
    }
}

/// What a key file that is there leads to.
pub open spec fn from_file(file: KeyFile) -> Result<Source, Seq<char>> {
    match file.found {
        FileRead::Missing => Ok(Source::Nowhere),
        FileRead::Unreadable(e) => Err("read "@ + file.shown@ + ": "@ + e@),
        FileRead::Contents(raw) => match file_key_outcome(raw@) {
            Ok(bytes) => match key_outcome(bytes) {
                Ok(key) => Ok(Source::File(key, file.path@)),
                Err(e) => Err(file.shown@ + ": "@ + e),
            },
            Err(e) => Err(file.shown@ + ": "@ + e),
        },
    }
}

/// What the first of the key files that is there leads to.
pub open spec fn from_files(files: Seq<KeyFile>) -> Result<Source, Seq<char>>
    decreases files.len(),
{
    if files.len() == 0 {
        Ok(Source::Nowhere)
    } else if files[0].found is Missing {
        from_files(files.skip(1))
    } else {
        from_file(files[0])
    }
}

/// Which key is used: the embedded one where there is one, then one from the
/// environment that is not blank, then the first key file that is there.
pub open spec fn resolved(
    embedded: Seq<char>,
    env_key: Option<Seq<char>>,
    files: Seq<KeyFile>,
) -> Result<Source, Seq<char>> {
    if embedded.len() > 0 {
        from_embedded(embedded)
    } else if env_key is Some && !text::is_blank(env_key->0) {
        from_env(env_key->0)
    } else {
        from_files(files)
    }
}

/// What a resolution holds: the source, or the message of the error.
pub open spec fn resolution_view(r: Result<KeySource, PolicyError>) -> Result<Source, Seq<char>> {
    match r {
        Ok(source) => Ok(source@),
        Err(PolicyError::InvalidEnvKey { message }) => Err(message@),
        Err(_) => Err(Seq::empty()),
    }
}

/// The refusal of a configured key, with a message in up to four pieces.
fn unusable_key(a: &str, b: &str, c: &str, d: &str) -> (e: PolicyError)
    ensures
        e matches PolicyError::InvalidEnvKey { message } && message@ == a@ + b@ + c@ + d@,
{
    let mut message = String::new();
    message.append(a);
    message.append(b);
    message.append(c);
    message.append(d);
    assert(message@ =~= a@ + b@ + c@ + d@);
    PolicyError::InvalidEnvKey { message }
}

/// What a key file that is there leads to.
fn resolve_file(file: &KeyFile) -> (source: Result<KeySource, PolicyError>)
    ensures
        resolution_view(source) == from_file(*file),
        source matches Err(e) ==> e is InvalidEnvKey,
{
    proof {
        reveal_strlit("");
    }
    let raw = match &file.found {
        FileRead::Missing => {
            return Ok(KeySource::Absent);
        },
        FileRead::Unreadable(e) => {
            return Err(unusable_key("read ", file.shown.as_str(), ": ", e.as_str()));
        },
        FileRead::Contents(raw) => raw,
    };
    let bytes = match read_pubkey_bytes(raw.as_slice()) {
        Ok(bytes) => bytes,
        Err(e) => {
            let error = unusable_key("", file.shown.as_str(), ": ", e.as_str());
            assert(""@ + file.shown@ + ": "@ + e@ =~= file.shown@ + ": "@ + e@);
            return Err(error);
        },
    };
    match parse_pubkey(bytes.as_slice()) {
        Ok(key) => Ok(KeySource::File(key, file.path.clone())),
        Err(e) => {
            let error = unusable_key("", file.shown.as_str(), ": ", e.as_str());
            assert(""@ + file.shown@ + ": "@ + e@ =~= file.shown@ + ": "@ + e@);
            Err(error)
        },
    }
}

impl KeySource {
    /// Which key policies are verified against, from the key built in, the key of
    /// the environment and the key files, in this order.
    pub fn resolve(embedded: &str, env_key: Option<&str>, files: &[KeyFile]) -> (source: Result<
        KeySource,
        PolicyError,
    >)
        ensures
            resolution_view(source) == resolved(
                embedded@,
                text::option_view(env_key),
                files@,
            ),
            source matches Err(e) ==> e is InvalidEnvKey,
    {
        proof {
            reveal_strlit("");
        }
        if !embedded.is_empty() {
            let bytes = match base64_decode(embedded) {
                Ok(bytes) => bytes,
                Err(e) => {
                    let error = unusable_key(
                        "embedded pubkey base64 decode failed: ",
                        e.as_str(),
                        "",
                        "",
                    );
                    assert("embedded pubkey base64 decode failed: "@ + e@ + ""@ + ""@
                        =~= "embedded pubkey base64 decode failed: "@ + e@);
                    return Err(error);
                },
            };
            return match parse_pubkey(bytes.as_slice()) {
                Ok(key) => Ok(KeySource::Embedded(key)),
                Err(e) => {
                    let error = unusable_key("embedded pubkey: ", e.as_str(), "", "");
                    assert("embedded pubkey: "@ + e@ + ""@ + ""@ =~= "embedded pubkey: "@ + e@);
                    Err(error)
                },
            };
        }
        if let Some(text) = env_key {
            if !blank(text) {
                let bytes = match decode_text_pubkey(text) {
                    Ok(bytes) => bytes,
                    Err(message) => {
                        return Err(PolicyError::InvalidEnvKey { message });
                    },
                };
                return match parse_pubkey(bytes.as_slice()) {
                    Ok(key) => Ok(KeySource::Env(key)),
                    Err(message) => Err(PolicyError::InvalidEnvKey { message }),
                };
            }
        }
        assert(files@.skip(0) =~= files@);
        for i in 0..files.len()
            invariant
                resolved(embedded@, text::option_view(env_key), files@) == from_files(
                    files@.skip(i as int),
                ),
        {
            let file = &files[i];
            assert(files@.skip(i as int)[0] == *file);
            assert(files@.skip(i as int).skip(1) =~= files@.skip(i + 1));
            let missing = match &file.found {
                FileRead::Missing => true,
                _ => false,
            };
            if !missing {
                return resolve_file(file);
            }
        }
        Ok(KeySource::Absent)
    }

    /// The key, where there is one.
    pub fn key(&self) -> (key: Option<&PublicKey>)
        ensures
            match key {
                Some(k) => source_key(self@) == Some(k@),
                None => source_key(self@) is None,
            },
    {
        match self {
            KeySource::Embedded(k) => Some(k),
            KeySource::Env(k) => Some(k),
            KeySource::File(k, _) => Some(k),
            KeySource::Absent => None,
        }
    }

    /// How the source is named to the user.
    pub fn label(&self) -> (label: String)
        ensures
            label@ == source_label(self@),
    {
        let mut label = String::new();
        match self {
            KeySource::Embedded(_) => label.append("embedded (compile-time)"),
            KeySource::Env(_) => label.append("env (THCLAWS_POLICY_PUBLIC_KEY)"),
            KeySource::File(_, path) => {
                label.append("file (");
                label.append(path.as_str());
                label.append(")");
            },
            KeySource::Absent => label.append("none"),
        }
        assert(label@ =~= source_label(self@));
        label
    }
}

/// The texts of a list of strings.
pub open spec fn texts(list: Seq<String>) -> Seq<Seq<char>> {
    list.map_values(|s: String| s@)
}

/// Where key files may stand: the system's place, then the user's.
pub open spec fn search_paths(home: Option<Seq<char>>) -> Seq<Seq<char>> {
    match home {
        Some(h) => seq![
            "/etc/thclaws/policy.pub"@,
            paths::joined(h, ".config/thclaws/policy.pub"@),
        ],
        None => seq!["/etc/thclaws/policy.pub"@],
    }
}

/// Where key files may stand, in order of priority: the system's place beats the user's.
pub fn pubkey_search_paths(home: Option<&str>) -> (list: Vec<String>)
    ensures
        texts(list@) == search_paths(text::option_view(home)),
{
    let mut list: Vec<String> = Vec::new();
    list.push("/etc/thclaws/policy.pub".to_string());
    if let Some(h) = home {
        list.push(join_path(h, ".config/thclaws/policy.pub"));
    }
    assert(texts(list@) =~= search_paths(text::option_view(home)));
    list
}

// ---------------------------------------------------------------------------
// Verifying

/// Who issued a document.
pub open spec fn issuer_of(doc: Doc) -> Seq<char> {
    match json::string_of(json::member(doc, "issuer"@)) {
        Some(s) => s,
        None => "(no issuer)"@,
    }
}

/// What comes of a document once its signature was checked.
pub open spec fn after_verifying(
    doc: Doc,
    path: Seq<char>,
    canonical: Seq<u8>,
    good: bool,
) -> Result<Seq<u8>, Refusal> {
    if good {
        Ok(canonical)
    } else {
        Err(Refusal::SignatureMismatch { path, issuer: issuer_of(doc) })
    }
}

/// What comes of a document once the base64 of its signature was decoded.
pub open spec fn after_base64(
    doc: Doc,
    key: Option<Seq<u8>>,
    path: Seq<char>,
    decoded: Result<Seq<u8>, Seq<char>>,
) -> Result<Seq<u8>, Refusal> {
    match decoded {
        Err(e) => Err(
            Refusal::MalformedSignature { path, message: "base64 decode failed: "@ + e },
        ),
        Ok(signature) => if signature.len() != 64 {
            Err(
                Refusal::MalformedSignature {
                    path,
                    message: "not a valid Ed25519 signature: "@ + "signature error"@,
                },
            )
        } else {
            match key {
                None => Err(Refusal::NoVerificationKey { path }),
                Some(k) => after_verifying(
                    doc,
                    path,
                    payload(doc),
                    crypto::ed25519_verifies(k, payload(doc), signature),
                ),
            }
        },
    }
}

/// What comes of verifying a document against a key: the bytes that were signed,
/// or the first thing that is wrong.
pub open spec fn verification(doc: Doc, key: Option<Seq<u8>>, path: Seq<char>) -> Result<
    Seq<u8>,
    Refusal,
> {
    match json::string_of(json::member(doc, "signature"@)) {
        None => Err(Refusal::MissingSignature { path }),
        Some(text) => after_base64(doc, key, path, crypto::base64_decoding(text)),
    }
}

/// What a verification holds: the signed bytes, or what the error says.
pub open spec fn verified_view(r: Result<Vec<u8>, PolicyError>) -> Result<Seq<u8>, Refusal> {
    match r {
        Ok(bytes) => Ok(bytes@),
        Err(e) => Err(e@),
    }
}

/// What comes of `doc` once its signature was checked: `canonical`, or the mismatch.
pub fn conclude(doc: &Value, path: &str, canonical: Vec<u8>, good: bool) -> (verified: Result<
    Vec<u8>,
    PolicyError,
>)
    ensures
        verified_view(verified) == after_verifying(doc@, path@, canonical@, good),
{
    if good {
        return Ok(canonical);
    }
    let issuer = match doc.get_str("issuer") {
        Some(s) => s,
        None => "(no issuer)",
    };
    Err(PolicyError::SignatureMismatch { path: path.to_string(), issuer: issuer.to_string() })
}

/// What comes of `doc` once the base64 of its signature was decoded.
pub fn verify_decoded(
    doc: &Value,
    key_source: &KeySource,
    path: &str,
    decoded: Result<Vec<u8>, String>,
) -> (verified: Result<Vec<u8>, PolicyError>)
    ensures
        verified_view(verified) == after_base64(
            doc@,
            source_key(key_source@),
            path@,
            crypto::decoded_view(decoded),
        ),
{
    let bytes = match decoded {
        Ok(bytes) => bytes,
        Err(e) => {
            let mut message = String::new();
            message.append("base64 decode failed: ");
            message.append(e.as_str());
            assert(message@ =~= "base64 decode failed: "@ + e@);
            return Err(PolicyError::MalformedSignature { path: path.to_string(), message });
        },
    };
    let signature = match ed25519_signature_bytes(bytes.as_slice()) {
        Ok(signature) => signature,
        Err(e) => {
            let mut message = String::new();
            message.append("not a valid Ed25519 signature: ");
            message.append(e.as_str());
            assert(message@ =~= "not a valid Ed25519 signature: "@ + e@);
            return Err(PolicyError::MalformedSignature { path: path.to_string(), message });
        },
    };
    let canonical = canonical_signed_payload(doc);
    match key_source.key() {
        None => Err(PolicyError::NoVerificationKey { path: path.to_string() }),
        Some(key) => {
            let good = ed25519_verify(&key.to_bytes(), canonical.as_slice(), &signature);
            conclude(doc, path, canonical, good)
        },
    }
}

/// Verifies a policy document against the key of `key_source`. Gives the bytes
/// that were signed. `path` only labels errors.
pub fn verify_policy(doc: &Value, key_source: &KeySource, path: &str) -> (verified: Result<
    Vec<u8>,
    PolicyError,
>)
    ensures
        verified_view(verified) == verification(doc@, source_key(key_source@), path@),
{
    match doc.get_str("signature") {
        Some(text) => verify_decoded(doc, key_source, path, base64_decode(text)),
        None => Err(PolicyError::MissingSignature { path: path.to_string() }),
    }
}

// ---------------------------------------------------------------------------
// Laws

/// Without a key nothing verifies.
pub proof fn law_no_key_verifies_nothing(doc: Doc, path: Seq<char>)
    ensures
        verification(doc, None, path) is Err,
{
}

/// What is signed can be read in one way only: two documents with the same signed
/// bytes are the same, but for their `signature` members.
pub proof fn law_signed_bytes_tell_the_document(a: Doc, b: Doc)
    requires
        reading::plain(a),
        reading::plain(b),
        payload(a) == payload(b),
    ensures
        unsigned(a) == unsigned(b),
{
    canonical::lemma_encode_injective(
        canonical::canonical(unsigned(a)),
        canonical::canonical(unsigned(b)),
    );
    reading::law_canonical_text_is_unambiguous(unsigned(a), unsigned(b));
}

/// A document that was changed does not verify with the signature it had, unless
/// that one signature is good for two different messages.
pub proof fn law_a_signature_is_for_one_document(
    a: Doc,
    b: Doc,
    key: Seq<u8>,
    path: Seq<char>,
)
    requires
        reading::plain(a),
        reading::plain(b),
        unsigned(a) != unsigned(b),
        json::member(a, "signature"@) == json::member(b, "signature"@),
        verification(a, Some(key), path) is Ok,
        verification(b, Some(key), path) is Ok,
    ensures
        payload(a) != payload(b),
        crypto::base64_decoding(
            json::string_of(json::member(a, "signature"@))->0,
        ) matches Ok(signature) && crypto::ed25519_verifies(key, payload(a), signature)
            && crypto::ed25519_verifies(key, payload(b), signature),
{
    if payload(a) == payload(b) {
        law_signed_bytes_tell_the_document(a, b);
    }
}

/// What verifies has a signature, of the right length, over exactly what is
/// given back, that is good under the key.
pub proof fn law_what_verifies_is_signed(
    doc: Doc,
    key: Option<Seq<u8>>,
    path: Seq<char>,
    bytes: Seq<u8>,
)
    requires
        verification(doc, key, path) == Ok::<Seq<u8>, Refusal>(bytes),
    ensures
        bytes == payload(doc),
        key is Some,
        json::string_of(json::member(doc, "signature"@)) is Some,
        crypto::base64_decoding(
            json::string_of(json::member(doc, "signature"@))->0,
        ) matches Ok(signature) && signature.len() == 64 && crypto::ed25519_verifies(
            key->0,
            payload(doc),
            signature,
        ),
{
}

/// An embedded key cannot be overridden from the environment or by a key file.
pub proof fn law_embedded_key_is_not_overridden(
    embedded: Seq<char>,
    env_key: Option<Seq<char>>,
    files: Seq<KeyFile>,
    other_env_key: Option<Seq<char>>,
    other_files: Seq<KeyFile>,
)
    requires
        embedded.len() > 0,
    ensures
        resolved(embedded, env_key, files) == resolved(embedded, other_env_key, other_files),
{
}

/// A key file is not overridden by those that come after it in the search.
pub proof fn law_first_key_file_wins(files: Seq<KeyFile>, later: Seq<KeyFile>, i: int)
    requires
        0 <= i < files.len(),
        files[i].found !is Missing,
        forall|j: int| 0 <= j < i ==> (#[trigger] files[j]).found is Missing,
    ensures
        from_files(files + later) == from_file(files[i]),
    decreases files.len(),
{
    let all = files + later;
    assert(all[0] == files[0]);
    if i > 0 {
        let rest = files.skip(1);
        assert(all.skip(1) =~= rest + later);
        assert(rest[i - 1] == files[i]);
        assert forall|j: int| 0 <= j < i - 1 implies (#[trigger] rest[j]).found is Missing by {
            assert(rest[j] == files[j + 1]);
        }
        law_first_key_file_wins(rest, later, i - 1);
    }
}

/// The key that decoded bytes are, or why there is none.
pub open spec fn decoded_key(decoded: Result<Seq<u8>, Seq<char>>) -> Result<Seq<u8>, Seq<char>> {
    match decoded {
        Ok(bytes) => key_outcome(bytes),
        Err(e) => Err(e),
    }
}

/// A key file that holds text gives the key that the same text from the
/// environment gives, or is refused with the same words, unless it is as long as
/// a raw key.
pub proof fn law_files_and_environment_read_alike(text: Seq<char>)
    requires
        utf8::encode_utf8(text).len() != 32,
    ensures
        decoded_key(file_key_outcome(utf8::encode_utf8(text))) == decoded_key(
            text_key_outcome(text),
        ),
{
    utf8::encode_utf8_valid_utf8(text);
    utf8::encode_utf8_decode_utf8(text);
}

/// The armour of a PEM text is taken off: what is decoded is what stands between
/// its first and its last line.
pub proof fn law_armour_is_taken_off(head: Seq<char>, body: Seq<char>, foot: Seq<char>)
    requires
        text::occurs_at(head, "-----BEGIN"@, 0),
        text::occurs_at(foot, "-----"@, 0),
        !text::is_white_space(foot.last()),
        !head.contains('\n'),
        !body.contains('\n'),
        !foot.contains('\n'),
        body.len() > 0 ==> body.last() != '\r',
        !text::occurs_at(body, "-----"@, 0),
    ensures
        key_base64(head + seq!['\n'] + body + seq!['\n'] + foot) == body,
{
    reveal_strlit("-----BEGIN");
    reveal_strlit("-----");
    reveal_strlit("\r");
    let end = seq!['\n'];
    let pem = head + end + body + end + foot;
    let begin = head.subrange(0, 10);
    assert(begin[0] == head[0]);
    assert(pem[0] == head[0]);
    assert(pem.last() == foot.last());
    assert(pem.subrange(0, 10) =~= begin);
    text::lemma_split_one(head, '\n');
    text::lemma_split_one(body, '\n');
    text::lemma_split_one(foot, '\n');
    text::lemma_split_concat(head + end + body, foot, '\n');
    text::lemma_split_concat(head, body, '\n');
    let pieces = text::split(pem, '\n');
    assert(pieces =~= seq![head, body, foot]);
    let top = text::without_suffix(head, "\r"@);
    if text::ends_in(body, "\r"@) {
        assert(body.subrange(body.len() - 1, body.len() as int)[0] == body.last());
    }
    let all = lines(pem);
    assert(all =~= seq![top, body, foot]);
    assert(top.subrange(0, 5) =~= "-----"@) by {
        assert forall|i: int| 0 <= i < 5 implies top.subrange(0, 5)[i] == "-----"@[i] by {
            assert(begin[i] == "-----BEGIN"@[i]);
            assert(begin[i] == head[i]);
        }
    }
    let two = all.drop_last();
    assert(two =~= seq![top, body]);
    let one = two.drop_last();
    assert(one =~= seq![top]);
    assert(one.drop_last() =~= Seq::<Seq<char>>::empty());
    assert(armoured(one.drop_last()) =~= Seq::<char>::empty());
    assert(armoured(one) =~= Seq::<char>::empty());
    assert(armoured(two) =~= body);
    assert(armoured(all) =~= body);
}

/// Base64 without white space or armour is decoded as it stands.
pub proof fn law_bare_base64_is_decoded_as_it_stands(text: Seq<char>)
    requires
        forall|i: int| 0 <= i < text.len() ==> !text::is_white_space(#[trigger] text[i]),
        !text::occurs_at(text, "-----BEGIN"@, 0),
    ensures
        key_base64(text) == text,
{
    lemma_unspaced(text);
}

/// A text without white space stays as it is.
proof fn lemma_unspaced(s: Seq<char>)
    requires
        forall|i: int| 0 <= i < s.len() ==> !text::is_white_space(#[trigger] s[i]),
    ensures
        unspaced(s) == s,
    decreases s.len(),
{
    if s.len() > 0 {
        lemma_unspaced(s.drop_last());
        assert(!text::is_white_space(s[s.len() - 1]));
        assert(s.drop_last().push(s.last()) =~= s);
    } else {
        assert(unspaced(s) =~= s);
    }
}

} // verus!
