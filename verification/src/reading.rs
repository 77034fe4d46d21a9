//! Canonical text read back.
//!
//! Canonical text is JSON, and reading it as JSON gives the document that it was
//! written from. So what a signature covers can be read in one way only: a
//! document that was changed after it was signed, in whatever member, has another
//! payload.

use vstd::prelude::*;

use crate::canonical;
use crate::json::Doc;
use crate::text;

verus! {

/// A character that a number can hold.
pub open spec fn number_char(c: char) -> bool {
    '0' <= c <= '9' || c == '-' || c == '+' || c == '.' || c == 'e' || c == 'E'
}

/// A text that can stand for a number: it starts with a digit or a sign.
pub open spec fn number_text(n: Seq<char>) -> bool {
    &&& n.len() > 0
    &&& '0' <= n[0] <= '9' || n[0] == '-'
    &&& forall|i: int| 0 <= i < n.len() ==> number_char(#[trigger] n[i])
}

/// A document that JSON can write: its objects are finite, and its numbers look like numbers.
pub open spec fn plain(doc: Doc) -> bool
    decreases doc,
{
    match doc {
        Doc::Number(n) => number_text(n),
        Doc::Array(a) => forall|i: int| 0 <= i < a.len() ==> plain(#[trigger] a[i]),
        Doc::Object(m) => m.dom().finite() && forall|k: Seq<char>|
            m.dom().contains(k) ==> plain(#[trigger] m[k]),
        _ => true,
    }
}

// ---------------------------------------------------------------------------
// Reading JSON

/// White space between the tokens of a JSON text.
pub open spec fn json_space(c: char) -> bool {
    c == ' ' || c == '\t' || c == '\n' || c == '\r'
}

/// `s` without the white space that it starts with.
pub open spec fn after_space(s: Seq<char>) -> Seq<char>
    decreases s.len(),
{
    if s.len() > 0 && json_space(s[0]) {
        after_space(s.skip(1))
    } else {
        s
    }
}

/// The value of a hexadecimal digit.
pub open spec fn hex_value(c: char) -> Option<int> {
    if '0' <= c <= '9' {
        Some(c as int - '0' as int)
    } else if 'a' <= c <= 'f' {
        Some(c as int - 'a' as int + 10)
    } else if 'A' <= c <= 'F' {
        Some(c as int - 'A' as int + 10)
    } else {
        None
    }
}

/// The character with the code that four hexadecimal digits give. Halves of
/// surrogate pairs give none.
pub open spec fn hex_escape(s: Seq<char>) -> Option<char> {
    match (hex_value(s[0]), hex_value(s[1]), hex_value(s[2]), hex_value(s[3])) {
        (Some(a), Some(b), Some(c), Some(d)) => {
            let code = a * 4096 + b * 256 + c * 16 + d;
            if 0xd800 <= code <= 0xdfff {
                None
            } else {
                Some(code as char)
            }
        },
        _ => None,
    }
}

/// The character that a backslash and one character stand for.
pub open spec fn short_escape(c: char) -> Option<char> {
    if c == '"' || c == '\\' || c == '/' {
        Some(c)
    } else if c == 'n' {
        Some('\n')
    } else if c == 'r' {
        Some('\r')
    } else if c == 't' {
        Some('\t')
    } else if c == 'b' {
        Some('\u{8}')
    } else if c == 'f' {
        Some('\u{c}')
    } else {
        None
    }
}

/// `c` before what a string goes on with.
pub open spec fn and_then_read(c: char, more: Option<(Seq<char>, Seq<char>)>) -> Option<
    (Seq<char>, Seq<char>),
> {
    match more {
        Some((text, rest)) => Some((seq![c] + text, rest)),
        None => None,
    }
}

/// Reads a string whose opening quote was read: its text, and what follows it.
pub open spec fn read_string(s: Seq<char>) -> Option<(Seq<char>, Seq<char>)>
    decreases s.len(),
{
    if s.len() == 0 {
        None
    } else if s[0] == '"' {
        Some((Seq::empty(), s.skip(1)))
    } else if s[0] == '\\' {
        if s.len() >= 6 && s[1] == 'u' {
            match hex_escape(s.subrange(2, 6)) {
                Some(c) => and_then_read(c, read_string(s.skip(6))),
                None => None,
            }
        } else if s.len() >= 2 {
            match short_escape(s[1]) {
                Some(c) => and_then_read(c, read_string(s.skip(2))),
                None => None,
            }
        } else {
            None
        }
    } else if (s[0] as u32) < 0x20 {
        None
    } else {
        and_then_read(s[0], read_string(s.skip(1)))
    }
}

/// The characters of a number that `s` starts with.
pub open spec fn number_run(s: Seq<char>) -> Seq<char>
    decreases s.len(),
{
    if s.len() > 0 && number_char(s[0]) {
        seq![s[0]] + number_run(s.skip(1))
    } else {
        Seq::empty()
    }
}

/// Reads a value: the document that it is, and what follows it.
pub open spec fn read_value(s: Seq<char>) -> Option<(Doc, Seq<char>)>
    decreases s.len(), 0nat,
{
    let t = after_space(s);
    if t.len() == 0 {
        None
    } else if t[0] == '"' {
        match read_string(t.skip(1)) {
            Some((text, rest)) => Some((Doc::String(text), rest)),
            None => None,
        }
    } else if t[0] == '[' {
        let u = after_space(t.skip(1));
        if u.len() > 0 && u[0] == ']' {
            Some((Doc::Array(Seq::empty()), u.skip(1)))
        } else if u.len() < s.len() {
            match read_items(u) {
                Some((items, rest)) => Some((Doc::Array(items), rest)),
                None => None,
            }
        } else {
            None
        }
    } else if t[0] == '{' {
        let u = after_space(t.skip(1));
        if u.len() > 0 && u[0] == '}' {
            Some((Doc::Object(Map::empty()), u.skip(1)))
        } else if u.len() < s.len() {
            match read_members(u) {
                Some((members, rest)) => Some((Doc::Object(members), rest)),
                None => None,
            }
        } else {
            None
        }
    } else if text::occurs_at(t, "null"@, 0) {
        Some((Doc::Null, t.skip(4)))
    } else if text::occurs_at(t, "true"@, 0) {
        Some((Doc::Bool(true), t.skip(4)))
    } else if text::occurs_at(t, "false"@, 0) {
        Some((Doc::Bool(false), t.skip(5)))
    } else if number_text(number_run(t)) {
        Some((Doc::Number(number_run(t)), t.skip(number_run(t).len() as int)))
    } else {
        None
    }
}

/// Reads the items of an array, at least one, and its closing bracket.
pub open spec fn read_items(s: Seq<char>) -> Option<(Seq<Doc>, Seq<char>)>
    decreases s.len(), 1nat,
{
    match read_value(s) {
        Some((item, behind)) => {
            let t = after_space(behind);
            if t.len() > 0 && t[0] == ']' {
                Some((seq![item], t.skip(1)))
            } else if 0 < t.len() <= s.len() && t[0] == ',' {
                match read_items(t.skip(1)) {
                    Some((items, rest)) => Some((seq![item] + items, rest)),
                    None => None,
                }
            } else {
                None
            }
        },
        None => None,
    }
}

/// Reads one member of an object: its key, its value, and what follows.
pub open spec fn read_member(s: Seq<char>) -> Option<(Seq<char>, Doc, Seq<char>)>
    decreases s.len(), 1nat,
{
    let t = after_space(s);
    if t.len() == 0 || t[0] != '"' {
        None
    } else {
        match read_string(t.skip(1)) {
            Some((key, behind)) => {
                let u = after_space(behind);
                if 0 < u.len() <= s.len() && u[0] == ':' {
                    match read_value(u.skip(1)) {
                        Some((value, rest)) => Some((key, value, rest)),
                        None => None,
                    }
                } else {
                    None
                }
            },
            None => None,
        }
    }
}

/// Reads the members of an object, at least one, and its closing brace. Of members
/// with the same key the last one counts.
pub open spec fn read_members(s: Seq<char>) -> Option<(Map<Seq<char>, Doc>, Seq<char>)>
    decreases s.len(), 2nat,
{
    match read_member(s) {
        Some((key, value, behind)) => {
            let t = after_space(behind);
            if t.len() > 0 && t[0] == '}' {
                Some((Map::empty().insert(key, value), t.skip(1)))
            } else if 0 < t.len() <= s.len() && t[0] == ',' {
                match read_members(t.skip(1)) {
                    Some((members, rest)) => if members.dom().contains(key) {
                        Some((members, rest))
                    } else {
                        Some((members.insert(key, value), rest))
                    },
                    None => None,
                }
            } else {
                None
            }
        },
        None => None,
    }
}

/// The document that a JSON text stands for, if it is one.
pub open spec fn parsed(s: Seq<char>) -> Option<Doc> {
    match read_value(s) {
        Some((doc, rest)) => if after_space(rest).len() == 0 {
            Some(doc)
        } else {
            None
        },
        None => None,
    }
}

// ---------------------------------------------------------------------------
// Reading what was written

/// What can follow a value: nothing, a comma or a closing bracket.
spec fn can_follow(s: Seq<char>) -> bool {
    s.len() == 0 || s[0] == ',' || s[0] == ']' || s[0] == '}'
}

/// A value's text is not empty, and its first character tells what kind of value it is.
proof fn lemma_first_char(doc: Doc)
    requires
        plain(doc),
    ensures
        canonical::canonical(doc).len() > 0,
        ({
            let c = canonical::canonical(doc)[0];
            match doc {
                Doc::Null => c == 'n',
                Doc::Bool(b) => c == if b {
                    't'
                } else {
                    'f'
                },
                Doc::Number(_) => number_char(c) && c != 'e' && c != 'E',
                Doc::String(_) => c == '"',
                Doc::Array(_) => c == '[',
                Doc::Object(_) => c == '{',
            }
        }),
{
    reveal_strlit("null");
    reveal_strlit("true");
    reveal_strlit("false");
}

/// The escape of a text, from its start.
proof fn lemma_escaped_text_front(s: Seq<char>)
    requires
        s.len() > 0,
    ensures
        canonical::escaped_text(s) == canonical::escaped(s[0]) + canonical::escaped_text(s.skip(1)),
    decreases s.len(),
{
    if s.len() == 1 {
        assert(s.drop_last() =~= Seq::<char>::empty());
        assert(s.skip(1) =~= Seq::<char>::empty());
        assert(canonical::escaped_text(s) == canonical::escaped_text(s.drop_last())
            + canonical::escaped(s.last()));
        assert(canonical::escaped_text(s.drop_last()) =~= Seq::<char>::empty());
        assert(canonical::escaped_text(s) =~= canonical::escaped(s[0]) + canonical::escaped_text(
            s.skip(1),
        ));
    } else {
        let rest = s.skip(1);
        lemma_escaped_text_front(s.drop_last());
        assert(s.drop_last().skip(1) =~= rest.drop_last());
        assert(s.drop_last()[0] == s[0]);
        assert(rest.last() == s.last());
        assert(canonical::escaped_text(s) =~= canonical::escaped(s[0]) + canonical::escaped_text(
            rest,
        ));
    }
}

/// What stands after the first item of an array, up to the closing bracket.
spec fn more_items(items: Seq<Doc>) -> Seq<char> {
    if items.len() <= 1 {
        Seq::empty()
    } else {
        seq![','] + canonical::items_text(items.skip(1))
    }
}

/// The items of an array, from the first.
proof fn lemma_items_front(items: Seq<Doc>)
    requires
        items.len() > 0,
    ensures
        canonical::items_text(items) == canonical::canonical(items[0]) + more_items(items),
    decreases items.len(),
{
    if items.len() == 1 {
        assert(canonical::items_text(items) =~= canonical::canonical(items[0]) + more_items(items));
    } else {
        let init = items.drop_last();
        let rest = items.skip(1);
        lemma_items_front(init);
        assert(init[0] == items[0]);
        assert(init.skip(1) =~= rest.drop_last());
        assert(rest.last() == items.last());
        if items.len() == 2 {
            assert(rest[0] == items.last());
            assert(init.len() == 1);
        }
        assert(canonical::items_text(items) =~= canonical::canonical(items[0]) + more_items(items));
    }
}

/// What stands after the first member of an object, up to the closing brace.
spec fn more_members(m: Map<Seq<char>, Doc>, keys: Seq<Seq<char>>) -> Seq<char> {
    if keys.len() <= 1 {
        Seq::empty()
    } else {
        seq![','] + canonical::members_text(m, keys.skip(1))
    }
}

/// The members of an object, from the first.
proof fn lemma_members_front(m: Map<Seq<char>, Doc>, keys: Seq<Seq<char>>)
    requires
        keys.len() > 0,
    ensures
        canonical::members_text(m, keys) == canonical::member_text(m, keys[0]) + more_members(
            m,
            keys,
        ),
    decreases keys.len(),
{
    let whole = canonical::member_text(m, keys[0]) + more_members(m, keys);
    if keys.len() == 1 {
        assert(canonical::members_text(m, keys) =~= whole);
    } else {
        let init = keys.drop_last();
        let rest = keys.skip(1);
        lemma_members_front(m, init);
        assert(init[0] == keys[0]);
        assert(init.skip(1) =~= rest.drop_last());
        assert(rest.last() == keys.last());
        if keys.len() == 2 {
            assert(rest[0] == keys.last());
            assert(init.len() == 1);
        }
        assert(canonical::members_text(m, keys) =~= whole);
    }
}

/// The escape of a character reads as the character.
proof fn lemma_reads_escape(c: char, x: Seq<char>)
    ensures
        read_string(canonical::escaped(c) + x) == and_then_read(c, read_string(x)),
{
    let e = canonical::escaped(c);
    let s = e + x;
    let code = (c as u32) as int;
    assert(s[0] == e[0]);
    assert(s.skip(e.len() as int) =~= x);
    if e.len() == 6 {
        let digits = s.subrange(2, 6);
        assert(s[1] == 'u');
        assert(digits[0] == e[2] && digits[1] == e[3] && digits[2] == e[4] && digits[3] == e[5]);
        assert(0 <= code / 16 < 2 && 0 <= code % 16 < 16);
        assert(hex_value(digits[0]) == Some(0int));
        assert(hex_value(digits[1]) == Some(0int));
        assert(hex_value(digits[2]) == Some(code / 16));
        assert(hex_value(digits[3]) == Some(code % 16));
        assert(code == (code / 16) * 16 + code % 16);
        assert(hex_escape(digits) == Some(c));
    } else if e.len() == 2 {
        assert(s[1] == e[1]);
    }
}

/// A quoted text reads as the text.
proof fn lemma_reads_string(s: Seq<char>, x: Seq<char>)
    ensures
        read_string(canonical::escaped_text(s) + seq!['"'] + x) == Some((s, x)),
    decreases s.len(),
{
    let all = canonical::escaped_text(s) + seq!['"'] + x;
    if s.len() == 0 {
        assert(all[0] == '"');
        assert(all.skip(1) =~= x);
        assert(s =~= Seq::<char>::empty());
    } else {
        let rest = s.skip(1);
        let tail = canonical::escaped_text(rest) + seq!['"'] + x;
        lemma_escaped_text_front(s);
        assert(all =~= canonical::escaped(s[0]) + tail);
        lemma_reads_escape(s[0], tail);
        lemma_reads_string(rest, x);
        assert(seq![s[0]] + rest =~= s);
    }
}

/// A number is read up to what can follow a value.
proof fn lemma_reads_number(n: Seq<char>, x: Seq<char>)
    requires
        forall|i: int| 0 <= i < n.len() ==> number_char(#[trigger] n[i]),
        can_follow(x),
    ensures
        number_run(n + x) == n,
    decreases n.len(),
{
    let s = n + x;
    if n.len() == 0 {
        assert(s =~= x);
        assert(number_run(s) =~= n);
    } else {
        let rest = n.skip(1);
        assert(s[0] == n[0]);
        assert(s.skip(1) =~= rest + x);
        assert forall|i: int| 0 <= i < rest.len() implies number_char(#[trigger] rest[i]) by {
            assert(rest[i] == n[i + 1]);
        }
        lemma_reads_number(rest, x);
        assert(seq![n[0]] + rest =~= n);
    }
}

/// A word at the start of a text.
proof fn lemma_word(word: Seq<char>, x: Seq<char>)
    ensures
        text::occurs_at(word + x, word, 0),
        (word + x).skip(word.len() as int) == x,
{
    assert((word + x).subrange(0, word.len() as int) =~= word);
    assert((word + x).skip(word.len() as int) =~= x);
}

/// A value's text reads as the value, whatever can follow it.
proof fn lemma_reads_value(doc: Doc, x: Seq<char>)
    requires
        plain(doc),
        can_follow(x),
    ensures
        read_value(canonical::canonical(doc) + x) == Some((doc, x)),
    decreases canonical::canonical(doc).len(), 1nat,
{
    let s = canonical::canonical(doc) + x;
    lemma_first_char(doc);
    assert(s[0] == canonical::canonical(doc)[0]);
    assert(after_space(s) == s);
    reveal_strlit("null");
    reveal_strlit("true");
    reveal_strlit("false");
    if text::occurs_at(s, "null"@, 0) {
        assert(s.subrange(0, 4)[0] == 'n');
    }
    if text::occurs_at(s, "true"@, 0) {
        assert(s.subrange(0, 4)[0] == 't');
    }
    if text::occurs_at(s, "false"@, 0) {
        assert(s.subrange(0, 5)[0] == 'f');
    }
    match doc {
        Doc::Null => lemma_word("null"@, x),
        Doc::Bool(b) => {
            if b {
                lemma_word("true"@, x);
            } else {
                lemma_word("false"@, x);
            }
        },
        Doc::Number(n) => {
            lemma_reads_number(n, x);
            lemma_word(n, x);
        },
        Doc::String(t) => {
            assert(s.skip(1) =~= canonical::escaped_text(t) + seq!['"'] + x);
            lemma_reads_string(t, x);
        },
        Doc::Array(a) => lemma_reads_array(a, x),
        Doc::Object(m) => lemma_reads_object(m, x),
    }
}

proof fn lemma_reads_array(a: Seq<Doc>, x: Seq<char>)
    requires
        forall|i: int| 0 <= i < a.len() ==> plain(#[trigger] a[i]),
    ensures
        read_value(canonical::canonical(Doc::Array(a)) + x) == Some((Doc::Array(a), x)),
    decreases canonical::items_text(a).len() + 2, 0nat,
{
    let s = canonical::canonical(Doc::Array(a)) + x;
    let u = canonical::items_text(a) + seq![']'] + x;
    assert(s[0] == '[');
    assert(s.skip(1) =~= u);
    if a.len() == 0 {
        assert(u[0] == ']');
        assert(u.skip(1) =~= x);
        assert(a =~= Seq::<Doc>::empty());
    } else {
        lemma_items_front(a);
        lemma_first_char(a[0]);
        assert(u[0] == canonical::canonical(a[0])[0]);
        lemma_reads_items(a, x);
    }
}

/// The text of an array's items reads as the items.
proof fn lemma_reads_items(a: Seq<Doc>, x: Seq<char>)
    requires
        a.len() > 0,
        forall|i: int| 0 <= i < a.len() ==> plain(#[trigger] a[i]),
    ensures
        read_items(canonical::items_text(a) + seq![']'] + x) == Some((a, x)),
    decreases canonical::items_text(a).len() + 1, 0nat,
{
    let s = canonical::items_text(a) + seq![']'] + x;
    let u = more_items(a) + seq![']'] + x;
    lemma_items_front(a);
    lemma_first_char(a[0]);
    assert(s =~= canonical::canonical(a[0]) + u);
    lemma_reads_value(a[0], u);
    if a.len() == 1 {
        assert(u[0] == ']');
        assert(u.skip(1) =~= x);
        assert(seq![a[0]] =~= a);
    } else {
        let c = a.skip(1);
        assert(u[0] == ',');
        assert(u.skip(1) =~= canonical::items_text(c) + seq![']'] + x);
        assert forall|i: int| 0 <= i < c.len() implies plain(#[trigger] c[i]) by {
            assert(c[i] == a[i + 1]);
        }
        lemma_reads_items(c, x);
        assert(seq![a[0]] + c =~= a);
    }
}

proof fn lemma_reads_object(m: Map<Seq<char>, Doc>, x: Seq<char>)
    requires
        m.dom().finite(),
        forall|k: Seq<char>| m.dom().contains(k) ==> plain(#[trigger] m[k]),
    ensures
        read_value(canonical::canonical(Doc::Object(m)) + x) == Some((Doc::Object(m), x)),
    decreases canonical::members_text(m, canonical::sorted_keys(m)).len() + 2, 0nat,
{
    let keys = canonical::sorted_keys(m);
    let s = canonical::canonical(Doc::Object(m)) + x;
    let u = canonical::members_text(m, keys) + seq!['}'] + x;
    canonical::lemma_sorted_keys(m.dom());
    assert(s[0] == '{');
    assert(s.skip(1) =~= u);
    assert forall|i: int| 0 <= i < keys.len() implies m.dom().contains(#[trigger] keys[i]) by {
        assert(keys.to_set().contains(keys[i]));
    }
    if keys.len() == 0 {
        assert(u[0] == '}');
        assert(u.skip(1) =~= x);
        assert forall|k: Seq<char>| !m.dom().contains(k) by {
            assert(keys.to_set().contains(k) == keys.contains(k));
        }
        assert(m =~= Map::<Seq<char>, Doc>::empty());
    } else {
        lemma_members_front(m, keys);
        assert(m.dom().contains(keys[0]));
        assert(u[0] == '"');
        lemma_reads_members(m, keys, x);
        assert(m.restrict(keys.to_set()) =~= m);
    }
}

/// The text of one member reads as the member.
proof fn lemma_reads_member(m: Map<Seq<char>, Doc>, key: Seq<char>, x: Seq<char>)
    requires
        m.dom().finite(),
        m.dom().contains(key),
        read_value(canonical::canonical(m[key]) + x) == Some((m[key], x)),
    ensures
        read_member(canonical::member_text(m, key) + x) == Some((key, m[key], x)),
{
    let s = canonical::member_text(m, key) + x;
    let value = seq![':'] + canonical::canonical(m[key]) + x;
    assert(s[0] == '"');
    assert(s.skip(1) =~= canonical::escaped_text(key) + seq!['"'] + value);
    lemma_reads_string(key, value);
    assert(value[0] == ':');
    assert(value.skip(1) =~= canonical::canonical(m[key]) + x);
}

/// The text of an object's members reads as these members.
proof fn lemma_reads_members(m: Map<Seq<char>, Doc>, keys: Seq<Seq<char>>, x: Seq<char>)
    requires
        m.dom().finite(),
        forall|k: Seq<char>| m.dom().contains(k) ==> plain(#[trigger] m[k]),
        keys.len() > 0,
        keys.no_duplicates(),
        forall|i: int| 0 <= i < keys.len() ==> m.dom().contains(#[trigger] keys[i]),
    ensures
        read_members(canonical::members_text(m, keys) + seq!['}'] + x) == Some(
            (m.restrict(keys.to_set()), x),
        ),
    decreases canonical::members_text(m, keys).len() + 1, 0nat,
{
    let s = canonical::members_text(m, keys) + seq!['}'] + x;
    let u = more_members(m, keys) + seq!['}'] + x;
    let key = keys[0];
    lemma_members_front(m, keys);
    assert(m.dom().contains(key));
    assert(plain(m[key]));
    assert(s =~= canonical::member_text(m, key) + u);
    lemma_reads_value(m[key], u);
    lemma_reads_member(m, key, u);
    if keys.len() == 1 {
        assert(u[0] == '}');
        assert(u.skip(1) =~= x);
        assert forall|k: Seq<char>| keys.to_set().contains(k) == (k == key) by {
            assert(keys.to_set().contains(k) == keys.contains(k));
        }
        assert(m.restrict(keys.to_set()) =~= Map::empty().insert(key, m[key]));
    } else {
        let rest = keys.skip(1);
        assert(u[0] == ',');
        assert(u.skip(1) =~= canonical::members_text(m, rest) + seq!['}'] + x);
        lemma_reads_members(m, rest, x);
        let read = m.restrict(rest.to_set());
        assert forall|k: Seq<char>| keys.to_set().contains(k) == (k == key || rest.to_set().contains(
            k,
        )) by {
            if keys.contains(k) && k != key {
                let i = choose|i: int| 0 <= i < keys.len() && keys[i] == k;
                assert(rest[i - 1] == k);
            }
            if rest.contains(k) {
                let i = choose|i: int| 0 <= i < rest.len() && rest[i] == k;
                assert(keys[i + 1] == k);
            }
        }
        assert(!rest.to_set().contains(key)) by {
            if rest.contains(key) {
                let i = choose|i: int| 0 <= i < rest.len() && rest[i] == key;
                assert(keys[i + 1] == keys[0]);
            }
        }
        assert(m.restrict(keys.to_set()) =~= read.insert(key, m[key]));
    }
}

// ---------------------------------------------------------------------------
// Laws

/// Canonical text is JSON, and stands for the document that it was written from.
pub proof fn law_canonical_text_reads_back(doc: Doc)
    requires
        plain(doc),
    ensures
        parsed(canonical::canonical(doc)) == Some(doc),
{
    let none = Seq::<char>::empty();
    assert(canonical::canonical(doc) + none =~= canonical::canonical(doc));
    lemma_reads_value(doc, none);
}

/// Two documents with the same canonical text are the same document.
pub proof fn law_canonical_text_is_unambiguous(a: Doc, b: Doc)
    requires
        plain(a),
        plain(b),
        canonical::canonical(a) == canonical::canonical(b),
    ensures
        a == b,
{
    law_canonical_text_reads_back(a);
    law_canonical_text_reads_back(b);
}

/// The keys of an object are written each once, in ascending order of their bytes.
pub proof fn law_keys_ascend(m: Map<Seq<char>, Doc>)
    requires
        m.dom().finite(),
    ensures
        canonical::sorted_keys(m).to_set() == m.dom(),
        forall|i: int, j: int|
            0 <= i < j < canonical::sorted_keys(m).len() ==> {
                &&& canonical::key_order()(
                    #[trigger] canonical::sorted_keys(m)[i],
                    #[trigger] canonical::sorted_keys(m)[j],
                )
                &&& canonical::sorted_keys(m)[i] != canonical::sorted_keys(m)[j]
            },
{
    canonical::lemma_sorted_keys(m.dom());
}

/// A text without white space.
pub open spec fn dense(s: Seq<char>) -> bool {
    forall|i: int| 0 <= i < s.len() ==> !text::is_white_space(#[trigger] s[i])
}

/// What a JSON text holds outside its strings.
pub open spec fn outside_strings(s: Seq<char>) -> Seq<char>
    decreases s.len(),
{
    if s.len() == 0 {
        s
    } else if s[0] == '"' {
        after_string(s.skip(1))
    } else {
        seq![s[0]] + outside_strings(s.skip(1))
    }
}

/// What a JSON text holds outside its strings, from within a string on.
pub open spec fn after_string(s: Seq<char>) -> Seq<char>
    decreases s.len(),
{
    if s.len() == 0 {
        s
    } else if s[0] == '"' {
        outside_strings(s.skip(1))
    } else if s[0] == '\\' && s.len() >= 2 {
        after_string(s.skip(2))
    } else {
        after_string(s.skip(1))
    }
}

/// The escape of a character ends no string.
proof fn lemma_outside_escape(c: char, x: Seq<char>)
    ensures
        after_string(canonical::escaped(c) + x) == after_string(x),
{
    let e = canonical::escaped(c);
    let s = e + x;
    assert(s[0] == e[0]);
    if e.len() == 1 {
        assert(s.skip(1) =~= x);
    } else {
        let two = s.skip(2);
        assert(after_string(s) == after_string(two));
        if e.len() == 2 {
            assert(two =~= x);
        } else {
            let code = (c as u32) as int;
            assert(0 <= code / 16 < 16 && 0 <= code % 16 < 16);
            let three = two.skip(1);
            let four = three.skip(1);
            let five = four.skip(1);
            assert(two[0] == '0');
            assert(after_string(two) == after_string(three));
            assert(three[0] == '0');
            assert(after_string(three) == after_string(four));
            assert(four[0] == e[4]);
            assert(after_string(four) == after_string(five));
            assert(five[0] == e[5]);
            assert(after_string(five) == after_string(five.skip(1)));
            assert(five.skip(1) =~= x);
        }
    }
}

/// A quoted text adds nothing outside strings.
proof fn lemma_outside_quoted(t: Seq<char>, x: Seq<char>)
    ensures
        after_string(canonical::escaped_text(t) + seq!['"'] + x) == outside_strings(x),
        outside_strings(canonical::quoted(t) + x) == outside_strings(x),
    decreases t.len(),
{
    let all = canonical::escaped_text(t) + seq!['"'] + x;
    if t.len() == 0 {
        assert(all[0] == '"');
        assert(all.skip(1) =~= x);
        assert(after_string(all) == outside_strings(all.skip(1)));
    } else {
        let rest = t.skip(1);
        let tail = canonical::escaped_text(rest) + seq!['"'] + x;
        lemma_escaped_text_front(t);
        assert(all =~= canonical::escaped(t[0]) + tail);
        lemma_outside_quoted(rest, x);
        lemma_outside_escape(t[0], tail);
    }
    let whole = canonical::quoted(t) + x;
    assert(whole[0] == '"');
    assert(whole.skip(1) =~= all);
    assert(outside_strings(whole) == after_string(whole.skip(1)));
}

/// What holds no quote stands outside strings.
proof fn lemma_outside_plain(t: Seq<char>, x: Seq<char>)
    requires
        !t.contains('"'),
    ensures
        outside_strings(t + x) == t + outside_strings(x),
    decreases t.len(),
{
    let s = t + x;
    if t.len() == 0 {
        assert(s =~= x);
        assert(t + outside_strings(x) =~= outside_strings(x));
    } else {
        let rest = t.skip(1);
        assert(s[0] == t[0]);
        assert(t.contains(t[0]));
        assert(s.skip(1) =~= rest + x);
        if rest.contains('"') {
            let i = choose|i: int| 0 <= i < rest.len() && rest[i] == '"';
            assert(t[i + 1] == '"');
        }
        lemma_outside_plain(rest, x);
        assert(seq![t[0]] + (rest + outside_strings(x)) =~= t + outside_strings(x));
    }
}

/// A word without quote or white space adds no white space outside strings.
proof fn lemma_dense_word(t: Seq<char>, x: Seq<char>)
    requires
        !t.contains('"'),
        dense(t),
        dense(outside_strings(x)),
    ensures
        dense(outside_strings(t + x)),
{
    lemma_outside_plain(t, x);
}

/// A value's text adds no white space outside strings.
proof fn lemma_dense_value(doc: Doc, x: Seq<char>)
    requires
        plain(doc),
        dense(outside_strings(x)),
    ensures
        dense(outside_strings(canonical::canonical(doc) + x)),
    decreases canonical::canonical(doc).len(), 0nat,
{
    reveal_strlit("null");
    reveal_strlit("true");
    reveal_strlit("false");
    let s = canonical::canonical(doc) + x;
    match doc {
        Doc::String(t) => lemma_outside_quoted(t, x),
        Doc::Array(a) => {
            let close = seq![']'] + x;
            lemma_dense_word(seq![']'], x);
            lemma_dense_items(a, close);
            lemma_dense_word(seq!['['], canonical::items_text(a) + close);
            assert(s =~= seq!['['] + (canonical::items_text(a) + close));
        },
        Doc::Object(m) => {
            let close = seq!['}'] + x;
            let keys = canonical::sorted_keys(m);
            lemma_dense_word(seq!['}'], x);
            lemma_dense_members(m, keys, close);
            lemma_dense_word(seq!['{'], canonical::members_text(m, keys) + close);
            assert(s =~= seq!['{'] + (canonical::members_text(m, keys) + close));
        },
        _ => lemma_dense_word(canonical::canonical(doc), x),
    }
}

proof fn lemma_dense_items(a: Seq<Doc>, x: Seq<char>)
    requires
        forall|i: int| 0 <= i < a.len() ==> plain(#[trigger] a[i]),
        dense(outside_strings(x)),
    ensures
        dense(outside_strings(canonical::items_text(a) + x)),
    decreases canonical::items_text(a).len() + 1, 0nat,
{
    let s = canonical::items_text(a) + x;
    if a.len() == 0 {
        assert(s =~= x);
    } else {
        lemma_items_front(a);
        lemma_first_char(a[0]);
        let u = more_items(a) + x;
        if a.len() == 1 {
            assert(u =~= x);
        } else {
            let c = a.skip(1);
            assert forall|i: int| 0 <= i < c.len() implies plain(#[trigger] c[i]) by {
                assert(c[i] == a[i + 1]);
            }
            lemma_dense_items(c, x);
            lemma_dense_word(seq![','], canonical::items_text(c) + x);
            assert(u =~= seq![','] + (canonical::items_text(c) + x));
        }
        lemma_dense_value(a[0], u);
        assert(s =~= canonical::canonical(a[0]) + u);
    }
}

proof fn lemma_dense_members(m: Map<Seq<char>, Doc>, keys: Seq<Seq<char>>, x: Seq<char>)
    requires
        m.dom().finite(),
        forall|k: Seq<char>| m.dom().contains(k) ==> plain(#[trigger] m[k]),
        dense(outside_strings(x)),
    ensures
        dense(outside_strings(canonical::members_text(m, keys) + x)),
    decreases canonical::members_text(m, keys).len() + 1, keys.len(),
{
    let s = canonical::members_text(m, keys) + x;
    if keys.len() == 0 {
        assert(s =~= x);
    } else {
        let key = keys[0];
        let u = more_members(m, keys) + x;
        lemma_members_front(m, keys);
        if keys.len() == 1 {
            assert(u =~= x);
        } else {
            let rest = keys.skip(1);
            lemma_dense_members(m, rest, x);
            lemma_dense_word(seq![','], canonical::members_text(m, rest) + x);
            assert(u =~= seq![','] + (canonical::members_text(m, rest) + x));
        }
        if m.dom().contains(key) {
            let value = canonical::canonical(m[key]) + u;
            assert(plain(m[key]));
            lemma_dense_value(m[key], u);
            lemma_dense_word(seq![':'], value);
            lemma_outside_quoted(key, seq![':'] + value);
            assert(s =~= canonical::quoted(key) + (seq![':'] + value));
        } else {
            assert(s =~= u);
        }
    }
}

/// Canonical text holds no white space outside its strings.
pub proof fn law_no_white_space_outside_strings(doc: Doc)
    requires
        plain(doc),
    ensures
        dense(outside_strings(canonical::canonical(doc))),
{
    let none = Seq::<char>::empty();
    assert(canonical::canonical(doc) + none =~= canonical::canonical(doc));
    lemma_dense_value(doc, none);
}

} // verus!
