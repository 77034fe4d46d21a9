//! Canonical JSON: the bytes that a signature over a document covers.
//!
//! Object keys are sorted at every level, byte-wise on UTF-8. There is no white
//! space between tokens. Numbers keep their text. The encoding is UTF-8.

use vstd::prelude::*;
use vstd::relations;
use vstd::utf8;

use crate::json;
use crate::json::{Doc, Members, Value};
use crate::text;
use crate::text::{hex_char, same_text, to_chars};

verus! {

// ---------------------------------------------------------------------------
// The canonical text of a document

/// How a character stands within a quoted string.
pub open spec fn escaped(c: char) -> Seq<char> {
    if c == '"' {
        seq!['\\', '"']
    } else if c == '\\' {
        seq!['\\', '\\']
    } else if c == '\n' {
        seq!['\\', 'n']
    } else if c == '\r' {
        seq!['\\', 'r']
    } else if c == '\t' {
        seq!['\\', 't']
    } else if c == '\u{8}' {
        seq!['\\', 'b']
    } else if c == '\u{c}' {
        seq!['\\', 'f']
    } else if (c as u32) < 0x20 {
        seq![
            '\\',
            'u',
            '0',
            '0',
            text::hex_digit((c as u32) as int / 16),
            text::hex_digit((c as u32) as int % 16),
        ]
    } else {
        seq![c]
    }
}

/// How a text stands within a quoted string.
pub open spec fn escaped_text(s: Seq<char>) -> Seq<char>
    decreases s.len(),
{
    if s.len() == 0 {
        Seq::empty()
    } else {
        escaped_text(s.drop_last()) + escaped(s.last())
    }
}

/// A text as a JSON string.
pub open spec fn quoted(s: Seq<char>) -> Seq<char> {
    seq!['"'] + escaped_text(s) + seq!['"']
}

/// `a` comes before `b`, or is `b`, in the lexicographic order of bytes.
pub open spec fn bytes_le(a: Seq<u8>, b: Seq<u8>) -> bool
    decreases a.len(),
{
    if a.len() == 0 {
        true
    } else if b.len() == 0 {
        false
    } else if a[0] != b[0] {
        a[0] < b[0]
    } else {
        bytes_le(a.skip(1), b.skip(1))
    }
}

/// The order of keys: byte-wise on their UTF-8 encodings.
pub open spec fn key_order() -> spec_fn(Seq<char>, Seq<char>) -> bool {
    |a: Seq<char>, b: Seq<char>| bytes_le(utf8::encode_utf8(a), utf8::encode_utf8(b))
}

/// The keys of an object in their order.
pub open spec fn sorted_keys(m: Map<Seq<char>, Doc>) -> Seq<Seq<char>> {
    m.dom().to_sorted_seq(key_order())
}

/// The canonical text of a document.
pub open spec fn canonical(doc: Doc) -> Seq<char>
    decreases doc, 0nat,
{
    match doc {
        Doc::Null => "null"@,
        Doc::Bool(b) => if b {
            "true"@
        } else {
            "false"@
        },
        Doc::Number(n) => n,
        Doc::String(s) => quoted(s),
        Doc::Array(a) => seq!['['] + items_text(a) + seq![']'],
        Doc::Object(m) => seq!['{'] + members_text(m, sorted_keys(m)) + seq!['}'],
    }
}

/// The items of an array, with commas between them.
pub open spec fn items_text(items: Seq<Doc>) -> Seq<char>
    decreases items, 0nat,
{
    if items.len() == 0 {
        Seq::empty()
    } else if items.len() == 1 {
        canonical(items[0])
    } else {
        items_text(items.drop_last()) + seq![','] + canonical(items.last())
    }
}

/// The members of an object with the given keys, with commas between them.
pub open spec fn members_text(m: Map<Seq<char>, Doc>, keys: Seq<Seq<char>>) -> Seq<char>
    decreases m, keys.len(),
{
    if keys.len() == 0 {
        Seq::empty()
    } else if keys.len() == 1 {
        member_text(m, keys[0])
    } else {
        members_text(m, keys.drop_last()) + seq![','] + member_text(m, keys.last())
    }
}

/// One member of an object: its key and its value.
pub open spec fn member_text(m: Map<Seq<char>, Doc>, key: Seq<char>) -> Seq<char>
    decreases m, 0nat,
{
    if m.dom().finite() && m.dom().contains(key) {
        quoted(key) + seq![':'] + canonical(m[key])
    } else {
        Seq::empty()
    }
}

// ---------------------------------------------------------------------------
// The order of keys

proof fn lemma_bytes_le_reflexive(a: Seq<u8>)
    ensures
        bytes_le(a, a),
    decreases a.len(),
{
    if a.len() > 0 {
        lemma_bytes_le_reflexive(a.skip(1));
    }
}

proof fn lemma_bytes_le_antisymmetric(a: Seq<u8>, b: Seq<u8>)
    requires
        bytes_le(a, b),
        bytes_le(b, a),
    ensures
        a == b,
    decreases a.len(),
{
    if a.len() > 0 {
        lemma_bytes_le_antisymmetric(a.skip(1), b.skip(1));
        assert(a =~= seq![a[0]] + a.skip(1));
        assert(b =~= seq![b[0]] + b.skip(1));
    } else {
        assert(a =~= b);
    }
}

proof fn lemma_bytes_le_transitive(a: Seq<u8>, b: Seq<u8>, c: Seq<u8>)
    requires
        bytes_le(a, b),
        bytes_le(b, c),
    ensures
        bytes_le(a, c),
    decreases a.len(),
{
    if a.len() > 0 && b.len() > 0 && c.len() > 0 && a[0] == b[0] && b[0] == c[0] {
        lemma_bytes_le_transitive(a.skip(1), b.skip(1), c.skip(1));
    }
}

proof fn lemma_bytes_le_total(a: Seq<u8>, b: Seq<u8>)
    ensures
        bytes_le(a, b) || bytes_le(b, a),
    decreases a.len(),
{
    if a.len() > 0 && b.len() > 0 && a[0] == b[0] {
        lemma_bytes_le_total(a.skip(1), b.skip(1));
    }
}

/// Texts with the same UTF-8 encoding are the same.
pub proof fn lemma_encode_injective(a: Seq<char>, b: Seq<char>)
    requires
        utf8::encode_utf8(a) == utf8::encode_utf8(b),
    ensures
        a == b,
{
    utf8::encode_utf8_decode_utf8(a);
    utf8::encode_utf8_decode_utf8(b);
}

/// The UTF-8 encoding of two texts in a row.
pub proof fn lemma_encode_concat(a: Seq<char>, b: Seq<char>)
    ensures
        utf8::encode_utf8(a + b) == utf8::encode_utf8(a) + utf8::encode_utf8(b),
    decreases a.len(),
{
    if a.len() == 0 {
        assert(a + b =~= b);
        assert(utf8::encode_utf8(a) + utf8::encode_utf8(b) =~= utf8::encode_utf8(b));
    } else {
        lemma_encode_concat(a.drop_first(), b);
        assert((a + b).drop_first() =~= a.drop_first() + b);
        assert((a + b)[0] == a[0]);
        assert(utf8::encode_utf8(a + b) =~= utf8::encode_utf8(a) + utf8::encode_utf8(b));
    }
}

/// The order of keys is a total order.
pub proof fn lemma_key_order()
    ensures
        relations::total_ordering(key_order()),
{
    let le = key_order();
    assert forall|a: Seq<char>| #[trigger] le(a, a) by {
        lemma_bytes_le_reflexive(utf8::encode_utf8(a));
    }
    assert forall|a: Seq<char>, b: Seq<char>| #[trigger] le(a, b) && #[trigger] le(b, a) implies a
        == b by {
        lemma_bytes_le_antisymmetric(utf8::encode_utf8(a), utf8::encode_utf8(b));
        lemma_encode_injective(a, b);
    }
    assert forall|a: Seq<char>, b: Seq<char>, c: Seq<char>| #[trigger]
        le(a, b) && #[trigger] le(b, c) implies le(a, c) by {
        lemma_bytes_le_transitive(utf8::encode_utf8(a), utf8::encode_utf8(b), utf8::encode_utf8(c));
    }
    assert forall|a: Seq<char>, b: Seq<char>| #[trigger] le(a, b) || #[trigger] le(b, a) by {
        lemma_bytes_le_total(utf8::encode_utf8(a), utf8::encode_utf8(b));
    }
    assert(relations::reflexive(le));
    assert(relations::antisymmetric(le));
    assert(relations::transitive(le));
    assert(relations::strongly_connected(le));
}

/// The only sorted list that holds each member of a set once is the sorted list of the set.
pub proof fn lemma_sorted_list(s: Set<Seq<char>>, list: Seq<Seq<char>>)
    requires
        s.finite(),
        list.no_duplicates(),
        relations::sorted_by(list, key_order()),
        list.to_set() == s,
    ensures
        list == s.to_sorted_seq(key_order()),
{
    broadcast use vstd::multiset::group_multiset_axioms;
    broadcast use vstd::seq_lib::group_to_multiset_ensures;

    let le = key_order();
    let other = s.to_seq();
    lemma_key_order();
    lemma_to_seq(s);
    other.lemma_sort_by_ensures(le);
    list.lemma_multiset_has_no_duplicates();
    other.lemma_multiset_has_no_duplicates();
    assert forall|x: Seq<char>| list.to_multiset().count(x) == other.to_multiset().count(x) by {
        assert(list.contains(x) <==> s.contains(x)) by {
            assert(list.to_set().contains(x) == list.contains(x));
        }
        assert(other.contains(x) <==> s.contains(x)) by {
            assert(other.to_set().contains(x) == other.contains(x));
        }
    }
    assert(list.to_multiset() =~= other.to_multiset());
    vstd::seq_lib::lemma_sorted_unique(list, other.sort_by(le), le);
}

/// The list of a set holds each of its members once.
proof fn lemma_to_seq(s: Set<Seq<char>>)
    requires
        s.finite(),
    ensures
        s.to_seq().no_duplicates(),
        s.to_seq().to_set() == s,
    decreases s.len(),
{
    s.lemma_to_seq_to_set_id();
    if s.len() > 0 {
        let x = s.choose();
        assert(s.contains(x)) by {
            vstd::set::axiom_set_choose_len(s);
        }
        let rest = s.remove(x);
        lemma_to_seq(rest);
        assert(!rest.to_seq().contains(x)) by {
            assert(rest.to_seq().to_set().contains(x) == rest.to_seq().contains(x));
        }
        assert(s.to_seq() =~= seq![x] + rest.to_seq());
    }
}

// ---------------------------------------------------------------------------
// Writing

/// Appends the UTF-8 encoding of `s` to `out`.
fn write_text(s: &str, out: &mut Vec<u8>)
    ensures
        final(out)@ == old(out)@ + utf8::encode_utf8(s@),
{
    out.extend_from_slice(s.as_bytes());
}

/// Appends the JSON string for `s` to `out`.
pub fn write_canonical_string(s: &str, out: &mut Vec<u8>)
    ensures
        final(out)@ == old(out)@ + utf8::encode_utf8(quoted(s@)),
{
    let chars = to_chars(s);
    let mut quote = String::new();
    quote.push('"');
    assert(quote@ =~= seq!['"'] + escaped_text(s@.take(0)));
    for i in 0..chars.len()
        invariant
            chars@ == s@,
            quote@ == seq!['"'] + escaped_text(s@.take(i as int)),
    {
        let c = chars[i];
        let ghost before = quote@;
        if c == '"' {
            quote.push('\\');
            quote.push('"');
        } else if c == '\\' {
            quote.push('\\');
            quote.push('\\');
        } else if c == '\n' {
            quote.push('\\');
            quote.push('n');
        } else if c == '\r' {
            quote.push('\\');
            quote.push('r');
        } else if c == '\t' {
            quote.push('\\');
            quote.push('t');
        } else if c == '\u{8}' {
            quote.push('\\');
            quote.push('b');
        } else if c == '\u{c}' {
            quote.push('\\');
            quote.push('f');
        } else if (c as u32) < 0x20 {
            let code: u8 = (c as u32) as u8;
            quote.push('\\');
            quote.push('u');
            quote.push('0');
            quote.push('0');
            quote.push(hex_char(code / 16));
            quote.push(hex_char(code % 16));
        } else {
            quote.push(c);
        }
        proof {
            assert(quote@ =~= before + escaped(c));
            assert(s@.take(i + 1).drop_last() =~= s@.take(i as int));
            assert(s@.take(i + 1).last() == c);
            assert(before + escaped(c) =~= seq!['"'] + escaped_text(s@.take(i + 1)));
        }
    }
    assert(s@.take(s@.len() as int) =~= s@);
    quote.push('"');
    assert(quote@ =~= quoted(s@));
    write_text(quote.as_str(), out);
}

/// Whether the key `a` comes before `b`, or is `b`, in the order of keys.
fn key_at_most(a: &str, b: &str) -> (yes: bool)
    ensures
        yes == key_order()(a@, b@),
{
    let x = a.as_bytes();
    let y = b.as_bytes();
    let mut i: usize = 0;
    assert(x@.skip(0) =~= x@);
    assert(y@.skip(0) =~= y@);
    while i < x.len() && i < y.len()
        invariant
            i <= x@.len(),
            i <= y@.len(),
            x@ == utf8::encode_utf8(a@),
            y@ == utf8::encode_utf8(b@),
            bytes_le(x@, y@) == bytes_le(x@.skip(i as int), y@.skip(i as int)),
        decreases x@.len() - i,
    {
        if x[i] != y[i] {
            return x[i] < y[i];
        }
        assert(x@.skip(i as int).skip(1) =~= x@.skip(i + 1));
        assert(y@.skip(i as int).skip(1) =~= y@.skip(i + 1));
        i += 1;
    }
    i == x.len()
}

/// The keys of the entries that `order` points to.
spec fn keys_at(entries: Seq<(String, Value)>, order: Seq<usize>) -> Seq<Seq<char>> {
    order.map_values(|k: usize| entries[k as int].0@)
}

/// `order` points to each of the first `n` entries whose key is not `omit`, once, in key order.
spec fn ordered_up_to(
    entries: Seq<(String, Value)>,
    omit: Option<Seq<char>>,
    order: Seq<usize>,
    n: int,
) -> bool {
    &&& forall|p: int| 0 <= p < order.len() ==> (#[trigger] order[p]) < n
    &&& forall|p: int|
        0 <= p < order.len() ==> omit != Some(entries[(#[trigger] order[p]) as int].0@)
    &&& order.no_duplicates()
    &&& forall|j: int|
        0 <= j < n && omit != Some((#[trigger] entries[j]).0@) ==> order.contains(j as usize)
    &&& relations::sorted_by(keys_at(entries, order), key_order())
}

/// Putting the next entry at its place keeps the order.
proof fn lemma_insert_in_order(
    entries: Seq<(String, Value)>,
    omit: Option<Seq<char>>,
    order: Seq<usize>,
    i: usize,
    at: int,
)
    requires
        i < entries.len(),
        ordered_up_to(entries, omit, order, i as int),
        omit != Some(entries[i as int].0@),
        0 <= at <= order.len(),
        forall|q: int|
            0 <= q < at ==> key_order()(entries[(#[trigger] order[q]) as int].0@, entries[i as int].0@),
        at < order.len() ==> !key_order()(entries[order[at] as int].0@, entries[i as int].0@),
    ensures
        ordered_up_to(entries, omit, order.insert(at, i), i + 1),
{
    let le = key_order();
    let longer = order.insert(at, i);
    let keys = keys_at(entries, order);
    let new_keys = keys_at(entries, longer);
    let key = entries[i as int].0@;
    lemma_key_order();
    assert forall|j: int|
        0 <= j < i + 1 && omit != Some((#[trigger] entries[j]).0@) implies longer.contains(
        j as usize,
    ) by {
        if j == i {
            assert(longer[at] == i);
        } else {
            let p = choose|p: int| 0 <= p < order.len() && order[p] == j as usize;
            if p < at {
                assert(longer[p] == j as usize);
            } else {
                assert(longer[p + 1] == j as usize);
            }
        }
    }
    assert forall|p: int| 0 <= p < longer.len() implies #[trigger] longer[p] == (if p < at {
        order[p]
    } else if p == at {
        i
    } else {
        order[p - 1]
    }) by {}
    assert(longer.no_duplicates()) by {
        assert forall|a: int, b: int| 0 <= a < longer.len() && 0 <= b < longer.len() && a
            != b implies longer[a] != longer[b] by {}
    }
    assert forall|q: int| at <= q < order.len() implies le(key, #[trigger] keys[q]) by {
        assert(le(keys[at], key) || le(key, keys[at]));
        if q > at {
            assert(le(keys[at], keys[q]));
        }
    }
    assert forall|q: int| 0 <= q < at implies le(#[trigger] keys[q], key) by {
        assert(le(entries[order[q] as int].0@, key));
    }
    assert forall|a: int, b: int| 0 <= a < b < new_keys.len() implies #[trigger] le(
        new_keys[a],
        new_keys[b],
    ) by {
        let x = if a < at {
            keys[a]
        } else if a == at {
            key
        } else {
            keys[a - 1]
        };
        let y = if b < at {
            keys[b]
        } else if b == at {
            key
        } else {
            keys[b - 1]
        };
        assert(new_keys[a] == x && new_keys[b] == y);
        if a < at && b > at {
            assert(le(keys[a], keys[b - 1]));
        } else if a < at && b < at {
            assert(le(keys[a], keys[b]));
        } else if a > at {
            assert(le(keys[a - 1], keys[b - 1]));
        }
    }
}

/// The keys of an object that are written: all but `omit`.
pub open spec fn kept_keys(m: Map<Seq<char>, Doc>, omit: Option<Seq<char>>) -> Set<Seq<char>> {
    match omit {
        Some(k) => m.dom().remove(k),
        None => m.dom(),
    }
}

/// The entries whose key is not `omit`, by position, in key order.
fn entry_order(entries: &Vec<(String, Value)>, omit: Option<&str>) -> (order: Vec<usize>)
    requires
        json::distinct_keys(entries@),
    ensures
        forall|p: int| 0 <= p < order@.len() ==> (#[trigger] order@[p]) < entries@.len(),
        keys_at(entries@, order@) == kept_keys(
            json::entries_doc(entries@),
            text::option_view(omit),
        ).to_sorted_seq(key_order()),
{
    let ghost gone = text::option_view(omit);
    let mut order: Vec<usize> = Vec::new();
    for i in 0..entries.len()
        invariant
            gone == text::option_view(omit),
            ordered_up_to(entries@, gone, order@, i as int),
    {
        let key = entries[i].0.as_str();
        let skip = match omit {
            Some(k) => same_text(k, key),
            None => false,
        };
        if !skip {
            let mut at: usize = 0;
            while at < order.len() && key_at_most(entries[order[at]].0.as_str(), key)
                invariant
                    i < entries@.len(),
                    key@ == entries@[i as int].0@,
                    at <= order@.len(),
                    ordered_up_to(entries@, gone, order@, i as int),
                    forall|q: int|
                        0 <= q < at ==> key_order()(
                            entries@[(#[trigger] order@[q]) as int].0@,
                            key@,
                        ),
                decreases order@.len() - at,
            {
                at += 1;
            }
            proof {
                lemma_insert_in_order(entries@, gone, order@, i, at as int);
            }
            order.insert(at, i);
        }
    }
    proof {
        let m = json::entries_doc(entries@);
        let keys = keys_at(entries@, order@);
        let kept = kept_keys(m, gone);
        json::lemma_entries_doc(entries@);
        assert forall|k: Seq<char>| keys.to_set().contains(k) == kept.contains(k) by {
            if keys.contains(k) {
                let p = choose|p: int| 0 <= p < keys.len() && keys[p] == k;
                assert(entries@[order@[p] as int].0@ == k);
            }
            if kept.contains(k) {
                let j = choose|j: int| 0 <= j < entries@.len() && (#[trigger] entries@[j]).0@ == k;
                assert(order@.contains(j as usize));
                let p = choose|p: int| 0 <= p < order@.len() && order@[p] == j as usize;
                assert(keys[p] == k);
            }
        }
        assert(keys.to_set() =~= kept);
        assert forall|a: int, b: int| 0 <= a < keys.len() && 0 <= b < keys.len() && a
            != b implies keys[a] != keys[b] by {
            assert(order@[a] != order@[b]);
            if order@[a] < order@[b] {
                assert(entries@[order@[a] as int].0@ != entries@[order@[b] as int].0@);
            } else {
                assert(entries@[order@[b] as int].0@ != entries@[order@[a] as int].0@);
            }
        }
        lemma_sorted_list(kept, keys);
    }
    order
}

/// Appends the UTF-8 encoding of `c` to `out`.
fn write_char(c: char, out: &mut Vec<u8>)
    ensures
        final(out)@ == old(out)@ + utf8::encode_utf8(seq![c]),
{
    let mut one = String::new();
    one.push(c);
    assert(one@ =~= seq![c]);
    write_text(one.as_str(), out);
}

/// The text of an object without the member `omit`.
pub open spec fn object_text(m: Map<Seq<char>, Doc>, omit: Option<Seq<char>>) -> Seq<char> {
    seq!['{'] + members_text(m, kept_keys(m, omit).to_sorted_seq(key_order())) + seq!['}']
}

/// Appends the canonical form of a value to `out`.
pub fn write_canonical(v: &Value, out: &mut Vec<u8>)
    ensures
        final(out)@ == old(out)@ + utf8::encode_utf8(canonical(v@)),
    decreases v, 1nat,
{
    match v {
        Value::Null => write_text("null", out),
        Value::Bool(b) => {
            if *b {
                write_text("true", out)
            } else {
                write_text("false", out)
            }
        },
        Value::Number(n) => write_text(n.as_str(), out),
        Value::String(s) => write_canonical_string(s.as_str(), out),
        Value::Array(items) => write_array(items, out),
        Value::Object(m) => write_object(m, None, out),
    }
}

/// Appends the canonical form of an array to `out`.
fn write_array(items: &Vec<Value>, out: &mut Vec<u8>)
    ensures
        final(out)@ == old(out)@ + utf8::encode_utf8(
            canonical(Doc::Array(json::items_doc(items@))),
        ),
    decreases items, 0nat,
{
    let ghost start = out@;
    let ghost docs = json::items_doc(items@);
    proof {
        json::lemma_items_doc(items@);
    }
    write_char('[', out);
    let ghost mut written = seq!['['];
    assert(written =~= seq!['['] + items_text(docs.take(0)));
    for i in 0..items.len()
        invariant
            docs == json::items_doc(items@),
            docs.len() == items@.len(),
            forall|j: int|
                0 <= j < items@.len() ==> #[trigger] docs[j] == json::value_doc(items@[j]),
            out@ == start + utf8::encode_utf8(written),
            written == seq!['['] + items_text(docs.take(i as int)),
    {
        let ghost before = written;
        if i > 0 {
            write_char(',', out);
            proof {
                lemma_encode_concat(written, seq![',']);
                written = written + seq![','];
                assert(out@ =~= start + utf8::encode_utf8(written));
            }
        }
        write_canonical(&items[i], out);
        proof {
            let piece = canonical(docs[i as int]);
            lemma_encode_concat(written, piece);
            written = written + piece;
            assert(out@ =~= start + utf8::encode_utf8(written));
            assert(docs.take(i + 1).drop_last() =~= docs.take(i as int));
            assert(docs.take(i + 1).last() == docs[i as int]);
            if i == 0 {
                assert(docs.take(0) =~= Seq::<Doc>::empty());
            }
            assert(written =~= seq!['['] + items_text(docs.take(i + 1)));
        }
    }
    write_char(']', out);
    proof {
        lemma_encode_concat(written, seq![']']);
        assert(docs.take(docs.len() as int) =~= docs);
        assert(out@ =~= start + utf8::encode_utf8(written + seq![']']));
    }
}

/// Appends the canonical form of an object without the member `omit` to `out`.
pub(crate) fn write_object(m: &Members, omit: Option<&str>, out: &mut Vec<u8>)
    ensures
        final(out)@ == old(out)@ + utf8::encode_utf8(object_text(m@, text::option_view(omit))),
        omit is None ==> object_text(m@, text::option_view(omit)) == canonical(Doc::Object(m@)),
    decreases m, 0nat,
{
    let ghost start = out@;
    let entries = m.entries();
    let order = entry_order(entries, omit);
    let ghost keys = keys_at(entries@, order@);
    proof {
        json::lemma_entries_doc(entries@);
    }
    write_char('{', out);
    let ghost mut written = seq!['{'];
    assert(written =~= seq!['{'] + members_text(m@, keys.take(0)));
    for p in 0..order.len()
        invariant
            m@ == json::entries_doc(entries@),
            m@.dom().finite(),
            json::distinct_keys(entries@),
            forall|q: int| 0 <= q < order@.len() ==> (#[trigger] order@[q]) < entries@.len(),
            keys == keys_at(entries@, order@),
            out@ == start + utf8::encode_utf8(written),
            written == seq!['{'] + members_text(m@, keys.take(p as int)),
            forall|j: int| 0 <= j < entries@.len() ==> (#[trigger] decreases_to!(m => entries@[j].1)),
    {
        let k: usize = order[p];
        let ghost entry = entries@[k as int];
        proof {
            json::lemma_entries_doc(entries@);
            assert(m@.dom().contains(entry.0@));
            assert(keys[p as int] == entry.0@);
        }
        if p > 0 {
            write_char(',', out);
            proof {
                lemma_encode_concat(written, seq![',']);
                written = written + seq![','];
                assert(out@ =~= start + utf8::encode_utf8(written));
            }
        }
        write_canonical_string(entries[k].0.as_str(), out);
        proof {
            lemma_encode_concat(written, quoted(entry.0@));
            written = written + quoted(entry.0@);
            assert(out@ =~= start + utf8::encode_utf8(written));
        }
        write_char(':', out);
        proof {
            lemma_encode_concat(written, seq![':']);
            written = written + seq![':'];
            assert(out@ =~= start + utf8::encode_utf8(written));
        }
        write_canonical(&entries[k].1, out);
        proof {
            let piece = canonical(json::value_doc(entry.1));
            lemma_encode_concat(written, piece);
            written = written + piece;
            assert(out@ =~= start + utf8::encode_utf8(written));
            assert(keys.take(p + 1).drop_last() =~= keys.take(p as int));
            assert(keys.take(p + 1).last() == entry.0@);
            assert(member_text(m@, entry.0@) == quoted(entry.0@) + seq![':'] + piece);
            if p == 0 {
                assert(keys.take(0) =~= Seq::<Seq<char>>::empty());
            }
            assert(written =~= seq!['{'] + members_text(m@, keys.take(p + 1)));
        }
    }
    write_char('}', out);
    proof {
        lemma_encode_concat(written, seq!['}']);
        assert(keys.take(keys.len() as int) =~= keys);
        assert(out@ =~= start + utf8::encode_utf8(written + seq!['}']));
    }
}

/// Members that are not asked for play no part in the text of those that are.
pub proof fn lemma_members_without(m: Map<Seq<char>, Doc>, keys: Seq<Seq<char>>, gone: Seq<char>)
    requires
        m.dom().finite(),
        !keys.contains(gone),
    ensures
        members_text(m, keys) == members_text(m.remove(gone), keys),
    decreases keys.len(),
{
    if keys.len() > 0 {
        let last = keys.last();
        assert(keys[keys.len() - 1] == last);
        assert(last != gone);
        assert(member_text(m, last) == member_text(m.remove(gone), last));
        assert(!keys.drop_last().contains(gone)) by {
            if keys.drop_last().contains(gone) {
                let i = choose|i: int| 0 <= i < keys.len() - 1 && keys.drop_last()[i] == gone;
                assert(keys[i] == gone);
            }
        }
        lemma_members_without(m, keys.drop_last(), gone);
        assert(keys.len() == 1 ==> keys[0] == last);
    }
}

/// Leaving a member out of the text is the same as taking it out of the object.
pub proof fn lemma_object_without(m: Map<Seq<char>, Doc>, gone: Seq<char>)
    requires
        m.dom().finite(),
    ensures
        object_text(m, Some(gone)) == canonical(Doc::Object(m.remove(gone))),
{
    let kept = m.dom().remove(gone);
    let keys = kept.to_sorted_seq(key_order());
    assert(m.remove(gone).dom() =~= kept);
    lemma_sorted_keys(kept);
    assert(!keys.contains(gone)) by {
        assert(keys.to_set().contains(gone) == keys.contains(gone));
    }
    lemma_members_without(m, keys, gone);
}

/// The sorted list of a set is sorted and holds each of its members once.
pub proof fn lemma_sorted_keys(s: Set<Seq<char>>)
    requires
        s.finite(),
    ensures
        s.to_sorted_seq(key_order()).no_duplicates(),
        s.to_sorted_seq(key_order()).to_set() == s,
        relations::sorted_by(s.to_sorted_seq(key_order()), key_order()),
{
    broadcast use vstd::multiset::group_multiset_axioms;
    broadcast use vstd::seq_lib::group_to_multiset_ensures;

    let le = key_order();
    let list = s.to_seq();
    let keys = list.sort_by(le);
    lemma_key_order();
    lemma_to_seq(s);
    list.lemma_sort_by_ensures(le);
    list.lemma_multiset_has_no_duplicates();
    keys.lemma_multiset_has_no_duplicates_conv();
    assert forall|x: Seq<char>| keys.to_set().contains(x) == s.contains(x) by {
        assert(keys.contains(x) == keys.to_multiset().contains(x));
        assert(list.contains(x) == list.to_multiset().contains(x));
        assert(list.to_set().contains(x) == list.contains(x));
    }
    assert(keys.to_set() =~= s);
}

} // verus!
