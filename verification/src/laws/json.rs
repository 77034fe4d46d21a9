//! Laws of JSON documents.

use vstd::prelude::*;

use crate::json;
use crate::json::{Doc, Members, Value};

verus! {

/// What a value stands for: itself, its items in their order, its members by their keys.
pub proof fn law_what_values_stand_for(
    b: bool,
    s: String,
    items: Vec<Value>,
    members: Members,
)
    ensures
        Value::Null@ is Null,
        Value::Bool(b)@ == Doc::Bool(b),
        Value::Number(s)@ == Doc::Number(s@),
        Value::String(s)@ == Doc::String(s@),
        Value::Object(members)@ == Doc::Object(members@),
        Value::Array(items)@ matches Doc::Array(docs) && docs.len() == items@.len() && forall|i:
            int|
            0 <= i < items@.len() ==> #[trigger] docs[i] == items@[i]@,
{
    json::lemma_items_doc(items@);
    let docs = json::items_doc(items@);
    assert forall|i: int| 0 <= i < items@.len() implies #[trigger] docs[i] == items@[i]@ by {
        assert(json::items_doc(items@)[i] == json::value_doc(items@[i]));
    }
}

/// The members of an object are those of its list, each with its value and no others.
pub proof fn law_members_are_those_of_the_list(entries: Seq<(String, Value)>)
    requires
        forall|i: int, j: int|
            0 <= i < j < entries.len() ==> (#[trigger] entries[i]).0@ != (#[trigger] entries[j]).0@,
    ensures
        forall|i: int|
            0 <= i < entries.len() ==> json::entries_doc(entries).dom().contains(
                (#[trigger] entries[i]).0@,
            ) && json::entries_doc(entries)[entries[i].0@] == entries[i].1@,
        forall|k: Seq<char>| #[trigger]
            json::entries_doc(entries).dom().contains(k) ==> exists|i: int|
                0 <= i < entries.len() && (#[trigger] entries[i]).0@ == k,
        json::entries_doc(entries).dom().finite(),
{
    json::lemma_entries_doc(entries);
}

/// Setting a member puts it in its place where there is one with its key, and at the
/// end where there is none. The others stay where they are.
pub proof fn law_setting_a_member(entries: Seq<(String, Value)>, entry: (String, Value), at: int)
    ensures
        (forall|i: int| 0 <= i < entries.len() ==> (#[trigger] entries[i]).0@ != entry.0@)
            ==> json::with_entry(entries, entry) == entries.push(entry),
        0 <= at < entries.len() && entries[at].0@ == entry.0@ && (forall|i: int|
            0 <= i < at ==> (#[trigger] entries[i]).0@ != entry.0@) ==> json::with_entry(
            entries,
            entry,
        ) == entries.update(at, entry),
{
    if forall|i: int| 0 <= i < entries.len() ==> (#[trigger] entries[i]).0@ != entry.0@ {
        json::lemma_key_position(entries, entry.0@, None);
    }
    if 0 <= at < entries.len() && entries[at].0@ == entry.0@ && (forall|i: int|
        0 <= i < at ==> (#[trigger] entries[i]).0@ != entry.0@) {
        json::lemma_key_position(entries, entry.0@, Some(at));
    }
}

/// Taking out a member takes out that one, and leaves all others in their order.
pub proof fn law_taking_out_a_member(entries: Seq<(String, Value)>, key: Seq<char>)
    requires
        forall|i: int, j: int|
            0 <= i < j < entries.len() ==> (#[trigger] entries[i]).0@ != (#[trigger] entries[j]).0@,
    ensures
        json::without_entry(entries, key) == entries.filter(|e: (String, Value)| e.0@ != key),
    decreases entries.len(),
{
    let keeps = |e: (String, Value)| e.0@ != key;
    reveal(Seq::filter);
    if exists|i: int| 0 <= i < entries.len() && (#[trigger] entries[i]).0@ == key {
        let at = choose|i: int| 0 <= i < entries.len() && (#[trigger] entries[i]).0@ == key;
        json::lemma_key_position(entries, key, Some(at));
        let a = entries.take(at);
        let b = entries.skip(at + 1);
        lemma_filter_all(a, keeps);
        lemma_filter_all(b, keeps);
        let one = seq![entries[at]];
        assert(one.drop_last() =~= Seq::<(String, Value)>::empty());
        assert(one.last() == entries[at]);
        assert(one.drop_last().filter(keeps) =~= Seq::<(String, Value)>::empty());
        assert(!keeps(one.last()));
        assert(one.filter(keeps) =~= Seq::<(String, Value)>::empty());
        Seq::filter_distributes_over_add(a, one, keeps);
        Seq::filter_distributes_over_add(a + one, b, keeps);
        assert(entries =~= a + one + b);
        assert(entries.remove(at) =~= a + b);
        assert(a + Seq::<(String, Value)>::empty() + b =~= a + b);
    } else {
        json::lemma_key_position(entries, key, None);
        lemma_filter_all(entries, keeps);
    }
}

/// A filter that keeps every item keeps the list.
proof fn lemma_filter_all(s: Seq<(String, Value)>, keeps: spec_fn((String, Value)) -> bool)
    requires
        forall|i: int| 0 <= i < s.len() ==> keeps(#[trigger] s[i]),
    ensures
        s.filter(keeps) == s,
    decreases s.len(),
{
    reveal(Seq::filter);
    if s.len() > 0 {
        lemma_filter_all(s.drop_last(), keeps);
        assert(keeps(s[s.len() - 1]));
        assert(s.drop_last().push(s.last()) =~= s);
    } else {
        assert(s.filter(keeps) =~= s);
    }
}

/// Looking up a key finds what an object has there, and nothing in what is no object.
pub proof fn law_looking_up_a_key(m: Map<Seq<char>, Doc>, doc: Doc, key: Seq<char>)
    ensures
        m.dom().contains(key) ==> json::member(Doc::Object(m), key) == Some(m[key]),
        !m.dom().contains(key) ==> json::member(Doc::Object(m), key) is None,
        !(doc is Object) ==> json::member(doc, key) is None,
{
}

/// Looking up a key in a list finds the value of the entry with that key.
pub proof fn law_looking_up_an_entry(m: Members, entries: Seq<(String, Value)>, key: Seq<char>, at: int)
    ensures
        json::value_member(Value::Object(m), key) == json::entry_value(json::members_list(m), key),
        0 <= at < entries.len() && entries[at].0@ == key && (forall|i: int|
            0 <= i < at ==> (#[trigger] entries[i]).0@ != key) ==> json::entry_value(entries, key)
            == Some(entries[at].1),
        (forall|i: int| 0 <= i < entries.len() ==> (#[trigger] entries[i]).0@ != key)
            ==> json::entry_value(entries, key) is None,
{
    if 0 <= at < entries.len() && entries[at].0@ == key && (forall|i: int|
        0 <= i < at ==> (#[trigger] entries[i]).0@ != key) {
        json::lemma_key_position(entries, key, Some(at));
    }
    if forall|i: int| 0 <= i < entries.len() ==> (#[trigger] entries[i]).0@ != key {
        json::lemma_key_position(entries, key, None);
    }
}

/// Only strings have a text, and only booleans a truth.
pub proof fn law_texts_and_truths(doc: Doc, s: Seq<char>, b: bool)
    ensures
        json::string_of(Some(Doc::String(s))) == Some(s),
        !(doc is String) ==> json::string_of(Some(doc)) is None,
        json::string_of(None) is None,
        json::bool_of(Some(Doc::Bool(b))) == Some(b),
        !(doc is Bool) ==> json::bool_of(Some(doc)) is None,
        json::bool_of(None) is None,
{
}

} // verus!
