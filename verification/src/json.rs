//! JSON documents.

use vstd::prelude::*;

use crate::text::same_text;

verus! {

/// A JSON value. A number is kept as the text that stands for it.
#[derive(Debug)]
pub enum Value {
    Null,
    Bool(bool),
    Number(String),
    String(String),
    Array(Vec<Value>),
    Object(Members),
}

/// The members of a JSON object, in document order and each key once.
#[derive(Debug)]
pub struct Members {
    pub(crate) entries: Vec<(String, Value)>,
}

/// What a JSON value stands for: the order of an object's members is no part of it.
pub enum Doc {
    Null,
    Bool(bool),
    Number(Seq<char>),
    String(Seq<char>),
    Array(Seq<Doc>),
    Object(Map<Seq<char>, Doc>),
}

/// What a value stands for.
pub open spec fn value_doc(v: Value) -> Doc
    decreases v,
{
    match v {
        Value::Null => Doc::Null,
        Value::Bool(b) => Doc::Bool(b),
        Value::Number(n) => Doc::Number(n@),
        Value::String(s) => Doc::String(s@),
        Value::Array(a) => Doc::Array(items_doc(a@)),
        Value::Object(m) => Doc::Object(members_doc(m)),
    }
}

/// What the items of an array stand for.
pub open spec fn items_doc(items: Seq<Value>) -> Seq<Doc>
    decreases items,
{
    if items.len() == 0 {
        Seq::empty()
    } else {
        items_doc(items.drop_last()).push(value_doc(items.last()))
    }
}

/// What the members of an object stand for.
pub closed spec fn members_doc(m: Members) -> Map<Seq<char>, Doc>
    decreases m,
{
    entries_doc(m.entries@)
}

/// The map that a list of entries stands for.
pub open spec fn entries_doc(entries: Seq<(String, Value)>) -> Map<Seq<char>, Doc>
    decreases entries,
{
    if entries.len() == 0 {
        Map::empty()
    } else {
        entries_doc(entries.drop_last()).insert(entries.last().0@, value_doc(entries.last().1))
    }
}

/// The members of an object in document order.
pub closed spec fn members_list(m: Members) -> Seq<(String, Value)> {
    m.entries@
}

/// The position of the first entry with this key.
pub open spec fn key_position(entries: Seq<(String, Value)>, key: Seq<char>) -> Option<int>
    decreases entries.len(),
{
    if entries.len() == 0 {
        None
    } else if entries[0].0@ == key {
        Some(0)
    } else {
        match key_position(entries.skip(1), key) {
            Some(i) => Some(i + 1),
            None => None,
        }
    }
}

/// `entry` in the place of the entry with its key, or at the end where there is none.
pub open spec fn with_entry(entries: Seq<(String, Value)>, entry: (String, Value)) -> Seq<
    (String, Value),
> {
    match key_position(entries, entry.0@) {
        Some(i) => entries.update(i, entry),
        None => entries.push(entry),
    }
}

/// The entries without the one with this key, the others in their order.
pub open spec fn without_entry(entries: Seq<(String, Value)>, key: Seq<char>) -> Seq<
    (String, Value),
> {
    match key_position(entries, key) {
        Some(i) => entries.remove(i),
        None => entries,
    }
}

/// [`key_position`] is the first place of the key.
pub proof fn lemma_key_position(entries: Seq<(String, Value)>, key: Seq<char>, at: Option<int>)
    requires
        match at {
            Some(i) => 0 <= i < entries.len() && entries[i].0@ == key && forall|j: int|
                0 <= j < i ==> (#[trigger] entries[j]).0@ != key,
            None => forall|j: int| 0 <= j < entries.len() ==> (#[trigger] entries[j]).0@ != key,
        },
    ensures
        key_position(entries, key) == at,
    decreases entries.len(),
{
    if entries.len() > 0 && entries[0].0@ != key {
        let rest = entries.skip(1);
        assert forall|j: int| 0 <= j < rest.len() && (at matches Some(i) ==> j < i - 1) implies (
        #[trigger] rest[j]).0@ != key by {
            assert(rest[j] == entries[j + 1]);
        }
        match at {
            Some(i) => {
                assert(rest[i - 1] == entries[i]);
                lemma_key_position(rest, key, Some(i - 1));
            },
            None => lemma_key_position(rest, key, None),
        }
    }
}

/// The value of the first entry with this key.
pub open spec fn entry_value(entries: Seq<(String, Value)>, key: Seq<char>) -> Option<Value> {
    match key_position(entries, key) {
        Some(i) => Some(entries[i].1),
        None => None,
    }
}

/// The member of a value with this key, where the value is an object that has it.
pub open spec fn value_member(v: Value, key: Seq<char>) -> Option<Value> {
    match v {
        Value::Object(m) => entry_value(members_list(m), key),
        _ => None,
    }
}

/// No two entries have the same key.
pub open spec fn distinct_keys(entries: Seq<(String, Value)>) -> bool {
    forall|i: int, j: int|
        0 <= i < j < entries.len() ==> (#[trigger] entries[i]).0@ != (#[trigger] entries[j]).0@
}

impl View for Value {
    type V = Doc;

    open spec fn view(&self) -> Doc {
        value_doc(*self)
    }
}

impl View for Members {
    type V = Map<Seq<char>, Doc>;

    open spec fn view(&self) -> Map<Seq<char>, Doc> {
        members_doc(*self)
    }
}

/// The items of an array stand for a sequence of the same length, item by item.
pub proof fn lemma_items_doc(items: Seq<Value>)
    ensures
        items_doc(items).len() == items.len(),
        forall|i: int|
            0 <= i < items.len() ==> #[trigger] items_doc(items)[i] == value_doc(items[i]),
    decreases items.len(),
{
    if items.len() > 0 {
        lemma_items_doc(items.drop_last());
        assert forall|i: int| 0 <= i < items.len() implies #[trigger] items_doc(items)[i]
            == value_doc(items[i]) by {
            if i < items.len() - 1 {
                assert(items_doc(items.drop_last())[i] == value_doc(items.drop_last()[i]));
            }
        }
    }
}

/// The map of a list of entries holds exactly the entries' keys, each with its value.
pub proof fn lemma_entries_doc(entries: Seq<(String, Value)>)
    ensures
        entries_doc(entries).dom().finite(),
        forall|k: Seq<char>| #[trigger]
            entries_doc(entries).dom().contains(k) <==> exists|i: int|
                0 <= i < entries.len() && (#[trigger] entries[i]).0@ == k,
        distinct_keys(entries) ==> forall|i: int|
            0 <= i < entries.len() ==> entries_doc(entries)[(#[trigger] entries[i]).0@]
                == value_doc(entries[i].1),
    decreases entries.len(),
{
    if entries.len() > 0 {
        let init = entries.drop_last();
        let last = entries.last();
        lemma_entries_doc(init);
        assert forall|k: Seq<char>| #[trigger]
            entries_doc(entries).dom().contains(k) implies exists|i: int|
            0 <= i < entries.len() && (#[trigger] entries[i]).0@ == k by {
            if k == last.0@ {
                assert(entries[entries.len() - 1].0@ == k);
            } else {
                let i = choose|i: int| 0 <= i < init.len() && (#[trigger] init[i]).0@ == k;
                assert(entries[i].0@ == k);
            }
        }
        assert forall|i: int| 0 <= i < entries.len() implies entries_doc(entries).dom().contains(
            (#[trigger] entries[i]).0@,
        ) by {
            if i < init.len() {
                assert(init[i].0@ == entries[i].0@);
            }
        }
        if distinct_keys(entries) {
            assert forall|i: int, j: int| 0 <= i < j < init.len() implies (#[trigger] init[i]).0@ != (
            #[trigger] init[j]).0@ by {
                assert(entries[i].0@ != entries[j].0@);
            }
            assert forall|i: int| 0 <= i < entries.len() implies entries_doc(
                entries,
            )[(#[trigger] entries[i]).0@] == value_doc(entries[i].1) by {
                if i < init.len() {
                    assert(init[i] == entries[i]);
                    assert(entries[i].0@ != entries[entries.len() - 1].0@);
                }
            }
        }
    }
}

/// The order of an object's members is no part of what it stands for: two lists
/// of the same entries stand for the same map.
pub proof fn law_member_order_does_not_matter(
    a: Seq<(String, Value)>,
    b: Seq<(String, Value)>,
)
    requires
        distinct_keys(a),
        distinct_keys(b),
        a.to_set() == b.to_set(),
    ensures
        entries_doc(a) == entries_doc(b),
{
    let x = entries_doc(a);
    let y = entries_doc(b);
    lemma_entries_doc(a);
    lemma_entries_doc(b);
    assert forall|i: int| 0 <= i < a.len() implies y.dom().contains((#[trigger] a[i]).0@)
        && y[a[i].0@] == value_doc(a[i].1) by {
        assert(a.to_set().contains(a[i]));
        assert(b.contains(a[i]));
        let j = choose|j: int| 0 <= j < b.len() && b[j] == a[i];
        assert(b[j].0@ == a[i].0@);
    }
    assert forall|k: Seq<char>| x.dom().contains(k) == y.dom().contains(k) by {
        if x.dom().contains(k) {
            let i = choose|i: int| 0 <= i < a.len() && (#[trigger] a[i]).0@ == k;
            assert(y.dom().contains(a[i].0@));
        }
        if y.dom().contains(k) {
            let j = choose|j: int| 0 <= j < b.len() && (#[trigger] b[j]).0@ == k;
            assert(b.to_set().contains(b[j]));
            assert(a.contains(b[j]));
            let i = choose|i: int| 0 <= i < a.len() && a[i] == b[j];
            assert(a[i].0@ == k);
        }
    }
    assert forall|k: Seq<char>| x.dom().contains(k) implies x[k] == y[k] by {
        let i = choose|i: int| 0 <= i < a.len() && (#[trigger] a[i]).0@ == k;
        assert(y[a[i].0@] == value_doc(a[i].1));
    }
    assert(x =~= y);
}

/// What an object stands for is what its list of members does.
pub proof fn law_an_object_is_its_members(m: Members)
    ensures
        m@ == entries_doc(members_list(m)),
{
}

/// A key that an object does not have has no position among its members.
pub proof fn lemma_not_there(m: Members, key: Seq<char>)
    requires
        !m@.dom().contains(key),
    ensures
        key_position(members_list(m), key) is None,
{
    lemma_entries_doc(m.entries@);
    lemma_key_position(m.entries@, key, None);
}

/// An object has finitely many members.
pub proof fn lemma_members_finite(m: Members)
    ensures
        m@.dom().finite(),
{
    lemma_entries_doc(m.entries@);
}

impl Members {
    #[verifier::type_invariant]
    spec fn keys_are_distinct(self) -> bool {
        distinct_keys(self.entries@)
    }

    /// An object without members.
    pub fn new() -> (none: Members)
        ensures
            none@ == Map::<Seq<char>, Doc>::empty(),
            members_list(none) == Seq::<(String, Value)>::empty(),
    {
        Members { entries: Vec::new() }
    }

    /// The members, in document order.
    pub fn entries(&self) -> (entries: &Vec<(String, Value)>)
        ensures
            entries@ == members_list(*self),
            entries_doc(entries@) == self@,
            distinct_keys(entries@),
            forall|i: int|
                0 <= i < entries@.len() ==> (#[trigger] decreases_to!(self => entries@[i].1)),
    {
        proof {
            use_type_invariant(self);
            assert forall|i: int| 0 <= i < self.entries@.len() implies (
            #[trigger] decreases_to!(self => self.entries@[i].1)) by {
                assert(decreases_to!(self.entries@ => self.entries@[i]));
            }
        }
        &self.entries
    }

    /// Where the member with this key stands.
    fn position(&self, key: &str) -> (at: Option<usize>)
        ensures
            match at {
                Some(i) => i < self.entries@.len() && self.entries@[i as int].0@ == key@ && forall|
                    j: int,
                |
                    0 <= j < i ==> (#[trigger] self.entries@[j]).0@ != key@,
                None => forall|j: int|
                    0 <= j < self.entries@.len() ==> (#[trigger] self.entries@[j]).0@ != key@,
            },
    {
        for i in 0..self.entries.len()
            invariant
                forall|j: int| 0 <= j < i ==> (#[trigger] self.entries@[j]).0@ != key@,
        {
            if same_text(self.entries[i].0.as_str(), key) {
                return Some(i);
            }
        }
        None
    }

    /// The value of the member with this key.
    pub fn get(&self, key: &str) -> (found: Option<&Value>)
        ensures
            match found {
                Some(v) => {
                    &&& self@.dom().contains(key@) && self@[key@] == v@
                    &&& entry_value(members_list(*self), key@) == Some(*v)
                },
                None => {
                    &&& !self@.dom().contains(key@)
                    &&& entry_value(members_list(*self), key@) is None
                },
            },
    {
        proof {
            use_type_invariant(self);
            lemma_entries_doc(self.entries@);
        }
        match self.position(key) {
            Some(i) => {
                proof {
                    lemma_key_position(self.entries@, key@, Some(i as int));
                }
                Some(&self.entries[i].1)
            },
            None => {
                proof {
                    lemma_key_position(self.entries@, key@, None);
                }
                None
            },
        }
    }

    /// Sets the member with this key, in its place where there is one and at the end where not.
    pub fn insert(&mut self, key: String, value: Value)
        ensures
            final(self)@ == old(self)@.insert(key@, value@),
            members_list(*final(self)) == with_entry(members_list(*old(self)), (key, value)),
            !old(self)@.dom().contains(key@) ==> members_list(*final(self)) == members_list(
                *old(self),
            ).push((key, value)),
    {
        proof {
            use_type_invariant(&*self);
        }
        let at = self.position(key.as_str());
        let mut entries: Vec<(String, Value)> = Vec::new();
        std::mem::swap(&mut entries, &mut self.entries);
        let ghost before = entries@;
        let ghost entry = (key, value);
        proof {
            let place = match at {
                Some(i) => Some(i as int),
                None => None,
            };
            lemma_key_position(before, entry.0@, place);
        }
        match at {
            Some(i) => entries.set(i, (key, value)),
            None => entries.push((key, value)),
        }
        proof {
            lemma_entries_doc(before);
            lemma_entries_doc(entries@);
            assert forall|k: Seq<char>|
                entries_doc(entries@).dom().contains(k) == entries_doc(before).insert(
                    entry.0@,
                    value_doc(entry.1),
                ).dom().contains(k) by {
                if k != entry.0@ {
                    if entries_doc(before).dom().contains(k) {
                        let j = choose|j: int| 0 <= j < before.len() && (#[trigger] before[j]).0@ == k;
                        assert(entries@[j].0@ == k);
                    }
                    if entries_doc(entries@).dom().contains(k) {
                        let j = choose|j: int|
                            0 <= j < entries@.len() && (#[trigger] entries@[j]).0@ == k;
                        assert(before[j].0@ == k);
                    }
                } else {
                    let j = if at is Some {
                        at->0 as int
                    } else {
                        entries@.len() - 1
                    };
                    assert(entries@[j].0@ == k);
                }
            }
            assert forall|k: Seq<char>|
                entries_doc(entries@).dom().contains(k) implies entries_doc(entries@)[k]
                == entries_doc(before).insert(entry.0@, value_doc(entry.1))[k] by {
                let j = choose|j: int| 0 <= j < entries@.len() && (#[trigger] entries@[j]).0@ == k;
                if k != entry.0@ {
                    assert(before[j] == entries@[j]);
                }
            }
            assert(entries_doc(entries@) =~= entries_doc(before).insert(
                entry.0@,
                value_doc(entry.1),
            ));
        }
        self.entries = entries;
    }

    /// Removes the member with this key, if there is one.
    pub fn remove(&mut self, key: &str)
        ensures
            final(self)@ == old(self)@.remove(key@),
            members_list(*final(self)) == without_entry(members_list(*old(self)), key@),
    {
        proof {
            use_type_invariant(&*self);
        }
        let at = self.position(key);
        let mut entries: Vec<(String, Value)> = Vec::new();
        std::mem::swap(&mut entries, &mut self.entries);
        let ghost before = entries@;
        proof {
            let place = match at {
                Some(i) => Some(i as int),
                None => None,
            };
            lemma_key_position(before, key@, place);
        }
        if let Some(i) = at {
            let _gone = entries.remove(i);
        }
        proof {
            lemma_entries_doc(before);
            lemma_removed(before, entries@, at, key@);
        }
        self.entries = entries;
    }
}

/// Taking out the entry with a key takes that key out of the map.
proof fn lemma_removed(
    before: Seq<(String, Value)>,
    after: Seq<(String, Value)>,
    at: Option<usize>,
    key: Seq<char>,
)
    requires
        distinct_keys(before),
        match at {
            Some(i) => i < before.len() && before[i as int].0@ == key && after == before.remove(
                i as int,
            ),
            None => after == before && forall|j: int|
                0 <= j < before.len() ==> (#[trigger] before[j]).0@ != key,
        },
    ensures
        distinct_keys(after),
        entries_doc(after) == entries_doc(before).remove(key),
{
    lemma_entries_doc(before);
    lemma_entries_doc(after);
    let whole = entries_doc(before);
    if let Some(i) = at {
        let i = i as int;
        assert forall|j: int| 0 <= j < after.len() implies (#[trigger] after[j]) == before[if j < i {
            j
        } else {
            j + 1
        }] by {}
        assert(distinct_keys(after)) by {
            assert forall|a: int, b: int| 0 <= a < b < after.len() implies (#[trigger] after[a]).0@
                != (#[trigger] after[b]).0@ by {
                let x = if a < i {
                    a
                } else {
                    a + 1
                };
                let y = if b < i {
                    b
                } else {
                    b + 1
                };
                assert(before[x].0@ != before[y].0@);
            }
        }
        assert forall|k: Seq<char>|
            entries_doc(after).dom().contains(k) == whole.remove(key).dom().contains(k) by {
            if entries_doc(after).dom().contains(k) {
                let j = choose|j: int| 0 <= j < after.len() && (#[trigger] after[j]).0@ == k;
                let x = if j < i {
                    j
                } else {
                    j + 1
                };
                assert(before[x].0@ == k);
                assert(before[i].0@ == key);
            }
            if whole.remove(key).dom().contains(k) {
                let j = choose|j: int| 0 <= j < before.len() && (#[trigger] before[j]).0@ == k;
                let x = if j < i {
                    j
                } else {
                    j - 1
                };
                assert(after[x].0@ == k);
            }
        }
        assert forall|k: Seq<char>| entries_doc(after).dom().contains(k) implies entries_doc(
            after,
        )[k] == whole.remove(key)[k] by {
            let j = choose|j: int| 0 <= j < after.len() && (#[trigger] after[j]).0@ == k;
            let x = if j < i {
                j
            } else {
                j + 1
            };
            assert(before[x] == after[j]);
        }
        assert(entries_doc(after) =~= whole.remove(key));
    } else {
        assert(entries_doc(after) =~= whole.remove(key));
    }
}

/// The member of an object with this key, as a document.
pub open spec fn member(doc: Doc, key: Seq<char>) -> Option<Doc> {
    match doc {
        Doc::Object(m) => if m.dom().contains(key) {
            Some(m[key])
        } else {
            None
        },
        _ => None,
    }
}

/// The text of a string value.
pub open spec fn string_of(doc: Option<Doc>) -> Option<Seq<char>> {
    match doc {
        Some(Doc::String(s)) => Some(s),
        _ => None,
    }
}

/// The truth of a boolean value.
pub open spec fn bool_of(doc: Option<Doc>) -> Option<bool> {
    match doc {
        Some(Doc::Bool(b)) => Some(b),
        _ => None,
    }
}

impl Value {
    /// The member with this key, where the value is an object that has it.
    pub fn get(&self, key: &str) -> (found: Option<&Value>)
        ensures
            match found {
                Some(v) => member(self@, key@) == Some(v@) && value_member(*self, key@) == Some(*v),
                None => member(self@, key@) is None && value_member(*self, key@) is None,
            },
    {
        match self {
            Value::Object(m) => m.get(key),
            _ => None,
        }
    }

    /// The text of the member with this key, where it is a string.
    pub fn get_str(&self, key: &str) -> (found: Option<&str>)
        ensures
            match found {
                Some(s) => string_of(member(self@, key@)) == Some(s@),
                None => string_of(member(self@, key@)) is None,
            },
    {
        match self.get(key) {
            Some(Value::String(s)) => Some(s.as_str()),
            _ => None,
        }
    }

    /// The truth of the member with this key, where it is a boolean.
    pub fn get_bool(&self, key: &str) -> (found: Option<bool>)
        ensures
            found == bool_of(member(self@, key@)),
    {
        match self.get(key) {
            Some(Value::Bool(b)) => Some(*b),
            _ => None,
        }
    }
}

} // verus!
