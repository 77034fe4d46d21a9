//! Laws of canonical JSON.

use vstd::prelude::*;
use vstd::relations;
use vstd::utf8;

use crate::canonical;
use crate::json::Doc;

verus! {

/// Words and numbers are written as they are.
pub proof fn law_words_and_numbers(n: Seq<char>)
    ensures
        canonical::canonical(Doc::Null) == "null"@,
        canonical::canonical(Doc::Bool(true)) == "true"@,
        canonical::canonical(Doc::Bool(false)) == "false"@,
        canonical::canonical(Doc::Number(n)) == n,
{
}

/// How each character of a string is written.
pub proof fn law_characters_of_strings(c: char)
    ensures
        ({
            let s = canonical::escaped(c);
            let code = c as int;
            if code == 34 || code == 92 {
                s == seq!['\\', c]
            } else if code == 10 {
                s == seq!['\\', 'n']
            } else if code == 13 {
                s == seq!['\\', 'r']
            } else if code == 9 {
                s == seq!['\\', 't']
            } else if code == 8 {
                s == seq!['\\', 'b']
            } else if code == 12 {
                s == seq!['\\', 'f']
            } else if code < 32 {
                &&& s.len() == 6
                &&& s[0] == '\\' && s[1] == 'u' && s[2] == '0'
                &&& s[3] == '0'
                &&& s[4] as int == 48 + code / 16
                &&& s[5] as int == (if code % 16 < 10 {
                    48 + code % 16
                } else {
                    87 + code % 16
                })
            } else {
                s == seq![c]
            }
        }),
{
    let code = (c as u32) as int;
    if code < 32 {
        assert(0 <= code / 16 < 2);
        assert(0 <= code % 16 < 16);
    }
}

/// A string is written between quotes, character by character.
pub proof fn law_strings(a: Seq<char>, b: Seq<char>, c: char)
    ensures
        canonical::canonical(Doc::String(a)) == seq!['"'] + canonical::escaped_text(a) + seq!['"'],
        canonical::quoted(a) == seq!['"'] + canonical::escaped_text(a) + seq!['"'],
        canonical::escaped_text(Seq::empty()) == Seq::<char>::empty(),
        canonical::escaped_text(seq![c]) == canonical::escaped(c),
        canonical::escaped_text(a + b) == canonical::escaped_text(a) + canonical::escaped_text(b),
    decreases b.len(),
{
    let one = seq![c];
    assert(one.drop_last() =~= Seq::<char>::empty());
    assert(canonical::escaped_text(one) == canonical::escaped_text(one.drop_last())
        + canonical::escaped(one.last()));
    assert(canonical::escaped_text(one) =~= canonical::escaped(c));
    if b.len() == 0 {
        assert(a + b =~= a);
        assert(canonical::escaped_text(a + b) =~= canonical::escaped_text(a)
            + canonical::escaped_text(b));
    } else {
        law_strings(a, b.drop_last(), c);
        assert((a + b).drop_last() =~= a + b.drop_last());
        assert((a + b).last() == b.last());
        assert(canonical::escaped_text(a + b) =~= canonical::escaped_text(a)
            + canonical::escaped_text(b));
    }
}

/// The items of an array are written in their order, with commas between them.
pub proof fn law_arrays(a: Seq<Doc>, x: Doc)
    ensures
        canonical::canonical(Doc::Array(Seq::empty())) == seq!['[', ']'],
        canonical::canonical(Doc::Array(seq![x])) == seq!['['] + canonical::canonical(x) + seq![
            ']',
        ],
        a.len() > 0 ==> canonical::canonical(Doc::Array(a.push(x))) == canonical::canonical(
            Doc::Array(a),
        ).drop_last() + seq![','] + canonical::canonical(x) + seq![']'],
{
    let none = Seq::<Doc>::empty();
    assert(canonical::canonical(Doc::Array(none)) =~= seq!['[', ']']);
    assert(seq![x][0] == x);
    if a.len() > 0 {
        let b = a.push(x);
        assert(b.drop_last() =~= a);
        assert(b.last() == x);
        assert(canonical::canonical(Doc::Array(a)).drop_last() =~= seq!['[']
            + canonical::items_text(a));
        assert(canonical::canonical(Doc::Array(b)) =~= canonical::canonical(
            Doc::Array(a),
        ).drop_last() + seq![','] + canonical::canonical(x) + seq![']']);
    }
}

/// `a` comes before `b` byte by byte: it is a start of it, or has the smaller byte
/// where they first differ.
pub open spec fn comes_before(a: Seq<u8>, b: Seq<u8>) -> bool {
    exists|p: int|
        0 <= p <= a.len() && p <= b.len() && #[trigger] a.take(p) == b.take(p) && (if p < a.len() {
            p < b.len() && a[p] < b[p]
        } else {
            p < b.len()
        })
}

proof fn lemma_comes_before(a: Seq<u8>, b: Seq<u8>)
    requires
        comes_before(a, b),
    ensures
        canonical::bytes_le(a, b),
        a != b,
    decreases a.len(),
{
    let p = choose|p: int|
        0 <= p <= a.len() && p <= b.len() && #[trigger] a.take(p) == b.take(p) && (if p < a.len() {
            p < b.len() && a[p] < b[p]
        } else {
            p < b.len()
        });
    if p > 0 {
        assert(a.take(p)[0] == b.take(p)[0]);
        let x = a.skip(1);
        let y = b.skip(1);
        let u = x.take(p - 1);
        let v = y.take(p - 1);
        assert(u =~= v) by {
            assert forall|i: int| 0 <= i < p - 1 implies u[i] == v[i] by {
                assert(a.take(p)[i + 1] == b.take(p)[i + 1]);
            }
        }
        assert(comes_before(x, y));
        lemma_comes_before(x, y);
    }
}

/// The members of an object are all written, each with its key and its value, in the
/// order of their keys' bytes and with commas between them: what is written of an
/// object is what is written of it without its last key, and then that member.
pub proof fn law_objects(m: Map<Seq<char>, Doc>, last: Seq<char>)
    requires
        m.dom().finite(),
        m.dom().contains(last),
        forall|k: Seq<char>| #[trigger]
            m.dom().contains(k) && k != last ==> comes_before(
                utf8::encode_utf8(k),
                utf8::encode_utf8(last),
            ),
    ensures
        canonical::canonical(Doc::Object(Map::empty())) == seq!['{', '}'],
        m.remove(last).dom().len() == 0 ==> canonical::canonical(Doc::Object(m)) == seq!['{']
            + canonical::quoted(last) + seq![':'] + canonical::canonical(m[last]) + seq!['}'],
        m.remove(last).dom().len() > 0 ==> canonical::canonical(Doc::Object(m))
            == canonical::canonical(Doc::Object(m.remove(last))).drop_last() + seq![',']
            + canonical::quoted(last) + seq![':'] + canonical::canonical(m[last]) + seq!['}'],
{
    let none = Map::<Seq<char>, Doc>::empty();
    canonical::lemma_sorted_keys(none.dom());
    let no_keys = canonical::sorted_keys(none);
    assert(no_keys.len() == 0) by {
        if no_keys.len() > 0 {
            assert(no_keys.to_set().contains(no_keys[0]));
        }
    }
    assert(canonical::canonical(Doc::Object(none)) =~= seq!['{', '}']);

    let rest = m.remove(last);
    let le = canonical::key_order();
    let before = canonical::sorted_keys(rest);
    let keys = before.push(last);
    canonical::lemma_sorted_keys(rest.dom());
    assert forall|i: int| 0 <= i < before.len() implies rest.dom().contains(#[trigger] before[i]) by {
        assert(before.to_set().contains(before[i]));
    }
    assert(keys.no_duplicates()) by {
        assert forall|i: int, j: int| 0 <= i < keys.len() && 0 <= j < keys.len() && i != j implies keys[i]
            != keys[j] by {
            if i < before.len() {
                assert(rest.dom().contains(before[i]));
            }
            if j < before.len() {
                assert(rest.dom().contains(before[j]));
            }
        }
    }
    assert(relations::sorted_by(keys, le)) by {
        assert forall|i: int, j: int| 0 <= i < j < keys.len() implies #[trigger] le(
            keys[i],
            keys[j],
        ) by {
            if j == before.len() {
                assert(rest.dom().contains(before[i]));
                lemma_comes_before(utf8::encode_utf8(before[i]), utf8::encode_utf8(last));
            } else {
                assert(le(before[i], before[j]));
            }
        }
    }
    assert(keys.to_set() =~= m.dom()) by {
        assert forall|k: Seq<char>| keys.to_set().contains(k) == m.dom().contains(k) by {
            if k == last {
                assert(keys[before.len() as int] == last);
            } else {
                assert(before.to_set().contains(k) == rest.dom().contains(k));
                if before.contains(k) {
                    let i = choose|i: int| 0 <= i < before.len() && before[i] == k;
                    assert(keys[i] == k);
                }
                if keys.contains(k) {
                    let i = choose|i: int| 0 <= i < keys.len() && keys[i] == k;
                    assert(before[i] == k);
                }
            }
        }
    }
    canonical::lemma_sorted_list(m.dom(), keys);
    assert(!before.contains(last)) by {
        if before.contains(last) {
            let i = choose|i: int| 0 <= i < before.len() && before[i] == last;
            assert(rest.dom().contains(before[i]));
        }
    }
    canonical::lemma_members_without(m, before, last);
    assert(keys.drop_last() =~= before);
    let text = canonical::member_text(m, last);
    if before.len() == 0 {
        assert(keys[0] == last);
        assert(canonical::canonical(Doc::Object(m)) =~= seq!['{'] + canonical::quoted(last) + seq![
            ':',
        ] + canonical::canonical(m[last]) + seq!['}']);
        assert(rest.dom() =~= Set::<Seq<char>>::empty()) by {
            assert forall|k: Seq<char>| !rest.dom().contains(k) by {
                assert(before.to_set().contains(k) == before.contains(k));
            }
        }
    } else {
        assert(rest.dom().contains(before[0]));
        assert(canonical::canonical(Doc::Object(rest)).drop_last() =~= seq!['{']
            + canonical::members_text(rest, before));
        assert(canonical::canonical(Doc::Object(m)) =~= canonical::canonical(
            Doc::Object(rest),
        ).drop_last() + seq![','] + canonical::quoted(last) + seq![':'] + canonical::canonical(
            m[last],
        ) + seq!['}']);
    }
}

} // verus!
