//! Laws of the text functions.

use vstd::prelude::*;

use crate::paths;
use crate::text;

verus! {

/// Where trimming a text's start begins.
proof fn lemma_trim_start(s: Seq<char>) -> (i: int)
    ensures
        0 <= i <= s.len(),
        text::trim_start(s) == s.skip(i),
        forall|k: int| 0 <= k < i ==> text::is_white_space(#[trigger] s[k]),
        i < s.len() ==> !text::is_white_space(s[i]),
    decreases s.len(),
{
    if s.len() > 0 && text::is_white_space(s[0]) {
        let rest = s.skip(1);
        let j = lemma_trim_start(rest);
        assert(rest.skip(j) =~= s.skip(j + 1));
        assert forall|k: int| 0 <= k < j + 1 implies text::is_white_space(#[trigger] s[k]) by {
            if k > 0 {
                assert(rest[k - 1] == s[k]);
            }
        }
        if j < rest.len() {
            assert(rest[j] == s[j + 1]);
        }
        j + 1
    } else {
        assert(s.skip(0) =~= s);
        0
    }
}

/// Where trimming a text's end stops.
proof fn lemma_trim_end(s: Seq<char>) -> (j: int)
    ensures
        0 <= j <= s.len(),
        text::trim_end(s) == s.take(j),
        forall|k: int| j <= k < s.len() ==> text::is_white_space(#[trigger] s[k]),
        j > 0 ==> !text::is_white_space(s[j - 1]),
    decreases s.len(),
{
    if s.len() > 0 && text::is_white_space(s.last()) {
        let init = s.drop_last();
        let j = lemma_trim_end(init);
        assert(init.take(j) =~= s.take(j));
        assert forall|k: int| j <= k < s.len() implies text::is_white_space(#[trigger] s[k]) by {
            if k < init.len() {
                assert(init[k] == s[k]);
            }
        }
        j
    } else {
        assert(s.take(s.len() as int) =~= s);
        s.len() as int
    }
}

/// White space is what Unicode calls so, by code point.
pub proof fn law_what_white_space_is(c: char)
    ensures
        text::is_white_space(c) <==> (9 <= c as int <= 13 || c as int == 0x20 || c as int == 0x85
            || c as int == 0xa0 || c as int == 0x1680 || 0x2000 <= c as int <= 0x200a || c as int
            == 0x2028 || c as int == 0x2029 || c as int == 0x202f || c as int == 0x205f || c as int
            == 0x3000),
{
}

/// A text is blank where all of its characters are white space, and only there.
pub proof fn law_what_blank_is(s: Seq<char>)
    ensures
        text::is_blank(s) <==> forall|i: int|
            0 <= i < s.len() ==> text::is_white_space(#[trigger] s[i]),
        text::is_blank(s) <==> text::trimmed(s).len() == 0,
{
    let i = lemma_trim_start(s);
    let t = s.skip(i);
    let n = lemma_trim_end(t);
    if text::is_blank(s) {
        if n > 0 {
            assert(t[n - 1] == s[i + n - 1]);
        }
    } else if n == 0 {
        assert forall|k: int| 0 <= k < s.len() implies text::is_white_space(#[trigger] s[k]) by {
            if k >= i {
                assert(t[k - i] == s[k]);
            }
        }
    }
}

/// Trimming takes off white space at both ends, all of it, and nothing else.
pub proof fn law_trimming_takes_off_white_space(s: Seq<char>)
    ensures
        exists|i: int, j: int|
            0 <= i <= j <= s.len() && text::trimmed(s) == #[trigger] s.subrange(i, j) && (forall|
                k: int,
            |
                0 <= k < i || j <= k < s.len() ==> text::is_white_space(#[trigger] s[k])),
        text::trimmed(s).len() > 0 ==> !text::is_white_space(text::trimmed(s)[0])
            && !text::is_white_space(text::trimmed(s).last()),
{
    let i = lemma_trim_start(s);
    let t = s.skip(i);
    let n = lemma_trim_end(t);
    let j = i + n;
    assert(t.take(n) =~= s.subrange(i, j));
    assert forall|k: int| 0 <= k < i || j <= k < s.len() implies text::is_white_space(
        #[trigger] s[k],
    ) by {
        if k >= j {
            assert(t[k - i] == s[k]);
        }
    }
    let u = text::trimmed(s);
    if n > 0 {
        assert(u[0] == s[i]);
        assert(u.last() == t[n - 1]);
    }
}

/// White space around a text, whatever it is, makes no difference once it is trimmed.
pub proof fn law_white_space_around_does_not_matter(a: Seq<char>, s: Seq<char>, b: Seq<char>)
    requires
        forall|i: int| 0 <= i < a.len() ==> text::is_white_space(#[trigger] a[i]),
        forall|i: int| 0 <= i < b.len() ==> text::is_white_space(#[trigger] b[i]),
        s.len() > 0 ==> !text::is_white_space(s[0]) && !text::is_white_space(s.last()),
    ensures
        text::trimmed(a + s + b) == s,
{
    let all = a + s + b;
    let i = lemma_trim_start(all);
    let t = all.skip(i);
    let n = lemma_trim_end(t);
    if s.len() == 0 {
        if i < all.len() {
            if i < a.len() {
                assert(all[i] == a[i]);
            } else {
                assert(all[i] == b[i - a.len()]);
            }
        }
        assert(t.take(n) =~= s);
    } else {
        assert(all[a.len() as int] == s[0]);
        if i < a.len() {
            assert(all[i] == a[i]);
        }
        assert(i == a.len());
        let last = s.len() - 1;
        assert(t[last] == s.last());
        if n > s.len() {
            assert(t[n - 1] == b[n - 1 - s.len()]);
        }
        assert(n == s.len());
        assert(t.take(n) =~= s);
    }
}

/// Taking a character off the end takes off all of its repetitions and nothing else.
pub proof fn law_trailing_characters_are_taken_off(s: Seq<char>, c: char)
    ensures
        exists|j: int|
            0 <= j <= s.len() && text::trim_end_char(s, c) == #[trigger] s.take(j) && (forall|
                k: int,
            |
                j <= k < s.len() ==> #[trigger] s[k] == c) && (j > 0 ==> s[j - 1] != c),
    decreases s.len(),
{
    if s.len() > 0 && s.last() == c {
        let init = s.drop_last();
        law_trailing_characters_are_taken_off(init, c);
        let j = choose|j: int|
            0 <= j <= init.len() && text::trim_end_char(init, c) == #[trigger] init.take(j) && (
            forall|k: int| j <= k < init.len() ==> #[trigger] init[k] == c) && (j > 0 ==> init[j
                - 1] != c);
        assert(init.take(j) =~= s.take(j));
        assert forall|k: int| j <= k < s.len() implies #[trigger] s[k] == c by {
            if k < init.len() {
                assert(init[k] == s[k]);
            }
        }
        assert(text::trim_end_char(s, c) == s.take(j));
    } else {
        assert(s.take(s.len() as int) =~= s);
    }
}

/// Making letters small changes `A` to `Z` into `a` to `z`, each at its place, and
/// nothing else.
pub proof fn law_small_letters(s: Seq<char>)
    ensures
        text::lower(s).len() == s.len(),
        forall|i: int|
            0 <= i < s.len() ==> (#[trigger] text::lower(s)[i]) as int == s[i] as int + if 65
                <= s[i] as int <= 90 {
                32int
            } else {
                0
            },
{
}

/// A text stands within another at a position where its characters do.
pub proof fn law_where_a_text_stands(s: Seq<char>, pat: Seq<char>, i: int)
    ensures
        text::occurs_at(s, pat, i) <==> 0 <= i && i + pat.len() <= s.len() && forall|j: int|
            0 <= j < pat.len() ==> s[i + j] == #[trigger] pat[j],
{
    if text::occurs_at(s, pat, i) {
        assert forall|j: int| 0 <= j < pat.len() implies s[i + j] == #[trigger] pat[j] by {
            assert(s.subrange(i, i + pat.len())[j] == pat[j]);
        }
    }
    if 0 <= i && i + pat.len() <= s.len() && (forall|j: int|
        0 <= j < pat.len() ==> s[i + j] == #[trigger] pat[j]) {
        assert(s.subrange(i, i + pat.len()) =~= pat);
    }
}

/// The first place of a text from a position on is the least one, and there is none only
/// where the text stands nowhere from there on.
pub proof fn law_the_first_place_of_a_text(s: Seq<char>, pat: Seq<char>, from: int, k: int)
    requires
        0 <= from,
    ensures
        from <= k && text::occurs_at(s, pat, k) ==> text::find_from(s, pat, from) is Some
            && text::find_from(s, pat, from)->0 <= k,
        text::find_from(s, pat, from) matches Some(at) ==> from <= at && text::occurs_at(
            s,
            pat,
            at,
        ),
    decreases s.len() + 1 - from,
{
    if from + pat.len() <= s.len() && !text::occurs_at(s, pat, from) {
        law_the_first_place_of_a_text(s, pat, from + 1, k);
    }
}

/// A suffix is taken off where it stands, and only there.
pub proof fn law_suffixes_are_taken_off(s: Seq<char>, a: Seq<char>, suffix: Seq<char>)
    ensures
        text::ends_in(a + suffix, suffix),
        text::without_suffix(a + suffix, suffix) == a,
        text::ends_in(s, suffix) ==> text::without_suffix(s, suffix) + suffix == s,
        !text::ends_in(s, suffix) ==> text::without_suffix(s, suffix) == s,
{
    let t = a + suffix;
    assert(t.subrange(a.len() as int, t.len() as int) =~= suffix);
    assert(t.take(a.len() as int) =~= a);
    if text::ends_in(s, suffix) {
        let k = s.len() - suffix.len();
        assert(s =~= s.take(k) + s.subrange(k, s.len() as int));
    }
}

/// What stands before the first of some characters holds none of them, and is
/// followed by one of them or by nothing.
pub proof fn law_cutting_before_the_first(s: Seq<char>, stops: Seq<char>)
    ensures
        ({
            let t = text::before_any(s, stops);
            &&& t.len() <= s.len()
            &&& s.take(t.len() as int) == t
            &&& forall|i: int| 0 <= i < t.len() ==> !stops.contains(#[trigger] t[i])
            &&& t.len() < s.len() ==> stops.contains(s[t.len() as int])
        }),
{
    text::lemma_stop_index(s, stops);
    let t = text::before_any(s, stops);
    assert forall|i: int| 0 <= i < t.len() implies !stops.contains(#[trigger] t[i]) by {
        assert(t[i] == s[i]);
    }
}

/// Texts with a separator between them.
pub open spec fn joined_with(parts: Seq<Seq<char>>, sep: char) -> Seq<char>
    decreases parts.len(),
{
    if parts.len() == 0 {
        Seq::empty()
    } else if parts.len() == 1 {
        parts[0]
    } else {
        parts[0] + seq![sep] + joined_with(parts.skip(1), sep)
    }
}

/// Splitting undoes joining.
pub proof fn law_splitting_undoes_joining(parts: Seq<Seq<char>>, sep: char)
    requires
        parts.len() > 0,
        forall|i: int| 0 <= i < parts.len() ==> !(#[trigger] parts[i]).contains(sep),
    ensures
        text::split(joined_with(parts, sep), sep) == parts,
    decreases parts.len(),
{
    assert(!parts[0].contains(sep));
    text::lemma_split_one(parts[0], sep);
    if parts.len() == 1 {
        assert(parts =~= seq![parts[0]]);
    } else {
        let rest = parts.skip(1);
        assert forall|i: int| 0 <= i < rest.len() implies !(#[trigger] rest[i]).contains(sep) by {
            assert(rest[i] == parts[i + 1]);
        }
        law_splitting_undoes_joining(rest, sep);
        text::lemma_split_concat(parts[0], joined_with(rest, sep), sep);
        assert(parts =~= seq![parts[0]] + rest);
    }
}

/// Joining undoes splitting, and no part of a split holds the separator.
pub proof fn law_joining_undoes_splitting(s: Seq<char>, sep: char)
    ensures
        text::split(s, sep).len() > 0,
        forall|i: int|
            0 <= i < text::split(s, sep).len() ==> !(#[trigger] text::split(s, sep)[i]).contains(
                sep,
            ),
        joined_with(text::split(s, sep), sep) == s,
    decreases s.len(),
{
    text::lemma_split_parts(s, sep);
    let k = text::stop_index(s, seq![sep]);
    text::lemma_stop_index(s, seq![sep]);
    let whole = text::split(s, sep);
    if k < s.len() {
        let tail = s.skip(k + 1);
        law_joining_undoes_splitting(tail, sep);
        assert(whole.skip(1) =~= text::split(tail, sep));
        assert(seq![sep].contains(s[k]));
        assert(s =~= s.take(k) + seq![sep] + tail);
    }
}

/// What slices stand for is what each of them does, in their order.
pub proof fn law_what_slices_stand_for(v: Seq<&[char]>)
    ensures
        text::parts(v).len() == v.len(),
        forall|i: int| 0 <= i < v.len() ==> #[trigger] text::parts(v)[i] == v[i]@,
{
}

/// A text that holds no `pat` is not changed by replacing it.
pub proof fn law_nothing_to_replace(s: Seq<char>, pat: Seq<char>, with: Seq<char>)
    requires
        pat.len() > 0,
        forall|i: int| !text::occurs_at(s, pat, i),
    ensures
        text::replaced(s, pat, with) == s,
    decreases s.len(),
{
    if s.len() > 0 {
        assert(!text::occurs_at(s, pat, 0));
        let rest = s.skip(1);
        assert forall|i: int| !text::occurs_at(rest, pat, i) by {
            if text::occurs_at(rest, pat, i) {
                assert(s.subrange(i + 1, i + 1 + pat.len()) =~= rest.subrange(i, i + pat.len()));
                assert(text::occurs_at(s, pat, i + 1));
            }
        }
        law_nothing_to_replace(rest, pat, with);
        assert(seq![s[0]] + rest =~= s);
    } else {
        assert(text::replaced(s, pat, with) =~= s);
    }
}

/// The first `pat` in a text is replaced, what stands before it stays, and what
/// follows it is replaced in the same way.
pub proof fn law_replacing_from_the_first(
    a: Seq<char>,
    b: Seq<char>,
    pat: Seq<char>,
    with: Seq<char>,
)
    requires
        pat.len() > 0,
        forall|i: int| 0 <= i < a.len() ==> !text::occurs_at(a + pat + b, pat, i),
    ensures
        text::replaced(a + pat + b, pat, with) == a + with + text::replaced(b, pat, with),
    decreases a.len(),
{
    let s = a + pat + b;
    let n = pat.len() as int;
    if a.len() == 0 {
        assert(s.subrange(0, n) =~= pat);
        assert(s.skip(n) =~= b);
        assert(with + text::replaced(b, pat, with) =~= a + with + text::replaced(b, pat, with));
    } else {
        let rest = a.skip(1);
        assert(!text::occurs_at(s, pat, 0));
        assert(s.skip(1) =~= rest + pat + b);
        assert forall|i: int| 0 <= i < rest.len() implies !text::occurs_at(
            rest + pat + b,
            pat,
            i,
        ) by {
            if text::occurs_at(rest + pat + b, pat, i) {
                assert(s.subrange(i + 1, i + 1 + n) =~= (rest + pat + b).subrange(i, i + n));
                assert(text::occurs_at(s, pat, i + 1));
            }
        }
        law_replacing_from_the_first(rest, b, pat, with);
        assert(s[0] == a[0]);
        assert(seq![a[0]] + (rest + with + text::replaced(b, pat, with)) =~= a + with
            + text::replaced(b, pat, with));
    }
}

/// A number in decimal is made of its digits, the last one last.
pub proof fn law_decimal_digits(q: nat, r: nat)
    requires
        r < 10,
    ensures
        q == 0 ==> text::decimal(r).len() == 1,
        q > 0 ==> text::decimal(10 * q + r).drop_last() == text::decimal(q),
        text::decimal(10 * q + r).len() > 0,
        text::decimal(10 * q + r).last() as int == 48 + r,
{
    let n = 10 * q + r;
    assert(n / 10 == q && n % 10 == r);
    if q > 0 {
        assert(text::decimal(n).drop_last() =~= text::decimal(q));
    }
}

/// A hexadecimal digit stands for its value, in small letters.
pub proof fn law_hexadecimal_digits(d: int)
    requires
        0 <= d < 16,
    ensures
        d < 10 ==> text::hex_digit(d) as int == 48 + d,
        d >= 10 ==> text::hex_digit(d) as int == 97 + d - 10,
{
}

/// A path below another stands behind it with one `/` between them; an absolute one
/// stands alone.
pub proof fn law_paths_below(base: Seq<char>, rel: Seq<char>)
    ensures
        rel.len() > 0 && rel[0] == '/' ==> paths::joined(base, rel) == rel,
        (rel.len() == 0 || rel[0] != '/') && base.len() == 0 ==> paths::joined(base, rel) == rel,
        (rel.len() == 0 || rel[0] != '/') && base.len() > 0 && base.last() == '/' ==> paths::joined(
            base,
            rel,
        ) == base + rel,
        (rel.len() == 0 || rel[0] != '/') && base.len() > 0 && base.last() != '/' ==> paths::joined(
            base,
            rel,
        ) == base + seq!['/'] + rel,
{
    if base.len() == 0 {
        assert(base + rel =~= rel);
    }
    assert(base.push('/') + rel =~= base + seq!['/'] + rel);
}

/// What an optional text holds is the text.
pub proof fn law_optional_texts(s: &str, t: String)
    ensures
        text::option_view(Some(s)) == Some(s@),
        text::option_view(None::<&str>) is None,
        text::optional_text(Some(t)) == Some(t@),
        text::optional_text(None::<String>) is None,
{
}

} // verus!
