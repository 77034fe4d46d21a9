//! Text as sequences of characters: trimming, searching, splitting and
//! replacing, each with the sequence it yields.
//!
//! The executable functions work on slices of `char`, so that no position is
//! ever a byte offset; [`to_chars`] and [`to_text`] go between these and strings.

use vstd::prelude::*;
use vstd::slice::slice_subrange;

verus! {

/// The text that an optional string holds.
pub open spec fn option_view(s: Option<&str>) -> Option<Seq<char>> {
    match s {
        Some(t) => Some(t@),
        None => None,
    }
}

/// The text that an optional owned string holds.
pub open spec fn optional_text(s: Option<String>) -> Option<Seq<char>> {
    match s {
        Some(t) => Some(t@),
        None => None,
    }
}

/// `String::push` appends the given character to the end of the string.
pub assume_specification[ std::string::String::push ](s: &mut std::string::String, c: char)
    ensures
        final(s)@ == old(s)@.push(c),
;

// ---------------------------------------------------------------------------
// Strings and characters

/// The characters of `s`, in order.
pub fn to_chars(s: &str) -> (out: Vec<char>)
    ensures
        out@ == s@,
{
    let mut out: Vec<char> = Vec::new();
    for c in it: s.chars()
        invariant
            it.seq() == s@,
            out@ == s@.take(it.index() as int),
    {
        out.push(c);
    }
    out
}

/// The string whose characters are `chars`.
pub fn to_text(chars: &[char]) -> (out: String)
    ensures
        out@ == chars@,
{
    let mut out = String::new();
    for i in 0..chars.len()
        invariant
            out@ == chars@.take(i as int),
    {
        out.push(chars[i]);
    }
    out
}

/// Appends `chars` to `out`.
pub fn push_chars(out: &mut String, chars: &[char])
    ensures
        final(out)@ == old(out)@ + chars@,
{
    let ghost before = out@;
    for i in 0..chars.len()
        invariant
            out@ == before + chars@.take(i as int),
    {
        out.push(chars[i]);
    }
    assert(chars@.take(chars@.len() as int) == chars@);
}

/// Whether two character sequences are the same.
pub fn same_chars(a: &[char], b: &[char]) -> (same: bool)
    ensures
        same == (a@ == b@),
{
    if a.len() != b.len() {
        return false;
    }
    for i in 0..a.len()
        invariant
            a@.len() == b@.len(),
            forall|j: int| 0 <= j < i ==> a@[j] == b@[j],
    {
        if a[i] != b[i] {
            return false;
        }
    }
    assert(a@ =~= b@);
    true
}

/// Whether two strings hold the same characters.
pub fn same_text(a: &str, b: &str) -> (same: bool)
    ensures
        same == (a@ == b@),
{
    same_chars(to_chars(a).as_slice(), to_chars(b).as_slice())
}

// ---------------------------------------------------------------------------
// White space

/// Unicode's `White_Space` property.
pub open spec fn is_white_space(c: char) -> bool {
    ||| '\u{9}' <= c && c <= '\u{d}'
    ||| c == ' '
    ||| c == '\u{85}'
    ||| c == '\u{a0}'
    ||| c == '\u{1680}'
    ||| '\u{2000}' <= c && c <= '\u{200a}'
    ||| c == '\u{2028}'
    ||| c == '\u{2029}'
    ||| c == '\u{202f}'
    ||| c == '\u{205f}'
    ||| c == '\u{3000}'
}

/// Whether `c` is white space.
pub fn white_space(c: char) -> (yes: bool)
    ensures
        yes == is_white_space(c),
{
    ('\u{9}' <= c && c <= '\u{d}') || c == ' ' || c == '\u{85}' || c == '\u{a0}' || c == '\u{1680}'
        || ('\u{2000}' <= c && c <= '\u{200a}') || c == '\u{2028}' || c == '\u{2029}' || c
        == '\u{202f}' || c == '\u{205f}' || c == '\u{3000}'
}

/// `s` without its leading white space.
pub open spec fn trim_start(s: Seq<char>) -> Seq<char>
    decreases s.len(),
{
    if s.len() > 0 && is_white_space(s[0]) {
        trim_start(s.skip(1))
    } else {
        s
    }
}

/// `s` without its trailing white space.
pub open spec fn trim_end(s: Seq<char>) -> Seq<char>
    decreases s.len(),
{
    if s.len() > 0 && is_white_space(s.last()) {
        trim_end(s.drop_last())
    } else {
        s
    }
}

/// `s` without the white space around it.
pub open spec fn trimmed(s: Seq<char>) -> Seq<char> {
    trim_end(trim_start(s))
}

/// `s` holds nothing but white space.
pub open spec fn is_blank(s: Seq<char>) -> bool {
    forall|i: int| 0 <= i < s.len() ==> is_white_space(#[trigger] s[i])
}

/// The characters of `s` without the white space around them.
pub fn trim(s: &[char]) -> (out: &[char])
    ensures
        out@ == trimmed(s@),
{
    let n: usize = s.len();
    let mut from: usize = 0;
    assert(s@.skip(0) =~= s@);
    while from < n && white_space(s[from])
        invariant
            from <= n,
            n == s@.len(),
            trim_start(s@.skip(from as int)) == trim_start(s@),
        decreases n - from,
    {
        assert(s@.skip(from as int).skip(1) =~= s@.skip(from + 1));
        from += 1;
    }
    let ghost rest = s@.skip(from as int);
    assert(trim_start(s@) == rest);
    let mut to: usize = n;
    assert(s@.subrange(from as int, n as int) =~= rest);
    while to > from && white_space(s[to - 1])
        invariant
            from <= to <= n,
            n == s@.len(),
            trim_end(s@.subrange(from as int, to as int)) == trim_end(rest),
        decreases to,
    {
        assert(s@.subrange(from as int, to as int).drop_last() =~= s@.subrange(
            from as int,
            to - 1,
        ));
        to -= 1;
    }
    slice_subrange(s, from, to)
}

/// Whether the text is blank: empty once trimmed.
pub fn blank(s: &str) -> (yes: bool)
    ensures
        yes == is_blank(s@),
{
    let chars = to_chars(s);
    for i in 0..chars.len()
        invariant
            chars@ == s@,
            forall|j: int| 0 <= j < i ==> is_white_space(#[trigger] s@[j]),
    {
        if !white_space(chars[i]) {
            return false;
        }
    }
    true
}

/// `s` without the trailing repetitions of `c`.
pub open spec fn trim_end_char(s: Seq<char>, c: char) -> Seq<char>
    decreases s.len(),
{
    if s.len() > 0 && s.last() == c {
        trim_end_char(s.drop_last(), c)
    } else {
        s
    }
}

/// The characters of `s` without the trailing repetitions of `c`.
pub fn strip_trailing(s: &[char], c: char) -> (out: &[char])
    ensures
        out@ == trim_end_char(s@, c),
{
    let n: usize = s.len();
    let mut to: usize = n;
    assert(s@.subrange(0, n as int) =~= s@);
    while to > 0 && s[to - 1] == c
        invariant
            to <= n,
            n == s@.len(),
            trim_end_char(s@.subrange(0, to as int), c) == trim_end_char(s@, c),
        decreases to,
    {
        assert(s@.subrange(0, to as int).drop_last() =~= s@.subrange(0, to - 1));
        to -= 1;
    }
    slice_subrange(s, 0, to)
}

// ---------------------------------------------------------------------------
// Letter case

/// An ASCII capital becomes the small letter; any other character stays.
pub open spec fn ascii_lower(c: char) -> char {
    if 'A' <= c && c <= 'Z' {
        ((c as u8) + 32) as char
    } else {
        c
    }
}

/// `s` with every ASCII capital made small.
pub open spec fn lower(s: Seq<char>) -> Seq<char> {
    s.map_values(|c: char| ascii_lower(c))
}

/// The characters of `s` with every ASCII capital made small.
pub fn lowercase(s: &[char]) -> (out: Vec<char>)
    ensures
        out@ == lower(s@),
{
    let mut out: Vec<char> = Vec::new();
    for i in 0..s.len()
        invariant
            out@ == lower(s@.take(i as int)),
    {
        let c = s[i];
        let small = if 'A' <= c && c <= 'Z' {
            ((c as u8) + 32) as char
        } else {
            c
        };
        assert(small == ascii_lower(c));
        out.push(small);
        assert(lower(s@.take(i + 1)) =~= lower(s@.take(i as int)).push(small));
    }
    assert(s@.take(s@.len() as int) =~= s@);
    out
}

// ---------------------------------------------------------------------------
// Searching

/// `pat` stands in `s` at position `i`.
pub open spec fn occurs_at(s: Seq<char>, pat: Seq<char>, i: int) -> bool {
    &&& 0 <= i
    &&& i + pat.len() <= s.len()
    &&& s.subrange(i, i + pat.len()) == pat
}

/// `pat` stands somewhere in `s`.
pub open spec fn contains_text(s: Seq<char>, pat: Seq<char>) -> bool {
    exists|i: int| occurs_at(s, pat, i)
}

/// The first position from `i` on at which `pat` stands in `s`.
pub open spec fn find_from(s: Seq<char>, pat: Seq<char>, i: int) -> Option<int>
    decreases s.len() + 1 - i,
{
    if i < 0 || i + pat.len() > s.len() {
        None
    } else if occurs_at(s, pat, i) {
        Some(i)
    } else {
        find_from(s, pat, i + 1)
    }
}

/// [`find_from`] gives the least position, and gives none only where there is none.
pub proof fn lemma_find_from(s: Seq<char>, pat: Seq<char>, i: int)
    requires
        0 <= i,
    ensures
        find_from(s, pat, i) matches Some(k) ==> i <= k && occurs_at(s, pat, k) && forall|j: int|
            i <= j < k ==> !occurs_at(s, pat, j),
        find_from(s, pat, i) is None ==> forall|j: int| i <= j ==> !occurs_at(s, pat, j),
    decreases s.len() + 1 - i,
{
    if i + pat.len() <= s.len() && !occurs_at(s, pat, i) {
        lemma_find_from(s, pat, i + 1);
    }
}

/// Whether `pat` stands in `s` at position `i`.
pub fn stands_at(s: &[char], pat: &[char], i: usize) -> (yes: bool)
    ensures
        yes == occurs_at(s@, pat@, i as int),
{
    if i > s.len() || pat.len() > s.len() - i {
        return false;
    }
    same_chars(slice_subrange(s, i, i + pat.len()), pat)
}

/// The first position from `from` on at which `pat` stands in `s`.
pub fn position_from(s: &[char], pat: &[char], from: usize) -> (at: Option<usize>)
    ensures
        at is Some == find_from(s@, pat@, from as int) is Some,
        at matches Some(k) ==> find_from(s@, pat@, from as int) == Some(k as int),
{
    let mut i: usize = from;
    while i <= s.len() && pat.len() <= s.len() - i
        invariant
            from <= i <= s@.len() + 1 || i == from,
            find_from(s@, pat@, i as int) == find_from(s@, pat@, from as int),
        decreases s@.len() + 1 - i,
    {
        if stands_at(s, pat, i) {
            return Some(i);
        }
        if i == s.len() {
            assert(find_from(s@, pat@, i + 1) is None);
            return None;
        }
        i += 1;
    }
    None
}

/// How many characters of `s` come before the first that is among `stops`.
pub open spec fn stop_index(s: Seq<char>, stops: Seq<char>) -> int
    decreases s.len(),
{
    if s.len() == 0 || stops.contains(s[0]) {
        0
    } else {
        1 + stop_index(s.skip(1), stops)
    }
}

/// The part of `s` before the first character that is among `stops`.
pub open spec fn before_any(s: Seq<char>, stops: Seq<char>) -> Seq<char> {
    s.take(stop_index(s, stops))
}

/// [`stop_index`] is the length of the longest start of `s` free of `stops`.
pub proof fn lemma_stop_index(s: Seq<char>, stops: Seq<char>)
    ensures
        0 <= stop_index(s, stops) <= s.len(),
        forall|j: int| 0 <= j < stop_index(s, stops) ==> !stops.contains(#[trigger] s[j]),
        stop_index(s, stops) < s.len() ==> stops.contains(s[stop_index(s, stops)]),
    decreases s.len(),
{
    if s.len() > 0 && !stops.contains(s[0]) {
        lemma_stop_index(s.skip(1), stops);
        assert forall|j: int| 0 <= j < stop_index(s, stops) implies !stops.contains(
            #[trigger] s[j],
        ) by {
            if j > 0 {
                assert(s.skip(1)[j - 1] == s[j]);
            }
        }
    }
}

/// The position that [`lemma_stop_index`] describes is the only such one.
pub proof fn lemma_stop_index_is(s: Seq<char>, stops: Seq<char>, k: int)
    requires
        0 <= k <= s.len(),
        forall|j: int| 0 <= j < k ==> !stops.contains(#[trigger] s[j]),
        k < s.len() ==> stops.contains(s[k]),
    ensures
        stop_index(s, stops) == k,
{
    lemma_stop_index(s, stops);
    let m = stop_index(s, stops);
    if m < k {
        assert(stops.contains(s[m]));
    } else if k < m {
        assert(stops.contains(s[k]));
    }
}

/// Whether `c` is among `stops`.
fn is_among(c: char, stops: &[char]) -> (yes: bool)
    ensures
        yes == stops@.contains(c),
{
    for i in 0..stops.len()
        invariant
            forall|j: int| 0 <= j < i ==> stops@[j] != c,
    {
        if stops[i] == c {
            return true;
        }
    }
    false
}

/// How many characters of `s` come before the first that is among `stops`.
pub fn stop_position(s: &[char], stops: &[char]) -> (at: usize)
    ensures
        at == stop_index(s@, stops@),
        at <= s@.len(),
{
    let mut i: usize = 0;
    while i < s.len() && !is_among(s[i], stops)
        invariant
            i <= s@.len(),
            forall|j: int| 0 <= j < i ==> !stops@.contains(#[trigger] s@[j]),
        decreases s@.len() - i,
    {
        i += 1;
    }
    proof {
        lemma_stop_index_is(s@, stops@, i as int);
    }
    i
}

/// `s` ends with `suffix`.
pub open spec fn ends_in(s: Seq<char>, suffix: Seq<char>) -> bool {
    occurs_at(s, suffix, s.len() - suffix.len())
}

/// `s` without `suffix` at its end; all of `s` where it does not end so.
pub open spec fn without_suffix(s: Seq<char>, suffix: Seq<char>) -> Seq<char> {
    if ends_in(s, suffix) {
        s.take(s.len() - suffix.len())
    } else {
        s
    }
}

/// Whether `s` ends with `suffix`.
pub fn has_suffix(s: &[char], suffix: &[char]) -> (yes: bool)
    ensures
        yes == ends_in(s@, suffix@),
{
    suffix.len() <= s.len() && stands_at(s, suffix, s.len() - suffix.len())
}

/// `s` without `suffix` at its end; all of `s` where it does not end so.
pub fn strip_suffix<'a>(s: &'a [char], suffix: &[char]) -> (out: &'a [char])
    ensures
        out@ == without_suffix(s@, suffix@),
{
    if has_suffix(s, suffix) {
        let out = slice_subrange(s, 0, s.len() - suffix.len());
        assert(out@ =~= s@.take(s@.len() - suffix@.len()));
        out
    } else {
        s
    }
}

/// The part of `s` before the first character that is among `stops`.
pub fn take_before<'a>(s: &'a [char], stops: &[char]) -> (out: &'a [char])
    ensures
        out@ == before_any(s@, stops@),
{
    let k = stop_position(s, stops);
    let out = slice_subrange(s, 0, k);
    assert(out@ =~= s@.take(k as int));
    out
}

// ---------------------------------------------------------------------------
// Splitting

/// The parts of `s` between the separators `sep`: one more than there are separators.
pub open spec fn split(s: Seq<char>, sep: char) -> Seq<Seq<char>>
    decreases s.len(),
{
    let k = stop_index(s, seq![sep]);
    if 0 <= k < s.len() {
        seq![s.take(k)] + split(s.skip(k + 1), sep)
    } else {
        seq![s]
    }
}

/// The sequences that a vector of slices stands for.
pub open spec fn parts(v: Seq<&[char]>) -> Seq<Seq<char>> {
    v.map_values(|p: &[char]| p@)
}

/// What the slices of a vector stand for, one by one.
pub proof fn lemma_parts(v: Seq<&[char]>, pieces: Seq<Seq<char>>)
    requires
        parts(v) == pieces,
    ensures
        v.len() == pieces.len(),
        forall|i: int| 0 <= i < pieces.len() ==> #[trigger] v[i]@ == pieces[i],
{
    assert forall|i: int| 0 <= i < pieces.len() implies #[trigger] v[i]@ == pieces[i] by {
        assert(parts(v)[i] == pieces[i]);
    }
}

/// The parts of `s` between the separators `sep`.
pub fn split_at_char(s: &[char], sep: char) -> (out: Vec<&[char]>)
    ensures
        parts(out@) == split(s@, sep),
        out@.len() > 0,
{
    let mut out: Vec<&[char]> = Vec::new();
    let mut from: usize = 0;
    let stops: [char; 1] = [sep];
    assert(stops@ =~= seq![sep]);
    assert(s@.skip(0) =~= s@);
    assert(parts(out@) + split(s@, sep) =~= split(s@, sep));
    loop
        invariant
            from <= s@.len(),
            stops@ == seq![sep],
            parts(out@) + split(s@.skip(from as int), sep) == split(s@, sep),
        decreases s@.len() - from,
    {
        let rest = slice_subrange(s, from, s.len());
        assert(rest@ =~= s@.skip(from as int));
        let k = stop_position(rest, &stops);
        let ghost before = out@;
        if k == rest.len() {
            out.push(rest);
            assert(parts(out@) =~= parts(before) + seq![rest@]);
            return out;
        }
        let part = slice_subrange(rest, 0, k);
        out.push(part);
        proof {
            assert(part@ =~= rest@.take(k as int));
            assert(rest@.skip(k + 1) =~= s@.skip(from + k + 1));
            assert(parts(out@) =~= parts(before) + seq![part@]);
            assert(parts(before) + (seq![part@] + split(rest@.skip(k + 1), sep)) =~= parts(out@)
                + split(s@.skip(from + k + 1), sep));
        }
        from = from + k + 1;
    }
}

/// A split has at least one part, and no part holds the separator.
pub proof fn lemma_split_parts(s: Seq<char>, sep: char)
    ensures
        split(s, sep).len() > 0,
        forall|i: int| 0 <= i < split(s, sep).len() ==> !(#[trigger] split(s, sep)[i]).contains(sep),
        s.contains(sep) == (split(s, sep).len() > 1),
    decreases s.len(),
{
    let stops = seq![sep];
    lemma_stop_index(s, stops);
    let k = stop_index(s, stops);
    assert(stops[0] == sep);
    if k < s.len() {
        lemma_split_parts(s.skip(k + 1), sep);
        let rest = split(s.skip(k + 1), sep);
        assert(split(s, sep) == seq![s.take(k)] + rest);
        assert forall|i: int| 0 <= i < split(s, sep).len() implies !(#[trigger] split(
            s,
            sep,
        )[i]).contains(sep) by {
            if i == 0 {
                assert forall|j: int| 0 <= j < k implies s.take(k)[j] != sep by {
                    assert(!stops.contains(s[j]));
                }
            } else {
                assert(split(s, sep)[i] == rest[i - 1]);
            }
        }
        assert(stops.contains(s[k]));
        assert(s[k] == sep);
    } else {
        assert forall|j: int| 0 <= j < s.len() implies s[j] != sep by {
            assert(!stops.contains(s[j]));
        }
    }
}

/// How a split unfolds by one character.
pub proof fn lemma_split_step(s: Seq<char>, sep: char)
    requires
        s.len() > 0,
    ensures
        split(s.skip(1), sep).len() > 0,
        s[0] == sep ==> split(s, sep) == seq![Seq::<char>::empty()] + split(s.skip(1), sep),
        s[0] != sep ==> split(s, sep) == seq![seq![s[0]] + split(s.skip(1), sep)[0]] + split(
            s.skip(1),
            sep,
        ).skip(1),
{
    let stops = seq![sep];
    let tail = s.skip(1);
    assert(stops[0] == sep);
    lemma_split_parts(tail, sep);
    if s[0] == sep {
        assert(stops.contains(s[0]));
        assert(stop_index(s, stops) == 0);
        assert(s.take(0) =~= Seq::<char>::empty());
    } else {
        assert(!stops.contains(s[0]));
        lemma_stop_index(tail, stops);
        let k = stop_index(tail, stops);
        assert(stop_index(s, stops) == k + 1);
        if k < tail.len() {
            assert(s.take(k + 1) =~= seq![s[0]] + tail.take(k));
            assert(s.skip(k + 2) =~= tail.skip(k + 1));
            assert(split(tail, sep).skip(1) =~= split(tail.skip(k + 1), sep));
        } else {
            assert(s =~= seq![s[0]] + tail);
            assert(split(s, sep) =~= seq![seq![s[0]] + split(tail, sep)[0]] + split(tail, sep).skip(
                1,
            ));
        }
    }
}

/// A text without the separator is its only part.
pub proof fn lemma_split_one(s: Seq<char>, sep: char)
    requires
        !s.contains(sep),
    ensures
        split(s, sep) == seq![s],
{
    lemma_split_parts(s, sep);
    lemma_stop_index(s, seq![sep]);
}

/// A separator between two texts separates their parts.
pub proof fn lemma_split_concat(a: Seq<char>, b: Seq<char>, sep: char)
    ensures
        split(a + seq![sep] + b, sep) == split(a, sep) + split(b, sep),
    decreases a.len(),
{
    let stops = seq![sep];
    let s = a + stops + b;
    let k = stop_index(a, stops);
    lemma_stop_index(a, stops);
    assert(stops[0] == sep);
    assert(stops.contains(sep));
    assert forall|j: int| 0 <= j < k implies !stops.contains(#[trigger] s[j]) by {
        assert(s[j] == a[j]);
    }
    if k < a.len() {
        assert(s[k] == a[k]);
        lemma_stop_index_is(s, stops, k);
        lemma_split_concat(a.skip(k + 1), b, sep);
        assert(s.take(k) =~= a.take(k));
        assert(s.skip(k + 1) =~= a.skip(k + 1) + stops + b);
        let rest = split(a.skip(k + 1), sep);
        assert(seq![a.take(k)] + (rest + split(b, sep)) =~= (seq![a.take(k)] + rest) + split(
            b,
            sep,
        ));
    } else {
        assert(s[k] == sep);
        lemma_stop_index_is(s, stops, k);
        assert(s.take(k) =~= a);
        assert(s.skip(k + 1) =~= b);
    }
}

// ---------------------------------------------------------------------------
// Replacing

/// `s` with each `pat` in it, taken from the left and not overlapping, replaced by `with`.
pub open spec fn replaced(s: Seq<char>, pat: Seq<char>, with: Seq<char>) -> Seq<char>
    decreases s.len(),
{
    if s.len() == 0 || pat.len() == 0 {
        s
    } else if occurs_at(s, pat, 0) {
        with + replaced(s.skip(pat.len() as int), pat, with)
    } else {
        seq![s[0]] + replaced(s.skip(1), pat, with)
    }
}

/// `s` with each `pat` in it, taken from the left and not overlapping, replaced by `with`.
pub fn replace(s: &str, pat: &str, with: &str) -> (out: String)
    requires
        pat@.len() > 0,
    ensures
        out@ == replaced(s@, pat@, with@),
{
    let s_chars = to_chars(s);
    let pat_chars = to_chars(pat);
    let with_chars = to_chars(with);
    let n: usize = s_chars.len();
    let m: usize = pat_chars.len();
    let mut out = String::new();
    let mut i: usize = 0;
    assert(s@.skip(0) =~= s@);
    assert(out@ + replaced(s@, pat@, with@) =~= replaced(s@, pat@, with@));
    while i < n
        invariant
            s_chars@ == s@,
            pat_chars@ == pat@,
            with_chars@ == with@,
            n == s@.len(),
            m == pat@.len(),
            m > 0,
            i <= n,
            out@ + replaced(s@.skip(i as int), pat@, with@) == replaced(s@, pat@, with@),
        decreases n - i,
    {
        let ghost before = out@;
        let ghost rest = s@.skip(i as int);
        if stands_at(s_chars.as_slice(), pat_chars.as_slice(), i) {
            assert(rest.subrange(0, m as int) =~= s@.subrange(i as int, i + m));
            push_chars(&mut out, with_chars.as_slice());
            assert(rest.skip(m as int) =~= s@.skip(i + m));
            assert(before + (with@ + replaced(s@.skip(i + m), pat@, with@)) =~= out@ + replaced(
                s@.skip(i + m),
                pat@,
                with@,
            ));
            i += m;
        } else {
            proof {
                if occurs_at(rest, pat@, 0) {
                    assert(rest.subrange(0, m as int) =~= s@.subrange(i as int, i + m));
                }
            }
            out.push(s_chars[i]);
            assert(rest.skip(1) =~= s@.skip(i + 1));
            assert(before + (seq![rest[0]] + replaced(s@.skip(i + 1), pat@, with@)) =~= out@
                + replaced(s@.skip(i + 1), pat@, with@));
            i += 1;
        }
    }
    assert(out@ + replaced(s@.skip(n as int), pat@, with@) =~= out@);
    out
}

// ---------------------------------------------------------------------------
// Numbers

/// The decimal digit of `d`, for `d` below ten.
pub open spec fn digit(d: int) -> char {
    (('0' as u8) + d) as char
}

/// `n` in decimal, without leading zeros.
pub open spec fn decimal(n: nat) -> Seq<char>
    decreases n,
{
    if n < 10 {
        seq![digit(n as int)]
    } else {
        decimal(n / 10).push(digit((n % 10) as int))
    }
}

/// Appends `n` in decimal to `out`.
pub fn push_decimal(out: &mut String, n: usize)
    ensures
        final(out)@ == old(out)@ + decimal(n as nat),
    decreases n,
{
    if n >= 10 {
        push_decimal(out, n / 10);
    }
    let d: u8 = (n % 10) as u8;
    out.push(('0' as u8 + d) as char);
}

/// The hexadecimal digit of `d`, for `d` below sixteen, in small letters.
pub open spec fn hex_digit(d: int) -> char {
    if d < 10 {
        (('0' as u8) + d) as char
    } else {
        (('a' as u8) + (d - 10)) as char
    }
}

/// The hexadecimal digit of `d`.
pub fn hex_char(d: u8) -> (c: char)
    requires
        d < 16,
    ensures
        c == hex_digit(d as int),
{
    if d < 10 {
        ('0' as u8 + d) as char
    } else {
        ('a' as u8 + (d - 10)) as char
    }
}

} // verus!
