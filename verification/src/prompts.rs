//! Prompt templates that users can override.
//!
//! A prompt is read from `.thclaws/prompt/<name>.md` in the project, else from
//! `thclaws/prompt/<name>.md` in the user's configuration directory, else it is
//! the built-in default. `{variable}` in it is filled in; placeholders that
//! nothing fills are left alone, so that typos are seen.

use vstd::prelude::*;

use crate::branding;
use crate::branding::{apply_template, Branding};
use crate::paths;
use crate::paths::join_path;
use crate::text;
use crate::text::replace;

verus! {

// ---------------------------------------------------------------------------
// Where prompts stand

/// The file name of a prompt.
pub open spec fn prompt_file(name: Seq<char>) -> Seq<char> {
    name + ".md"@
}

fn file_name(name: &str) -> (file: String)
    ensures
        file@ == prompt_file(name@),
{
    let mut file = String::new();
    file.append(name);
    file.append(".md");
    file
}

/// The override of a prompt in the project.
pub open spec fn project_prompt(current_dir: Option<Seq<char>>, name: Seq<char>) -> Seq<char> {
    let dir = match current_dir {
        Some(d) => d,
        None => "."@,
    };
    paths::joined(
        paths::joined(paths::joined(dir, ".thclaws"@), "prompt"@),
        prompt_file(name),
    )
}

/// Where the project's override of the prompt `name` stands. Where the current
/// directory is not known, `.` stands for it.
pub fn project_path(current_dir: Option<&str>, name: &str) -> (path: String)
    ensures
        path@ == project_prompt(text::option_view(current_dir), name@),
{
    let dir = match current_dir {
        Some(d) => d,
        None => ".",
    };
    let dotted = join_path(dir, ".thclaws");
    let prompts = join_path(dotted.as_str(), "prompt");
    join_path(prompts.as_str(), file_name(name).as_str())
}

/// The user's override of a prompt, below the configuration directory.
pub open spec fn user_prompt(
    config_home: Option<Seq<char>>,
    home: Option<Seq<char>>,
    name: Seq<char>,
) -> Option<Seq<char>> {
    let base = match (config_home, home) {
        (Some(c), _) => Some(c),
        (None, Some(h)) => Some(paths::joined(h, ".config"@)),
        (None, None) => None,
    };
    match base {
        Some(b) => Some(
            paths::joined(
                paths::joined(paths::joined(b, "thclaws"@), "prompt"@),
                prompt_file(name),
            ),
        ),
        None => None,
    }
}

/// Where the user's override of the prompt `name` stands: below the
/// configuration directory where one is set, else below `.config` at home.
pub fn user_path(config_home: Option<&str>, home: Option<&str>, name: &str) -> (path: Option<
    String,
>)
    ensures
        text::optional_text(path) == user_prompt(
            text::option_view(config_home),
            text::option_view(home),
            name@,
        ),
{
    let base = match config_home {
        Some(c) => c.to_string(),
        None => match home {
            Some(h) => join_path(h, ".config"),
            None => {
                return None;
            },
        },
    };
    let ours = join_path(base.as_str(), "thclaws");
    let prompts = join_path(ours.as_str(), "prompt");
    Some(join_path(prompts.as_str(), file_name(name).as_str()))
}

// ---------------------------------------------------------------------------
// Loading

/// The template in force: the project's, else the user's, else the default.
pub open spec fn chosen(
    project: Option<Seq<char>>,
    user: Option<Seq<char>>,
    default: Seq<char>,
) -> Seq<char> {
    match (project, user) {
        (Some(p), _) => p,
        (None, Some(u)) => u,
        (None, None) => default,
    }
}

/// The template in force, from the overrides that could be read, with the
/// branding filled in.
pub fn load(project: Option<&str>, user: Option<&str>, default: &str, b: &Branding) -> (template:
    String)
    ensures
        template@ == branding::branded(
            chosen(text::option_view(project), text::option_view(user), default@),
            b@,
        ),
{
    let raw = match project {
        Some(p) => p,
        None => match user {
            Some(u) => u,
            None => default,
        },
    };
    apply_template(raw, b)
}

// ---------------------------------------------------------------------------
// Rendering

/// `{key}`.
pub open spec fn placeholder(key: Seq<char>) -> Seq<char> {
    seq!['{'] + key + seq!['}']
}

/// The texts of the variables.
pub open spec fn vars_view(vars: Seq<(&str, &str)>) -> Seq<(Seq<char>, Seq<char>)> {
    vars.map_values(|v: (&str, &str)| (v.0@, v.1@))
}

/// The template with each variable filled in, one after another.
pub open spec fn rendered(
    template: Seq<char>,
    vars: Seq<(Seq<char>, Seq<char>)>,
) -> Seq<char>
    decreases vars.len(),
{
    if vars.len() == 0 {
        template
    } else {
        text::replaced(
            rendered(template, vars.drop_last()),
            placeholder(vars.last().0),
            vars.last().1,
        )
    }
}

/// Replaces each `{key}` with its value, in the order of `vars`. Placeholders
/// that are not among them are left alone.
pub fn render(template: &str, vars: &[(&str, &str)]) -> (out: String)
    ensures
        out@ == rendered(template@, vars_view(vars@)),
{
    let ghost all = vars_view(vars@);
    let mut out = template.to_string();
    for i in 0..vars.len()
        invariant
            all == vars_view(vars@),
            out@ == rendered(template@, all.take(i as int)),
    {
        let (key, value) = vars[i];
        let mut slot = String::new();
        slot.push('{');
        slot.append(key);
        slot.push('}');
        assert(slot@ =~= placeholder(key@));
        out = replace(out.as_str(), slot.as_str(), value);
        assert(all.take(i + 1).drop_last() =~= all.take(i as int));
        assert(all.take(i + 1).last() == (key@, value@));
    }
    assert(all.take(all.len() as int) =~= all);
    out
}

/// Loads a template and fills in its variables.
pub fn render_named(
    project: Option<&str>,
    user: Option<&str>,
    default: &str,
    b: &Branding,
    vars: &[(&str, &str)],
) -> (out: String)
    ensures
        out@ == rendered(
            branding::branded(
                chosen(text::option_view(project), text::option_view(user), default@),
                b@,
            ),
            vars_view(vars@),
        ),
{
    let template = load(project, user, default, b);
    render(template.as_str(), vars)
}

// ---------------------------------------------------------------------------
// Placeholders that nothing fills

/// A text without braces.
pub open spec fn brace_free(s: Seq<char>) -> bool {
    !s.contains('{') && !s.contains('}')
}

/// What holds no `{` is no start of a placeholder, and stays as it is.
pub proof fn lemma_no_open_brace(x: Seq<char>, rest: Seq<char>, key: Seq<char>, value: Seq<char>)
    requires
        !x.contains('{'),
    ensures
        text::replaced(x + rest, placeholder(key), value) == x + text::replaced(
            rest,
            placeholder(key),
            value,
        ),
    decreases x.len(),
{
    let slot = placeholder(key);
    let s = x + rest;
    if x.len() == 0 {
        assert(s =~= rest);
        assert(x + text::replaced(rest, slot, value) =~= text::replaced(rest, slot, value));
    } else {
        assert(s[0] == x[0]);
        assert(slot[0] == '{');
        if text::occurs_at(s, slot, 0) {
            assert(s.subrange(0, slot.len() as int)[0] == s[0]);
        }
        assert(s.skip(1) =~= x.skip(1) + rest);
        assert(!x.skip(1).contains('{')) by {
            if x.skip(1).contains('{') {
                let i = choose|i: int| 0 <= i < x.skip(1).len() && x.skip(1)[i] == '{';
                assert(x[i + 1] == '{');
            }
        }
        lemma_no_open_brace(x.skip(1), rest, key, value);
        assert(seq![x[0]] + (x.skip(1) + text::replaced(rest, slot, value)) =~= x + text::replaced(
            rest,
            slot,
            value,
        ));
    }
}

/// A placeholder with one name is nowhere a placeholder with another.
pub proof fn lemma_other_placeholder(
    other: Seq<char>,
    rest: Seq<char>,
    key: Seq<char>,
    value: Seq<char>,
)
    requires
        brace_free(other),
        brace_free(key),
        other != key,
    ensures
        text::replaced(placeholder(other) + rest, placeholder(key), value) == placeholder(other)
            + text::replaced(rest, placeholder(key), value),
{
    let slot = placeholder(key);
    let kept = placeholder(other);
    let s = kept + rest;
    let tail = other + seq!['}'];
    if text::occurs_at(s, slot, 0) {
        let n = key.len() as int;
        let m = other.len() as int;
        assert forall|i: int| 0 <= i < n + 2 implies s[i] == slot[i] by {
            assert(s.subrange(0, slot.len() as int)[i] == slot[i]);
        }
        if n < m {
            assert(slot[n + 1] == '}');
            assert(other[n] == '}');
        } else if m < n {
            assert(kept[m + 1] == '}');
            assert(s[m + 1] == slot[m + 1]);
            assert(slot[m + 1] == key[m]);
        } else {
            assert forall|i: int| 0 <= i < n implies key[i] == other[i] by {
                assert(slot[i + 1] == key[i]);
                assert(kept[i + 1] == other[i]);
            }
            assert(key =~= other);
        }
    }
    assert(!tail.contains('{')) by {
        if tail.contains('{') {
            let i = choose|i: int| 0 <= i < tail.len() && tail[i] == '{';
            assert(other[i] == '{');
        }
    }
    lemma_no_open_brace(tail, rest, key, value);
    assert(s.skip(1) =~= tail + rest);
    assert(s[0] == '{');
    assert(seq!['{'] + (tail + text::replaced(rest, slot, value)) =~= kept + text::replaced(
        rest,
        slot,
        value,
    ));
}

/// Filling in one variable leaves a placeholder of another name in its place,
/// and what stands before and after it is filled in by itself.
pub proof fn law_replacing_keeps_other_placeholders(
    before: Seq<char>,
    other: Seq<char>,
    after: Seq<char>,
    key: Seq<char>,
    value: Seq<char>,
)
    requires
        brace_free(other),
        brace_free(key),
        other != key,
    ensures
        text::replaced(before + placeholder(other) + after, placeholder(key), value)
            == text::replaced(before, placeholder(key), value) + placeholder(other)
            + text::replaced(after, placeholder(key), value),
    decreases before.len(),
{
    let slot = placeholder(key);
    let kept = placeholder(other);
    let s = before + kept + after;
    let done = text::replaced(after, slot, value);
    if before.len() == 0 {
        assert(s =~= kept + after);
        lemma_other_placeholder(other, after, key, value);
        assert(text::replaced(before, slot, value) =~= Seq::<char>::empty());
        assert(text::replaced(before, slot, value) + kept + done =~= kept + done);
    } else {
        let n = slot.len() as int;
        if text::occurs_at(s, slot, 0) {
            if n > before.len() {
                let i = before.len() as int;
                assert(s.subrange(0, n)[i] == s[i]);
                assert(s[i] == kept[0]);
                assert(slot[i] == '{');
                if i < n - 1 {
                    assert(key[i - 1] == '{');
                }
            }
            assert(before.subrange(0, n) =~= s.subrange(0, n));
            assert(s.skip(n) =~= before.skip(n) + kept + after);
            law_replacing_keeps_other_placeholders(before.skip(n), other, after, key, value);
            let rest = text::replaced(before.skip(n), slot, value);
            assert(value + (rest + kept + done) =~= (value + rest) + kept + done);
        } else {
            if text::occurs_at(before, slot, 0) {
                assert(s.subrange(0, n) =~= before.subrange(0, n));
            }
            assert(s[0] == before[0]);
            assert(s.skip(1) =~= before.skip(1) + kept + after);
            law_replacing_keeps_other_placeholders(before.skip(1), other, after, key, value);
            let rest = text::replaced(before.skip(1), slot, value);
            assert(seq![s[0]] + (rest + kept + done) =~= (seq![before[0]] + rest) + kept + done);
        }
    }
}

/// Filling in a variable puts its value for its placeholder, and what stands
/// before and after is filled in by itself.
pub proof fn law_replacing_fills_the_placeholder(
    before: Seq<char>,
    after: Seq<char>,
    key: Seq<char>,
    value: Seq<char>,
)
    requires
        brace_free(key),
    ensures
        text::replaced(before + placeholder(key) + after, placeholder(key), value)
            == text::replaced(before, placeholder(key), value) + value + text::replaced(
            after,
            placeholder(key),
            value,
        ),
    decreases before.len(),
{
    let slot = placeholder(key);
    let n = slot.len() as int;
    let s = before + slot + after;
    let done = text::replaced(after, slot, value);
    if before.len() == 0 {
        assert(s.subrange(0, n) =~= slot);
        assert(s.skip(n) =~= after);
        assert(text::replaced(before, slot, value) =~= Seq::<char>::empty());
        assert(text::replaced(before, slot, value) + value + done =~= value + done);
    } else if text::occurs_at(s, slot, 0) {
        if n > before.len() {
            let i = before.len() as int;
            assert(s.subrange(0, n)[i] == s[i]);
            assert(s[i] == slot[0]);
            assert(slot[i] == '{');
            if i < n - 1 {
                assert(key[i - 1] == '{');
            }
        }
        assert(before.subrange(0, n) =~= s.subrange(0, n));
        assert(s.skip(n) =~= before.skip(n) + slot + after);
        law_replacing_fills_the_placeholder(before.skip(n), after, key, value);
        let rest = text::replaced(before.skip(n), slot, value);
        assert(value + (rest + value + done) =~= (value + rest) + value + done);
    } else {
        if text::occurs_at(before, slot, 0) {
            assert(s.subrange(0, n) =~= before.subrange(0, n));
        }
        assert(s[0] == before[0]);
        assert(s.skip(1) =~= before.skip(1) + slot + after);
        law_replacing_fills_the_placeholder(before.skip(1), after, key, value);
        let rest = text::replaced(before.skip(1), slot, value);
        assert(seq![s[0]] + (rest + value + done) =~= (seq![before[0]] + rest) + value + done);
    }
}

/// A placeholder that no variable fills is left in place by [`render`], and what
/// stands before and after it is rendered by itself.
pub proof fn law_unknown_placeholders_are_left_alone(
    before: Seq<char>,
    unknown: Seq<char>,
    after: Seq<char>,
    vars: Seq<(Seq<char>, Seq<char>)>,
)
    requires
        brace_free(unknown),
        forall|i: int|
            0 <= i < vars.len() ==> brace_free((#[trigger] vars[i]).0) && vars[i].0 != unknown,
    ensures
        rendered(before + placeholder(unknown) + after, vars) == rendered(before, vars)
            + placeholder(unknown) + rendered(after, vars),
    decreases vars.len(),
{
    if vars.len() > 0 {
        let init = vars.drop_last();
        assert forall|i: int| 0 <= i < init.len() implies brace_free((#[trigger] init[i]).0)
            && init[i].0 != unknown by {
            assert(init[i] == vars[i]);
        }
        law_unknown_placeholders_are_left_alone(before, unknown, after, init);
        assert(vars[vars.len() - 1] == vars.last());
        law_replacing_keeps_other_placeholders(
            rendered(before, init),
            unknown,
            rendered(after, init),
            vars.last().0,
            vars.last().1,
        );
    }
}

/// Branding a template leaves every placeholder but its own two in place, so that
/// the variables of a prompt are still there to be rendered.
pub proof fn law_branding_leaves_other_placeholders_alone(
    before: Seq<char>,
    other: Seq<char>,
    after: Seq<char>,
    look: branding::Look,
)
    requires
        brace_free(other),
        other != "product"@,
        other != "support_email"@,
    ensures
        branding::branded(before + placeholder(other) + after, look) == branding::branded(
            before,
            look,
        ) + placeholder(other) + branding::branded(after, look),
{
    lemma_branding_placeholders();
    law_replacing_keeps_other_placeholders(before, other, after, "product"@, look.name);
    law_replacing_keeps_other_placeholders(
        text::replaced(before, "{product}"@, look.name),
        other,
        text::replaced(after, "{product}"@, look.name),
        "support_email"@,
        look.support_email,
    );
}

// ---------------------------------------------------------------------------
// Branding that leaves nothing to brand

/// What goes in for a placeholder makes no new `pat`: it holds no brace, and some
/// character that `pat` does not hold.
pub open spec fn foreign(value: Seq<char>, pat: Seq<char>) -> bool {
    brace_free(value) && exists|i: int|
        0 <= i < value.len() && !pat.contains(#[trigger] value[i])
}

/// A text without a pattern stays as it is.
proof fn lemma_nothing_to_replace(s: Seq<char>, pat: Seq<char>, value: Seq<char>)
    requires
        pat.len() > 0,
        !text::contains_text(s, pat),
    ensures
        text::replaced(s, pat, value) == s,
    decreases s.len(),
{
    if s.len() > 0 {
        assert(!text::occurs_at(s, pat, 0));
        let rest = s.skip(1);
        assert forall|i: int| #[trigger] text::occurs_at(rest, pat, i) implies false by {
            assert(s.subrange(i + 1, i + 1 + pat.len()) =~= rest.subrange(i, i + pat.len()));
            assert(text::occurs_at(s, pat, i + 1));
        }
        lemma_nothing_to_replace(rest, pat, value);
        assert(seq![s[0]] + rest =~= s);
    } else {
        assert(text::replaced(s, pat, value) =~= s);
    }
}

/// Where a text starts with the end of a placeholder once a variable was filled in,
/// it started so before.
proof fn lemma_end_of_placeholder(s: Seq<char>, slot: Seq<char>, value: Seq<char>, q: Seq<char>)
    requires
        slot.len() > 0,
        foreign(value, q),
        q.len() > 0 ==> q.last() == '}',
        text::occurs_at(text::replaced(s, slot, value), q, 0),
    ensures
        text::occurs_at(s, q, 0),
    decreases q.len(),
{
    let r = text::replaced(s, slot, value);
    let n = q.len() as int;
    if n == 0 {
        assert(s.subrange(0, 0) =~= q);
    } else {
        assert forall|i: int| 0 <= i < n implies r[i] == q[i] by {
            assert(r.subrange(0, n)[i] == q[i]);
        }
        if s.len() == 0 {
            assert(r.len() == 0);
        } else if text::occurs_at(s, slot, 0) {
            let c = choose|i: int| 0 <= i < value.len() && !q.contains(#[trigger] value[i]);
            if n >= value.len() {
                assert(r[c] == value[c]);
                assert(q[c] == value[c]);
            } else {
                assert(r[n - 1] == value[n - 1]);
                assert(value.contains(value[n - 1]));
            }
        } else {
            let q2 = q.skip(1);
            let s2 = s.skip(1);
            let r2 = text::replaced(s2, slot, value);
            assert(r == seq![s[0]] + r2);
            assert(r2.subrange(0, n - 1) =~= q2) by {
                assert forall|i: int| 0 <= i < n - 1 implies r2.subrange(0, n - 1)[i] == q2[i] by {
                    assert(r[i + 1] == q[i + 1]);
                }
            }
            let c = choose|i: int| 0 <= i < value.len() && !q.contains(#[trigger] value[i]);
            assert(!q2.contains(value[c])) by {
                if q2.contains(value[c]) {
                    let i = choose|i: int| 0 <= i < q2.len() && q2[i] == value[c];
                    assert(q[i + 1] == value[c]);
                }
            }
            lemma_end_of_placeholder(s2, slot, value, q2);
            assert(s.subrange(0, n) =~= q) by {
                assert forall|i: int| 0 <= i < n implies s.subrange(0, n)[i] == q[i] by {
                    if i > 0 {
                        assert(s2.subrange(0, n - 1)[i - 1] == q2[i - 1]);
                    } else {
                        assert(r[0] == q[0]);
                    }
                }
            }
        }
    }
}

/// Filling in a variable makes no placeholder that was not there, and leaves none
/// of its own.
proof fn lemma_no_new_placeholder(
    s: Seq<char>,
    key: Seq<char>,
    value: Seq<char>,
    other: Seq<char>,
)
    requires
        foreign(value, placeholder(other)),
    ensures
        text::contains_text(text::replaced(s, placeholder(key), value), placeholder(other)) ==> (
        key != other && text::contains_text(s, placeholder(other))),
    decreases s.len(),
{
    let slot = placeholder(key);
    let pat = placeholder(other);
    let r = text::replaced(s, slot, value);
    if text::contains_text(r, pat) {
        let i = choose|i: int| text::occurs_at(r, pat, i);
        let n = pat.len() as int;
        assert(r.subrange(i, i + n)[0] == r[i]);
        assert(pat[0] == '{');
        if s.len() == 0 {
            assert(r.len() == 0);
        } else if text::occurs_at(s, slot, 0) {
            let m = value.len() as int;
            let rest = s.skip(slot.len() as int);
            let tail = text::replaced(rest, slot, value);
            assert(r == value + tail);
            if i < m {
                assert(r[i] == value[i]);
                assert(value.contains(value[i]));
            }
            assert(tail.subrange(i - m, i - m + n) =~= r.subrange(i, i + n));
            assert(text::occurs_at(tail, pat, i - m));
            lemma_no_new_placeholder(rest, key, value, other);
            let j = choose|j: int| text::occurs_at(rest, pat, j);
            let k = j + slot.len();
            assert(s.subrange(k, k + n) =~= rest.subrange(j, j + n));
            assert(text::occurs_at(s, pat, k));
        } else {
            let rest = s.skip(1);
            let tail = text::replaced(rest, slot, value);
            assert(r == seq![s[0]] + tail);
            if i == 0 {
                lemma_end_of_placeholder(s, slot, value, pat);
                assert(text::occurs_at(s, pat, 0));
            } else {
                assert(tail.subrange(i - 1, i - 1 + n) =~= r.subrange(i, i + n));
                assert(text::occurs_at(tail, pat, i - 1));
                lemma_no_new_placeholder(rest, key, value, other);
                let j = choose|j: int| text::occurs_at(rest, pat, j);
                assert(s.subrange(j + 1, j + 1 + n) =~= rest.subrange(j, j + n));
                assert(text::occurs_at(s, pat, j + 1));
            }
        }
    }
}

/// The name and the contact of a look make no placeholder of the branding where
/// they go in.
pub open spec fn settled(look: branding::Look) -> bool {
    &&& foreign(look.name, "{product}"@)
    &&& foreign(look.name, "{support_email}"@)
    &&& foreign(look.support_email, "{product}"@)
    &&& foreign(look.support_email, "{support_email}"@)
}

/// Branding leaves neither of its placeholders, leaves alone what holds neither,
/// and so does nothing more the second time.
pub proof fn law_branding_settles(template: Seq<char>, look: branding::Look)
    requires
        settled(look),
    ensures
        ({
            let once = branding::branded(template, look);
            &&& !text::contains_text(once, "{product}"@)
            &&& !text::contains_text(once, "{support_email}"@)
            &&& branding::branded(once, look) == once
        }),
        !text::contains_text(template, "{product}"@) && !text::contains_text(
            template,
            "{support_email}"@,
        ) ==> branding::branded(template, look) == template,
{
    lemma_branding_placeholders();
    let named = text::replaced(template, "{product}"@, look.name);
    let once = branding::branded(template, look);
    lemma_no_new_placeholder(template, "product"@, look.name, "product"@);
    lemma_no_new_placeholder(named, "support_email"@, look.support_email, "product"@);
    lemma_no_new_placeholder(named, "support_email"@, look.support_email, "support_email"@);
    lemma_nothing_to_replace(once, "{product}"@, look.name);
    lemma_nothing_to_replace(once, "{support_email}"@, look.support_email);
    if !text::contains_text(template, "{product}"@) && !text::contains_text(
        template,
        "{support_email}"@,
    ) {
        lemma_nothing_to_replace(template, "{product}"@, look.name);
        lemma_nothing_to_replace(template, "{support_email}"@, look.support_email);
    }
}

/// The placeholders of the branding, by their names.
pub proof fn lemma_branding_placeholders()
    ensures
        "{product}"@ == placeholder("product"@),
        "{support_email}"@ == placeholder("support_email"@),
        brace_free("product"@),
        brace_free("support_email"@),
{
    reveal_strlit("product");
    reveal_strlit("{product}");
    reveal_strlit("support_email");
    reveal_strlit("{support_email}");
    assert("{product}"@ =~= placeholder("product"@));
    assert("{support_email}"@ =~= placeholder("support_email"@));
}

/// The product's own branding settles every template.
pub proof fn law_default_branding_settles(template: Seq<char>)
    ensures
        ({
            let once = branding::branded(template, branding::default_look());
            &&& !text::contains_text(once, "{product}"@)
            &&& !text::contains_text(once, "{support_email}"@)
            &&& branding::branded(once, branding::default_look()) == once
        }),
        !text::contains_text(template, "{product}"@) && !text::contains_text(
            template,
            "{support_email}"@,
        ) ==> branding::branded(template, branding::default_look()) == template,
{
    let look = branding::default_look();
    reveal_strlit("{product}");
    reveal_strlit("{support_email}");
    reveal_strlit("thClaws");
    reveal_strlit("jimmy@thaigpt.com");
    assert(look.name[2] == 'C');
    assert(look.support_email[5] == '@');
    assert(!"{product}"@.contains(look.name[2]));
    assert(!"{support_email}"@.contains(look.name[2]));
    assert(!"{product}"@.contains(look.support_email[5]));
    assert(!"{support_email}"@.contains(look.support_email[5]));
    law_branding_settles(template, look);
}

} // verus!
