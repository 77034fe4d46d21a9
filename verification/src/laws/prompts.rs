//! Laws of prompts: where they stand, which one is used and how it is rendered.

use vstd::prelude::*;

use crate::prompts;
use crate::text;

verus! {

// ---------------------------------------------------------------------------
// Where prompts stand, and which one is used

/// The project's prompt stands below `.thclaws/prompt` in the current directory, or in
/// `.` where that is not known.
pub proof fn law_where_the_projects_prompt_stands(dir: Seq<char>, name: Seq<char>)
    requires
        name.len() > 0 ==> name[0] != '/',
    ensures
        dir.len() > 0 && dir.last() != '/' ==> prompts::project_prompt(Some(dir), name) == dir
            + "/.thclaws/prompt/"@ + name + ".md"@,
        prompts::project_prompt(None, name) == "./.thclaws/prompt/"@ + name + ".md"@,
{
    reveal_strlit("/.thclaws/prompt/");
    reveal_strlit("./.thclaws/prompt/");
    reveal_strlit(".thclaws");
    reveal_strlit("prompt");
    reveal_strlit(".");
    reveal_strlit(".md");
    let middle = "/.thclaws/prompt/"@;
    let sep = seq!['/'];
    assert(middle =~= sep + ".thclaws"@ + sep + "prompt"@ + sep);
    if dir.len() > 0 && dir.last() != '/' {
        let a = dir.push('/') + ".thclaws"@;
        let b = a.push('/') + "prompt"@;
        assert(b.push('/') + (name + ".md"@) =~= dir + middle + name + ".md"@);
    }
    let dot = "."@;
    let a = dot.push('/') + ".thclaws"@;
    let b = a.push('/') + "prompt"@;
    assert("./.thclaws/prompt/"@ =~= b.push('/'));
    assert(b.push('/') + (name + ".md"@) =~= "./.thclaws/prompt/"@ + name + ".md"@);
}

/// The user's prompt stands below `thclaws/prompt` in the configuration directory where
/// one is set, else in `.config` at home, and nowhere where neither is known.
pub proof fn law_where_the_users_prompt_stands(
    config: Seq<char>,
    home: Seq<char>,
    either: Option<Seq<char>>,
    name: Seq<char>,
)
    requires
        name.len() > 0 ==> name[0] != '/',
    ensures
        config.len() > 0 && config.last() != '/' ==> prompts::user_prompt(
            Some(config),
            either,
            name,
        ) == Some(config + "/thclaws/prompt/"@ + name + ".md"@),
        home.len() > 0 && home.last() != '/' ==> prompts::user_prompt(None, Some(home), name)
            == Some(home + "/.config/thclaws/prompt/"@ + name + ".md"@),
        prompts::user_prompt(None, None, name) is None,
{
    reveal_strlit("/thclaws/prompt/");
    reveal_strlit("/.config/thclaws/prompt/");
    reveal_strlit("thclaws");
    reveal_strlit("prompt");
    reveal_strlit(".config");
    reveal_strlit(".md");
    let sep = seq!['/'];
    if config.len() > 0 && config.last() != '/' {
        let a = config.push('/') + "thclaws"@;
        let b = a.push('/') + "prompt"@;
        assert("/thclaws/prompt/"@ =~= sep + "thclaws"@ + sep + "prompt"@ + sep);
        assert(b.push('/') + (name + ".md"@) =~= config + "/thclaws/prompt/"@ + name + ".md"@);
    }
    if home.len() > 0 && home.last() != '/' {
        let c = home.push('/') + ".config"@;
        let a = c.push('/') + "thclaws"@;
        let b = a.push('/') + "prompt"@;
        assert("/.config/thclaws/prompt/"@ =~= sep + ".config"@ + sep + "thclaws"@ + sep
            + "prompt"@ + sep);
        assert(b.push('/') + (name + ".md"@) =~= home + "/.config/thclaws/prompt/"@ + name
            + ".md"@);
    }
}

/// A slash at the end of a directory makes no difference to where prompts stand, an
/// empty directory adds nothing, and a name that is an absolute path stands alone.
pub proof fn law_directories_of_prompts(
    dir: Seq<char>,
    either: Option<Seq<char>>,
    name: Seq<char>,
    absolute: Seq<char>,
)
    requires
        absolute.len() > 0,
        absolute[0] == '/',
    ensures
        dir.len() > 0 && dir.last() != '/' ==> prompts::project_prompt(Some(dir.push('/')), name)
            == prompts::project_prompt(Some(dir), name),
        dir.len() > 0 && dir.last() != '/' ==> prompts::user_prompt(
            Some(dir.push('/')),
            either,
            name,
        ) == prompts::user_prompt(Some(dir), either, name),
        dir.len() > 0 && dir.last() != '/' ==> prompts::user_prompt(
            None,
            Some(dir.push('/')),
            name,
        ) == prompts::user_prompt(None, Some(dir), name),
        (name.len() > 0 ==> name[0] != '/') ==> prompts::project_prompt(Some(Seq::empty()), name)
            == ".thclaws/prompt/"@ + name + ".md"@,
        (name.len() > 0 ==> name[0] != '/') ==> prompts::user_prompt(
            Some(Seq::empty()),
            either,
            name,
        ) == Some("thclaws/prompt/"@ + name + ".md"@),
        prompts::project_prompt(either, absolute) == absolute + ".md"@,
        prompts::user_prompt(Some(dir), either, absolute) == Some(absolute + ".md"@),
        prompts::user_prompt(None, Some(dir), absolute) == Some(absolute + ".md"@),
{
    reveal_strlit(".thclaws/prompt/");
    reveal_strlit("thclaws/prompt/");
    reveal_strlit(".thclaws");
    reveal_strlit("thclaws");
    reveal_strlit("prompt");
    reveal_strlit(".config");
    reveal_strlit(".md");
    let none = Seq::<char>::empty();
    assert(none + ".thclaws"@ =~= ".thclaws"@);
    assert(none + "thclaws"@ =~= "thclaws"@);
    let a = ".thclaws"@.push('/') + "prompt"@;
    assert(a.push('/') + (name + ".md"@) =~= ".thclaws/prompt/"@ + name + ".md"@);
    let b = "thclaws"@.push('/') + "prompt"@;
    assert(b.push('/') + (name + ".md"@) =~= "thclaws/prompt/"@ + name + ".md"@);
}

/// The project's prompt is used before the user's, the user's before the default, and
/// each even where it is empty.
pub proof fn law_which_prompt_is_used(
    project: Seq<char>,
    user: Seq<char>,
    either: Option<Seq<char>>,
    default: Seq<char>,
)
    ensures
        prompts::chosen(Some(project), either, default) == project,
        prompts::chosen(None, Some(user), default) == user,
        prompts::chosen(None, None, default) == default,
{
}

// ---------------------------------------------------------------------------
// Rendering

/// A placeholder is its key between braces.
pub proof fn law_what_a_placeholder_is(key: Seq<char>)
    ensures
        prompts::placeholder(key).len() == key.len() + 2,
        prompts::placeholder(key)[0] == '{',
        prompts::placeholder(key).last() == '}',
        prompts::placeholder(key).subrange(1, 1 + key.len() as int) == key,
{
    assert(prompts::placeholder(key).subrange(1, 1 + key.len() as int) =~= key);
}

/// The texts of the variables are those of each, in their order.
pub proof fn law_what_variables_hold(vars: Seq<(&str, &str)>)
    ensures
        prompts::vars_view(vars).len() == vars.len(),
        forall|i: int|
            0 <= i < vars.len() ==> (#[trigger] prompts::vars_view(vars)[i]).0 == vars[i].0@
                && prompts::vars_view(vars)[i].1 == vars[i].1@,
{
}

/// Rendering with some variables and then with others is rendering with all of them,
/// and rendering with none changes nothing.
pub proof fn law_rendering_goes_on(
    template: Seq<char>,
    first: Seq<(Seq<char>, Seq<char>)>,
    later: Seq<(Seq<char>, Seq<char>)>,
)
    ensures
        prompts::rendered(template, first + later) == prompts::rendered(
            prompts::rendered(template, first),
            later,
        ),
        prompts::rendered(template, Seq::empty()) == template,
    decreases later.len(),
{
    let all = first + later;
    if later.len() == 0 {
        assert(all =~= first);
    } else {
        law_rendering_goes_on(template, first, later.drop_last());
        assert(all.drop_last() =~= first + later.drop_last());
        assert(all.last() == later.last());
    }
}

/// Rendering with one variable puts its value, whatever it is, for its placeholder
/// wherever that stands, and leaves alone a text in which it does not stand.
pub proof fn law_rendering_one_variable(
    before: Seq<char>,
    after: Seq<char>,
    key: Seq<char>,
    value: Seq<char>,
)
    requires
        !key.contains('{'),
        !key.contains('}'),
    ensures
        prompts::rendered(before + (seq!['{'] + key + seq!['}']) + after, seq![(key, value)])
            == prompts::rendered(before, seq![(key, value)]) + value + prompts::rendered(
            after,
            seq![(key, value)],
        ),
        (forall|i: int|
            0 <= i <= before.len() - (key.len() + 2) ==> #[trigger] before.subrange(
                i,
                i + key.len() + 2,
            ) != seq!['{'] + key + seq!['}']) ==> prompts::rendered(before, seq![(key, value)])
            == before,
{
    let one = seq![(key, value)];
    let slot = prompts::placeholder(key);
    assert(one.drop_last() =~= Seq::<(Seq<char>, Seq<char>)>::empty());
    assert(one.last() == (key, value));
    assert forall|s: Seq<char>| #[trigger] prompts::rendered(s, one) == text::replaced(
        s,
        slot,
        value,
    ) by {
        assert(prompts::rendered(s, one.drop_last()) == s);
    }
    prompts::law_replacing_fills_the_placeholder(before, after, key, value);
    if forall|i: int|
        0 <= i <= before.len() - (key.len() + 2) ==> #[trigger] before.subrange(
            i,
            i + key.len() + 2,
        ) != seq!['{'] + key + seq!['}'] {
        assert forall|i: int| !text::occurs_at(before, slot, i) by {
            if text::occurs_at(before, slot, i) {
                assert(before.subrange(i, i + key.len() + 2) == slot);
            }
        }
        crate::laws::text::law_nothing_to_replace(before, slot, value);
    }
}

/// The placeholder of the last variable is filled in with its value, empty or not,
/// wherever it stands and whatever the other variables hold.
pub proof fn law_the_last_variable_is_filled_in(
    before: Seq<char>,
    after: Seq<char>,
    vars: Seq<(Seq<char>, Seq<char>)>,
    key: Seq<char>,
    value: Seq<char>,
)
    requires
        !key.contains('{'),
        !key.contains('}'),
        forall|i: int|
            0 <= i < vars.len() ==> !(#[trigger] vars[i]).0.contains('{') && !vars[i].0.contains(
                '}',
            ) && vars[i].0 != key,
    ensures
        prompts::rendered(before + (seq!['{'] + key + seq!['}']) + after, vars.push((key, value)))
            == prompts::rendered(before, vars.push((key, value))) + value + prompts::rendered(
            after,
            vars.push((key, value)),
        ),
{
    let all = vars.push((key, value));
    assert(all.drop_last() =~= vars);
    assert(prompts::brace_free(key));
    assert forall|i: int| 0 <= i < vars.len() implies prompts::brace_free((#[trigger] vars[i]).0)
        && vars[i].0 != key by {
    }
    prompts::law_unknown_placeholders_are_left_alone(before, key, after, vars);
    prompts::law_replacing_fills_the_placeholder(
        prompts::rendered(before, vars),
        prompts::rendered(after, vars),
        key,
        value,
    );
}

/// The placeholder of any variable is filled in with its value, empty or not: what
/// stands before and after it is rendered with the variables up to that one, and the
/// later ones are then filled in over the whole.
pub proof fn law_each_variable_is_filled_in(
    before: Seq<char>,
    after: Seq<char>,
    first: Seq<(Seq<char>, Seq<char>)>,
    key: Seq<char>,
    value: Seq<char>,
    later: Seq<(Seq<char>, Seq<char>)>,
)
    requires
        !key.contains('{'),
        !key.contains('}'),
        forall|i: int|
            0 <= i < first.len() ==> !(#[trigger] first[i]).0.contains('{')
                && !first[i].0.contains('}') && first[i].0 != key,
    ensures
        prompts::rendered(
            before + (seq!['{'] + key + seq!['}']) + after,
            first.push((key, value)) + later,
        ) == prompts::rendered(
            prompts::rendered(before, first.push((key, value))) + value + prompts::rendered(
                after,
                first.push((key, value)),
            ),
            later,
        ),
{
    law_the_last_variable_is_filled_in(before, after, first, key, value);
    law_rendering_goes_on(
        before + (seq!['{'] + key + seq!['}']) + after,
        first.push((key, value)),
        later,
    );
}

// ---------------------------------------------------------------------------
// Templates piece by piece

/// A piece of a template: text, or a placeholder by its key.
pub enum Piece {
    Text(Seq<char>),
    Slot(Seq<char>),
}

/// A piece as it stands in a template.
pub open spec fn piece_text(piece: Piece) -> Seq<char> {
    match piece {
        Piece::Text(t) => t,
        Piece::Slot(k) => seq!['{'] + k + seq!['}'],
    }
}

/// A template, from its pieces.
pub open spec fn written(pieces: Seq<Piece>) -> Seq<char>
    decreases pieces.len(),
{
    if pieces.len() == 0 {
        Seq::empty()
    } else {
        piece_text(pieces[0]) + written(pieces.skip(1))
    }
}

/// The piece that comes of a piece: for a placeholder, the value of the first variable
/// of its name, or the placeholder itself where there is none.
pub open spec fn filled_piece(piece: Piece, vars: Seq<(Seq<char>, Seq<char>)>) -> Piece
    decreases vars.len(),
{
    match piece {
        Piece::Text(t) => piece,
        Piece::Slot(k) => if vars.len() == 0 {
            piece
        } else if vars[0].0 == k {
            Piece::Text(vars[0].1)
        } else {
            filled_piece(piece, vars.skip(1))
        },
    }
}

/// A placeholder is filled with the value of the first variable of its name.
proof fn lemma_filled_slot(k: Seq<char>, vars: Seq<(Seq<char>, Seq<char>)>, at: int)
    requires
        0 <= at < vars.len(),
        vars[at].0 == k,
        forall|j: int| 0 <= j < at ==> (#[trigger] vars[j]).0 != k,
    ensures
        filled_piece(Piece::Slot(k), vars) == Piece::Text(vars[at].1),
    decreases vars.len(),
{
    if at > 0 {
        assert(vars[0].0 != k);
        let rest = vars.skip(1);
        assert(rest[at - 1] == vars[at]);
        assert forall|j: int| 0 <= j < at - 1 implies (#[trigger] rest[j]).0 != k by {
            assert(rest[j] == vars[j + 1]);
        }
        lemma_filled_slot(k, rest, at - 1);
    }
}

/// One variable fills the placeholder of its name and no other.
proof fn lemma_filled_one(piece: Piece, var: (Seq<char>, Seq<char>))
    ensures
        filled_piece(piece, seq![var]) == match piece {
            Piece::Text(t) => piece,
            Piece::Slot(k) => if k == var.0 {
                Piece::Text(var.1)
            } else {
                piece
            },
        },
{
    let one = seq![var];
    assert(one[0] == var);
    assert(one.skip(1).len() == 0);
    assert(filled_piece(piece, one.skip(1)) == piece);
}

/// Filling in a first variable and then the others is filling in all of them.
proof fn lemma_filled_step(piece: Piece, vars: Seq<(Seq<char>, Seq<char>)>)
    requires
        vars.len() > 0,
    ensures
        filled_piece(piece, vars) == filled_piece(
            filled_piece(piece, seq![vars[0]]),
            vars.skip(1),
        ),
{
    lemma_filled_one(piece, vars[0]);
}

/// The pieces of a template with one variable filled in.
proof fn lemma_one_variable(pieces: Seq<Piece>, var: (Seq<char>, Seq<char>))
    requires
        prompts::brace_free(var.0),
        forall|i: int|
            0 <= i < pieces.len() ==> match #[trigger] pieces[i] {
                Piece::Text(t) => !t.contains('{'),
                Piece::Slot(k) => prompts::brace_free(k),
            },
    ensures
        text::replaced(written(pieces), prompts::placeholder(var.0), var.1) == written(
            pieces.map_values(|p: Piece| filled_piece(p, seq![var])),
        ),
    decreases pieces.len(),
{
    let one = seq![var];
    let fill = |p: Piece| filled_piece(p, one);
    let out = pieces.map_values(fill);
    let none = Seq::<char>::empty();
    if pieces.len() == 0 {
        assert(out.len() == 0);
        assert(text::replaced(none, prompts::placeholder(var.0), var.1) =~= none);
    } else {
        let rest = pieces.skip(1);
        let tail = written(rest);
        assert forall|i: int| 0 <= i < rest.len() implies match #[trigger] rest[i] {
            Piece::Text(t) => !t.contains('{'),
            Piece::Slot(k) => prompts::brace_free(k),
        } by {
            assert(rest[i] == pieces[i + 1]);
        }
        lemma_one_variable(rest, var);
        assert(out.skip(1) =~= rest.map_values(fill));
        assert(out[0] == filled_piece(pieces[0], one));
        lemma_filled_one(pieces[0], var);
        match pieces[0] {
            Piece::Text(t) => {
                prompts::lemma_no_open_brace(t, tail, var.0, var.1);
            },
            Piece::Slot(k) => {
                if k == var.0 {
                    prompts::law_replacing_fills_the_placeholder(none, tail, k, var.1);
                    assert(none + prompts::placeholder(k) + tail =~= prompts::placeholder(k) + tail);
                    assert(text::replaced(none, prompts::placeholder(k), var.1) =~= none);
                    assert(none + var.1 =~= var.1);
                } else {
                    prompts::lemma_other_placeholder(k, tail, var.0, var.1);
                }
            },
        }
    }
}

/// A template is rendered piece by piece: text stays as it is, and each placeholder is
/// filled in with the value of the first variable of its name, whatever that is, empty
/// or not, or stays where there is none. The text and the values may hold anything but
/// `{`.
pub proof fn law_templates_are_rendered_piece_by_piece(
    pieces: Seq<Piece>,
    vars: Seq<(Seq<char>, Seq<char>)>,
)
    requires
        forall|i: int|
            0 <= i < pieces.len() ==> match #[trigger] pieces[i] {
                Piece::Text(t) => !t.contains('{'),
                Piece::Slot(k) => !k.contains('{') && !k.contains('}'),
            },
        forall|i: int|
            0 <= i < vars.len() ==> !(#[trigger] vars[i]).0.contains('{') && !vars[i].0.contains(
                '}',
            ) && !vars[i].1.contains('{'),
    ensures
        prompts::rendered(written(pieces), vars) == written(
            pieces.map_values(|p: Piece| filled_piece(p, vars)),
        ),
    decreases vars.len(),
{
    if vars.len() == 0 {
        assert(pieces.map_values(|p: Piece| filled_piece(p, vars)) =~= pieces);
    } else {
        let var = vars[0];
        let one = seq![var];
        let rest = vars.skip(1);
        let next = pieces.map_values(|p: Piece| filled_piece(p, one));
        lemma_one_variable(pieces, var);
        assert(one + rest =~= vars);
        law_rendering_goes_on(written(pieces), one, rest);
        assert(one.drop_last() =~= Seq::<(Seq<char>, Seq<char>)>::empty());
        assert(prompts::rendered(written(pieces), one.drop_last()) == written(pieces));
        assert(prompts::rendered(written(pieces), one) == written(next));
        assert forall|i: int| 0 <= i < rest.len() implies !(#[trigger] rest[i]).0.contains('{')
            && !rest[i].0.contains('}') && !rest[i].1.contains('{') by {
            assert(rest[i] == vars[i + 1]);
        }
        assert forall|i: int| 0 <= i < next.len() implies match #[trigger] next[i] {
            Piece::Text(t) => !t.contains('{'),
            Piece::Slot(k) => !k.contains('{') && !k.contains('}'),
        } by {
            let p = pieces[i];
            assert(next[i] == filled_piece(p, one));
            lemma_filled_one(p, var);
        }
        law_templates_are_rendered_piece_by_piece(next, rest);
        let a = next.map_values(|p: Piece| filled_piece(p, rest));
        let b = pieces.map_values(|p: Piece| filled_piece(p, vars));
        assert forall|i: int| 0 <= i < pieces.len() implies a[i] == #[trigger] b[i] by {
            lemma_filled_step(pieces[i], vars);
        }
        assert(a =~= b);
    }
}

/// Every placeholder among the variables is filled in, wherever its variable stands
/// among them and whatever its value is, empty or not.
pub proof fn law_every_placeholder_is_filled_in(
    before: Seq<char>,
    after: Seq<char>,
    vars: Seq<(Seq<char>, Seq<char>)>,
    at: int,
)
    requires
        0 <= at < vars.len(),
        !before.contains('{'),
        !after.contains('{'),
        forall|i: int|
            0 <= i < vars.len() ==> !(#[trigger] vars[i]).0.contains('{') && !vars[i].0.contains(
                '}',
            ) && !vars[i].1.contains('{'),
        forall|i: int| 0 <= i < at ==> (#[trigger] vars[i]).0 != vars[at].0,
    ensures
        prompts::rendered(before + (seq!['{'] + vars[at].0 + seq!['}']) + after, vars) == before
            + vars[at].1 + after,
{
    let key = vars[at].0;
    let value = vars[at].1;
    let pieces = seq![Piece::Text(before), Piece::Slot(key), Piece::Text(after)];
    law_templates_are_rendered_piece_by_piece(pieces, vars);
    lemma_filled_slot(key, vars, at);
    let done = pieces.map_values(|p: Piece| filled_piece(p, vars));
    assert(done =~= seq![Piece::Text(before), Piece::Text(value), Piece::Text(after)]);
    reveal_with_fuel(written, 4);
    let none = Seq::<char>::empty();
    assert(pieces.skip(1).skip(1)[0] == Piece::Text(after));
    assert(done.skip(1).skip(1)[0] == Piece::Text(after));
    assert(written(pieces) =~= before + (seq!['{'] + key + seq!['}']) + after);
    assert(written(done) =~= before + value + after);
}

} // verus!
