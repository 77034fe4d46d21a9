//! Laws of the branding.

use vstd::prelude::*;

use crate::branding;
use crate::branding::{Branding, Look, DEFAULT_ABOUT, DEFAULT_BANNER};
use crate::policy::{ActivePolicy, BrandingPolicy};
use crate::prompts;
use crate::text;

verus! {

/// Where the branding rules are on, each of the five fields is what the rules set for
/// it where that is not blank, whatever they set for the others.
pub proof fn law_each_field_is_what_is_set(
    active: &ActivePolicy,
    rules: BrandingPolicy,
    set: String,
    at: int,
)
    requires
        active.policy.policies.branding == Some(rules),
        rules.enabled,
        0 <= at < set@.len(),
        !text::is_white_space(set@[at]),
    ensures
        rules.name == Some(set) ==> branding::look_under(Some(active)).name == set@,
        rules.support_email == Some(set) ==> branding::look_under(Some(active)).support_email
            == set@,
        rules.logo_path == Some(set) ==> branding::look_under(Some(active)).logo_path == Some(set@),
        rules.banner_text == Some(set) ==> branding::look_under(Some(active)).banner_text == set@,
        rules.about_text == Some(set) ==> branding::look_under(Some(active)).about_text == set@,
{
}

/// Where the branding rules are on, each of the five fields that they leave unset, or
/// set to nothing but white space, is the product's own, whatever they set for the
/// others.
pub proof fn law_what_is_not_set_stays(active: &ActivePolicy, rules: BrandingPolicy, blank: String)
    requires
        active.policy.policies.branding == Some(rules),
        rules.enabled,
        forall|i: int| 0 <= i < blank@.len() ==> text::is_white_space(#[trigger] blank@[i]),
    ensures
        rules.name is None || rules.name == Some(blank) ==> branding::look_under(Some(active)).name
            == "thClaws"@,
        rules.support_email is None || rules.support_email == Some(blank) ==> branding::look_under(
            Some(active),
        ).support_email == "jimmy@thaigpt.com"@,
        rules.logo_path is None || rules.logo_path == Some(blank) ==> branding::look_under(
            Some(active),
        ).logo_path is None,
        rules.banner_text is None || rules.banner_text == Some(blank) ==> branding::look_under(
            Some(active),
        ).banner_text == DEFAULT_BANNER@,
        rules.about_text is None || rules.about_text == Some(blank) ==> branding::look_under(
            Some(active),
        ).about_text == DEFAULT_ABOUT@,
{
}

/// Each field depends on what is set for it and on nothing else: where two policies
/// with branding rules in force set the same for a field, the field is the same.
pub proof fn law_each_field_stands_by_itself(
    one: &ActivePolicy,
    other: &ActivePolicy,
    a: BrandingPolicy,
    b: BrandingPolicy,
)
    requires
        one.policy.policies.branding == Some(a),
        other.policy.policies.branding == Some(b),
        a.enabled,
        b.enabled,
    ensures
        a.name == b.name ==> branding::look_under(Some(one)).name == branding::look_under(
            Some(other),
        ).name,
        a.support_email == b.support_email ==> branding::look_under(Some(one)).support_email
            == branding::look_under(Some(other)).support_email,
        a.logo_path == b.logo_path ==> branding::look_under(Some(one)).logo_path
            == branding::look_under(Some(other)).logo_path,
        a.banner_text == b.banner_text ==> branding::look_under(Some(one)).banner_text
            == branding::look_under(Some(other)).banner_text,
        a.about_text == b.about_text ==> branding::look_under(Some(one)).about_text
            == branding::look_under(Some(other)).about_text,
{
}

/// Without a policy, without branding rules or with rules that are off, the product
/// looks as its own does, whatever the rules set.
pub proof fn law_rules_that_are_off_change_nothing(active: Option<&ActivePolicy>)
    requires
        active matches Some(a) ==> (a.policy.policies.branding matches Some(rules)
            ==> !rules.enabled),
    ensures
        branding::look_under(active).name == "thClaws"@,
        branding::look_under(active).support_email == "jimmy@thaigpt.com"@,
        branding::look_under(active).logo_path is None,
        branding::look_under(active).banner_text == DEFAULT_BANNER@,
        branding::look_under(active).about_text == DEFAULT_ABOUT@,
{
}

/// The product's own look.
pub proof fn law_the_products_own_look()
    ensures
        branding::default_look().name == "thClaws"@,
        branding::default_look().support_email == "jimmy@thaigpt.com"@,
        branding::default_look().logo_path is None,
        branding::default_look().banner_text == DEFAULT_BANNER@,
        branding::default_look().about_text == DEFAULT_ABOUT@,
        DEFAULT_ABOUT@
            == "thClaws — native-Rust AI agent workspace. Open source, MIT/Apache-2.0. Developed by ThaiGPT Co., Ltd."@,
{
}

/// What a branding shows is what it holds.
pub proof fn law_what_a_branding_shows(b: Branding, logo: String)
    ensures
        b@.name == b.name@,
        b@.support_email == b.support_email@,
        b@.banner_text == b.banner_text@,
        b@.about_text == b.about_text@,
        b.logo_path is None ==> b@.logo_path is None,
        b.logo_path == Some(logo) ==> b@.logo_path == Some(logo@),
{
}

/// A text without `{` is left as it is, and what stands after it is branded by itself.
pub proof fn law_text_without_placeholders_is_not_branded(
    plain: Seq<char>,
    rest: Seq<char>,
    look: Look,
)
    requires
        !plain.contains('{'),
    ensures
        branding::branded(plain, look) == plain,
        branding::branded(plain + rest, look) == plain + branding::branded(rest, look),
{
    prompts::lemma_branding_placeholders();
    let none = Seq::<char>::empty();
    prompts::lemma_no_open_brace(plain, rest, "product"@, look.name);
    prompts::lemma_no_open_brace(
        plain,
        text::replaced(rest, "{product}"@, look.name),
        "support_email"@,
        look.support_email,
    );
    prompts::lemma_no_open_brace(plain, none, "product"@, look.name);
    prompts::lemma_no_open_brace(plain, none, "support_email"@, look.support_email);
    assert(plain + none =~= plain);
    assert(text::replaced(none, "{product}"@, look.name) =~= none);
    assert(text::replaced(none, "{support_email}"@, look.support_email) =~= none);
}

/// `{product}` is filled in with the name and `{support_email}` with the contact,
/// wherever they stand and whatever those are, empty or not: after any text without
/// `{` comes the name or the contact, and then the rest, branded by itself. The name
/// is left as it is where it has no `{`.
pub proof fn law_branding_fills_in_its_placeholders(
    plain: Seq<char>,
    rest: Seq<char>,
    look: Look,
)
    requires
        !plain.contains('{'),
    ensures
        !look.name.contains('{') ==> branding::branded(plain + "{product}"@ + rest, look) == plain
            + look.name + branding::branded(rest, look),
        branding::branded(plain + "{support_email}"@ + rest, look) == plain + look.support_email
            + branding::branded(rest, look),
{
    prompts::lemma_branding_placeholders();
    let none = Seq::<char>::empty();
    let product = "{product}"@;
    let contact = "{support_email}"@;
    let named = text::replaced(rest, product, look.name);
    reveal_strlit("product");
    reveal_strlit("support_email");
    assert("product"@.len() != "support_email"@.len());
    assert(none + product + rest =~= product + rest);
    assert(none + contact + rest =~= contact + rest);
    assert(none + contact + named =~= contact + named);
    assert(text::replaced(none, product, look.name) =~= none);
    assert(text::replaced(none, contact, look.support_email) =~= none);

    law_text_without_placeholders_is_not_branded(plain, product + rest, look);
    prompts::law_replacing_fills_the_placeholder(none, rest, "product"@, look.name);
    assert(plain + (product + rest) =~= plain + product + rest);
    assert(none + look.name + named =~= look.name + named);
    if !look.name.contains('{') {
        prompts::lemma_no_open_brace(look.name, named, "support_email"@, look.support_email);
        assert(plain + (look.name + branding::branded(rest, look)) =~= plain + look.name
            + branding::branded(rest, look));
    }

    law_text_without_placeholders_is_not_branded(plain, contact + rest, look);
    prompts::lemma_other_placeholder("support_email"@, rest, "product"@, look.name);
    prompts::law_replacing_fills_the_placeholder(none, named, "support_email"@, look.support_email);
    assert(plain + (contact + rest) =~= plain + contact + rest);
    assert(none + look.support_email + branding::branded(rest, look) =~= look.support_email
        + branding::branded(rest, look));
    assert(plain + (look.support_email + branding::branded(rest, look)) =~= plain
        + look.support_email + branding::branded(rest, look));
}

/// A placeholder other than the two is left where it stands, and what comes after it is
/// branded by itself.
pub proof fn law_other_placeholders_stay(plain: Seq<char>, key: Seq<char>, rest: Seq<char>, look: Look)
    requires
        !plain.contains('{'),
        !key.contains('{'),
        !key.contains('}'),
        key != "product"@,
        key != "support_email"@,
    ensures
        branding::branded(plain + (seq!['{'] + key + seq!['}']) + rest, look) == plain + (seq!['{']
            + key + seq!['}']) + branding::branded(rest, look),
{
    let slot = seq!['{'] + key + seq!['}'];
    let none = Seq::<char>::empty();
    prompts::law_branding_leaves_other_placeholders_alone(plain, key, rest, look);
    law_text_without_placeholders_is_not_branded(plain, none, look);
    assert(prompts::placeholder(key) == slot);
}

} // verus!
