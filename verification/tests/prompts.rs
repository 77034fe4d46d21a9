use thclaws_core::branding::Branding;
use thclaws_core::prompts::{load, project_path, render, render_named, user_path};

/// A system prompt that starts as the product's own does.
const SYSTEM: &str = "You are {product}, an agent in {cwd}.\nAsk {support_email} for help.\n";

#[test]
fn render_substitutes_known_keys() {
    let out = render(
        "hello {name}, you are {role}",
        &[("name", "ada"), ("role", "lead")],
    );
    assert_eq!(out, "hello ada, you are lead");
}

#[test]
fn render_leaves_unknown_keys_alone() {
    let out = render("hi {name} — {missing}", &[("name", "ada")]);
    assert_eq!(out, "hi ada — {missing}");
}

#[test]
fn load_falls_back_to_default_when_no_override() {
    let out = load(None, None, "DEFAULT", &Branding::default());
    assert_eq!(out, "DEFAULT");
}

#[test]
fn load_applies_branding_to_product_placeholder() {
    let template = "I am {product}.";
    let out = load(None, None, template, &Branding::default());
    assert_eq!(out, "I am thClaws.");
}

#[test]
fn load_applies_branding_to_default_system_prompt() {
    let out = load(None, None, SYSTEM, &Branding::default());
    assert!(
        out.starts_with("You are thClaws,"),
        "system.md substitution missing — got: {}",
        out.lines().next().unwrap_or("")
    );
    assert!(
        !out.contains("{product}"),
        "{{product}} placeholder leaked into rendered prompt"
    );
}

#[test]
fn the_project_beats_the_user_and_both_beat_the_default() {
    let b = Branding::default();
    assert_eq!(load(Some("project {product}"), Some("user"), "default", &b), "project thClaws");
    assert_eq!(load(None, Some("user {product}"), "default", &b), "user thClaws");
    assert_eq!(load(Some(""), Some("user"), "default", &b), "");
}

#[test]
fn variables_are_filled_in_after_the_branding() {
    let out = render_named(None, None, SYSTEM, &Branding::default(), &[("cwd", "/work")]);
    assert_eq!(out, "You are thClaws, an agent in /work.\nAsk jimmy@thaigpt.com for help.\n");
}

#[test]
fn variables_are_filled_in_one_after_another() {
    assert_eq!(render("{a}", &[("a", "{b}"), ("b", "x")]), "x");
    assert_eq!(render("{b}", &[("a", "x"), ("b", "{a}")]), "{a}");
    assert_eq!(render("{a}{a}-{ a}", &[("a", "1")]), "11-{ a}");
    assert_eq!(render("{{a}}", &[("a", "1")]), "{1}");
    assert_eq!(render("{}", &[("", "1")]), "1");
    assert_eq!(render("no placeholders", &[]), "no placeholders");
}

#[test]
fn what_stands_around_an_unknown_placeholder_is_rendered_by_itself() {
    let vars = [("a", "1"), ("b", "2")];
    let whole = render("x{a}{c}y{b}", &vars);
    assert_eq!(whole, format!("{}{{c}}{}", render("x{a}", &vars), render("y{b}", &vars)));
    assert_eq!(whole, "x1{c}y2");
}

#[test]
fn where_overrides_stand() {
    assert_eq!(project_path(Some("/work"), "system"), "/work/.thclaws/prompt/system.md");
    assert_eq!(project_path(Some("/"), "system"), "/.thclaws/prompt/system.md");
    assert_eq!(project_path(None, "lead"), "./.thclaws/prompt/lead.md");
    assert_eq!(
        user_path(Some("/cfg"), Some("/home/ada"), "lead").as_deref(),
        Some("/cfg/thclaws/prompt/lead.md")
    );
    assert_eq!(
        user_path(None, Some("/home/ada"), "lead").as_deref(),
        Some("/home/ada/.config/thclaws/prompt/lead.md")
    );
    assert_eq!(user_path(None, None, "lead"), None);
}

#[test]
fn an_absolute_name_stands_alone() {
    assert_eq!(project_path(Some("/work"), "/etc/x"), "/etc/x.md");
    let joined = std::path::Path::new("/work/.thclaws").join("prompt").join("/etc/x.md");
    assert_eq!(project_path(Some("/work"), "/etc/x"), joined.display().to_string());
}

#[test]
fn branding_settles() {
    let b = Branding::default();
    for template in [
        "{product}",
        "{pro{product}duct} and {support_{support_email}email}",
        "{{product}{support_email}}",
        "nothing to do {here}",
    ] {
        let once = load(None, None, template, &b);
        assert!(!once.contains("{product}"));
        assert!(!once.contains("{support_email}"));
        assert_eq!(load(None, None, &once, &b), once);
    }
    assert_eq!(load(None, None, "nothing to do {here}", &b), "nothing to do {here}");
}
