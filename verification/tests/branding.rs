use thclaws_core::branding::{apply_template, current, materialize, Branding};
use thclaws_core::policy::{ActivePolicy, BrandingPolicy, Policies, Policy};

fn active(rules: Option<BrandingPolicy>) -> ActivePolicy {
    ActivePolicy {
        policy: Policy {
            version: 1,
            issuer: "test".into(),
            issued_at: String::new(),
            expires_at: None,
            binding: None,
            policies: Policies { branding: rules, ..Default::default() },
            signature: None,
        },
    }
}

fn rules(enabled: bool) -> BrandingPolicy {
    BrandingPolicy {
        enabled,
        name: Some("ACME Agent".into()),
        support_email: Some("agent@acme.example".into()),
        logo_path: Some("/opt/acme/logo.svg".into()),
        banner_text: Some("ACME".into()),
        about_text: Some("The ACME agent.".into()),
    }
}

#[test]
fn defaults_are_today_strings() {
    let b = Branding::default();
    assert_eq!(b.name, "thClaws");
    assert_eq!(b.support_email, "jimmy@thaigpt.com");
    assert!(b.logo_path.is_none());
    assert!(b.banner_text.contains("█"));
    assert!(b.about_text.contains("native-Rust"));
}

#[test]
fn apply_template_substitutes_product() {
    let b = Branding {
        name: "ACME Agent".into(),
        support_email: "agent@acme.example".into(),
        ..Branding::default()
    };
    let out = apply_template("Hello, {product}!", &b);
    assert_eq!(out, "Hello, ACME Agent!");
    assert_eq!(out, format!("Hello, {{product}}!").replace("{product}", &b.name));
}

#[test]
fn apply_template_leaves_unknown_placeholders_alone() {
    let template = "I'm {product}. Reach me at {support_email}. Stay {curious}.";
    let b = Branding {
        name: "thClaws".into(),
        support_email: "jimmy@thaigpt.com".into(),
        ..Branding::default()
    };
    let after_email = apply_template(template, &b);
    assert_eq!(
        after_email,
        "I'm thClaws. Reach me at jimmy@thaigpt.com. Stay {curious}."
    );
    let after_product = template.replace("{product}", "thClaws");
    assert_eq!(after_email, after_product.replace("{support_email}", "jimmy@thaigpt.com"));
}

#[test]
fn the_support_contact_may_come_in_with_the_name() {
    let b = Branding { name: "Ask {support_email}".into(), ..Branding::default() };
    assert_eq!(apply_template("{product}", &b), "Ask jimmy@thaigpt.com");
}

#[test]
fn without_a_policy_the_branding_is_the_products_own() {
    let b = materialize(None);
    let own = Branding::default();
    assert_eq!(b.name, own.name);
    assert_eq!(b.support_email, own.support_email);
    assert_eq!(b.logo_path, own.logo_path);
    assert_eq!(b.banner_text, own.banner_text);
    assert_eq!(b.about_text, own.about_text);
    assert_eq!(
        own.about_text,
        "thClaws — native-Rust AI agent workspace. Open source, MIT/Apache-2.0. Developed by ThaiGPT Co., Ltd."
    );
}

#[test]
fn rules_that_are_off_or_absent_change_nothing() {
    assert_eq!(materialize(Some(&active(None))).name, "thClaws");
    let b = materialize(Some(&active(Some(rules(false)))));
    assert_eq!(b.name, "thClaws");
    assert_eq!(b.logo_path, None);
}

#[test]
fn a_policy_sets_every_field() {
    let b = materialize(Some(&active(Some(rules(true)))));
    assert_eq!(b.name, "ACME Agent");
    assert_eq!(b.support_email, "agent@acme.example");
    assert_eq!(b.logo_path.as_deref(), Some("/opt/acme/logo.svg"));
    assert_eq!(b.banner_text, "ACME");
    assert_eq!(b.about_text, "The ACME agent.");
}

#[test]
fn what_a_policy_leaves_unset_or_blank_stays() {
    let mut r = rules(true);
    r.support_email = None;
    r.logo_path = Some(" \t".into());
    r.banner_text = Some("\u{2003}\n".into());
    r.about_text = Some(String::new());
    let b = materialize(Some(&active(Some(r))));
    let own = Branding::default();
    assert_eq!(b.name, "ACME Agent");
    assert_eq!(b.support_email, own.support_email);
    assert_eq!(b.logo_path, None);
    assert_eq!(b.banner_text, own.banner_text);
    assert_eq!(b.about_text, own.about_text);
}

#[test]
fn values_are_not_trimmed() {
    let mut r = rules(true);
    r.name = Some(" ACME ".into());
    assert_eq!(materialize(Some(&active(Some(r)))).name, " ACME ");
}

#[test]
fn the_first_snapshot_is_kept() {
    let mut snapshot: Option<Branding> = None;
    assert_eq!(current(&mut snapshot, None).name, "thClaws");
    let acme = active(Some(rules(true)));
    assert_eq!(current(&mut snapshot, Some(&acme)).name, "thClaws");
    let mut other: Option<Branding> = None;
    assert_eq!(current(&mut other, Some(&acme)).name, "ACME Agent");
    assert_eq!(current(&mut other, None).name, "ACME Agent");
}
