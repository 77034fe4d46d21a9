//! Product name, banner, logo and support contact.
//!
//! They come from the active policy where it sets them, and are the product's
//! own otherwise.

use vstd::prelude::*;

use crate::policy::ActivePolicy;
use crate::text;
use crate::text::{blank, replace};

verus! {

/// The product's own name.
pub const DEFAULT_NAME: &'static str = "thClaws";

/// The product's own banner.
pub const DEFAULT_BANNER: &'static str =
    " ██   ██      ████ ██\n████  █████  ██    ██   ████  ██   ██  ████\n ██   ██  ██ ██    ██  ██  ██ ██ █ ██ ██\n ██   ██  ██ ██    ██  ██  ██ ██ █ ██   ██\n  ██  ██  ██  ████ ██   █████  ██ ██  ████\n";

/// The product's own description.
pub const DEFAULT_ABOUT: &'static str =
    "thClaws — native-Rust AI agent workspace. Open source, MIT/Apache-2.0. Developed by ThaiGPT Co., Ltd.";

/// The product's own support contact.
pub const DEFAULT_SUPPORT_EMAIL: &'static str = "jimmy@thaigpt.com";

/// How the product presents itself.
#[derive(Debug, Clone)]
pub struct Branding {
    /// Product name shown in the banner, the window title and the system prompt.
    pub name: String,
    /// Where users write for support and to report vulnerabilities.
    pub support_email: String,
    /// A logo file, where the organisation has its own.
    pub logo_path: Option<String>,
    /// The banner that the command line starts with.
    pub banner_text: String,
    /// One line that describes the product.
    pub about_text: String,
}

/// What a [`Branding`] shows.
pub struct Look {
    pub name: Seq<char>,
    pub support_email: Seq<char>,
    pub logo_path: Option<Seq<char>>,
    pub banner_text: Seq<char>,
    pub about_text: Seq<char>,
}

impl View for Branding {
    type V = Look;

    open spec fn view(&self) -> Look {
        Look {
            name: self.name@,
            support_email: self.support_email@,
            logo_path: text::optional_text(self.logo_path),
            banner_text: self.banner_text@,
            about_text: self.about_text@,
        }
    }
}

/// The product's own look.
pub open spec fn default_look() -> Look {
    Look {
        name: DEFAULT_NAME@,
        support_email: DEFAULT_SUPPORT_EMAIL@,
        logo_path: None,
        banner_text: DEFAULT_BANNER@,
        about_text: DEFAULT_ABOUT@,
    }
}

impl Default for Branding {
    fn default() -> (b: Self)
        ensures
            b@ == default_look(),
    {
        Branding {
            name: DEFAULT_NAME.to_string(),
            support_email: DEFAULT_SUPPORT_EMAIL.to_string(),
            logo_path: None,
            banner_text: DEFAULT_BANNER.to_string(),
            about_text: DEFAULT_ABOUT.to_string(),
        }
    }
}

/// The policy's branding rules are there and switched on.
pub open spec fn rebranded(active: Option<&ActivePolicy>) -> bool {
    active is Some && (active->0.policy.policies.branding matches Some(b) && b.enabled)
}

/// What the policy sets, unless it sets nothing or something blank.
pub open spec fn overriding(set: Option<String>, own: Seq<char>) -> Seq<char> {
    match set {
        Some(s) => if text::is_blank(s@) {
            own
        } else {
            s@
        },
        None => own,
    }
}

/// The look that the active policy, if there is one, leads to.
pub open spec fn look_under(active: Option<&ActivePolicy>) -> Look {
    let own = default_look();
    if rebranded(active) {
        let b = active->0.policy.policies.branding->0;
        Look {
            name: overriding(b.name, own.name),
            support_email: overriding(b.support_email, own.support_email),
            logo_path: match b.logo_path {
                Some(s) => if text::is_blank(s@) {
                    None
                } else {
                    Some(s@)
                },
                None => None,
            },
            banner_text: overriding(b.banner_text, own.banner_text),
            about_text: overriding(b.about_text, own.about_text),
        }
    } else {
        own
    }
}

/// What the policy sets where it sets something that is not blank.
fn set_value(set: &Option<String>) -> (value: Option<String>)
    ensures
        text::optional_text(value) == match *set {
            Some(s) => if text::is_blank(s@) {
                None
            } else {
                Some(s@)
            },
            None => None,
        },
{
    match set {
        Some(s) => {
            if blank(s.as_str()) {
                None
            } else {
                Some(s.clone())
            }
        },
        None => None,
    }
}

/// Builds the branding from the defaults and the active policy. What the policy
/// leaves unset or blank stays the product's own.
pub fn materialize(active: Option<&ActivePolicy>) -> (b: Branding)
    ensures
        b@ == look_under(active),
{
    let mut b = Branding::default();
    let policy = match active {
        Some(a) => &a.policy,
        None => {
            return b;
        },
    };
    let rules = match &policy.policies.branding {
        Some(rules) => rules,
        None => {
            return b;
        },
    };
    if !rules.enabled {
        return b;
    }
    if let Some(name) = set_value(&rules.name) {
        b.name = name;
    }
    if let Some(email) = set_value(&rules.support_email) {
        b.support_email = email;
    }
    if let Some(logo) = set_value(&rules.logo_path) {
        b.logo_path = Some(logo);
    }
    if let Some(banner) = set_value(&rules.banner_text) {
        b.banner_text = banner;
    }
    if let Some(about) = set_value(&rules.about_text) {
        b.about_text = about;
    }
    b
}

/// The branding in force. The first call builds it and keeps it in `snapshot`;
/// later calls give what is kept there, whatever the policy is then.
pub fn current<'a>(snapshot: &'a mut Option<Branding>, active: Option<&ActivePolicy>) -> (b:
    &'a Branding)
    ensures
        *final(snapshot) == Some(*b),
        *old(snapshot) matches Some(kept) ==> *b == kept,
        *old(snapshot) is None ==> b@ == look_under(active),
{
    if snapshot.is_none() {
        *snapshot = Some(materialize(active));
    }
    snapshot.as_ref().unwrap()
}

/// `template` with the placeholders of the branding filled in.
pub open spec fn branded(template: Seq<char>, look: Look) -> Seq<char> {
    text::replaced(
        text::replaced(template, "{product}"@, look.name),
        "{support_email}"@,
        look.support_email,
    )
}

/// Puts the product name for `{product}` and the support contact for
/// `{support_email}`. Other placeholders are left alone.
pub fn apply_template(template: &str, b: &Branding) -> (out: String)
    ensures
        out@ == branded(template@, b@),
{
    proof {
        reveal_strlit("{product}");
        reveal_strlit("{support_email}");
    }
    let named = replace(template, "{product}", b.name.as_str());
    replace(named.as_str(), "{support_email}", b.support_email.as_str())
}

} // verus!
