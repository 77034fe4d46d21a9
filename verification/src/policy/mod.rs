//! The organisation policy document and what is decided from it.

pub mod allowlist;
pub mod error;
pub mod verify;

use vstd::prelude::*;

verus! {

/// A policy document, as read from a policy file.
#[derive(Debug, Clone)]
pub struct Policy {
    /// Version of the document format.
    pub version: u32,
    /// Who issued the policy.
    pub issuer: String,
    /// When it was issued.
    pub issued_at: String,
    /// When it expires, if it does.
    pub expires_at: Option<String>,
    /// What the policy is bound to, if anything.
    pub binding: Option<Binding>,
    /// The rules themselves.
    pub policies: Policies,
    /// The signature over the rest of the document.
    pub signature: Option<String>,
}

/// The organisation or build that a policy is bound to.
#[derive(Debug, Clone)]
pub struct Binding {
    pub org_id: Option<String>,
    pub binary_fingerprint: Option<String>,
}

/// The blocks of rules that a policy may hold.
#[derive(Debug, Clone)]
pub struct Policies {
    pub plugins: Option<PluginsPolicy>,
    pub branding: Option<BrandingPolicy>,
}

impl Default for Policies {
    fn default() -> (none: Self)
        ensures
            none.plugins is None,
            none.branding is None,
    {
        Policies { plugins: None, branding: None }
    }
}

/// Where plugins, skills and MCP servers may come from.
#[derive(Debug, Clone)]
pub struct PluginsPolicy {
    pub enabled: bool,
    /// Patterns over host and path; see [`allowlist`].
    pub allowed_hosts: Vec<String>,
    pub allow_external_scripts: bool,
    pub allow_external_mcp: bool,
}

/// What replaces the product's own name, contact and banner.
#[derive(Debug, Clone)]
pub struct BrandingPolicy {
    pub enabled: bool,
    pub name: Option<String>,
    pub support_email: Option<String>,
    pub logo_path: Option<String>,
    pub banner_text: Option<String>,
    pub about_text: Option<String>,
}

/// The policy that was verified and loaded at startup.
#[derive(Debug, Clone)]
pub struct ActivePolicy {
    pub policy: Policy,
}

} // verus!
