//! Organisation policy for the agent workspace.

pub mod branding;
pub mod cancel;
pub mod canonical;
pub mod crypto;
pub mod json;
pub mod laws;
pub mod paths;
pub mod policy;
pub mod policy_tool;
pub mod prompts;
pub mod reading;
pub mod text;
