//! What the library's operations are for, stated of all their inputs.
//!
//! Each law speaks of an operation's result in terms of its inputs, and of as
//! little else as it can: what the result holds, what it leaves out, and how the
//! results of two calls relate.

pub mod allowlist;
pub mod branding;
pub mod cancel;
pub mod canonical;
pub mod json;
pub mod keys;
pub mod prompts;
pub mod signing;
pub mod text;
pub mod tool;
