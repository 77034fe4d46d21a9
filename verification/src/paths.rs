//! Paths, with `/` between their parts.

use vstd::prelude::*;

use crate::text::{to_chars, to_text};

verus! {

/// `rel` below `base`: an absolute `rel` stands alone, and no second `/` is put
/// where `base` ends with one.
pub open spec fn joined(base: Seq<char>, rel: Seq<char>) -> Seq<char> {
    if rel.len() > 0 && rel[0] == '/' {
        rel
    } else if base.len() == 0 || base.last() == '/' {
        base + rel
    } else {
        base.push('/') + rel
    }
}

/// `rel` below `base`.
pub fn join_path(base: &str, rel: &str) -> (path: String)
    ensures
        path@ == joined(base@, rel@),
{
    let b = to_chars(base);
    let r = to_chars(rel);
    if r.len() > 0 && r[0] == '/' {
        return to_text(r.as_slice());
    }
    let mut path = to_text(b.as_slice());
    if b.len() > 0 && b[b.len() - 1] != '/' {
        path.push('/');
    }
    path.append(rel);
    path
}

} // verus!
