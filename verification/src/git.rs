//! The branch label shown for an app's directory, from the output of
//! `git rev-parse`: the branch name, or `@<short sha>` for a detached HEAD.
use vstd::prelude::*;
use vstd::string::*;

use crate::newapp::{trim, trimmed};
use crate::text::str_eq;

verus! {

/// What the output of `git rev-parse --abbrev-ref HEAD` says.
#[derive(Debug, Clone, PartialEq, Eq)]
pub enum BranchStep {
    /// Nothing usable: no label.
    NoBranch,
    /// On a branch with this name.
    Named(String),
    /// Detached HEAD: the short commit id is needed.
    Detached,
}

/// Reads the (lossily decoded) output of `git rev-parse --abbrev-ref HEAD`.
pub fn branch_step(abbrev_out: &str) -> (r: BranchStep)
    ensures
        trimmed(abbrev_out@).len() == 0 ==> r == BranchStep::NoBranch,
        trimmed(abbrev_out@) == "HEAD"@ ==> r == BranchStep::Detached,
        trimmed(abbrev_out@).len() > 0 && trimmed(abbrev_out@) != "HEAD"@ ==> (r matches BranchStep::Named(n)
            && n@ == trimmed(abbrev_out@)),
{
    let name = trim(abbrev_out);
    proof {
        reveal_strlit("HEAD");
    }
    if name.unicode_len() == 0 {
        return BranchStep::NoBranch;
    }
    if str_eq(name.as_str(), "HEAD") {
        return BranchStep::Detached;
    }
    BranchStep::Named(name)
}

/// The label of a detached HEAD from the output of
/// `git rev-parse --short HEAD`: `@` and the short id, or nothing if empty.
pub fn detached_label(short_out: &str) -> (r: Option<String>)
    ensures
        trimmed(short_out@).len() == 0 ==> r is None,
        trimmed(short_out@).len() > 0 ==> (r matches Some(l) && l@ == seq!['@'] + trimmed(short_out@)),
{
    let sha = trim(short_out);
    if sha.unicode_len() == 0 {
        return None;
    }
    let mut l = String::new();
    let at = "@";
    proof {
        reveal_strlit("@");
    }
    l.append(at);
    l.append(sha.as_str());
    Some(l)
}

} // verus!
