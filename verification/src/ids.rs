//! Fresh identifiers: ULIDs for registered apps, and the `oneoff:` ids of
//! one-off shell sessions.
use vstd::prelude::*;
use vstd::string::*;

use crate::process::{is_shell_id, shell_prefix};

verus! {

/// A character of the Crockford base-32 alphabet that ULIDs are written in.
pub open spec fn is_crockford(c: char) -> bool {
    ('0' <= c <= '9') || ('A' <= c <= 'H') || c == 'J' || c == 'K' || c == 'M' || c == 'N' || ('P' <= c <= 'T')
        || ('V' <= c <= 'Z')
}

/// The text of a ULID: 26 Crockford base-32 characters.
pub open spec fn is_ulid_text(s: Seq<char>) -> bool {
    s.len() == 26 && forall|i: int| 0 <= i < 26 ==> is_crockford(#[trigger] s[i])
}

/// `ulid::Ulid::new().to_string()`: a fresh ULID from the clock and a random
/// source. Only its shape is claimed; which ULID comes back is not.
#[verifier::external_body]
fn fresh_ulid() -> (r: String)
    ensures
        is_ulid_text(r@),
{
    ulid::Ulid::new().to_string()
}

/// A fresh id for a newly registered app.
pub fn new_app_id() -> (r: String)
    ensures
        is_ulid_text(r@),
{
    fresh_ulid()
}

/// A fresh id for a one-off shell session: `oneoff:` and a ULID.
pub fn new_shell_id() -> (r: String)
    ensures
        r@.len() == 33,
        r@.take(7) == shell_prefix(),
        is_ulid_text(r@.skip(7)),
        is_shell_id(r@),
{
    let mut s = String::new();
    let p = "oneoff:";
    proof {
        reveal_strlit("oneoff:");
    }
    s.append(p);
    let u = fresh_ulid();
    s.append(u.as_str());
    assert(s@.take(7) =~= shell_prefix());
    assert(s@.skip(7) =~= u@);
    s
}

} // verus!
