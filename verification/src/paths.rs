//! Paths as text, with `/` as the separator.

use vstd::prelude::*;
use vstd::string::*;
use crate::text::chars_of;

verus! {

/// `base` extended by `part`.
///
/// A `part` that starts at the root replaces `base`. Otherwise `part` is
/// appended, after a separator unless `base` is empty or ends in one.
pub open spec fn join_path(base: Seq<char>, part: Seq<char>) -> Seq<char> {
    if part.len() > 0 && part[0] == '/' {
        part
    } else if base.len() > 0 && base.last() != '/' {
        base + seq!['/'] + part
    } else {
        base + part
    }
}

/// `base` extended by `part`, as [`join_path`] defines it.
pub fn join(base: &str, part: &str) -> (out: String)
    ensures
        out@ == join_path(base@, part@),
{
    let b = chars_of(base);
    let p = chars_of(part);
    if p.len() > 0 && p[0] == '/' {
        return String::from_str(part);
    }
    let mut out = String::from_str(base);
    if b.len() > 0 && b[b.len() - 1] != '/' {
        proof {
            reveal_strlit("/");
            assert("/"@ =~= seq!['/']);
        }
        out.append("/");
    }
    out.append(part);
    out
}

} // verus!
