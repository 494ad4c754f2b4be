//! The `info` command.

use vstd::prelude::*;
use vstd::string::*;

verus! {

/// How many characters of a store key are shown.
pub const SHOWN_KEY_LENGTH: usize = 12;

/// The part of a store key that is shown: its first twelve characters.
pub fn store_key_prefix(key: &str) -> (shown: &str)
    requires
        key@.len() >= SHOWN_KEY_LENGTH,
    ensures
        shown@ == key@.take(SHOWN_KEY_LENGTH as int),
{
    let shown = key.substring_char(0, SHOWN_KEY_LENGTH);
    assert(shown@ =~= key@.take(SHOWN_KEY_LENGTH as int));
    shown
}

} // verus!
