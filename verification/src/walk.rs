//! What a directory walk needs to decide about an entry by its name.

use vstd::prelude::*;

verus! {

/// Whether an entry with this file name is hidden: the name begins with a dot.
pub fn is_hidden(name: &str) -> (r: bool)
    ensures
        r == (name@.len() > 0 && name@[0] == '.'),
{
    if name.is_empty() {
        false
    } else {
        name.get_char(0) == '.'
    }
}

} // verus!
