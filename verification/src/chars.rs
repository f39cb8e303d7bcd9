//! What the library takes on trust from `char`.
//!
//! The Unicode tables behind `char::is_alphanumeric` and
//! `char::is_whitespace` are not spelled out here: each result gets a name,
//! and the contracts of the library speak of those names.

use vstd::prelude::*;
use vstd::utf8::is_scalar;

verus! {

/// What `char::is_alphanumeric` returns for `c`.
pub uninterp spec fn char_is_alphanumeric(c: char) -> bool;

/// What `char::is_whitespace` returns for `c`.
pub uninterp spec fn char_is_whitespace(c: char) -> bool;

/// `char::is_alphanumeric` tells whether a character is alphabetic or
/// numeric by the Unicode tables that come with the standard library. The
/// result depends on the character alone; nothing else is claimed of it.
pub assume_specification[ char::is_alphanumeric ](c: char) -> (b: bool)
    ensures
        b == char_is_alphanumeric(c),
;

/// `char::is_whitespace` tells whether a character has the Unicode property
/// `White_Space`. The result depends on the character alone; nothing else is
/// claimed of it.
pub assume_specification[ char::is_whitespace ](c: char) -> (b: bool)
    ensures
        b == char_is_whitespace(c),
;

/// `char::from_u32` returns the character with the given number, and `None`
/// exactly when the number is no Unicode scalar value: a surrogate, or
/// above `0x10FFFF`.
pub assume_specification[ char::from_u32 ](i: u32) -> (r: Option<char>)
    ensures
        r == (if is_scalar(i) {
            Some(i as char)
        } else {
            None
        }),
;

/// The characters of a string slice, in order.
pub fn to_chars(s: &str) -> (v: Vec<char>)
    ensures
        v@ == s@,
{
    let mut v: Vec<char> = Vec::new();
    for c in it: s.chars()
        invariant
            it.seq() == s@,
            v@ == s@.take(it.index() as int),
    {
        v.push(c);
    }
    v
}

} // verus!
