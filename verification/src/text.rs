//! What the standard library's two ways of growing a `String` do. Nothing
//! here is proved: each contract states what the documentation of the
//! function says.

use vstd::prelude::*;

verus! {

/// `String::push_str` appends the given slice to the end of the string.
pub assume_specification[ String::push_str ](s: &mut String, string: &str)
    ensures
        final(s)@ == old(s)@ + string@,
;

/// `String::push` appends the given character to the end of the string.
pub assume_specification[ String::push ](s: &mut String, ch: char)
    ensures
        final(s)@ == old(s)@.push(ch),
;

} // verus!
