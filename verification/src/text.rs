use vstd::prelude::*;

verus! {

/// Appends a character to a string.
///
/// Trusted: `String::push`, which std documents as appending the given
/// character to the end of the string.
#[verifier::external_body]
pub(crate) fn push_char(s: &mut String, c: char)
    ensures
        final(s)@ == old(s)@.push(c),
{
    s.push(c)
}

} // verus!
