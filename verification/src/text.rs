//! Building owned strings from characters.

use vstd::prelude::*;

verus! {

/// Collects the characters of `cs` into a `String`
/// (`FromIterator<char> for String`), which holds exactly those characters in order.
#[verifier::external_body]
pub(crate) fn string_from_chars(cs: &[char]) -> (s: String)
    ensures
        s@ == cs@,
{
    cs.iter().collect()
}

} // verus!
