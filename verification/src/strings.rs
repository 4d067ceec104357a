//! The few `String` operations of std that vstd gives no specification, each
//! behind a wrapper whose contract restates what std documents.
use vstd::prelude::*;

verus! {

/// Calls `String::push`, which appends `c` to the end of the string.
#[verifier::external_body]
pub(crate) fn string_push(s: &mut String, c: char)
    ensures
        final(s)@ == old(s)@.push(c),
{
    s.push(c)
}

/// Calls `String::pop`, which removes the last character and returns it, or
/// returns `None` (leaving the string as it is) when the string is empty.
#[verifier::external_body]
pub(crate) fn string_pop(s: &mut String) -> (r: Option<char>)
    ensures
        old(s)@.len() > 0 ==> r == Some(old(s)@.last()) && final(s)@ == old(s)@.drop_last(),
        old(s)@.len() == 0 ==> r is None && final(s)@ == old(s)@,
{
    s.pop()
}

/// Calls `String::with_capacity`, which makes an empty string.
#[verifier::external_body]
pub(crate) fn string_with_capacity(capacity: usize) -> (r: String)
    ensures
        r@ == Seq::<char>::empty(),
{
    String::with_capacity(capacity)
}

} // verus!
