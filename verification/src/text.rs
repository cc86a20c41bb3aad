use vstd::prelude::*;

verus! {

/// Relies on `str::chars`: it yields exactly the characters of the string,
/// in order, which is also what the view of `str` holds.
#[verifier::external_body]
pub(crate) fn str_to_chars(s: &str) -> (r: Vec<char>)
    ensures
        r@ == s@,
{
    s.chars().collect()
}

/// Relies on `String as FromIterator<char>`: collecting characters builds the
/// string holding exactly those characters, in order.
#[verifier::external_body]
pub(crate) fn chars_to_string(v: &Vec<char>) -> (r: String)
    ensures
        r@ == v@,
{
    v.iter().collect()
}

} // verus!
