use vstd::prelude::*;

verus! {

/// Relies on `str::chars` collected into a `Vec`: the code points of `s`, in order.
#[verifier::external_body]
pub(crate) fn code_points(s: &str) -> (r: Vec<char>)
    ensures
        r@ == s@,
{
    s.chars().collect()
}

/// Relies on `FromIterator<&char>` for `String`: the string made of the code points of `v`.
#[verifier::external_body]
pub(crate) fn string_of(v: &Vec<char>) -> (r: String)
    ensures
        r@ == v@,
{
    v.iter().collect()
}

} // verus!
