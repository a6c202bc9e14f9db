use fnv::FnvHashMap;
use vstd::prelude::*;

verus! {

#[verifier::external_type_specification]
#[verifier::external_body]
pub struct ExFnvHasher(fnv::FnvHasher);

#[verifier::external_type_specification]
#[verifier::external_body]
#[verifier::reject_recursive_types(H)]
pub struct ExBuildHasherDefault<H>(std::hash::BuildHasherDefault<H>);

/// Relies on `FnvHashMap::default`: a map with no entries.
#[verifier::external_body]
pub(crate) fn empty_children() -> (r: FnvHashMap<char, usize>)
    ensures
        r@.dom().is_empty(),
{
    FnvHashMap::default()
}

/// Relies on `HashMap::get` (FNV hashing): the index stored under `c`, if any.
#[verifier::external_body]
pub(crate) fn child_of(m: &FnvHashMap<char, usize>, c: char) -> (r: Option<usize>)
    ensures
        match r {
            Some(j) => m@.contains_key(c) && m@[c] == j,
            None => !m@.contains_key(c),
        },
{
    m.get(&c).copied()
}

/// Relies on `HashMap::insert` (FNV hashing): `c` now maps to `j`, other keys are kept.
#[verifier::external_body]
pub(crate) fn add_child(m: &mut FnvHashMap<char, usize>, c: char, j: usize)
    ensures
        final(m)@ == old(m)@.insert(c, j),
{
    m.insert(c, j);
}

} // verus!
