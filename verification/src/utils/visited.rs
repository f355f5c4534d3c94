//! The set of node indices that a traversal has already seen.

use fxhash::FxHashSet;
use vstd::prelude::*;

verus! {

/// `fxhash::FxHasher`, the hasher of the visited set: an opaque value.
#[verifier::external_type_specification]
#[verifier::external_body]
pub struct ExFxHasher(fxhash::FxHasher);

/// `core::hash::BuildHasherDefault`, which makes a hasher by its `Default`:
/// an opaque value.
#[verifier::external_type_specification]
#[verifier::external_body]
#[verifier::reject_recursive_types(H)]
pub struct ExBuildHasherDefault<H>(core::hash::BuildHasherDefault<H>);

/// Calls `Default::default` for `FxHashSet<u32>`, a `HashSet` hashed by
/// `FxHasher`. Trusted: the set it returns holds nothing.
#[verifier::external_body]
pub(crate) fn visited_new() -> (s: FxHashSet<u32>)
    ensures
        s@ == Set::<u32>::empty(),
{
    FxHashSet::default()
}

/// Calls `HashSet::contains` on a set hashed by `FxHasher`. Trusted: it tells
/// whether `k` is among the keys inserted so far.
#[verifier::external_body]
pub(crate) fn visited_contains(s: &FxHashSet<u32>, k: u32) -> (b: bool)
    ensures
        b == s@.contains(k),
{
    s.contains(&k)
}

/// Calls `HashSet::insert` on a set hashed by `FxHasher`. Trusted: afterwards
/// the set holds `k` and what it held before, nothing else.
#[verifier::external_body]
pub(crate) fn visited_insert(s: &mut FxHashSet<u32>, k: u32)
    ensures
        final(s)@ == old(s)@.insert(k),
{
    s.insert(k);
}

} // verus!
