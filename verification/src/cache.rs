//! The set of absolute seconds known to be excluded.

use std::collections::BTreeSet;
use vstd::prelude::*;

verus! {

/// An empty set of seconds.
pub fn cache_new() -> (r: BTreeSet<i64>)
    ensures
        r@ == Set::<i64>::empty(),
{
    BTreeSet::new()
}

/// Adds a second to the set.
pub fn cache_insert(cache: &mut BTreeSet<i64>, x: i64)
    ensures
        final(cache)@ == old(cache)@.insert(x),
{
    broadcast use vstd::laws_cmp::group_laws_cmp;
    broadcast use vstd::std_specs::btree::group_btree_axioms;

    cache.insert(x);
}

/// Tests whether a second is in the set.
pub fn cache_has(cache: &BTreeSet<i64>, x: i64) -> (r: bool)
    ensures
        r == cache@.contains(x),
{
    broadcast use vstd::laws_cmp::group_laws_cmp;
    broadcast use vstd::std_specs::btree::group_btree_axioms;

    cache.contains(&x)
}

} // verus!
