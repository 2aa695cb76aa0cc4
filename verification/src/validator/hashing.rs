//! Sets of handles and indexes from ids to handles, kept in the hash set and
//! hash map of `rustc_hash`.
//!
//! These are std's `HashSet` and `HashMap` with another hasher; what they do
//! with it is believed, as the contracts below state it, not proved.

use rustc_hash::{FxHashMap, FxHashSet, FxHasher};
use vstd::prelude::*;

verus! {

#[verifier::external_type_specification]
#[verifier::external_body]
pub struct ExFxHasher(FxHasher);

#[verifier::external_type_specification]
#[verifier::external_body]
#[verifier::reject_recursive_types(H)]
pub struct ExBuildHasherDefault<H>(core::hash::BuildHasherDefault<H>);

/// `FxHashSet::default`: a set that holds nothing.
#[verifier::external_body]
pub(crate) fn hashing_new() -> (s: FxHashSet<usize>)
    ensures
        s@ == Set::<usize>::empty(),
{
    FxHashSet::default()
}

/// `HashSet::insert` on an `FxHashSet`: the set holds `x` afterwards and what
/// it held before; the result says whether `x` was new.
#[verifier::external_body]
pub(crate) fn hashing_insert(s: &mut FxHashSet<usize>, x: usize) -> (fresh: bool)
    ensures
        final(s)@ == old(s)@.insert(x),
        fresh == !old(s)@.contains(x),
{
    s.insert(x)
}

/// `HashSet::contains` on an `FxHashSet`: whether the set holds `x`.
#[verifier::external_body]
pub(crate) fn hashing_contains(s: &FxHashSet<usize>, x: usize) -> (found: bool)
    ensures
        found == s@.contains(x),
{
    s.contains(&x)
}

/// What an index holds: the handle that it gives each text.
pub uninterp spec fn index_entries(index: &FxHashMap<String, usize>) -> Map<Seq<char>, usize>;

/// What an index holds that holds nothing.
pub open spec fn no_entries() -> Map<Seq<char>, usize> {
    Map::empty()
}

/// `FxHashMap::default`: an index that holds nothing.
#[verifier::external_body]
pub(crate) fn index_new() -> (made: FxHashMap<String, usize>)
    ensures
        index_entries(&made) == no_entries(),
{
    FxHashMap::default()
}

/// `HashMap::get` on an `FxHashMap`: the handle that the index gives `key`,
/// if it gives one. Two keys are one where their text is equal.
#[verifier::external_body]
pub(crate) fn index_get(index: &FxHashMap<String, usize>, key: &str) -> (handle: Option<usize>)
    ensures
        handle == (if index_entries(index).dom().contains(key@) {
            Some(index_entries(index)[key@])
        } else {
            None
        }),
{
    index.get(key).copied()
}

/// `HashMap::insert` on an `FxHashMap`: the index gives `key` the handle
/// `handle` afterwards, and every other text what it gave it before.
#[verifier::external_body]
pub(crate) fn index_insert(index: &mut FxHashMap<String, usize>, key: String, handle: usize)
    ensures
        index_entries(final(index)) == index_entries(old(index)).insert(key@, handle),
{
    index.insert(key, handle);
}

} // verus!
