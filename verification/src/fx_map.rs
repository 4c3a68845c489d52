//! Hash maps keyed by integers and byte arrays, hashed with `rustc_hash`.
//!
//! The map type is `rustc_hash::FxHashMap`, that is `std`'s `HashMap` with the
//! seedless `FxBuildHasher`. What such a map holds is its view, a `Map`. The
//! wrappers here state what each map method does to that view; nothing is
//! proved of the map itself.
use rustc_hash::{FxBuildHasher, FxHashMap};
use std::hash::Hash;
use vstd::prelude::*;

verus! {

/// The hasher factory of `rustc_hash`: every hasher starts from the same state.
#[verifier::external_type_specification]
#[verifier::external_body]
pub struct ExFxBuildHasher(rustc_hash::FxBuildHasher);

/// The key types of the maps in this crate. Their equality and hash are those
/// of `std` and agree with equality of the values.
pub(crate) trait FxKey: Copy + Eq + Hash {

}

impl FxKey for u32 {

}

impl FxKey for [u8; 32] {

}

/// `HashMap::with_capacity_and_hasher`: an empty map with room for `capacity`
/// entries.
#[verifier::external_body]
pub(crate) fn map_with_capacity<K: FxKey, V>(capacity: usize) -> (r: FxHashMap<K, V>)
    ensures
        r@.is_empty(),
{
    FxHashMap::with_capacity_and_hasher(capacity, FxBuildHasher::default())
}

/// `HashMap::contains_key`: whether the map has an entry for `key`.
#[verifier::external_body]
pub(crate) fn map_contains<K: FxKey, V>(map: &FxHashMap<K, V>, key: &K) -> (r: bool)
    ensures
        r == map@.contains_key(*key),
{
    map.contains_key(key)
}

/// `HashMap::get`: the value stored for `key`, if there is an entry.
#[verifier::external_body]
pub(crate) fn map_get<'a, K: FxKey, V>(map: &'a FxHashMap<K, V>, key: &K) -> (r: Option<&'a V>)
    ensures
        match r {
            Some(v) => map@.contains_key(*key) && map@[*key] == *v,
            None => !map@.contains_key(*key),
        },
{
    map.get(key)
}

/// `HashMap::get_mut`: mutable access to the value stored for `key`; whatever
/// is left there is the only change to the map.
#[verifier::external_body]
pub(crate) fn map_get_mut<'a, K: FxKey, V>(map: &'a mut FxHashMap<K, V>, key: &K) -> (r: Option<
    &'a mut V,
>)
    ensures
        match r {
            Some(v) => {
                &&& old(map)@.contains_key(*key)
                &&& old(map)@[*key] == *v
                &&& final(map)@ == old(map)@.insert(*key, *final(v))
            },
            None => !old(map)@.contains_key(*key) && final(map)@ == old(map)@,
        },
{
    map.get_mut(key)
}

/// `HashMap::insert`: store `value` for `key` and hand back what it replaces.
#[verifier::external_body]
pub(crate) fn map_insert<K: FxKey, V>(map: &mut FxHashMap<K, V>, key: K, value: V) -> (r: Option<V>)
    ensures
        final(map)@ == old(map)@.insert(key, value),
        match r {
            Some(v) => old(map)@.contains_key(key) && old(map)@[key] == v,
            None => !old(map)@.contains_key(key),
        },
{
    map.insert(key, value)
}

/// `HashMap::remove`: drop the entry for `key` and hand back its value.
#[verifier::external_body]
pub(crate) fn map_remove<K: FxKey, V>(map: &mut FxHashMap<K, V>, key: &K) -> (r: Option<V>)
    ensures
        final(map)@ == old(map)@.remove(*key),
        match r {
            Some(v) => old(map)@.contains_key(*key) && old(map)@[*key] == v,
            None => !old(map)@.contains_key(*key),
        },
{
    map.remove(key)
}

} // verus!
