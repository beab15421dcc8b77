//! The hash maps of the `rustc-hash` crate, keyed by byte arrays.
//!
//! `FxHashMap` is the standard `HashMap` with the hasher of that crate. Its view is the map from
//! keys to values that it holds. What follows is believed, not proved: two byte arrays are the
//! same key exactly when they hold the same bytes, and `FxHasher` computes a hash from the bytes
//! that it is fed and from nothing else, so a map finds what was put into it.

use rustc_hash::FxHashMap;
use vstd::prelude::*;

verus! {

/// The hasher of the `rustc-hash` crate.
#[verifier::external_type_specification]
#[verifier::external_body]
pub struct ExFxHasher(rustc_hash::FxHasher);

/// The hasher builder in the type of `FxHashMap`.
#[verifier::external_type_specification]
#[verifier::external_body]
#[verifier::reject_recursive_types(H)]
pub struct ExBuildHasherDefault<H>(std::hash::BuildHasherDefault<H>);

/// `HashMap::get` on an `FxHashMap`: the value that the map holds for a key, if it holds one.
#[verifier::external_body]
pub(crate) fn map_get<'a, const N: usize, V>(
    map: &'a FxHashMap<[u8; N], V>,
    key: &[u8; N],
) -> (r: Option<&'a V>)
    ensures
        match r {
            Some(v) => map@.contains_key(*key) && *v == map@[*key],
            None => !map@.contains_key(*key),
        },
{
    map.get(key)
}

/// `HashMap::insert` on an `FxHashMap`: the key has the new value afterwards, and nothing else
/// changes.
#[verifier::external_body]
pub(crate) fn map_insert<const N: usize, V>(
    map: &mut FxHashMap<[u8; N], V>,
    key: [u8; N],
    value: V,
)
    ensures
        final(map)@ == old(map)@.insert(key, value),
{
    map.insert(key, value);
}

/// `HashMap::remove` on an `FxHashMap`: hands out the value of a key, if there is one. The map no
/// longer holds the key, and nothing else changes.
#[verifier::external_body]
pub(crate) fn map_remove<const N: usize, V>(
    map: &mut FxHashMap<[u8; N], V>,
    key: &[u8; N],
) -> (r: Option<V>)
    ensures
        final(map)@ == old(map)@.remove(*key),
        match r {
            Some(v) => old(map)@.contains_key(*key) && v == old(map)@[*key],
            None => !old(map)@.contains_key(*key),
        },
{
    map.remove(key)
}

/// `HashMap::iter` on an `FxHashMap`: copies of all keys with their values, each key once. In
/// which order they come is left open.
#[verifier::external_body]
pub(crate) fn map_entries<const N: usize, V: Copy>(map: &FxHashMap<[u8; N], V>) -> (r: Vec<
    ([u8; N], V),
>)
    ensures
        forall|i: int|
            0 <= i < r@.len() ==> map@.contains_key((#[trigger] r@[i]).0) && map@[r@[i].0]
                == r@[i].1,
        forall|key: [u8; N]| #[trigger]
            map@.contains_key(key) ==> exists|i: int| 0 <= i < r@.len() && (#[trigger] r@[i]).0 == key,
        forall|i: int, j: int|
            0 <= i < j < r@.len() ==> (#[trigger] r@[i]).0 != (#[trigger] r@[j]).0,
{
    map.iter().map(|(key, value)| (*key, *value)).collect()
}

} // verus!
