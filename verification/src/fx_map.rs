//! Hash maps that hash with `rustc_hash`, for keys whose equality is that of
//! their value.

use vstd::prelude::*;
use std::collections::HashMap;
use std::hash::Hash;
use rustc_hash::FxBuildHasher;

verus! {

#[verifier::external_type_specification]
#[verifier::external_body]
pub struct ExFxBuildHasher(FxBuildHasher);

/// A key of a map: a plain value that is equal to another exactly where the
/// two are the same value, and that hashes by its value.
pub trait FxKey: Copy + Eq + Hash {

}

impl FxKey for u32 {

}

impl<const N: usize> FxKey for [u8; N] {

}

/// `entries` lists what `map` holds: each key once, with its value.
pub open spec fn lists_entries<K, V>(map: Map<K, V>, entries: Seq<(K, V)>) -> bool {
    &&& forall|i: int|
        0 <= i < entries.len() ==> map.contains_key((#[trigger] entries[i]).0) && map[entries[i].0]
            == entries[i].1
    &&& forall|i: int, j: int|
        0 <= i < j < entries.len() ==> (#[trigger] entries[i]).0 != (#[trigger] entries[j]).0
    &&& forall|key: K| #[trigger]
        map.contains_key(key) ==> exists|i: int| 0 <= i < entries.len() && (#[trigger] entries[i]).0 == key
}

/// A new, empty map, made with `FxBuildHasher`'s `Default`.
///
/// Trusted: the map holds nothing.
#[verifier::external_body]
pub(crate) fn fx_new<K: FxKey, V>() -> (map: HashMap<K, V, FxBuildHasher>)
    ensures
        map@ =~= Map::empty(),
{
    HashMap::default()
}

/// `HashMap::insert` on a map that hashes with `rustc_hash::FxBuildHasher`.
///
/// Trusted: afterwards the key maps to the value, and every other key to
/// what it mapped to before.
#[verifier::external_body]
pub(crate) fn fx_insert<K: FxKey, V>(map: &mut HashMap<K, V, FxBuildHasher>, key: K, value: V)
    ensures
        final(map)@ == old(map)@.insert(key, value),
{
    map.insert(key, value);
}

/// `HashMap::get` on a map that hashes with `rustc_hash::FxBuildHasher`.
///
/// Trusted: the result is what the key maps to, or `None` where it maps to
/// nothing.
#[verifier::external_body]
pub(crate) fn fx_get<K: FxKey, V: Copy>(map: &HashMap<K, V, FxBuildHasher>, key: K) -> (found: Option<V>)
    ensures
        found == (if map@.contains_key(key) { Some(map@[key]) } else { None::<V> }),
{
    map.get(&key).copied()
}

/// `HashMap::iter` on a map that hashes with `rustc_hash::FxBuildHasher`,
/// with each entry copied out.
///
/// Trusted: the result holds each key of the map once, with its value. The
/// order of the entries is not stated.
#[verifier::external_body]
pub(crate) fn fx_entries<K: FxKey, V: Copy>(map: &HashMap<K, V, FxBuildHasher>) -> (entries: Vec<(K, V)>)
    ensures
        lists_entries(map@, entries@),
{
    map.iter().map(|(key, value)| (*key, *value)).collect()
}

} // verus!
