//! Hash maps keyed by integers, hashed with `nohash_hasher` (the key is its own
//! hash), as the environment of the interpreter keeps them.
//!
//! The map's contents are the view that vstd gives a `HashMap`; the functions
//! here state what each operation does to them.

use nohash_hasher::{BuildNoHashHasher, IntMap, NoHashHasher};
use std::hash::BuildHasherDefault;
use vstd::prelude::*;

verus! {

#[verifier::external_type_specification]
#[verifier::external_body]
#[verifier::reject_recursive_types(H)]
pub struct ExBuildHasherDefault<H>(BuildHasherDefault<H>);

#[verifier::external_type_specification]
#[verifier::external_body]
#[verifier::reject_recursive_types(T)]
pub struct ExNoHashHasher<T>(NoHashHasher<T>);

/// The map with no keys.
pub open spec fn empty_map<V>() -> Map<u64, V> {
    Map::empty()
}

/// Calls `HashMap::with_capacity_and_hasher` with `nohash_hasher`'s hasher: the
/// map starts empty.
#[verifier::external_body]
pub(crate) fn intmap_with_capacity<V>(capacity: usize) -> (r: IntMap<u64, V>)
    ensures
        r@ == empty_map::<V>(),
{
    IntMap::with_capacity_and_hasher(capacity, BuildNoHashHasher::default())
}

/// Calls `HashMap::get`: the value stored under `k`, if any.
#[verifier::external_body]
pub(crate) fn intmap_get<V>(m: &IntMap<u64, V>, k: u64) -> (r: Option<&V>)
    ensures
        m@.contains_key(k) ==> r == Some(&m@[k]),
        !m@.contains_key(k) ==> r is None,
{
    m.get(&k)
}

/// Calls `HashMap::insert`: `k` is bound to `v`, and the value it was bound to
/// before comes back.
#[verifier::external_body]
pub(crate) fn intmap_insert<V>(m: &mut IntMap<u64, V>, k: u64, v: V) -> (r: Option<V>)
    ensures
        final(m)@ == old(m)@.insert(k, v),
        old(m)@.contains_key(k) ==> r == Some(old(m)@[k]),
        !old(m)@.contains_key(k) ==> r is None,
{
    m.insert(k, v)
}

/// Calls `HashMap::remove`: `k` is unbound, and the value it was bound to comes
/// back.
#[verifier::external_body]
pub(crate) fn intmap_remove<V>(m: &mut IntMap<u64, V>, k: u64) -> (r: Option<V>)
    ensures
        final(m)@ == old(m)@.remove(k),
        old(m)@.contains_key(k) ==> r == Some(old(m)@[k]),
        !old(m)@.contains_key(k) ==> r is None,
{
    m.remove(&k)
}

/// Calls `HashMap::into_iter` and collects the entries: each binding of the map
/// comes out once, in an order that the contract leaves open.
#[verifier::external_body]
pub(crate) fn intmap_into_entries<V>(m: IntMap<u64, V>) -> (r: Vec<(u64, V)>)
    ensures
        forall|i: int| 0 <= i < r@.len() ==> #[trigger] m@.contains_key(r@[i].0) && m@[r@[i].0] == r@[i].1,
        forall|i: int, j: int| 0 <= i < j < r@.len() ==> r@[i].0 != r@[j].0,
        forall|k: u64| m@.contains_key(k) ==> exists|i: int| 0 <= i < r@.len() && #[trigger] r@[i].0 == k,
{
    m.into_iter().collect()
}

/// Calls `HashMap::iter` and collects the entries: each binding of the map comes
/// out once, in an order that the contract leaves open.
#[verifier::external_body]
pub(crate) fn intmap_entries<'a, V>(m: &'a IntMap<u64, V>) -> (r: Vec<(u64, &'a V)>)
    ensures
        forall|i: int| 0 <= i < r@.len() ==> #[trigger] m@.contains_key(r@[i].0) && m@[r@[i].0] == *r@[i].1,
        forall|i: int, j: int| 0 <= i < j < r@.len() ==> r@[i].0 != r@[j].0,
        forall|k: u64| m@.contains_key(k) ==> exists|i: int| 0 <= i < r@.len() && #[trigger] r@[i].0 == k,
{
    m.iter().map(|(k, v)| (*k, v)).collect()
}

} // verus!
