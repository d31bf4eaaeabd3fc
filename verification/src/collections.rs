//! Outside collection types that the library keeps its data in (the slab
//! of the `slab` crate and the hash map of the `rustc-hash` crate), and the
//! calls on them and on `BTreeMap` that vstd does not specify.
use vstd::prelude::*;
use std::collections::BTreeMap;
use rustc_hash::FxHashMap;

verus! {

/// `slab::Slab`, a vector of slots addressed by key.
#[verifier::external_type_specification]
#[verifier::external_body]
#[verifier::reject_recursive_types(T)]
pub struct ExSlab<T>(slab::Slab<T>);

/// `rustc_hash::FxBuildHasher`, the hasher of `FxHashMap`.
#[verifier::external_type_specification]
#[verifier::external_body]
pub struct ExFxBuildHasher(rustc_hash::FxBuildHasher);

/// A map with no key.
pub open spec fn no_keys<V>() -> Map<u64, V> {
    Map::empty()
}

/// `HashMap::with_capacity_and_hasher` for an `FxHashMap`: an empty map.
#[verifier::external_body]
pub(crate) fn fx_with_capacity<V>(capacity: usize) -> (r: FxHashMap<u64, V>)
    ensures
        r@ == no_keys::<V>(),
{
    FxHashMap::with_capacity_and_hasher(capacity, Default::default())
}

/// `Default::default` for an `FxHashMap`: an empty map.
#[verifier::external_body]
pub(crate) fn fx_default<V>() -> (r: FxHashMap<u64, V>)
    ensures
        r@ == no_keys::<V>(),
{
    FxHashMap::default()
}

/// `HashMap::insert` on an `FxHashMap`: maps `k` to `v`.
#[verifier::external_body]
pub(crate) fn fx_insert<V>(m: &mut FxHashMap<u64, V>, k: u64, v: V)
    ensures
        final(m)@ == old(m)@.insert(k, v),
{
    m.insert(k, v);
}

/// `HashMap::remove` on an `FxHashMap`: takes out what `k` maps to.
#[verifier::external_body]
pub(crate) fn fx_remove<V>(m: &mut FxHashMap<u64, V>, k: u64) -> (r: Option<V>)
    ensures
        r == if old(m)@.contains_key(k) {
            Some(old(m)@[k])
        } else {
            None
        },
        final(m)@ == old(m)@.remove(k),
{
    m.remove(&k)
}

/// `HashMap::get` on an `FxHashMap`: what `k` maps to, if anything.
#[verifier::external_body]
pub(crate) fn fx_get<V: Copy>(m: &FxHashMap<u64, V>, k: u64) -> (r: Option<V>)
    ensures
        r == if m@.contains_key(k) {
            Some(m@[k])
        } else {
            None
        },
{
    m.get(&k).copied()
}

/// `HashMap::clear` on an `FxHashMap`: drops every entry.
#[verifier::external_body]
pub(crate) fn fx_clear<V>(m: &mut FxHashMap<u64, V>)
    ensures
        final(m)@ == no_keys::<V>(),
{
    m.clear()
}

/// `BTreeMap::first_key_value`: the lowest key.
#[verifier::external_body]
pub(crate) fn first_key<V>(m: &BTreeMap<u64, V>) -> (r: Option<u64>)
    ensures
        r is None <==> m@.dom().is_empty(),
        r matches Some(k) ==> m@.contains_key(k) && forall|j: u64| m@.contains_key(j) ==> k <= j,
{
    match m.first_key_value() {
        Some((k, _)) => Some(*k),
        None => None,
    }
}

/// `BTreeMap::last_key_value`: the highest key.
#[verifier::external_body]
pub(crate) fn last_key<V>(m: &BTreeMap<u64, V>) -> (r: Option<u64>)
    ensures
        r is None <==> m@.dom().is_empty(),
        r matches Some(k) ==> m@.contains_key(k) && forall|j: u64| m@.contains_key(j) ==> j <= k,
{
    match m.last_key_value() {
        Some((k, _)) => Some(*k),
        None => None,
    }
}

} // verus!
