//! The index of the book's orders by identifier: an `IndexMap` whose
//! behaviour is stated here and taken on trust.
use super::order::Order;
use indexmap::IndexMap;
use vstd::prelude::*;

verus! {

/// `indexmap::IndexMap`, the hash map that keeps the book's orders by
/// identifier. Its inside is not visible to the verifier.
#[verifier::external_type_specification]
#[verifier::external_body]
#[verifier::reject_recursive_types(K)]
#[verifier::reject_recursive_types(V)]
#[verifier::reject_recursive_types(S)]
pub struct ExIndexMap<K, V, S>(IndexMap<K, V, S>);

/// What an index holds: the order stored under each key.
pub uninterp spec fn stored(index: IndexMap<u64, Order>) -> Map<u64, Order>;

/// `IndexMap::new`: a map that holds nothing.
#[verifier::external_body]
pub(crate) fn index_new() -> (index: IndexMap<u64, Order>)
    ensures
        (stored(index) == Map::<u64, Order>::empty()),
{
    IndexMap::new()
}

/// `count` is the number of `keys`, of which there are finitely many.
pub open spec fn counts(keys: Set<u64>, count: usize) -> bool {
    keys.finite() && keys.len() == count
}

/// `IndexMap::len`: the number of keys held.
#[verifier::external_body]
pub(crate) fn index_len(index: &IndexMap<u64, Order>) -> (count: usize)
    ensures
        counts(stored(*index).dom(), count),
{
    index.len()
}

/// `IndexMap::insert`: afterwards `key` holds `order`, whether or not the
/// key was held before, and every other key holds what it held.
#[verifier::external_body]
pub(crate) fn index_insert(index: &mut IndexMap<u64, Order>, key: u64, order: Order)
    ensures
        stored(*final(index)) == stored(*old(index)).insert(key, order),
{
    index.insert(key, order);
}

/// `IndexMap::get`: the order held under `key`, if the key is held.
#[verifier::external_body]
pub(crate) fn index_get(index: &IndexMap<u64, Order>, key: u64) -> (found: Option<&Order>)
    ensures
        match found {
            Some(order) => stored(*index).contains_key(key) && *order == stored(*index)[key],
            None => !stored(*index).contains_key(key),
        },
{
    index.get(&key)
}

/// `IndexMap::get_mut`: a mutable reference to the order held under `key`, if
/// the key is held. What is written through it is what the key holds
/// afterwards; nothing else changes.
#[verifier::external_body]
pub(crate) fn index_get_mut(index: &mut IndexMap<u64, Order>, key: u64) -> (found: Option<
    &mut Order,
>)
    ensures
        match found {
            Some(order) => stored(*old(index)).contains_key(key) && *order == stored(
                *old(index),
            )[key] && stored(*final(index)) == stored(*old(index)).insert(key, *final(order)),
            None => !stored(*old(index)).contains_key(key) && stored(*final(index)) == stored(
                *old(index),
            ),
        },
{
    index.get_mut(&key)
}

/// `IndexMap::swap_remove`: takes `key` out and returns the order it held, if
/// the key was held; every other key holds what it held.
#[verifier::external_body]
pub(crate) fn index_swap_remove(index: &mut IndexMap<u64, Order>, key: u64) -> (removed: Option<
    Order,
>)
    ensures
        match removed {
            Some(order) => stored(*old(index)).contains_key(key) && order == stored(
                *old(index),
            )[key],
            None => !stored(*old(index)).contains_key(key),
        },
        stored(*final(index)) == stored(*old(index)).remove(key),
{
    index.swap_remove(&key)
}

} // verus!
