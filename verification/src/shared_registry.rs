//! The concurrency-safe shared registry: a sharded locking map from
//! the `dashmap` crate, held behind trusted declarations. Its contents
//! are named by an uninterpreted map so that everything the strategies
//! prove holds of whatever the sharded map really stores.

use vstd::prelude::*;
use crate::order::{Order, OrderStatus, spec_apply_fill};

verus! {

#[verifier::external_type_specification]
#[verifier::external_body]
#[verifier::reject_recursive_types(K)]
#[verifier::reject_recursive_types(V)]
#[verifier::reject_recursive_types(S)]
pub struct ExDashMap<K, V, S>(dashmap::DashMap<K, V, S>);

/// The key-to-order contents of a shared registry.
pub uninterp spec fn shared_contents(m: dashmap::DashMap<u64, Order>) -> Map<u64, Order>;

/// A snapshot without the fully filled orders: what a cleanup sweep
/// leaves behind.
pub open spec fn without_filled(m: Map<u64, Order>) -> Map<u64, Order> {
    Map::new(
        |k: u64| m.contains_key(k) && m[k].status != OrderStatus::Filled,
        |k: u64| m[k],
    )
}

/// Relies on `dashmap::DashMap::new`: the fresh map is empty.
#[verifier::external_body]
pub fn shared_new() -> (m: dashmap::DashMap<u64, Order>)
    ensures
        shared_contents(m) =~= Map::empty(),
{
    dashmap::DashMap::new()
}

/// Relies on `dashmap::DashMap::len`: the number of entries the map
/// holds.
#[verifier::external_body]
pub fn shared_len(m: &dashmap::DashMap<u64, Order>) -> (n: usize)
    ensures
        n == shared_contents(*m).dom().len(),
{
    m.len()
}

/// Relies on `dashmap::DashMap::insert`: maps the key to the value,
/// replacing any previous entry under that key.
#[verifier::external_body]
pub fn shared_insert(m: &mut dashmap::DashMap<u64, Order>, key: u64, order: Order)
    ensures
        shared_contents(*final(m)) == shared_contents(*old(m)).insert(key, order),
{
    m.insert(key, order);
}

/// Relies on `dashmap::DashMap::get`: returns the value mapped to the
/// key, if any; the copy handed back is a clone of the stored order.
#[verifier::external_body]
pub fn shared_get(m: &dashmap::DashMap<u64, Order>, key: u64) -> (r: Option<Order>)
    ensures
        match r {
            Some(o) => shared_contents(*m).contains_key(key) && o == shared_contents(*m)[key],
            None => !shared_contents(*m).contains_key(key),
        },
{
    m.get(&key).map(|entry| entry.value().clone())
}

/// Relies on `dashmap::DashMap::alter`: rewrites the value under the
/// key, if any, through the given closure — here the library's
/// verified fill transition; no other entry changes.
#[verifier::external_body]
pub fn shared_fill(m: &mut dashmap::DashMap<u64, Order>, key: u64, quantity: u64)
    requires
        shared_contents(*old(m)).contains_key(key) ==> shared_contents(*old(m))[key].wf(),
    ensures
        shared_contents(*final(m)) == if shared_contents(*old(m)).contains_key(key) {
            shared_contents(*old(m)).insert(
                key,
                spec_apply_fill(shared_contents(*old(m))[key], quantity),
            )
        } else {
            shared_contents(*old(m))
        },
{
    m.alter(
        &key,
        |_, mut order| {
            order.apply_fill(quantity);
            order
        },
    );
}

/// Relies on `dashmap::DashMap::retain`: keeps exactly the entries the
/// predicate accepts; the predicate here is the library's verified
/// check that an order is not fully filled.
#[verifier::external_body]
pub fn shared_evict_filled(m: &mut dashmap::DashMap<u64, Order>)
    ensures
        shared_contents(*final(m)) == without_filled(shared_contents(*old(m))),
{
    m.retain(|_, order| order.is_open());
}

} // verus!
