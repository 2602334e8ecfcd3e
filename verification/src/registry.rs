//! The exclusively-owned registry: a plain hash map from numeric
//! lookup key to order, with no internal synchronization. One registry
//! exists per benchmark trial and is discarded at trial end.

use vstd::prelude::*;
use std::collections::HashMap;
use crate::order::{Order, spec_apply_fill};

verus! {

broadcast use vstd::std_specs::hash::group_hash_axioms;

/// Every order held in a registry snapshot is well-formed.
pub open spec fn map_wf(m: Map<u64, Order>) -> bool {
    forall|k: u64| m.contains_key(k) ==> #[trigger] m[k].wf()
}

/// A mutable mapping from lookup key to order, owned by one trial.
pub struct Registry {
    map: HashMap<u64, Order>,
}

impl Registry {
    /// The registry's contents as a mathematical map.
    pub closed spec fn view(&self) -> Map<u64, Order> {
        self.map@
    }

    /// A registry always holds finitely many orders.
    pub proof fn lemma_view_finite(&self)
        ensures
            self@.dom().finite(),
    {
    }

    pub fn new() -> (r: Self)
        ensures
            r@ == Map::<u64, Order>::empty(),
    {
        Registry { map: HashMap::new() }
    }

    pub fn len(&self) -> (n: usize)
        ensures
            n == self@.dom().len(),
    {
        self.map.len()
    }

    pub fn contains(&self, key: u64) -> (r: bool)
        ensures
            r == self@.contains_key(key),
    {
        self.map.contains_key(&key)
    }

    /// Creates or replaces the order under `key`.
    pub fn insert(&mut self, key: u64, order: Order)
        ensures
            final(self)@ == old(self)@.insert(key, order),
    {
        self.map.insert(key, order);
    }

    /// Looks an order up by key.
    pub fn get(&self, key: u64) -> (r: Option<&Order>)
        ensures
            match r {
                Some(o) => self@.contains_key(key) && *o == self@[key],
                None => !self@.contains_key(key),
            },
    {
        self.map.get(&key)
    }

    /// Applies one fill to the order under `key`, if present; reports
    /// whether the key was found.
    pub fn fill(&mut self, key: u64, quantity: u64) -> (hit: bool)
        requires
            old(self)@.contains_key(key) ==> old(self)@[key].wf(),
        ensures
            hit == old(self)@.contains_key(key),
            final(self)@ == if old(self)@.contains_key(key) {
                old(self)@.insert(key, spec_apply_fill(old(self)@[key], quantity))
            } else {
                old(self)@
            },
    {
        match self.map.remove(&key) {
            Some(mut order) => {
                order.apply_fill(quantity);
                self.map.insert(key, order);
                proof {
                    assert(self@ =~= old(self)@.insert(
                        key,
                        spec_apply_fill(old(self)@[key], quantity),
                    ));
                }
                true
            },
            None => false,
        }
    }
}

} // verus!
