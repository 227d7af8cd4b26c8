//! What the cache keeps for each entry, and how entries are weighed.

use crate::common::deque::CacheRegion;
use crate::common::time::Instant;
use std::rc::Rc;
use vstd::prelude::*;

verus! {

/// The node of an entry in the list of writes: its key, and when it was last written.
pub struct KeyDate<K> {
    pub key: Rc<K>,
    pub timestamp: Option<Instant>,
}

/// The node of an entry in the list of uses: its key, the key's hash, and when the entry was
/// last used.
pub struct KeyHashDate<K> {
    pub key: Rc<K>,
    pub hash: u64,
    pub timestamp: Option<Instant>,
}

/// A node that belongs to the entry of a key and may carry a time.
pub trait Dated<K> {
    /// The key of the entry.
    spec fn of(&self) -> K;

    /// The time that the node carries.
    spec fn when(&self) -> Option<Instant>;
}

impl<K> Dated<K> for KeyDate<K> {
    open spec fn of(&self) -> K {
        *self.key
    }

    open spec fn when(&self) -> Option<Instant> {
        self.timestamp
    }
}

impl<K> Dated<K> for KeyHashDate<K> {
    open spec fn of(&self) -> K {
        *self.key
    }

    open spec fn when(&self) -> Option<Instant> {
        self.timestamp
    }
}

/// What the hash table holds for a key: the value, and the numbers of the entry's nodes.
pub struct ValueEntry<V> {
    pub value: V,
    pub region: CacheRegion,
    pub access_order_q_node: usize,
    pub write_order_q_node: Option<usize>,
}

/// Something that gives entries their weights. Every function from a key and a value to a
/// weight is one.
pub trait Weigh<K, V> {
    /// Whether the entry may be handed to [`Weigh::weigh`].
    spec fn accepts(&self, key: K, value: V) -> bool;

    /// Whether `weight` is a weight that [`Weigh::weigh`] may give the entry.
    spec fn weighs(&self, key: K, value: V, weight: u64) -> bool;

    /// Weighs an entry.
    fn weigh(&mut self, key: &K, value: &V) -> (weight: u64)
        requires
            old(self).accepts(*key, *value),
        ensures
            old(self).weighs(*key, *value, weight),
            &*final(self) == &*old(self),
    ;
}

impl<K, V, F: FnMut(&K, &V) -> u64> Weigh<K, V> for F {
    open spec fn accepts(&self, key: K, value: V) -> bool {
        call_requires(*self, (&key, &value))
    }

    open spec fn weighs(&self, key: K, value: V, weight: u64) -> bool {
        call_ensures(*self, (&key, &value), weight)
    }

    fn weigh(&mut self, key: &K, value: &V) -> (weight: u64) {
        self(key, value)
    }
}

/// What weighs the entries of a cache.
pub type Weigher<K, V> = Box<dyn Weigh<K, V>>;

/// Whether `weight` is a weight that the entry of `key` and `value` may be given: one where
/// nothing weighs the entries.
pub open spec fn may_weigh<K, V>(
    weigher: Option<Weigher<K, V>>,
    key: K,
    value: V,
    weight: u64,
) -> bool {
    match weigher {
        Some(weigher) => weigher.weighs(key, value, weight),
        None => weight == 1,
    }
}

/// Whether an entry always weighs what `weight_of` says.
pub open spec fn weighs_by<K, V>(
    weigher: Option<Weigher<K, V>>,
    weight_of: spec_fn(K, V) -> u64,
) -> bool {
    forall|k: K, v: V, weight: u64| #[trigger]
        may_weigh(weigher, k, v, weight) ==> weight == weight_of(k, v)
}

/// Whether every entry may be handed to the weigher, where there is one.
pub open spec fn accepts_all<K, V>(weigher: Option<Weigher<K, V>>) -> bool {
    weigher matches Some(weigher) ==> forall|key: K, value: V| #[trigger]
        weigher.accepts(key, value)
}

/// Weighs an entry.
pub fn weigh<K, V>(weigher: &mut Option<Weigher<K, V>>, key: &K, value: &V) -> (weight: u64)
    requires
        accepts_all(*old(weigher)),
    ensures
        may_weigh(*old(weigher), *key, *value, weight),
        match *old(weigher) {
            Some(weigher) => weigher.weighs(*key, *value, weight),
            None => weight == 1,
        },
        *final(weigher) == *old(weigher),
{
    match weigher {
        Some(weigher) => weigher.weigh(key, value),
        None => 1,
    }
}

} // verus!
