//! What a cache holds, and what each operation makes of it.

use crate::common::frequency_sketch;
use crate::common::frequency_sketch::SketchView;
use crate::common::time::{Clock, Instant};
use crate::unsync::entry;
use crate::unsync::entry::{Dated, KeyDate, KeyHashDate, Weigher};
use crate::unsync::order;
use crate::unsync::victims;
use std::rc::Rc;
use std::time::Duration;
use vstd::prelude::*;

verus! {

/// How many entries are looked at for expiry, from each list, before an operation.
pub const EVICTION_BATCH_SIZE: usize = 100;

/// The sum of some weights.
pub open spec fn total(weights: Seq<u64>) -> nat
    decreases weights.len(),
{
    if weights.len() == 0 {
        0
    } else {
        total(weights.drop_last()) + weights.last() as nat
    }
}

/// What the entries of `keys` weigh together, where `nodes` are the nodes of all entries and
/// `weights` gives each key the weight of its entry.
pub open spec fn weight_among<K>(
    nodes: Seq<KeyHashDate<K>>,
    keys: Set<K>,
    weights: Map<K, u64>,
) -> nat
    decreases nodes.len(),
{
    if nodes.len() == 0 {
        0
    } else {
        weight_among(nodes.drop_last(), keys, weights) + if keys.contains(nodes.last().of()) {
            weights[nodes.last().of()] as nat
        } else {
            0
        }
    }
}

/// The value behind a reference, where there is one.
pub open spec fn pointee<V>(reference: Option<&V>) -> Option<V> {
    match reference {
        Some(value) => Some(*value),
        None => None,
    }
}

/// The number of hashes that the estimator of a cache is made for: as many as the cache may
/// hold entries, but at least 128, and at most what a `u32` can hold.
pub open spec fn sketch_capacity(max_capacity: Option<usize>) -> u32 {
    match max_capacity {
        Some(max) => if max < 128 {
            128
        } else if max <= u32::MAX {
            max as u32
        } else {
            u32::MAX
        },
        None => u32::MAX,
    }
}

/// Weights of one each add up to their number.
pub proof fn lemma_total_of_ones(weights: Seq<u64>)
    requires
        forall|i: int| 0 <= i < weights.len() ==> #[trigger] weights[i] == 1,
    ensures
        total(weights) == weights.len(),
    decreases weights.len(),
{
    if weights.len() > 0 {
        assert(weights[weights.len() - 1] == 1);
        assert forall|i: int| 0 <= i < weights.drop_last().len() implies #[trigger] weights.drop_last()[i]
            == 1 by {
            assert(weights[i] == 1);
        }
        lemma_total_of_ones(weights.drop_last());
    }
}

/// Entries that are not there weigh nothing.
proof fn lemma_among_none<K>(nodes: Seq<KeyHashDate<K>>, keys: Set<K>, weights: Map<K, u64>)
    requires
        forall|i: int| 0 <= i < nodes.len() ==> !keys.contains((#[trigger] nodes[i]).of()),
    ensures
        weight_among(nodes, keys, weights) == 0,
    decreases nodes.len(),
{
    if nodes.len() > 0 {
        assert(nodes.last() == nodes[nodes.len() - 1]);
        assert forall|i: int| 0 <= i < nodes.drop_last().len() implies !keys.contains(
            (#[trigger] nodes.drop_last()[i]).of(),
        ) by {
            assert(nodes.drop_last()[i] == nodes[i]);
        }
        lemma_among_none(nodes.drop_last(), keys, weights);
    }
}

/// One entry weighs what it weighs.
proof fn lemma_among_one<K>(nodes: Seq<KeyHashDate<K>>, k: K, weights: Map<K, u64>)
    requires
        order::distinct::<K, _>(nodes),
        order::keys_of::<K, _>(nodes).contains(k),
    ensures
        weight_among(nodes, set![k], weights) == weights[k],
    decreases nodes.len(),
{
    let rest = nodes.drop_last();
    let i = order::place(nodes, k);
    assert(nodes.last() == nodes[nodes.len() - 1]);
    if nodes.last().of() == k {
        assert forall|j: int| 0 <= j < rest.len() implies !set![k].contains(
            (#[trigger] rest[j]).of(),
        ) by {
            assert(rest[j] == nodes[j]);
        }
        lemma_among_none(rest, set![k], weights);
    } else {
        assert(rest[i] == nodes[i]);
        assert(order::keys_of::<K, _>(rest).contains(k));
        assert forall|a: int, b: int|
            0 <= a < rest.len() && 0 <= b < rest.len() && a != b implies (
        #[trigger] rest[a]).of() != (#[trigger] rest[b]).of() by {
            assert(nodes[a].of() != nodes[b].of());
        }
        lemma_among_one(rest, k, weights);
    }
}

/// What some entries weigh, and then some of the others, adds up.
proof fn lemma_among_both<K>(
    nodes: Seq<KeyHashDate<K>>,
    first: Set<K>,
    one: Map<K, u64>,
    second: Set<K>,
    two: Map<K, u64>,
    both: Map<K, u64>,
)
    requires
        forall|k: K|
            #[trigger] both[k] == if first.contains(k) {
                one[k]
            } else {
                two[k]
            },
    ensures
        weight_among(nodes, first.union(second), both) == weight_among(nodes, first, one)
            + weight_among(order::without(nodes, first), second, two),
    decreases nodes.len(),
{
    reveal(Seq::filter);
    if nodes.len() > 0 {
        let node = nodes.last();
        let shorter = order::without(nodes.drop_last(), first);
        lemma_among_both(nodes.drop_last(), first, one, second, two, both);
        if !first.contains(node.of()) {
            assert(order::without(nodes, first) == shorter.push(node));
            assert(shorter.push(node).drop_last() =~= shorter);
        }
    }
}

/// Entries that weigh one each weigh as much as they are many.
proof fn lemma_among_ones<K>(nodes: Seq<KeyHashDate<K>>, keys: Set<K>, weights: Map<K, u64>)
    requires
        forall|i: int|
            0 <= i < nodes.len() && keys.contains((#[trigger] nodes[i]).of())
                ==> weights[nodes[i].of()] == 1,
    ensures
        weight_among(nodes, keys, weights) + order::without(nodes, keys).len() == nodes.len(),
    decreases nodes.len(),
{
    reveal(Seq::filter);
    if nodes.len() > 0 {
        let rest = nodes.drop_last();
        assert(nodes.last() == nodes[nodes.len() - 1]);
        assert forall|i: int|
            0 <= i < rest.len() && keys.contains((#[trigger] rest[i]).of()) implies weights[rest[i].of()]
            == 1 by {
            assert(rest[i] == nodes[i]);
        }
        lemma_among_ones(rest, keys, weights);
    }
}

/// What a cache holds.
#[verifier::ext_equal]
#[verifier::reject_recursive_types(K)]
#[verifier::reject_recursive_types(V)]
pub struct CacheView<K, V> {
    /// The value of each key.
    pub entries: Map<K, V>,
    /// The entries in the order in which they were last used, least recently first.
    pub recency: Seq<KeyHashDate<K>>,
    /// The entries in the order in which they were last written, least recently first. Kept
    /// only where entries expire some time after they were written.
    pub writes: Seq<KeyDate<K>>,
    /// What the entries weigh together, as far as it is accounted for.
    pub weighted_size: u64,
    /// How often keys have been asked for lately.
    pub sketch: SketchView,
    /// How much the entries may weigh together.
    pub max_capacity: Option<u64>,
    /// How long an entry lasts after it was written.
    pub time_to_live: Option<Duration>,
    /// How long an entry lasts after it was last used or written.
    pub time_to_idle: Option<Duration>,
    /// What weighs the entries.
    pub weigher: Option<Weigher<K, V>>,
    /// The clock that entries expire by, where it is not the system's.
    pub clock: Option<Clock>,
}

impl<K, V> CacheView<K, V> {
    /// Every entry has one place in the order of uses, and one in the order of writes where
    /// that is kept.
    pub open spec fn ordered(self) -> bool {
        &&& order::distinct::<K, _>(self.recency)
        &&& order::keys_of::<K, _>(self.recency) == self.entries.dom()
        &&& order::distinct::<K, _>(self.writes)
        &&& self.time_to_live is Some ==> order::keys_of::<K, _>(self.writes) == self.entries.dom()
        &&& self.time_to_live is None ==> self.writes.len() == 0
        &&& self.sketch.wf()
    }

    /// The entries are ordered. Where each entry weighs one, there are as many entries as is
    /// accounted for, and no more than the capacity allows.
    pub open spec fn wf(self) -> bool {
        &&& self.ordered()
        &&& self.weigher is None ==> self.within_capacity()
    }

    /// The accounted weight is the number of entries, and that is within the capacity.
    pub open spec fn within_capacity(self) -> bool {
        self.max_capacity matches Some(max) ==> self.recency.len() == self.weighted_size <= max
    }

    /// A cache without entries.
    pub open spec fn new(
        max_capacity: Option<usize>,
        time_to_live: Option<Duration>,
        time_to_idle: Option<Duration>,
        weigher: Option<Weigher<K, V>>,
    ) -> Self {
        CacheView {
            entries: Map::empty(),
            recency: Seq::empty(),
            writes: Seq::empty(),
            weighted_size: 0,
            sketch: SketchView::fresh(
                frequency_sketch::slots_for(sketch_capacity(max_capacity)),
                frequency_sketch::sample_size_for(sketch_capacity(max_capacity)),
            ),
            max_capacity: match max_capacity {
                Some(max) => Some(max as u64),
                None => None,
            },
            time_to_live,
            time_to_idle,
            weigher,
            clock: None,
        }
    }

    /// Whether entries expire.
    pub open spec fn has_expiry(self) -> bool {
        self.time_to_live is Some || self.time_to_idle is Some
    }

    /// Whether an operation may go by `timestamp`: a time is read exactly where entries expire.
    pub open spec fn reads(self, timestamp: Option<Instant>) -> bool {
        timestamp is Some <==> self.has_expiry()
    }

    /// When the entry of `k` was last used or written.
    pub open spec fn last_accessed(self, k: K) -> Option<Instant> {
        self.recency[order::place(self.recency, k)].timestamp
    }

    /// When the entry of `k` was last written, where that is kept.
    pub open spec fn last_modified(self, k: K) -> Option<Instant> {
        if self.time_to_live is Some {
            self.writes[order::place(self.writes, k)].timestamp
        } else {
            None
        }
    }

    /// Whether the entry of `k` has expired at `now`.
    pub open spec fn is_expired(self, k: K, now: Instant) -> bool {
        ||| order::over(self.time_to_live, self.last_modified(k), now)
        ||| order::over(self.time_to_idle, self.last_accessed(k), now)
    }

    /// Whether `weights` gives the entries of `keys` weights that they may be given.
    pub open spec fn may_weigh_all(self, keys: Set<K>, weights: Map<K, u64>) -> bool {
        forall|k: K|
            keys.contains(k) && self.entries.contains_key(k) ==> entry::may_weigh(
                self.weigher,
                k,
                self.entries[k],
                #[trigger] weights[k],
            )
    }

    /// Whether the entries of `keys` may together weigh `released`.
    pub open spec fn may_release(self, keys: Set<K>, released: nat) -> bool {
        exists|weights: Map<K, u64>| #[trigger]
            self.may_weigh_all(keys, weights) && released == weight_among(
                self.recency,
                keys,
                weights,
            )
    }

    /// The cache without the entries of `keys`, with `released` taken off the accounted weight.
    pub open spec fn remove_all(self, keys: Set<K>, released: nat) -> Self {
        CacheView {
            entries: self.entries.remove_keys(keys),
            recency: order::without(self.recency, keys),
            writes: order::without(self.writes, keys),
            ..self.reweigh(released, 0)
        }
    }

    /// The cache without the entry of `k`, with `released` taken off the accounted weight.
    pub open spec fn remove(self, k: K, released: nat) -> Self {
        self.remove_all(set![k], released)
    }

    /// The keys of the entries that a look at the order of writes finds expired at `now`.
    pub open spec fn stale(self, now: Instant) -> Set<K> {
        order::keys_of(
            self.writes.take(
                order::leading_over::<K, _>(
                    self.writes,
                    self.time_to_live,
                    now,
                    EVICTION_BATCH_SIZE as nat,
                ) as int,
            ),
        )
    }

    /// The keys of the entries that a look at the order of uses finds expired at `now`.
    pub open spec fn idle(self, now: Instant) -> Set<K> {
        order::keys_of(
            self.recency.take(
                order::leading_over::<K, _>(
                    self.recency,
                    self.time_to_idle,
                    now,
                    EVICTION_BATCH_SIZE as nat,
                ) as int,
            ),
        )
    }

    /// The keys of the entries that a look for expired ones finds: first in the order of writes,
    /// and then among the others in the order of uses.
    pub open spec fn found_expired(self, now: Instant) -> Set<K> {
        self.stale(now).union(self.remove_all(self.stale(now), 0).idle(now))
    }

    /// The cache after a look for entries that have expired at `now`. Together they weigh
    /// `released`.
    pub open spec fn evict(self, now: Instant, released: nat) -> Self {
        self.remove_all(self.found_expired(now), released)
    }

    /// The cache after a look for expired entries, if a time has been read.
    pub open spec fn evict_at(self, timestamp: Option<Instant>, released: nat) -> Self {
        match timestamp {
            Some(now) => self.evict(now, released),
            None => self,
        }
    }

    /// Whether the entries that a look for expired ones finds may together weigh `released`.
    pub open spec fn may_evict(self, timestamp: Option<Instant>, released: nat) -> bool {
        timestamp matches Some(now) ==> self.may_release(self.found_expired(now), released)
    }

    /// What is found for `k`: nothing for an entry that has expired.
    pub open spec fn lookup(self, k: K, timestamp: Option<Instant>) -> Option<V> {
        if self.entries.contains_key(k) && !(timestamp matches Some(now) && self.is_expired(
            k,
            now,
        )) {
            Some(self.entries[k])
        } else {
            None
        }
    }

    /// The cache after `hash` has been counted once more.
    pub open spec fn count(self, hash: u64) -> Self {
        CacheView { sketch: self.sketch.increment(hash), ..self }
    }

    /// The cache with the entry of `k` as the most recently used one.
    pub open spec fn touch(self, k: K, timestamp: Option<Instant>) -> Self {
        CacheView {
            recency: order::reuse(self.recency, order::place(self.recency, k), timestamp),
            ..self
        }
    }

    /// The cache after `k` with the given hash has been asked for.
    pub open spec fn get(self, k: K, hash: u64, timestamp: Option<Instant>) -> Self {
        if self.lookup(k, timestamp) is Some {
            self.count(hash).touch(k, timestamp)
        } else {
            self.count(hash)
        }
    }

    /// Whether `after` is what may become of the cache when `k` is asked for, and `value` what
    /// is found, if the hash of `k` is `hash`, the time that is read is `timestamp`, and the
    /// entries that are found expired weigh `released`.
    pub open spec fn gets(
        self,
        k: K,
        hash: u64,
        timestamp: Option<Instant>,
        released: nat,
        value: Option<V>,
        after: Self,
    ) -> bool {
        &&& self.reads(timestamp)
        &&& self.may_evict(timestamp, released)
        &&& value == self.evict_at(timestamp, released).lookup(k, timestamp)
        &&& after == self.evict_at(timestamp, released).get(k, hash, timestamp)
    }

    /// The cache with the entry of `k` as the most recently written one.
    pub open spec fn rewrite(self, k: K, timestamp: Option<Instant>) -> Self {
        if self.time_to_live is Some {
            CacheView {
                writes: order::rewrite(self.writes, order::place(self.writes, k), timestamp),
                ..self
            }
        } else {
            self
        }
    }

    /// The cache with `released` taken off the accounted weight, down to zero, and then
    /// `weight` put on, up to the greatest number.
    pub open spec fn reweigh(self, released: nat, weight: u64) -> Self {
        let rest = if released < self.weighted_size {
            self.weighted_size - released
        } else {
            0
        };
        CacheView {
            weighted_size: if rest + weight <= u64::MAX {
                (rest + weight) as u64
            } else {
                u64::MAX
            },
            ..self
        }
    }

    /// The cache with another value for `k`, which it holds already.
    pub open spec fn update(
        self,
        k: K,
        v: V,
        timestamp: Option<Instant>,
        old_weight: u64,
        weight: u64,
    ) -> Self {
        let written = self.touch(k, timestamp).rewrite(k, timestamp).reweigh(
            old_weight as nat,
            weight,
        );
        CacheView { entries: self.entries.insert(k, v), ..written }
    }

    /// The cache with an entry for `k`, which it does not hold, as the most recently used and
    /// written one.
    pub open spec fn store(
        self,
        k: K,
        v: V,
        hash: u64,
        timestamp: Option<Instant>,
        weight: u64,
    ) -> Self {
        CacheView {
            entries: self.entries.insert(k, v),
            recency: self.recency.push(KeyHashDate { key: Rc::new(k), hash, timestamp }),
            writes: if self.time_to_live is Some {
                self.writes.push(KeyDate { key: Rc::new(k), timestamp })
            } else {
                self.writes
            },
            ..self.reweigh(0, weight)
        }
    }

    /// Whether an entry of the given weight fits in without another one leaving.
    pub open spec fn has_room(self, weight: u64) -> bool {
        self.max_capacity matches Some(max) ==> self.weighted_size + weight <= max
    }

    /// Whether an entry of the given weight is too heavy for the whole cache.
    pub open spec fn too_heavy(self, weight: u64) -> bool {
        self.max_capacity matches Some(max) && weight > max
    }

    /// How often the `n` least recently used keys have been asked for lately, taken together.
    pub open spec fn popularity(self, n: nat) -> nat
        decreases n,
    {
        if n == 0 {
            0
        } else {
            self.popularity((n - 1) as nat) + self.sketch.frequency(
                self.recency[n - 1].hash,
            )
        }
    }

    /// Whether `weights` are weights that the least recently used entries may be given, as many
    /// as there are.
    pub open spec fn may_weigh_oldest(self, weights: Seq<u64>) -> bool {
        &&& weights.len() <= self.recency.len()
        &&& forall|i: int|
            0 <= i < weights.len() ==> entry::may_weigh(
                self.weigher,
                self.recency[i].of(),
                self.entries[self.recency[i].of()],
                #[trigger] weights[i],
            )
    }

    /// Whether the search for entries to leave for a new one of the given weight and frequency
    /// goes on beyond the entries with the given weights: they are too light, they are not more
    /// popular than the new one, and there are more.
    pub open spec fn searches_on(self, weights: Seq<u64>, weight: u64, frequency: nat) -> bool {
        &&& total(weights) < weight
        &&& self.popularity(weights.len()) <= frequency
        &&& weights.len() < self.recency.len()
        &&& weights.len() < victims::max_victims()
    }

    /// Whether `weights` are the weights of the entries that the search comes upon: it goes on
    /// up to the last of them and no further.
    pub open spec fn search_ends(self, weights: Seq<u64>, weight: u64, frequency: nat) -> bool {
        &&& self.may_weigh_oldest(weights)
        &&& forall|n: int|
            0 <= n < weights.len() ==> self.searches_on(
                #[trigger] weights.take(n),
                weight,
                frequency,
            )
        &&& !self.searches_on(weights, weight, frequency)
    }

    /// Whether the entries with the given weights leave for a new one: they make enough room,
    /// and the new one is more popular than all of them together.
    pub open spec fn admits(self, weights: Seq<u64>, weight: u64, frequency: nat) -> bool {
        &&& total(weights) >= weight
        &&& frequency > self.popularity(weights.len())
    }

    /// The cache after an attempt to put in an entry for `k`, which it does not hold. Where the
    /// entry does not fit, `weights` are those of the entries that might leave for it.
    pub open spec fn put_new(
        self,
        k: K,
        v: V,
        hash: u64,
        timestamp: Option<Instant>,
        weight: u64,
        weights: Seq<u64>,
    ) -> Self {
        if self.has_room(weight) {
            self.store(k, v, hash, timestamp, weight)
        } else if !self.too_heavy(weight) && self.admits(
            weights,
            weight,
            self.sketch.frequency(hash),
        ) {
            self.remove_all(
                order::keys_of(self.recency.take(weights.len() as int)),
                total(weights),
            ).store(k, v, hash, timestamp, weight)
        } else {
            self
        }
    }

    /// Whether `after` is what may become of the cache when `v` is put in for `k`. The new
    /// entry weighs `weight`. An entry that it replaces weighs `old_weight`, and the entries
    /// that might leave for it weigh `weights`.
    pub open spec fn inserts(
        self,
        k: K,
        v: V,
        hash: u64,
        timestamp: Option<Instant>,
        weight: u64,
        old_weight: u64,
        weights: Seq<u64>,
        after: Self,
    ) -> bool {
        &&& entry::may_weigh(self.weigher, k, v, weight)
        &&& if self.entries.contains_key(k) {
            &&& entry::may_weigh(self.weigher, k, self.entries[k], old_weight)
            &&& after == self.update(k, v, timestamp, old_weight, weight)
        } else {
            &&& !self.has_room(weight) && !self.too_heavy(weight) ==> self.search_ends(
                weights,
                weight,
                self.sketch.frequency(hash),
            )
            &&& after == self.put_new(k, v, hash, timestamp, weight, weights)
        }
    }

    /// The cache without any entry.
    pub open spec fn clear(self) -> Self {
        CacheView {
            entries: Map::empty(),
            recency: Seq::empty(),
            writes: Seq::empty(),
            weighted_size: 0,
            ..self
        }
    }

    /// Whether `keys` are keys of this cache that a predicate may have selected.
    pub open spec fn selects<F: FnMut(&K, &V) -> bool>(self, predicate: F, keys: Set<K>) -> bool {
        &&& keys.subset_of(self.entries.dom())
        &&& forall|k: K| #[trigger]
            self.entries.contains_key(k) ==> call_ensures(
                predicate,
                (&k, &self.entries[k]),
                keys.contains(k),
            )
    }

    /// Entries that leave one after the other leave together.
    pub proof fn lemma_remove_all_twice(
        self,
        first: Set<K>,
        released: nat,
        second: Set<K>,
        more: nat,
    )
        ensures
            self.remove_all(first, released).remove_all(second, more) == self.remove_all(
                first.union(second),
                released + more,
            ),
    {
        order::lemma_without_twice::<K, _>(self.recency, first, second);
        order::lemma_without_twice::<K, _>(self.writes, first, second);
        assert(self.remove_all(first, released).remove_all(second, more).entries
            =~= self.remove_all(first.union(second), released + more).entries);
    }

    /// Where no entry has to leave, nothing changes.
    pub proof fn lemma_remove_all_none(self)
        ensures
            self.remove_all(Set::empty(), 0) == self,
            self.may_release(Set::empty(), 0),
    {
        order::lemma_without_none::<K, _>(self.recency, Set::empty());
        order::lemma_without_none::<K, _>(self.writes, Set::empty());
        assert(self.remove_all(Set::empty(), 0).entries =~= self.entries);
        let weights: Map<K, u64> = Map::empty();
        lemma_among_none(self.recency, Set::empty(), weights);
        assert(self.may_weigh_all(Set::empty(), weights));
    }

    /// What entries that leave one after the other weigh adds up.
    pub proof fn lemma_may_release_both(
        self,
        first: Set<K>,
        released: nat,
        rest: Self,
        second: Set<K>,
        more: nat,
    )
        requires
            self.may_release(first, released),
            rest.entries == self.entries.remove_keys(first),
            rest.recency == order::without(self.recency, first),
            rest.weigher == self.weigher,
            rest.may_release(second, more),
        ensures
            self.may_release(first.union(second), released + more),
    {
        let one = choose|weights: Map<K, u64>| #[trigger]
            self.may_weigh_all(first, weights) && released == weight_among(
                self.recency,
                first,
                weights,
            );
        let two = choose|weights: Map<K, u64>| #[trigger]
            rest.may_weigh_all(second, weights) && more == weight_among(
                rest.recency,
                second,
                weights,
            );
        let both = Map::new(
            |k: K| true,
            |k: K|
                if first.contains(k) {
                    one[k]
                } else {
                    two[k]
                },
        );
        assert forall|k: K|
            first.union(second).contains(k) && self.entries.contains_key(k) implies entry::may_weigh(
            self.weigher,
            k,
            self.entries[k],
            #[trigger] both[k],
        ) by {
            if first.contains(k) {
                assert(both[k] == one[k]);
            } else {
                assert(both[k] == two[k]);
                assert(rest.entries.contains_key(k));
            }
        }
        assert(self.may_weigh_all(first.union(second), both));
        lemma_among_both(self.recency, first, one, second, two, both);
    }

    /// What the entry of one key may weigh.
    pub proof fn lemma_may_release_one(self, k: K, released: nat)
        requires
            self.ordered(),
        ensures
            self.entries.contains_key(k) ==> (self.may_release(set![k], released) <==> exists|
                weight: u64,
            |
                weight == released && #[trigger] entry::may_weigh(
                    self.weigher,
                    k,
                    self.entries[k],
                    weight,
                )),
            !self.entries.contains_key(k) ==> (self.may_release(set![k], released) <==> released
                == 0),
    {
        if self.entries.contains_key(k) {
            if self.may_release(set![k], released) {
                let weights = choose|weights: Map<K, u64>| #[trigger]
                    self.may_weigh_all(set![k], weights) && released == weight_among(
                        self.recency,
                        set![k],
                        weights,
                    );
                lemma_among_one(self.recency, k, weights);
                assert(entry::may_weigh(self.weigher, k, self.entries[k], weights[k]));
            }
            if exists|weight: u64|
                weight == released && #[trigger] entry::may_weigh(
                    self.weigher,
                    k,
                    self.entries[k],
                    weight,
                ) {
                let weights: Map<K, u64> = Map::empty().insert(k, released as u64);
                lemma_among_one(self.recency, k, weights);
                assert(self.may_weigh_all(set![k], weights));
            }
        } else {
            assert forall|i: int| 0 <= i < self.recency.len() implies !set![k].contains(
                (#[trigger] self.recency[i]).of(),
            ) by {
                order::lemma_place::<K, _>(self.recency, i);
            }
            let weights: Map<K, u64> = Map::empty();
            assert(self.may_weigh_all(set![k], weights));
            lemma_among_none(self.recency, set![k], weights);
            if self.may_release(set![k], released) {
                let weights = choose|weights: Map<K, u64>| #[trigger]
                    self.may_weigh_all(set![k], weights) && released == weight_among(
                        self.recency,
                        set![k],
                        weights,
                    );
                lemma_among_none(self.recency, set![k], weights);
            }
        }
    }

    /// Where nothing weighs the entries, those that leave weigh as much as they are many.
    pub proof fn lemma_may_release_ones(self, keys: Set<K>, released: nat)
        requires
            self.ordered(),
            self.weigher is None,
            self.may_release(keys, released),
        ensures
            released + order::without(self.recency, keys).len() == self.recency.len(),
    {
        let weights = choose|weights: Map<K, u64>| #[trigger]
            self.may_weigh_all(keys, weights) && released == weight_among(
                self.recency,
                keys,
                weights,
            );
        assert forall|i: int|
            0 <= i < self.recency.len() && keys.contains((#[trigger] self.recency[i]).of()) implies
            weights[self.recency[i].of()] == 1 by {
            order::lemma_place::<K, _>(self.recency, i);
        }
        lemma_among_ones(self.recency, keys, weights);
    }

    /// The entries stay ordered when some leave.
    pub proof fn lemma_remove_all_ordered(self, keys: Set<K>, released: nat)
        requires
            self.ordered(),
        ensures
            self.remove_all(keys, released).ordered(),
    {
        let after = self.remove_all(keys, released);
        order::lemma_without::<K, _>(self.recency, keys);
        order::lemma_without::<K, _>(self.writes, keys);
        assert(after.entries.dom() =~= self.entries.dom().difference(keys));
    }

    /// A cache stays well-formed when entries leave with their weight.
    pub proof fn lemma_remove_all_wf(self, keys: Set<K>, released: nat)
        requires
            self.wf(),
            self.may_release(keys, released),
        ensures
            self.remove_all(keys, released).wf(),
    {
        self.lemma_remove_all_ordered(keys, released);
        if self.weigher is None {
            self.lemma_may_release_ones(keys, released);
        }
    }

    /// Where entries do not expire by age, none is found.
    pub proof fn lemma_stale_none(self, now: Instant)
        requires
            self.time_to_live is None,
        ensures
            self.stale(now) == Set::<K>::empty(),
    {
        assert(self.stale(now) =~= Set::empty());
    }

    /// Where entries do not expire by idleness, none is found.
    pub proof fn lemma_idle_none(self, now: Instant)
        requires
            self.time_to_idle is None,
        ensures
            self.idle(now) == Set::<K>::empty(),
    {
        assert(self.idle(now) =~= Set::empty());
    }
}

} // verus!
