//! What holds of a cache whatever is done with it.
//!
//! Each law is stated of what a cache holds, in the terms in which the operations are.

use crate::common::frequency_sketch;
use crate::common::time::Instant;
use crate::unsync::entry;
use crate::unsync::entry::{Dated, KeyDate, KeyHashDate, Weigher};
use crate::unsync::model;
use crate::unsync::model::CacheView;
use crate::unsync::order;
use crate::unsync::store;
use std::hash::{BuildHasher, Hash};
use std::rc::Rc;
use std::time::Duration;
use vstd::prelude::*;

verus! {

/// Entries that leave take their times with them; the others keep theirs.
pub proof fn law_removal_keeps_others<K, V>(
    cache: CacheView<K, V>,
    keys: Set<K>,
    released: nat,
    k: K,
)
    requires
        cache.ordered(),
        cache.entries.contains_key(k),
        !keys.contains(k),
    ensures
        cache.remove_all(keys, released).entries.contains_key(k),
        cache.remove_all(keys, released).entries[k] == cache.entries[k],
        cache.remove_all(keys, released).last_accessed(k) == cache.last_accessed(k),
        cache.remove_all(keys, released).last_modified(k) == cache.last_modified(k),
{
    order::lemma_without_node::<K, _>(cache.recency, keys, k);
    if cache.time_to_live is Some {
        order::lemma_without_node::<K, _>(cache.writes, keys, k);
    }
}

/// Only expired entries are found in the order of writes.
proof fn lemma_stale<K, V>(cache: CacheView<K, V>, now: Instant, k: K)
    requires
        cache.ordered(),
        cache.stale(now).contains(k),
    ensures
        cache.entries.contains_key(k),
        cache.is_expired(k, now),
{
    let n = order::leading_over::<K, _>(
        cache.writes,
        cache.time_to_live,
        now,
        model::EVICTION_BATCH_SIZE as nat,
    );
    order::lemma_leading_over::<K, _>(
        cache.writes,
        cache.time_to_live,
        now,
        model::EVICTION_BATCH_SIZE as nat,
    );
    let i = order::place(cache.writes.take(n as int), k);
    assert(cache.writes.take(n as int)[i] == cache.writes[i]);
    order::lemma_place::<K, _>(cache.writes, i);
}

/// Only expired entries are found in the order of uses.
proof fn lemma_idle<K, V>(cache: CacheView<K, V>, now: Instant, k: K)
    requires
        cache.ordered(),
        cache.idle(now).contains(k),
    ensures
        cache.entries.contains_key(k),
        cache.is_expired(k, now),
{
    let n = order::leading_over::<K, _>(
        cache.recency,
        cache.time_to_idle,
        now,
        model::EVICTION_BATCH_SIZE as nat,
    );
    order::lemma_leading_over::<K, _>(
        cache.recency,
        cache.time_to_idle,
        now,
        model::EVICTION_BATCH_SIZE as nat,
    );
    let i = order::place(cache.recency.take(n as int), k);
    assert(cache.recency.take(n as int)[i] == cache.recency[i]);
    order::lemma_place::<K, _>(cache.recency, i);
}

/// A look for expired entries takes them out with what they weigh, keeps the cache well-formed,
/// and changes no setting and nothing that has been counted.
pub proof fn law_evict_wf<K, V>(
    cache: CacheView<K, V>,
    timestamp: Option<Instant>,
    released: nat,
)
    requires
        cache.wf(),
        cache.may_evict(timestamp, released),
    ensures
        cache.evict_at(timestamp, released).wf(),
        cache.evict_at(timestamp, released) == (CacheView {
            entries: cache.evict_at(timestamp, released).entries,
            recency: cache.evict_at(timestamp, released).recency,
            writes: cache.evict_at(timestamp, released).writes,
            weighted_size: cache.evict_at(timestamp, released).weighted_size,
            ..cache
        }),
{
    if let Some(now) = timestamp {
        cache.lemma_remove_all_wf(cache.found_expired(now), released);
    }
}

/// A look for expired entries takes out none that has not expired, and leaves the others, with
/// their values and times, as they are.
pub proof fn law_evict_only_expired<K, V>(
    cache: CacheView<K, V>,
    now: Instant,
    released: nat,
    k: K,
)
    requires
        cache.ordered(),
        cache.entries.contains_key(k),
    ensures
        !cache.is_expired(k, now) ==> cache.evict(now, released).entries.contains_key(k),
        cache.evict(now, released).entries.contains_key(k) ==> {
            &&& cache.evict(now, released).entries[k] == cache.entries[k]
            &&& cache.evict(now, released).last_accessed(k) == cache.last_accessed(k)
            &&& cache.evict(now, released).last_modified(k) == cache.last_modified(k)
            &&& cache.evict(now, released).is_expired(k, now) == cache.is_expired(k, now)
        },
{
    let stale = cache.stale(now);
    let fresh = cache.remove_all(stale, 0);
    cache.lemma_remove_all_ordered(stale, 0);
    if stale.contains(k) {
        lemma_stale(cache, now, k);
    } else {
        law_removal_keeps_others(cache, stale, 0, k);
        if fresh.idle(now).contains(k) {
            lemma_idle(fresh, now, k);
        } else {
            law_removal_keeps_others(cache, cache.found_expired(now), released, k);
        }
    }
}

/// What is asked for is found exactly if it is there and has not expired. Whether a look for
/// expired entries comes upon it makes no difference.
pub proof fn law_get_finds<K, V>(
    cache: CacheView<K, V>,
    k: K,
    hash: u64,
    timestamp: Option<Instant>,
    released: nat,
    value: Option<V>,
    after: CacheView<K, V>,
)
    requires
        cache.wf(),
        cache.gets(k, hash, timestamp, released, value, after),
    ensures
        value == cache.lookup(k, timestamp),
{
    if let Some(now) = timestamp {
        if cache.entries.contains_key(k) {
            law_evict_only_expired(cache, now, released, k);
        }
    }
}

/// The cache is well-formed after a use of the entry of `k`, which changes only when it was last
/// used.
proof fn lemma_touch<K, V>(cache: CacheView<K, V>, k: K, timestamp: Option<Instant>)
    requires
        cache.wf(),
        cache.entries.contains_key(k),
    ensures
        cache.touch(k, timestamp).wf(),
        cache.touch(k, timestamp).last_accessed(k) == order::restamp(
            timestamp,
            cache.last_accessed(k),
        ),
        forall|other: K|
            cache.entries.contains_key(other) && other != k ==> #[trigger] cache.touch(
                k,
                timestamp,
            ).last_accessed(other) == cache.last_accessed(other),
        forall|other: K| #[trigger]
            cache.touch(k, timestamp).last_modified(other) == cache.last_modified(other),
        cache.touch(k, timestamp).recency.len() == cache.recency.len(),
{
    let after = cache.touch(k, timestamp);
    let i = order::place(cache.recency, k);
    let node = after.recency.last();
    assert(after.recency == cache.recency.remove(i).push(node));
    order::lemma_keys_moved::<K, _>(cache.recency, i, node);
    order::lemma_moved_node::<K, _>(cache.recency, i, node, k);
    assert forall|other: K| cache.entries.contains_key(other) && other != k implies
        #[trigger] after.last_accessed(other) == cache.last_accessed(other) by {
        order::lemma_moved_node::<K, _>(cache.recency, i, node, other);
    }
}

/// The cache is well-formed after a write of the entry of `k`, which changes only when it was
/// last written.
proof fn lemma_rewrite<K, V>(cache: CacheView<K, V>, k: K, timestamp: Option<Instant>)
    requires
        cache.wf(),
        cache.entries.contains_key(k),
    ensures
        cache.rewrite(k, timestamp).wf(),
        cache.time_to_live is Some ==> cache.rewrite(k, timestamp).last_modified(k)
            == order::restamp(timestamp, cache.last_modified(k)),
        forall|other: K|
            cache.entries.contains_key(other) && other != k ==> #[trigger] cache.rewrite(
                k,
                timestamp,
            ).last_modified(other) == cache.last_modified(other),
{
    if cache.time_to_live is Some {
        let after = cache.rewrite(k, timestamp);
        let i = order::place(cache.writes, k);
        let node = after.writes.last();
        assert(after.writes == cache.writes.remove(i).push(node));
        order::lemma_keys_moved::<K, _>(cache.writes, i, node);
        order::lemma_moved_node::<K, _>(cache.writes, i, node, k);
        assert forall|other: K| cache.entries.contains_key(other) && other != k implies
            #[trigger] after.last_modified(other) == cache.last_modified(other) by {
            order::lemma_moved_node::<K, _>(cache.writes, i, node, other);
        }
    }
}

/// Asking for a key keeps the cache well-formed, and changes no setting. It counts the hash of
/// the key once.
pub proof fn law_get_wf<K, V>(
    cache: CacheView<K, V>,
    k: K,
    hash: u64,
    timestamp: Option<Instant>,
    released: nat,
    value: Option<V>,
    after: CacheView<K, V>,
)
    requires
        cache.wf(),
        cache.gets(k, hash, timestamp, released, value, after),
    ensures
        after.wf(),
        after == (CacheView {
            entries: after.entries,
            recency: after.recency,
            writes: after.writes,
            weighted_size: after.weighted_size,
            sketch: cache.sketch.increment(hash),
            ..cache
        }),
{
    law_evict_wf(cache, timestamp, released);
    let evicted = cache.evict_at(timestamp, released);
    let counted = evicted.count(hash);
    frequency_sketch::law_increment_wf(evicted.sketch, hash);
    assert(counted.wf());
    if evicted.lookup(k, timestamp) is Some {
        lemma_touch(counted, k, timestamp);
    }
}

/// Asking for a key makes its entry, if it is found, the most recently used one, and records
/// the time. It changes no value and no time of a write, and no time of use of another entry.
/// An entry is lost by it only if it has expired.
pub proof fn law_get_keeps<K, V>(
    cache: CacheView<K, V>,
    k: K,
    hash: u64,
    timestamp: Option<Instant>,
    released: nat,
    value: Option<V>,
    after: CacheView<K, V>,
    other: K,
)
    requires
        cache.wf(),
        cache.gets(k, hash, timestamp, released, value, after),
    ensures
        after.entries.contains_key(other) ==> {
            &&& cache.entries.contains_key(other)
            &&& after.entries[other] == cache.entries[other]
            &&& after.last_modified(other) == cache.last_modified(other)
            &&& after.last_accessed(other) == if other == k && value is Some {
                order::restamp(timestamp, cache.last_accessed(other))
            } else {
                cache.last_accessed(other)
            }
        },
        cache.entries.contains_key(other) && !after.entries.contains_key(other) ==> (timestamp
            matches Some(now) && cache.is_expired(other, now)),
        value is Some ==> after.recency.last().of() == k,
{
    law_evict_wf(cache, timestamp, released);
    let evicted = cache.evict_at(timestamp, released);
    if let Some(now) = timestamp {
        if cache.entries.contains_key(other) {
            law_evict_only_expired(cache, now, released, other);
        }
        if cache.entries.contains_key(k) {
            law_evict_only_expired(cache, now, released, k);
        }
    }
    let counted = evicted.count(hash);
    frequency_sketch::law_increment_wf(evicted.sketch, hash);
    assert(counted.wf());
    if evicted.lookup(k, timestamp) is Some {
        lemma_touch(counted, k, timestamp);
        assert(counted.last_accessed(other) == evicted.last_accessed(other));
        assert(counted.last_modified(other) == evicted.last_modified(other));
        let touched = counted.touch(k, timestamp);
        if evicted.entries.contains_key(other) {
            assert(touched.last_modified(other) == counted.last_modified(other));
            if other != k {
                assert(touched.last_accessed(other) == counted.last_accessed(other));
            }
        }
    }
}

/// Whether `build_hasher` always makes the same of the same key.
pub open spec fn hashes_alike<K: Hash, S: BuildHasher>(build_hasher: S) -> bool {
    forall|k: K, hash: u64, other: u64|
        #[trigger] store::may_hash(build_hasher, k, hash) && #[trigger] store::may_hash(
            build_hasher,
            k,
            other,
        ) ==> hash == other
}

/// Asking for a key, whether it is found or not, raises by one the frequency by which it is
/// decided later whether its entry is let in, unless that is at its greatest value. If it is
/// time to age, the raised frequency is halved.
pub proof fn law_asking_counts<K: Hash, V, S: BuildHasher>(
    build_hasher: S,
    cache: CacheView<K, V>,
    k: K,
    hash: u64,
    timestamp: Option<Instant>,
    released: nat,
    value: Option<V>,
    after: CacheView<K, V>,
    later: u64,
)
    requires
        hashes_alike::<K, S>(build_hasher),
        cache.wf(),
        store::may_hash(build_hasher, k, hash),
        cache.gets(k, hash, timestamp, released, value, after),
        store::may_hash(build_hasher, k, later),
    ensures
        ({
            let raised = frequency_sketch::least(
                cache.sketch.frequency(later) + 1,
                frequency_sketch::counter_max(),
            );
            after.sketch.frequency(later) == if cache.sketch.can_count(later) && cache.sketch.size
                + 1 >= cache.sketch.sample_size {
                raised / 2
            } else {
                raised
            }
        }),
{
    law_get_wf(cache, k, hash, timestamp, released, value, after);
    frequency_sketch::law_increment_counts(cache.sketch, hash);
}

/// An update keeps the cache well-formed, records the time of the entry of `k`, and changes no
/// other entry.
proof fn lemma_update<K, V>(
    cache: CacheView<K, V>,
    k: K,
    v: V,
    timestamp: Option<Instant>,
    old_weight: u64,
    weight: u64,
)
    requires
        cache.wf(),
        cache.entries.contains_key(k),
        cache.weigher is None ==> old_weight == 1 && weight == 1,
    ensures
        ({
            let after = cache.update(k, v, timestamp, old_weight, weight);
            &&& after.wf()
            &&& after.last_accessed(k) == order::restamp(timestamp, cache.last_accessed(k))
            &&& cache.time_to_live is Some ==> after.last_modified(k) == order::restamp(
                timestamp,
                cache.last_modified(k),
            )
            &&& forall|other: K|
                cache.entries.contains_key(other) && other != k ==> #[trigger] after.last_accessed(
                    other,
                ) == cache.last_accessed(other) && after.last_modified(other)
                    == cache.last_modified(other)
        }),
{
    let after = cache.update(k, v, timestamp, old_weight, weight);
    lemma_touch(cache, k, timestamp);
    let touched = cache.touch(k, timestamp);
    lemma_rewrite(touched, k, timestamp);
    let written = touched.rewrite(k, timestamp);
    assert(after.entries.dom() =~= cache.entries.dom());
    assert forall|other: K| cache.entries.contains_key(other) implies #[trigger] after.last_accessed(
        other,
    ) == touched.last_accessed(other) && after.last_modified(other) == written.last_modified(
        other,
    ) by {}
    assert forall|other: K| cache.entries.contains_key(other) && other != k implies
        #[trigger] after.last_accessed(other) == cache.last_accessed(other)
        && after.last_modified(other) == cache.last_modified(other) by {
        assert(touched.last_accessed(other) == cache.last_accessed(other));
        assert(touched.last_modified(other) == cache.last_modified(other));
        assert(written.last_modified(other) == touched.last_modified(other));
    }
    order::lemma_place_of::<K, _>(cache.recency, k);
}

/// A new entry keeps the cache well-formed, carries its time, and changes no other entry.
proof fn lemma_store<K, V>(
    cache: CacheView<K, V>,
    k: K,
    v: V,
    hash: u64,
    timestamp: Option<Instant>,
    weight: u64,
)
    requires
        cache.wf(),
        !cache.entries.contains_key(k),
        cache.weigher is None ==> weight == 1 && cache.has_room(1),
    ensures
        ({
            let after = cache.store(k, v, hash, timestamp, weight);
            &&& after.wf()
            &&& after.last_accessed(k) == timestamp
            &&& cache.time_to_live is Some ==> after.last_modified(k) == timestamp
            &&& forall|other: K|
                cache.entries.contains_key(other) ==> #[trigger] after.last_accessed(other)
                    == cache.last_accessed(other) && after.last_modified(other)
                    == cache.last_modified(other)
        }),
{
    let after = cache.store(k, v, hash, timestamp, weight);
    let used = KeyHashDate { key: Rc::new(k), hash, timestamp };
    let written = KeyDate { key: Rc::new(k), timestamp };
    order::lemma_keys_push::<K, _>(cache.recency, used);
    order::lemma_pushed_node::<K, _>(cache.recency, used, k);
    assert(after.entries.dom() =~= cache.entries.dom().insert(k));
    if cache.time_to_live is Some {
        order::lemma_keys_push::<K, _>(cache.writes, written);
        order::lemma_pushed_node::<K, _>(cache.writes, written, k);
    }
    assert forall|other: K| cache.entries.contains_key(other) implies #[trigger] after.last_accessed(
        other,
    ) == cache.last_accessed(other) && after.last_modified(other) == cache.last_modified(other) by {
        order::lemma_pushed_node::<K, _>(cache.recency, used, other);
        if cache.time_to_live is Some {
            order::lemma_pushed_node::<K, _>(cache.writes, written, other);
        }
    }
}

/// The keys of the entries that leave when an entry for `k` is put in: those of the least
/// recently used ones, if it is let in in their place, and none otherwise.
pub open spec fn leaving<K, V>(
    cache: CacheView<K, V>,
    k: K,
    hash: u64,
    weight: u64,
    weights: Seq<u64>,
) -> Set<K> {
    if !cache.entries.contains_key(k) && !cache.has_room(weight) && !cache.too_heavy(weight)
        && cache.admits(weights, weight, cache.sketch.frequency(hash)) {
        order::keys_of(cache.recency.take(weights.len() as int))
    } else {
        Set::empty()
    }
}

/// Whether an entry for `k` is in the cache after it has been put in: it replaces one, or there
/// is room for it, or it is let in in the place of others.
pub open spec fn lets_in<K, V>(
    cache: CacheView<K, V>,
    k: K,
    hash: u64,
    weight: u64,
    weights: Seq<u64>,
) -> bool {
    ||| cache.entries.contains_key(k)
    ||| cache.has_room(weight)
    ||| !cache.too_heavy(weight) && cache.admits(weights, weight, cache.sketch.frequency(hash))
}

/// The accounted weight that is released when an entry for `k` is put in and is let in.
pub open spec fn releasing<K, V>(
    cache: CacheView<K, V>,
    k: K,
    weight: u64,
    old_weight: u64,
    weights: Seq<u64>,
) -> nat {
    if cache.entries.contains_key(k) {
        old_weight as nat
    } else if cache.has_room(weight) {
        0
    } else {
        model::total(weights)
    }
}

/// Putting in an entry keeps the cache well-formed, and changes no setting and nothing that has
/// been counted.
pub proof fn law_insert_wf<K, V>(
    cache: CacheView<K, V>,
    k: K,
    v: V,
    hash: u64,
    timestamp: Option<Instant>,
    weight: u64,
    old_weight: u64,
    weights: Seq<u64>,
    after: CacheView<K, V>,
)
    requires
        cache.wf(),
        cache.inserts(k, v, hash, timestamp, weight, old_weight, weights, after),
    ensures
        after.wf(),
        after == (CacheView {
            entries: after.entries,
            recency: after.recency,
            writes: after.writes,
            weighted_size: after.weighted_size,
            ..cache
        }),
{
    if cache.entries.contains_key(k) {
        lemma_update(cache, k, v, timestamp, old_weight, weight);
    } else if cache.has_room(weight) {
        lemma_store(cache, k, v, hash, timestamp, weight);
    } else if !cache.too_heavy(weight) && cache.admits(
        weights,
        weight,
        cache.sketch.frequency(hash),
    ) {
        lemma_replace(cache, k, v, hash, timestamp, weight, weights);
    }
}

/// A cache in which some entries have left for a new one.
proof fn lemma_replace<K, V>(
    cache: CacheView<K, V>,
    k: K,
    v: V,
    hash: u64,
    timestamp: Option<Instant>,
    weight: u64,
    weights: Seq<u64>,
)
    requires
        cache.wf(),
        !cache.entries.contains_key(k),
        entry::may_weigh(cache.weigher, k, v, weight),
        cache.may_weigh_oldest(weights),
        model::total(weights) >= weight,
    ensures
        ({
            let victims = order::keys_of(cache.recency.take(weights.len() as int));
            let smaller = cache.remove_all(victims, model::total(weights));
            let after = smaller.store(k, v, hash, timestamp, weight);
            &&& smaller.wf()
            &&& smaller.recency == cache.recency.skip(weights.len() as int)
            &&& after.wf()
            &&& after.last_accessed(k) == timestamp
            &&& cache.time_to_live is Some ==> after.last_modified(k) == timestamp
            &&& forall|other: K|
                smaller.entries.contains_key(other) ==> #[trigger] after.last_accessed(other)
                    == smaller.last_accessed(other) && after.last_modified(other)
                    == smaller.last_modified(other)
        }),
{
    let victims = order::keys_of(cache.recency.take(weights.len() as int));
    let smaller = cache.remove_all(victims, model::total(weights));
    cache.lemma_remove_all_ordered(victims, model::total(weights));
    order::lemma_without_front::<K, _>(cache.recency, weights.len() as int);
    if cache.weigher is None {
        assert forall|i: int| 0 <= i < weights.len() implies #[trigger] weights[i] == 1 by {}
        model::lemma_total_of_ones(weights);
    }
    lemma_store(smaller, k, v, hash, timestamp, weight);
}

/// After an entry has been put in for `k`, it is there exactly if it was let in, with its value
/// and its time. If it was not, nothing has changed.
pub proof fn law_insert_stores<K, V>(
    cache: CacheView<K, V>,
    k: K,
    v: V,
    hash: u64,
    timestamp: Option<Instant>,
    weight: u64,
    old_weight: u64,
    weights: Seq<u64>,
    after: CacheView<K, V>,
)
    requires
        cache.wf(),
        cache.inserts(k, v, hash, timestamp, weight, old_weight, weights, after),
    ensures
        after.entries.contains_key(k) <==> lets_in(cache, k, hash, weight, weights),
        after.entries.contains_key(k) ==> {
            &&& after.entries[k] == v
            &&& timestamp is Some ==> after.last_accessed(k) == timestamp
            &&& timestamp is Some && cache.time_to_live is Some ==> after.last_modified(k)
                == timestamp
            &&& after.recency.last().of() == k
        },
        !after.entries.contains_key(k) ==> after == cache,
{
    if cache.entries.contains_key(k) {
        lemma_update(cache, k, v, timestamp, old_weight, weight);
    } else if cache.has_room(weight) {
        lemma_store(cache, k, v, hash, timestamp, weight);
    } else if !cache.too_heavy(weight) && cache.admits(
        weights,
        weight,
        cache.sketch.frequency(hash),
    ) {
        lemma_replace(cache, k, v, hash, timestamp, weight, weights);
    }
}

/// Putting in an entry for `k` changes no other entry, except that those leave that it is let
/// in in place of.
pub proof fn law_insert_keeps_others<K, V>(
    cache: CacheView<K, V>,
    k: K,
    v: V,
    hash: u64,
    timestamp: Option<Instant>,
    weight: u64,
    old_weight: u64,
    weights: Seq<u64>,
    after: CacheView<K, V>,
    other: K,
)
    requires
        cache.wf(),
        cache.inserts(k, v, hash, timestamp, weight, old_weight, weights, after),
        other != k,
    ensures
        after.entries.contains_key(other) <==> cache.entries.contains_key(other) && !leaving(
            cache,
            k,
            hash,
            weight,
            weights,
        ).contains(other),
        after.entries.contains_key(other) ==> {
            &&& after.entries[other] == cache.entries[other]
            &&& after.last_accessed(other) == cache.last_accessed(other)
            &&& after.last_modified(other) == cache.last_modified(other)
        },
{
    if cache.entries.contains_key(k) {
        lemma_update(cache, k, v, timestamp, old_weight, weight);
        if cache.entries.contains_key(other) {
            assert(after.last_accessed(other) == cache.last_accessed(other));
        }
    } else if cache.has_room(weight) {
        lemma_store(cache, k, v, hash, timestamp, weight);
        if cache.entries.contains_key(other) {
            assert(after.last_accessed(other) == cache.last_accessed(other));
        }
    } else if !cache.too_heavy(weight) && cache.admits(
        weights,
        weight,
        cache.sketch.frequency(hash),
    ) {
        let victims = order::keys_of(cache.recency.take(weights.len() as int));
        let smaller = cache.remove_all(victims, model::total(weights));
        lemma_replace(cache, k, v, hash, timestamp, weight, weights);
        if cache.entries.contains_key(other) && !victims.contains(other) {
            law_removal_keeps_others(cache, victims, model::total(weights), other);
            assert(smaller.entries.contains_key(other));
            assert(after.last_accessed(other) == smaller.last_accessed(other));
        }
    }
}

/// An entry is let in in place of others only if it has been asked for more often lately than
/// all of them together. They are the least recently used ones, they make enough room, and one
/// fewer of them would not.
pub proof fn law_admission<K, V>(
    cache: CacheView<K, V>,
    k: K,
    v: V,
    hash: u64,
    timestamp: Option<Instant>,
    weight: u64,
    old_weight: u64,
    weights: Seq<u64>,
    after: CacheView<K, V>,
)
    requires
        cache.wf(),
        cache.inserts(k, v, hash, timestamp, weight, old_weight, weights, after),
        !cache.entries.contains_key(k),
        !cache.has_room(weight),
        after.entries.contains_key(k),
    ensures
        cache.sketch.frequency(hash) > cache.popularity(weights.len()),
        model::total(weights) >= weight,
        weights.len() > 0 ==> model::total(weights.drop_last()) < weight,
        after.recency.drop_last() == cache.recency.skip(weights.len() as int),
        after.recency.last().of() == k,
{
    law_insert_stores(cache, k, v, hash, timestamp, weight, old_weight, weights, after);
    lemma_replace(cache, k, v, hash, timestamp, weight, weights);
    assert(after.recency.drop_last() =~= cache.recency.skip(weights.len() as int));
    if weights.len() > 0 {
        let n = weights.len() - 1;
        assert(weights.take(n) =~= weights.drop_last());
        assert(cache.searches_on(weights.take(n), weight, cache.sketch.frequency(hash)));
    }
}

/// A new entry does not bring the accounted weight beyond the capacity.
pub proof fn law_new_entry_within_capacity<K, V>(
    cache: CacheView<K, V>,
    k: K,
    v: V,
    hash: u64,
    timestamp: Option<Instant>,
    weight: u64,
    old_weight: u64,
    weights: Seq<u64>,
    after: CacheView<K, V>,
    max: u64,
)
    requires
        cache.inserts(k, v, hash, timestamp, weight, old_weight, weights, after),
        !cache.entries.contains_key(k),
        cache.max_capacity == Some(max),
        cache.weighted_size <= max,
    ensures
        after.weighted_size <= max,
{
}

/// Where nothing weighs the entries, there are never more of them than the capacity.
pub proof fn law_capacity<K, V>(cache: CacheView<K, V>, max: u64)
    requires
        cache.wf(),
        cache.weigher is None,
        cache.max_capacity == Some(max),
    ensures
        cache.entries.dom().finite(),
        cache.entries.len() <= max,
{
    order::lemma_keys_len::<K, _>(cache.recency);
}

/// A cache is well-formed when it is made.
pub proof fn law_new_wf<K, V>(
    max_capacity: Option<usize>,
    time_to_live: Option<Duration>,
    time_to_idle: Option<Duration>,
    weigher: Option<Weigher<K, V>>,
)
    ensures
        CacheView::new(max_capacity, time_to_live, time_to_idle, weigher).wf(),
{
    let cache = CacheView::new(max_capacity, time_to_live, time_to_idle, weigher);
    assert(order::keys_of::<K, _>(cache.recency) =~= cache.entries.dom());
    assert(order::keys_of::<K, _>(cache.writes) =~= cache.entries.dom());
    frequency_sketch::law_fresh(model::sketch_capacity(max_capacity), 0);
}

/// What is put in and then asked for is found exactly if it was let in and has not expired in
/// between.
pub proof fn law_insert_then_get<K, V>(
    cache: CacheView<K, V>,
    k: K,
    v: V,
    hash: u64,
    timestamp: Option<Instant>,
    released: nat,
    weight: u64,
    old_weight: u64,
    weights: Seq<u64>,
    held: CacheView<K, V>,
    later_hash: u64,
    later: Option<Instant>,
    later_released: nat,
    value: Option<V>,
    after: CacheView<K, V>,
)
    requires
        cache.wf(),
        cache.reads(timestamp),
        cache.may_evict(timestamp, released),
        cache.evict_at(timestamp, released).inserts(
            k,
            v,
            hash,
            timestamp,
            weight,
            old_weight,
            weights,
            held,
        ),
        held.gets(k, later_hash, later, later_released, value, after),
    ensures
        value == if lets_in(cache.evict_at(timestamp, released), k, hash, weight, weights) && !(later
            matches Some(now) && (order::over(cache.time_to_live, timestamp, now) || order::over(
            cache.time_to_idle,
            timestamp,
            now,
        ))) {
            Some(v)
        } else {
            None
        },
{
    let evicted = cache.evict_at(timestamp, released);
    law_evict_wf(cache, timestamp, released);
    law_insert_wf(evicted, k, v, hash, timestamp, weight, old_weight, weights, held);
    law_insert_stores(evicted, k, v, hash, timestamp, weight, old_weight, weights, held);
    law_get_finds(held, k, later_hash, later, later_released, value, after);
}

/// A look for expired entries makes no difference to what is found then or later.
pub proof fn law_evict_unseen<K, V>(
    cache: CacheView<K, V>,
    now: Instant,
    released: nat,
    later: Instant,
    k: K,
)
    requires
        cache.wf(),
        now.nanos <= later.nanos,
    ensures
        cache.evict(now, released).lookup(k, Some(later)) == cache.lookup(k, Some(later)),
{
    if cache.entries.contains_key(k) {
        law_evict_only_expired(cache, now, released, k);
    }
}

/// What has been discarded is not found. Everything else is found as before, then and later.
pub proof fn law_invalidate<K, V>(
    cache: CacheView<K, V>,
    k: K,
    timestamp: Option<Instant>,
    released: nat,
    weight: nat,
    after: CacheView<K, V>,
    other: K,
    later: Option<Instant>,
)
    requires
        cache.wf(),
        cache.reads(timestamp),
        cache.reads(later),
        timestamp matches Some(now) && later matches Some(then) ==> now.nanos <= then.nanos,
        cache.may_evict(timestamp, released),
        cache.evict_at(timestamp, released).may_release(set![k], weight),
        after == cache.evict_at(timestamp, released).remove(k, weight),
    ensures
        after.wf(),
        after.lookup(k, later) is None,
        other != k ==> after.lookup(other, later) == cache.lookup(other, later),
{
    let evicted = cache.evict_at(timestamp, released);
    law_evict_wf(cache, timestamp, released);
    evicted.lemma_remove_all_wf(set![k], weight);
    if other != k {
        if timestamp is Some && later is Some {
            law_evict_unseen(cache, timestamp->0, released, later->0, other);
        }
        if evicted.entries.contains_key(other) {
            law_removal_keeps_others(evicted, set![k], weight, other);
        }
    }
}

/// When all that is held has been discarded, nothing is found and no weight is accounted for.
/// What has been asked for is still known.
pub proof fn law_invalidate_all<K, V>(cache: CacheView<K, V>, k: K, later: Option<Instant>)
    requires
        cache.wf(),
    ensures
        cache.clear().wf(),
        cache.clear().lookup(k, later) is None,
        cache.clear().weighted_size == 0,
        cache.clear().sketch == cache.sketch,
{
    let after = cache.clear();
    assert(order::keys_of::<K, _>(after.recency) =~= after.entries.dom());
    assert(order::keys_of::<K, _>(after.writes) =~= after.entries.dom());
}

/// What satisfies the predicate is discarded and not found. What does not satisfy it is found as
/// before.
pub proof fn law_invalidate_entries_if<K, V, F: FnMut(&K, &V) -> bool>(
    cache: CacheView<K, V>,
    predicate: F,
    keys: Set<K>,
    released: nat,
    k: K,
    later: Option<Instant>,
)
    requires
        cache.wf(),
        cache.selects(predicate, keys),
        cache.may_release(keys, released),
        cache.entries.contains_key(k),
    ensures
        cache.remove_all(keys, released).wf(),
        !call_ensures(predicate, (&k, &cache.entries[k]), false) ==> cache.remove_all(keys, released).lookup(
            k,
            later,
        ) is None,
        !call_ensures(predicate, (&k, &cache.entries[k]), true) ==> cache.remove_all(keys, released).lookup(
            k,
            later,
        ) == cache.lookup(k, later),
{
    cache.lemma_remove_all_wf(keys, released);
    if !keys.contains(k) {
        law_removal_keeps_others(cache, keys, released, k);
    }
}

/// The estimator of a cache has a number of slots that is a power of two. There are at least 128
/// of them, and as many as the cache may hold entries, up to the greatest number of slots.
pub proof fn law_new_sketch<K, V>(
    max_capacity: Option<usize>,
    time_to_live: Option<Duration>,
    time_to_idle: Option<Duration>,
    weigher: Option<Weigher<K, V>>,
)
    ensures
        ({
            let slots = CacheView::new(
                max_capacity,
                time_to_live,
                time_to_idle,
                weigher,
            ).sketch.table.len();
            &&& exists|n: nat| slots == #[trigger] vstd::arithmetic::power2::pow2(n)
            &&& 128 <= slots <= frequency_sketch::max_slots()
            &&& match max_capacity {
                Some(max) => slots >= frequency_sketch::least(
                    max as nat,
                    frequency_sketch::max_slots(),
                ),
                None => slots == frequency_sketch::max_slots(),
            }
        }),
{
    let cap = model::sketch_capacity(max_capacity);
    let most = frequency_sketch::max_slots();
    let wanted = frequency_sketch::least(cap as nat, most);
    vstd::arithmetic::power2::lemma2_to64();
    frequency_sketch::lemma_ceil_pow2(wanted);
    if usize::BITS == 32 {
        frequency_sketch::lemma_ceil_pow2_least(wanted, 24);
    } else {
        frequency_sketch::lemma_ceil_pow2_least(wanted, 30);
    }
}

/// Where nothing weighs the entries, a new entry is always stored while there are fewer entries
/// than the capacity, and no other entry leaves for it.
pub proof fn law_free_room_is_used<K, V>(
    cache: CacheView<K, V>,
    k: K,
    v: V,
    hash: u64,
    timestamp: Option<Instant>,
    weight: u64,
    old_weight: u64,
    weights: Seq<u64>,
    after: CacheView<K, V>,
)
    requires
        cache.wf(),
        cache.inserts(k, v, hash, timestamp, weight, old_weight, weights, after),
        cache.weigher is None,
        !cache.entries.contains_key(k),
        cache.max_capacity matches Some(max) ==> cache.recency.len() < max,
    ensures
        after.entries == cache.entries.insert(k, v),
{
}

/// Entries that leave without a weigher give their room back: as many new ones fit in.
pub proof fn law_removal_makes_room<K, V>(
    cache: CacheView<K, V>,
    keys: Set<K>,
    released: nat,
    max: u64,
)
    requires
        cache.wf(),
        cache.weigher is None,
        cache.max_capacity == Some(max),
        cache.may_release(keys, released),
    ensures
        ({
            let after = cache.remove_all(keys, released);
            cache.weighted_size - after.weighted_size == cache.recency.len() - after.recency.len()
        }),
{
    cache.lemma_remove_all_wf(keys, released);
}

/// The popularity of more entries is not less.
pub proof fn lemma_popularity<K, V>(cache: CacheView<K, V>, m: nat, n: nat)
    requires
        m <= n,
    ensures
        cache.popularity(m) <= cache.popularity(n),
    decreases n,
{
    if m < n {
        lemma_popularity(cache, m, (n - 1) as nat);
    }
}

/// Where an entry always weighs the same, two searches come upon the same weights as far as
/// both go.
proof fn lemma_same_weights<K, V>(
    cache: CacheView<K, V>,
    weight_of: spec_fn(K, V) -> u64,
    weights: Seq<u64>,
    others: Seq<u64>,
)
    requires
        entry::weighs_by(cache.weigher, weight_of),
        cache.may_weigh_oldest(weights),
        cache.may_weigh_oldest(others),
        weights.len() <= others.len(),
    ensures
        others.take(weights.len() as int) == weights,
{
    assert forall|i: int| 0 <= i < weights.len() implies #[trigger] weights[i] == others.take(
        weights.len() as int,
    )[i] by {
        let k = cache.recency[i].of();
        assert(entry::may_weigh(cache.weigher, k, cache.entries[k], weights[i]));
        assert(entry::may_weigh(cache.weigher, k, cache.entries[k], others[i]));
    }
    assert(others.take(weights.len() as int) =~= weights);
}

/// A candidate that is asked for more often is let in, in place of the same entries, where one
/// of the same weight is. One that is neither lighter nor asked for more often is refused where
/// the other is.
pub proof fn law_admission_monotone<K, V>(
    cache: CacheView<K, V>,
    weight_of: spec_fn(K, V) -> u64,
    weight: u64,
    frequency: nat,
    weights: Seq<u64>,
    other_weight: u64,
    other_frequency: nat,
    other_weights: Seq<u64>,
)
    requires
        entry::weighs_by(cache.weigher, weight_of),
        cache.search_ends(weights, weight, frequency),
        cache.search_ends(other_weights, other_weight, other_frequency),
    ensures
        other_weight == weight && other_frequency >= frequency && cache.admits(
            weights,
            weight,
            frequency,
        ) ==> other_weights == weights && cache.admits(
            other_weights,
            other_weight,
            other_frequency,
        ),
        other_weight >= weight && other_frequency <= frequency && !cache.admits(
            weights,
            weight,
            frequency,
        ) ==> !cache.admits(other_weights, other_weight, other_frequency),
{
    let n = weights.len();
    let m = other_weights.len();
    if m < n {
        lemma_same_weights(cache, weight_of, other_weights, weights);
        assert(cache.searches_on(weights.take(m as int), weight, frequency));
    } else {
        lemma_same_weights(cache, weight_of, weights, other_weights);
        lemma_popularity(cache, n, m);
        if n < m {
            assert(cache.searches_on(
                other_weights.take(n as int),
                other_weight,
                other_frequency,
            ));
        } else {
            assert(other_weights.take(n as int) =~= other_weights);
        }
    }
}

} // verus!
