//! What holds of the accounted weight of a cache.
//!
//! The weigher may give an entry another weight each time that it is asked. The laws here are
//! of a weigher that always gives the same weight to the same key and value.

use crate::common::time::Instant;
use crate::unsync::entry;
use crate::unsync::entry::{Dated, KeyHashDate, Weigher};
use crate::unsync::history;
use crate::unsync::history::Operation;
use crate::unsync::laws;
use crate::unsync::model;
use crate::unsync::model::CacheView;
use crate::unsync::order;
use std::time::Duration;
use vstd::prelude::*;

verus! {

/// What the entries with the given nodes weigh, one by one.
pub open spec fn weights_of<K, V>(
    entries: Map<K, V>,
    nodes: Seq<KeyHashDate<K>>,
    weight_of: spec_fn(K, V) -> u64,
) -> Seq<u64> {
    Seq::new(nodes.len(), |i: int| weight_of(nodes[i].of(), entries[nodes[i].of()]))
}

/// What the entries of a cache weigh together.
pub open spec fn held_weight<K, V>(
    cache: CacheView<K, V>,
    weight_of: spec_fn(K, V) -> u64,
) -> nat {
    model::total(weights_of(cache.entries, cache.recency, weight_of))
}

/// One more weight adds to the sum.
proof fn lemma_total_push(weights: Seq<u64>, weight: u64)
    ensures
        model::total(weights.push(weight)) == model::total(weights) + weight,
{
    assert(weights.push(weight).drop_last() =~= weights);
}

/// Sums add up.
proof fn lemma_total_add(first: Seq<u64>, second: Seq<u64>)
    ensures
        model::total(first + second) == model::total(first) + model::total(second),
    decreases second.len(),
{
    if second.len() == 0 {
        assert(first + second =~= first);
    } else {
        assert((first + second).drop_last() =~= first + second.drop_last());
        lemma_total_add(first, second.drop_last());
    }
}

/// One weight less takes off the sum.
proof fn lemma_total_remove(weights: Seq<u64>, i: int)
    requires
        0 <= i < weights.len(),
    ensures
        model::total(weights.remove(i)) + weights[i] == model::total(weights),
{
    let first = weights.take(i);
    let second = weights.skip(i + 1);
    assert(weights.remove(i) =~= first + second);
    assert(weights =~= first.push(weights[i]) + second);
    lemma_total_add(first, second);
    lemma_total_add(first.push(weights[i]), second);
    lemma_total_push(first, weights[i]);
}

/// The entries that leave weigh what the others weigh less.
proof fn lemma_without_weighs<K, V>(
    entries: Map<K, V>,
    nodes: Seq<KeyHashDate<K>>,
    keys: Set<K>,
    weights: Map<K, u64>,
    weight_of: spec_fn(K, V) -> u64,
)
    requires
        forall|i: int| 0 <= i < nodes.len() ==> entries.contains_key((#[trigger] nodes[i]).of()),
        forall|i: int|
            0 <= i < nodes.len() && keys.contains((#[trigger] nodes[i]).of())
                ==> weights[nodes[i].of()] == weight_of(nodes[i].of(), entries[nodes[i].of()]),
    ensures
        model::total(
            weights_of(entries.remove_keys(keys), order::without(nodes, keys), weight_of),
        ) + model::weight_among(nodes, keys, weights) == model::total(
            weights_of(entries, nodes, weight_of),
        ),
    decreases nodes.len(),
{
    reveal(Seq::filter);
    let left = entries.remove_keys(keys);
    if nodes.len() > 0 {
        let rest = nodes.drop_last();
        let node = nodes.last();
        assert(node == nodes[nodes.len() - 1]);
        assert forall|i: int| 0 <= i < rest.len() implies entries.contains_key(
            (#[trigger] rest[i]).of(),
        ) by {
            assert(rest[i] == nodes[i]);
        }
        assert forall|i: int|
            0 <= i < rest.len() && keys.contains((#[trigger] rest[i]).of()) implies weights[rest[i].of()]
            == weight_of(rest[i].of(), entries[rest[i].of()]) by {
            assert(rest[i] == nodes[i]);
        }
        lemma_without_weighs(entries, rest, keys, weights, weight_of);
        assert(weights_of(entries, nodes, weight_of).drop_last() =~= weights_of(
            entries,
            rest,
            weight_of,
        ));
        if !keys.contains(node.of()) {
            let shorter = order::without(rest, keys);
            assert(order::without(nodes, keys) == shorter.push(node));
            assert(weights_of(left, shorter.push(node), weight_of) =~= weights_of(
                left,
                shorter,
                weight_of,
            ).push(weight_of(node.of(), left[node.of()])));
            lemma_total_push(
                weights_of(left, shorter, weight_of),
                weight_of(node.of(), left[node.of()]),
            );
        }
    }
}

/// Entries that leave take their weight with them, and exactly that is taken off what is
/// accounted for.
pub proof fn law_removal_accounted<K, V>(
    cache: CacheView<K, V>,
    keys: Set<K>,
    released: nat,
    weight_of: spec_fn(K, V) -> u64,
)
    requires
        cache.wf(),
        entry::weighs_by(cache.weigher, weight_of),
        cache.may_release(keys, released),
        held_weight(cache, weight_of) <= cache.weighted_size,
    ensures
        held_weight(cache.remove_all(keys, released), weight_of) + released == held_weight(
            cache,
            weight_of,
        ),
        cache.remove_all(keys, released).weighted_size + released == cache.weighted_size,
{
    let weights = choose|weights: Map<K, u64>| #[trigger]
        cache.may_weigh_all(keys, weights) && released == model::weight_among(
            cache.recency,
            keys,
            weights,
        );
    assert forall|i: int| 0 <= i < cache.recency.len() implies cache.entries.contains_key(
        (#[trigger] cache.recency[i]).of(),
    ) by {
        order::lemma_place::<K, _>(cache.recency, i);
    }
    assert forall|i: int|
        0 <= i < cache.recency.len() && keys.contains((#[trigger] cache.recency[i]).of()) implies
        weights[cache.recency[i].of()] == weight_of(
        cache.recency[i].of(),
        cache.entries[cache.recency[i].of()],
    ) by {
        let k = cache.recency[i].of();
        assert(entry::may_weigh(cache.weigher, k, cache.entries[k], weights[k]));
    }
    lemma_without_weighs(cache.entries, cache.recency, keys, weights, weight_of);
}

/// So do entries that have expired.
pub proof fn law_evict_accounted<K, V>(
    cache: CacheView<K, V>,
    timestamp: Option<Instant>,
    released: nat,
    weight_of: spec_fn(K, V) -> u64,
)
    requires
        cache.wf(),
        entry::weighs_by(cache.weigher, weight_of),
        cache.may_evict(timestamp, released),
        held_weight(cache, weight_of) <= cache.weighted_size,
    ensures
        cache.evict_at(timestamp, released).weighted_size - held_weight(
            cache.evict_at(timestamp, released),
            weight_of,
        ) == cache.weighted_size - held_weight(cache, weight_of),
{
    if let Some(now) = timestamp {
        law_removal_accounted(cache, cache.found_expired(now), released, weight_of);
    }
}

/// What the entries weigh does not depend on the order in which they were used.
proof fn lemma_touch_weighs_the_same<K, V>(
    cache: CacheView<K, V>,
    k: K,
    timestamp: Option<Instant>,
    weight_of: spec_fn(K, V) -> u64,
)
    requires
        cache.wf(),
        cache.entries.contains_key(k),
    ensures
        held_weight(cache.touch(k, timestamp), weight_of) == held_weight(cache, weight_of),
{
    let after = cache.touch(k, timestamp);
    let i = order::place(cache.recency, k);
    order::lemma_place_of::<K, _>(cache.recency, k);
    let weights = weights_of(cache.entries, cache.recency, weight_of);
    assert(weights_of(after.entries, after.recency, weight_of) =~= weights.remove(i).push(
        weights[i],
    ));
    lemma_total_remove(weights, i);
    lemma_total_push(weights.remove(i), weights[i]);
}

/// Asking for a key accounts exactly for what it does to the weight of the entries.
pub proof fn law_get_accounted<K, V>(
    cache: CacheView<K, V>,
    k: K,
    hash: u64,
    timestamp: Option<Instant>,
    released: nat,
    value: Option<V>,
    after: CacheView<K, V>,
    weight_of: spec_fn(K, V) -> u64,
)
    requires
        cache.wf(),
        entry::weighs_by(cache.weigher, weight_of),
        cache.gets(k, hash, timestamp, released, value, after),
        held_weight(cache, weight_of) <= cache.weighted_size,
    ensures
        after.weighted_size - held_weight(after, weight_of) == cache.weighted_size - held_weight(
            cache,
            weight_of,
        ),
{
    let evicted = cache.evict_at(timestamp, released);
    laws::law_evict_wf(cache, timestamp, released);
    law_evict_accounted(cache, timestamp, released, weight_of);
    if evicted.lookup(k, timestamp) is Some {
        lemma_touch_weighs_the_same(evicted, k, timestamp, weight_of);
        assert(after.recency == evicted.touch(k, timestamp).recency);
        assert(after.entries == evicted.entries);
    } else {
        assert(after.recency == evicted.recency);
    }
}

/// The update of an entry exchanges its weight.
proof fn lemma_update_weighs<K, V>(
    cache: CacheView<K, V>,
    k: K,
    v: V,
    timestamp: Option<Instant>,
    weight_of: spec_fn(K, V) -> u64,
)
    requires
        cache.wf(),
        cache.entries.contains_key(k),
    ensures
        ({
            let old_weight = weight_of(k, cache.entries[k]);
            let after = cache.update(k, v, timestamp, old_weight, weight_of(k, v));
            held_weight(after, weight_of) + old_weight == held_weight(cache, weight_of) + weight_of(
                k,
                v,
            )
        }),
        weight_of(k, cache.entries[k]) <= held_weight(cache, weight_of),
{
    let old_weight = weight_of(k, cache.entries[k]);
    let after = cache.update(k, v, timestamp, old_weight, weight_of(k, v));
    let i = order::place(cache.recency, k);
    order::lemma_place_of::<K, _>(cache.recency, k);
    let weights = weights_of(cache.entries, cache.recency, weight_of);
    let rest = weights.remove(i);
    let others = cache.recency.remove(i);
    assert forall|j: int| 0 <= j < others.len() implies (#[trigger] others[j]).of() != k by {
        let at = if j < i {
            j
        } else {
            j + 1
        };
        assert(others[j] == cache.recency[at]);
        assert(cache.recency[i].of() == k);
    }
    assert(weights_of(after.entries, after.recency, weight_of) =~= rest.push(weight_of(k, v)));
    lemma_total_remove(weights, i);
    lemma_total_push(rest, weight_of(k, v));
}

/// A new entry adds its weight.
proof fn lemma_store_weighs<K, V>(
    cache: CacheView<K, V>,
    k: K,
    v: V,
    hash: u64,
    timestamp: Option<Instant>,
    weight: u64,
    weight_of: spec_fn(K, V) -> u64,
)
    requires
        cache.ordered(),
        !cache.entries.contains_key(k),
    ensures
        held_weight(cache.store(k, v, hash, timestamp, weight), weight_of) == held_weight(
            cache,
            weight_of,
        ) + weight_of(k, v),
{
    let after = cache.store(k, v, hash, timestamp, weight);
    let weights = weights_of(cache.entries, cache.recency, weight_of);
    assert forall|j: int| 0 <= j < cache.recency.len() implies (#[trigger] cache.recency[j]).of()
        != k by {
        order::lemma_place::<K, _>(cache.recency, j);
    }
    assert(weights_of(after.entries, after.recency, weight_of) =~= weights.push(weight_of(k, v)));
    lemma_total_push(weights, weight_of(k, v));
}

/// The least recently used entries take their weight with them when they leave.
proof fn lemma_oldest_weigh<K, V>(
    cache: CacheView<K, V>,
    n: int,
    released: nat,
    weight_of: spec_fn(K, V) -> u64,
)
    requires
        cache.wf(),
        0 <= n <= cache.recency.len(),
    ensures
        ({
            let weights = weights_of(cache.entries, cache.recency, weight_of);
            let victims = order::keys_of(cache.recency.take(n));
            held_weight(cache.remove_all(victims, released), weight_of) + model::total(
                weights.take(n),
            ) == held_weight(cache, weight_of)
        }),
{
    let weights = weights_of(cache.entries, cache.recency, weight_of);
    let victims = order::keys_of(cache.recency.take(n));
    let after = cache.remove_all(victims, released);
    order::lemma_without_front::<K, _>(cache.recency, n);
    assert forall|j: int| 0 <= j < after.recency.len() implies after.entries.contains_key(
        (#[trigger] after.recency[j]).of(),
    ) by {
        cache.lemma_remove_all_ordered(victims, released);
        order::lemma_place::<K, _>(after.recency, j);
    }
    assert(weights_of(after.entries, after.recency, weight_of) =~= weights.skip(n));
    assert(weights =~= weights.take(n) + weights.skip(n));
    lemma_total_add(weights.take(n), weights.skip(n));
}

/// Putting in an entry accounts exactly for what it does to the weight of the entries, as long
/// as the sum can be represented.
pub proof fn law_insert_accounted<K, V>(
    cache: CacheView<K, V>,
    k: K,
    v: V,
    hash: u64,
    timestamp: Option<Instant>,
    weight: u64,
    old_weight: u64,
    weights: Seq<u64>,
    after: CacheView<K, V>,
    weight_of: spec_fn(K, V) -> u64,
)
    requires
        cache.wf(),
        cache.inserts(k, v, hash, timestamp, weight, old_weight, weights, after),
        entry::weighs_by(cache.weigher, weight_of),
        held_weight(cache, weight_of) <= cache.weighted_size,
        laws::lets_in(cache, k, hash, weight, weights) ==> cache.weighted_size - laws::releasing(
            cache,
            k,
            weight,
            old_weight,
            weights,
        ) + weight <= u64::MAX,
    ensures
        after.weighted_size - held_weight(after, weight_of) == cache.weighted_size - held_weight(
            cache,
            weight_of,
        ),
{
    assert(weight == weight_of(k, v));
    if cache.entries.contains_key(k) {
        assert(old_weight == weight_of(k, cache.entries[k]));
        lemma_update_weighs(cache, k, v, timestamp, weight_of);
    } else if cache.has_room(weight) {
        lemma_store_weighs(cache, k, v, hash, timestamp, weight, weight_of);
    } else if !cache.too_heavy(weight) && cache.admits(
        weights,
        weight,
        cache.sketch.frequency(hash),
    ) {
        let n = weights.len() as int;
        let victims = order::keys_of(cache.recency.take(n));
        let smaller = cache.remove_all(victims, model::total(weights));
        assert(weights =~= weights_of(cache.entries, cache.recency, weight_of).take(n)) by {
            assert forall|i: int| 0 <= i < n implies #[trigger] weights[i] == weights_of(
                cache.entries,
                cache.recency,
                weight_of,
            ).take(n)[i] by {
                assert(entry::may_weigh(
                    cache.weigher,
                    cache.recency[i].of(),
                    cache.entries[cache.recency[i].of()],
                    weights[i],
                ));
            }
        }
        lemma_oldest_weigh(cache, n, model::total(weights), weight_of);
        cache.lemma_remove_all_ordered(victims, model::total(weights));
        lemma_store_weighs(smaller, k, v, hash, timestamp, weight, weight_of);
    }
}

/// Whether the operation puts in more weight than can be accounted for.
pub open spec fn overflows<K, V>(operation: Operation<K, V>, before: CacheView<K, V>) -> bool {
    operation matches Operation::Insert {
        key,
        hash,
        timestamp,
        released,
        weight,
        old_weight,
        weights,
        ..
    } && {
        let cache = before.evict_at(timestamp, released);
        &&& laws::lets_in(cache, key, hash, weight, weights)
        &&& cache.weighted_size - laws::releasing(cache, key, weight, old_weight, weights) + weight
            > u64::MAX
    }
}

/// Whether the operation replaces an entry by a heavier one.
pub open spec fn makes_heavier<K, V>(operation: Operation<K, V>, before: CacheView<K, V>) -> bool {
    operation matches Operation::Insert { key, timestamp, released, weight, old_weight, .. }
        && before.evict_at(timestamp, released).entries.contains_key(key) && weight > old_weight
}

/// Where what the entries weigh is accounted for, it still is after an operation.
pub proof fn law_operation_accounted<K, V>(
    operation: Operation<K, V>,
    before: CacheView<K, V>,
    after: CacheView<K, V>,
    weight_of: spec_fn(K, V) -> u64,
)
    requires
        before.wf(),
        operation.makes(before, after),
        entry::weighs_by(before.weigher, weight_of),
        held_weight(before, weight_of) == before.weighted_size,
        !overflows(operation, before),
    ensures
        held_weight(after, weight_of) == after.weighted_size,
{
    match operation {
        Operation::Get { key, hash, timestamp, released, found } => {
            law_get_accounted(before, key, hash, timestamp, released, found, after, weight_of);
        },
        Operation::Insert { key, value, hash, timestamp, released, weight, old_weight, weights } => {
            laws::law_evict_wf(before, timestamp, released);
            law_evict_accounted(before, timestamp, released, weight_of);
            law_insert_accounted(
                before.evict_at(timestamp, released),
                key,
                value,
                hash,
                timestamp,
                weight,
                old_weight,
                weights,
                after,
                weight_of,
            );
        },
        Operation::Invalidate { key, timestamp, released, discarded } => {
            laws::law_evict_wf(before, timestamp, released);
            law_evict_accounted(before, timestamp, released, weight_of);
            law_removal_accounted(
                before.evict_at(timestamp, released),
                set![key],
                discarded,
                weight_of,
            );
        },
        Operation::InvalidateAll => {},
        Operation::InvalidateEntries { keys, released } => {
            law_removal_accounted(before, keys, released, weight_of);
        },
        Operation::SetExpirationClock { .. } => {
            assert(held_weight(after, weight_of) == held_weight(before, weight_of));
        },
    }
}

/// What the entries of a cache weigh is what is accounted for, whatever is done with it.
pub proof fn law_course_accounted<K, V>(
    operations: Seq<Operation<K, V>>,
    states: Seq<CacheView<K, V>>,
    weight_of: spec_fn(K, V) -> u64,
    i: int,
)
    requires
        history::course(operations, states),
        states[0].wf(),
        entry::weighs_by(states[0].weigher, weight_of),
        held_weight(states[0], weight_of) == states[0].weighted_size,
        forall|j: int|
            0 <= j < operations.len() ==> !overflows(#[trigger] operations[j], states[j]),
        0 <= i < states.len(),
    ensures
        held_weight(states[i], weight_of) == states[i].weighted_size,
    decreases i,
{
    if i > 0 {
        law_course_accounted(operations, states, weight_of, i - 1);
        history::law_course_wf(operations, states, i - 1);
        assert(operations[i - 1].makes(states[i - 1], states[i - 1 + 1]));
        law_operation_accounted(operations[i - 1], states[i - 1], states[i], weight_of);
    }
}

/// The entries of a cache together never weigh more than its capacity, as long as no entry is
/// replaced by a heavier one.
pub proof fn law_course_weight_within_capacity<K, V>(
    operations: Seq<Operation<K, V>>,
    states: Seq<CacheView<K, V>>,
    max_capacity: usize,
    time_to_live: Option<Duration>,
    time_to_idle: Option<Duration>,
    weigher: Option<Weigher<K, V>>,
    weight_of: spec_fn(K, V) -> u64,
    i: int,
)
    requires
        history::course(operations, states),
        states[0] == CacheView::<K, V>::new(
            Some(max_capacity),
            time_to_live,
            time_to_idle,
            weigher,
        ),
        entry::weighs_by(weigher, weight_of),
        forall|j: int|
            0 <= j < operations.len() ==> !makes_heavier(#[trigger] operations[j], states[j]),
        0 <= i < states.len(),
    ensures
        held_weight(states[i], weight_of) == states[i].weighted_size <= max_capacity,
    decreases i,
{
    laws::law_new_wf::<K, V>(Some(max_capacity), time_to_live, time_to_idle, weigher);
    if i > 0 {
        law_course_weight_within_capacity(
            operations,
            states,
            max_capacity,
            time_to_live,
            time_to_idle,
            weigher,
            weight_of,
            i - 1,
        );
        history::law_course_wf(operations, states, i - 1);
        let operation = operations[i - 1];
        let before = states[i - 1];
        assert(operation.makes(before, states[i - 1 + 1]));
        assert(!makes_heavier(operation, before));
        if let Operation::Insert { key, value, hash, timestamp, released, weight, old_weight, weights } =
            operation {
            let cache = before.evict_at(timestamp, released);
            laws::law_evict_wf(before, timestamp, released);
            law_evict_accounted(before, timestamp, released, weight_of);
            if cache.entries.contains_key(key) {
                lemma_update_weighs(cache, key, value, timestamp, weight_of);
                assert(old_weight == weight_of(key, cache.entries[key]));
            }
        }
        law_operation_accounted(operation, before, states[i], weight_of);
    }
}

} // verus!
