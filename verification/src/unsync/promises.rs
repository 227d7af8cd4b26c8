//! What a cache keeps to over any course of operations, spelled out.

use crate::common::time;
use crate::common::time::Instant;
use crate::unsync::effects;
use crate::unsync::entry;
use crate::unsync::entry::{Dated, Weigher};
use crate::unsync::history;
use crate::unsync::history::Operation;
use crate::unsync::laws;
use crate::unsync::model::CacheView;
use crate::unsync::order;
use crate::unsync::weights;
use std::time::Duration;
use vstd::prelude::*;

verus! {

/// What the entries weigh by the weigher's own account, added up, is what is accounted for, and
/// never more than the capacity, as long as no value is replaced by a heavier one.
///
/// This is for a weigher that always gives the same weight to the same key and value.
pub proof fn law_weights_within_capacity<K, V>(
    operations: Seq<Operation<K, V>>,
    states: Seq<CacheView<K, V>>,
    max_capacity: usize,
    time_to_live: Option<Duration>,
    time_to_idle: Option<Duration>,
    weigher: Option<Weigher<K, V>>,
    weight_of: spec_fn(K, V) -> u64,
    i: int,
)
    requires
        history::course(operations, states),
        states[0] == CacheView::<K, V>::new(
            Some(max_capacity),
            time_to_live,
            time_to_idle,
            weigher,
        ),
        match weigher {
            Some(weigher) => forall|a: K, b: V, x: u64| #[trigger]
                weigher.weighs(a, b, x) ==> x == weight_of(a, b),
            None => forall|a: K, b: V| #[trigger] weight_of(a, b) == 1,
        },
        forall|j: int|
            0 <= j < operations.len() ==> match #[trigger] operations[j] {
                Operation::Insert { key, value, .. } => states[j].entries.contains_key(key)
                    ==> weight_of(key, value) <= weight_of(key, states[j].entries[key]),
                _ => true,
            },
        0 <= i < states.len(),
    ensures
        effects::sum(
            Seq::new(
                states[i].recency.len(),
                |n: int|
                    weight_of(
                        states[i].recency[n].of(),
                        states[i].entries[states[i].recency[n].of()],
                    ) as int,
            ),
        ) == states[i].weighted_size,
        states[i].weighted_size <= max_capacity,
{
    effects::lemma_weighs_by(weigher, weight_of);
    laws::law_new_wf::<K, V>(Some(max_capacity), time_to_live, time_to_idle, weigher);
    assert forall|j: int| 0 <= j < operations.len() implies !weights::makes_heavier(
        #[trigger] operations[j],
        states[j],
    ) by {
        let before = states[j];
        history::law_course_wf(operations, states, j);
        assert(operations[j].makes(states[j], states[j + 1]));
        if let Operation::Insert { key, value, timestamp, released, weight, old_weight, .. } =
            operations[j] {
            let evicted = before.evict_at(timestamp, released);
            laws::law_evict_wf(before, timestamp, released);
            if evicted.entries.contains_key(key) {
                assert(entry::may_weigh(evicted.weigher, key, value, weight));
                assert(entry::may_weigh(
                    evicted.weigher,
                    key,
                    evicted.entries[key],
                    old_weight,
                ));
            }
        }
    }
    weights::law_course_weight_within_capacity(
        operations,
        states,
        max_capacity,
        time_to_live,
        time_to_idle,
        weigher,
        weight_of,
        i,
    );
    let cache = states[i];
    let held = weights::weights_of(cache.entries, cache.recency, weight_of);
    effects::lemma_total_is_sum(held);
    assert(Seq::new(held.len(), |n: int| held[n] as int) =~= Seq::new(
        cache.recency.len(),
        |n: int| weight_of(cache.recency[n].of(), cache.entries[cache.recency[n].of()]) as int,
    ));
}

/// Whether an operation asks for a key, or puts in a value for one of `keys`.
pub open spec fn stays_among<K, V>(operation: Operation<K, V>, keys: Set<K>) -> bool {
    match operation {
        Operation::Get { .. } => true,
        Operation::Insert { key, .. } => keys.contains(key),
        _ => false,
    }
}

/// What a cache with room for all of `keys` holds after asking for a key or putting in a value
/// for one of them.
proof fn lemma_room_for_all<K, V>(
    operation: Operation<K, V>,
    before: CacheView<K, V>,
    after: CacheView<K, V>,
    keys: Set<K>,
)
    requires
        before.wf(),
        operation.makes(before, after),
        before.weigher is None,
        before.time_to_live is None,
        before.time_to_idle is None,
        keys.finite(),
        before.max_capacity matches Some(max) ==> keys.len() <= max,
        stays_among(operation, keys),
        before.entries.dom().subset_of(keys),
    ensures
        after.entries == match operation {
            Operation::Insert { key, value, .. } => before.entries.insert(key, value),
            _ => before.entries,
        },
        after.entries.dom().subset_of(keys),
{
    match operation {
        Operation::Insert { key, value, hash, timestamp, released, weight, old_weight, weights } => {
            if !before.entries.contains_key(key) {
                order::lemma_keys_len::<K, _>(before.recency);
                let more = before.entries.dom().insert(key);
                vstd::set_lib::lemma_len_subset(more, keys);
                laws::law_free_room_is_used(
                    before,
                    key,
                    value,
                    hash,
                    timestamp,
                    weight,
                    old_weight,
                    weights,
                    after,
                );
            }
        },
        _ => {},
    }
}

/// A new cache without a weigher and without expiry stores up to as many entries as it was made
/// for: as long as no more different keys are put in than that, every one of them is held, with
/// the value that was put in last.
pub proof fn law_stores_up_to_capacity<K, V>(
    operations: Seq<Operation<K, V>>,
    states: Seq<CacheView<K, V>>,
    max_capacity: usize,
    keys: Set<K>,
    i: int,
    k: K,
)
    requires
        history::course(operations, states),
        states[0] == CacheView::<K, V>::new(Some(max_capacity), None, None, None),
        keys.finite(),
        keys.len() <= max_capacity,
        forall|j: int|
            0 <= j < operations.len() ==> ((#[trigger] operations[j]) matches Operation::Get { .. }
                || (operations[j] matches Operation::Insert { key, .. } && keys.contains(key))),
        0 <= i < states.len(),
    ensures
        states[i].entries.contains_key(k) <==> exists|j: int|
            0 <= j < i && ((#[trigger] operations[j]) matches Operation::Insert { key, .. } && key
                == k),
        forall|j: int|
            0 <= j < i && ((#[trigger] operations[j]) matches Operation::Insert { key, .. } && key
                == k) && (forall|l: int|
                j < l < i ==> !((#[trigger] operations[l]) matches Operation::Insert { key, .. }
                    && key == k)) ==> states[i].entries[k] == operations[j]->value,
        states[i].entries.dom().subset_of(keys),
    decreases i,
{
    laws::law_new_wf::<K, V>(Some(max_capacity), None, None, None);
    if i > 0 {
        law_stores_up_to_capacity(operations, states, max_capacity, keys, i - 1, k);
        history::law_course_wf(operations, states, i - 1);
        let last = i - 1;
        assert(operations[last].makes(states[last], states[last + 1]));
        assert(stays_among(operations[last], keys));
        lemma_room_for_all(operations[last], states[last], states[i], keys);
        assert forall|j: int|
            0 <= j < i && ((#[trigger] operations[j]) matches Operation::Insert { key, .. } && key
                == k) && (forall|l: int|
                j < l < i ==> !((#[trigger] operations[l]) matches Operation::Insert { key, .. }
                    && key == k)) implies states[i].entries[k] == operations[j]->value by {
            if j < last {
                assert(!(operations[last] matches Operation::Insert { key, .. } && key == k));
                assert forall|l: int| j < l < last implies !((
                #[trigger] operations[l]) matches Operation::Insert { key, .. } && key == k) by {}
                assert(states[last].entries[k] == operations[j]->value);
            }
        }
    }
}

/// A cache without a capacity and without expiry keeps every entry until it is discarded.
pub proof fn law_unbounded_keeps<K, V>(
    operation: Operation<K, V>,
    before: CacheView<K, V>,
    after: CacheView<K, V>,
    k: K,
)
    requires
        before.wf(),
        operation.makes(before, after),
        before.max_capacity is None,
        before.time_to_live is None,
        before.time_to_idle is None,
        before.entries.contains_key(k),
        !(operation matches Operation::Invalidate { key, .. } && key == k),
        !(operation matches Operation::InvalidateAll),
        !(operation matches Operation::InvalidateEntries { keys, .. } && keys.contains(k)),
    ensures
        after.entries.contains_key(k),
        !(operation matches Operation::Insert { key, .. } && key == k) ==> after.entries[k]
            == before.entries[k],
{
    history::law_stays(operation, before, after, k);
    if !operation.puts_in(k) {
        history::law_unwritten(operation, before, after, k);
    }
}

/// An entry is found, with its value, as long as its time to live has not passed since it was
/// written, nor its time to idle since it was last used, if it is neither written again nor
/// discarded. For as long as it has a time to idle, it is not used either. Once one of the two
/// has passed, it is not found.
///
/// Here `used` and `written` are the places of its nodes in the lists at first.
pub proof fn law_found_while_it_lasts<K, V>(
    operations: Seq<Operation<K, V>>,
    states: Seq<CacheView<K, V>>,
    k: K,
    used: int,
    written: int,
    hash: u64,
    now: Instant,
    released: nat,
    value: Option<V>,
    after: CacheView<K, V>,
)
    requires
        history::course(operations, states),
        states[0].wf(),
        states[0].entries.contains_key(k),
        0 <= used < states[0].recency.len(),
        states[0].recency[used].of() == k,
        states[0].recency[used].timestamp is Some,
        states[0].time_to_live is Some ==> {
            &&& 0 <= written < states[0].writes.len()
            &&& states[0].writes[written].of() == k
            &&& states[0].writes[written].timestamp is Some
        },
        forall|j: int|
            0 <= j < operations.len() ==> {
                &&& !(#[trigger] operations[j] matches Operation::Insert { key, .. } && key == k)
                &&& states[0].time_to_idle is Some ==> !(operations[j] matches Operation::Get {
                    key,
                    ..
                } && key == k)
                &&& !operations[j].discards(states[j], k)
                &&& operations[j].time() matches Some(then) ==> then.nanos <= now.nanos
            },
        states.last().gets(k, hash, Some(now), released, value, after),
    ensures
        ({
            let lived = states[0].time_to_live matches Some(limit)
                && states[0].writes[written].timestamp->0.nanos + time::duration_nanos(limit)
                <= now.nanos;
            let idled = states[0].time_to_idle matches Some(limit)
                && states[0].recency[used].timestamp->0.nanos + time::duration_nanos(limit)
                <= now.nanos;
            value == if lived || idled {
                None
            } else {
                Some(states[0].entries[k])
            }
        }),
{
    let last = states.len() - 1;
    let first = states[0];
    order::lemma_place::<K, _>(first.recency, used);
    if first.time_to_live is Some {
        order::lemma_place::<K, _>(first.writes, written);
    }
    history::law_course_wf(operations, states, last);
    assert forall|j: int| 0 <= j < operations.len() implies !(#[trigger] operations[j]).puts_in(
        k,
    ) by {}
    laws::law_get_finds(states[last], k, hash, Some(now), released, value, after);
    if states[last].entries.contains_key(k) {
        history::lemma_course_unwritten(operations, states, k, last);
        if first.time_to_idle is Some {
            assert forall|j: int| 0 <= j < operations.len() implies !(#[trigger] operations[j]).uses(
                k,
            ) by {}
        }
    }
    if !first.is_expired(k, now) {
        lemma_kept_meanwhile(operations, states, k, now, last);
    }
}

/// An entry that will not have expired at a later time stays until then.
proof fn lemma_kept_meanwhile<K, V>(
    operations: Seq<Operation<K, V>>,
    states: Seq<CacheView<K, V>>,
    k: K,
    now: Instant,
    i: int,
)
    requires
        history::course(operations, states),
        states[0].wf(),
        states[0].entries.contains_key(k),
        !states[0].is_expired(k, now),
        forall|j: int|
            0 <= j < operations.len() ==> {
                &&& !(#[trigger] operations[j]).puts_in(k)
                &&& states[0].time_to_idle is Some ==> !operations[j].uses(k)
                &&& !operations[j].discards(states[j], k)
                &&& operations[j].time() matches Some(then) ==> then.nanos <= now.nanos
            },
        0 <= i < states.len(),
    ensures
        states[i].entries.contains_key(k),
        !states[i].is_expired(k, now),
    decreases i,
{
    if i > 0 {
        let before = states[i - 1];
        let operation = operations[i - 1];
        lemma_kept_meanwhile(operations, states, k, now, i - 1);
        history::law_course_wf(operations, states, i - 1);
        assert(operation.makes(before, states[i - 1 + 1]));
        if let Some(then) = operation.time() {
            assert(!before.is_expired(k, then));
        }
        history::law_stays(operation, before, states[i], k);
        history::law_unwritten(operation, before, states[i], k);
        history::law_operation_keeps_settings(operation, before, states[i]);
        history::law_course_wf(operations, states, i);
    }
}

} // verus!
