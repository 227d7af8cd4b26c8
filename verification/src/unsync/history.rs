//! What holds of a cache over any course of operations.

use crate::common::time;
use crate::common::time::{Clock, Instant};
use crate::unsync::laws;
use crate::unsync::model::CacheView;
use crate::unsync::order;
use std::time::Duration;
use vstd::prelude::*;

verus! {

/// An operation on a cache, with all that it reads and finds. Entries that are found expired, or
/// that are discarded together, weigh `released`.
#[verifier::reject_recursive_types(K)]
#[verifier::reject_recursive_types(V)]
pub enum Operation<K, V> {
    /// `key` is asked for, and `found` is what is found.
    Get { key: K, hash: u64, timestamp: Option<Instant>, released: nat, found: Option<V> },
    /// `value` is put in for `key`.
    Insert {
        key: K,
        value: V,
        hash: u64,
        timestamp: Option<Instant>,
        released: nat,
        weight: u64,
        old_weight: u64,
        weights: Seq<u64>,
    },
    /// What is held for `key`, and weighs `discarded`, is discarded.
    Invalidate { key: K, timestamp: Option<Instant>, released: nat, discarded: nat },
    /// All that is held is discarded.
    InvalidateAll,
    /// What is held for `keys`, which a predicate has selected, is discarded.
    InvalidateEntries { keys: Set<K>, released: nat },
    /// Entries expire by another clock from now on.
    SetExpirationClock { clock: Option<Clock> },
}

impl<K, V> Operation<K, V> {
    /// Whether the operation may make `after` of the cache `before`.
    pub open spec fn makes(self, before: CacheView<K, V>, after: CacheView<K, V>) -> bool {
        match self {
            Operation::Get { key, hash, timestamp, released, found } => before.gets(
                key,
                hash,
                timestamp,
                released,
                found,
                after,
            ),
            Operation::Insert { key, value, hash, timestamp, released, weight, old_weight, weights } => {
                &&& before.reads(timestamp)
                &&& before.may_evict(timestamp, released)
                &&& before.evict_at(timestamp, released).inserts(
                    key,
                    value,
                    hash,
                    timestamp,
                    weight,
                    old_weight,
                    weights,
                    after,
                )
            },
            Operation::Invalidate { key, timestamp, released, discarded } => {
                &&& before.reads(timestamp)
                &&& before.may_evict(timestamp, released)
                &&& before.evict_at(timestamp, released).may_release(set![key], discarded)
                &&& after == before.evict_at(timestamp, released).remove(key, discarded)
            },
            Operation::InvalidateAll => after == before.clear(),
            Operation::InvalidateEntries { keys, released } => {
                &&& keys.subset_of(before.entries.dom())
                &&& before.may_release(keys, released)
                &&& after == before.remove_all(keys, released)
            },
            Operation::SetExpirationClock { clock } => after == (CacheView { clock, ..before }),
        }
    }

    /// The time that the operation has read.
    pub open spec fn time(self) -> Option<Instant> {
        match self {
            Operation::Get { timestamp, .. } => timestamp,
            Operation::Insert { timestamp, .. } => timestamp,
            Operation::Invalidate { timestamp, .. } => timestamp,
            _ => None,
        }
    }

    /// What the entries weigh that the operation has found expired or has discarded together.
    pub open spec fn released(self) -> nat {
        match self {
            Operation::Get { released, .. } => released,
            Operation::Insert { released, .. } => released,
            Operation::Invalidate { released, .. } => released,
            Operation::InvalidateEntries { released, .. } => released,
            _ => 0,
        }
    }

    /// Whether a value is put in for `k`.
    pub open spec fn puts_in(self, k: K) -> bool {
        self matches Operation::Insert { key, .. } && key == k
    }

    /// Whether `k` is asked for or a value is put in for it.
    pub open spec fn uses(self, k: K) -> bool {
        ||| self.puts_in(k)
        ||| self matches Operation::Get { key, .. } && key == k
    }

    /// Whether the operation takes the entry of `k` out of the cache `before` for another reason
    /// than that it has expired.
    pub open spec fn discards(self, before: CacheView<K, V>, k: K) -> bool {
        match self {
            Operation::Insert { key, hash, timestamp, released, weight, weights, .. } => laws::leaving(
                before.evict_at(timestamp, released),
                key,
                hash,
                weight,
                weights,
            ).contains(k),
            Operation::Invalidate { key, .. } => key == k,
            Operation::InvalidateAll => true,
            Operation::InvalidateEntries { keys, released } => keys.contains(k),
            _ => false,
        }
    }

    /// Whether the entry of `k` in the cache `before` has expired at the time that the operation
    /// has read.
    pub open spec fn finds_expired(self, before: CacheView<K, V>, k: K) -> bool {
        self.time() matches Some(now) && before.is_expired(k, now)
    }
}

/// Whether `states` are the states of a cache through the given operations.
pub open spec fn course<K, V>(
    operations: Seq<Operation<K, V>>,
    states: Seq<CacheView<K, V>>,
) -> bool {
    &&& states.len() == operations.len() + 1
    &&& forall|i: int|
        0 <= i < operations.len() ==> (#[trigger] operations[i]).makes(states[i], states[i + 1])
}

/// Every operation keeps a cache well-formed.
pub proof fn law_operation_wf<K, V>(
    operation: Operation<K, V>,
    before: CacheView<K, V>,
    after: CacheView<K, V>,
)
    requires
        before.wf(),
        operation.makes(before, after),
    ensures
        after.wf(),
{
    match operation {
        Operation::Get { key, hash, timestamp, released, found } => {
            laws::law_get_wf(before, key, hash, timestamp, released, found, after);
        },
        Operation::Insert { key, value, hash, timestamp, released, weight, old_weight, weights } => {
            laws::law_evict_wf(before, timestamp, released);
            laws::law_insert_wf(
                before.evict_at(timestamp, released),
                key,
                value,
                hash,
                timestamp,
                weight,
                old_weight,
                weights,
                after,
            );
        },
        Operation::Invalidate { key, timestamp, released, discarded } => {
            laws::law_evict_wf(before, timestamp, released);
            before.evict_at(timestamp, released).lemma_remove_all_wf(set![key], discarded);
        },
        Operation::InvalidateAll => {
            assert(order::keys_of::<K, _>(after.recency) =~= after.entries.dom());
            assert(order::keys_of::<K, _>(after.writes) =~= after.entries.dom());
        },
        Operation::InvalidateEntries { keys, released } => {
            before.lemma_remove_all_wf(keys, released);
        },
        Operation::SetExpirationClock { .. } => {},
    }
}

/// No operation changes the capacity, how long entries last or what weighs them.
pub proof fn law_operation_keeps_settings<K, V>(
    operation: Operation<K, V>,
    before: CacheView<K, V>,
    after: CacheView<K, V>,
)
    requires
        before.wf(),
        operation.makes(before, after),
    ensures
        after.max_capacity == before.max_capacity,
        after.time_to_live == before.time_to_live,
        after.time_to_idle == before.time_to_idle,
        after.weigher == before.weigher,
{
}

/// What has been asked for is counted when it is asked for, and at no other time. In particular
/// it is still known when what was held has been discarded.
pub proof fn law_operation_counts<K, V>(
    operation: Operation<K, V>,
    before: CacheView<K, V>,
    after: CacheView<K, V>,
)
    requires
        before.wf(),
        operation.makes(before, after),
    ensures
        match operation {
            Operation::Get { hash, .. } => after.sketch == before.sketch.increment(hash),
            _ => after.sketch == before.sketch,
        },
{
}

/// Unless a value is put in for `k`, the entry of `k` keeps its value and the time of its last
/// write as long as it is there, and it does not come back.
pub proof fn law_unwritten<K, V>(
    operation: Operation<K, V>,
    before: CacheView<K, V>,
    after: CacheView<K, V>,
    k: K,
)
    requires
        before.wf(),
        operation.makes(before, after),
        !operation.puts_in(k),
        after.entries.contains_key(k),
    ensures
        before.entries.contains_key(k),
        after.entries[k] == before.entries[k],
        after.last_modified(k) == before.last_modified(k),
        !operation.uses(k) ==> after.last_accessed(k) == before.last_accessed(k),
{
    if let Some(now) = operation.time() {
        if before.entries.contains_key(k) {
            laws::law_evict_only_expired(before, now, operation.released(), k);
        }
    }
    match operation {
        Operation::Get { key, hash, timestamp, released, found } => {
            laws::law_get_keeps(before, key, hash, timestamp, released, found, after, k);
        },
        Operation::Insert { key, value, hash, timestamp, released, weight, old_weight, weights } => {
            laws::law_evict_wf(before, timestamp, released);
            laws::law_insert_keeps_others(
                before.evict_at(timestamp, released),
                key,
                value,
                hash,
                timestamp,
                weight,
                old_weight,
                weights,
                after,
                k,
            );
        },
        Operation::Invalidate { key, timestamp, released, discarded } => {
            laws::law_evict_wf(before, timestamp, released);
            laws::law_removal_keeps_others(
                before.evict_at(timestamp, released),
                set![key],
                discarded,
                k,
            );
        },
        Operation::InvalidateAll => {},
        Operation::InvalidateEntries { keys, released } => {
            laws::law_removal_keeps_others(before, keys, released, k);
        },
        Operation::SetExpirationClock { .. } => {},
    }
}

/// An entry stays in the cache unless it is discarded or has expired.
pub proof fn law_stays<K, V>(
    operation: Operation<K, V>,
    before: CacheView<K, V>,
    after: CacheView<K, V>,
    k: K,
)
    requires
        before.wf(),
        operation.makes(before, after),
        before.entries.contains_key(k),
        !operation.discards(before, k),
        !operation.finds_expired(before, k),
    ensures
        after.entries.contains_key(k),
{
    if let Some(now) = operation.time() {
        laws::law_evict_only_expired(before, now, operation.released(), k);
    }
    match operation {
        Operation::Get { key, hash, timestamp, released, found } => {
            laws::law_get_keeps(before, key, hash, timestamp, released, found, after, k);
        },
        Operation::Insert { key, value, hash, timestamp, released, weight, old_weight, weights } => {
            laws::law_evict_wf(before, timestamp, released);
            let evicted = before.evict_at(timestamp, released);
            if key == k {
                laws::law_insert_stores(
                    evicted,
                    key,
                    value,
                    hash,
                    timestamp,
                    weight,
                    old_weight,
                    weights,
                    after,
                );
            } else {
                laws::law_insert_keeps_others(
                    evicted,
                    key,
                    value,
                    hash,
                    timestamp,
                    weight,
                    old_weight,
                    weights,
                    after,
                    k,
                );
            }
        },
        _ => {},
    }
}

/// A cache stays well-formed, with the same settings, through any course of operations.
pub proof fn law_course_wf<K, V>(
    operations: Seq<Operation<K, V>>,
    states: Seq<CacheView<K, V>>,
    i: int,
)
    requires
        course(operations, states),
        states[0].wf(),
        0 <= i < states.len(),
    ensures
        states[i].wf(),
        states[i].max_capacity == states[0].max_capacity,
        states[i].time_to_live == states[0].time_to_live,
        states[i].time_to_idle == states[0].time_to_idle,
        states[i].weigher == states[0].weigher,
    decreases i,
{
    if i > 0 {
        law_course_wf(operations, states, i - 1);
        assert(operations[i - 1].makes(states[i - 1], states[i - 1 + 1]));
        law_operation_wf(operations[i - 1], states[i - 1], states[i]);
        law_operation_keeps_settings(operations[i - 1], states[i - 1], states[i]);
    }
}

/// A cache that stores up to `max_capacity` entries never holds more, whatever is done with it.
pub proof fn law_course_within_capacity<K, V>(
    operations: Seq<Operation<K, V>>,
    states: Seq<CacheView<K, V>>,
    max_capacity: usize,
    time_to_live: Option<Duration>,
    time_to_idle: Option<Duration>,
    i: int,
)
    requires
        course(operations, states),
        states[0] == CacheView::<K, V>::new(Some(max_capacity), time_to_live, time_to_idle, None),
        0 <= i < states.len(),
    ensures
        states[i].entries.dom().finite(),
        states[i].entries.len() <= max_capacity,
{
    laws::law_new_wf::<K, V>(Some(max_capacity), time_to_live, time_to_idle, None);
    law_course_wf(operations, states, i);
    laws::law_capacity(states[i], max_capacity as u64);
}

/// The entry of `k` is as it was written as long as no value is put in for `k`.
pub proof fn lemma_course_unwritten<K, V>(
    operations: Seq<Operation<K, V>>,
    states: Seq<CacheView<K, V>>,
    k: K,
    i: int,
)
    requires
        course(operations, states),
        states[0].wf(),
        forall|j: int| 0 <= j < operations.len() ==> !(#[trigger] operations[j]).puts_in(k),
        0 <= i < states.len(),
        states[i].entries.contains_key(k),
    ensures
        states[0].entries.contains_key(k),
        states[i].entries[k] == states[0].entries[k],
        states[i].last_modified(k) == states[0].last_modified(k),
        (forall|j: int| 0 <= j < operations.len() ==> !(#[trigger] operations[j]).uses(k))
            ==> states[i].last_accessed(k) == states[0].last_accessed(k),
    decreases i,
{
    if i > 0 {
        law_course_wf(operations, states, i - 1);
        assert(operations[i - 1].makes(states[i - 1], states[i - 1 + 1]));
        law_unwritten(operations[i - 1], states[i - 1], states[i], k);
        lemma_course_unwritten(operations, states, k, i - 1);
    }
}

/// An entry is found no more once its time to live has passed since it was last written.
pub proof fn law_time_to_live<K, V>(
    operations: Seq<Operation<K, V>>,
    states: Seq<CacheView<K, V>>,
    k: K,
    time_to_live: Duration,
    written: Instant,
    now: Instant,
)
    requires
        course(operations, states),
        states[0].wf(),
        states[0].time_to_live == Some(time_to_live),
        states[0].last_modified(k) == Some(written),
        forall|j: int| 0 <= j < operations.len() ==> !(#[trigger] operations[j]).puts_in(k),
        written.nanos + time::duration_nanos(time_to_live) <= now.nanos,
    ensures
        states.last().lookup(k, Some(now)) is None,
{
    let last = states.len() - 1;
    law_course_wf(operations, states, last);
    if states[last].entries.contains_key(k) {
        lemma_course_unwritten(operations, states, k, last);
    }
}

/// An entry is found no more once its time to idle has passed since it was last asked for or
/// written.
pub proof fn law_time_to_idle<K, V>(
    operations: Seq<Operation<K, V>>,
    states: Seq<CacheView<K, V>>,
    k: K,
    time_to_idle: Duration,
    used: Instant,
    now: Instant,
)
    requires
        course(operations, states),
        states[0].wf(),
        states[0].time_to_idle == Some(time_to_idle),
        states[0].last_accessed(k) == Some(used),
        forall|j: int| 0 <= j < operations.len() ==> !(#[trigger] operations[j]).uses(k),
        used.nanos + time::duration_nanos(time_to_idle) <= now.nanos,
    ensures
        states.last().lookup(k, Some(now)) is None,
{
    let last = states.len() - 1;
    law_course_wf(operations, states, last);
    if states[last].entries.contains_key(k) {
        assert forall|j: int| 0 <= j < operations.len() implies !(#[trigger] operations[j]).puts_in(
            k,
        ) by {
            assert(!operations[j].uses(k));
        }
        lemma_course_unwritten(operations, states, k, last);
    }
}

/// An entry stays in the cache, with its value, until it is discarded, has expired or is
/// written again.
pub proof fn law_kept<K, V>(
    operations: Seq<Operation<K, V>>,
    states: Seq<CacheView<K, V>>,
    k: K,
    i: int,
)
    requires
        course(operations, states),
        states[0].wf(),
        states[0].entries.contains_key(k),
        forall|j: int|
            0 <= j < operations.len() ==> {
                &&& !(#[trigger] operations[j]).puts_in(k)
                &&& !operations[j].discards(states[j], k)
                &&& !operations[j].finds_expired(states[j], k)
            },
        0 <= i < states.len(),
    ensures
        states[i].entries.contains_key(k),
        states[i].entries[k] == states[0].entries[k],
    decreases i,
{
    if i > 0 {
        law_kept(operations, states, k, i - 1);
        law_course_wf(operations, states, i - 1);
        assert(operations[i - 1].makes(states[i - 1], states[i - 1 + 1]));
        law_stays(operations[i - 1], states[i - 1], states[i], k);
        law_unwritten(operations[i - 1], states[i - 1], states[i], k);
    }
}

/// What was put in for `k`, and let in, is what is found for `k` later, if nothing else was put
/// in for `k`, and the entry has neither been discarded nor expired.
pub proof fn law_found_as_written<K, V>(
    operations: Seq<Operation<K, V>>,
    states: Seq<CacheView<K, V>>,
    k: K,
    v: V,
    timestamp: Option<Instant>,
)
    requires
        course(operations, states),
        states[0].wf(),
        operations.len() > 0,
        operations[0].puts_in(k),
        operations[0]->value == v,
        states[1].entries.contains_key(k),
        forall|j: int|
            1 <= j < operations.len() ==> {
                &&& !(#[trigger] operations[j]).puts_in(k)
                &&& !operations[j].discards(states[j], k)
                &&& !operations[j].finds_expired(states[j], k)
            },
        !(timestamp matches Some(now) && states.last().is_expired(k, now)),
    ensures
        states.last().lookup(k, timestamp) == Some(v),
{
    assert(operations[0].makes(states[0], states[0int + 1]));
    law_operation_wf(operations[0], states[0], states[1]);
    if let Operation::Insert { key, value, hash, timestamp, released, weight, old_weight, weights } =
        operations[0] {
        laws::law_evict_wf(states[0], timestamp, released);
        laws::law_insert_stores(
            states[0].evict_at(timestamp, released),
            key,
            value,
            hash,
            timestamp,
            weight,
            old_weight,
            weights,
            states[1],
        );
    }
    let later = operations.skip(1);
    let since = states.skip(1);
    assert forall|j: int| 0 <= j < later.len() implies {
        &&& !(#[trigger] later[j]).puts_in(k)
        &&& !later[j].discards(since[j], k)
        &&& !later[j].finds_expired(since[j], k)
        &&& later[j].makes(since[j], since[j + 1])
    } by {
        assert(later[j] == operations[j + 1]);
        assert(operations[j + 1].makes(states[j + 1], states[j + 1 + 1]));
    }
    law_kept(later, since, k, since.len() - 1);
    assert(since[since.len() - 1] == states.last());
}

} // verus!
