//! When expired entries leave a cache.
//!
//! A clock that does not go back keeps the entries in the order of their times. Then the
//! entries that have expired are those at the front, where they are looked for.

use crate::common::time::Instant;
use crate::unsync::entry::Dated;
use crate::unsync::history;
use crate::unsync::history::Operation;
use crate::unsync::laws;
use crate::unsync::model;
use crate::unsync::model::CacheView;
use crate::unsync::order;
use std::time::Duration;
use vstd::prelude::*;

verus! {

/// Whether all nodes of `s` carry a time not after `now`, earlier ones first.
pub open spec fn in_time_order<K, T: Dated<K>>(s: Seq<T>, now: Instant) -> bool {
    &&& forall|i: int|
        0 <= i < s.len() ==> (#[trigger] s[i]).when() is Some && s[i].when()->0.nanos <= now.nanos
    &&& forall|i: int, j: int|
        0 <= i < j < s.len() ==> (#[trigger] s[i]).when()->0.nanos <= (#[trigger] s[j]).when()->0.nanos
}

/// Whether the entries of a cache are in the order of their times, up to `now`.
pub open spec fn punctual<K, V>(cache: CacheView<K, V>, now: Instant) -> bool {
    &&& in_time_order::<K, _>(cache.recency, now)
    &&& in_time_order::<K, _>(cache.writes, now)
}

/// Whether no more nodes of `s` are over at `now` than are looked at.
pub open spec fn within_batch<K, T: Dated<K>>(
    s: Seq<T>,
    limit: Option<Duration>,
    now: Instant,
) -> bool {
    s.len() > model::EVICTION_BATCH_SIZE ==> !order::over(
        limit,
        s[model::EVICTION_BATCH_SIZE as int].when(),
        now,
    )
}

/// An order of times up to a moment is one up to every later moment.
proof fn lemma_later<K, T: Dated<K>>(s: Seq<T>, now: Instant, later: Instant)
    requires
        in_time_order::<K, T>(s, now),
        now.nanos <= later.nanos,
    ensures
        in_time_order::<K, T>(s, later),
{
}

/// Nodes that leave do not disturb the order of the others.
proof fn lemma_without_in_order<K, T: Dated<K>>(s: Seq<T>, keys: Set<K>, now: Instant)
    requires
        in_time_order::<K, T>(s, now),
    ensures
        in_time_order::<K, T>(order::without(s, keys), now),
        s.len() > 0 && order::without(s, keys).len() > 0 ==> order::without(
            s,
            keys,
        ).last().when()->0.nanos <= s.last().when()->0.nanos,
    decreases s.len(),
{
    reveal(Seq::filter);
    if s.len() > 0 {
        let rest = s.drop_last();
        let node = s.last();
        assert(node == s[s.len() - 1]);
        assert forall|i: int, j: int| 0 <= i < j < rest.len() implies (
        #[trigger] rest[i]).when()->0.nanos <= (#[trigger] rest[j]).when()->0.nanos by {
            assert(s[i].when()->0.nanos <= s[j].when()->0.nanos);
        }
        lemma_without_in_order::<K, T>(rest, keys, now);
        let shorter = order::without(rest, keys);
        if rest.len() > 0 {
            assert(rest.last() == s[s.len() - 2]);
            assert(s[s.len() - 2].when()->0.nanos <= s[s.len() - 1].when()->0.nanos);
        }
        if !keys.contains(node.of()) {
            let longer = shorter.push(node);
            assert(order::without(s, keys) == longer);
            assert forall|i: int, j: int| 0 <= i < j < longer.len() implies (
            #[trigger] longer[i]).when()->0.nanos <= (#[trigger] longer[j]).when()->0.nanos by {
                if j == shorter.len() {
                    assert(shorter[i].when()->0.nanos <= shorter.last().when()->0.nanos) by {
                        if i < shorter.len() - 1 {
                            assert(shorter[i].when()->0.nanos <= shorter[shorter.len()
                                - 1].when()->0.nanos);
                        }
                    }
                } else {
                    assert(shorter[i].when()->0.nanos <= shorter[j].when()->0.nanos);
                }
            }
        }
    }
}

/// Where nodes are in the order of their times, none is over behind one that is not.
proof fn lemma_none_over_behind<K, T: Dated<K>>(
    s: Seq<T>,
    limit: Option<Duration>,
    now: Instant,
    i: int,
)
    requires
        in_time_order::<K, T>(s, now),
        within_batch::<K, T>(s, limit, now),
        order::leading_over::<K, T>(s, limit, now, model::EVICTION_BATCH_SIZE as nat) <= i < s.len(),
    ensures
        !order::over(limit, s[i].when(), now),
{
    let n = order::leading_over::<K, T>(s, limit, now, model::EVICTION_BATCH_SIZE as nat) as int;
    order::lemma_leading_over::<K, T>(s, limit, now, model::EVICTION_BATCH_SIZE as nat);
    assert(!order::over(limit, s[n].when(), now));
    if n < i {
        assert(s[n].when()->0.nanos <= s[i].when()->0.nanos);
    }
}

/// Where the entries are in the order of their times, a look for expired ones takes out all of
/// them, unless there are too many for one look.
pub proof fn law_evict_thorough<K, V>(
    cache: CacheView<K, V>,
    now: Instant,
    released: nat,
    k: K,
)
    requires
        cache.wf(),
        punctual(cache, now),
        within_batch::<K, _>(cache.writes, cache.time_to_live, now),
        within_batch::<K, _>(
            cache.remove_all(cache.stale(now), 0).recency,
            cache.time_to_idle,
            now,
        ),
        cache.entries.contains_key(k),
    ensures
        cache.evict(now, released).entries.contains_key(k) <==> !cache.is_expired(k, now),
{
    let stale = cache.stale(now);
    let fresh = cache.remove_all(stale, 0);
    let idle = fresh.idle(now);
    cache.lemma_remove_all_ordered(stale, 0);
    laws::law_evict_only_expired(cache, now, released, k);
    if cache.evict(now, released).entries.contains_key(k) {
        laws::law_removal_keeps_others(cache, stale, 0, k);
        if cache.time_to_live is Some {
            let i = order::place(cache.writes, k);
            order::lemma_place_of::<K, _>(cache.writes, k);
            let n = order::leading_over::<K, _>(
                cache.writes,
                cache.time_to_live,
                now,
                model::EVICTION_BATCH_SIZE as nat,
            ) as int;
            order::lemma_leading_over::<K, _>(
                cache.writes,
                cache.time_to_live,
                now,
                model::EVICTION_BATCH_SIZE as nat,
            );
            if i < n {
                assert(cache.writes.take(n)[i].of() == k);
            }
            lemma_none_over_behind::<K, _>(cache.writes, cache.time_to_live, now, i);
        }
        lemma_without_in_order::<K, _>(cache.recency, stale, now);
        let i = order::place(fresh.recency, k);
        order::lemma_place_of::<K, _>(fresh.recency, k);
        let n = order::leading_over::<K, _>(
            fresh.recency,
            cache.time_to_idle,
            now,
            model::EVICTION_BATCH_SIZE as nat,
        ) as int;
        order::lemma_leading_over::<K, _>(
            fresh.recency,
            cache.time_to_idle,
            now,
            model::EVICTION_BATCH_SIZE as nat,
        );
        if i < n {
            assert(fresh.recency.take(n)[i].of() == k);
        }
        lemma_none_over_behind::<K, _>(fresh.recency, cache.time_to_idle, now, i);
    }
}

/// A node that carries the present time may come last.
proof fn lemma_push_in_order<K, T: Dated<K>>(s: Seq<T>, node: T, since: Instant, now: Instant)
    requires
        in_time_order::<K, T>(s, since),
        since.nanos <= now.nanos,
        node.when() == Some(now),
    ensures
        in_time_order::<K, T>(s.push(node), now),
{
}

/// So may one that was there before.
proof fn lemma_moved_in_order<K, T: Dated<K>>(
    s: Seq<T>,
    i: int,
    node: T,
    since: Instant,
    now: Instant,
)
    requires
        in_time_order::<K, T>(s, since),
        0 <= i < s.len(),
        since.nanos <= now.nanos,
        node.when() == Some(now),
    ensures
        in_time_order::<K, T>(s.remove(i).push(node), now),
{
    let rest = s.remove(i);
    assert forall|a: int| 0 <= a < rest.len() implies (#[trigger] rest[a]).when() is Some
        && rest[a].when()->0.nanos <= since.nanos by {
        assert(rest[a] == s[if a < i {
            a
        } else {
            a + 1
        }]);
    }
    assert forall|a: int, b: int| 0 <= a < b < rest.len() implies (
    #[trigger] rest[a]).when()->0.nanos <= (#[trigger] rest[b]).when()->0.nanos by {
        assert(rest[a] == s[if a < i {
            a
        } else {
            a + 1
        }]);
        assert(rest[b] == s[if b < i {
            b
        } else {
            b + 1
        }]);
    }
    lemma_push_in_order::<K, T>(rest, node, since, now);
}

/// Entries that leave do not disturb the order of the others.
proof fn lemma_removed_punctual<K, V>(
    cache: CacheView<K, V>,
    keys: Set<K>,
    released: nat,
    now: Instant,
)
    requires
        punctual(cache, now),
    ensures
        punctual(cache.remove_all(keys, released), now),
{
    lemma_without_in_order::<K, _>(cache.recency, keys, now);
    lemma_without_in_order::<K, _>(cache.writes, keys, now);
}

/// Operations whose times do not go back keep the entries in the order of their times.
pub proof fn law_operation_punctual<K, V>(
    operation: Operation<K, V>,
    before: CacheView<K, V>,
    after: CacheView<K, V>,
    since: Instant,
)
    requires
        before.wf(),
        before.has_expiry(),
        operation.makes(before, after),
        punctual(before, since),
        operation.time() matches Some(now) ==> since.nanos <= now.nanos,
    ensures
        punctual(
            after,
            match operation.time() {
                Some(now) => now,
                None => since,
            },
        ),
{
    match operation {
        Operation::Get { key, hash, timestamp, released, found } => {
            let now = timestamp->0;
            let evicted = before.evict(now, released);
            lemma_removed_punctual(before, before.found_expired(now), released, since);
            laws::law_evict_wf(before, timestamp, released);
            lemma_later::<K, _>(evicted.recency, since, now);
            lemma_later::<K, _>(evicted.writes, since, now);
            if evicted.lookup(key, timestamp) is Some {
                order::lemma_place_of::<K, _>(evicted.recency, key);
                lemma_moved_in_order::<K, _>(
                    evicted.recency,
                    order::place(evicted.recency, key),
                    after.recency.last(),
                    since,
                    now,
                );
            }
        },
        Operation::Insert { key, value, hash, timestamp, released, weight, old_weight, weights } => {
            let now = timestamp->0;
            let evicted = before.evict(now, released);
            lemma_removed_punctual(before, before.found_expired(now), released, since);
            laws::law_evict_wf(before, timestamp, released);
            lemma_later::<K, _>(evicted.recency, since, now);
            lemma_later::<K, _>(evicted.writes, since, now);
            if evicted.entries.contains_key(key) {
                order::lemma_place_of::<K, _>(evicted.recency, key);
                lemma_moved_in_order::<K, _>(
                    evicted.recency,
                    order::place(evicted.recency, key),
                    after.recency.last(),
                    since,
                    now,
                );
                if evicted.time_to_live is Some {
                    order::lemma_place_of::<K, _>(evicted.writes, key);
                    lemma_moved_in_order::<K, _>(
                        evicted.writes,
                        order::place(evicted.writes, key),
                        after.writes.last(),
                        since,
                        now,
                    );
                }
            } else if laws::lets_in(evicted, key, hash, weight, weights) {
                let smaller = if evicted.has_room(weight) {
                    evicted
                } else {
                    evicted.remove_all(
                        order::keys_of(evicted.recency.take(weights.len() as int)),
                        model::total(weights),
                    )
                };
                lemma_removed_punctual(
                    evicted,
                    order::keys_of(evicted.recency.take(weights.len() as int)),
                    model::total(weights),
                    since,
                );
                assert(punctual(smaller, since));
                lemma_push_in_order::<K, _>(smaller.recency, after.recency.last(), since, now);
                if evicted.time_to_live is Some {
                    lemma_push_in_order::<K, _>(smaller.writes, after.writes.last(), since, now);
                } else {
                    lemma_later::<K, _>(smaller.writes, since, now);
                }
            }
        },
        Operation::Invalidate { key, timestamp, released, discarded } => {
            let now = timestamp->0;
            let evicted = before.evict(now, released);
            lemma_removed_punctual(before, before.found_expired(now), released, since);
            lemma_removed_punctual(evicted, set![key], discarded, since);
            lemma_later::<K, _>(after.recency, since, now);
            lemma_later::<K, _>(after.writes, since, now);
        },
        Operation::InvalidateAll => {},
        Operation::InvalidateEntries { keys, released } => {
            lemma_removed_punctual(before, keys, released, since);
        },
        Operation::SetExpirationClock { .. } => {},
    }
}

/// The latest time that has been read before the operation at position `i`, if that was `start`
/// at first.
pub open spec fn latest<K, V>(operations: Seq<Operation<K, V>>, start: Instant, i: int) -> Instant
    decreases i,
{
    if i <= 0 {
        start
    } else {
        match operations[i - 1].time() {
            Some(now) => now,
            None => latest(operations, start, i - 1),
        }
    }
}

/// If the clock never goes back, the entries of a cache whose entries expire are always in the
/// order of their times.
pub proof fn law_course_punctual<K, V>(
    operations: Seq<Operation<K, V>>,
    states: Seq<CacheView<K, V>>,
    start: Instant,
    i: int,
)
    requires
        history::course(operations, states),
        states[0].wf(),
        states[0].has_expiry(),
        punctual(states[0], start),
        forall|j: int|
            0 <= j < operations.len() ==> ((#[trigger] operations[j]).time() matches Some(now)
                ==> latest(operations, start, j).nanos <= now.nanos),
        0 <= i < states.len(),
    ensures
        punctual(states[i], latest(operations, start, i)),
    decreases i,
{
    if i > 0 {
        law_course_punctual(operations, states, start, i - 1);
        history::law_course_wf(operations, states, i - 1);
        assert(operations[i - 1].makes(states[i - 1], states[i - 1 + 1]));
        law_operation_punctual(
            operations[i - 1],
            states[i - 1],
            states[i],
            latest(operations, start, i - 1),
        );
    }
}

} // verus!
