//! What the operations do, spelled out.
//!
//! The laws here speak of the values, lists and numbers of a cache before and after an
//! operation, and of nothing in between.

use crate::common::frequency_sketch;
use crate::common::time;
use crate::common::time::Instant;
use crate::unsync::entry;
use crate::unsync::entry::{Dated, KeyDate, KeyHashDate, Weigher};
use crate::unsync::expiry;
use crate::unsync::laws;
use crate::unsync::model;
use crate::unsync::model::CacheView;
use crate::unsync::order;
use std::rc::Rc;
use std::time::Duration;
use vstd::prelude::*;

verus! {

/// The sum of some numbers.
pub open spec fn sum(numbers: Seq<int>) -> int
    decreases numbers.len(),
{
    if numbers.len() == 0 {
        0
    } else {
        sum(numbers.drop_last()) + numbers.last()
    }
}

/// The sum of no number is zero, and one more number adds to it.
pub proof fn law_sum(numbers: Seq<int>, number: int)
    ensures
        sum(Seq::empty()) == 0,
        sum(numbers.push(number)) == sum(numbers) + number,
{
    assert(numbers.push(number).drop_last() =~= numbers);
}

/// How popular entries are together is the sum of how popular each is.
proof fn lemma_popularity_is_sum<K, V>(cache: CacheView<K, V>, n: nat)
    ensures
        cache.popularity(n) == sum(
            Seq::new(n, |i: int| cache.sketch.frequency(cache.recency[i].hash) as int),
        ),
    decreases n,
{
    let all = Seq::new(n, |i: int| cache.sketch.frequency(cache.recency[i].hash) as int);
    if n > 0 {
        let fewer = (n - 1) as nat;
        lemma_popularity_is_sum(cache, fewer);
        assert(all.drop_last() =~= Seq::new(
            fewer,
            |i: int| cache.sketch.frequency(cache.recency[i].hash) as int,
        ));
    }
}

/// Weights together are the sum of each.
pub proof fn lemma_total_is_sum(weights: Seq<u64>)
    ensures
        model::total(weights) == sum(Seq::new(weights.len(), |i: int| weights[i] as int)),
    decreases weights.len(),
{
    if weights.len() > 0 {
        let rest = weights.drop_last();
        lemma_total_is_sum(rest);
        assert(Seq::new(weights.len(), |i: int| weights[i] as int).drop_last() =~= Seq::new(
            rest.len(),
            |i: int| rest[i] as int,
        ));
    }
}

/// A filter keeps the same where it asks the same of every element.
proof fn lemma_filter_same<T>(s: Seq<T>, p: spec_fn(T) -> bool, q: spec_fn(T) -> bool)
    requires
        forall|i: int| 0 <= i < s.len() ==> p(#[trigger] s[i]) == q(s[i]),
    ensures
        s.filter(p) == s.filter(q),
    decreases s.len(),
{
    reveal(Seq::filter);
    if s.len() > 0 {
        let rest = s.drop_last();
        assert(s.last() == s[s.len() - 1]);
        assert forall|i: int| 0 <= i < rest.len() implies p(#[trigger] rest[i]) == q(rest[i]) by {
            assert(rest[i] == s[i]);
        }
        lemma_filter_same(rest, p, q);
    }
}

/// A cache that is made holds nothing, has the settings that were given, and has counted
/// nothing. Its estimator is made for as many hashes as it may hold entries, but for at least
/// 128.
pub proof fn law_made_as_asked<K, V>(
    max_capacity: Option<usize>,
    time_to_live: Option<Duration>,
    time_to_idle: Option<Duration>,
    weigher: Option<Weigher<K, V>>,
    hash: u64,
)
    ensures
        ({
            let cache = CacheView::new(max_capacity, time_to_live, time_to_idle, weigher);
            &&& cache.entries == Map::<K, V>::empty()
            &&& cache.recency == Seq::<KeyHashDate<K>>::empty()
            &&& cache.writes == Seq::<KeyDate<K>>::empty()
            &&& cache.weighted_size == 0
            &&& match max_capacity {
                Some(max) => cache.max_capacity is Some && cache.max_capacity->0 == max,
                None => cache.max_capacity is None,
            }
            &&& cache.time_to_live == time_to_live
            &&& cache.time_to_idle == time_to_idle
            &&& cache.weigher == weigher
            &&& cache.clock is None
            &&& cache.sketch.frequency(hash) == 0
            &&& cache.sketch.size == 0
        }),
        ({
            let sketch = CacheView::new(max_capacity, time_to_live, time_to_idle, weigher).sketch;
            let most: int = if usize::BITS == 32 {
                0x100_0000
            } else {
                0x4000_0000
            };
            let served: int = match max_capacity {
                Some(max) => if max < 128 {
                    128
                } else if max < most {
                    max as int
                } else {
                    most
                },
                None => most,
            };
            &&& served <= sketch.table.len() < 2 * served
            &&& sketch.table.len() <= most
            &&& exists|n: nat| sketch.table.len() == #[trigger] vstd::arithmetic::power2::pow2(n)
            &&& 10 * served <= 0x7fff_ffff ==> sketch.sample_size == 10 * served
            &&& 10 * served > 0x7fff_ffff ==> sketch.sample_size == 0x7fff_ffff
        }),
{
    let cap = model::sketch_capacity(max_capacity);
    frequency_sketch::law_fresh(cap, hash);
    frequency_sketch::law_sample_size(cap);
}

/// What is asked for is found exactly if it is held, and its time to live has not passed since
/// it was last written, and its time to idle has not passed since it was last used. Here `used`
/// and `written` are the places of its nodes in the lists.
pub proof fn law_get_result<K, V>(
    cache: CacheView<K, V>,
    k: K,
    hash: u64,
    timestamp: Option<Instant>,
    released: nat,
    value: Option<V>,
    after: CacheView<K, V>,
    used: int,
    written: int,
)
    requires
        cache.wf(),
        cache.gets(k, hash, timestamp, released, value, after),
        cache.entries.contains_key(k) ==> 0 <= used < cache.recency.len()
            && cache.recency[used].of() == k,
        cache.entries.contains_key(k) && cache.time_to_live is Some ==> 0 <= written
            < cache.writes.len() && cache.writes[written].of() == k,
    ensures
        timestamp is Some <==> cache.time_to_live is Some || cache.time_to_idle is Some,
        !cache.entries.contains_key(k) ==> value is None,
        cache.entries.contains_key(k) ==> ({
            let lived = timestamp matches Some(now) && cache.time_to_live matches Some(limit)
                && cache.writes[written].timestamp matches Some(since) && since.nanos
                + time::duration_nanos(limit) <= now.nanos;
            let idled = timestamp matches Some(now) && cache.time_to_idle matches Some(limit)
                && cache.recency[used].timestamp matches Some(since) && since.nanos
                + time::duration_nanos(limit) <= now.nanos;
            value == if lived || idled {
                None
            } else {
                Some(cache.entries[k])
            }
        }),
{
    laws::law_get_finds(cache, k, hash, timestamp, released, value, after);
    if cache.entries.contains_key(k) {
        order::lemma_place::<K, _>(cache.recency, used);
        if cache.time_to_live is Some {
            order::lemma_place::<K, _>(cache.writes, written);
        }
    }
}

/// Asking for a key, found or not, counts its hash once, changes no value and no setting. What
/// is found becomes the most recently used entry, with the time of the use. Where entries do not
/// expire, nothing else changes.
pub proof fn law_get_effect<K, V>(
    cache: CacheView<K, V>,
    k: K,
    hash: u64,
    timestamp: Option<Instant>,
    released: nat,
    value: Option<V>,
    after: CacheView<K, V>,
    used: int,
)
    requires
        cache.wf(),
        cache.gets(k, hash, timestamp, released, value, after),
        cache.entries.contains_key(k) ==> 0 <= used < cache.recency.len()
            && cache.recency[used].of() == k,
    ensures
        after.sketch == cache.sketch.increment(hash),
        after.max_capacity == cache.max_capacity,
        after.time_to_live == cache.time_to_live,
        after.time_to_idle == cache.time_to_idle,
        after.weigher == cache.weigher,
        after.clock == cache.clock,
        after.entries.submap_of(cache.entries),
        after.entries == cache.evict_at(timestamp, released).entries,
        after.weighted_size == cache.evict_at(timestamp, released).weighted_size,
        after.writes == cache.evict_at(timestamp, released).writes,
        value is None ==> after.recency == cache.evict_at(timestamp, released).recency,
        value is Some ==> after.recency.drop_last() == cache.evict_at(
            timestamp,
            released,
        ).recency.filter(|node: KeyHashDate<K>| node.of() != k),
        value matches Some(v) ==> {
            &&& after.entries.contains_key(k) && after.entries[k] == v
            &&& after.recency.len() > 0
            &&& after.recency.last().of() == k
            &&& after.recency.last().hash == cache.recency[used].hash
            &&& timestamp is Some ==> after.recency.last().timestamp == timestamp
        },
        cache.time_to_live is None && cache.time_to_idle is None ==> {
            &&& after.entries == cache.entries
            &&& after.weighted_size == cache.weighted_size
            &&& after.writes == cache.writes
            &&& value is Some ==> after.recency == cache.recency.remove(used).push(
                cache.recency[used],
            )
            &&& value is None ==> after.recency == cache.recency
        },
{
    laws::law_get_wf(cache, k, hash, timestamp, released, value, after);
    laws::law_evict_wf(cache, timestamp, released);
    let evicted = cache.evict_at(timestamp, released);
    assert(evicted.entries.submap_of(cache.entries));
    if cache.entries.contains_key(k) {
        order::lemma_place::<K, _>(cache.recency, used);
    }
    if value is Some {
        let i = order::place(evicted.recency, k);
        order::lemma_place_of::<K, _>(evicted.recency, k);
        if let Some(now) = timestamp {
            order::lemma_without::<K, _>(cache.recency, cache.found_expired(now));
            assert(evicted.recency.contains(evicted.recency[i]));
            let j = cache.recency.index_of(evicted.recency[i]);
            order::lemma_place::<K, _>(cache.recency, j);
        }
        assert(evicted.recency[i].hash == cache.recency[used].hash);
        order::lemma_without_one::<K, _>(evicted.recency, i);
        lemma_filter_same(
            evicted.recency,
            |node: KeyHashDate<K>| !set![k].contains(node.of()),
            |node: KeyHashDate<K>| node.of() != k,
        );
        assert(after.recency.drop_last() =~= evicted.recency.remove(i));
    }
}

/// No more nodes leave than there are keys to leave.
proof fn lemma_few_leave<K, V>(cache: CacheView<K, V>, keys: Set<K>)
    requires
        cache.ordered(),
        keys.finite(),
    ensures
        cache.recency.len() - order::without(cache.recency, keys).len() <= keys.len(),
{
    let left = order::without(cache.recency, keys);
    let all = order::keys_of::<K, _>(cache.recency);
    let kept = order::keys_of::<K, _>(left);
    order::lemma_without::<K, _>(cache.recency, keys);
    order::lemma_keys_len::<K, _>(cache.recency);
    order::lemma_keys_len::<K, _>(left);
    vstd::set_lib::lemma_len_union(kept, keys);
    assert(all.subset_of(kept.union(keys)));
    vstd::set_lib::lemma_len_subset(all, kept.union(keys));
}

/// The keys of some of the first nodes of a list are as many.
proof fn lemma_front_keys<K, T: Dated<K>>(s: Seq<T>, n: nat)
    requires
        order::distinct::<K, T>(s),
        n <= s.len(),
    ensures
        order::keys_of::<K, T>(s.take(n as int)).finite(),
        order::keys_of::<K, T>(s.take(n as int)).len() == n,
{
    let front = s.take(n as int);
    assert forall|i: int, j: int|
        0 <= i < front.len() && 0 <= j < front.len() && i != j implies (#[trigger] front[i]).of()
        != (#[trigger] front[j]).of() by {
        assert(s[i].of() != s[j].of());
    }
    order::lemma_keys_len::<K, T>(front);
}

/// A look for expired entries takes out none whose time to live and time to idle have not
/// passed. What stays keeps its value and its place in the order, no setting changes and nothing
/// is counted. At most 100 entries leave for each of the two reasons.
pub proof fn law_evict_effect<K, V>(
    cache: CacheView<K, V>,
    now: Instant,
    released: nat,
    k: K,
    used: int,
    written: int,
)
    requires
        cache.wf(),
        cache.may_evict(Some(now), released),
        cache.entries.contains_key(k),
        0 <= used < cache.recency.len(),
        cache.recency[used].of() == k,
        cache.time_to_live is Some ==> 0 <= written < cache.writes.len()
            && cache.writes[written].of() == k,
    ensures
        ({
            let after = cache.evict_at(Some(now), released);
            let lived = cache.time_to_live matches Some(limit)
                && cache.writes[written].timestamp matches Some(since) && since.nanos
                + time::duration_nanos(limit) <= now.nanos;
            let idled = cache.time_to_idle matches Some(limit)
                && cache.recency[used].timestamp matches Some(since) && since.nanos
                + time::duration_nanos(limit) <= now.nanos;
            &&& !lived && !idled ==> after.entries.contains_key(k)
            &&& after.entries.submap_of(cache.entries)
            &&& after.recency == cache.recency.filter(
                |node: KeyHashDate<K>| after.entries.contains_key(node.of()),
            )
            &&& after.writes == cache.writes.filter(
                |node: KeyDate<K>| after.entries.contains_key(node.of()),
            )
            &&& after.sketch == cache.sketch
            &&& after.max_capacity == cache.max_capacity
            &&& after.time_to_live == cache.time_to_live
            &&& after.time_to_idle == cache.time_to_idle
            &&& after.weigher == cache.weigher
            &&& after.clock == cache.clock
            &&& cache.recency.len() - after.recency.len() <= 200
            &&& cache.time_to_live is None || cache.time_to_idle is None ==> cache.recency.len()
                - after.recency.len() <= 100
            &&& cache.weigher is None && cache.max_capacity is Some ==> cache.weighted_size
                - after.weighted_size == cache.recency.len() - after.recency.len()
        }),
{
    let after = cache.evict_at(Some(now), released);
    let gone = cache.found_expired(now);
    let stale = cache.stale(now);
    let fresh = cache.remove_all(stale, 0);
    let idle = fresh.idle(now);
    laws::law_evict_only_expired(cache, now, released, k);
    laws::law_evict_wf(cache, Some(now), released);
    order::lemma_place::<K, _>(cache.recency, used);
    if cache.time_to_live is Some {
        order::lemma_place::<K, _>(cache.writes, written);
    }
    assert forall|i: int| 0 <= i < cache.recency.len() implies !gone.contains(
        (#[trigger] cache.recency[i]).of(),
    ) == after.entries.contains_key(cache.recency[i].of()) by {
        order::lemma_place::<K, _>(cache.recency, i);
    }
    lemma_filter_same(
        cache.recency,
        |node: KeyHashDate<K>| !gone.contains(node.of()),
        |node: KeyHashDate<K>| after.entries.contains_key(node.of()),
    );
    assert forall|i: int| 0 <= i < cache.writes.len() implies !gone.contains(
        (#[trigger] cache.writes[i]).of(),
    ) == after.entries.contains_key(cache.writes[i].of()) by {
        order::lemma_place::<K, _>(cache.writes, i);
    }
    lemma_filter_same(
        cache.writes,
        |node: KeyDate<K>| !gone.contains(node.of()),
        |node: KeyDate<K>| after.entries.contains_key(node.of()),
    );
    cache.lemma_remove_all_ordered(stale, 0);
    let n = order::leading_over::<K, _>(
        cache.writes,
        cache.time_to_live,
        now,
        model::EVICTION_BATCH_SIZE as nat,
    );
    order::lemma_leading_over::<K, _>(
        cache.writes,
        cache.time_to_live,
        now,
        model::EVICTION_BATCH_SIZE as nat,
    );
    lemma_front_keys::<K, _>(cache.writes, n);
    let m = order::leading_over::<K, _>(
        fresh.recency,
        fresh.time_to_idle,
        now,
        model::EVICTION_BATCH_SIZE as nat,
    );
    order::lemma_leading_over::<K, _>(
        fresh.recency,
        fresh.time_to_idle,
        now,
        model::EVICTION_BATCH_SIZE as nat,
    );
    lemma_front_keys::<K, _>(fresh.recency, m);
    vstd::set_lib::lemma_len_union(stale, idle);
    lemma_few_leave(cache, gone);
    if cache.time_to_live is None {
        cache.lemma_stale_none(now);
        assert(gone =~= idle);
    }
    if cache.time_to_idle is None {
        fresh.lemma_idle_none(now);
        assert(gone =~= stale);
    }
    if cache.weigher is None {
        cache.lemma_may_release_ones(gone, released);
    }
}

/// A node that stays was not further ahead before.
proof fn lemma_without_later<K, T: Dated<K>>(s: Seq<T>, keys: Set<K>, i: int) -> (j: int)
    requires
        0 <= i < order::without(s, keys).len(),
    ensures
        i <= j < s.len(),
        s[j] == order::without(s, keys)[i],
    decreases s.len(),
{
    reveal(Seq::filter);
    let rest = s.drop_last();
    let shorter = order::without(rest, keys);
    if i < shorter.len() {
        let j = lemma_without_later::<K, T>(rest, keys, i);
        assert(s[j] == rest[j]);
        j
    } else {
        order::lemma_without::<K, T>(rest, keys);
        s.len() - 1
    }
}

/// If the clock never went back, so that the lists are in the order of their times, a look for
/// expired entries takes out every one, as long as no more than 100 have expired for each of the
/// two reasons.
pub proof fn law_evict_takes_all<K, V>(
    cache: CacheView<K, V>,
    now: Instant,
    released: nat,
    k: K,
    used: int,
    written: int,
)
    requires
        cache.wf(),
        cache.may_evict(Some(now), released),
        cache.entries.contains_key(k),
        0 <= used < cache.recency.len(),
        cache.recency[used].of() == k,
        cache.time_to_live is Some ==> 0 <= written < cache.writes.len()
            && cache.writes[written].of() == k,
        forall|i: int|
            0 <= i < cache.recency.len() ==> (#[trigger] cache.recency[i]).timestamp is Some
                && cache.recency[i].timestamp->0.nanos <= now.nanos,
        forall|i: int, j: int|
            0 <= i < j < cache.recency.len() ==> (#[trigger] cache.recency[i]).timestamp->0.nanos
                <= (#[trigger] cache.recency[j]).timestamp->0.nanos,
        forall|i: int|
            0 <= i < cache.writes.len() ==> (#[trigger] cache.writes[i]).timestamp is Some
                && cache.writes[i].timestamp->0.nanos <= now.nanos,
        forall|i: int, j: int|
            0 <= i < j < cache.writes.len() ==> (#[trigger] cache.writes[i]).timestamp->0.nanos
                <= (#[trigger] cache.writes[j]).timestamp->0.nanos,
        cache.time_to_live is Some && cache.writes.len() > 100 ==> cache.writes[100].timestamp->0.nanos
            + time::duration_nanos(cache.time_to_live->0) > now.nanos,
        cache.time_to_idle is Some && cache.recency.len() > 100
            ==> cache.recency[100].timestamp->0.nanos + time::duration_nanos(
            cache.time_to_idle->0,
        ) > now.nanos,
    ensures
        cache.evict_at(Some(now), released).entries.contains_key(k) <==> {
            &&& cache.time_to_live is Some ==> cache.writes[written].timestamp->0.nanos
                + time::duration_nanos(cache.time_to_live->0) > now.nanos
            &&& cache.time_to_idle is Some ==> cache.recency[used].timestamp->0.nanos
                + time::duration_nanos(cache.time_to_idle->0) > now.nanos
        },
{
    let fresh = cache.remove_all(cache.stale(now), 0);
    order::lemma_place::<K, _>(cache.recency, used);
    if cache.time_to_live is Some {
        order::lemma_place::<K, _>(cache.writes, written);
    }
    assert(expiry::in_time_order::<K, _>(cache.recency, now));
    assert(expiry::in_time_order::<K, _>(cache.writes, now));
    assert(expiry::within_batch::<K, _>(cache.writes, cache.time_to_live, now));
    if cache.time_to_idle is Some && fresh.recency.len() > 100 {
        let j = lemma_without_later::<K, _>(cache.recency, cache.stale(now), 100);
        if j > 100 {
            assert(cache.recency[100].timestamp->0.nanos <= cache.recency[j].timestamp->0.nanos);
        }
    }
    assert(expiry::within_batch::<K, _>(fresh.recency, cache.time_to_idle, now));
    expiry::law_evict_thorough(cache, now, released, k);
}

/// An entry weighs what the weigher says of its key and value, and one where there is no
/// weigher. So do the entry that it replaces and the entries that might leave for it.
pub proof fn law_weighed_as_asked<K, V>(
    cache: CacheView<K, V>,
    k: K,
    v: V,
    hash: u64,
    timestamp: Option<Instant>,
    weight: u64,
    old_weight: u64,
    weights: Seq<u64>,
    after: CacheView<K, V>,
    i: int,
)
    requires
        cache.inserts(k, v, hash, timestamp, weight, old_weight, weights, after),
    ensures
        match cache.weigher {
            Some(weigher) => weigher.weighs(k, v, weight),
            None => weight == 1,
        },
        cache.entries.contains_key(k) ==> match cache.weigher {
            Some(weigher) => weigher.weighs(k, cache.entries[k], old_weight),
            None => old_weight == 1,
        },
        !cache.entries.contains_key(k) && (cache.max_capacity matches Some(max) && weight <= max
            && cache.weighted_size + weight > max) && 0 <= i < weights.len() ==> {
            &&& i < cache.recency.len()
            &&& match cache.weigher {
                Some(weigher) => weigher.weighs(
                    cache.recency[i].of(),
                    cache.entries[cache.recency[i].of()],
                    weights[i],
                ),
                None => weights[i] == 1,
            }
        },
{
    if !cache.entries.contains_key(k) && !cache.has_room(weight) && !cache.too_heavy(weight) && 0
        <= i < weights.len() {
        assert(entry::may_weigh(
            cache.weigher,
            cache.recency[i].of(),
            cache.entries[cache.recency[i].of()],
            weights[i],
        ));
    }
}

/// Where the entries are weighed by a function of the user's, an entry that is put in weighs
/// what that function returns for it.
pub proof fn law_weighed_by<K, V, F: FnMut(&K, &V) -> u64>(
    cache: CacheView<K, V>,
    k: K,
    v: V,
    hash: u64,
    timestamp: Option<Instant>,
    weight: u64,
    old_weight: u64,
    weights: Seq<u64>,
    after: CacheView<K, V>,
    weigher: F,
)
    requires
        cache.inserts(k, v, hash, timestamp, weight, old_weight, weights, after),
        cache.weigher matches Some(w) && forall|key: K, value: V, x: u64| #[trigger]
            w.weighs(key, value, x) <==> call_ensures(weigher, (&key, &value), x),
    ensures
        call_ensures(weigher, (&k, &v), weight),
        cache.entries.contains_key(k) ==> call_ensures(
            weigher,
            (&k, &cache.entries[k]),
            old_weight,
        ),
{
    let w = cache.weigher->0;
    assert(w.weighs(k, v, weight));
    if cache.entries.contains_key(k) {
        assert(w.weighs(k, cache.entries[k], old_weight));
    }
}

/// Putting in a value for a key that is held replaces the value, makes the entry the most
/// recently used and written one, records the time, and exchanges the weight. Nothing else
/// changes. Here `used` and `written` are the places of the entry's nodes in the lists.
pub proof fn law_replace_effect<K, V>(
    cache: CacheView<K, V>,
    k: K,
    v: V,
    hash: u64,
    timestamp: Option<Instant>,
    weight: u64,
    old_weight: u64,
    weights: Seq<u64>,
    after: CacheView<K, V>,
    used: int,
    written: int,
)
    requires
        cache.wf(),
        cache.inserts(k, v, hash, timestamp, weight, old_weight, weights, after),
        cache.entries.contains_key(k),
        0 <= used < cache.recency.len(),
        cache.recency[used].of() == k,
        cache.time_to_live is Some ==> 0 <= written < cache.writes.len()
            && cache.writes[written].of() == k,
    ensures
        after.entries == cache.entries.insert(k, v),
        after.recency == cache.recency.remove(used).push(
            KeyHashDate {
                key: cache.recency[used].key,
                hash: cache.recency[used].hash,
                timestamp: if timestamp is Some {
                    timestamp
                } else {
                    cache.recency[used].timestamp
                },
            },
        ),
        cache.time_to_live is Some ==> after.writes == cache.writes.remove(written).push(
            KeyDate {
                key: cache.writes[written].key,
                timestamp: if timestamp is Some {
                    timestamp
                } else {
                    cache.writes[written].timestamp
                },
            },
        ),
        cache.time_to_live is None ==> after.writes == cache.writes,
        old_weight <= cache.weighted_size && cache.weighted_size - old_weight + weight <= u64::MAX
            ==> after.weighted_size == cache.weighted_size - old_weight + weight,
        old_weight <= cache.weighted_size && cache.weighted_size - old_weight + weight > u64::MAX
            ==> after.weighted_size == u64::MAX,
        old_weight > cache.weighted_size ==> after.weighted_size == weight,
        after.sketch == cache.sketch,
        after.max_capacity == cache.max_capacity,
        after.time_to_live == cache.time_to_live,
        after.time_to_idle == cache.time_to_idle,
        after.weigher == cache.weigher,
        after.clock == cache.clock,
{
    order::lemma_place::<K, _>(cache.recency, used);
    if cache.time_to_live is Some {
        order::lemma_place::<K, _>(cache.writes, written);
    }
}

/// A new entry whose weight fits in beside what is accounted for, or one in a cache without a
/// capacity, is always stored, as the most recently used and written one, and no other entry
/// leaves. Nothing else changes.
pub proof fn law_room_effect<K, V>(
    cache: CacheView<K, V>,
    k: K,
    v: V,
    hash: u64,
    timestamp: Option<Instant>,
    weight: u64,
    old_weight: u64,
    weights: Seq<u64>,
    after: CacheView<K, V>,
)
    requires
        cache.inserts(k, v, hash, timestamp, weight, old_weight, weights, after),
        !cache.entries.contains_key(k),
        cache.max_capacity matches Some(max) ==> cache.weighted_size + weight <= max,
    ensures
        after.entries == cache.entries.insert(k, v),
        after.recency == cache.recency.push(KeyHashDate { key: Rc::new(k), hash, timestamp }),
        cache.time_to_live is Some ==> after.writes == cache.writes.push(
            KeyDate { key: Rc::new(k), timestamp },
        ),
        cache.time_to_live is None ==> after.writes == cache.writes,
        cache.weighted_size + weight <= u64::MAX ==> after.weighted_size == cache.weighted_size
            + weight,
        cache.weighted_size + weight > u64::MAX ==> after.weighted_size == u64::MAX,
        after.sketch == cache.sketch,
        after.max_capacity == cache.max_capacity,
        after.time_to_live == cache.time_to_live,
        after.time_to_idle == cache.time_to_idle,
        after.weigher == cache.weigher,
        after.clock == cache.clock,
{
}

/// A new entry that does not fit in is refused, and then nothing changes, or it is let in in
/// place of the least recently used entries. Then it is no heavier than the capacity, those that
/// leave make enough room, one fewer would not, and it has been asked for more often than all of
/// them together. Exactly they leave.
pub proof fn law_full_effect<K, V>(
    cache: CacheView<K, V>,
    k: K,
    v: V,
    hash: u64,
    timestamp: Option<Instant>,
    weight: u64,
    old_weight: u64,
    weights: Seq<u64>,
    after: CacheView<K, V>,
    max: u64,
    other: K,
)
    requires
        cache.wf(),
        cache.inserts(k, v, hash, timestamp, weight, old_weight, weights, after),
        !cache.entries.contains_key(k),
        cache.max_capacity == Some(max),
        cache.weighted_size + weight > max,
    ensures
        !after.entries.contains_key(k) ==> after == cache,
        after.entries.contains_key(k) ==> {
            let n = cache.recency.len() + 1 - after.recency.len();
            let room = sum(Seq::new(weights.len(), |i: int| weights[i] as int));
            &&& n == weights.len() <= cache.recency.len()
            &&& weight <= max
            &&& weight <= room
            &&& n > 0 ==> sum(Seq::new((n - 1) as nat, |i: int| weights[i] as int)) < weight
            &&& cache.sketch.frequency(hash) > sum(
                Seq::new(n as nat, |i: int| cache.sketch.frequency(cache.recency[i].hash) as int),
            )
            &&& after.entries[k] == v
            &&& other != k ==> (after.entries.contains_key(other) <==> cache.entries.contains_key(
                other,
            ) && forall|i: int| 0 <= i < n ==> (#[trigger] cache.recency[i]).of() != other)
            &&& other != k && after.entries.contains_key(other) ==> after.entries[other]
                == cache.entries[other]
            &&& after.recency == cache.recency.skip(n).push(
                KeyHashDate { key: Rc::new(k), hash, timestamp },
            )
            &&& cache.time_to_live is Some ==> after.writes.len() > 0 && after.writes.last() == (
            KeyDate { key: Rc::new(k), timestamp }) && after.writes.drop_last()
                == cache.writes.filter(
                |node: KeyDate<K>| node.of() != k && after.entries.contains_key(node.of()),
            )
            &&& room <= cache.weighted_size ==> after.weighted_size == cache.weighted_size - room
                + weight
            &&& room > cache.weighted_size ==> after.weighted_size == weight
            &&& cache.time_to_live is None ==> after.writes.len() == 0
            &&& after.sketch == cache.sketch
            &&& after.max_capacity == cache.max_capacity
            &&& after.time_to_live == cache.time_to_live
            &&& after.time_to_idle == cache.time_to_idle
            &&& after.weigher == cache.weigher
            &&& after.clock == cache.clock
        },
{
    laws::law_insert_stores(cache, k, v, hash, timestamp, weight, old_weight, weights, after);
    if after.entries.contains_key(k) {
        let n = weights.len();
        let victims = order::keys_of(cache.recency.take(n as int));
        let smaller = cache.remove_all(victims, model::total(weights));
        laws::law_admission(cache, k, v, hash, timestamp, weight, old_weight, weights, after);
        order::lemma_without_front::<K, _>(cache.recency, n as int);
        lemma_popularity_is_sum(cache, n);
        lemma_total_is_sum(weights);
        if n > 0 {
            let fewer = weights.drop_last();
            lemma_total_is_sum(fewer);
            assert(Seq::new(fewer.len(), |i: int| fewer[i] as int) =~= Seq::new(
                (n - 1) as nat,
                |i: int| weights[i] as int,
            ));
        }
        if other != k && cache.entries.contains_key(other) {
            let front = cache.recency.take(n as int);
            if victims.contains(other) {
                let i = order::place(front, other);
                assert(cache.recency[i].of() == other);
            } else {
                assert forall|i: int| 0 <= i < n implies (#[trigger] cache.recency[i]).of()
                    != other by {
                    assert(front[i] == cache.recency[i]);
                }
            }
        }
        if cache.time_to_live is Some {
            assert forall|i: int| 0 <= i < cache.writes.len() implies !victims.contains(
                (#[trigger] cache.writes[i]).of(),
            ) == (cache.writes[i].of() != k && after.entries.contains_key(
                cache.writes[i].of(),
            )) by {
                order::lemma_place::<K, _>(cache.writes, i);
            }
            lemma_filter_same(
                cache.writes,
                |node: KeyDate<K>| !victims.contains(node.of()),
                |node: KeyDate<K>| node.of() != k && after.entries.contains_key(node.of()),
            );
            assert(after.writes.drop_last() =~= smaller.writes);
        }
        assert(after.recency =~= cache.recency.skip(n as int).push(
            KeyHashDate { key: Rc::new(k), hash, timestamp },
        ));
    }
}

/// More numbers that are not negative do not have a lesser sum.
proof fn lemma_sum_grows(number: spec_fn(int) -> int, m: nat, n: nat)
    requires
        m <= n,
        forall|i: int| 0 <= i < n ==> #[trigger] number(i) >= 0,
    ensures
        sum(Seq::new(m, number)) <= sum(Seq::new(n, number)),
    decreases n,
{
    if m < n {
        let fewer = (n - 1) as nat;
        lemma_sum_grows(number, m, fewer);
        assert(Seq::new(n, number).drop_last() =~= Seq::new(fewer, number));
        assert(number(fewer as int) >= 0);
    }
}

/// What the least recently used entries weigh, as far as a search has come.
proof fn lemma_weights_are<K, V>(
    cache: CacheView<K, V>,
    weights: Seq<u64>,
    weight_of: spec_fn(K, V) -> u64,
    m: int,
)
    requires
        entry::weighs_by(cache.weigher, weight_of),
        cache.may_weigh_oldest(weights),
        0 <= m <= weights.len(),
    ensures
        model::total(weights.take(m)) == sum(
            Seq::new(
                m as nat,
                |i: int|
                    weight_of(cache.recency[i].of(), cache.entries[cache.recency[i].of()]) as int,
            ),
        ),
{
    let front = weights.take(m);
    let all = Seq::new(
        m as nat,
        |i: int| weight_of(cache.recency[i].of(), cache.entries[cache.recency[i].of()]) as int,
    );
    lemma_total_is_sum(front);
    assert forall|i: int| 0 <= i < m implies front[i] == #[trigger] all[i] by {
        assert(entry::may_weigh(
            cache.weigher,
            cache.recency[i].of(),
            cache.entries[cache.recency[i].of()],
            weights[i],
        ));
    }
    assert(Seq::new(front.len(), |i: int| front[i] as int) =~= all);
}

/// What each of the `n` least recently used entries weighs.
spec fn oldest<K, V>(cache: CacheView<K, V>, weight_of: spec_fn(K, V) -> u64, n: nat) -> Seq<int> {
    Seq::new(
        n,
        |i: int| weight_of(cache.recency[i].of(), cache.entries[cache.recency[i].of()]) as int,
    )
}

/// More of the least recently used entries do not weigh less.
proof fn lemma_oldest_grow<K, V>(
    cache: CacheView<K, V>,
    weight_of: spec_fn(K, V) -> u64,
    m: nat,
    n: nat,
)
    requires
        m <= n,
    ensures
        sum(oldest(cache, weight_of, m)) <= sum(oldest(cache, weight_of, n)),
{
    let number = |i: int|
        weight_of(cache.recency[i].of(), cache.entries[cache.recency[i].of()]) as int;
    lemma_sum_grows(number, m, n);
    assert(Seq::new(m, number) =~= oldest(cache, weight_of, m));
    assert(Seq::new(n, number) =~= oldest(cache, weight_of, n));
}

/// Where `n` is the least number of entries that make enough room, the search for entries to
/// leave lets the new one in exactly if it is more popular than those.
proof fn lemma_search_result<K, V>(
    cache: CacheView<K, V>,
    weights: Seq<u64>,
    weight: u64,
    frequency: nat,
    weight_of: spec_fn(K, V) -> u64,
    n: nat,
)
    requires
        entry::weighs_by(cache.weigher, weight_of),
        cache.search_ends(weights, weight, frequency),
        cache.recency.len() <= usize::MAX / 64,
        n <= cache.recency.len(),
        n > 0 ==> sum(oldest(cache, weight_of, (n - 1) as nat)) < weight,
        n < cache.recency.len() ==> sum(oldest(cache, weight_of, n)) >= weight,
    ensures
        cache.admits(weights, weight, frequency) <==> sum(oldest(cache, weight_of, n)) >= weight
            && frequency > cache.popularity(n),
        cache.admits(weights, weight, frequency) ==> weights.len() == n,
{
    let l = weights.len();
    lemma_weights_are(cache, weights, weight_of, l as int);
    assert(weights.take(l as int) =~= weights);
    assert(model::total(weights) == sum(oldest(cache, weight_of, l)));
    if l > n {
        lemma_weights_are(cache, weights, weight_of, n as int);
        assert(cache.searches_on(weights.take(n as int), weight, frequency));
    } else if l < n {
        lemma_oldest_grow(cache, weight_of, l, (n - 1) as nat);
        laws::lemma_popularity(cache, l, n);
    }
}

/// Where nothing weighs the entries each weighs one, and where something does, each weighs what
/// that says.
pub proof fn lemma_weighs_by<K, V>(
    weigher: Option<Weigher<K, V>>,
    weight_of: spec_fn(K, V) -> u64,
)
    requires
        match weigher {
            Some(weigher) => forall|a: K, b: V, x: u64| #[trigger]
                weigher.weighs(a, b, x) ==> x == weight_of(a, b),
            None => forall|a: K, b: V| #[trigger] weight_of(a, b) == 1,
        },
    ensures
        entry::weighs_by(weigher, weight_of),
{
    assert forall|a: K, b: V, x: u64| #[trigger] entry::may_weigh(weigher, a, b, x) implies x
        == weight_of(a, b) by {
        if weigher is None {
            assert(weight_of(a, b) == 1);
        }
    }
}

/// Whether a new entry that does not fit in is let in.
proof fn lemma_admission_exact<K, V>(
    cache: CacheView<K, V>,
    k: K,
    v: V,
    hash: u64,
    timestamp: Option<Instant>,
    weight: u64,
    old_weight: u64,
    weights: Seq<u64>,
    after: CacheView<K, V>,
    max: u64,
    weight_of: spec_fn(K, V) -> u64,
    n: nat,
)
    requires
        cache.wf(),
        cache.inserts(k, v, hash, timestamp, weight, old_weight, weights, after),
        !cache.entries.contains_key(k),
        cache.max_capacity == Some(max),
        cache.weighted_size + weight > max,
        entry::weighs_by(cache.weigher, weight_of),
        cache.recency.len() <= usize::MAX / 64,
        n <= cache.recency.len(),
        n > 0 ==> sum(oldest(cache, weight_of, (n - 1) as nat)) < weight_of(k, v),
        n < cache.recency.len() ==> sum(oldest(cache, weight_of, n)) >= weight_of(k, v),
    ensures
        after.entries.contains_key(k) <==> {
            &&& weight_of(k, v) <= max
            &&& sum(oldest(cache, weight_of, n)) >= weight_of(k, v)
            &&& cache.sketch.frequency(hash) > cache.popularity(n)
        },
        after.entries.contains_key(k) ==> after.recency.len() == cache.recency.len() - n + 1,
        !after.entries.contains_key(k) ==> after == cache,
{
    assert(entry::may_weigh(cache.weigher, k, v, weight));
    assert(weight == weight_of(k, v));
    laws::law_insert_stores(cache, k, v, hash, timestamp, weight, old_weight, weights, after);
    if weight <= max {
        let frequency = cache.sketch.frequency(hash);
        lemma_search_result(cache, weights, weight, frequency, weight_of, n);
        if after.entries.contains_key(k) {
            laws::law_admission(cache, k, v, hash, timestamp, weight, old_weight, weights, after);
            assert(after.recency.len() == after.recency.drop_last().len() + 1);
        }
    }
}

/// A new entry that does not fit in is let in exactly if it is no heavier than the capacity and
/// has been asked for more often than the `n` least recently used entries together, where `n` is
/// the least number of them that make enough room. Exactly those leave. If all entries together
/// do not make enough room, it is refused.
///
/// This is for a weigher that always gives the same weight to the same key and value.
pub proof fn law_admission_exact<K, V>(
    cache: CacheView<K, V>,
    k: K,
    v: V,
    hash: u64,
    timestamp: Option<Instant>,
    weight: u64,
    old_weight: u64,
    weights: Seq<u64>,
    after: CacheView<K, V>,
    max: u64,
    weight_of: spec_fn(K, V) -> u64,
    n: int,
)
    requires
        cache.wf(),
        cache.inserts(k, v, hash, timestamp, weight, old_weight, weights, after),
        !cache.entries.contains_key(k),
        cache.max_capacity == Some(max),
        cache.weighted_size + weight > max,
        match cache.weigher {
            Some(weigher) => forall|a: K, b: V, x: u64| #[trigger]
                weigher.weighs(a, b, x) ==> x == weight_of(a, b),
            None => forall|a: K, b: V| #[trigger] weight_of(a, b) == 1,
        },
        cache.recency.len() <= usize::MAX / 64,
        0 <= n <= cache.recency.len(),
        n > 0 ==> sum(
            Seq::new(
                (n - 1) as nat,
                |i: int|
                    weight_of(cache.recency[i].of(), cache.entries[cache.recency[i].of()]) as int,
            ),
        ) < weight_of(k, v),
        n < cache.recency.len() ==> sum(
            Seq::new(
                n as nat,
                |i: int|
                    weight_of(cache.recency[i].of(), cache.entries[cache.recency[i].of()]) as int,
            ),
        ) >= weight_of(k, v),
    ensures
        after.entries.contains_key(k) <==> {
            &&& weight_of(k, v) <= max
            &&& sum(
                Seq::new(
                    n as nat,
                    |i: int|
                        weight_of(
                            cache.recency[i].of(),
                            cache.entries[cache.recency[i].of()],
                        ) as int,
                ),
            ) >= weight_of(k, v)
            &&& cache.sketch.frequency(hash) > sum(
                Seq::new(n as nat, |i: int| cache.sketch.frequency(cache.recency[i].hash) as int),
            )
        },
        after.entries.contains_key(k) ==> after.recency.len() == cache.recency.len() - n + 1,
        !after.entries.contains_key(k) ==> after == cache,
{
    lemma_weighs_by(cache.weigher, weight_of);
    lemma_popularity_is_sum(cache, n as nat);
    lemma_admission_exact(
        cache,
        k,
        v,
        hash,
        timestamp,
        weight,
        old_weight,
        weights,
        after,
        max,
        weight_of,
        n as nat,
    );
}

/// Where nothing weighs the entries, a new entry is let into a full cache exactly if it has been
/// asked for more often than the least recently used entry. That one leaves for it, and no
/// other. Otherwise nothing changes.
pub proof fn law_one_for_one<K, V>(
    cache: CacheView<K, V>,
    k: K,
    v: V,
    hash: u64,
    timestamp: Option<Instant>,
    weight: u64,
    old_weight: u64,
    weights: Seq<u64>,
    after: CacheView<K, V>,
    max: u64,
)
    requires
        cache.wf(),
        cache.inserts(k, v, hash, timestamp, weight, old_weight, weights, after),
        cache.weigher is None,
        !cache.entries.contains_key(k),
        cache.max_capacity == Some(max),
        0 < max == cache.recency.len(),
    ensures
        cache.sketch.frequency(hash) > cache.sketch.frequency(cache.recency[0].hash) ==> {
            &&& after.entries == cache.entries.remove(cache.recency[0].of()).insert(k, v)
            &&& after.recency == cache.recency.skip(1).push(
                KeyHashDate { key: Rc::new(k), hash, timestamp },
            )
            &&& after.weighted_size == cache.weighted_size
        },
        cache.sketch.frequency(hash) <= cache.sketch.frequency(cache.recency[0].hash) ==> after
            == cache,
{
    let frequency = cache.sketch.frequency(hash);
    laws::law_insert_stores(cache, k, v, hash, timestamp, weight, old_weight, weights, after);
    assert(weight == 1);
    assert(cache.search_ends(weights, weight, frequency));
    assert forall|i: int| 0 <= i < weights.len() implies #[trigger] weights[i] == 1 by {
        assert(entry::may_weigh(
            cache.weigher,
            cache.recency[i].of(),
            cache.entries[cache.recency[i].of()],
            weights[i],
        ));
    }
    model::lemma_total_of_ones(weights);
    if weights.len() > 1 {
        assert forall|i: int| 0 <= i < 1 implies #[trigger] weights.take(1)[i] == 1 by {
            assert(weights[i] == 1);
        }
        model::lemma_total_of_ones(weights.take(1));
        assert(cache.searches_on(weights.take(1), weight, frequency));
    }
    assert(cache.popularity(0) == 0);
    assert(cache.popularity(1) == cache.popularity(0) + cache.sketch.frequency(
        cache.recency[0].hash,
    ));
    assert(weights.len() == 1);
    if frequency > cache.sketch.frequency(cache.recency[0].hash) {
        order::lemma_without_front::<K, _>(cache.recency, 1);
        let front = cache.recency.take(1);
        assert(order::keys_of::<K, _>(front) =~= set![cache.recency[0].of()]) by {
            assert(front[0] == cache.recency[0]);
        }
        assert(after.entries =~= cache.entries.remove(cache.recency[0].of()).insert(k, v));
        assert(after.recency =~= cache.recency.skip(1).push(
            KeyHashDate { key: Rc::new(k), hash, timestamp },
        ));
    }
}

/// A cache that may hold nothing stays as it is.
pub proof fn law_no_capacity<K, V>(
    cache: CacheView<K, V>,
    k: K,
    v: V,
    hash: u64,
    timestamp: Option<Instant>,
    weight: u64,
    old_weight: u64,
    weights: Seq<u64>,
    after: CacheView<K, V>,
)
    requires
        cache.wf(),
        cache.inserts(k, v, hash, timestamp, weight, old_weight, weights, after),
        cache.weigher is None,
        cache.max_capacity == Some(0u64),
    ensures
        after == cache,
{
    order::lemma_keys_len::<K, _>(cache.recency);
    if cache.entries.contains_key(k) {
        order::lemma_place_of::<K, _>(cache.recency, k);
    }
}

/// What has been discarded is held no more, and takes its weight with it. All else stays.
pub proof fn law_discard_effect<K, V>(cache: CacheView<K, V>, k: K, released: nat)
    requires
        cache.wf(),
        cache.may_release(set![k], released),
    ensures
        ({
            let after = cache.remove(k, released);
            &&& after.entries == cache.entries.remove(k)
            &&& after.recency == cache.recency.filter(|node: KeyHashDate<K>| node.of() != k)
            &&& after.writes == cache.writes.filter(|node: KeyDate<K>| node.of() != k)
            &&& after.sketch == cache.sketch
            &&& after.max_capacity == cache.max_capacity
            &&& after.time_to_live == cache.time_to_live
            &&& after.time_to_idle == cache.time_to_idle
            &&& after.weigher == cache.weigher
            &&& after.clock == cache.clock
            &&& !cache.entries.contains_key(k) ==> after == cache
            &&& released <= cache.weighted_size ==> after.weighted_size == cache.weighted_size
                - released
            &&& released > cache.weighted_size ==> after.weighted_size == 0
            &&& cache.entries.contains_key(k) ==> match cache.weigher {
                Some(weigher) => exists|weight: u64|
                    weight == released && #[trigger] weigher.weighs(k, cache.entries[k], weight),
                None => released == 1,
            }
        }),
{
    let after = cache.remove(k, released);
    cache.lemma_may_release_one(k, released);
    lemma_filter_same(
        cache.recency,
        |node: KeyHashDate<K>| !set![k].contains(node.of()),
        |node: KeyHashDate<K>| node.of() != k,
    );
    lemma_filter_same(
        cache.writes,
        |node: KeyDate<K>| !set![k].contains(node.of()),
        |node: KeyDate<K>| node.of() != k,
    );
    assert(after.entries =~= cache.entries.remove(k));
    if cache.entries.contains_key(k) {
        let weight = choose|weight: u64|
            weight == released && #[trigger] entry::may_weigh(
                cache.weigher,
                k,
                cache.entries[k],
                weight,
            );
        if let Some(weigher) = cache.weigher {
            assert(weigher.weighs(k, cache.entries[k], weight));
        }
    } else {
        assert forall|i: int| 0 <= i < cache.recency.len() implies !set![k].contains(
            (#[trigger] cache.recency[i]).of(),
        ) by {
            order::lemma_place::<K, _>(cache.recency, i);
        }
        assert forall|i: int| 0 <= i < cache.writes.len() implies !set![k].contains(
            (#[trigger] cache.writes[i]).of(),
        ) by {
            order::lemma_place::<K, _>(cache.writes, i);
        }
        order::lemma_without_none::<K, _>(cache.recency, set![k]);
        order::lemma_without_none::<K, _>(cache.writes, set![k]);
        assert(after.entries =~= cache.entries);
    }
}

/// When all that is held has been discarded, nothing is held and no weight is accounted for. No
/// setting and nothing that has been counted changes.
pub proof fn law_discard_all_effect<K, V>(cache: CacheView<K, V>)
    ensures
        cache.clear().entries == Map::<K, V>::empty(),
        cache.clear().recency == Seq::<KeyHashDate<K>>::empty(),
        cache.clear().writes == Seq::<KeyDate<K>>::empty(),
        cache.clear().weighted_size == 0,
        cache.clear().sketch == cache.sketch,
        cache.clear().max_capacity == cache.max_capacity,
        cache.clear().time_to_live == cache.time_to_live,
        cache.clear().time_to_idle == cache.time_to_idle,
        cache.clear().weigher == cache.weigher,
        cache.clear().clock == cache.clock,
{
}

/// What a predicate says yes to is held no more, and what it says no to is held as before, in
/// the same order.
pub proof fn law_discard_if_effect<K, V, F: FnMut(&K, &V) -> bool>(
    cache: CacheView<K, V>,
    predicate: F,
    keys: Set<K>,
    released: nat,
    k: K,
)
    requires
        cache.wf(),
        cache.selects(predicate, keys),
        cache.may_release(keys, released),
    ensures
        ({
            let after = cache.remove_all(keys, released);
            &&& after.entries.submap_of(cache.entries)
            &&& cache.entries.contains_key(k) ==> call_ensures(
                predicate,
                (&k, &cache.entries[k]),
                !after.entries.contains_key(k),
            )
            &&& after.recency == cache.recency.filter(
                |node: KeyHashDate<K>| after.entries.contains_key(node.of()),
            )
            &&& after.writes == cache.writes.filter(
                |node: KeyDate<K>| after.entries.contains_key(node.of()),
            )
            &&& after.sketch == cache.sketch
            &&& after.max_capacity == cache.max_capacity
            &&& after.time_to_live == cache.time_to_live
            &&& after.time_to_idle == cache.time_to_idle
            &&& after.weigher == cache.weigher
            &&& after.clock == cache.clock
            &&& cache.weigher is None && cache.max_capacity is Some ==> cache.weighted_size
                - after.weighted_size == cache.recency.len() - after.recency.len()
        }),
{
    let after = cache.remove_all(keys, released);
    assert forall|i: int| 0 <= i < cache.recency.len() implies !keys.contains(
        (#[trigger] cache.recency[i]).of(),
    ) == after.entries.contains_key(cache.recency[i].of()) by {
        order::lemma_place::<K, _>(cache.recency, i);
    }
    lemma_filter_same(
        cache.recency,
        |node: KeyHashDate<K>| !keys.contains(node.of()),
        |node: KeyHashDate<K>| after.entries.contains_key(node.of()),
    );
    assert forall|i: int| 0 <= i < cache.writes.len() implies !keys.contains(
        (#[trigger] cache.writes[i]).of(),
    ) == after.entries.contains_key(cache.writes[i].of()) by {
        order::lemma_place::<K, _>(cache.writes, i);
    }
    lemma_filter_same(
        cache.writes,
        |node: KeyDate<K>| !keys.contains(node.of()),
        |node: KeyDate<K>| after.entries.contains_key(node.of()),
    );
    if cache.weigher is None {
        cache.lemma_may_release_ones(keys, released);
    }
    if cache.entries.contains_key(k) {
        assert(call_ensures(predicate, (&k, &cache.entries[k]), keys.contains(k)));
    }
}

} // verus!
