//! The cache itself.

use crate::common::deque::CacheRegion;
use crate::common::frequency_sketch;
use crate::common::frequency_sketch::FrequencySketch;
use crate::common::time;
use crate::common::time::{Clock, Instant};
use crate::unsync::builder::{BuilderView, CacheBuilder};
use crate::unsync::deques::Deques;
use crate::unsync::entry;
use crate::unsync::entry::{Dated, KeyDate, KeyHashDate, ValueEntry, Weigher};
use crate::unsync::links::Links;
use crate::unsync::model;
use crate::unsync::model::{CacheView, EVICTION_BATCH_SIZE};
use crate::unsync::order;
use crate::unsync::store;
use crate::unsync::victims;
use crate::unsync::victims::VictimNodes;
use std::collections::hash_map::RandomState;
use std::collections::HashMap;
use std::hash::{BuildHasher, Hash};
use std::rc::Rc;
use std::time::Duration;
use vstd::prelude::*;

verus! {

/// [`RandomState::new`] makes a hasher with random keys. Nothing is claimed of them.
pub assume_specification[ RandomState::new ]() -> (state: RandomState)
;

/// An in-memory cache that is _not_ thread-safe.
///
/// The entries are held in a hash table. Their number, or their weight if they are weighed, is
/// bounded on a best-effort basis: when there is no room for a new entry, the cache decides by
/// how often keys have been asked for lately whether the least recently used entries leave for
/// it or it is refused. Entries stay until they leave in this way, expire or are discarded.
///
/// Two policies of expiry are supported:
///
/// - **Time to live**: an entry expires some time after it was last inserted.
/// - **Time to idle**: an entry expires some time after it was last asked for or inserted.
///
/// Expired entries are never found. They are taken out as a part of updates and retrievals.
///
/// By default, keys are hashed as `std::collections::HashMap` does; see
/// [`CacheBuilder::build_with_hasher`] for another hasher.
#[verifier::reject_recursive_types(K)]
#[verifier::reject_recursive_types(V)]
#[verifier::reject_recursive_types(S)]
pub struct Cache<K, V, S = RandomState> {
    max_capacity: Option<u64>,
    weighted_size: u64,
    cache: HashMap<Rc<K>, ValueEntry<V>, S>,
    build_hasher: S,
    weigher: Option<Weigher<K, V>>,
    deques: Deques<K>,
    frequency_sketch: FrequencySketch,
    time_to_live: Option<Duration>,
    time_to_idle: Option<Duration>,
    system_clock: Clock,
    expiration_clock: Option<Clock>,
}

impl<K, V, S> View for Cache<K, V, S> {
    type V = CacheView<K, V>;

    closed spec fn view(&self) -> CacheView<K, V> {
        CacheView {
            entries: Map::new(
                |k: K| self.cache@.contains_key(Rc::new(k)),
                |k: K| self.cache@[Rc::new(k)].value,
            ),
            recency: self.deques.probation@,
            writes: self.deques.write_order@,
            weighted_size: self.weighted_size,
            sketch: self.frequency_sketch@,
            max_capacity: self.max_capacity,
            time_to_live: self.time_to_live,
            time_to_idle: self.time_to_idle,
            weigher: self.weigher,
            clock: self.expiration_clock,
        }
    }
}

impl<K, V, S> Cache<K, V, S> {
    spec fn links(&self) -> Links<K, V> {
        Links {
            store: self.cache@,
            uses: self.deques.probation@,
            use_ids: self.deques.probation.ids(),
            writes: self.deques.write_order@,
            write_ids: self.deques.write_order.ids(),
            dated: self.time_to_live is Some,
        }
    }

    /// What the keys are hashed with.
    pub closed spec fn hasher(&self) -> S {
        self.build_hasher
    }

    /// The clock that follows the system's.
    pub closed spec fn system_clock(&self) -> Clock {
        self.system_clock
    }

    /// Whether keys are hashed and time is read as in the cache `other`.
    pub open spec fn like(&self, other: &Self) -> bool {
        &&& self.hasher() == other.hasher()
        &&& self.system_clock() == other.system_clock()
    }

    /// Whether `timestamp` is what the cache may read for the time: something where entries
    /// expire, and then what the clock that they expire by may show.
    pub open spec fn may_read(&self, timestamp: Option<Instant>) -> bool {
        &&& self@.reads(timestamp)
        &&& timestamp matches Some(now) ==> match self@.clock {
            Some(clock) => clock.may_show(now),
            None => self.system_clock().may_show(now),
        }
    }

    /// The parts of the cache belong together. Keys can be looked up, every entry can be
    /// weighed, and all entries are in the probation region.
    spec fn linked(&self) -> bool {
        &&& vstd::std_specs::hash::obeys_key_model::<K>()
        &&& vstd::std_specs::hash::builds_valid_hashers::<S>()
        &&& entry::accepts_all(self.weigher)
        &&& self.deques.wf()
        &&& self.deques.window@.len() == 0
        &&& self.deques.protected@.len() == 0
        &&& self.links().wf()
        &&& self.frequency_sketch.wf()
        &&& self.max_capacity matches Some(max) ==> max <= usize::MAX
    }

    /// The parts of the cache belong together. Where each entry weighs one, their number is
    /// accounted for and within the capacity.
    pub closed spec fn wf(&self) -> bool {
        &&& self.linked()
        &&& self.weigher is None ==> self@.within_capacity()
    }

    /// Time is read exactly where entries expire, from the clock that was set, or else from the
    /// one that follows the system's.
    pub proof fn law_reads_its_clock(&self, timestamp: Option<Instant>)
        requires
            self.may_read(timestamp),
        ensures
            timestamp is Some <==> self@.time_to_live is Some || self@.time_to_idle is Some,
            timestamp is Some && self@.clock is Some ==> self@.clock->0.may_show(timestamp->0),
            timestamp is Some && self@.clock is None ==> self.system_clock().may_show(
                timestamp->0,
            ),
    {
    }

    /// The entries of a cache are ordered.
    proof fn lemma_linked(&self)
        requires
            self.linked(),
        ensures
            self@.ordered(),
    {
        self.links().lemma_keys();
        self.frequency_sketch.lemma_wf();
        let keys = order::keys_of::<K, _>(self@.recency);
        assert(keys =~= self@.entries.dom());
        if self.time_to_live is Some {
            assert(order::keys_of::<K, _>(self@.writes) =~= self@.entries.dom());
        }
    }

    /// What a cache holds is well-formed.
    pub proof fn lemma_wf(&self)
        requires
            self.wf(),
        ensures
            self@.wf(),
    {
        self.lemma_linked();
    }
}

impl<K, V, S> Cache<K, V, S> {
    /// The number of entries.
    pub fn len(&self) -> (len: usize)
        requires
            self.wf(),
        ensures
            len == self@.entries.len(),
            self@.entries.dom().finite(),
    {
        proof {
            self.lemma_wf();
            order::lemma_keys_len::<K, _>(self@.recency);
        }
        self.deques.probation.len()
    }

    /// Whether there are no entries.
    pub fn is_empty(&self) -> (empty: bool)
        requires
            self.wf(),
        ensures
            empty <==> self@.entries.len() == 0,
    {
        self.len() == 0
    }

    /// The number of slots of the popularity estimator.
    pub fn frequency_sketch_len(&self) -> (len: usize)
        ensures
            len == self@.sketch.table.len(),
    {
        self.frequency_sketch.table_len()
    }

    /// Returns the `max_capacity` of this cache.
    pub fn max_capacity(&self) -> (max_capacity: Option<usize>)
        requires
            self.wf(),
        ensures
            match max_capacity {
                Some(max) => self@.max_capacity == Some(max as u64),
                None => self@.max_capacity is None,
            },
    {
        match self.max_capacity {
            Some(max) => Some(max as usize),
            None => None,
        }
    }

    /// Returns the `time_to_live` of this cache.
    pub fn time_to_live(&self) -> (time_to_live: Option<Duration>)
        ensures
            time_to_live == self@.time_to_live,
    {
        self.time_to_live
    }

    /// Returns the `time_to_idle` of this cache.
    pub fn time_to_idle(&self) -> (time_to_idle: Option<Duration>)
        ensures
            time_to_idle == self@.time_to_idle,
    {
        self.time_to_idle
    }

    /// Sets the clock that entries expire by. Without one, it is the system's.
    pub fn set_expiration_clock(&mut self, clock: Option<Clock>)
        ensures
            old(self).wf() ==> final(self).wf(),
            final(self).like(old(self)),
            final(self)@ == (CacheView { clock, ..old(self)@ }),
    {
        self.expiration_clock = clock;
        assert(self@.entries =~= old(self)@.entries);
        assert(self.links() == old(self).links());
    }

    /// Discards all cached values.
    ///
    /// This does not clear the popularity estimator, so that it retains what has been asked
    /// for.
    pub fn invalidate_all(&mut self)
        requires
            old(self).wf(),
        ensures
            final(self).wf(),
            final(self).like(old(self)),
            final(self)@ == old(self)@.clear(),
    {
        self.cache.clear();
        self.deques.clear();
        self.weighted_size = 0;
        proof {
            self.deques.probation.lemma_wf();
            self.deques.write_order.lemma_wf();
            assert(self@.entries =~= old(self)@.clear().entries);
        }
    }
}

impl<K: Hash + Eq, V, S: BuildHasher + Clone> Cache<K, V, S> {
    /// A cache with every setting given.
    pub(crate) fn with_everything(
        max_capacity: Option<usize>,
        initial_capacity: Option<usize>,
        build_hasher: S,
        weigher: Option<Weigher<K, V>>,
        time_to_live: Option<Duration>,
        time_to_idle: Option<Duration>,
    ) -> (cache: Self)
        requires
            vstd::std_specs::hash::obeys_key_model::<K>(),
            vstd::std_specs::hash::builds_valid_hashers::<S>(),
            entry::accepts_all(weigher),
        ensures
            cache.wf(),
            cache.hasher() == build_hasher,
            cache@ == CacheView::new(
                max_capacity,
                time_to_live,
                time_to_idle,
                weigher,
            ),
            cache@.entries == Map::<K, V>::empty(),
            match max_capacity {
                Some(max) => cache@.max_capacity is Some && cache@.max_capacity->0 == max,
                None => cache@.max_capacity is None,
            },
            cache@.time_to_live == time_to_live,
            cache@.time_to_idle == time_to_idle,
            cache@.weigher == weigher,
    {
        let mut cache = store::empty_store(build_hasher.clone());
        if let Some(capacity) = initial_capacity {
            let _ = store::try_reserve(&mut cache, capacity);
        }
        // Ensure skt_capacity fits in a range of `128u32..=u32::MAX`.
        let skt_capacity: u32 = match max_capacity {
            Some(max) => if max < 128 {
                128
            } else if max <= u32::MAX as usize {
                max as u32
            } else {
                u32::MAX
            },
            None => u32::MAX,
        };
        let cache = Cache {
            max_capacity: match max_capacity {
                Some(max) => Some(max as u64),
                None => None,
            },
            weighted_size: 0,
            cache,
            build_hasher,
            weigher,
            deques: Deques::new(),
            frequency_sketch: FrequencySketch::with_capacity(skt_capacity),
            time_to_live,
            time_to_idle,
            system_clock: Clock::monotonic(),
            expiration_clock: None,
        };
        proof {
            cache.deques.probation.lemma_wf();
            cache.deques.write_order.lemma_wf();
            assert(cache@.entries =~= Map::empty());
        }
        cache
    }
}

impl<K: Hash + Eq, V> Cache<K, V, RandomState> {
    /// Constructs a new `Cache<K, V>` that will store up to the `max_capacity` entries.
    pub fn new(max_capacity: usize) -> (cache: Self)
        requires
            vstd::std_specs::hash::obeys_key_model::<K>(),
        ensures
            cache.wf(),
            cache@ == CacheView::<K, V>::new(Some(max_capacity), None, None, None),
            cache@.entries == Map::<K, V>::empty(),
            cache@.max_capacity is Some && cache@.max_capacity->0 == max_capacity,
            cache@.time_to_live is None,
            cache@.time_to_idle is None,
            cache@.weigher is None,
    {
        let build_hasher = RandomState::new();
        Self::with_everything(Some(max_capacity), None, build_hasher, None, None, None)
    }

    /// Returns a builder of caches, with no setting made.
    pub fn builder() -> (builder: CacheBuilder<K, V, Cache<K, V, RandomState>>)
        ensures
            builder@ == BuilderView::<K, V>::new(),
            builder@.max_capacity is None,
            builder@.initial_capacity is None,
            builder@.weigher is None,
            builder@.time_to_live is None,
            builder@.time_to_idle is None,
    {
        CacheBuilder::default()
    }
}

impl<K: Hash + Eq, V, S: BuildHasher> Cache<K, V, S> {
    /// Returns an immutable reference of the value corresponding to the key.
    ///
    /// Entries that have expired are not found.
    pub fn get(&mut self, key: &K) -> (value: Option<&V>)
        requires
            old(self).wf(),
        ensures
            final(self).wf(),
            final(self).like(old(self)),
            exists|hash: u64, timestamp: Option<Instant>, released: nat|
                store::may_hash(old(self).hasher(), *key, hash) && old(self).may_read(timestamp)
                    && #[trigger] old(self)@.gets(
                    *key,
                    hash,
                    timestamp,
                    released,
                    model::pointee(value),
                    final(self)@,
                ),
            value matches Some(v) ==> old(self)@.entries.contains_key(*key) && old(
                self,
            )@.entries[*key] == *v,
            old(self)@.time_to_live is None && old(self)@.time_to_idle is None && old(
                self,
            )@.entries.contains_key(*key) ==> value is Some,
    {
        let ghost before = self@;
        let timestamp = self.evict_if_needed();
        let hash: u64 = self.hash(key);
        proof {
            let released = choose|released: nat| #[trigger]
                before.may_evict(timestamp, released) && self@ == before.evict_at(
                    timestamp,
                    released,
                );
            let value = self@.lookup(*key, timestamp);
            let after = self@.get(*key, hash, timestamp);
            assert(before.gets(*key, hash, timestamp, released, value, after));
        }
        self.get_hashed(key, hash, timestamp)
    }

    /// Inserts a key-value pair into the cache.
    ///
    /// If the cache has this key present, the value is updated.
    pub fn insert(&mut self, key: K, value: V)
        requires
            old(self).wf(),
        ensures
            final(self).wf(),
            final(self).like(old(self)),
            exists|
                hash: u64,
                timestamp: Option<Instant>,
                released: nat,
                weight: u64,
                old_weight: u64,
                weights: Seq<u64>,
            |
                store::may_hash(old(self).hasher(), key, hash) && old(self).may_read(timestamp)
                    && old(self)@.may_evict(timestamp, released) && #[trigger] old(
                    self,
                )@.evict_at(timestamp, released).inserts(
                    key,
                    value,
                    hash,
                    timestamp,
                    weight,
                    old_weight,
                    weights,
                    final(self)@,
                ),
    {
        let ghost before = self@;
        let timestamp = self.evict_if_needed();
        let ghost released = choose|released: nat| #[trigger]
            before.may_evict(timestamp, released) && self@ == before.evict_at(timestamp, released);
        let hash: u64 = self.hash(&key);
        assert(self@ == before.evict_at(timestamp, released));
        self.insert_hashed(key, value, hash, timestamp);
    }

    /// Discards any cached value for the key.
    pub fn invalidate(&mut self, key: &K)
        requires
            old(self).wf(),
        ensures
            final(self).wf(),
            final(self).like(old(self)),
            exists|timestamp: Option<Instant>, released: nat, weight: nat|
                old(self).may_read(timestamp) && old(self)@.may_evict(timestamp, released) && old(
                    self,
                )@.evict_at(timestamp, released).may_release(set![*key], weight) && final(self)@
                    == #[trigger] old(self)@.evict_at(timestamp, released).remove(*key, weight),
    {
        let ghost before = self@;
        let timestamp = self.evict_if_needed();
        let ghost current = self@;
        let _ = self.remove_entry(key);
        proof {
            let released = choose|released: nat| #[trigger]
                before.may_evict(timestamp, released) && current == before.evict_at(
                    timestamp,
                    released,
                );
            let weight = choose|weight: nat| #[trigger]
                current.may_release(set![*key], weight) && self@ == current.remove(*key, weight);
            assert(self@ == before.evict_at(timestamp, released).remove(*key, weight));
        }
    }

    /// Discards cached values that satisfy a predicate.
    ///
    /// The predicate is applied once to each cached value; if it returns `true`, the value is
    /// discarded. Like [`Cache::invalidate_all`], this does not clear the popularity estimator.
    pub fn invalidate_entries_if(&mut self, mut predicate: impl FnMut(&K, &V) -> bool)
        requires
            old(self).wf(),
            forall|k: K| #[trigger]
                old(self)@.entries.contains_key(k) ==> call_requires(
                    predicate,
                    (&k, &old(self)@.entries[k]),
                ),
        ensures
            final(self).wf(),
            final(self).like(old(self)),
            exists|keys: Set<K>, released: nat|
                old(self)@.selects(predicate, keys) && old(self)@.may_release(keys, released)
                    && final(self)@ == #[trigger] old(self)@.remove_all(keys, released),
    {
        let ghost before = self@;
        let ghost links = self.links();
        let ghost ids = self.deques.probation.ids();
        let ghost chooser = predicate;
        proof {
            self.lemma_wf();
            self.deques.probation.lemma_wf();
        }
        // Since entries cannot be taken out while they are walked through, invalidation runs
        // in two steps:
        // 1. Examine all entries in this cache and collect keys to invalidate.
        // 2. Remove entries for the keys.
        let mut keys_to_invalidate: Vec<Rc<K>> = Vec::new();
        let mut next: Option<usize> = self.deques.probation.peek_front();
        let ghost mut visited: nat = 0;
        proof {
            assert(pointees(keys_to_invalidate@) =~= Set::empty());
        }
        while next.is_some()
            invariant
                *self == *old(self),
                self.wf(),
                before == self@,
                before.wf(),
                links == self.links(),
                ids == self.deques.probation.ids(),
                ids.len() == before.recency.len(),
                visited <= ids.len(),
                ids.len() <= usize::MAX,
                next == (if visited < ids.len() {
                    Some(ids[visited as int])
                } else {
                    None::<usize>
                }),
                predicate == chooser,
                forall|k: K| #[trigger]
                    before.entries.contains_key(k) ==> call_requires(
                        chooser,
                        (&k, &before.entries[k]),
                    ),
                forall|i: int|
                    0 <= i < visited ==> call_ensures(
                        chooser,
                        (&(#[trigger] before.recency[i]).of(), &before.entries[before.recency[i].of()]),
                        pointees(keys_to_invalidate@).contains(before.recency[i].of()),
                    ),
                forall|k: K| #[trigger]
                    pointees(keys_to_invalidate@).contains(k) ==> order::keys_of::<K, _>(
                        before.recency.take(visited as int),
                    ).contains(k),
            decreases ids.len() - visited,
        {
            let id: usize = next.unwrap();
            let ghost chosen = keys_to_invalidate@;
            let ghost here = before.recency[visited as int];
            let ghost seen = before.recency.take(visited as int);
            proof {
                self.deques.probation.lemma_position(visited as int);
                assert(links.use_linked(visited as int));
                assert(before.entries.contains_key(here.of()));
            }
            next = self.deques.probation.next_node(id);
            let node = self.deques.probation.element(id);
            if let Some(entry) = store::get(&self.cache, &node.key) {
                if predicate(&*node.key, &entry.value) {
                    keys_to_invalidate.push(Rc::clone(&node.key));
                }
            }
            proof {
                let longer = before.recency.take((visited + 1) as int);
                assert(longer =~= seen.push(here));
                order::lemma_keys_push::<K, _>(seen, here);
                if pointees(chosen).contains(here.of()) {
                    let i = order::place(seen, here.of());
                    assert(before.recency[i].of() == here.of());
                }
                if keys_to_invalidate@.len() > chosen.len() {
                    lemma_pointees_push(chosen, here.key);
                }
                assert forall|i: int| 0 <= i < visited + 1 implies call_ensures(
                    chooser,
                    (&(#[trigger] before.recency[i]).of(), &before.entries[before.recency[i].of()]),
                    pointees(keys_to_invalidate@).contains(before.recency[i].of()),
                ) by {
                    if i < visited {
                        assert(before.recency[i].of() != here.of());
                    }
                }
                visited = visited + 1;
            }
        }
        let ghost keys = pointees(keys_to_invalidate@);
        proof {
            assert(before.recency.take(visited as int) =~= before.recency);
            assert forall|k: K| #[trigger] before.entries.contains_key(k) implies call_ensures(
                chooser,
                (&k, &before.entries[k]),
                keys.contains(k),
            ) by {
                let i = order::place(before.recency, k);
                assert(before.recency[i].of() == k);
            }
            assert(before.selects(chooser, keys));
            before.lemma_remove_all_none();
            assert(pointees(keys_to_invalidate@.take(0)) =~= Set::empty());
        }
        let mut removed: usize = 0;
        let ghost mut released: nat = 0;
        while removed < keys_to_invalidate.len()
            invariant
                removed <= keys_to_invalidate@.len(),
                self.wf(),
                self.like(old(self)),
                before.may_release(
                    pointees(keys_to_invalidate@.take(removed as int)),
                    released,
                ),
                self@ == before.remove_all(
                    pointees(keys_to_invalidate@.take(removed as int)),
                    released,
                ),
            decreases keys_to_invalidate@.len() - removed,
        {
            let ghost current = self@;
            let _ = self.remove_entry(&keys_to_invalidate[removed]);
            proof {
                let gone = keys_to_invalidate@[removed as int];
                let done = keys_to_invalidate@.take(removed as int);
                let more = choose|more: nat| #[trigger]
                    current.may_release(only(gone), more) && self@ == current.remove_all(
                        only(gone),
                        more,
                    );
                assert(done.push(gone) =~= keys_to_invalidate@.take(removed + 1));
                lemma_pointees_push(done, gone);
                before.lemma_remove_all_twice(pointees(done), released, only(gone), more);
                before.lemma_may_release_both(
                    pointees(done),
                    released,
                    current,
                    only(gone),
                    more,
                );
                released = released + more;
                assert(pointees(done).union(only(gone)) =~= pointees(done).insert(*gone));
            }
            removed = removed + 1;
        }
        assert(keys_to_invalidate@.take(removed as int) =~= keys_to_invalidate@);
    }

    /// Hashes a key.
    fn hash(&self, key: &K) -> (hash: u64)
        ensures
            store::may_hash(self.hasher(), *key, hash),
    {
        store::hash(&self.build_hasher, key)
    }

    /// Takes the entry of `key` out, and tells whether there was one.
    pub fn discard(&mut self, key: &K) -> (found: bool)
        requires
            old(self).wf(),
        ensures
            final(self).wf(),
            final(self).like(old(self)),
            exists|released: nat| #[trigger]
                old(self)@.may_release(set![*key], released) && final(self)@ == old(self)@.remove(
                    *key,
                    released,
                ),
            found <==> old(self)@.entries.contains_key(*key),
    {
        self.remove_entry(key)
    }

    /// Takes the entry of `key` out, with its weight, and tells whether there was one.
    fn remove_entry(&mut self, key: &K) -> (found: bool)
        requires
            old(self).wf(),
        ensures
            final(self).wf(),
            final(self).like(old(self)),
            exists|released: nat| #[trigger]
                old(self)@.may_release(set![*key], released) && final(self)@ == old(self)@.remove(
                    *key,
                    released,
                ),
            found <==> old(self)@.entries.contains_key(*key),
    {
        let ghost before = self@;
        proof {
            self.lemma_wf();
        }
        match self.unlink_entry(key) {
            None => {
                proof {
                    before.lemma_may_release_one(*key, 0);
                    before.lemma_remove_all_wf(set![*key], 0);
                }
                false
            },
            Some(entry) => {
                let weight: u64 = entry::weigh(&mut self.weigher, key, &entry.value);
                self.saturating_sub_from_total_weight(weight);
                proof {
                    before.lemma_may_release_one(*key, weight as nat);
                    before.lemma_remove_all_wf(set![*key], weight as nat);
                    assert(self@ =~= before.remove(*key, weight as nat));
                }
                true
            },
        }
    }

    /// Takes the entry of `key` out of the hash table and its nodes out of the lists, and
    /// returns it. What is accounted for is left to the caller.
    fn unlink_entry(&mut self, key: &K) -> (entry: Option<ValueEntry<V>>)
        requires
            old(self).linked(),
        ensures
            final(self).linked(),
            final(self).like(old(self)),
            final(self)@ == old(self)@.remove(*key, 0),
            match entry {
                Some(entry) => {
                    &&& old(self)@.entries.contains_key(*key)
                    &&& entry.value == old(self)@.entries[*key]
                    &&& final(self).deques.probation.ids() == old(
                        self,
                    ).deques.probation.ids().remove(order::place(old(self)@.recency, *key))
                },
                None => !old(self)@.entries.contains_key(*key),
            },
    {
        let ghost links = self.links();
        let ghost before = self@;
        proof {
            self.lemma_linked();
        }
        match store::remove(&mut self.cache, key) {
            None => {
                proof {
                    assert(self.cache@ =~= old(self).cache@);
                    lemma_remove_absent(before, *key);
                }
                None
            },
            Some(entry) => {
                let ghost p = order::place(links.uses, *key);
                let ghost q = order::place(links.writes, *key);
                proof {
                    links.lemma_keys();
                    assert(links.entry_linked(Rc::new(*key)));
                    assert(links.use_linked(p));
                    assert(links.dated ==> links.write_linked(q));
                    self.deques.probation.lemma_position(p);
                    links.lemma_removed(Rc::new(*key), p, q);
                    order::lemma_without_one::<K, _>(links.uses, p);
                }
                self.deques.unlink_ao(entry.region, entry.access_order_q_node);
                if let Some(id) = entry.write_order_q_node {
                    proof {
                        self.deques.write_order.lemma_position(q);
                        order::lemma_without_one::<K, _>(links.writes, q);
                    }
                    self.deques.unlink_wo(id);
                }
                proof {
                    if self.time_to_live is None {
                        order::lemma_without_none::<K, _>(links.writes, set![*key]);
                    }
                    assert(self.links() == links.removed(Rc::new(*key), p, q));
                    assert(self@.entries =~= before.remove(*key, 0).entries);
                }
                Some(entry)
            },
        }
    }

    /// Whether an entry that was last used at `last_accessed` has been idle for too long at
    /// `now`.
    ///
    /// Where the end of that time lies beyond what an [`Instant`] can hold, it lies after every
    /// `now`, and the answer is no.
    fn is_expired_entry_ao(
        time_to_idle: &Option<Duration>,
        last_accessed: Option<Instant>,
        now: Instant,
    ) -> (expired: bool)
        ensures
            expired == order::over(*time_to_idle, last_accessed, now),
            expired <==> (time_to_idle matches Some(limit) && last_accessed matches Some(since)
                && since.nanos + time::duration_nanos(*limit) <= now.nanos),
    {
        if let (Some(ts), Some(tti)) = (last_accessed, time_to_idle) {
            match ts.checked_add(*tti) {
                Some(end) => end.nanos <= now.nanos,
                None => false,
            }
        } else {
            false
        }
    }

    /// Whether an entry that was last written at `last_modified` has lived for too long at
    /// `now`.
    ///
    /// Where the end of that time lies beyond what an [`Instant`] can hold, it lies after every
    /// `now`, and the answer is no.
    fn is_expired_entry_wo(
        time_to_live: &Option<Duration>,
        last_modified: Option<Instant>,
        now: Instant,
    ) -> (expired: bool)
        ensures
            expired == order::over(*time_to_live, last_modified, now),
            expired <==> (time_to_live matches Some(limit) && last_modified matches Some(since)
                && since.nanos + time::duration_nanos(*limit) <= now.nanos),
    {
        if let (Some(ts), Some(ttl)) = (last_modified, time_to_live) {
            match ts.checked_add(*ttl) {
                Some(end) => end.nanos <= now.nanos,
                None => false,
            }
        } else {
            false
        }
    }

    /// Takes out up to `batch_size` entries that have lived for too long at `now`, in the order
    /// of their writes, up to the first that has not.
    fn remove_expired_wo(&mut self, batch_size: usize, now: Instant)
        requires
            old(self).wf(),
        ensures
            final(self).wf(),
            final(self).like(old(self)),
            ({
                let keys = order::keys_of(
                    old(self)@.writes.take(
                        order::leading_over::<K, _>(
                            old(self)@.writes,
                            old(self)@.time_to_live,
                            now,
                            batch_size as nat,
                        ) as int,
                    ),
                );
                exists|released: nat| #[trigger]
                    old(self)@.may_release(keys, released) && final(self)@ == old(
                        self,
                    )@.remove_all(keys, released)
            }),
    {
        let ghost before = self@;
        let ghost writes = before.writes;
        let ghost limit = before.time_to_live;
        proof {
            self.lemma_wf();
            before.lemma_remove_all_none();
            assert(order::keys_of::<K, _>(writes.take(0)) =~= Set::empty());
        }
        let mut removed: usize = 0;
        let ghost mut released: nat = 0;
        while removed < batch_size
            invariant
                removed <= batch_size,
                removed <= writes.len(),
                before.wf(),
                writes == before.writes,
                limit == before.time_to_live,
                self.wf(),
                self.like(old(self)),
                before.may_release(order::keys_of(writes.take(removed as int)), released),
                self@ == before.remove_all(
                    order::keys_of(writes.take(removed as int)),
                    released,
                ),
                forall|i: int|
                    0 <= i < removed ==> order::over(limit, (#[trigger] writes[i]).when(), now),
            ensures
                removed <= batch_size,
                removed <= writes.len(),
                self.wf(),
                self.like(old(self)),
                before.may_release(order::keys_of(writes.take(removed as int)), released),
                self@ == before.remove_all(
                    order::keys_of(writes.take(removed as int)),
                    released,
                ),
                forall|i: int|
                    0 <= i < removed ==> order::over(limit, (#[trigger] writes[i]).when(), now),
                removed < writes.len() && removed < batch_size ==> !order::over(
                    limit,
                    writes[removed as int].when(),
                    now,
                ),
            decreases batch_size - removed,
        {
            proof {
                order::lemma_without_front::<K, _>(writes, removed as int);
                self.deques.write_order.lemma_wf();
            }
            let front: Option<usize> = self.deques.write_order.peek_front();
            if front.is_none() {
                break;
            }
            let id: usize = front.unwrap();
            proof {
                self.deques.write_order.lemma_position(0);
                assert(self@.writes[0] == writes[removed as int]);
            }
            let node = self.deques.write_order.element(id);
            if !Self::is_expired_entry_wo(&self.time_to_live, node.timestamp, now) {
                break;
            }
            let key = Rc::clone(&node.key);
            let ghost current = self@;
            let _ = self.remove_entry(&key);
            proof {
                let gone = writes[removed as int].of();
                let more = choose|more: nat| #[trigger]
                    current.may_release(set![gone], more) && self@ == current.remove(gone, more);
                before.lemma_remove_all_twice(
                    order::keys_of(writes.take(removed as int)),
                    released,
                    set![gone],
                    more,
                );
                before.lemma_may_release_both(
                    order::keys_of(writes.take(removed as int)),
                    released,
                    current,
                    set![gone],
                    more,
                );
                released = released + more;
                assert(writes.take(removed as int).push(writes[removed as int]) =~= writes.take(
                    removed + 1,
                ));
                order::lemma_keys_push::<K, _>(
                    writes.take(removed as int),
                    writes[removed as int],
                );
                assert(order::keys_of::<K, _>(writes.take(removed as int)).union(set![gone])
                    =~= order::keys_of::<K, _>(writes.take(removed as int)).insert(gone));
            }
            removed = removed + 1;
        }
        proof {
            order::lemma_leading_over_is::<K, _>(
                writes,
                limit,
                now,
                batch_size as nat,
                removed as nat,
            );
        }
    }

    /// Takes out up to `batch_size` entries of `region` that have been idle for too long at
    /// `now`, in the order of their uses, up to the first that has not.
    fn remove_expired_ao(&mut self, region: CacheRegion, batch_size: usize, now: Instant)
        requires
            old(self).wf(),
        ensures
            final(self).wf(),
            final(self).like(old(self)),
            region == CacheRegion::MainProbation ==> ({
                let keys = order::keys_of(
                    old(self)@.recency.take(
                        order::leading_over::<K, _>(
                            old(self)@.recency,
                            old(self)@.time_to_idle,
                            now,
                            batch_size as nat,
                        ) as int,
                    ),
                );
                exists|released: nat| #[trigger]
                    old(self)@.may_release(keys, released) && final(self)@ == old(
                        self,
                    )@.remove_all(keys, released)
            }),
            region != CacheRegion::MainProbation ==> final(self)@ == old(self)@,
    {
        let ghost before = self@;
        let ghost uses = if region == CacheRegion::MainProbation {
            before.recency
        } else {
            Seq::empty()
        };
        let ghost limit = before.time_to_idle;
        proof {
            self.lemma_wf();
            before.lemma_remove_all_none();
            assert(order::keys_of::<K, _>(uses.take(0)) =~= Set::empty());
        }
        let mut removed: usize = 0;
        let ghost mut released: nat = 0;
        while removed < batch_size
            invariant
                removed <= batch_size,
                removed <= uses.len(),
                before.wf(),
                uses == (if region == CacheRegion::MainProbation {
                    before.recency
                } else {
                    Seq::empty()
                }),
                limit == before.time_to_idle,
                self.wf(),
                self.like(old(self)),
                removed == 0 ==> released == 0,
                before.may_release(order::keys_of(uses.take(removed as int)), released),
                self@ == before.remove_all(
                    order::keys_of(uses.take(removed as int)),
                    released,
                ),
                forall|i: int|
                    0 <= i < removed ==> order::over(limit, (#[trigger] uses[i]).when(), now),
            ensures
                removed <= batch_size,
                removed <= uses.len(),
                self.wf(),
                self.like(old(self)),
                removed == 0 ==> released == 0,
                before.may_release(order::keys_of(uses.take(removed as int)), released),
                self@ == before.remove_all(
                    order::keys_of(uses.take(removed as int)),
                    released,
                ),
                forall|i: int|
                    0 <= i < removed ==> order::over(limit, (#[trigger] uses[i]).when(), now),
                removed < uses.len() && removed < batch_size ==> !order::over(
                    limit,
                    uses[removed as int].when(),
                    now,
                ),
            decreases batch_size - removed,
        {
            proof {
                order::lemma_without_front::<K, _>(uses, removed as int);
                self.deques.ao(region).lemma_wf();
            }
            let front: Option<usize> = self.deques.access_order(region).peek_front();
            if front.is_none() {
                break;
            }
            let id: usize = front.unwrap();
            proof {
                self.deques.probation.lemma_position(0);
                assert(self@.recency[0] == uses[removed as int]);
            }
            let node = self.deques.access_order(region).element(id);
            if !Self::is_expired_entry_ao(&self.time_to_idle, node.timestamp, now) {
                break;
            }
            let key = Rc::clone(&node.key);
            let ghost current = self@;
            let _ = self.remove_entry(&key);
            proof {
                let gone = uses[removed as int].of();
                let more = choose|more: nat| #[trigger]
                    current.may_release(set![gone], more) && self@ == current.remove(gone, more);
                before.lemma_remove_all_twice(
                    order::keys_of(uses.take(removed as int)),
                    released,
                    set![gone],
                    more,
                );
                before.lemma_may_release_both(
                    order::keys_of(uses.take(removed as int)),
                    released,
                    current,
                    set![gone],
                    more,
                );
                released = released + more;
                assert(uses.take(removed as int).push(uses[removed as int]) =~= uses.take(
                    removed + 1,
                ));
                order::lemma_keys_push::<K, _>(uses.take(removed as int), uses[removed as int]);
                assert(order::keys_of::<K, _>(uses.take(removed as int)).union(set![gone])
                    =~= order::keys_of::<K, _>(uses.take(removed as int)).insert(gone));
            }
            removed = removed + 1;
        }
        proof {
            order::lemma_leading_over_is::<K, _>(
                uses,
                limit,
                now,
                batch_size as nat,
                removed as nat,
            );
        }
    }

    /// Looks for entries that have expired at `now`, and takes them out. Only the longest
    /// unwritten and the longest unused entries are looked at, and not too many of them.
    pub fn evict(&mut self, now: Instant)
        requires
            old(self).wf(),
        ensures
            final(self).wf(),
            final(self).like(old(self)),
            exists|released: nat| #[trigger]
                old(self)@.may_release(old(self)@.found_expired(now), released) && final(self)@
                    == old(self)@.evict(now, released),
    {
        let ghost before = self@;
        let ghost stale = before.stale(now);
        let ghost mut released: nat = 0;
        proof {
            before.lemma_remove_all_none();
            if before.time_to_live is None {
                before.lemma_stale_none(now);
            }
        }
        if self.time_to_live.is_some() {
            self.remove_expired_wo(EVICTION_BATCH_SIZE, now);
            proof {
                released = choose|released: nat| #[trigger]
                    before.may_release(stale, released) && self@ == before.remove_all(
                        stale,
                        released,
                    );
            }
        }
        let ghost fresh = self@;
        let ghost idle = fresh.idle(now);
        let ghost mut more: nat = 0;
        proof {
            assert(before.may_release(stale, released));
            assert(fresh == before.remove_all(stale, released));
            fresh.lemma_remove_all_none();
            if fresh.time_to_idle is None {
                fresh.lemma_idle_none(now);
            }
        }
        if self.time_to_idle.is_some() {
            self.remove_expired_ao(CacheRegion::Window, EVICTION_BATCH_SIZE, now);
            self.remove_expired_ao(CacheRegion::MainProbation, EVICTION_BATCH_SIZE, now);
            proof {
                more = choose|more: nat| #[trigger]
                    fresh.may_release(idle, more) && self@ == fresh.remove_all(idle, more);
            }
            self.remove_expired_ao(CacheRegion::MainProtected, EVICTION_BATCH_SIZE, now);
        }
        proof {
            before.lemma_remove_all_twice(stale, released, idle, more);
            before.lemma_may_release_both(stale, released, fresh, idle, more);
            assert(idle == before.remove_all(stale, 0).idle(now));
            assert(self@ == fresh.remove_all(idle, more));
            assert(before.found_expired(now) == stale.union(idle));
            assert(before.may_release(before.found_expired(now), released + more));
        }
    }

    /// Whether entries expire.
    fn has_expiry(&self) -> (expiry: bool)
        ensures
            expiry == self@.has_expiry(),
    {
        self.time_to_live.is_some() || self.time_to_idle.is_some()
    }

    /// Reads the clock that entries expire by.
    fn current_time_from_expiration_clock(&self) -> (now: Instant)
        ensures
            match self@.clock {
                Some(clock) => clock.may_show(now),
                None => self.system_clock().may_show(now),
            },
    {
        if let Some(clock) = &self.expiration_clock {
            clock.now()
        } else {
            self.system_clock.now()
        }
    }

    /// Where entries expire, reads the clock and takes expired entries out.
    fn evict_if_needed(&mut self) -> (timestamp: Option<Instant>)
        requires
            old(self).wf(),
        ensures
            final(self).wf(),
            final(self).like(old(self)),
            old(self).may_read(timestamp),
            exists|released: nat| #[trigger]
                old(self)@.may_evict(timestamp, released) && final(self)@ == old(self)@.evict_at(
                    timestamp,
                    released,
                ),
    {
        let ghost before = self@;
        if self.has_expiry() {
            let ts = self.current_time_from_expiration_clock();
            self.evict(ts);
            proof {
                let released = choose|released: nat| #[trigger]
                    before.may_release(before.found_expired(ts), released) && self@
                        == before.evict(ts, released);
                assert(before.may_evict(Some(ts), released));
            }
            Some(ts)
        } else {
            assert(before.may_evict(None, 0));
            None
        }
    }

    /// Records that an entry has been used, at the time `timestamp` if one has been read.
    fn record_hit(deques: &mut Deques<K>, entry: &ValueEntry<V>, timestamp: Option<Instant>)
        requires
            old(deques).wf(),
            old(deques).ao(entry.region).has(entry.access_order_q_node),
        ensures
            final(deques).wf(),
            final(deques).ao(entry.region)@ == order::reuse(
                old(deques).ao(entry.region)@,
                old(deques).ao(entry.region).position(entry.access_order_q_node),
                timestamp,
            ),
            final(deques).ao(entry.region).ids() == ({
                let deque = old(deques).ao(entry.region);
                deque.ids().remove(deque.position(entry.access_order_q_node)).push(
                    entry.access_order_q_node,
                )
            }),
            *final(deques) == old(deques).with_ao(entry.region, final(deques).ao(entry.region)),
    {
        proof {
            old(deques).ao(entry.region).lemma_wf();
        }
        if let Some(ts) = timestamp {
            deques.set_last_accessed(entry.region, entry.access_order_q_node, ts);
        }
        deques.move_to_back_ao(entry.region, entry.access_order_q_node);
        assert(deques.ao(entry.region)@ =~= order::reuse(
            old(deques).ao(entry.region)@,
            old(deques).ao(entry.region).position(entry.access_order_q_node),
            timestamp,
        ));
    }

    /// Asks for `key`, whose hash is `hash`, at the time `timestamp`.
    pub fn get_hashed(&mut self, key: &K, hash: u64, timestamp: Option<Instant>) -> (value: Option<
        &V,
    >)
        requires
            old(self).wf(),
        ensures
            final(self).wf(),
            final(self).like(old(self)),
            final(self)@ == old(self)@.get(*key, hash, timestamp),
            match value {
                Some(value) => old(self)@.lookup(*key, timestamp) == Some(*value),
                None => old(self)@.lookup(*key, timestamp) is None,
            },
            value matches Some(v) ==> old(self)@.entries.contains_key(*key) && old(
                self,
            )@.entries[*key] == *v,
            timestamp is None && old(self)@.entries.contains_key(*key) ==> value is Some,
    {
        let ghost links = self.links();
        let ghost p = order::place(links.uses, *key);
        let ghost q = order::place(links.writes, *key);
        proof {
            self.lemma_wf();
        }
        self.frequency_sketch.increment(hash);
        proof {
            assert(self@.entries =~= old(self)@.entries);
            assert(self@ == old(self)@.count(hash));
        }
        match store::get(&self.cache, key) {
            // Value not found.
            None => None,
            // Value found, check if expired.
            Some(entry) => {
                proof {
                    links.lemma_keys();
                    assert(links.entry_linked(Rc::new(*key)));
                    assert(links.use_linked(p));
                    self.deques.probation.lemma_wf();
                    self.deques.probation.lemma_position(p);
                    if links.dated {
                        assert(links.write_linked(q));
                        self.deques.write_order.lemma_wf();
                        self.deques.write_order.lemma_position(q);
                    }
                }
                if let Some(ts) = timestamp {
                    let last_modified = match entry.write_order_q_node {
                        Some(id) => self.deques.write_order.element(id).timestamp,
                        None => None,
                    };
                    let last_accessed = self.deques.access_order(entry.region).element(
                        entry.access_order_q_node,
                    ).timestamp;
                    if Self::is_expired_entry_wo(&self.time_to_live, last_modified, ts)
                        || Self::is_expired_entry_ao(&self.time_to_idle, last_accessed, ts) {
                        return None;
                    }
                }
                Self::record_hit(&mut self.deques, entry, timestamp);
                proof {
                    let node = self.deques.probation@.last();
                    links.lemma_used(p, node);
                    assert(self.links() == links.used(p, node));
                    assert(self@.entries =~= old(self)@.entries);
                }
                Some(&entry.value)
            },
        }
    }

    /// Whether an entry of weight `candidate_weight` fits in beside the weight `ws`.
    fn has_enough_capacity(&self, candidate_weight: u64, ws: u64) -> (enough: bool)
        ensures
            enough <==> (self@.max_capacity matches Some(limit) ==> ws + candidate_weight
                <= limit),
    {
        match self.max_capacity {
            Some(limit) => match ws.checked_add(candidate_weight) {
                Some(sum) => sum <= limit,
                None => false,
            },
            None => true,
        }
    }

    /// Puts `weight` on the accounted weight.
    fn saturating_add_to_total_weight(&mut self, weight: u64)
        ensures
            *final(self) == (Cache {
                weighted_size: if old(self).weighted_size + weight <= u64::MAX {
                    (old(self).weighted_size + weight) as u64
                } else {
                    u64::MAX
                },
                ..*old(self)
            }),
    {
        self.weighted_size = self.weighted_size.saturating_add(weight);
    }

    /// Takes `weight` off the accounted weight.
    fn saturating_sub_from_total_weight(&mut self, weight: u64)
        ensures
            *final(self) == (Cache {
                weighted_size: if weight <= old(self).weighted_size {
                    (old(self).weighted_size - weight) as u64
                } else {
                    0
                },
                ..*old(self)
            }),
    {
        self.weighted_size = self.weighted_size.saturating_sub(weight);
    }

    /// Finds the entries that would have to leave for `candidate`, and decides whether they do.
    ///
    /// The candidate is admitted only if it is more popular than all of them together. If it is
    /// not, they keep their places. The weights that were found are returned too.
    fn decide_admission(&mut self, candidate: &EntrySizeAndFrequency) -> (result: (
        AdmissionResult,
        Ghost<Seq<u64>>,
    ))
        requires
            old(self).wf(),
            candidate.freq <= 15,
        ensures
            *final(self) == *old(self),
            old(self)@.search_ends(result.1@, candidate.weight, candidate.freq as nat),
            match result.0 {
                AdmissionResult::Admitted { victim_nodes, victims_weight } => {
                    &&& old(self)@.admits(result.1@, candidate.weight, candidate.freq as nat)
                    &&& victims::victim_ids(victim_nodes) == old(
                        self,
                    ).deques.probation.ids().take(result.1@.len() as int)
                    &&& victims_weight == capped(model::total(result.1@))
                },
                AdmissionResult::Rejected => !old(self)@.admits(
                    result.1@,
                    candidate.weight,
                    candidate.freq as nat,
                ),
            },
    {
        let ghost view = self@;
        let ghost ids = self.deques.probation.ids();
        let ghost links = self.links();
        let ghost mut weights: Seq<u64> = Seq::empty();
        proof {
            self.lemma_wf();
            self.deques.probation.lemma_wf();
        }
        let mut victims = EntrySizeAndFrequency::new(0);
        let mut victim_nodes = VictimNodes::new();
        let mut count: usize = 0;
        let mut next_victim: Option<usize> = self.deques.probation.peek_front();
        while victims.weight < candidate.weight && victims.freq <= candidate.freq && count
            < usize::MAX / 64
            invariant
                *self == *old(self),
                self.wf(),
                view == self@,
                view.wf(),
                links == self.links(),
                ids == self.deques.probation.ids(),
                ids.len() == view.recency.len(),
                candidate.freq <= 15,
                count == weights.len(),
                count <= usize::MAX / 64,
                count <= view.recency.len(),
                view.may_weigh_oldest(weights),
                victims.weight == capped(model::total(weights)),
                victims.freq == view.popularity(weights.len()),
                victims.freq <= 30,
                victims::victim_ids(victim_nodes) == ids.take(count as int),
                next_victim == (if count < ids.len() {
                    Some(ids[count as int])
                } else {
                    None::<usize>
                }),
                forall|n: int|
                    0 <= n < weights.len() ==> view.searches_on(
                        #[trigger] weights.take(n),
                        candidate.weight,
                        candidate.freq as nat,
                    ),
            ensures
                *self == *old(self),
                view.may_weigh_oldest(weights),
                victims.weight == capped(model::total(weights)),
                victims.freq == view.popularity(weights.len()),
                victims::victim_ids(victim_nodes) == ids.take(weights.len() as int),
                forall|n: int|
                    0 <= n < weights.len() ==> view.searches_on(
                        #[trigger] weights.take(n),
                        candidate.weight,
                        candidate.freq as nat,
                    ),
                !view.searches_on(weights, candidate.weight, candidate.freq as nat),
            decreases usize::MAX - count,
        {
            let id: usize = match next_victim {
                Some(id) => id,
                // No more potential victims.
                None => {
                    break;
                },
            };
            proof {
                self.deques.probation.lemma_position(count as int);
                assert(links.use_linked(count as int));
                frequency_sketch::law_frequency_bounded(
                    view.sketch,
                    view.recency[count as int].hash,
                );
            }
            next_victim = self.deques.probation.next_node(id);
            let victim = self.deques.probation.element(id);
            let Ghost(weight) = match store::get(&self.cache, &victim.key) {
                Some(vic_entry) => victims.add_policy_weight(
                    &*victim.key,
                    &vic_entry.value,
                    &mut self.weigher,
                ),
                None => Ghost(0u64),
            };
            victims.add_frequency(&self.frequency_sketch, victim.hash);
            victim_nodes.push(id);
            count = count + 1;
            proof {
                let longer = weights.push(weight);
                assert(longer.drop_last() =~= weights);
                assert forall|n: int| 0 <= n < longer.len() implies view.searches_on(
                    #[trigger] longer.take(n),
                    candidate.weight,
                    candidate.freq as nat,
                ) by {
                    if n < weights.len() {
                        assert(longer.take(n) =~= weights.take(n));
                    } else {
                        assert(longer.take(n) =~= weights);
                    }
                }
                assert(ids.take(count as int) =~= ids.take(count - 1).push(id));
                weights = longer;
            }
        }
        // Admit or reject the candidate.
        if victims.weight >= candidate.weight && candidate.freq > victims.freq {
            (
                AdmissionResult::Admitted { victim_nodes, victims_weight: victims.weight },
                Ghost(weights),
            )
        } else {
            (AdmissionResult::Rejected, Ghost(weights))
        }
    }

    /// Puts an entry for a key that has none into the hash table and the lists, and puts
    /// `policy_weight` on the accounted weight.
    fn add_entry(
        &mut self,
        key: Rc<K>,
        value: V,
        hash: u64,
        timestamp: Option<Instant>,
        policy_weight: u64,
    )
        requires
            old(self).wf(),
            !old(self).cache@.contains_key(key),
            old(self).weigher is None ==> policy_weight == 1 && old(self)@.has_room(1),
        ensures
            final(self).wf(),
            final(self).like(old(self)),
            final(self)@ == old(self)@.store(
                *key,
                value,
                hash,
                timestamp,
                policy_weight,
            ),
    {
        let ghost links = self.links();
        let ghost used = KeyHashDate { key, hash, timestamp };
        let ghost written = KeyDate { key, timestamp };
        proof {
            self.deques.probation.lemma_wf();
            self.deques.write_order.lemma_wf();
        }
        let id: usize = self.deques.push_back_ao(
            CacheRegion::MainProbation,
            KeyHashDate { key: Rc::clone(&key), hash, timestamp },
        );
        let write_id: Option<usize> = if self.time_to_live.is_some() {
            Some(self.deques.push_back_wo(KeyDate { key: Rc::clone(&key), timestamp }))
        } else {
            None
        };
        let entry = ValueEntry {
            value,
            region: CacheRegion::MainProbation,
            access_order_q_node: id,
            write_order_q_node: write_id,
        };
        let ghost e = entry;
        let _ = store::insert(&mut self.cache, key, entry);
        proof {
            links.lemma_added(e, used, written);
            assert(self.links() == links.added(e, used, written));
            assert(self@.entries =~= old(self)@.entries.insert(*used.key, value));
        }
        self.saturating_add_to_total_weight(policy_weight);
    }

    /// Takes out the entries whose nodes in the list of uses are numbered `victim_nodes`.
    /// What is accounted for is left to the caller.
    fn remove_victims(&mut self, victim_nodes: &VictimNodes)
        requires
            old(self).linked(),
            victims::victim_ids(*victim_nodes).len() <= old(self)@.recency.len(),
            victims::victim_ids(*victim_nodes) == old(self).deques.probation.ids().take(
                victims::victim_ids(*victim_nodes).len() as int,
            ),
        ensures
            final(self).linked(),
            final(self).like(old(self)),
            final(self)@ == old(self)@.remove_all(
                order::keys_of(
                    old(self)@.recency.take(victims::victim_ids(*victim_nodes).len() as int),
                ),
                0,
            ),
    {
        let ghost before = self@;
        let ghost uses = before.recency;
        let ghost ids = self.deques.probation.ids();
        let nodes = victim_nodes.as_slice();
        proof {
            self.lemma_linked();
            self.deques.probation.lemma_wf();
            before.lemma_remove_all_none();
            assert(order::keys_of::<K, _>(uses.take(0)) =~= Set::empty());
            assert(ids.skip(0) =~= ids);
        }
        let mut removed: usize = 0;
        while removed < nodes.len()
            invariant
                removed <= nodes.len() <= uses.len(),
                nodes@ == ids.take(nodes.len() as int),
                before.ordered(),
                uses == before.recency,
                ids.len() == uses.len(),
                self.linked(),
                self.like(old(self)),
                self@ == before.remove_all(order::keys_of(uses.take(removed as int)), 0),
                self.deques.probation.ids() == ids.skip(removed as int),
            decreases nodes.len() - removed,
        {
            proof {
                order::lemma_without_front::<K, _>(uses, removed as int);
                self.deques.probation.lemma_wf();
                self.deques.probation.lemma_position(0);
                assert(self.deques.probation.ids()[0] == nodes@[removed as int]);
                assert(self@.recency[0] == uses[removed as int]);
                self.lemma_linked();
                order::lemma_place::<K, _>(self@.recency, 0);
            }
            let key = Rc::clone(&self.deques.probation.element(nodes[removed]).key);
            let _ = self.unlink_entry(&key);
            proof {
                let gone = uses[removed as int].of();
                before.lemma_remove_all_twice(
                    order::keys_of(uses.take(removed as int)),
                    0,
                    set![gone],
                    0,
                );
                assert(uses.take(removed as int).push(uses[removed as int]) =~= uses.take(
                    removed + 1,
                ));
                order::lemma_keys_push::<K, _>(uses.take(removed as int), uses[removed as int]);
                assert(order::keys_of::<K, _>(uses.take(removed as int)).union(set![gone])
                    =~= order::keys_of::<K, _>(uses.take(removed as int)).insert(gone));
                assert(ids.skip(removed as int).remove(0) =~= ids.skip(removed + 1));
            }
            removed = removed + 1;
        }
    }

    /// Puts in an entry for a key that has none, in place of the least recently used ones, whose
    /// nodes are `victim_nodes` and whose weights are `weights`.
    fn replace_victims(
        &mut self,
        key: Rc<K>,
        value: V,
        hash: u64,
        timestamp: Option<Instant>,
        victim_nodes: VictimNodes,
        victims_weight: u64,
        policy_weight: u64,
        Ghost(weights): Ghost<Seq<u64>>,
    )
        requires
            old(self).wf(),
            !old(self).cache@.contains_key(key),
            entry::may_weigh(old(self).weigher, *key, value, policy_weight),
            old(self)@.may_weigh_oldest(weights),
            model::total(weights) >= policy_weight,
            victims::victim_ids(victim_nodes) == old(self).deques.probation.ids().take(
                weights.len() as int,
            ),
            victims_weight == capped(model::total(weights)),
        ensures
            final(self).wf(),
            final(self).like(old(self)),
            final(self)@ == old(self)@.remove_all(
                order::keys_of(old(self)@.recency.take(weights.len() as int)),
                model::total(weights),
            ).store(*key, value, hash, timestamp, policy_weight),
    {
        let ghost before = self@;
        proof {
            self.lemma_wf();
            self.deques.probation.lemma_wf();
            if before.weigher is None {
                assert forall|i: int| 0 <= i < weights.len() implies #[trigger] weights[i] == 1 by {}
                model::lemma_total_of_ones(weights);
            }
            order::lemma_without_front::<K, _>(before.recency, weights.len() as int);
        }
        self.remove_victims(&victim_nodes);
        self.saturating_sub_from_total_weight(victims_weight);
        proof {
            let victims = order::keys_of(before.recency.take(weights.len() as int));
            assert(self@ =~= before.remove_all(victims, model::total(weights)));
            assert(!self@.entries.contains_key(*key));
        }
        self.add_entry(key, value, hash, timestamp, policy_weight);
    }

    /// Puts in an entry for a key that has none, if there is room for it or if it is popular
    /// enough. The weights of the entries that might have to leave are returned.
    fn handle_insert(
        &mut self,
        key: Rc<K>,
        value: V,
        hash: u64,
        policy_weight: u64,
        timestamp: Option<Instant>,
    ) -> (weights: Ghost<Seq<u64>>)
        requires
            old(self).wf(),
            !old(self).cache@.contains_key(key),
            entry::may_weigh(old(self).weigher, *key, value, policy_weight),
        ensures
            final(self).wf(),
            final(self).like(old(self)),
            !old(self)@.has_room(policy_weight) && !old(self)@.too_heavy(policy_weight) ==> old(
                self,
            )@.search_ends(weights@, policy_weight, old(self)@.sketch.frequency(hash)),
            final(self)@ == old(self)@.put_new(
                *key,
                value,
                hash,
                timestamp,
                policy_weight,
                weights@,
            ),
    {
        let ghost before = self@;
        if self.has_enough_capacity(policy_weight, self.weighted_size) {
            self.add_entry(key, value, hash, timestamp, policy_weight);
            return Ghost(Seq::empty());
        }
        if let Some(max) = self.max_capacity {
            if policy_weight > max {
                // The candidate is too big to fit in the cache. Reject it.
                return Ghost(Seq::empty());
            }
        }
        let mut candidate = EntrySizeAndFrequency::new(policy_weight);
        candidate.add_frequency(&self.frequency_sketch, hash);
        proof {
            self.lemma_wf();
            frequency_sketch::law_frequency_bounded(before.sketch, hash);
        }
        let (result, weights) = self.decide_admission(&candidate);
        match result {
            AdmissionResult::Admitted { victim_nodes, victims_weight } => {
                self.replace_victims(
                    key,
                    value,
                    hash,
                    timestamp,
                    victim_nodes,
                    victims_weight,
                    policy_weight,
                    weights,
                );
            },
            AdmissionResult::Rejected => {},
        }
        weights
    }

    /// Gives the entry of a key another value.
    fn handle_update(
        &mut self,
        key: K,
        value: V,
        timestamp: Option<Instant>,
        policy_weight: u64,
        region: CacheRegion,
        use_id: usize,
        write_id: Option<usize>,
        old_policy_weight: u64,
    )
        requires
            old(self).wf(),
            old(self).cache@.contains_key(Rc::new(key)),
            old(self).cache@[Rc::new(key)].region == region,
            old(self).cache@[Rc::new(key)].access_order_q_node == use_id,
            old(self).cache@[Rc::new(key)].write_order_q_node == write_id,
            entry::may_weigh(old(self).weigher, key, value, policy_weight),
            entry::may_weigh(old(self).weigher, key, old(self).cache@[Rc::new(key)].value, old_policy_weight),
        ensures
            final(self).wf(),
            final(self).like(old(self)),
            final(self)@ == old(self)@.update(
                key,
                value,
                timestamp,
                old_policy_weight,
                policy_weight,
            ),
    {
        let ghost k: Rc<K> = Rc::new(key);
        let ghost links = self.links();
        let ghost p = order::place(links.uses, key);
        let ghost q = order::place(links.writes, key);
        proof {
            links.lemma_keys();
            assert(links.entry_linked(k));
            assert(links.use_linked(p));
            self.deques.probation.lemma_wf();
            self.deques.probation.lemma_position(p);
            self.deques.write_order.lemma_wf();
            if links.dated {
                assert(links.write_linked(q));
                self.deques.write_order.lemma_position(q);
            }
        }
        let entry = ValueEntry {
            value,
            region,
            access_order_q_node: use_id,
            write_order_q_node: write_id,
        };
        Self::record_hit(&mut self.deques, &entry, timestamp);
        if let Some(id) = write_id {
            if let Some(ts) = timestamp {
                self.deques.set_last_modified(id, ts);
            }
            self.deques.move_to_back_wo(id);
        }
        let _ = store::insert(&mut self.cache, Rc::new(key), entry);
        self.saturating_sub_from_total_weight(old_policy_weight);
        self.saturating_add_to_total_weight(policy_weight);
        proof {
            let used = self.deques.probation@.last();
            links.lemma_used(p, used);
            let linked = links.used(p, used);
            linked.lemma_revalued(k, value);
            if links.dated {
                let written = self.deques.write_order@.last();
                linked.revalued(k, value).lemma_written(q, written);
                assert(self.deques.write_order@ =~= order::rewrite(links.writes, q, timestamp));
                assert(self.links() == linked.revalued(k, value).written(q, written));
            } else {
                assert(self.links() == linked.revalued(k, value));
            }
            assert(self@.entries =~= old(self)@.entries.insert(key, value));
        }
    }

    /// Puts in `value` for `key`, whose hash is `hash`, at the time `timestamp`.
    pub fn insert_hashed(&mut self, key: K, value: V, hash: u64, timestamp: Option<Instant>)
        requires
            old(self).wf(),
        ensures
            final(self).wf(),
            final(self).like(old(self)),
            exists|weight: u64, old_weight: u64, weights: Seq<u64>|
                old(self)@.inserts(
                    key,
                    value,
                    hash,
                    timestamp,
                    weight,
                    old_weight,
                    weights,
                    final(self)@,
                ),
    {
        let ghost before = self@;
        let ghost k = key;
        let policy_weight: u64 = entry::weigh(&mut self.weigher, &key, &value);
        match store::get(&self.cache, &key) {
            Some(old_entry) => {
                let old_policy_weight: u64 = entry::weigh(
                    &mut self.weigher,
                    &key,
                    &old_entry.value,
                );
                let region = old_entry.region;
                let use_id: usize = old_entry.access_order_q_node;
                let write_id: Option<usize> = old_entry.write_order_q_node;
                self.handle_update(
                    key,
                    value,
                    timestamp,
                    policy_weight,
                    region,
                    use_id,
                    write_id,
                    old_policy_weight,
                );
                assert(before.inserts(
                    k,
                    value,
                    hash,
                    timestamp,
                    policy_weight,
                    old_policy_weight,
                    Seq::empty(),
                    self@,
                ));
            },
            None => {
                let weights = self.handle_insert(
                    Rc::new(key),
                    value,
                    hash,
                    policy_weight,
                    timestamp,
                );
                assert(before.inserts(
                    k,
                    value,
                    hash,
                    timestamp,
                    policy_weight,
                    0,
                    weights@,
                    self@,
                ));
            },
        }
    }
}

/// The weight and the popularity of one or more entries.
struct EntrySizeAndFrequency {
    weight: u64,
    freq: u32,
}

impl EntrySizeAndFrequency {
    fn new(policy_weight: u64) -> (entry: Self)
        ensures
            entry.weight == policy_weight,
            entry.freq == 0,
    {
        EntrySizeAndFrequency { weight: policy_weight, freq: 0 }
    }

    /// Adds the weight of an entry, which is returned too.
    fn add_policy_weight<K, V>(
        &mut self,
        key: &K,
        value: &V,
        weigher: &mut Option<Weigher<K, V>>,
    ) -> (weight: Ghost<u64>)
        requires
            entry::accepts_all(*old(weigher)),
        ensures
            entry::may_weigh(*old(weigher), *key, *value, weight@),
            *final(weigher) == *old(weigher),
            final(self).weight == capped((old(self).weight + weight@) as nat),
            final(self).freq == old(self).freq,
    {
        let weight: u64 = entry::weigh(weigher, key, value);
        self.weight = self.weight.saturating_add(weight);
        Ghost(weight)
    }

    /// Adds the popularity of an entry.
    fn add_frequency(&mut self, freq: &FrequencySketch, hash: u64)
        requires
            freq.wf(),
            old(self).freq <= u32::MAX - 255,
        ensures
            final(self).weight == old(self).weight,
            final(self).freq == old(self).freq + freq@.frequency(hash),
    {
        self.freq = self.freq + freq.frequency(hash) as u32;
    }
}

/// Whether a new entry is let in, and if so, the entries that leave for it.
enum AdmissionResult {
    Admitted { victim_nodes: VictimNodes, victims_weight: u64 },
    Rejected,
}

/// A weight as far as it can be represented.
spec fn capped(weight: nat) -> u64 {
    if weight <= u64::MAX {
        weight as u64
    } else {
        u64::MAX
    }
}

/// The keys behind some references.
spec fn pointees<K>(keys: Seq<Rc<K>>) -> Set<K> {
    Set::new(|k: K| exists|i: int| 0 <= i < keys.len() && *(#[trigger] keys[i]) == k)
}

/// The key behind one reference.
spec fn only<K>(key: Rc<K>) -> Set<K> {
    set![*key]
}

/// One more reference brings one more key.
proof fn lemma_pointees_push<K>(keys: Seq<Rc<K>>, key: Rc<K>)
    ensures
        pointees(keys.push(key)) == pointees(keys).insert(*key),
{
    let longer = keys.push(key);
    assert forall|k: K| pointees(keys).insert(*key).contains(k) implies pointees(longer).contains(
        k,
    ) by {
        if k == *key {
            assert(*longer[keys.len() as int] == k);
        } else {
            let i = choose|i: int| 0 <= i < keys.len() && *(#[trigger] keys[i]) == k;
            assert(*longer[i] == k);
        }
    }
    assert forall|k: K| pointees(longer).contains(k) implies pointees(keys).insert(*key).contains(
        k,
    ) by {
        let i = choose|i: int| 0 <= i < longer.len() && *(#[trigger] longer[i]) == k;
        if i < keys.len() {
            assert(*keys[i] == k);
        }
    }
    assert(pointees(longer) =~= pointees(keys).insert(*key));
}

/// Taking out the entry of a key that has none changes nothing.
proof fn lemma_remove_absent<K, V>(cache: CacheView<K, V>, k: K)
    requires
        cache.ordered(),
        !cache.entries.contains_key(k),
    ensures
        cache.remove(k, 0) == cache,
{
    assert forall|i: int| 0 <= i < cache.recency.len() implies (#[trigger] cache.recency[i]).of()
        != k by {
        order::lemma_place::<K, _>(cache.recency, i);
    }
    assert forall|i: int| 0 <= i < cache.writes.len() implies (#[trigger] cache.writes[i]).of()
        != k by {
        order::lemma_place::<K, _>(cache.writes, i);
    }
    order::lemma_without_none::<K, _>(cache.recency, set![k]);
    order::lemma_without_none::<K, _>(cache.writes, set![k]);
    assert(cache.remove(k, 0).entries =~= cache.entries);
}

} // verus!
