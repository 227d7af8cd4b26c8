//! How a cache is set up.

use crate::unsync::cache::Cache;
use crate::unsync::entry;
use crate::unsync::entry::Weigher;
use crate::unsync::model::CacheView;
use std::collections::hash_map::RandomState;
use std::hash::{BuildHasher, Hash};
use std::marker::PhantomData;
use std::time::Duration;
use vstd::prelude::*;

verus! {

/// The settings of a cache that is to be made.
#[verifier::ext_equal]
#[verifier::reject_recursive_types(K)]
#[verifier::reject_recursive_types(V)]
pub struct BuilderView<K, V> {
    pub max_capacity: Option<usize>,
    pub initial_capacity: Option<usize>,
    pub weigher: Option<Weigher<K, V>>,
    pub time_to_live: Option<Duration>,
    pub time_to_idle: Option<Duration>,
}

impl<K, V> BuilderView<K, V> {
    /// No setting is made.
    pub open spec fn new() -> Self {
        BuilderView {
            max_capacity: None,
            initial_capacity: None,
            weigher: None,
            time_to_live: None,
            time_to_idle: None,
        }
    }

    /// What a cache with these settings holds at first.
    pub open spec fn cache(self) -> CacheView<K, V> {
        CacheView::new(self.max_capacity, self.time_to_live, self.time_to_idle, self.weigher)
    }
}

/// Builds a [`Cache`] with various settings.
#[verifier::reject_recursive_types(K)]
#[verifier::reject_recursive_types(V)]
pub struct CacheBuilder<K, V, C> {
    max_capacity: Option<usize>,
    initial_capacity: Option<usize>,
    weigher: Option<Weigher<K, V>>,
    time_to_live: Option<Duration>,
    time_to_idle: Option<Duration>,
    cache_type: PhantomData<C>,
}

impl<K, V, C> View for CacheBuilder<K, V, C> {
    type V = BuilderView<K, V>;

    closed spec fn view(&self) -> BuilderView<K, V> {
        BuilderView {
            max_capacity: self.max_capacity,
            initial_capacity: self.initial_capacity,
            weigher: self.weigher,
            time_to_live: self.time_to_live,
            time_to_idle: self.time_to_idle,
        }
    }
}

impl<K, V> Default for CacheBuilder<K, V, Cache<K, V, RandomState>> {
    fn default() -> (builder: Self)
        ensures
            builder@ == BuilderView::<K, V>::new(),
            builder@.max_capacity is None,
            builder@.initial_capacity is None,
            builder@.weigher is None,
            builder@.time_to_live is None,
            builder@.time_to_idle is None,
    {
        CacheBuilder {
            max_capacity: None,
            initial_capacity: None,
            weigher: None,
            time_to_live: None,
            time_to_idle: None,
            cache_type: PhantomData,
        }
    }
}

impl<K: Hash + Eq, V> CacheBuilder<K, V, Cache<K, V, RandomState>> {
    /// A builder of caches that hold up to `max_capacity` entries.
    pub fn new(max_capacity: usize) -> (builder: Self)
        ensures
            builder@ == (BuilderView::<K, V> {
                max_capacity: Some(max_capacity),
                ..BuilderView::new()
            }),
            builder@.max_capacity == Some(max_capacity),
            builder@.initial_capacity is None,
            builder@.weigher is None,
            builder@.time_to_live is None,
            builder@.time_to_idle is None,
    {
        CacheBuilder {
            max_capacity: Some(max_capacity),
            initial_capacity: None,
            weigher: None,
            time_to_live: None,
            time_to_idle: None,
            cache_type: PhantomData,
        }
    }

    /// Builds a cache.
    pub fn build(self) -> (cache: Cache<K, V, RandomState>)
        requires
            vstd::std_specs::hash::obeys_key_model::<K>(),
            entry::accepts_all(self@.weigher),
        ensures
            cache.wf(),
            cache@ == self@.cache(),
            match self@.max_capacity {
                Some(max) => cache@.max_capacity is Some && cache@.max_capacity->0 == max,
                None => cache@.max_capacity is None,
            },
            cache@.entries == Map::<K, V>::empty(),
            cache@.time_to_live == self@.time_to_live,
            cache@.time_to_idle == self@.time_to_idle,
            cache@.weigher == self@.weigher,
    {
        self.build_with_hasher(RandomState::new())
    }

    /// Builds a cache that hashes its keys with `hasher`.
    pub fn build_with_hasher<S: BuildHasher + Clone>(self, hasher: S) -> (cache: Cache<K, V, S>)
        requires
            vstd::std_specs::hash::obeys_key_model::<K>(),
            vstd::std_specs::hash::builds_valid_hashers::<S>(),
            entry::accepts_all(self@.weigher),
        ensures
            cache.wf(),
            cache.hasher() == hasher,
            cache@ == self@.cache(),
            match self@.max_capacity {
                Some(max) => cache@.max_capacity is Some && cache@.max_capacity->0 == max,
                None => cache@.max_capacity is None,
            },
            cache@.entries == Map::<K, V>::empty(),
            cache@.time_to_live == self@.time_to_live,
            cache@.time_to_idle == self@.time_to_idle,
            cache@.weigher == self@.weigher,
    {
        Cache::with_everything(
            self.max_capacity,
            self.initial_capacity,
            hasher,
            self.weigher,
            self.time_to_live,
            self.time_to_idle,
        )
    }
}

impl<K, V, C> CacheBuilder<K, V, C> {
    /// Sets how much the entries of the cache may weigh together.
    pub fn max_capacity(self, max_capacity: usize) -> (builder: Self)
        ensures
            builder@ == (BuilderView { max_capacity: Some(max_capacity), ..self@ }),
    {
        CacheBuilder { max_capacity: Some(max_capacity), ..self }
    }

    /// Sets for how many entries room is made from the beginning.
    pub fn initial_capacity(self, capacity: usize) -> (builder: Self)
        ensures
            builder@ == (BuilderView { initial_capacity: Some(capacity), ..self@ }),
    {
        CacheBuilder { initial_capacity: Some(capacity), ..self }
    }

    /// Sets the function that weighs the entries of the cache.
    pub fn weigher(self, weigher: impl FnMut(&K, &V) -> u64 + 'static) -> (builder: Self)
        requires
            forall|k: K, v: V| #[trigger] call_requires(weigher, (&k, &v)),
        ensures
            entry::accepts_all(builder@.weigher),
            builder@.weigher matches Some(w) && forall|k: K, v: V, weight: u64| #[trigger]
                w.weighs(k, v, weight) <==> call_ensures(weigher, (&k, &v), weight),
            builder@ == (BuilderView { weigher: builder@.weigher, ..self@ }),
    {
        CacheBuilder { weigher: Some(Box::new(weigher)), ..self }
    }

    /// Sets how long an entry lasts after it was inserted.
    pub fn time_to_live(self, duration: Duration) -> (builder: Self)
        ensures
            builder@ == (BuilderView { time_to_live: Some(duration), ..self@ }),
    {
        CacheBuilder { time_to_live: Some(duration), ..self }
    }

    /// Sets how long an entry lasts after it was last asked for or inserted.
    pub fn time_to_idle(self, duration: Duration) -> (builder: Self)
        ensures
            builder@ == (BuilderView { time_to_idle: Some(duration), ..self@ }),
    {
        CacheBuilder { time_to_idle: Some(duration), ..self }
    }
}

} // verus!
