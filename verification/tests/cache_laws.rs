use moka::common::time::{Clock, Instant};
use moka::unsync::{Cache, CacheBuilder};
use std::cell::Cell;
use std::collections::hash_map::DefaultHasher;
use std::hash::BuildHasherDefault;
use std::rc::Rc;
use std::time::Duration;

fn value(n: usize) -> String {
    format!("value {}", n)
}

fn at(secs: u64) -> Option<Instant> {
    Some(Instant::new(u128::from(secs) * 1_000_000_000))
}

#[test]
fn every_fourth_entry_is_discarded() {
    const NUM_KEYS: usize = 64;
    let mut cache = Cache::new(10_000);
    for key in 0..NUM_KEYS {
        cache.insert(key, value(key));
    }
    for key in (0..NUM_KEYS).step_by(4) {
        cache.invalidate(&key);
    }
    for key in 0..NUM_KEYS {
        if key % 4 == 0 {
            assert_eq!(cache.get(&key), None);
        } else {
            assert_eq!(cache.get(&key), Some(&value(key)));
        }
    }
    assert_eq!(cache.len(), 48);
}

#[test]
fn what_is_put_in_is_found() {
    let mut cache: Cache<u64, &str> = Cache::new(2);
    assert!(cache.is_empty());
    assert_eq!(cache.get(&1), None);
    cache.insert(1, "one");
    assert_eq!(cache.get(&1), Some(&"one"));
    cache.insert(1, "uno");
    assert_eq!(cache.get(&1), Some(&"uno"));
    assert_eq!(cache.len(), 1);
    assert!(!cache.is_empty());
}

#[test]
fn settings_are_reported() {
    let cache: Cache<u8, u8> = Cache::new(7);
    assert_eq!(cache.max_capacity(), Some(7));
    assert_eq!(cache.time_to_live(), None);
    assert_eq!(cache.time_to_idle(), None);

    let cache: Cache<u8, u8> = Cache::builder()
        .max_capacity(9)
        .initial_capacity(5)
        .time_to_live(Duration::from_secs(3))
        .time_to_idle(Duration::from_millis(4))
        .build();
    assert_eq!(cache.max_capacity(), Some(9));
    assert_eq!(cache.time_to_live(), Some(Duration::from_secs(3)));
    assert_eq!(cache.time_to_idle(), Some(Duration::from_millis(4)));

    let cache: Cache<u8, u8> = Cache::builder().build();
    assert_eq!(cache.max_capacity(), None);
}

#[test]
fn estimator_of_an_unbounded_cache() {
    let cache: Cache<u8, u8> = Cache::builder().build();
    let most: usize = if usize::BITS == 32 { 1 << 24 } else { 1 << 30 };
    assert_eq!(cache.frequency_sketch_len(), most);
    let cache: Cache<u8, u8> = Cache::new(129);
    assert_eq!(cache.frequency_sketch_len(), 256);
}

#[test]
fn impossible_initial_capacity_is_not_reserved() {
    let mut cache: Cache<u64, u64> = CacheBuilder::new(3).initial_capacity(usize::MAX).build();
    cache.insert(1, 2);
    assert_eq!(cache.get(&1), Some(&2));
}

#[test]
fn unbounded_cache_keeps_everything() {
    let mut cache: Cache<u64, u64> = Cache::builder().build();
    for k in 0..1000 {
        cache.insert(k, 2 * k);
    }
    assert_eq!(cache.len(), 1000);
    for k in 0..1000 {
        assert_eq!(cache.get(&k), Some(&(2 * k)));
    }
}

#[test]
fn no_more_entries_than_the_capacity() {
    let mut cache: Cache<u64, u64> = Cache::new(5);
    for k in 0..200 {
        cache.insert(k % 17, k);
        let _ = cache.get(&(k % 13));
        assert!(cache.len() <= 5);
    }
    assert_eq!(cache.len(), 5);
}

#[test]
fn cache_without_capacity_holds_nothing() {
    let mut cache: Cache<u64, u64> = Cache::new(0);
    for _ in 0..20 {
        cache.insert(1, 1);
        assert_eq!(cache.get(&1), None);
    }
    assert!(cache.is_empty());
}

#[test]
fn refused_entry_changes_nothing() {
    let mut cache: Cache<u64, u64> = Cache::new(2);
    cache.insert(1, 10);
    cache.insert(2, 20);
    cache.insert(3, 30);
    assert_eq!(cache.len(), 2);
    assert_eq!(cache.get(&3), None);
    assert_eq!(cache.get(&1), Some(&10));
    assert_eq!(cache.get(&2), Some(&20));
}

#[test]
fn least_recently_used_entry_leaves() {
    let mut cache: Cache<u64, u64> = Cache::new(2);
    cache.insert_hashed(1, 10, 111, None);
    cache.insert_hashed(2, 20, 222, None);
    assert_eq!(cache.get_hashed(&1, 111, None), Some(&10));
    // 2 is the least recently used one now, and has not been asked for.
    assert_eq!(cache.get_hashed(&3, 333, None), None);
    cache.insert_hashed(3, 30, 333, None);
    assert_eq!(cache.get_hashed(&2, 222, None), None);
    assert_eq!(cache.get_hashed(&1, 111, None), Some(&10));
    assert_eq!(cache.get_hashed(&3, 333, None), Some(&30));
}

#[test]
fn equal_popularity_is_not_enough() {
    let mut cache: Cache<u64, u64> = Cache::new(1);
    cache.insert_hashed(1, 10, 111, None);
    assert_eq!(cache.get_hashed(&1, 111, None), Some(&10));
    assert_eq!(cache.get_hashed(&2, 222, None), None);
    cache.insert_hashed(2, 20, 222, None);
    assert_eq!(cache.get_hashed(&2, 222, None), None);
    // Now it has been asked for twice.
    cache.insert_hashed(2, 20, 222, None);
    assert_eq!(cache.get_hashed(&2, 222, None), Some(&20));
    assert_eq!(cache.get_hashed(&1, 111, None), None);
}

#[test]
fn many_light_entries_leave_for_a_heavy_one() {
    let mut cache: Cache<u64, u64> =
        Cache::builder().max_capacity(20).weigher(|_k: &u64, v: &u64| *v).build();
    for k in 0..20 {
        cache.insert(k, 1);
    }
    assert_eq!(cache.len(), 20);
    assert_eq!(cache.get(&100), None);
    cache.insert(100, 12);
    assert_eq!(cache.get(&100), Some(&12));
    assert_eq!(cache.len(), 9);
    for k in 0..12 {
        assert_eq!(cache.get(&k), None);
    }
    for k in 12..20 {
        assert_eq!(cache.get(&k), Some(&1));
    }
}

#[test]
fn too_heavy_entry_is_refused() {
    let mut cache: Cache<u64, u64> =
        Cache::builder().max_capacity(10).weigher(|_k: &u64, v: &u64| *v).build();
    cache.insert(1, 4);
    for _ in 0..10 {
        assert_eq!(cache.get(&2), None);
    }
    cache.insert(2, 11);
    assert_eq!(cache.get(&2), None);
    assert_eq!(cache.get(&1), Some(&4));
    cache.insert(2, u64::MAX);
    assert_eq!(cache.get(&2), None);
    cache.insert(2, 6);
    assert_eq!(cache.get(&2), Some(&6));
    assert_eq!(cache.len(), 2);
}

#[test]
fn update_exchanges_the_weight() {
    let mut cache: Cache<u64, u64> =
        Cache::builder().max_capacity(10).weigher(|_k: &u64, v: &u64| *v).build();
    cache.insert(1, 8);
    cache.insert(2, 5);
    assert_eq!(cache.get(&2), None);
    cache.insert(1, 3);
    cache.insert(3, 7);
    assert_eq!(cache.get(&1), Some(&3));
    assert_eq!(cache.get(&3), Some(&7));
    cache.insert(4, 1);
    assert_eq!(cache.get(&4), None);
}

#[test]
fn update_may_exceed_the_capacity() {
    let mut cache: Cache<u64, u64> =
        Cache::builder().max_capacity(10).weigher(|_k: &u64, v: &u64| *v).build();
    cache.insert(1, 8);
    cache.insert(1, 40);
    assert_eq!(cache.get(&1), Some(&40));
    cache.insert(2, 0);
    assert_eq!(cache.get(&2), None);
}

#[test]
fn accounted_weight_does_not_overflow() {
    let mut cache: Cache<u64, u64> = Cache::builder().weigher(|_k: &u64, v: &u64| *v).build();
    cache.insert(1, u64::MAX);
    cache.insert(2, u64::MAX);
    assert_eq!(cache.len(), 2);
    cache.insert(1, 1);
    assert_eq!(cache.get(&1), Some(&1));
    assert_eq!(cache.get(&2), Some(&u64::MAX));
}

#[test]
fn weigher_is_called_for_the_new_and_the_old_value() {
    let calls = Rc::new(Cell::new(0u64));
    let seen = Rc::clone(&calls);
    let mut cache: Cache<u64, u64> = Cache::builder()
        .max_capacity(10)
        .weigher(move |_k: &u64, _v: &u64| {
            seen.set(seen.get() + 1);
            1
        })
        .build();
    cache.insert(1, 1);
    assert_eq!(calls.get(), 1);
    cache.insert(1, 2);
    assert_eq!(calls.get(), 3);
    let _ = cache.get(&1);
    assert_eq!(calls.get(), 3);
}

#[test]
fn discarded_entries_give_their_room_back() {
    let mut cache: Cache<&str, &str> = Cache::new(1);
    cache.insert("a", "alice");
    cache.invalidate(&"a");
    cache.insert("b", "bob");
    assert_eq!(cache.get(&"b"), Some(&"bob"));
    assert_eq!(cache.get(&"a"), None);
    cache.invalidate(&"absent");
    cache.insert("c", "cindy");
    assert_eq!(cache.get(&"c"), None);
    cache.invalidate_entries_if(|_k, v| *v == "bob");
    cache.insert("c", "cindy");
    assert_eq!(cache.get(&"c"), Some(&"cindy"));
    assert!(cache.discard(&"c"));
    cache.insert("d", "david");
    assert_eq!(cache.get(&"d"), Some(&"david"));
    cache.invalidate_all();
    cache.insert("e", "emma");
    assert_eq!(cache.get(&"e"), Some(&"emma"));
    assert_eq!(cache.len(), 1);
}

#[test]
fn discarded_weight_is_given_back() {
    let mut cache: Cache<u64, u64> =
        Cache::builder().max_capacity(10).weigher(|_k: &u64, v: &u64| *v).build();
    cache.insert(1, 6);
    cache.insert(2, 4);
    cache.insert(3, 6);
    assert_eq!(cache.get(&3), None);
    cache.invalidate(&1);
    cache.insert(4, 7);
    assert_eq!(cache.get(&4), None);
    cache.insert(5, 6);
    assert_eq!(cache.get(&5), Some(&6));
    cache.invalidate_entries_if(|_k, _v| true);
    cache.insert(6, 10);
    assert_eq!(cache.get(&6), Some(&10));
}

#[test]
fn expired_entries_give_their_room_back() {
    let mut cache: Cache<u64, u64> =
        CacheBuilder::new(3).time_to_live(Duration::from_secs(10)).build();
    let (clock, mock) = Clock::mock();
    cache.set_expiration_clock(Some(clock));
    for round in 0..4 {
        for k in 0..3 {
            cache.insert(10 * round + k, k);
        }
        assert_eq!(cache.len(), 3);
        for k in 0..3 {
            assert_eq!(cache.get(&(10 * round + k)), Some(&k));
        }
        mock.increment(Duration::from_secs(10));
    }

    let mut cache: Cache<u64, u64> =
        CacheBuilder::new(2).time_to_idle(Duration::from_secs(10)).build();
    cache.insert_hashed(1, 10, 11, at(0));
    cache.insert_hashed(2, 20, 22, at(5));
    cache.evict(at(10).unwrap());
    assert_eq!(cache.len(), 1);
    cache.insert_hashed(3, 30, 33, at(10));
    assert_eq!(cache.get_hashed(&3, 33, at(10)), Some(&30));
    assert_eq!(cache.get_hashed(&2, 22, at(10)), Some(&20));
    cache.insert_hashed(4, 40, 44, at(10));
    assert_eq!(cache.get_hashed(&4, 44, at(10)), None);
}

#[test]
fn more_popular_candidate_is_let_in_for_the_same_entries() {
    let fill = || -> Cache<u64, u64> {
        let mut cache: Cache<u64, u64> =
            Cache::builder().max_capacity(4).weigher(|_k: &u64, v: &u64| *v).build();
        for k in 1..=4 {
            cache.insert_hashed(k, 1, k * 1111, None);
            assert_eq!(cache.get_hashed(&k, k * 1111, None), Some(&1));
        }
        cache
    };
    for asked in 0..8 {
        for weight in 1..=4 {
            let mut cache = fill();
            for _ in 0..asked {
                assert_eq!(cache.get_hashed(&9, 987_654_321, None), None);
            }
            cache.insert_hashed(9, weight, 987_654_321, None);
            let admitted = asked > weight;
            assert_eq!(cache.get_hashed(&9, 987_654_321, None).is_some(), admitted);
            for k in 1..=4 {
                let left = admitted && k <= weight;
                assert_eq!(cache.get_hashed(&k, k * 1111, None).is_none(), left);
            }
        }
    }
}

#[test]
fn popularity_outlives_the_entries() {
    let mut cache: Cache<u64, u64> = Cache::new(1);
    cache.insert(1, 10);
    for _ in 0..5 {
        assert_eq!(cache.get(&1), Some(&10));
    }
    cache.invalidate_all();
    cache.insert(2, 20);
    assert_eq!(cache.get(&2), Some(&20));
    cache.insert(1, 11);
    assert_eq!(cache.get(&1), Some(&11));
    assert_eq!(cache.get(&2), None);
}

#[test]
fn discard_takes_out_one_entry() {
    let mut cache: Cache<u64, u64> = Cache::new(5);
    cache.insert(1, 10);
    cache.insert(2, 20);
    assert!(cache.discard(&1));
    assert!(!cache.discard(&1));
    assert_eq!(cache.get(&1), None);
    assert_eq!(cache.get(&2), Some(&20));
}

#[test]
fn predicate_sees_every_entry_once() {
    let mut cache: Cache<u64, u64> = Cache::new(100);
    for k in 0..50 {
        cache.insert(k, k * k);
    }
    let mut seen: Vec<u64> = Vec::new();
    cache.invalidate_entries_if(|k, v| {
        assert_eq!(*v, *k * *k);
        seen.push(*k);
        *k % 3 == 0
    });
    seen.sort();
    assert_eq!(seen, (0..50).collect::<Vec<u64>>());
    assert_eq!(cache.len(), 33);
    for k in 0..50 {
        if k % 3 == 0 {
            assert_eq!(cache.get(&k), None);
        } else {
            assert_eq!(cache.get(&k), Some(&(k * k)));
        }
    }
}

#[test]
fn time_to_live_ends_to_the_nanosecond() {
    let mut cache: Cache<u64, u64> =
        CacheBuilder::new(10).time_to_live(Duration::from_nanos(10)).build();
    let start = Instant::new(5);
    cache.insert_hashed(1, 10, 7, Some(start));
    assert_eq!(cache.get_hashed(&1, 7, Some(Instant::new(14))), Some(&10));
    assert_eq!(cache.get_hashed(&1, 7, Some(Instant::new(15))), None);
    assert_eq!(cache.len(), 1);
    cache.evict(Instant::new(14));
    assert_eq!(cache.len(), 1);
    cache.evict(Instant::new(15));
    assert_eq!(cache.len(), 0);
}

#[test]
fn use_prolongs_idle_time_but_not_life() {
    let mut cache: Cache<u64, u64> = CacheBuilder::new(10)
        .time_to_live(Duration::from_secs(10))
        .time_to_idle(Duration::from_secs(4))
        .build();
    cache.insert_hashed(1, 10, 7, at(0));
    assert_eq!(cache.get_hashed(&1, 7, at(3)), Some(&10));
    assert_eq!(cache.get_hashed(&1, 7, at(6)), Some(&10));
    assert_eq!(cache.get_hashed(&1, 7, at(9)), Some(&10));
    assert_eq!(cache.get_hashed(&1, 7, at(10)), None);

    cache.insert_hashed(2, 20, 8, at(10));
    assert_eq!(cache.get_hashed(&2, 8, at(14)), None);
}

#[test]
fn endless_time_to_live() {
    let mut cache: Cache<u64, u64> =
        CacheBuilder::new(10).time_to_live(Duration::MAX).build();
    let last = Some(Instant::new(u128::MAX));
    cache.insert_hashed(1, 10, 7, last);
    assert_eq!(cache.get_hashed(&1, 7, last), Some(&10));
    cache.evict(Instant::new(u128::MAX));
    assert_eq!(cache.len(), 1);
}

#[test]
fn a_batch_of_expired_entries_leaves_at_a_time() {
    let mut cache: Cache<u64, u64> =
        CacheBuilder::new(1000).time_to_live(Duration::from_secs(10)).build();
    let (clock, mock) = Clock::mock();
    cache.set_expiration_clock(Some(clock));
    for k in 0..250 {
        cache.insert(k, k);
    }
    mock.increment(Duration::from_secs(10));
    assert_eq!(cache.len(), 250);
    // Even entries that no look has come upon yet are not found.
    assert_eq!(cache.get(&249), None);
    assert_eq!(cache.len(), 150);
    cache.invalidate(&1000);
    assert_eq!(cache.len(), 50);
    cache.insert(1000, 1);
    assert_eq!(cache.len(), 1);
}

#[test]
fn idle_entries_leave_in_the_order_of_their_uses() {
    let mut cache: Cache<u64, u64> =
        CacheBuilder::new(10).time_to_idle(Duration::from_secs(10)).build();
    cache.insert_hashed(1, 10, 11, at(0));
    cache.insert_hashed(2, 20, 22, at(1));
    assert_eq!(cache.get_hashed(&1, 11, at(5)), Some(&10));
    cache.evict(at(12).unwrap());
    assert_eq!(cache.len(), 1);
    assert_eq!(cache.get_hashed(&2, 22, at(12)), None);
    assert_eq!(cache.get_hashed(&1, 11, at(12)), Some(&10));
}

#[test]
fn system_clock_is_read_without_a_mock() {
    let mut cache: Cache<u64, u64> =
        CacheBuilder::new(10).time_to_live(Duration::from_secs(3600)).build();
    cache.insert(1, 10);
    assert_eq!(cache.get(&1), Some(&10));
    let mut cache: Cache<u64, u64> =
        CacheBuilder::new(10).time_to_live(Duration::from_nanos(0)).build();
    cache.insert(1, 10);
    assert_eq!(cache.get(&1), None);
}

#[test]
fn clock_can_be_taken_away_again() {
    let mut cache: Cache<u64, u64> =
        CacheBuilder::new(10).time_to_live(Duration::from_secs(1000)).build();
    let (clock, mock) = Clock::mock();
    cache.set_expiration_clock(Some(clock));
    cache.insert(1, 10);
    mock.increment(Duration::from_secs(1000));
    cache.set_expiration_clock(None);
    assert_eq!(cache.get(&1), Some(&10));
}

#[test]
fn other_hashers_can_be_used() {
    let mut cache: Cache<String, u64, BuildHasherDefault<DefaultHasher>> =
        CacheBuilder::new(2).build_with_hasher(BuildHasherDefault::default());
    cache.insert(value(1), 1);
    cache.insert(value(2), 2);
    assert_eq!(cache.get(&value(1)), Some(&1));
    assert_eq!(cache.get(&value(3)), None);
    cache.insert(value(3), 3);
    // 3 has been asked for once, 2 never.
    assert_eq!(cache.get(&value(3)), Some(&3));
    assert_eq!(cache.get(&value(2)), None);
}
