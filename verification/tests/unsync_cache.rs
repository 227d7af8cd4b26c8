use moka::common::time::Clock;
use moka::unsync::{Cache, CacheBuilder};
use std::collections::HashSet;
use std::time::Duration;

#[test]
fn basic_single_thread() {
    let mut cache = Cache::new(3);

    cache.insert("a", "alice");
    cache.insert("b", "bob");
    assert_eq!(cache.get(&"a"), Some(&"alice"));
    assert_eq!(cache.get(&"b"), Some(&"bob"));
    // counts: a -> 1, b -> 1

    cache.insert("c", "cindy");
    assert_eq!(cache.get(&"c"), Some(&"cindy"));
    // counts: a -> 1, b -> 1, c -> 1

    assert_eq!(cache.get(&"a"), Some(&"alice"));
    assert_eq!(cache.get(&"b"), Some(&"bob"));
    // counts: a -> 2, b -> 2, c -> 1

    // "d" should not be admitted because its frequency is too low.
    cache.insert("d", "david"); //   count: d -> 0
    assert_eq!(cache.get(&"d"), None); //   d -> 1

    cache.insert("d", "david");
    assert_eq!(cache.get(&"d"), None); //   d -> 2

    // "d" should be admitted and "c" should be evicted
    // because d's frequency is higher than c's.
    cache.insert("d", "dennis");
    assert_eq!(cache.get(&"a"), Some(&"alice"));
    assert_eq!(cache.get(&"b"), Some(&"bob"));
    assert_eq!(cache.get(&"c"), None);
    assert_eq!(cache.get(&"d"), Some(&"dennis"));

    cache.invalidate(&"b");
    assert_eq!(cache.get(&"b"), None);
}

#[test]
fn size_aware_eviction() {
    let weigher = |_k: &&str, v: &(&str, u64)| v.1;

    let alice = ("alice", 10u64);
    let bob = ("bob", 15);
    let cindy = ("cindy", 5);
    let david = ("david", 15);
    let dennis = ("dennis", 15);

    let mut cache = Cache::builder().max_capacity(31).weigher(weigher).build();

    cache.insert("a", alice);
    cache.insert("b", bob);
    assert_eq!(cache.get(&"a"), Some(&alice));
    assert_eq!(cache.get(&"b"), Some(&bob));
    // order (LRU -> MRU) and counts: a -> 1, b -> 1

    cache.insert("c", cindy);
    assert_eq!(cache.get(&"c"), Some(&cindy));
    // order and counts: a -> 1, b -> 1, c -> 1

    assert_eq!(cache.get(&"a"), Some(&alice));
    assert_eq!(cache.get(&"b"), Some(&bob));
    // order and counts: c -> 1, a -> 2, b -> 2

    // To enter "d" (weight: 15), it needs to evict "c" (w: 5) and "a" (w: 10).
    // "d" must have higher count than 3, which is the aggregated count
    // of "a" and "c".
    cache.insert("d", david); //   count: d -> 0
    assert_eq!(cache.get(&"d"), None); //   d -> 1

    cache.insert("d", david);
    assert_eq!(cache.get(&"d"), None); //   d -> 2

    cache.insert("d", david);
    assert_eq!(cache.get(&"d"), None); //   d -> 3

    cache.insert("d", david);
    assert_eq!(cache.get(&"d"), None); //   d -> 4

    // Finally "d" should be admitted by evicting "c" and "a".
    cache.insert("d", dennis);
    assert_eq!(cache.get(&"a"), None);
    assert_eq!(cache.get(&"b"), Some(&bob));
    assert_eq!(cache.get(&"c"), None);
    assert_eq!(cache.get(&"d"), Some(&dennis));
}

#[test]
fn invalidate_all() {
    let mut cache = Cache::new(100);

    cache.insert("a", "alice");
    cache.insert("b", "bob");
    cache.insert("c", "cindy");
    assert_eq!(cache.get(&"a"), Some(&"alice"));
    assert_eq!(cache.get(&"b"), Some(&"bob"));
    assert_eq!(cache.get(&"c"), Some(&"cindy"));

    cache.invalidate_all();

    cache.insert("d", "david");

    assert!(cache.get(&"a").is_none());
    assert!(cache.get(&"b").is_none());
    assert!(cache.get(&"c").is_none());
    assert_eq!(cache.get(&"d"), Some(&"david"));
}

#[test]
fn invalidate_entries_if() {
    let mut cache = Cache::new(100);

    let (clock, mock) = Clock::mock();
    cache.set_expiration_clock(Some(clock));

    cache.insert(0, "alice");
    cache.insert(1, "bob");
    cache.insert(2, "alex");

    mock.increment(Duration::from_secs(5)); // 5 secs from the start.

    assert_eq!(cache.get(&0), Some(&"alice"));
    assert_eq!(cache.get(&1), Some(&"bob"));
    assert_eq!(cache.get(&2), Some(&"alex"));

    let names = ["alice", "alex"].iter().cloned().collect::<HashSet<_>>();
    cache.invalidate_entries_if(move |_k, &v| names.contains(v));

    mock.increment(Duration::from_secs(5)); // 10 secs from the start.

    cache.insert(3, "alice");

    assert!(cache.get(&0).is_none());
    assert!(cache.get(&2).is_none());
    assert_eq!(cache.get(&1), Some(&"bob"));
    // This should survive as it was inserted after calling invalidate_entries_if.
    assert_eq!(cache.get(&3), Some(&"alice"));
    assert_eq!(cache.len(), 2);

    mock.increment(Duration::from_secs(5)); // 15 secs from the start.

    cache.invalidate_entries_if(|_k, &v| v == "alice");
    cache.invalidate_entries_if(|_k, &v| v == "bob");

    assert!(cache.get(&1).is_none());
    assert!(cache.get(&3).is_none());
    assert_eq!(cache.len(), 0);
}

#[test]
fn time_to_live() {
    let mut cache = CacheBuilder::new(100)
        .time_to_live(Duration::from_secs(10))
        .build();

    let (clock, mock) = Clock::mock();
    cache.set_expiration_clock(Some(clock));

    cache.insert("a", "alice");

    mock.increment(Duration::from_secs(5)); // 5 secs from the start.

    cache.get(&"a");

    mock.increment(Duration::from_secs(5)); // 10 secs.

    assert_eq!(cache.get(&"a"), None);
    assert!(cache.is_empty());

    cache.insert("b", "bob");

    assert_eq!(cache.len(), 1);

    mock.increment(Duration::from_secs(5)); // 15 secs.

    assert_eq!(cache.get(&"b"), Some(&"bob"));
    assert_eq!(cache.len(), 1);

    cache.insert("b", "bill");

    mock.increment(Duration::from_secs(5)); // 20 secs

    assert_eq!(cache.get(&"b"), Some(&"bill"));
    assert_eq!(cache.len(), 1);

    mock.increment(Duration::from_secs(5)); // 25 secs

    assert_eq!(cache.get(&"a"), None);
    assert_eq!(cache.get(&"b"), None);
    assert!(cache.is_empty());
}

#[test]
fn time_to_idle() {
    let mut cache = CacheBuilder::new(100)
        .time_to_idle(Duration::from_secs(10))
        .build();

    let (clock, mock) = Clock::mock();
    cache.set_expiration_clock(Some(clock));

    cache.insert("a", "alice");

    mock.increment(Duration::from_secs(5)); // 5 secs from the start.

    assert_eq!(cache.get(&"a"), Some(&"alice"));

    mock.increment(Duration::from_secs(5)); // 10 secs.

    cache.insert("b", "bob");

    assert_eq!(cache.len(), 2);

    mock.increment(Duration::from_secs(5)); // 15 secs.

    assert_eq!(cache.get(&"a"), None);
    assert_eq!(cache.get(&"b"), Some(&"bob"));
    assert_eq!(cache.len(), 1);

    mock.increment(Duration::from_secs(10)); // 25 secs

    assert_eq!(cache.get(&"a"), None);
    assert_eq!(cache.get(&"b"), None);
    assert!(cache.is_empty());
}

#[test]
fn test_skt_capacity_will_not_overflow() {
    // power of two
    let pot = |exp| 2_usize.pow(exp);

    let ensure_sketch_len = |max_capacity, len, name| {
        let cache = Cache::<u8, u8>::new(max_capacity);
        assert_eq!(cache.frequency_sketch_len(), len, "{}", name);
    };

    if usize::BITS == 32 {
        let pot24 = pot(24);
        let pot16 = pot(16);
        ensure_sketch_len(0, 128, "0");
        ensure_sketch_len(128, 128, "128");
        ensure_sketch_len(pot16, pot16, "pot16");
        // due to ceiling to next_power_of_two
        ensure_sketch_len(pot16 + 1, pot(17), "pot16 + 1");
        // due to ceiling to next_power_of_two
        ensure_sketch_len(pot24 - 1, pot24, "pot24 - 1");
        ensure_sketch_len(pot24, pot24, "pot24");
        ensure_sketch_len(pot(27), pot24, "pot(27)");
        ensure_sketch_len(usize::MAX, pot24, "usize::MAX");
    } else {
        // target_pointer_width: 64 or larger.
        let pot30 = pot(30);
        let pot16 = pot(16);
        ensure_sketch_len(0, 128, "0");
        ensure_sketch_len(128, 128, "128");
        ensure_sketch_len(pot16, pot16, "pot16");
        // due to ceiling to next_power_of_two
        ensure_sketch_len(pot16 + 1, pot(17), "pot16 + 1");
        // due to ceiling to next_power_of_two
        ensure_sketch_len(pot30 - 1, pot30, "pot30- 1");
        ensure_sketch_len(pot30, pot30, "pot30");
        ensure_sketch_len(usize::MAX, pot30, "usize::MAX");
    };
}
