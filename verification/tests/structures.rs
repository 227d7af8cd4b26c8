use moka::common::deque::Deque;
use moka::common::frequency_sketch::FrequencySketch;
use moka::common::paged_table::PagedTable;
use moka::common::time::{Clock, Instant};
use std::time::Duration;

fn elements(deque: &Deque<u32>) -> Vec<u32> {
    let mut all = Vec::new();
    let mut next = deque.peek_front();
    while let Some(id) = next {
        all.push(*deque.element(id));
        next = deque.next_node(id);
    }
    all
}

#[test]
fn deque_keeps_its_order() {
    let mut deque: Deque<u32> = Deque::new();
    assert_eq!(deque.peek_front(), None);
    assert_eq!(deque.len(), 0);
    let one = deque.push_back(1);
    let two = deque.push_back(2);
    let three = deque.push_back(3);
    assert_eq!(elements(&deque), vec![1, 2, 3]);
    deque.move_to_back(one);
    assert_eq!(elements(&deque), vec![2, 3, 1]);
    deque.move_to_back(one);
    assert_eq!(elements(&deque), vec![2, 3, 1]);
    deque.move_to_back(three);
    assert_eq!(elements(&deque), vec![2, 1, 3]);
    deque.set_element(one, 10);
    assert_eq!(elements(&deque), vec![2, 10, 3]);
    assert_eq!(deque.unlink(one), 10);
    assert_eq!(elements(&deque), vec![2, 3]);
    assert_eq!(deque.unlink(two), 2);
    assert_eq!(elements(&deque), vec![3]);
    assert_eq!(deque.unlink(three), 3);
    assert_eq!(elements(&deque), vec![]);
    assert_eq!(deque.len(), 0);
}

#[test]
fn deque_uses_places_again() {
    let mut deque: Deque<u32> = Deque::new();
    let first = deque.push_back(1);
    let kept = deque.push_back(2);
    assert_eq!(deque.unlink(first), 1);
    let again = deque.push_back(3);
    assert_ne!(again, kept);
    assert_eq!(elements(&deque), vec![2, 3]);
    assert_eq!(deque.len(), 2);
}

#[test]
fn table_is_zero_until_it_is_set() {
    let mut table = PagedTable::new(1 << 30);
    assert_eq!(table.len(), 1 << 30);
    assert_eq!(table.get(0), 0);
    assert_eq!(table.get((1 << 30) - 1), 0);
    table.set(5, 77);
    table.set((1 << 30) - 1, u64::MAX);
    assert_eq!(table.get(5), 77);
    assert_eq!(table.get(4), 0);
    assert_eq!(table.get(6), 0);
    assert_eq!(table.get((1 << 30) - 1), u64::MAX);
    table.set(5, 0);
    assert_eq!(table.get(5), 0);
}

#[test]
fn frequency_is_counted_up_to_fifteen() {
    let mut sketch = FrequencySketch::with_capacity(512);
    assert_eq!(sketch.table_len(), 512);
    let hash: u64 = 0x1234_5678_9abc_def0;
    assert_eq!(sketch.frequency(hash), 0);
    for n in 1..=15 {
        sketch.increment(hash);
        assert_eq!(sketch.frequency(hash), n);
    }
    for _ in 0..10 {
        sketch.increment(hash);
        assert_eq!(sketch.frequency(hash), 15);
    }
}

#[test]
fn frequencies_age() {
    // For one hash, counters are halved at the tenth count.
    let mut sketch = FrequencySketch::with_capacity(1);
    for n in 1..=9 {
        sketch.increment(42);
        assert_eq!(sketch.frequency(42), n);
    }
    sketch.increment(42);
    assert_eq!(sketch.frequency(42), 5);
    sketch.increment(42);
    assert_eq!(sketch.frequency(42), 6);
}

#[test]
fn sketch_sizes() {
    assert_eq!(FrequencySketch::with_capacity(0).table_len(), 1);
    assert_eq!(FrequencySketch::with_capacity(1).table_len(), 1);
    assert_eq!(FrequencySketch::with_capacity(2).table_len(), 2);
    assert_eq!(FrequencySketch::with_capacity(3).table_len(), 4);
    assert_eq!(FrequencySketch::with_capacity(1000).table_len(), 1024);
    assert_eq!(FrequencySketch::with_capacity(1024).table_len(), 1024);
}

#[test]
fn heavy_hitters_stand_out() {
    let mut sketch = FrequencySketch::with_capacity(1024);
    let spread = |n: u64| n.wrapping_mul(0x9e37_79b9_7f4a_7c15);
    for n in 100..200 {
        sketch.increment(spread(n));
    }
    for n in 0..5 {
        for _ in 0..10 {
            sketch.increment(spread(n));
        }
    }
    for n in 0..5 {
        assert!(sketch.frequency(spread(n)) >= 10);
    }
    let average: u32 = (100..200).map(|n| u32::from(sketch.frequency(spread(n)))).sum::<u32>();
    assert!((100..200).contains(&average));
}

#[test]
fn mocked_clock_moves_only_when_told() {
    let (clock, mock) = Clock::mock();
    assert_eq!(clock.now(), Instant::new(0));
    assert_eq!(clock.now(), Instant::new(0));
    mock.increment(Duration::from_millis(3));
    assert_eq!(clock.now(), Instant::new(3_000_000));
    mock.increment(Duration::from_nanos(1));
    assert_eq!(clock.now(), Instant::new(3_000_001));
}

#[test]
fn monotonic_clock_does_not_go_back() {
    let clock = Clock::monotonic();
    let mut before = clock.now();
    for _ in 0..100 {
        let now = clock.now();
        assert!(before.nanos <= now.nanos);
        before = now;
    }
}

#[test]
fn instants_are_added_to() {
    let start = Instant::new(5);
    assert_eq!(start.checked_add(Duration::from_secs(2)), Some(Instant::new(2_000_000_005)));
    assert_eq!(start.checked_add(Duration::from_secs(0)), Some(start));
    assert_eq!(Instant::new(u128::MAX).checked_add(Duration::from_nanos(1)), None);
    assert_eq!(
        Instant::new(u128::MAX - 1).checked_add(Duration::from_nanos(1)),
        Some(Instant::new(u128::MAX))
    );
}
