//! An estimator of how often a hash has been seen lately.
//!
//! The estimator is a count-min sketch of 4-bit counters with periodic aging. Each slot of the
//! table holds sixteen counters. A hash selects one counter in each of four slots; its
//! estimated frequency is the least of the four. Once enough has been counted, every counter is
//! halved.

use crate::common::paged_table::PagedTable;
use vstd::prelude::*;

verus! {

/// The seed that selects the slot at `depth`.
pub open spec fn spec_seed(depth: int) -> u64 {
    if depth == 0 {
        0xc3a5_c85c_97cb_3127
    } else if depth == 1 {
        0xb492_b66f_be98_f273
    } else if depth == 2 {
        0x9ae1_6a3b_2f90_404f
    } else {
        0xcbf2_9ce4_8422_2325
    }
}

/// Spreads the bits of `hash`, in another way for each depth.
pub open spec fn spread(hash: u64, depth: int) -> u64 {
    let mixed = hash.wrapping_add(spec_seed(depth)).wrapping_mul(spec_seed(depth));
    mixed.wrapping_add(mixed >> 32)
}

/// The counter within a slot that `hash` selects at `depth`.
pub open spec fn counter_of(hash: u64, depth: int) -> int {
    4 * (hash as int % 4) + depth
}

/// The lesser of two numbers.
pub open spec fn least(a: nat, b: nat) -> nat {
    if a <= b {
        a
    } else {
        b
    }
}

/// The greatest value of a counter.
pub open spec fn counter_max() -> nat {
    15
}

/// The number of odd counters among `counters`.
pub open spec fn odd_counters(counters: Seq<nat>) -> nat
    decreases counters.len(),
{
    if counters.len() == 0 {
        0
    } else {
        odd_counters(counters.drop_last()) + counters.last() % 2
    }
}

/// The number of odd counters in all slots of `table`.
pub open spec fn odd_total(table: Seq<Seq<nat>>) -> nat
    decreases table.len(),
{
    if table.len() == 0 {
        0
    } else {
        odd_total(table.drop_last()) + odd_counters(table.last())
    }
}

/// What an estimator holds: sixteen counters for each slot, the number of hashes counted since
/// the counters were last halved, and the number at which they are halved.
#[verifier::ext_equal]
pub struct SketchView {
    pub table: Seq<Seq<nat>>,
    pub size: nat,
    pub sample_size: nat,
}

impl SketchView {
    /// The slot that `hash` selects at `depth`.
    pub open spec fn slot_of(self, hash: u64, depth: int) -> int {
        (spread(hash, depth) & ((self.table.len() - 1) as u64)) as int
    }

    /// The counter that `hash` selects at `depth`.
    pub open spec fn count(self, hash: u64, depth: int) -> nat {
        self.table[self.slot_of(hash, depth)][counter_of(hash, depth)]
    }

    /// The estimated frequency of `hash`.
    pub open spec fn frequency(self, hash: u64) -> nat {
        least(
            least(self.count(hash, 0), self.count(hash, 1)),
            least(self.count(hash, 2), self.count(hash, 3)),
        )
    }

    /// The estimator with the counter that `hash` selects at `depth` raised by one, unless it
    /// is at its greatest value.
    pub open spec fn raise(self, hash: u64, depth: int) -> Self {
        let slot = self.slot_of(hash, depth);
        let raised = least(self.count(hash, depth) + 1, counter_max());
        SketchView {
            table: self.table.update(
                slot,
                self.table[slot].update(counter_of(hash, depth), raised),
            ),
            ..self
        }
    }

    /// Whether any of the four counters of `hash` is below its greatest value.
    pub open spec fn can_count(self, hash: u64) -> bool {
        exists|depth: int| 0 <= depth < 4 && #[trigger] self.count(hash, depth) < counter_max()
    }

    /// The estimator with every counter halved.
    pub open spec fn age(self) -> Self {
        SketchView {
            table: Seq::new(
                self.table.len(),
                |i: int| Seq::new(16, |j: int| self.table[i][j] / 2),
            ),
            size: {
                let size = self.size as int / 2 - odd_total(self.table) as int / 4;
                if size < 0 {
                    0
                } else {
                    size as nat
                }
            },
            ..self
        }
    }

    /// The estimator after `hash` has been counted once more.
    pub open spec fn increment(self, hash: u64) -> Self {
        let raised = self.raise(hash, 0).raise(hash, 1).raise(hash, 2).raise(hash, 3);
        if !self.can_count(hash) {
            raised
        } else if self.size + 1 < self.sample_size {
            SketchView { size: self.size + 1, ..raised }
        } else {
            (SketchView { size: self.size + 1, ..raised }).age()
        }
    }

    /// There are slots, they hold sixteen counters each, and no counter exceeds its greatest
    /// value.
    pub open spec fn wf(self) -> bool {
        &&& 0 < self.table.len() <= u32::MAX
        &&& self.size < self.sample_size
        &&& forall|i: int| 0 <= i < self.table.len() ==> (#[trigger] self.table[i]).len() == 16
        &&& forall|i: int, j: int|
            0 <= i < self.table.len() && 0 <= j < 16 ==> #[trigger] self.table[i][j]
                <= counter_max()
    }

    /// An estimator with `slots` slots that has not counted anything.
    pub open spec fn fresh(slots: nat, sample_size: nat) -> Self {
        SketchView {
            table: Seq::new(slots, |i: int| Seq::new(16, |j: int| 0nat)),
            size: 0,
            sample_size,
        }
    }
}

/// The counter at position `j` of `word`.
spec fn nibble(word: u64, j: int) -> nat {
    ((word >> ((4 * j) as u64)) & 0xf) as nat
}

/// The counters in `word`.
spec fn nibbles(word: u64) -> Seq<nat> {
    Seq::new(16, |j: int| nibble(word, j))
}

/// The greatest number of slots of an estimator: fewer where addresses are narrow.
pub open spec fn max_slots() -> nat {
    if usize::BITS == 32 {
        0x100_0000
    } else {
        0x4000_0000
    }
}

/// An estimator of how often a hash has been seen lately.
pub struct FrequencySketch {
    sample_size: u32,
    table_mask: u64,
    table: PagedTable,
    size: u32,
}

impl View for FrequencySketch {
    type V = SketchView;

    closed spec fn view(&self) -> SketchView {
        SketchView {
            table: Seq::new(self.table@.len(), |i: int| nibbles(self.table@[i])),
            size: self.size as nat,
            sample_size: self.sample_size as nat,
        }
    }
}

/// A counter fits in four bits.
proof fn lemma_nibble_bound(word: u64, j: int)
    requires
        0 <= j < 16,
    ensures
        nibble(word, j) <= 15,
{
    let s = (4 * j) as u64;
    assert((word >> s) & 0xf <= 15) by (bit_vector);
}

/// All counters of the word zero are zero.
proof fn lemma_nibbles_zero()
    ensures
        nibbles(0) == Seq::new(16, |j: int| 0nat),
{
    assert forall|j: int| 0 <= j < 16 implies nibble(0, j) == 0 by {
        let s = (4 * j) as u64;
        assert((0u64 >> s) & 0xf == 0) by (bit_vector);
    }
    assert(nibbles(0) =~= Seq::new(16, |j: int| 0nat));
}

/// How a word is changed to raise one of its counters.
proof fn lemma_raise(word: u64, j: int)
    requires
        0 <= j < 16,
        nibble(word, j) < 15,
    ensures
        word + (1u64 << ((4 * j) as u64)) <= u64::MAX,
        nibbles((word + (1u64 << ((4 * j) as u64))) as u64) == nibbles(word).update(
            j,
            nibble(word, j) + 1,
        ),
{
    let s = (4 * j) as u64;
    assert(word + (1u64 << s) <= 0xffff_ffff_ffff_ffff) by (bit_vector)
        requires
            s < 64,
            s % 4 == 0,
            (word >> s) & 0xf < 15,
    ;
    let raised = (word + (1u64 << s)) as u64;
    assert((raised >> s) & 0xf == ((word >> s) & 0xf) + 1) by (bit_vector)
        requires
            s < 64,
            s % 4 == 0,
            (word >> s) & 0xf < 15,
            raised == word + (1u64 << s),
    ;
    assert forall|k: int| 0 <= k < 16 && k != j implies nibble(raised, k) == nibble(word, k) by {
        let t = (4 * k) as u64;
        assert((raised >> t) & 0xf == (word >> t) & 0xf) by (bit_vector)
            requires
                s < 64,
                t < 64,
                s % 4 == 0,
                t % 4 == 0,
                s != t,
                (word >> s) & 0xf < 15,
                raised == word + (1u64 << s),
        ;
    }
    assert(nibbles(raised) =~= nibbles(word).update(j, nibble(word, j) + 1));
}

/// How a word is changed to halve all of its counters.
proof fn lemma_halve(word: u64)
    ensures
        nibbles((word >> 1) & 0x7777_7777_7777_7777) == Seq::new(
            16,
            |j: int| nibbles(word)[j] / 2,
        ),
{
    let halved = (word >> 1) & 0x7777_7777_7777_7777;
    assert forall|j: int| 0 <= j < 16 implies nibble(halved, j) == nibble(word, j) / 2 by {
        let s = (4 * j) as u64;
        assert((halved >> s) & 0xf == ((word >> s) & 0xf) / 2) by (bit_vector)
            requires
                s < 64,
                s % 4 == 0,
                halved == (word >> 1) & 0x7777_7777_7777_7777,
        ;
    }
    assert(nibbles(halved) =~= Seq::new(16, |j: int| nibbles(word)[j] / 2));
}

/// The least power of two that is not less than `n`, computed by halving.
pub open spec fn ceil_pow2(n: nat) -> nat
    decreases n,
{
    if n <= 1 {
        1
    } else {
        2 * ceil_pow2((n + 1) / 2)
    }
}

/// `ceil_pow2(n)` is a power of two, is not less than `n`, and its half is.
pub proof fn lemma_ceil_pow2(n: nat)
    ensures
        exists|k: nat| ceil_pow2(n) == #[trigger] vstd::arithmetic::power2::pow2(k),
        ceil_pow2(n) >= n,
        ceil_pow2(n) > 1 ==> ceil_pow2(n) < 2 * n,
    decreases n,
{
    if n <= 1 {
        assert(vstd::arithmetic::power2::pow2(0) == 1) by {
            vstd::arithmetic::power2::lemma2_to64();
        }
        assert(ceil_pow2(n) == vstd::arithmetic::power2::pow2(0));
    } else {
        lemma_ceil_pow2((n + 1) / 2);
        let k = choose|k: nat| ceil_pow2((n + 1) / 2) == #[trigger] vstd::arithmetic::power2::pow2(k);
        vstd::arithmetic::power2::lemma_pow2_unfold(k + 1);
        assert(ceil_pow2(n) == vstd::arithmetic::power2::pow2(k + 1));
    }
}

/// A power of two that is not less than `n` is not less than `ceil_pow2(n)`.
pub proof fn lemma_ceil_pow2_least(n: nat, k: nat)
    requires
        n <= vstd::arithmetic::power2::pow2(k),
    ensures
        ceil_pow2(n) <= vstd::arithmetic::power2::pow2(k),
    decreases k,
{
    vstd::arithmetic::power2::lemma2_to64();
    if k > 0 {
        vstd::arithmetic::power2::lemma_pow2_unfold(k);
        vstd::arithmetic::power2::lemma_pow2_pos(k);
        if n > 1 {
            lemma_ceil_pow2_least((n + 1) / 2, (k - 1) as nat);
        }
    }
}

/// The least power of two that is not less than `n`.
fn next_power_of_two(n: u32) -> (power: u32)
    requires
        n <= 0x4000_0000,
    ensures
        power == ceil_pow2(n as nat),
        power <= 0x4000_0000,
    decreases n,
{
    proof {
        vstd::arithmetic::power2::lemma2_to64();
        lemma_ceil_pow2_least(n as nat, 30);
        if n > 1 {
            lemma_ceil_pow2_least(((n + 1) / 2) as nat, 29);
        }
    }
    if n <= 1 {
        1
    } else {
        2 * next_power_of_two((n + 1) / 2)
    }
}

/// The number of slots that an estimator for `cap` hashes has.
pub open spec fn slots_for(cap: u32) -> nat {
    ceil_pow2(least(cap as nat, max_slots()))
}

/// The number of counted hashes at which the counters of an estimator for `cap` hashes are
/// halved: ten for each hash that it is made for, up to the greatest number of an `i32`.
pub open spec fn sample_size_for(cap: u32) -> nat {
    if cap == 0 {
        10
    } else {
        least(10 * least(cap as nat, max_slots()), 0x7fff_ffff)
    }
}

impl FrequencySketch {
    /// The mask selects exactly the slots of the table.
    pub closed spec fn wf(&self) -> bool {
        &&& self.table.wf()
        &&& 0 < self.table@.len() <= 0x4000_0000
        &&& self.table_mask == self.table@.len() - 1
        &&& self.size < self.sample_size
    }

    /// An estimator's counters are well-formed.
    pub proof fn lemma_wf(&self)
        requires
            self.wf(),
        ensures
            self@.wf(),
    {
        assert forall|i: int, j: int|
            0 <= i < self@.table.len() && 0 <= j < 16 implies #[trigger] self@.table[i][j]
            <= counter_max() by {
            lemma_nibble_bound(self.table@[i], j);
        }
    }

    /// An estimator for `cap` hashes.
    pub fn with_capacity(cap: u32) -> (sketch: Self)
        ensures
            sketch.wf(),
            sketch@ == SketchView::fresh(slots_for(cap), sample_size_for(cap)),
    {
        let most: u32 = if usize::BITS == 32 {
            0x100_0000
        } else {
            0x4000_0000
        };
        let maximum: u32 = if cap < most {
            cap
        } else {
            most
        };
        let table_size: u32 = next_power_of_two(maximum);
        proof {
            lemma_ceil_pow2(maximum as nat);
            lemma_nibbles_zero();
        }
        let table = PagedTable::new(table_size as usize);
        let sample_size: u32 = if cap == 0 {
            10
        } else if maximum <= 0x7fff_ffff / 10 {
            10 * maximum
        } else {
            0x7fff_ffff
        };
        let sketch = FrequencySketch {
            sample_size,
            table_mask: (table_size - 1) as u64,
            table,
            size: 0,
        };
        assert(sketch@ =~= SketchView::fresh(slots_for(cap), sample_size_for(cap)));
        sketch
    }

    /// The number of slots.
    pub fn table_len(&self) -> (len: usize)
        ensures
            len == self@.table.len(),
    {
        self.table.len()
    }

    /// The slot that `hash` selects at `depth`.
    fn index_of(&self, hash: u64, depth: u8) -> (index: usize)
        requires
            self.wf(),
            depth < 4,
        ensures
            index == self@.slot_of(hash, depth as int),
            index < self.table@.len(),
    {
        let seed: u64 = if depth == 0 {
            0xc3a5_c85c_97cb_3127
        } else if depth == 1 {
            0xb492_b66f_be98_f273
        } else if depth == 2 {
            0x9ae1_6a3b_2f90_404f
        } else {
            0xcbf2_9ce4_8422_2325
        };
        let mixed: u64 = hash.wrapping_add(seed).wrapping_mul(seed);
        let spread: u64 = mixed.wrapping_add(mixed >> 32);
        let mask: u64 = self.table_mask;
        assert(spread & mask <= mask) by (bit_vector);
        (spread & mask) as usize
    }

    /// The counter at position `counter` of slot `index`.
    fn count_at(&self, index: usize, counter: u8) -> (count: u8)
        requires
            self.table.wf(),
            index < self.table@.len(),
            counter < 16,
        ensures
            count == self@.table[index as int][counter as int],
    {
        proof {
            lemma_nibble_bound(self.table@[index as int], counter as int);
        }
        ((self.table.get(index) >> ((4 * counter) as u64)) & 0xf) as u8
    }

    /// The estimated frequency of `hash`.
    pub fn frequency(&self, hash: u64) -> (frequency: u8)
        requires
            self.wf(),
        ensures
            frequency == self@.frequency(hash),
    {
        let start: u8 = 4 * ((hash % 4) as u8);
        let a: u8 = self.count_at(self.index_of(hash, 0), start);
        let b: u8 = self.count_at(self.index_of(hash, 1), start + 1);
        let c: u8 = self.count_at(self.index_of(hash, 2), start + 2);
        let d: u8 = self.count_at(self.index_of(hash, 3), start + 3);
        let ab: u8 = if a <= b {
            a
        } else {
            b
        };
        let cd: u8 = if c <= d {
            c
        } else {
            d
        };
        if ab <= cd {
            ab
        } else {
            cd
        }
    }

    /// Raises the counter that `hash` selects at `depth`, and tells whether it was below its
    /// greatest value.
    fn raise(&mut self, hash: u64, depth: u8) -> (raised: bool)
        requires
            old(self).wf(),
            depth < 4,
        ensures
            final(self).wf(),
            final(self)@ == old(self)@.raise(hash, depth as int),
            raised <==> old(self)@.count(hash, depth as int) < counter_max(),
    {
        let counter: u8 = 4 * ((hash % 4) as u8) + depth;
        let index: usize = self.index_of(hash, depth);
        let count: u8 = self.count_at(index, counter);
        if count < 15 {
            let word: u64 = self.table.get(index);
            proof {
                lemma_raise(word, counter as int);
            }
            self.table.set(index, word + (1u64 << ((4 * counter) as u64)));
            assert(self@ =~= old(self)@.raise(hash, depth as int));
            true
        } else {
            proof {
                lemma_nibble_bound(self.table@[index as int], counter as int);
                let slot = old(self)@.table[index as int];
                assert(slot.update(counter as int, 15) =~= slot);
                assert(self@ =~= old(self)@.raise(hash, depth as int));
            }
            false
        }
    }

    /// Halves the counters of slot `index` and returns how many of them were odd.
    fn halve(&mut self, index: usize) -> (odd: u64)
        requires
            old(self).table.wf(),
            index < old(self).table@.len(),
        ensures
            final(self).table.wf(),
            final(self).table@.len() == old(self).table@.len(),
            forall|i: int|
                0 <= i < old(self).table@.len() && i != index ==> final(self).table@[i] == old(
                    self,
                ).table@[i],
            nibbles(final(self).table@[index as int]) == Seq::new(
                16,
                |j: int| nibbles(old(self).table@[index as int])[j] / 2,
            ),
            odd == odd_counters(nibbles(old(self).table@[index as int])),
            odd <= 16,
            *final(self) == (FrequencySketch { table: final(self).table, ..*old(self) }),
    {
        let word: u64 = self.table.get(index);
        let ghost counters = nibbles(word);
        let mut odd: u64 = 0;
        let mut counter: u8 = 0;
        while counter < 16
            invariant
                counter <= 16,
                self.table.wf(),
                index < self.table@.len(),
                *self == *old(self),
                word == self.table@[index as int],
                counters == nibbles(word),
                odd == odd_counters(counters.take(counter as int)),
                odd <= counter,
            decreases 16 - counter,
        {
            proof {
                assert(counters.take(counter + 1).drop_last() =~= counters.take(counter as int));
                assert(counters.take(counter + 1).last() == counters[counter as int]);
            }
            odd = odd + (self.count_at(index, counter) % 2) as u64;
            counter = counter + 1;
        }
        proof {
            assert(counters.take(16) =~= counters);
            lemma_halve(word);
        }
        self.table.set(index, (word >> 1) & 0x7777_7777_7777_7777);
        odd
    }

    /// Halves every counter.
    fn reset(&mut self)
        requires
            old(self).table.wf(),
            0 < old(self).table@.len() <= 0x4000_0000,
            old(self).table_mask == old(self).table@.len() - 1,
            old(self).size <= old(self).sample_size,
            0 < old(self).sample_size,
        ensures
            final(self).wf(),
            final(self)@ == old(self)@.age(),
    {
        let ghost table = self@.table;
        let len: usize = self.table.len();
        let mut odd: u64 = 0;
        let mut i: usize = 0;
        while i < len
            invariant
                i <= len,
                self.table.wf(),
                len == self.table@.len(),
                len == old(self).table@.len(),
                len <= 0x4000_0000,
                table == old(self)@.table,
                odd == odd_total(table.take(i as int)),
                odd <= 16 * i,
                *self == (FrequencySketch { table: self.table, ..*old(self) }),
                forall|k: int| i <= k < len ==> self.table@[k] == old(self).table@[k],
                forall|k: int|
                    0 <= k < i ==> nibbles(#[trigger] self.table@[k]) == Seq::new(
                        16,
                        |j: int| table[k][j] / 2,
                    ),
            decreases len - i,
        {
            proof {
                assert(table.take(i + 1).drop_last() =~= table.take(i as int));
                assert(table.take(i + 1).last() == nibbles(self.table@[i as int]));
            }
            odd = odd + self.halve(i);
            i = i + 1;
        }
        assert(table.take(len as int) =~= table);
        let half: u64 = (self.size / 2) as u64;
        let quarter: u64 = odd / 4;
        self.size = if half < quarter {
            0
        } else {
            (half - quarter) as u32
        };
        assert(self@ =~= old(self)@.age());
    }

    /// Counts `hash` once more.
    pub fn increment(&mut self, hash: u64)
        requires
            old(self).wf(),
        ensures
            final(self).wf(),
            final(self)@ == old(self)@.increment(hash),
    {
        let ghost before = self@;
        proof {
            self.lemma_wf();
        }
        let a: bool = self.raise(hash, 0);
        let b: bool = self.raise(hash, 1);
        let c: bool = self.raise(hash, 2);
        let d: bool = self.raise(hash, 3);
        proof {
            lemma_raised(before, hash);
            assert(before.can_count(hash) <==> a || b || c || d) by {
                if before.can_count(hash) {
                    let depth = choose|depth: int|
                        0 <= depth < 4 && #[trigger] before.count(hash, depth) < counter_max();
                    assert(depth == 0 || depth == 1 || depth == 2 || depth == 3);
                }
            }
        }
        if a || b || c || d {
            self.size = self.size + 1;
            if self.size >= self.sample_size {
                self.reset();
            }
        }
    }
}

/// A hash selects a slot of the table.
proof fn lemma_slot(sketch: SketchView, hash: u64, depth: int)
    requires
        0 < sketch.table.len() <= u32::MAX,
    ensures
        0 <= sketch.slot_of(hash, depth) < sketch.table.len(),
{
    let s = spread(hash, depth);
    let mask = (sketch.table.len() - 1) as u64;
    assert(s & mask <= mask) by (bit_vector);
}

/// Raising the counter that one hash selects leaves every counter at another position of its
/// slot, and every counter of another slot, as it is.
proof fn lemma_other_count(sketch: SketchView, hash: u64, depth: int, other: u64, d: int)
    requires
        sketch.wf(),
        0 <= depth < 4,
        0 <= d < 4,
    ensures
        sketch.raise(hash, depth).wf(),
        sketch.slot_of(hash, depth) != sketch.slot_of(other, d) || counter_of(hash, depth)
            != counter_of(other, d) ==> sketch.raise(hash, depth).count(other, d) == sketch.count(
            other,
            d,
        ),
        sketch.slot_of(hash, depth) == sketch.slot_of(other, d) && counter_of(hash, depth)
            == counter_of(other, d) ==> sketch.raise(hash, depth).count(other, d) == least(
            sketch.count(other, d) + 1,
            counter_max(),
        ),
{
    let raised = sketch.raise(hash, depth);
    let slot = sketch.slot_of(hash, depth);
    lemma_slot(sketch, hash, depth);
    lemma_slot(sketch, other, d);
    assert forall|i: int, j: int|
        0 <= i < raised.table.len() && 0 <= j < 16 implies #[trigger] raised.table[i][j]
        <= counter_max() by {
        assert(sketch.table[i][j] <= counter_max());
    }
    assert(raised.slot_of(other, d) == sketch.slot_of(other, d));
}

/// The four counters of `hash` after the first `n` of them have been raised.
proof fn lemma_raised(sketch: SketchView, hash: u64)
    requires
        sketch.wf(),
    ensures
        ({
            let one = sketch.raise(hash, 0);
            let two = one.raise(hash, 1);
            let three = two.raise(hash, 2);
            let four = three.raise(hash, 3);
            &&& one.wf() && two.wf() && three.wf() && four.wf()
            &&& one.count(hash, 1) == sketch.count(hash, 1)
            &&& two.count(hash, 2) == sketch.count(hash, 2)
            &&& three.count(hash, 3) == sketch.count(hash, 3)
            &&& forall|d: int|
                0 <= d < 4 ==> #[trigger] four.count(hash, d) == least(
                    sketch.count(hash, d) + 1,
                    counter_max(),
                )
        }),
{
    let one = sketch.raise(hash, 0);
    let two = one.raise(hash, 1);
    let three = two.raise(hash, 2);
    let four = three.raise(hash, 3);
    lemma_each_raised(sketch, hash, 0);
    lemma_each_raised(sketch, hash, 1);
    lemma_each_raised(sketch, hash, 2);
    lemma_each_raised(sketch, hash, 3);
    assert forall|d: int| 0 <= d < 4 implies #[trigger] four.count(hash, d) == least(
        sketch.count(hash, d) + 1,
        counter_max(),
    ) by {
        assert(d == 0 || d == 1 || d == 2 || d == 3);
    }
}

/// The counter at depth `d` while the counters of `hash` are raised one after the other.
proof fn lemma_each_raised(sketch: SketchView, hash: u64, d: int)
    requires
        sketch.wf(),
        0 <= d < 4,
    ensures
        ({
            let one = sketch.raise(hash, 0);
            let two = one.raise(hash, 1);
            let three = two.raise(hash, 2);
            let four = three.raise(hash, 3);
            &&& one.wf() && two.wf() && three.wf() && four.wf()
            &&& d > 0 ==> one.count(hash, d) == sketch.count(hash, d)
            &&& d > 1 ==> two.count(hash, d) == sketch.count(hash, d)
            &&& d > 2 ==> three.count(hash, d) == sketch.count(hash, d)
            &&& four.count(hash, d) == least(sketch.count(hash, d) + 1, counter_max())
        }),
{
    let one = sketch.raise(hash, 0);
    let two = one.raise(hash, 1);
    let three = two.raise(hash, 2);
    let four = three.raise(hash, 3);
    lemma_other_count(sketch, hash, 0, hash, d);
    lemma_other_count(one, hash, 1, hash, d);
    lemma_other_count(two, hash, 2, hash, d);
    lemma_other_count(three, hash, 3, hash, d);
}

/// A frequency is at most the greatest value of a counter.
pub proof fn law_frequency_bounded(sketch: SketchView, hash: u64)
    requires
        sketch.wf(),
    ensures
        sketch.frequency(hash) <= counter_max(),
{
    lemma_slot(sketch, hash, 0);
    lemma_slot(sketch, hash, 1);
    lemma_slot(sketch, hash, 2);
    lemma_slot(sketch, hash, 3);
    assert(sketch.table[sketch.slot_of(hash, 0)][counter_of(hash, 0)] <= counter_max());
}

/// An estimator is well-formed when it is made, and no hash has been seen.
pub proof fn law_fresh(cap: u32, hash: u64)
    ensures
        SketchView::fresh(slots_for(cap), sample_size_for(cap)).wf(),
        SketchView::fresh(slots_for(cap), sample_size_for(cap)).frequency(hash) == 0,
{
    let sketch = SketchView::fresh(slots_for(cap), sample_size_for(cap));
    let maximum = least(cap as nat, max_slots());
    vstd::arithmetic::power2::lemma2_to64();
    lemma_ceil_pow2(maximum);
    lemma_ceil_pow2_least(maximum, 30);
    lemma_slot(sketch, hash, 0);
    lemma_slot(sketch, hash, 1);
    lemma_slot(sketch, hash, 2);
    lemma_slot(sketch, hash, 3);
}

/// Counting a hash keeps an estimator well-formed.
pub proof fn law_increment_wf(sketch: SketchView, hash: u64)
    requires
        sketch.wf(),
    ensures
        sketch.increment(hash).wf(),
{
    lemma_raised(sketch, hash);
    let raised = sketch.raise(hash, 0).raise(hash, 1).raise(hash, 2).raise(hash, 3);
    let counted = SketchView { size: sketch.size + 1, ..raised };
    let aged = counted.age();
    assert forall|i: int, j: int|
        0 <= i < aged.table.len() && 0 <= j < 16 implies #[trigger] aged.table[i][j]
        <= counter_max() by {
        assert(counted.table[i][j] <= counter_max());
    }
}

/// Halving every counter halves every frequency.
proof fn lemma_aged(sketch: SketchView, hash: u64)
    requires
        sketch.table.len() > 0,
        sketch.table.len() <= u32::MAX,
    ensures
        sketch.age().frequency(hash) == sketch.frequency(hash) / 2,
{
    lemma_slot(sketch, hash, 0);
    lemma_slot(sketch, hash, 1);
    lemma_slot(sketch, hash, 2);
    lemma_slot(sketch, hash, 3);
    assert(sketch.age().count(hash, 0) == sketch.count(hash, 0) / 2);
    assert(sketch.age().count(hash, 1) == sketch.count(hash, 1) / 2);
    assert(sketch.age().count(hash, 2) == sketch.count(hash, 2) / 2);
    assert(sketch.age().count(hash, 3) == sketch.count(hash, 3) / 2);
}

/// Counting a hash raises its frequency by one, unless that is at its greatest value. If it is
/// time to age, the raised frequency is halved.
pub proof fn law_increment_counts(sketch: SketchView, hash: u64)
    requires
        sketch.wf(),
    ensures
        ({
            let raised = least(sketch.frequency(hash) + 1, counter_max());
            sketch.increment(hash).frequency(hash) == if sketch.can_count(hash)
                && sketch.size + 1 >= sketch.sample_size {
                raised / 2
            } else {
                raised
            }
        }),
{
    lemma_raised(sketch, hash);
    law_frequency_bounded(sketch, hash);
    let raised = sketch.raise(hash, 0).raise(hash, 1).raise(hash, 2).raise(hash, 3);
    assert(raised.count(hash, 0) == least(sketch.count(hash, 0) + 1, counter_max()));
    assert(raised.count(hash, 1) == least(sketch.count(hash, 1) + 1, counter_max()));
    assert(raised.count(hash, 2) == least(sketch.count(hash, 2) + 1, counter_max()));
    assert(raised.count(hash, 3) == least(sketch.count(hash, 3) + 1, counter_max()));
    assert(raised.frequency(hash) == least(sketch.frequency(hash) + 1, counter_max()));
    let counted = SketchView { size: sketch.size + 1, ..raised };
    assert(counted.frequency(hash) == raised.frequency(hash));
    lemma_aged(counted, hash);
}

/// Raising one counter lowers no frequency.
proof fn lemma_raise_lowers_none(sketch: SketchView, hash: u64, depth: int, other: u64)
    requires
        sketch.wf(),
        0 <= depth < 4,
    ensures
        sketch.raise(hash, depth).wf(),
        sketch.raise(hash, depth).frequency(other) >= sketch.frequency(other),
{
    lemma_counts_bounded(sketch, other);
    lemma_other_count(sketch, hash, depth, other, 0);
    lemma_other_count(sketch, hash, depth, other, 1);
    lemma_other_count(sketch, hash, depth, other, 2);
    lemma_other_count(sketch, hash, depth, other, 3);
}

/// No counter of a hash exceeds its greatest value.
proof fn lemma_counts_bounded(sketch: SketchView, hash: u64)
    requires
        sketch.wf(),
    ensures
        forall|d: int| 0 <= d < 4 ==> #[trigger] sketch.count(hash, d) <= counter_max(),
{
    assert forall|d: int| 0 <= d < 4 implies #[trigger] sketch.count(hash, d)
        <= counter_max() by {
        lemma_slot(sketch, hash, d);
    }
}

/// Counting a hash lowers the frequency of no other, unless it is time to age.
pub proof fn law_increment_lowers_none(sketch: SketchView, hash: u64, other: u64)
    requires
        sketch.wf(),
        !(sketch.can_count(hash) && sketch.size + 1 >= sketch.sample_size),
    ensures
        sketch.increment(hash).frequency(other) >= sketch.frequency(other),
{
    let one = sketch.raise(hash, 0);
    let two = one.raise(hash, 1);
    let three = two.raise(hash, 2);
    let raised = three.raise(hash, 3);
    lemma_raise_lowers_none(sketch, hash, 0, other);
    lemma_raise_lowers_none(one, hash, 1, other);
    lemma_raise_lowers_none(two, hash, 2, other);
    lemma_raise_lowers_none(three, hash, 3, other);
    let counted = SketchView { size: sketch.size + 1, ..raised };
    assert(counted.frequency(other) == raised.frequency(other));
}

/// Counting `hash` raises at most the counter of `other` at the same depth, by at most one, and
/// only if the two hashes have the same remainder.
proof fn lemma_other_raised(sketch: SketchView, hash: u64, other: u64, d: int)
    requires
        sketch.wf(),
        0 <= d < 4,
    ensures
        ({
            let four = sketch.raise(hash, 0).raise(hash, 1).raise(hash, 2).raise(hash, 3);
            &&& four.wf()
            &&& sketch.count(other, d) <= four.count(other, d) <= sketch.count(other, d) + 1
            &&& hash % 4 != other % 4 ==> four.count(other, d) == sketch.count(other, d)
        }),
{
    let one = sketch.raise(hash, 0);
    let two = one.raise(hash, 1);
    let three = two.raise(hash, 2);
    lemma_counts_bounded(sketch, other);
    lemma_other_count(sketch, hash, 0, other, d);
    lemma_other_count(one, hash, 1, other, d);
    lemma_other_count(two, hash, 2, other, d);
    lemma_other_count(three, hash, 3, other, d);
}

/// Counting a hash raises its frequency by exactly one, up to 15, until as many have been
/// counted as the sample size says.
pub proof fn law_count_raises_by_one(sketch: SketchView, hash: u64)
    requires
        sketch.wf(),
        sketch.size + 1 < sketch.sample_size,
    ensures
        sketch.frequency(hash) < 15 ==> sketch.increment(hash).frequency(hash) == sketch.frequency(
            hash,
        ) + 1,
        sketch.frequency(hash) >= 15 ==> sketch.increment(hash).frequency(hash) == 15,
        sketch.frequency(hash) < 15 ==> sketch.increment(hash).size == sketch.size + 1,
        sketch.size <= sketch.increment(hash).size <= sketch.size + 1,
        sketch.increment(hash).sample_size == sketch.sample_size,
        sketch.increment(hash).table.len() == sketch.table.len(),
{
    law_increment_counts(sketch, hash);
    law_frequency_bounded(sketch, hash);
    lemma_increment_sizes(sketch, hash);
    if sketch.frequency(hash) < 15 {
        lemma_can_count(sketch, hash);
    }
}

/// What counting a hash does to the sizes of an estimator.
proof fn lemma_increment_sizes(sketch: SketchView, hash: u64)
    requires
        sketch.wf(),
    ensures
        sketch.increment(hash).sample_size == sketch.sample_size,
        sketch.increment(hash).table.len() == sketch.table.len(),
        !sketch.can_count(hash) ==> sketch.increment(hash).size == sketch.size,
        sketch.can_count(hash) && sketch.size + 1 < sketch.sample_size ==> sketch.increment(
            hash,
        ).size == sketch.size + 1,
        sketch.can_count(hash) && sketch.size + 1 >= sketch.sample_size ==> sketch.increment(
            hash,
        ).size <= (sketch.size + 1) / 2,
{
    let one = sketch.raise(hash, 0);
    let two = one.raise(hash, 1);
    let three = two.raise(hash, 2);
    let four = three.raise(hash, 3);
    lemma_slot(sketch, hash, 0);
    lemma_slot(one, hash, 1);
    lemma_slot(two, hash, 2);
    lemma_slot(three, hash, 3);
    assert(four.size == sketch.size && four.sample_size == sketch.sample_size);
}

/// A hash whose frequency is not at its greatest value has a counter that is not.
proof fn lemma_can_count(sketch: SketchView, hash: u64)
    requires
        sketch.frequency(hash) < 15,
    ensures
        sketch.can_count(hash),
{
    if sketch.count(hash, 0) < counter_max() {
    } else if sketch.count(hash, 1) < counter_max() {
    } else if sketch.count(hash, 2) < counter_max() {
    } else {
        assert(sketch.count(hash, 3) < counter_max() || sketch.count(hash, 2) < counter_max());
    }
}

/// Counting a hash raises the frequency of no other by more than one, and lowers none; that of a
/// hash with another remainder stays. This holds until as many have been counted as the sample
/// size says.
pub proof fn law_count_of_others(sketch: SketchView, hash: u64, other: u64)
    requires
        sketch.wf(),
        sketch.size + 1 < sketch.sample_size,
    ensures
        sketch.frequency(other) <= sketch.increment(hash).frequency(other) <= sketch.frequency(
            other,
        ) + 1,
        hash % 4 != other % 4 ==> sketch.increment(hash).frequency(other) == sketch.frequency(
            other,
        ),
{
    let raised = sketch.raise(hash, 0).raise(hash, 1).raise(hash, 2).raise(hash, 3);
    lemma_other_raised(sketch, hash, other, 0);
    lemma_other_raised(sketch, hash, other, 1);
    lemma_other_raised(sketch, hash, other, 2);
    lemma_other_raised(sketch, hash, other, 3);
    let counted = SketchView { size: sketch.size + 1, ..raised };
    assert(counted.frequency(other) == raised.frequency(other));
}

/// When as many have been counted as the sample size says, every frequency is halved, and
/// counting starts again from no more than half.
pub proof fn law_count_halves(sketch: SketchView, hash: u64, other: u64)
    requires
        sketch.wf(),
        sketch.size + 1 == sketch.sample_size,
        sketch.frequency(hash) < 15,
    ensures
        sketch.increment(hash).frequency(hash) == (sketch.frequency(hash) + 1) / 2,
        sketch.frequency(other) / 2 <= sketch.increment(hash).frequency(other) <= (sketch.frequency(
            other,
        ) + 1) / 2,
        sketch.increment(hash).size <= (sketch.size + 1) / 2,
        sketch.increment(hash).sample_size == sketch.sample_size,
        sketch.increment(hash).table.len() == sketch.table.len(),
{
    let raised = sketch.raise(hash, 0).raise(hash, 1).raise(hash, 2).raise(hash, 3);
    law_increment_counts(sketch, hash);
    law_frequency_bounded(sketch, hash);
    lemma_can_count(sketch, hash);
    lemma_increment_sizes(sketch, hash);
    lemma_other_raised(sketch, hash, other, 0);
    lemma_other_raised(sketch, hash, other, 1);
    lemma_other_raised(sketch, hash, other, 2);
    lemma_other_raised(sketch, hash, other, 3);
    let counted = SketchView { size: sketch.size + 1, ..raised };
    assert(counted.frequency(other) == raised.frequency(other));
    assert(sketch.frequency(other) <= counted.frequency(other) <= sketch.frequency(other) + 1);
    lemma_aged(counted, other);
    assert(sketch.increment(hash) == counted.age());
}

/// The estimator after some hashes have been counted, one after the other.
pub open spec fn counted(sketch: SketchView, hashes: Seq<u64>) -> SketchView
    decreases hashes.len(),
{
    if hashes.len() == 0 {
        sketch
    } else {
        counted(sketch, hashes.drop_last()).increment(hashes.last())
    }
}

/// As long as fewer have been counted than the sample size says, the frequency of a hash is at
/// least the number of times that it was counted, up to 15, and at most the number of times that
/// any hash with the same remainder was counted. A hash that alone was counted has exactly the
/// number of times, up to 15.
pub proof fn law_counted(sketch: SketchView, hashes: Seq<u64>, hash: u64)
    requires
        sketch.wf(),
        sketch.size + hashes.len() < sketch.sample_size,
    ensures
        counted(sketch, hashes).wf(),
        counted(sketch, hashes).size <= sketch.size + hashes.len(),
        counted(sketch, hashes).sample_size == sketch.sample_size,
        ({
            let times = hashes.filter(|h: u64| h == hash).len();
            let alike = hashes.filter(|h: u64| h % 4 == hash % 4).len();
            let before = sketch.frequency(hash);
            let after = counted(sketch, hashes).frequency(hash);
            &&& after >= before + times || after >= 15
            &&& after <= before + alike
            &&& after <= 15
            &&& times == alike ==> after == before + times || after == 15 && before + times >= 15
        }),
    decreases hashes.len(),
{
    reveal(Seq::filter);
    law_frequency_bounded(sketch, hash);
    if hashes.len() > 0 {
        let rest = hashes.drop_last();
        let last = hashes.last();
        let former = counted(sketch, rest);
        law_counted(sketch, rest, hash);
        law_increment_wf(former, last);
        law_frequency_bounded(former.increment(last), hash);
        law_count_raises_by_one(former, last);
        law_count_of_others(former, last, hash);
    }
}

/// An estimator that is made for at least one hash is halved no sooner than after ten counts for
/// each hash that it is made for, as far as it has slots, or after 2147483647.
pub proof fn law_sample_size(cap: u32)
    requires
        cap > 0,
    ensures
        ({
            let most: int = if usize::BITS == 32 {
                0x100_0000
            } else {
                0x4000_0000
            };
            let served: int = if cap < most {
                cap as int
            } else {
                most
            };
            &&& 10 * served <= 0x7fff_ffff ==> sample_size_for(cap) == 10 * served
            &&& 10 * served > 0x7fff_ffff ==> sample_size_for(cap) == 0x7fff_ffff
            &&& served <= slots_for(cap) <= most
            &&& slots_for(cap) == 1 || slots_for(cap) < 2 * served
            &&& exists|n: nat| slots_for(cap) == #[trigger] vstd::arithmetic::power2::pow2(n)
        }),
{
    let served = least(cap as nat, max_slots());
    vstd::arithmetic::power2::lemma2_to64();
    lemma_ceil_pow2(served);
    if usize::BITS == 32 {
        lemma_ceil_pow2_least(served, 24);
    } else {
        lemma_ceil_pow2_least(served, 30);
    }
}

/// The frequency of a hash is the least of its four counters: it is none greater than any of
/// them, and it is one of them.
pub proof fn law_frequency_is_least(sketch: SketchView, hash: u64)
    ensures
        forall|d: int|
            0 <= d < 4 ==> sketch.frequency(hash) <= sketch.table[#[trigger] sketch.slot_of(
                hash,
                d,
            )][4 * (hash as int % 4) + d],
        exists|d: int|
            0 <= d < 4 && sketch.frequency(hash) == sketch.table[#[trigger] sketch.slot_of(
                hash,
                d,
            )][4 * (hash as int % 4) + d],
{
    let a = sketch.count(hash, 0);
    let b = sketch.count(hash, 1);
    let c = sketch.count(hash, 2);
    let d = sketch.count(hash, 3);
    assert(sketch.table[sketch.slot_of(hash, 0)][4 * (hash as int % 4) + 0] == a);
    assert(sketch.table[sketch.slot_of(hash, 1)][4 * (hash as int % 4) + 1] == b);
    assert(sketch.table[sketch.slot_of(hash, 2)][4 * (hash as int % 4) + 2] == c);
    assert(sketch.table[sketch.slot_of(hash, 3)][4 * (hash as int % 4) + 3] == d);
    assert forall|i: int| 0 <= i < 4 implies sketch.frequency(hash) <= sketch.table[
    #[trigger] sketch.slot_of(hash, i)][4 * (hash as int % 4) + i] by {
        assert(i == 0 || i == 1 || i == 2 || i == 3);
    }
}

/// The slot of a hash at a depth depends on all bits of the hash, spread by a seed of the depth,
/// as far as there are slots.
pub proof fn law_slot(sketch: SketchView, hash: u64, depth: int)
    requires
        0 <= depth < 4,
        0 < sketch.table.len() <= u32::MAX,
    ensures
        ({
            let seed: u64 = if depth == 0 {
                0xc3a5_c85c_97cb_3127
            } else if depth == 1 {
                0xb492_b66f_be98_f273
            } else if depth == 2 {
                0x9ae1_6a3b_2f90_404f
            } else {
                0xcbf2_9ce4_8422_2325
            };
            let mixed = hash.wrapping_add(seed).wrapping_mul(seed);
            let mask = (sketch.table.len() - 1) as u64;
            sketch.slot_of(hash, depth) == mixed.wrapping_add(mixed >> 32) & mask
        }),
{
}

} // verus!
