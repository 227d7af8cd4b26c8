//! Sequences of nodes in which every key occurs at most once.

use crate::common::time;
use crate::common::time::Instant;
use crate::unsync::entry::{Dated, KeyDate, KeyHashDate};
use std::time::Duration;
use vstd::prelude::*;

verus! {

/// The keys of the nodes of `s`.
pub open spec fn keys_of<K, T: Dated<K>>(s: Seq<T>) -> Set<K> {
    Set::new(|k: K| exists|i: int| 0 <= i < s.len() && (#[trigger] s[i]).of() == k)
}

/// No two nodes of `s` belong to the same key.
pub open spec fn distinct<K, T: Dated<K>>(s: Seq<T>) -> bool {
    forall|i: int, j: int|
        0 <= i < s.len() && 0 <= j < s.len() && i != j ==> (#[trigger] s[i]).of() != (
        #[trigger] s[j]).of()
}

/// The position in `s` of the node of key `k`.
pub open spec fn place<K, T: Dated<K>>(s: Seq<T>, k: K) -> int {
    choose|i: int| 0 <= i < s.len() && (#[trigger] s[i]).of() == k
}

/// The nodes of `s` whose keys are not in `keys`, in the same order.
pub open spec fn without<K, T: Dated<K>>(s: Seq<T>, keys: Set<K>) -> Seq<T> {
    s.filter(|node: T| !keys.contains(node.of()))
}

/// The time that a node carries after `timestamp` has been recorded in it, if one was read.
pub open spec fn restamp(timestamp: Option<Instant>, before: Option<Instant>) -> Option<Instant> {
    if timestamp is Some {
        timestamp
    } else {
        before
    }
}

/// The list of uses `s` after the entry at position `i` has been used.
pub open spec fn reuse<K>(
    s: Seq<KeyHashDate<K>>,
    i: int,
    timestamp: Option<Instant>,
) -> Seq<KeyHashDate<K>> {
    s.remove(i).push(
        KeyHashDate { timestamp: restamp(timestamp, s[i].timestamp), ..s[i] },
    )
}

/// The list of writes `s` after the entry at position `i` has been written.
pub open spec fn rewrite<K>(
    s: Seq<KeyDate<K>>,
    i: int,
    timestamp: Option<Instant>,
) -> Seq<KeyDate<K>> {
    s.remove(i).push(KeyDate { timestamp: restamp(timestamp, s[i].timestamp), ..s[i] })
}

/// Whether something that may last for `limit` since `since` is over at `now`. Without a limit,
/// or without a beginning, nothing is ever over.
///
/// The end is a sum of numbers without bound, so one beyond what an [`Instant`] can hold lies
/// after every `now`.
pub open spec fn over(limit: Option<Duration>, since: Option<Instant>, now: Instant) -> bool {
    match (limit, since) {
        (Some(limit), Some(since)) => since.nanos + time::duration_nanos(limit) <= now.nanos,
        _ => false,
    }
}

/// How many of the first `most` nodes of `s` are over before the first that is not.
pub open spec fn leading_over<K, T: Dated<K>>(
    s: Seq<T>,
    limit: Option<Duration>,
    now: Instant,
    most: nat,
) -> nat
    decreases most,
{
    if most == 0 || s.len() == 0 || !over(limit, s[0].when(), now) {
        0
    } else {
        1 + leading_over::<K, T>(s.skip(1), limit, now, (most - 1) as nat)
    }
}

/// What `leading_over` counts.
pub proof fn lemma_leading_over<K, T: Dated<K>>(
    s: Seq<T>,
    limit: Option<Duration>,
    now: Instant,
    most: nat,
)
    ensures
        ({
            let n = leading_over::<K, T>(s, limit, now, most);
            &&& n <= s.len()
            &&& n <= most
            &&& forall|i: int| 0 <= i < n ==> over(limit, (#[trigger] s[i]).when(), now)
            &&& n < s.len() && n < most ==> !over(limit, s[n as int].when(), now)
        }),
    decreases most,
{
    if most == 0 || s.len() == 0 || !over(limit, s[0].when(), now) {
    } else {
        let rest = s.skip(1);
        lemma_leading_over::<K, T>(rest, limit, now, (most - 1) as nat);
        let n = leading_over::<K, T>(s, limit, now, most);
        assert forall|i: int| 0 <= i < n implies over(limit, (#[trigger] s[i]).when(), now) by {
            if i > 0 {
                assert(s[i] == rest[i - 1]);
            }
        }
    }
}

/// `leading_over` is the only number of nodes that are over before one that is not.
pub proof fn lemma_leading_over_is<K, T: Dated<K>>(
    s: Seq<T>,
    limit: Option<Duration>,
    now: Instant,
    most: nat,
    n: nat,
)
    requires
        n <= s.len(),
        n <= most,
        forall|i: int| 0 <= i < n ==> over(limit, (#[trigger] s[i]).when(), now),
        n < s.len() && n < most ==> !over(limit, s[n as int].when(), now),
    ensures
        leading_over::<K, T>(s, limit, now, most) == n,
{
    lemma_leading_over::<K, T>(s, limit, now, most);
    let m = leading_over::<K, T>(s, limit, now, most);
    if m < n {
        assert(over(limit, s[m as int].when(), now));
    } else if n < m {
        assert(over(limit, s[n as int].when(), now));
    }
}

/// Every node is at the place of its key.
pub proof fn lemma_place<K, T: Dated<K>>(s: Seq<T>, i: int)
    requires
        distinct::<K, T>(s),
        0 <= i < s.len(),
    ensures
        place(s, s[i].of()) == i,
        keys_of::<K, T>(s).contains(s[i].of()),
{
    let p = place(s, s[i].of());
    assert(s[i].of() == s[i].of());
    assert(0 <= p < s.len() && s[p].of() == s[i].of());
}

/// Every key that occurs has a place.
pub proof fn lemma_place_of<K, T: Dated<K>>(s: Seq<T>, k: K)
    requires
        keys_of::<K, T>(s).contains(k),
    ensures
        0 <= place(s, k) < s.len(),
        s[place(s, k)].of() == k,
{
}

/// Which nodes stay, and that they stay distinct.
pub proof fn lemma_without<K, T: Dated<K>>(s: Seq<T>, keys: Set<K>)
    ensures
        distinct::<K, T>(s) ==> distinct::<K, T>(without(s, keys)),
        keys_of::<K, T>(without(s, keys)) == keys_of::<K, T>(s).difference(keys),
        forall|x: T| #[trigger]
            without(s, keys).contains(x) <==> s.contains(x) && !keys.contains(x.of()),
        without(s, keys).len() <= s.len(),
    decreases s.len(),
{
    reveal(Seq::filter);
    let out = without(s, keys);
    if s.len() > 0 {
        let rest = s.drop_last();
        lemma_without::<K, T>(rest, keys);
        let shorter = without(rest, keys);
        assert(out == if !keys.contains(s.last().of()) {
            shorter.push(s.last())
        } else {
            shorter
        });
        assert forall|x: T| #[trigger] out.contains(x) <==> s.contains(x) && !keys.contains(
            x.of(),
        ) by {
            if out.contains(x) {
                let i = out.index_of(x);
                if i < shorter.len() {
                    assert(shorter[i] == x);
                    assert(shorter.contains(x));
                    assert(rest.contains(x));
                    let j = rest.index_of(x);
                    assert(s[j] == x);
                } else {
                    assert(s[s.len() - 1] == x);
                }
            }
            if s.contains(x) && !keys.contains(x.of()) {
                let i = s.index_of(x);
                if i < rest.len() {
                    assert(rest[i] == x);
                    assert(shorter.contains(x));
                    let j = shorter.index_of(x);
                    assert(out[j] == x);
                } else {
                    assert(out[out.len() - 1] == x);
                }
            }
        }
        if distinct::<K, T>(s) {
            assert(distinct::<K, T>(rest));
            assert forall|i: int, j: int|
                0 <= i < out.len() && 0 <= j < out.len() && i != j implies (#[trigger] out[i]).of()
                != (#[trigger] out[j]).of() by {
                if i < shorter.len() {
                    assert(shorter.contains(shorter[i]));
                    assert(rest[rest.index_of(shorter[i])] == s[rest.index_of(shorter[i])]);
                }
                if j < shorter.len() {
                    assert(shorter.contains(shorter[j]));
                    assert(rest[rest.index_of(shorter[j])] == s[rest.index_of(shorter[j])]);
                }
            }
        }
    }
    assert(keys_of::<K, T>(out) =~= keys_of::<K, T>(s).difference(keys)) by {
        assert forall|k: K| keys_of::<K, T>(out).contains(k) implies keys_of::<K, T>(
            s,
        ).difference(keys).contains(k) by {
            let i = place(out, k);
            assert(out.contains(out[i]));
            let j = s.index_of(out[i]);
            assert(s[j].of() == k);
        }
        assert forall|k: K| keys_of::<K, T>(s).difference(keys).contains(k) implies keys_of::<
            K,
            T,
        >(out).contains(k) by {
            let i = place(s, k);
            assert(s.contains(s[i]));
            assert(out.contains(s[i]));
            let j = out.index_of(s[i]);
            assert(out[j].of() == k);
        }
    }
}

/// Where no key is to go, all nodes stay.
pub proof fn lemma_without_none<K, T: Dated<K>>(s: Seq<T>, keys: Set<K>)
    requires
        forall|i: int| 0 <= i < s.len() ==> !keys.contains((#[trigger] s[i]).of()),
    ensures
        without(s, keys) == s,
    decreases s.len(),
{
    reveal(Seq::filter);
    if s.len() > 0 {
        let rest = s.drop_last();
        assert forall|i: int| 0 <= i < rest.len() implies !keys.contains((#[trigger] rest[i]).of()) by {
            assert(rest[i] == s[i]);
        }
        lemma_without_none::<K, T>(rest, keys);
        assert(!keys.contains(s[s.len() - 1].of()));
        assert(rest.push(s.last()) =~= s);
    }
}

/// Where all keys are to go, no node stays.
pub proof fn lemma_without_all<K, T: Dated<K>>(s: Seq<T>, keys: Set<K>)
    requires
        forall|i: int| 0 <= i < s.len() ==> keys.contains((#[trigger] s[i]).of()),
    ensures
        without(s, keys) == Seq::<T>::empty(),
    decreases s.len(),
{
    reveal(Seq::filter);
    if s.len() > 0 {
        let rest = s.drop_last();
        assert forall|i: int| 0 <= i < rest.len() implies keys.contains((#[trigger] rest[i]).of()) by {
            assert(rest[i] == s[i]);
        }
        lemma_without_all::<K, T>(rest, keys);
        assert(keys.contains(s[s.len() - 1].of()));
    }
}

/// Nodes that leave one after the other leave together.
pub proof fn lemma_without_twice<K, T: Dated<K>>(s: Seq<T>, first: Set<K>, second: Set<K>)
    ensures
        without(without(s, first), second) == without(s, first.union(second)),
    decreases s.len(),
{
    reveal(Seq::filter);
    if s.len() > 0 {
        lemma_without_twice::<K, T>(s.drop_last(), first, second);
        let once = without(s.drop_last(), first);
        if !first.contains(s.last().of()) {
            assert(once.push(s.last()).drop_last() =~= once);
        }
    }
}

/// The nodes of two sequences leave independently.
pub proof fn lemma_without_add<K, T: Dated<K>>(a: Seq<T>, b: Seq<T>, keys: Set<K>)
    ensures
        without(a + b, keys) == without(a, keys) + without(b, keys),
{
    Seq::filter_distributes_over_add(a, b, |node: T| !keys.contains(node.of()));
}

/// The node of one key leaves.
pub proof fn lemma_without_one<K, T: Dated<K>>(s: Seq<T>, i: int)
    requires
        distinct::<K, T>(s),
        0 <= i < s.len(),
    ensures
        without(s, set![s[i].of()]) == s.remove(i),
{
    let keys = set![s[i].of()];
    let before = s.take(i);
    let node = seq![s[i]];
    let after = s.skip(i + 1);
    assert(s =~= before + node + after);
    lemma_without_add::<K, T>(before + node, after, keys);
    lemma_without_add::<K, T>(before, node, keys);
    lemma_without_none::<K, T>(before, keys);
    lemma_without_none::<K, T>(after, keys);
    lemma_without_all::<K, T>(node, keys);
    assert(s.remove(i) =~= before + after);
    assert(before + Seq::<T>::empty() + after =~= before + after);
}

/// The nodes at the front leave.
pub proof fn lemma_without_front<K, T: Dated<K>>(s: Seq<T>, n: int)
    requires
        distinct::<K, T>(s),
        0 <= n <= s.len(),
    ensures
        without(s, keys_of::<K, T>(s.take(n))) == s.skip(n),
{
    let front = s.take(n);
    let back = s.skip(n);
    let keys = keys_of::<K, T>(front);
    assert(s =~= front + back);
    lemma_without_add::<K, T>(front, back, keys);
    assert forall|i: int| 0 <= i < front.len() implies keys.contains((#[trigger] front[i]).of()) by {
    }
    lemma_without_all::<K, T>(front, keys);
    assert forall|i: int| 0 <= i < back.len() implies !keys.contains((#[trigger] back[i]).of()) by {
        if keys.contains(back[i].of()) {
            let j = place(front, back[i].of());
            assert(front[j] == s[j]);
            assert(back[i] == s[n + i]);
        }
    }
    lemma_without_none::<K, T>(back, keys);
    assert(Seq::<T>::empty() + back =~= back);
}

/// The keys of a sequence after one node has left.
pub proof fn lemma_keys_remove<K, T: Dated<K>>(s: Seq<T>, i: int)
    requires
        distinct::<K, T>(s),
        0 <= i < s.len(),
    ensures
        keys_of::<K, T>(s.remove(i)) == keys_of::<K, T>(s).remove(s[i].of()),
        distinct::<K, T>(s.remove(i)),
{
    lemma_without_one::<K, T>(s, i);
    lemma_without::<K, T>(s, set![s[i].of()]);
    assert(keys_of::<K, T>(s).difference(set![s[i].of()]) =~= keys_of::<K, T>(s).remove(s[i].of()));
}

/// The keys of a sequence after a node has been appended.
pub proof fn lemma_keys_push<K, T: Dated<K>>(s: Seq<T>, node: T)
    ensures
        keys_of::<K, T>(s.push(node)) == keys_of::<K, T>(s).insert(node.of()),
        distinct::<K, T>(s) && !keys_of::<K, T>(s).contains(node.of()) ==> distinct::<K, T>(
            s.push(node),
        ),
{
    let longer = s.push(node);
    assert forall|k: K| keys_of::<K, T>(s).insert(node.of()).contains(k) implies keys_of::<K, T>(
        longer,
    ).contains(k) by {
        if k == node.of() {
            assert(longer[s.len() as int].of() == k);
        } else {
            assert(longer[place(s, k)].of() == k);
        }
    }
    assert forall|k: K| keys_of::<K, T>(longer).contains(k) implies keys_of::<K, T>(s).insert(
        node.of(),
    ).contains(k) by {
        let i = place(longer, k);
        if i < s.len() {
            assert(s[i].of() == k);
        }
    }
    assert(keys_of::<K, T>(longer) =~= keys_of::<K, T>(s).insert(node.of()));
    if distinct::<K, T>(s) && !keys_of::<K, T>(s).contains(node.of()) {
        assert forall|i: int, j: int|
            0 <= i < longer.len() && 0 <= j < longer.len() && i != j implies (
        #[trigger] longer[i]).of() != (#[trigger] longer[j]).of() by {
            if i < s.len() {
                assert(longer[i] == s[i]);
            }
            if j < s.len() {
                assert(longer[j] == s[j]);
            }
        }
    }
}

/// A node that moves to the back, or is replaced there by one of the same key, changes neither
/// the keys nor that they are distinct.
pub proof fn lemma_keys_moved<K, T: Dated<K>>(s: Seq<T>, i: int, node: T)
    requires
        distinct::<K, T>(s),
        0 <= i < s.len(),
        node.of() == s[i].of(),
    ensures
        keys_of::<K, T>(s.remove(i).push(node)) == keys_of::<K, T>(s),
        distinct::<K, T>(s.remove(i).push(node)),
{
    lemma_keys_remove::<K, T>(s, i);
    lemma_keys_push::<K, T>(s.remove(i), node);
    lemma_place::<K, T>(s, i);
    assert(keys_of::<K, T>(s).remove(node.of()).insert(node.of()) =~= keys_of::<K, T>(s));
}

/// There are as many keys as nodes.
pub proof fn lemma_keys_len<K, T: Dated<K>>(s: Seq<T>)
    requires
        distinct::<K, T>(s),
    ensures
        keys_of::<K, T>(s).finite(),
        keys_of::<K, T>(s).len() == s.len(),
    decreases s.len(),
{
    if s.len() == 0 {
        assert(keys_of::<K, T>(s) =~= Set::empty());
    } else {
        let rest = s.drop_last();
        lemma_keys_len::<K, T>(rest);
        lemma_keys_push::<K, T>(rest, s.last());
        assert(rest.push(s.last()) =~= s);
        if keys_of::<K, T>(rest).contains(s.last().of()) {
            let i = place(rest, s.last().of());
            assert(rest[i] == s[i]);
        }
    }
}

/// A node that stays is the one that it was.
pub proof fn lemma_without_node<K, T: Dated<K>>(s: Seq<T>, keys: Set<K>, k: K)
    requires
        distinct::<K, T>(s),
        keys_of::<K, T>(s).contains(k),
        !keys.contains(k),
    ensures
        without(s, keys)[place(without(s, keys), k)] == s[place(s, k)],
{
    let out = without(s, keys);
    let node = s[place(s, k)];
    lemma_without::<K, T>(s, keys);
    assert(s.contains(node));
    assert(out.contains(node));
    let i = out.index_of(node);
    assert(out[i].of() == k);
    lemma_place::<K, T>(out, i);
}

/// A node that is not the one that moves to the back is the one that it was.
pub proof fn lemma_moved_node<K, T: Dated<K>>(s: Seq<T>, i: int, node: T, k: K)
    requires
        distinct::<K, T>(s),
        0 <= i < s.len(),
        node.of() == s[i].of(),
        keys_of::<K, T>(s).contains(k),
    ensures
        s.remove(i).push(node)[place(s.remove(i).push(node), k)] == (if k == node.of() {
            node
        } else {
            s[place(s, k)]
        }),
{
    let out = s.remove(i).push(node);
    lemma_keys_moved::<K, T>(s, i, node);
    let p = place(s, k);
    let j = if k == node.of() {
        out.len() - 1
    } else if p < i {
        p
    } else {
        p - 1
    };
    if k != node.of() {
        assert(p != i);
    }
    assert(out[j].of() == k);
    lemma_place::<K, T>(out, j);
}

/// A node that was there before another has been appended is the one that it was.
pub proof fn lemma_pushed_node<K, T: Dated<K>>(s: Seq<T>, node: T, k: K)
    requires
        distinct::<K, T>(s),
        !keys_of::<K, T>(s).contains(node.of()),
        keys_of::<K, T>(s).contains(k) || k == node.of(),
    ensures
        s.push(node)[place(s.push(node), k)] == (if k == node.of() {
            node
        } else {
            s[place(s, k)]
        }),
{
    let out = s.push(node);
    lemma_keys_push::<K, T>(s, node);
    let j = if k == node.of() {
        s.len() as int
    } else {
        place(s, k)
    };
    assert(out[j].of() == k);
    lemma_place::<K, T>(out, j);
}

} // verus!
