//! How the hash table of a cache and its lists belong together.

use crate::common::deque::CacheRegion;
use crate::unsync::entry::{Dated, KeyDate, KeyHashDate, ValueEntry};
use crate::unsync::order;
use std::rc::Rc;
use vstd::prelude::*;

verus! {

/// The contents of the hash table and of the lists, with the numbers of the nodes.
#[verifier::ext_equal]
#[verifier::reject_recursive_types(K)]
#[verifier::reject_recursive_types(V)]
pub struct Links<K, V> {
    pub store: Map<Rc<K>, ValueEntry<V>>,
    pub uses: Seq<KeyHashDate<K>>,
    pub use_ids: Seq<usize>,
    pub writes: Seq<KeyDate<K>>,
    pub write_ids: Seq<usize>,
    /// Whether the list of writes is kept.
    pub dated: bool,
}

impl<K, V> Links<K, V> {
    /// The node at position `i` of the list of uses is the one that its entry names.
    pub open spec fn use_linked(self, i: int) -> bool {
        let key = self.uses[i].key;
        &&& self.store.contains_key(key)
        &&& self.store[key].region == CacheRegion::MainProbation
        &&& self.store[key].access_order_q_node == self.use_ids[i]
    }

    /// The node at position `i` of the list of writes is the one that its entry names.
    pub open spec fn write_linked(self, i: int) -> bool {
        let key = self.writes[i].key;
        &&& self.store.contains_key(key)
        &&& self.store[key].write_order_q_node == Some(self.write_ids[i])
    }

    /// The entry of `key` has a node in the list of uses, and one in the list of writes exactly
    /// if that is kept.
    pub open spec fn entry_linked(self, key: Rc<K>) -> bool {
        &&& order::keys_of::<K, _>(self.uses).contains(*key)
        &&& self.dated ==> order::keys_of::<K, _>(self.writes).contains(*key)
        &&& !self.dated ==> self.store[key].write_order_q_node is None
    }

    /// Every node belongs to an entry, and every entry to its nodes.
    pub open spec fn wf(self) -> bool {
        &&& self.uses.len() == self.use_ids.len()
        &&& self.writes.len() == self.write_ids.len()
        &&& self.use_ids.no_duplicates()
        &&& self.write_ids.no_duplicates()
        &&& !self.dated ==> self.writes.len() == 0
        &&& forall|i: int| 0 <= i < self.uses.len() ==> #[trigger] self.use_linked(i)
        &&& forall|i: int| 0 <= i < self.writes.len() ==> #[trigger] self.write_linked(i)
        &&& forall|key: Rc<K>|
            self.store.contains_key(key) ==> #[trigger] self.entry_linked(key)
    }

    /// Keys occur once in each list, and the keys of the lists are those of the table.
    pub proof fn lemma_keys(self)
        requires
            self.wf(),
        ensures
            order::distinct::<K, _>(self.uses),
            order::distinct::<K, _>(self.writes),
            forall|k: K| #[trigger]
                order::keys_of::<K, _>(self.uses).contains(k) <==> self.store.contains_key(Rc::new(k)),
            self.dated ==> forall|k: K| #[trigger]
                order::keys_of::<K, _>(self.writes).contains(k) <==> self.store.contains_key(Rc::new(k)),
    {
        assert forall|i: int, j: int|
            0 <= i < self.uses.len() && 0 <= j < self.uses.len() && i != j implies (
        #[trigger] self.uses[i]).of() != (#[trigger] self.uses[j]).of() by {
            assert(self.use_linked(i));
            assert(self.use_linked(j));
        }
        assert forall|i: int, j: int|
            0 <= i < self.writes.len() && 0 <= j < self.writes.len() && i != j implies (
        #[trigger] self.writes[i]).of() != (#[trigger] self.writes[j]).of() by {
            assert(self.write_linked(i));
            assert(self.write_linked(j));
        }
        assert forall|k: K| #[trigger]
            order::keys_of::<K, _>(self.uses).contains(k) <==> self.store.contains_key(Rc::new(k)) by {
            if order::keys_of::<K, _>(self.uses).contains(k) {
                let i = choose|i: int| 0 <= i < self.uses.len() && (#[trigger] self.uses[i]).of() == k;
                assert(self.use_linked(i));
            }
            if self.store.contains_key(Rc::new(k)) {
                assert(self.entry_linked(Rc::new(k)));
            }
        }
        if self.dated {
            assert forall|k: K| #[trigger]
                order::keys_of::<K, _>(self.writes).contains(k) <==> self.store.contains_key(
                    Rc::new(k),
                ) by {
                if order::keys_of::<K, _>(self.writes).contains(k) {
                    let i = choose|i: int|
                        0 <= i < self.writes.len() && (#[trigger] self.writes[i]).of() == k;
                    assert(self.write_linked(i));
                }
                if self.store.contains_key(Rc::new(k)) {
                    assert(self.entry_linked(Rc::new(k)));
                }
            }
        }
    }

    /// The links after the entry of `key` has left, whose nodes stand at positions `p` and `q`.
    pub open spec fn removed(self, key: Rc<K>, p: int, q: int) -> Self {
        Links {
            store: self.store.remove(key),
            uses: self.uses.remove(p),
            use_ids: self.use_ids.remove(p),
            writes: if self.dated {
                self.writes.remove(q)
            } else {
                self.writes
            },
            write_ids: if self.dated {
                self.write_ids.remove(q)
            } else {
                self.write_ids
            },
            ..self
        }
    }

    /// The table and the lists still belong together when an entry leaves.
    pub proof fn lemma_removed(self, key: Rc<K>, p: int, q: int)
        requires
            self.wf(),
            0 <= p < self.uses.len(),
            self.uses[p].key == key,
            self.dated ==> 0 <= q < self.writes.len() && self.writes[q].key == key,
        ensures
            self.removed(key, p, q).wf(),
    {
        let after = self.removed(key, p, q);
        self.lemma_keys();
        order::lemma_keys_remove::<K, _>(self.uses, p);
        assert forall|i: int| 0 <= i < after.uses.len() implies #[trigger] after.use_linked(i) by {
            let j = if i < p {
                i
            } else {
                i + 1
            };
            assert(self.use_linked(j));
            assert(self.use_linked(p));
            assert(self.uses[j].of() != self.uses[p].of());
        }
        if self.dated {
            order::lemma_keys_remove::<K, _>(self.writes, q);
            assert forall|i: int| 0 <= i < after.writes.len() implies #[trigger] after.write_linked(
                i,
            ) by {
                let j = if i < q {
                    i
                } else {
                    i + 1
                };
                assert(self.write_linked(j));
                assert(self.writes[j].of() != self.writes[q].of());
            }
        }
        assert forall|other: Rc<K>|
            after.store.contains_key(other) implies #[trigger] after.entry_linked(other) by {
            assert(self.entry_linked(other));
        }
    }

    /// The links after an entry for `key` has been put in, with a node at the back of the list
    /// of uses, and one at the back of the list of writes if that is kept.
    pub open spec fn added(
        self,
        entry: ValueEntry<V>,
        used: KeyHashDate<K>,
        written: KeyDate<K>,
    ) -> Self {
        Links {
            store: self.store.insert(used.key, entry),
            uses: self.uses.push(used),
            use_ids: self.use_ids.push(entry.access_order_q_node),
            writes: if self.dated {
                self.writes.push(written)
            } else {
                self.writes
            },
            write_ids: if self.dated {
                self.write_ids.push(entry.write_order_q_node->Some_0)
            } else {
                self.write_ids
            },
            ..self
        }
    }

    /// The table and the lists still belong together when an entry is added.
    pub proof fn lemma_added(
        self,
        entry: ValueEntry<V>,
        used: KeyHashDate<K>,
        written: KeyDate<K>,
    )
        requires
            self.wf(),
            !self.store.contains_key(used.key),
            written.key == used.key,
            entry.region == CacheRegion::MainProbation,
            !self.use_ids.contains(entry.access_order_q_node),
            self.dated <==> entry.write_order_q_node is Some,
            entry.write_order_q_node matches Some(id) ==> !self.write_ids.contains(id),
        ensures
            self.added(entry, used, written).wf(),
    {
        let after = self.added(entry, used, written);
        order::lemma_keys_push::<K, _>(self.uses, used);
        order::lemma_keys_push::<K, _>(self.writes, written);
        assert forall|i: int| 0 <= i < after.uses.len() implies #[trigger] after.use_linked(i) by {
            if i < self.uses.len() {
                assert(self.use_linked(i));
            }
        }
        assert forall|i: int| 0 <= i < after.writes.len() implies #[trigger] after.write_linked(
            i,
        ) by {
            if i < self.writes.len() {
                assert(self.write_linked(i));
            }
        }
        assert forall|other: Rc<K>|
            after.store.contains_key(other) implies #[trigger] after.entry_linked(other) by {
            if other != used.key {
                assert(self.entry_linked(other));
            }
        }
    }

    /// The links after the node at position `p` of the list of uses has been replaced by `used`
    /// at the back.
    pub open spec fn used(self, p: int, used: KeyHashDate<K>) -> Self {
        Links {
            uses: self.uses.remove(p).push(used),
            use_ids: self.use_ids.remove(p).push(self.use_ids[p]),
            ..self
        }
    }

    /// The table and the lists still belong together when an entry is used.
    pub proof fn lemma_used(self, p: int, used: KeyHashDate<K>)
        requires
            self.wf(),
            0 <= p < self.uses.len(),
            used.key == self.uses[p].key,
        ensures
            self.used(p, used).wf(),
    {
        let after = self.used(p, used);
        self.lemma_keys();
        order::lemma_keys_moved::<K, _>(self.uses, p, used);
        assert forall|i: int| 0 <= i < after.uses.len() implies #[trigger] after.use_linked(i) by {
            let j = if i < p {
                i
            } else if i + 1 < after.uses.len() {
                i + 1
            } else {
                p
            };
            assert(self.use_linked(j));
        }
        assert forall|i: int| 0 <= i < after.writes.len() implies #[trigger] after.write_linked(
            i,
        ) by {
            assert(self.write_linked(i));
        }
        assert forall|other: Rc<K>|
            after.store.contains_key(other) implies #[trigger] after.entry_linked(other) by {
            assert(self.entry_linked(other));
        }
    }

    /// The links after the node at position `q` of the list of writes has been replaced by
    /// `written` at the back.
    pub open spec fn written(self, q: int, written: KeyDate<K>) -> Self {
        Links {
            writes: self.writes.remove(q).push(written),
            write_ids: self.write_ids.remove(q).push(self.write_ids[q]),
            ..self
        }
    }

    /// The table and the lists still belong together when an entry is written.
    pub proof fn lemma_written(self, q: int, written: KeyDate<K>)
        requires
            self.wf(),
            0 <= q < self.writes.len(),
            written.key == self.writes[q].key,
        ensures
            self.written(q, written).wf(),
    {
        let after = self.written(q, written);
        self.lemma_keys();
        order::lemma_keys_moved::<K, _>(self.writes, q, written);
        assert forall|i: int| 0 <= i < after.uses.len() implies #[trigger] after.use_linked(i) by {
            assert(self.use_linked(i));
        }
        assert forall|i: int| 0 <= i < after.writes.len() implies #[trigger] after.write_linked(
            i,
        ) by {
            let j = if i < q {
                i
            } else if i + 1 < after.writes.len() {
                i + 1
            } else {
                q
            };
            assert(self.write_linked(j));
        }
        assert forall|other: Rc<K>|
            after.store.contains_key(other) implies #[trigger] after.entry_linked(other) by {
            assert(self.entry_linked(other));
        }
    }

    /// The links after the entry of `key` has been given another value.
    pub open spec fn revalued(self, key: Rc<K>, value: V) -> Self {
        Links {
            store: self.store.insert(key, ValueEntry { value, ..self.store[key] }),
            ..self
        }
    }

    /// The table and the lists still belong together when an entry gets another value.
    pub proof fn lemma_revalued(self, key: Rc<K>, value: V)
        requires
            self.wf(),
            self.store.contains_key(key),
        ensures
            self.revalued(key, value).wf(),
    {
        let after = self.revalued(key, value);
        assert forall|i: int| 0 <= i < after.uses.len() implies #[trigger] after.use_linked(i) by {
            assert(self.use_linked(i));
        }
        assert forall|i: int| 0 <= i < after.writes.len() implies #[trigger] after.write_linked(
            i,
        ) by {
            assert(self.write_linked(i));
        }
        assert forall|other: Rc<K>|
            after.store.contains_key(other) implies #[trigger] after.entry_linked(other) by {
            assert(self.entry_linked(other));
        }
    }
}

} // verus!
