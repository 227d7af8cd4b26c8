//! The lists that order the entries of a cache by use and by write.

use crate::common::deque::{CacheRegion, Deque};
use crate::common::time::Instant;
use crate::unsync::entry::{KeyDate, KeyHashDate};
use std::rc::Rc;
use vstd::prelude::*;

verus! {

/// One list of uses for each region of the cache, and one list of writes.
pub struct Deques<K> {
    pub window: Deque<KeyHashDate<K>>,
    pub probation: Deque<KeyHashDate<K>>,
    pub protected: Deque<KeyHashDate<K>>,
    pub write_order: Deque<KeyDate<K>>,
}

impl<K> Deques<K> {
    /// The list of uses of `region`.
    pub open spec fn ao(self, region: CacheRegion) -> Deque<KeyHashDate<K>> {
        match region {
            CacheRegion::Window => self.window,
            CacheRegion::MainProtected => self.protected,
            CacheRegion::MainProbation => self.probation,
        }
    }

    /// The lists with another list of uses for `region`.
    pub open spec fn with_ao(self, region: CacheRegion, deque: Deque<KeyHashDate<K>>) -> Self {
        match region {
            CacheRegion::Window => Deques { window: deque, ..self },
            CacheRegion::MainProtected => Deques { protected: deque, ..self },
            CacheRegion::MainProbation => Deques { probation: deque, ..self },
        }
    }

    /// Every list is well-formed.
    pub open spec fn wf(self) -> bool {
        &&& self.window.wf()
        &&& self.probation.wf()
        &&& self.protected.wf()
        &&& self.write_order.wf()
    }

    /// Empty lists.
    pub fn new() -> (deques: Self)
        ensures
            deques.wf(),
            deques.window@ == Seq::<KeyHashDate<K>>::empty(),
            deques.probation@ == Seq::<KeyHashDate<K>>::empty(),
            deques.protected@ == Seq::<KeyHashDate<K>>::empty(),
            deques.write_order@ == Seq::<KeyDate<K>>::empty(),
    {
        Deques {
            window: Deque::new(),
            probation: Deque::new(),
            protected: Deque::new(),
            write_order: Deque::new(),
        }
    }

    /// Empties the lists.
    pub fn clear(&mut self)
        ensures
            final(self).wf(),
            final(self).window@ == Seq::<KeyHashDate<K>>::empty(),
            final(self).probation@ == Seq::<KeyHashDate<K>>::empty(),
            final(self).protected@ == Seq::<KeyHashDate<K>>::empty(),
            final(self).write_order@ == Seq::<KeyDate<K>>::empty(),
    {
        *self = Deques::new();
    }

    /// The list of uses of `region`.
    pub fn access_order(&self, region: CacheRegion) -> (deque: &Deque<KeyHashDate<K>>)
        ensures
            *deque == self.ao(region),
    {
        match region {
            CacheRegion::Window => &self.window,
            CacheRegion::MainProtected => &self.protected,
            CacheRegion::MainProbation => &self.probation,
        }
    }

    /// The list of uses of `region`, for writing.
    fn access_order_mut(&mut self, region: CacheRegion) -> (deque: &mut Deque<KeyHashDate<K>>)
        ensures
            *deque == old(self).ao(region),
            *final(self) == old(self).with_ao(region, *final(deque)),
    {
        match region {
            CacheRegion::Window => &mut self.window,
            CacheRegion::MainProtected => &mut self.protected,
            CacheRegion::MainProbation => &mut self.probation,
        }
    }

    /// Appends a node to the list of uses of `region` and returns its number.
    pub fn push_back_ao(&mut self, region: CacheRegion, node: KeyHashDate<K>) -> (id: usize)
        requires
            old(self).wf(),
        ensures
            final(self).wf(),
            final(self).ao(region)@ == old(self).ao(region)@.push(node),
            final(self).ao(region).ids() == old(self).ao(region).ids().push(id),
            !old(self).ao(region).has(id),
            *final(self) == old(self).with_ao(region, final(self).ao(region)),
    {
        self.access_order_mut(region).push_back(node)
    }

    /// Appends a node to the list of writes and returns its number.
    pub fn push_back_wo(&mut self, node: KeyDate<K>) -> (id: usize)
        requires
            old(self).wf(),
        ensures
            final(self).wf(),
            final(self).write_order@ == old(self).write_order@.push(node),
            final(self).write_order.ids() == old(self).write_order.ids().push(id),
            !old(self).write_order.has(id),
            *final(self) == (Deques { write_order: final(self).write_order, ..*old(self) }),
    {
        self.write_order.push_back(node)
    }

    /// Records in the node numbered `id` of the list of uses of `region` that its entry has
    /// been used at `timestamp`.
    pub fn set_last_accessed(&mut self, region: CacheRegion, id: usize, timestamp: Instant)
        requires
            old(self).wf(),
            old(self).ao(region).has(id),
        ensures
            final(self).wf(),
            final(self).ao(region)@ == ({
                let deque = old(self).ao(region);
                let i = deque.position(id);
                deque@.update(i, KeyHashDate { timestamp: Some(timestamp), ..deque@[i] })
            }),
            final(self).ao(region).ids() == old(self).ao(region).ids(),
            *final(self) == old(self).with_ao(region, final(self).ao(region)),
    {
        let deque = self.access_order_mut(region);
        let node = deque.element(id);
        let used = KeyHashDate {
            key: Rc::clone(&node.key),
            hash: node.hash,
            timestamp: Some(timestamp),
        };
        deque.set_element(id, used);
    }

    /// Records in the node numbered `id` of the list of writes that its entry has been written
    /// at `timestamp`.
    pub fn set_last_modified(&mut self, id: usize, timestamp: Instant)
        requires
            old(self).wf(),
            old(self).write_order.has(id),
        ensures
            final(self).wf(),
            final(self).write_order@ == ({
                let deque = old(self).write_order;
                let i = deque.position(id);
                deque@.update(i, KeyDate { timestamp: Some(timestamp), ..deque@[i] })
            }),
            final(self).write_order.ids() == old(self).write_order.ids(),
            *final(self) == (Deques { write_order: final(self).write_order, ..*old(self) }),
    {
        let node = self.write_order.element(id);
        let written = KeyDate { key: Rc::clone(&node.key), timestamp: Some(timestamp) };
        self.write_order.set_element(id, written);
    }

    /// Moves the node numbered `id` to the back of the list of uses of `region`.
    pub fn move_to_back_ao(&mut self, region: CacheRegion, id: usize)
        requires
            old(self).wf(),
            old(self).ao(region).has(id),
        ensures
            final(self).wf(),
            final(self).ao(region)@ == ({
                let deque = old(self).ao(region);
                let i = deque.position(id);
                deque@.remove(i).push(deque@[i])
            }),
            final(self).ao(region).ids() == ({
                let deque = old(self).ao(region);
                deque.ids().remove(deque.position(id)).push(id)
            }),
            *final(self) == old(self).with_ao(region, final(self).ao(region)),
    {
        self.access_order_mut(region).move_to_back(id)
    }

    /// Moves the node numbered `id` to the back of the list of writes.
    pub fn move_to_back_wo(&mut self, id: usize)
        requires
            old(self).wf(),
            old(self).write_order.has(id),
        ensures
            final(self).wf(),
            final(self).write_order@ == ({
                let deque = old(self).write_order;
                let i = deque.position(id);
                deque@.remove(i).push(deque@[i])
            }),
            final(self).write_order.ids() == ({
                let deque = old(self).write_order;
                deque.ids().remove(deque.position(id)).push(id)
            }),
            *final(self) == (Deques { write_order: final(self).write_order, ..*old(self) }),
    {
        self.write_order.move_to_back(id)
    }

    /// Takes the node numbered `id` out of the list of uses of `region`.
    pub fn unlink_ao(&mut self, region: CacheRegion, id: usize)
        requires
            old(self).wf(),
            old(self).ao(region).has(id),
        ensures
            final(self).wf(),
            final(self).ao(region)@ == old(self).ao(region)@.remove(
                old(self).ao(region).position(id),
            ),
            final(self).ao(region).ids() == old(self).ao(region).ids().remove(
                old(self).ao(region).position(id),
            ),
            *final(self) == old(self).with_ao(region, final(self).ao(region)),
    {
        let _ = self.access_order_mut(region).unlink(id);
    }

    /// Takes the node numbered `id` out of the list of writes.
    pub fn unlink_wo(&mut self, id: usize)
        requires
            old(self).wf(),
            old(self).write_order.has(id),
        ensures
            final(self).wf(),
            final(self).write_order@ == old(self).write_order@.remove(
                old(self).write_order.position(id),
            ),
            final(self).write_order.ids() == old(self).write_order.ids().remove(
                old(self).write_order.position(id),
            ),
            *final(self) == (Deques { write_order: final(self).write_order, ..*old(self) }),
    {
        let _ = self.write_order.unlink(id);
    }
}

} // verus!
