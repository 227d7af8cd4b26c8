//! A doubly linked list whose nodes keep their identity while they move.
//!
//! Nodes live in the slots of a vector and are linked by slot number. A slot number is handed
//! out by [`Deque::push_back`] and stays valid until the node is unlinked, wherever the node
//! stands in the list meanwhile. Vacant slots are reused.

use vstd::prelude::*;

verus! {

/// The part of the cache that an entry belongs to.
#[derive(Clone, Copy, PartialEq, Eq, Debug, Structural)]
pub enum CacheRegion {
    Window,
    MainProbation,
    MainProtected,
}

/// An element together with its links.
pub struct DeqNode<T> {
    next: Option<usize>,
    prev: Option<usize>,
    element: T,
}

/// A list of elements, front first.
pub struct Deque<T> {
    len: usize,
    head: Option<usize>,
    tail: Option<usize>,
    slots: Vec<Option<DeqNode<T>>>,
    vacant: Vec<usize>,
    ids: Ghost<Seq<usize>>,
}

/// The slot number before position `i` of `ids`.
spec fn prev_of(ids: Seq<usize>, i: int) -> Option<usize> {
    if i == 0 {
        None
    } else {
        Some(ids[i - 1])
    }
}

/// The slot number after position `i` of `ids`.
spec fn next_of(ids: Seq<usize>, i: int) -> Option<usize> {
    if i + 1 == ids.len() {
        None
    } else {
        Some(ids[i + 1])
    }
}

/// The first of `ids`.
spec fn first_of(ids: Seq<usize>) -> Option<usize> {
    if ids.len() == 0 {
        None
    } else {
        Some(ids[0])
    }
}

/// The last of `ids`.
spec fn last_of(ids: Seq<usize>) -> Option<usize> {
    if ids.len() == 0 {
        None
    } else {
        Some(ids[ids.len() - 1])
    }
}

impl<T> View for Deque<T> {
    type V = Seq<T>;

    /// The elements, front first.
    closed spec fn view(&self) -> Seq<T> {
        Seq::new(self.ids@.len(), |i: int| self.slots@[self.ids@[i] as int]->Some_0.element)
    }
}

impl<T> Deque<T> {
    /// The node numbers, in the order of the elements.
    pub closed spec fn ids(&self) -> Seq<usize> {
        self.ids@
    }

    /// Whether `id` is the number of a node of this list.
    pub open spec fn has(&self, id: usize) -> bool {
        self.ids().contains(id)
    }

    /// The position of the node numbered `id`.
    pub open spec fn position(&self, id: usize) -> int {
        self.ids().index_of(id)
    }

    spec fn linked(&self, i: int) -> bool {
        &&& self.ids@[i] < self.slots@.len()
        &&& self.slots@[self.ids@[i] as int] matches Some(node)
        &&& node.prev == prev_of(self.ids@, i)
        &&& node.next == next_of(self.ids@, i)
    }

    /// The links agree with the order of the nodes, and every slot either holds a node of the
    /// list, holds the node `loose` that is not linked in, or is listed once as vacant.
    spec fn wf_except(&self, loose: Option<usize>) -> bool {
        &&& self.len == self.ids@.len()
        &&& self.ids@.no_duplicates()
        &&& forall|i: int| 0 <= i < self.ids@.len() ==> #[trigger] self.linked(i)
        &&& self.head == first_of(self.ids@)
        &&& self.tail == last_of(self.ids@)
        &&& forall|s: usize|
            s < self.slots@.len() && (#[trigger] self.slots@[s as int]) is Some
                ==> self.ids@.contains(s) || loose == Some(s)
        &&& self.vacant@.no_duplicates()
        &&& forall|i: int|
            0 <= i < self.vacant@.len() ==> (#[trigger] self.vacant@[i]) < self.slots@.len()
                && self.slots@[self.vacant@[i] as int] is None
        &&& match loose {
            Some(id) => {
                &&& id < self.slots@.len()
                &&& self.slots@[id as int] is Some
                &&& !self.ids@.contains(id)
                &&& self.slots@.len() == self.ids@.len() + self.vacant@.len() + 1
            },
            None => self.slots@.len() == self.ids@.len() + self.vacant@.len(),
        }
    }

    /// The links agree with the order of the nodes, and every slot either holds a node of the
    /// list or is listed once as vacant.
    pub closed spec fn wf(&self) -> bool {
        self.wf_except(None)
    }

    /// Whether every slot of `self` that holds an element holds it in `other` too.
    spec fn same_elements(&self, other: &Self) -> bool {
        &&& self.vacant == other.vacant
        &&& self.slots@.len() == other.slots@.len()
        &&& forall|s: int|
            0 <= s < self.slots@.len() ==> (#[trigger] self.slots@[s] is Some
                <==> other.slots@[s] is Some)
        &&& forall|s: int|
            0 <= s < self.slots@.len() && self.slots@[s] is Some ==> (
            #[trigger] self.slots@[s])->Some_0.element == other.slots@[s]->Some_0.element
    }

    /// Every element has one number.
    pub proof fn lemma_wf(&self)
        requires
            self.wf(),
        ensures
            self.ids().len() == self@.len(),
            self.ids().no_duplicates(),
            self@.len() <= usize::MAX,
    {
    }

    /// The position of a node is found by its number.
    pub proof fn lemma_position(&self, i: int)
        requires
            self.wf(),
            0 <= i < self@.len(),
        ensures
            self.has(self.ids()[i]),
            self.position(self.ids()[i]) == i,
    {
        let p = self.position(self.ids@[i]);
        assert(self.ids@[p] == self.ids@[i]);
    }

    /// An empty list.
    pub fn new() -> (deque: Self)
        ensures
            deque.wf(),
            deque@ == Seq::<T>::empty(),
            deque.ids() == Seq::<usize>::empty(),
    {
        Deque {
            len: 0,
            head: None,
            tail: None,
            slots: Vec::new(),
            vacant: Vec::new(),
            ids: Ghost(Seq::empty()),
        }
    }

    /// The number of elements.
    pub fn len(&self) -> (len: usize)
        requires
            self.wf(),
        ensures
            len == self@.len(),
    {
        self.len
    }

    /// The number of the node at the front.
    pub fn peek_front(&self) -> (front: Option<usize>)
        requires
            self.wf(),
        ensures
            front == (if self.ids().len() == 0 {
                None::<usize>
            } else {
                Some(self.ids()[0])
            }),
    {
        self.head
    }

    /// The number of the node after the one numbered `id`.
    pub fn next_node(&self, id: usize) -> (next: Option<usize>)
        requires
            self.wf(),
            self.has(id),
        ensures
            next == (if self.position(id) + 1 == self.ids().len() {
                None::<usize>
            } else {
                Some(self.ids()[self.position(id) + 1])
            }),
    {
        assert(self.linked(self.position(id)));
        match &self.slots[id] {
            Some(node) => node.next,
            None => None,
        }
    }

    /// The element of the node numbered `id`.
    pub fn element(&self, id: usize) -> (element: &T)
        requires
            self.wf(),
            self.has(id),
        ensures
            *element == self@[self.position(id)],
    {
        assert(self.linked(self.position(id)));
        &self.slots[id].as_ref().unwrap().element
    }

    /// Sets the link of the node at `id` to its successor.
    fn set_next(&mut self, id: usize, next: Option<usize>)
        requires
            id < old(self).slots@.len(),
            old(self).slots@[id as int] is Some,
        ensures
            final(self).slots@ == old(self).slots@.update(
                id as int,
                Some(DeqNode { next, ..old(self).slots@[id as int]->Some_0 }),
            ),
            *final(self) == (Deque { slots: final(self).slots, ..*old(self) }),
    {
        match &mut self.slots[id] {
            Some(node) => {
                node.next = next;
            },
            None => {},
        }
    }

    /// Sets the link of the node at `id` to its predecessor.
    fn set_prev(&mut self, id: usize, prev: Option<usize>)
        requires
            id < old(self).slots@.len(),
            old(self).slots@[id as int] is Some,
        ensures
            final(self).slots@ == old(self).slots@.update(
                id as int,
                Some(DeqNode { prev, ..old(self).slots@[id as int]->Some_0 }),
            ),
            *final(self) == (Deque { slots: final(self).slots, ..*old(self) }),
    {
        match &mut self.slots[id] {
            Some(node) => {
                node.prev = prev;
            },
            None => {},
        }
    }

    /// Takes the node at `id` out of the chain and leaves it in its slot.
    fn detach(&mut self, id: usize)
        requires
            old(self).wf(),
            old(self).has(id),
        ensures
            final(self).wf_except(Some(id)),
            final(self).ids@ == old(self).ids@.remove(old(self).position(id)),
            old(self).same_elements(final(self)),
    {
        let ghost ids = self.ids@;
        let ghost p = self.position(id);
        assert(ids[p] == id);
        assert(self.linked(p));
        let (prev, next) = match &self.slots[id] {
            Some(node) => (node.prev, node.next),
            None => (None, None),
        };
        match prev {
            Some(before) => {
                assert(self.linked(p - 1));
                self.set_next(before, next);
            },
            None => {
                self.head = next;
            },
        }
        match next {
            Some(after) => {
                assert(old(self).linked(p + 1));
                self.set_prev(after, prev);
            },
            None => {
                self.tail = prev;
            },
        }
        self.len = self.len - 1;
        self.ids = Ghost(ids.remove(p));
        assert forall|i: int| 0 <= i < self.ids@.len() implies #[trigger] self.linked(i) by {
            let j = if i < p {
                i
            } else {
                i + 1
            };
            assert(old(self).linked(j));
            assert(self.ids@[i] == ids[j]);
        }
        assert forall|s: usize|
            s < self.slots@.len() && (#[trigger] self.slots@[s as int]) is Some implies self.ids@.contains(
            s,
        ) || id == s by {
            assert(old(self).slots@[s as int] is Some);
            let j = ids.index_of(s);
            assert(ids[j] == s);
            if j < p {
                assert(self.ids@[j] == s);
            } else if j > p {
                assert(self.ids@[j - 1] == s);
            }
        }
    }

    /// Links the loose node at `id` in at the back.
    fn attach(&mut self, id: usize)
        requires
            old(self).wf_except(Some(id)),
        ensures
            final(self).wf(),
            final(self).ids@ == old(self).ids@.push(id),
            old(self).same_elements(final(self)),
    {
        let ghost ids = self.ids@;
        let tail = self.tail;
        match tail {
            Some(last) => {
                assert(self.linked(ids.len() - 1));
                self.set_next(last, Some(id));
            },
            None => {
                self.head = Some(id);
            },
        }
        self.set_prev(id, tail);
        self.set_next(id, None);
        self.tail = Some(id);
        proof {
            assert(self.slots.len() == ids.len() + self.vacant@.len() + 1);
        }
        self.len = self.len + 1;
        self.ids = Ghost(ids.push(id));
        assert forall|i: int| 0 <= i < self.ids@.len() implies #[trigger] self.linked(i) by {
            if i < ids.len() {
                assert(old(self).linked(i));
            }
        }
        assert forall|s: usize|
            s < self.slots@.len() && (#[trigger] self.slots@[s as int]) is Some implies self.ids@.contains(
            s,
        ) by {
            assert(old(self).slots@[s as int] is Some);
            if s != id {
                assert(ids.contains(s));
                assert(self.ids@[ids.index_of(s)] == s);
            } else {
                assert(self.ids@[ids.len() as int] == s);
            }
        }
    }

    /// Appends an element and returns the number of its node.
    pub fn push_back(&mut self, element: T) -> (id: usize)
        requires
            old(self).wf(),
        ensures
            final(self).wf(),
            final(self)@ == old(self)@.push(element),
            final(self).ids() == old(self).ids().push(id),
            !old(self).has(id),
    {
        let node = DeqNode { next: None, prev: None, element };
        let id: usize = match self.vacant.pop() {
            Some(id) => {
                assert(old(self).vacant@[old(self).vacant@.len() - 1] == id);
                self.slots[id] = Some(node);
                id
            },
            None => {
                let id: usize = self.slots.len();
                self.slots.push(Some(node));
                id
            },
        };
        assert(!self.ids@.contains(id)) by {
            if self.ids@.contains(id) {
                assert(old(self).linked(self.position(id)));
            }
        }
        assert forall|i: int| 0 <= i < self.ids@.len() implies #[trigger] self.linked(i) by {
            assert(old(self).linked(i));
        }
        assert(self.wf_except(Some(id)));
        let ghost mid = *self;
        self.attach(id);
        assert forall|i: int| 0 <= i < old(self)@.len() implies #[trigger] self@[i] == old(
            self,
        )@[i] by {
            assert(old(self).linked(i));
            assert(mid.slots@[mid.ids@[i] as int] is Some);
        }
        assert(mid.slots@[id as int] is Some);
        assert(self@ =~= old(self)@.push(element));
        id
    }

    /// Moves the node numbered `id` to the back.
    pub fn move_to_back(&mut self, id: usize)
        requires
            old(self).wf(),
            old(self).has(id),
        ensures
            final(self).wf(),
            final(self)@ == old(self)@.remove(old(self).position(id)).push(
                old(self)@[old(self).position(id)],
            ),
            final(self).ids() == old(self).ids().remove(old(self).position(id)).push(id),
    {
        let ghost p = self.position(id);
        self.detach(id);
        let ghost mid = *self;
        self.attach(id);
        proof {
            assert forall|i: int| 0 <= i < self.ids@.len() implies #[trigger] self@[i] == old(
                self,
            )@.remove(p).push(old(self)@[p])[i] by {
                let j = if i < p {
                    i
                } else if i + 1 < self.ids@.len() {
                    i + 1
                } else {
                    p
                };
                assert(old(self).linked(j));
                assert(self.ids@[i] == old(self).ids@[j]);
                assert(old(self).slots@[old(self).ids@[j] as int] is Some);
                assert(mid.slots@[old(self).ids@[j] as int] is Some);
            }
            assert(self@ =~= old(self)@.remove(p).push(old(self)@[p]));
        }
    }

    /// Takes the node numbered `id` out and returns its element.
    pub fn unlink(&mut self, id: usize) -> (element: T)
        requires
            old(self).wf(),
            old(self).has(id),
        ensures
            final(self).wf(),
            element == old(self)@[old(self).position(id)],
            final(self)@ == old(self)@.remove(old(self).position(id)),
            final(self).ids() == old(self).ids().remove(old(self).position(id)),
    {
        let ghost p = self.position(id);
        assert(self.linked(p));
        self.detach(id);
        let ghost mid = *self;
        let node = self.slots[id].take().unwrap();
        self.vacant.push(id);
        proof {
            assert forall|i: int| 0 <= i < self.ids@.len() implies #[trigger] self.linked(i) by {
                assert(mid.linked(i));
            }
            assert forall|i: int| 0 <= i < self.ids@.len() implies #[trigger] self@[i] == old(
                self,
            )@.remove(p)[i] by {
                let j = if i < p {
                    i
                } else {
                    i + 1
                };
                assert(old(self).linked(j));
                assert(self.ids@[i] == old(self).ids@[j]);
                assert(old(self).slots@[old(self).ids@[j] as int] is Some);
            }
            assert(self@ =~= old(self)@.remove(p));
            assert(old(self).slots@[id as int] is Some);
            assert forall|i: int| 0 <= i < mid.vacant@.len() implies #[trigger] mid.vacant@[i]
                != id by {
                assert(mid.slots@[mid.vacant@[i] as int] is None);
            }
            assert forall|i: int| 0 <= i < self.vacant@.len() implies (
            #[trigger] self.vacant@[i]) < self.slots@.len()
                && self.slots@[self.vacant@[i] as int] is None by {
                if i < mid.vacant@.len() {
                    assert(self.vacant@[i] == mid.vacant@[i]);
                }
            }
            assert forall|s: usize|
                s < self.slots@.len() && (
                #[trigger] self.slots@[s as int]) is Some implies self.ids@.contains(s) by {
                assert(mid.slots@[s as int] is Some);
            }
        }
        node.element
    }

    /// Gives the node numbered `id` another element, in place.
    pub fn set_element(&mut self, id: usize, element: T)
        requires
            old(self).wf(),
            old(self).has(id),
        ensures
            final(self).wf(),
            final(self)@ == old(self)@.update(old(self).position(id), element),
            final(self).ids() == old(self).ids(),
    {
        let ghost p = self.position(id);
        assert(self.linked(p));
        match &mut self.slots[id] {
            Some(node) => {
                node.element = element;
            },
            None => {},
        }
        proof {
            assert forall|i: int| 0 <= i < self.ids@.len() implies #[trigger] self.linked(i) by {
                assert(old(self).linked(i));
            }
            assert forall|s: usize|
                s < self.slots@.len() && (
                #[trigger] self.slots@[s as int]) is Some implies self.ids@.contains(s) by {
                assert(old(self).slots@[s as int] is Some);
            }
            assert forall|i: int| 0 <= i < self.ids@.len() implies #[trigger] self@[i] == old(
                self,
            )@.update(p, element)[i] by {
                assert(old(self).linked(i));
            }
            assert(self@ =~= old(self)@.update(p, element));
        }
    }
}

} // verus!
