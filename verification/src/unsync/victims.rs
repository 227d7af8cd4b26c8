//! The entries that would have to leave for a new one.

use smallvec::SmallVec;
use vstd::prelude::*;

verus! {

/// The node numbers of the entries that would have to leave, least recently used first. There
/// are seldom more than a few, so they are kept without an allocation of their own.
#[verifier::external_body]
pub struct VictimNodes {
    nodes: SmallVec<[usize; 8]>,
}

/// The node numbers in `victims`.
pub uninterp spec fn victim_ids(victims: VictimNodes) -> Seq<usize>;

/// The greatest number of victims that are taken together. That many nodes do not fit into the
/// address space, and so many numbers are within what the list of them can grow to.
pub open spec fn max_victims() -> nat {
    (usize::MAX / 64) as nat
}

impl VictimNodes {
    /// [`SmallVec::new`] makes an empty vector.
    #[verifier::external_body]
    pub(crate) fn new() -> (victims: Self)
        ensures
            victim_ids(victims) == Seq::<usize>::empty(),
    {
        VictimNodes { nodes: SmallVec::new() }
    }

    /// [`SmallVec::push`] appends an item. It panics where the capacity, the next power of two,
    /// would exceed what one allocation may hold; the bound keeps well below that.
    #[verifier::external_body]
    pub(crate) fn push(&mut self, id: usize)
        requires
            victim_ids(*old(self)).len() < max_victims(),
        ensures
            victim_ids(*final(self)) == victim_ids(*old(self)).push(id),
    {
        self.nodes.push(id)
    }

    /// [`SmallVec::as_slice`] gives all items in order.
    #[verifier::external_body]
    pub(crate) fn as_slice(&self) -> (ids: &[usize])
        ensures
            ids@ == victim_ids(*self),
    {
        self.nodes.as_slice()
    }
}

} // verus!
