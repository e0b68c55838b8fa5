//! Slot storage for nodes.
//!
//! Every node of a log lives in one slot of an arena and is named by the
//! number of that slot. Taking a node out leaves its slot vacant, and the
//! next insertion fills a vacant slot before the arena grows.

use vstd::prelude::*;
use crate::node::{Link, Node, NodeView};

verus! {

/// Slots that hold nodes, and the list of the slots that are vacant.
pub struct NodeArena {
    slots: Vec<Option<Node>>,
    vacant: Vec<usize>,
}

impl View for NodeArena {
    type V = Map<usize, NodeView>;

    /// The occupied slots, each with the node it holds.
    closed spec fn view(&self) -> Map<usize, NodeView> {
        Map::new(
            |id: usize| id < self.slots@.len() && self.slots@[id as int] is Some,
            |id: usize| self.slots@[id as int]->0@,
        )
    }
}

impl NodeArena {
    /// Every slot that is listed as vacant is a slot of the arena that holds
    /// no node, and no slot is listed twice.
    #[verifier::type_invariant]
    pub closed spec fn wf(&self) -> bool {
        &&& self.vacant@.no_duplicates()
        &&& forall|i: int|
            0 <= i < self.vacant@.len() ==> (#[trigger] self.vacant@[i]) < self.slots@.len()
                && self.slots@[self.vacant@[i] as int] is None
    }

    /// The number of slots, occupied or vacant.
    pub closed spec fn capacity(&self) -> usize {
        self.slots.len()
    }

    /// The vacant slots, in the order in which they were vacated.
    pub closed spec fn vacant(&self) -> Seq<usize> {
        self.vacant@
    }

    /// The slot that the next insertion fills: the slot that was vacated
    /// last, or a new slot behind the others where none is vacant.
    pub open spec fn next_slot(&self) -> usize {
        if self.vacant().len() > 0 {
            self.vacant().last()
        } else {
            self.capacity()
        }
    }

    /// The vacant slots that the next insertion leaves.
    pub open spec fn vacant_after_insert(&self) -> Seq<usize> {
        if self.vacant().len() > 0 {
            self.vacant().drop_last()
        } else {
            self.vacant()
        }
    }

    /// The number of slots after the next insertion.
    pub open spec fn capacity_after_insert(&self) -> int {
        if self.vacant().len() > 0 {
            self.capacity() as int
        } else {
            self.capacity() + 1
        }
    }

    /// Every occupied slot lies below the capacity.
    pub proof fn lemma_slots_below_capacity(&self)
        ensures
            forall|id: usize| self@.contains_key(id) ==> id < self.capacity(),
    {
    }

    /// The vacant slots lie below the capacity, none of them is listed
    /// twice, and none of them is occupied.
    pub proof fn lemma_vacant_slots(&self)
        requires
            self.wf(),
        ensures
            self.vacant().no_duplicates(),
            forall|i: int|
                0 <= i < self.vacant().len() ==> (#[trigger] self.vacant()[i]) < self.capacity()
                    && !self@.contains_key(self.vacant()[i]),
            !self@.contains_key(self.next_slot()),
    {
    }

    /// An arena without slots.
    pub fn new() -> (arena: NodeArena)
        ensures
            arena.wf(),
            arena@ == Map::<usize, NodeView>::empty(),
            arena.capacity() == 0,
            arena.vacant() == Seq::<usize>::empty(),
    {
        let arena = NodeArena { slots: Vec::new(), vacant: Vec::new() };
        assert(arena@ =~= Map::<usize, NodeView>::empty());
        arena
    }

    /// Stores `node` and returns the slot it went to: the slot that was
    /// vacated last if there is one, a new slot otherwise.
    pub fn insert(&mut self, node: Node) -> (id: usize)
        ensures
            final(self).wf(),
            id == old(self).next_slot(),
            !old(self)@.contains_key(id),
            final(self)@ == old(self)@.insert(id, node@),
            final(self).vacant() == old(self).vacant_after_insert(),
            final(self).capacity() == old(self).capacity_after_insert(),
    {
        proof {
            use_type_invariant(&*self);
        }
        let mut taken = NodeArena::new();
        core::mem::swap(self, &mut taken);
        let NodeArena { mut slots, mut vacant } = taken;
        let id: usize = match vacant.pop() {
            Some(id) => {
                slots[id] = Some(node);
                id
            },
            None => {
                let id: usize = slots.len();
                slots.push(Some(node));
                id
            },
        };
        *self = NodeArena { slots, vacant };
        assert(final(self)@ =~= old(self)@.insert(id, node@));
        assert(final(self).vacant() =~= old(self).vacant_after_insert());
        id
    }

    /// Takes the node out of slot `id` and leaves the slot vacant. An `id`
    /// that names no occupied slot changes nothing.
    pub fn remove(&mut self, id: usize) -> (taken_out: Option<Node>)
        ensures
            final(self).wf(),
            final(self).capacity() == old(self).capacity(),
            old(self)@.contains_key(id) ==> {
                &&& taken_out is Some
                &&& taken_out->0@ == old(self)@[id]
                &&& final(self)@ == old(self)@.remove(id)
                &&& final(self).vacant() == old(self).vacant().push(id)
            },
            !old(self)@.contains_key(id) ==> {
                &&& taken_out is None
                &&& final(self)@ == old(self)@
                &&& final(self).vacant() == old(self).vacant()
            },
    {
        proof {
            use_type_invariant(&*self);
        }
        let mut taken = NodeArena::new();
        core::mem::swap(self, &mut taken);
        let NodeArena { mut slots, mut vacant } = taken;
        let taken_out = if id < slots.len() {
            slots[id].take()
        } else {
            None
        };
        if taken_out.is_some() {
            vacant.push(id);
        }
        *self = NodeArena { slots, vacant };
        assert(old(self)@.contains_key(id) ==> final(self)@ =~= old(self)@.remove(id));
        assert(!old(self)@.contains_key(id) ==> final(self)@ =~= old(self)@);
        taken_out
    }

    /// Points the forward link of the node in slot `id` at `next`. Returns
    /// whether there is such a node; without one nothing changes.
    pub fn set_next(&mut self, id: usize, next: Link) -> (done: bool)
        ensures
            final(self).wf(),
            done == old(self)@.contains_key(id),
            final(self).capacity() == old(self).capacity(),
            final(self).vacant() == old(self).vacant(),
            done ==> final(self)@ == old(self)@.insert(
                id,
                NodeView { value: old(self)@[id].value, next, prev: old(self)@[id].prev },
            ),
            !done ==> final(self)@ == old(self)@,
    {
        proof {
            use_type_invariant(&*self);
        }
        let mut taken = NodeArena::new();
        core::mem::swap(self, &mut taken);
        let NodeArena { mut slots, vacant } = taken;
        let done = if id < slots.len() {
            match slots[id].take() {
                Some(mut node) => {
                    node.next = next;
                    slots[id] = Some(node);
                    true
                },
                None => false,
            }
        } else {
            false
        };
        *self = NodeArena { slots, vacant };
        assert(done ==> final(self)@ =~= old(self)@.insert(
            id,
            NodeView { value: old(self)@[id].value, next, prev: old(self)@[id].prev },
        ));
        assert(!done ==> final(self)@ =~= old(self)@);
        done
    }

    /// Points the backward link of the node in slot `id` at `prev`. Returns
    /// whether there is such a node; without one nothing changes.
    pub fn set_prev(&mut self, id: usize, prev: Link) -> (done: bool)
        ensures
            final(self).wf(),
            done == old(self)@.contains_key(id),
            final(self).capacity() == old(self).capacity(),
            final(self).vacant() == old(self).vacant(),
            done ==> final(self)@ == old(self)@.insert(
                id,
                NodeView { value: old(self)@[id].value, next: old(self)@[id].next, prev },
            ),
            !done ==> final(self)@ == old(self)@,
    {
        proof {
            use_type_invariant(&*self);
        }
        let mut taken = NodeArena::new();
        core::mem::swap(self, &mut taken);
        let NodeArena { mut slots, vacant } = taken;
        let done = if id < slots.len() {
            match slots[id].take() {
                Some(mut node) => {
                    node.prev = prev;
                    slots[id] = Some(node);
                    true
                },
                None => false,
            }
        } else {
            false
        };
        *self = NodeArena { slots, vacant };
        assert(done ==> final(self)@ =~= old(self)@.insert(
            id,
            NodeView { value: old(self)@[id].value, next: old(self)@[id].next, prev },
        ));
        assert(!done ==> final(self)@ =~= old(self)@);
        done
    }

    /// The node that `link` leads to, if it leads to an occupied slot.
    pub fn node(&self, link: Link) -> (found: Option<&Node>)
        ensures
            match link {
                Some(id) if self@.contains_key(id) => found is Some && found->0@ == self@[id],
                _ => found is None,
            },
    {
        match link {
            Some(id) if id < self.slots.len() => self.slots[id].as_ref(),
            _ => None,
        }
    }
}

} // verus!
