//! A cursor that walks the nodes of an arena.

use vstd::prelude::*;
use crate::arena::NodeArena;
use crate::node::Link;

verus! {

/// The state of a walk along the links of a list: the link to the node that
/// the next step reads. It borrows nothing from the arena it walks; each
/// step is handed the arena.
pub struct ListIteratorTracker {
    current: Link,
}

impl View for ListIteratorTracker {
    type V = Link;

    /// The link to the node that the next step reads.
    closed spec fn view(&self) -> Link {
        self.current
    }
}

impl ListIteratorTracker {
    /// A tracker that stands at `start_at`.
    pub fn new(start_at: Link) -> (tracker: ListIteratorTracker)
        ensures
            tracker@ == start_at,
    {
        ListIteratorTracker { current: start_at }
    }

    /// The link that the tracker stands at.
    pub fn current(&self) -> (link: Link)
        ensures
            link == self@,
    {
        self.current
    }

    /// Reads the value of the current node and moves along its forward
    /// link. A tracker that stands at no node of `nodes` is exhausted: it
    /// yields nothing and stands at nothing afterwards.
    pub fn next(&mut self, nodes: &NodeArena) -> (value: Option<String>)
        ensures
            match old(self)@ {
                Some(id) if nodes@.contains_key(id) => value is Some && value->0@
                    == nodes@[id].value && final(self)@ == nodes@[id].next,
                _ => value is None && final(self)@ is None,
            },
    {
        match nodes.node(self.current) {
            Some(node) => {
                let value = node.value.clone();
                self.current = node.next;
                Some(value)
            },
            None => {
                self.current = None;
                None
            },
        }
    }

    /// Reads the value of the current node and moves along its backward
    /// link. A tracker that stands at no node of `nodes` is exhausted: it
    /// yields nothing and stands at nothing afterwards.
    pub fn next_back(&mut self, nodes: &NodeArena) -> (value: Option<String>)
        ensures
            match old(self)@ {
                Some(id) if nodes@.contains_key(id) => value is Some && value->0@
                    == nodes@[id].value && final(self)@ == nodes@[id].prev,
                _ => value is None && final(self)@ is None,
            },
    {
        match nodes.node(self.current) {
            Some(node) => {
                let value = node.value.clone();
                self.current = node.prev;
                Some(value)
            },
            None => {
                self.current = None;
                None
            },
        }
    }
}

} // verus!
