//! The singly linked transaction log.

use vstd::prelude::*;
use crate::arena::NodeArena;
use crate::chain::{
    backward_unlinked, followed, forward_linked, lemma_followed, lemma_spanned_length,
    lemma_with_last_forward, lemma_with_last_unlinked, lemma_without_first_forward,
    lemma_without_first_unlinked, link_at, spans, value_at, values_along, with_last,
    without_first,
};
use crate::model::{
    appended, appended_all, lemma_appended_all, popped_rest, popped_value, text_of, Entries,
};
use crate::node::{Link, Node, NodeView};

verus! {

/// A first-in, first-out log of string entries. Every node is linked to the
/// node after it, and no node is linked to the node before it.
pub struct TransactionLog {
    nodes: NodeArena,
    head: Link,
    tail: Link,
    length: u64,
    order: Ghost<Seq<usize>>,
}

impl View for TransactionLog {
    type V = Entries;

    /// The values of the log, oldest first.
    open spec fn view(&self) -> Entries {
        values_along(self.nodes()@, self.order())
    }
}

impl TransactionLog {
    /// The slots of the log's nodes, from the head to the tail.
    pub closed spec fn order(&self) -> Seq<usize> {
        self.order@
    }

    /// What `nodes` returns.
    pub closed spec fn spec_nodes(&self) -> &NodeArena {
        &self.nodes
    }

    /// What `head` returns.
    pub closed spec fn spec_head(&self) -> Link {
        self.head
    }

    /// What `tail` returns.
    pub closed spec fn spec_tail(&self) -> Link {
        self.tail
    }

    /// What `length` returns.
    pub closed spec fn spec_length(&self) -> u64 {
        self.length
    }

    /// The arena holds the nodes of the log and nothing else, their forward
    /// links follow the order of the log, they have no backward links,
    /// `head` and `tail` lead to the first and the last node, and `length`
    /// counts the nodes.
    #[verifier::type_invariant]
    pub open spec fn wf(&self) -> bool {
        &&& self.nodes().wf()
        &&& spans(self.nodes()@, self.order())
        &&& forward_linked(self.nodes()@, self.order())
        &&& backward_unlinked(self.nodes()@, self.order())
        &&& self.head() == link_at(self.order(), 0)
        &&& self.tail() == link_at(self.order(), self.order().len() - 1)
        &&& self.length() == self.order().len()
    }

    /// In every log `length` counts the values, `head` and `tail` are empty
    /// exactly where the log is, they lead to the same node exactly where
    /// the log holds one value, and otherwise `head` leads to the node with
    /// the oldest value and `tail` to the node with the newest.
    pub proof fn lemma_ends(&self)
        requires
            self.wf(),
        ensures
            self.length() == self@.len(),
            self.order().len() == self@.len(),
            self.head() is None <==> self@.len() == 0,
            self.tail() is None <==> self@.len() == 0,
            self.head() is Some && self.head() == self.tail() <==> self@.len() == 1,
            self@.len() > 0 ==> value_at(self.nodes()@, self.head()) == Some(self@.first()),
            self@.len() > 0 ==> value_at(self.nodes()@, self.tail()) == Some(self@.last()),
            self@.len() > 0 ==> self.nodes()@[self.tail()->0].next is None,
            self@.len() > 0 ==> self.nodes()@[self.head()->0].prev is None,
    {
        let order = self.order();
        if order.len() > 0 {
            assert(self.nodes()@.contains_key(order[0]));
            assert(self.nodes()@.contains_key(order[order.len() - 1]));
            assert(self.nodes()@[order[order.len() - 1]].next == link_at(
                order,
                order.len() as int,
            ));
            if order.len() > 1 {
                assert(order[0] != order[order.len() - 1]);
            }
        }
    }

    /// A log that was filled by appending `values` to an empty log, one
    /// after the other, is as long as `values`; its head holds the value
    /// that was appended first and its tail the value that was appended
    /// last.
    pub proof fn lemma_ends_after_appends(&self, values: Entries)
        requires
            self.wf(),
            values.len() > 0,
            self@ == appended_all(Seq::empty(), values),
        ensures
            self@ == values,
            self.length() == values.len(),
            value_at(self.nodes()@, self.head()) == Some(values.first()),
            value_at(self.nodes()@, self.tail()) == Some(values.last()),
    {
        lemma_appended_all(Seq::empty(), values);
        assert(Seq::<Seq<char>>::empty() + values =~= values);
        self.lemma_ends();
    }

    /// A walk of `steps` steps from the head along the forward links leads
    /// to the node at position `steps`: after one step less than the length
    /// to the tail, and after as many steps as the length to nothing.
    pub proof fn lemma_walk_forward(&self, steps: nat)
        requires
            self.wf(),
        ensures
            followed(self.nodes()@, self.head(), steps) == link_at(self.order(), steps as int),
            self@.len() > 0 ==> followed(self.nodes()@, self.head(), (self@.len() - 1) as nat)
                == self.tail(),
            followed(self.nodes()@, self.head(), self@.len()) is None,
    {
        lemma_followed(self.nodes()@, self.order(), steps);
        lemma_followed(self.nodes()@, self.order(), self@.len());
        if self@.len() > 0 {
            lemma_followed(self.nodes()@, self.order(), (self@.len() - 1) as nat);
        }
    }

    /// No node of the log has a backward link.
    pub proof fn lemma_no_back_links(&self, id: usize)
        requires
            self.wf(),
            self.nodes()@.contains_key(id),
        ensures
            self.nodes()@[id].prev is None,
    {
        let order = self.order();
        assert(order.contains(id));
        let i = choose|i: int| 0 <= i < order.len() && order[i] == id;
        assert(self.nodes()@[order[i]].prev is None);
    }

    /// Of two nodes that are neighbours in the log, the forward link of the
    /// one in front leads to the one behind.
    pub proof fn lemma_neighbours_are_linked(&self, i: int)
        requires
            self.wf(),
            0 <= i,
            i + 1 < self@.len(),
        ensures
            self.nodes()@.contains_key(self.order()[i]),
            self.nodes()@.contains_key(self.order()[i + 1]),
            self.nodes()@[self.order()[i]].next == Some(self.order()[i + 1]),
    {
        assert(self.nodes()@[self.order()[i]].next == link_at(self.order(), i + 1));
    }

    /// The arena that holds the nodes of the log.
    #[verifier::when_used_as_spec(spec_nodes)]
    pub fn nodes(&self) -> (nodes: &NodeArena)
        ensures
            nodes == self.spec_nodes(),
    {
        &self.nodes
    }

    /// The link to the oldest node.
    #[verifier::when_used_as_spec(spec_head)]
    pub fn head(&self) -> (link: Link)
        ensures
            link == self.spec_head(),
    {
        self.head
    }

    /// The link to the newest node.
    #[verifier::when_used_as_spec(spec_tail)]
    pub fn tail(&self) -> (link: Link)
        ensures
            link == self.spec_tail(),
    {
        self.tail
    }

    /// The number of entries.
    #[verifier::when_used_as_spec(spec_length)]
    pub fn length(&self) -> (length: u64)
        ensures
            length == self.spec_length(),
    {
        self.length
    }

    /// A log without entries.
    pub fn new_empty() -> (log: TransactionLog)
        ensures
            log.wf(),
            log@ == Seq::<Seq<char>>::empty(),
            log.order() == Seq::<usize>::empty(),
            log.nodes()@ == Map::<usize, NodeView>::empty(),
            log.nodes().capacity() == 0,
            log.nodes().vacant() == Seq::<usize>::empty(),
            log.head() is None,
            log.tail() is None,
            log.length() == 0,
    {
        let log = TransactionLog {
            nodes: NodeArena::new(),
            head: None,
            tail: None,
            length: 0,
            order: Ghost(Seq::empty()),
        };
        assert(log@ =~= Seq::<Seq<char>>::empty());
        log
    }

    /// Adds `value` as the newest entry: a new node goes into a slot that was
    /// vacant, and the node that was the tail is linked to it.
    pub fn append(&mut self, value: String)
        ensures
            final(self).wf(),
            final(self)@ == appended(old(self)@, value@),
            final(self).length() == old(self).length() + 1,
            final(self).order() == old(self).order().push(old(self).nodes().next_slot()),
            !old(self).nodes()@.contains_key(old(self).nodes().next_slot()),
            final(self).nodes().vacant() == old(self).nodes().vacant_after_insert(),
            final(self).nodes().capacity() == old(self).nodes().capacity_after_insert(),
            final(self).nodes()@ == with_last(
                old(self).nodes()@,
                old(self).order(),
                old(self).nodes().next_slot(),
                NodeView { value: value@, next: None, prev: None },
            ),
            final(self).tail() == Some(final(self).order().last()),
            final(self).head() == Some(final(self).order()[0]),
            value_at(final(self).nodes()@, final(self).tail()) == Some(value@),
            value_at(final(self).nodes()@, final(self).head()) == Some(final(self)@[0]),
    {
        proof {
            use_type_invariant(&*self);
        }
        let mut taken = TransactionLog::new_empty();
        core::mem::swap(self, &mut taken);
        let TransactionLog { mut nodes, head, tail, length, order } = taken;
        let ghost before = nodes@;
        let id: usize = nodes.insert(Node::new(value));
        let head = match tail {
            None => Some(id),
            Some(last) => {
                nodes.set_next(last, Some(id));
                head
            },
        };
        let ghost grown = order@.push(id);
        proof {
            let node = NodeView { value: value@, next: None, prev: None };
            assert(nodes@ =~= with_last(before, order@, id, node));
            lemma_with_last_forward(before, order@, id, node);
            lemma_with_last_unlinked(before, order@, id, node);
            nodes.lemma_slots_below_capacity();
            lemma_spanned_length(nodes@, grown, nodes.capacity() as nat);
        }
        *self = TransactionLog {
            nodes,
            head,
            tail: Some(id),
            length: length + 1,
            order: Ghost(grown),
        };
    }

    /// Removes the oldest entry and returns its value; `None` where the log
    /// is empty. The node leaves the arena, and the node behind it becomes
    /// the head.
    pub fn pop(&mut self) -> (value: Option<String>)
        ensures
            final(self).wf(),
            text_of(value) == popped_value(old(self)@),
            final(self)@ == popped_rest(old(self)@),
            old(self)@.len() == 0 ==> *final(self) == *old(self),
            old(self)@.len() > 0 ==> {
                &&& final(self).length() == old(self).length() - 1
                &&& final(self).order() == old(self).order().drop_first()
                &&& final(self).nodes()@ == without_first(
                    old(self).nodes()@,
                    old(self).order(),
                    false,
                )
                &&& final(self).nodes().vacant() == old(self).nodes().vacant().push(
                    old(self).order()[0],
                )
                &&& final(self).nodes().capacity() == old(self).nodes().capacity()
                &&& final(self).head() == link_at(final(self).order(), 0)
                &&& final(self).tail() == link_at(final(self).order(), final(self)@.len() - 1)
            },
            final(self)@.len() == 0 ==> final(self).head() is None && final(self).tail() is None,
    {
        proof {
            use_type_invariant(&*self);
        }
        if self.head.is_none() {
            return None;
        }
        let mut taken = TransactionLog::new_empty();
        core::mem::swap(self, &mut taken);
        let TransactionLog { mut nodes, head, tail, length, order } = taken;
        let ghost before = nodes@;
        let node = nodes.remove(head.unwrap()).unwrap();
        let tail = match node.next {
            Some(_) => tail,
            None => None,
        };
        proof {
            assert(nodes@ =~= without_first(before, order@, false));
            lemma_without_first_forward(before, order@, false);
            lemma_without_first_unlinked(before, order@);
        }
        *self = TransactionLog {
            nodes,
            head: node.next,
            tail,
            length: length - 1,
            order: Ghost(order@.drop_first()),
        };
        Some(node.value)
    }

    /// Empties the log by taking out one entry after the other, oldest
    /// first.
    pub fn clear(&mut self)
        ensures
            final(self).wf(),
            final(self)@ == Seq::<Seq<char>>::empty(),
            final(self).order() == Seq::<usize>::empty(),
            final(self).nodes()@ == Map::<usize, NodeView>::empty(),
            final(self).nodes().capacity() == old(self).nodes().capacity(),
            final(self).nodes().vacant() == old(self).nodes().vacant() + old(self).order(),
            final(self).head() is None,
            final(self).tail() is None,
            final(self).length() == 0,
    {
        proof {
            use_type_invariant(&*self);
        }
        let ghost capacity = self.nodes().capacity();
        let ghost slots = self.nodes().vacant() + self.order();
        loop
            invariant
                self.wf(),
                self.nodes().capacity() == capacity,
                self.nodes().vacant() + self.order() == slots,
            ensures
                self.wf(),
                self@.len() == 0,
                self.nodes().capacity() == capacity,
                self.nodes().vacant() + self.order() == slots,
            decreases self@.len(),
        {
            let ghost vacant = self.nodes().vacant();
            let ghost order = self.order();
            if self.pop().is_none() {
                break ;
            }
            assert(vacant.push(order[0]) + order.drop_first() =~= vacant + order);
        }
        proof {
            assert(self.nodes().vacant() + self.order() =~= self.nodes().vacant());
            assert(self.order() =~= Seq::<usize>::empty());
            assert(self@ =~= Seq::<Seq<char>>::empty());
            assert(self.nodes()@ =~= Map::<usize, NodeView>::empty()) by {
                assert forall|id: usize| !self.nodes()@.contains_key(id) by {
                    if self.nodes()@.contains_key(id) {
                        assert(self.order().contains(id));
                    }
                }
            }
        }
    }
}

} // verus!
