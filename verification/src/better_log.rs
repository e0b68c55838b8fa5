//! The doubly linked transaction log.

use vstd::prelude::*;
use crate::arena::NodeArena;
use crate::chain::{
    backward_linked, followed, followed_back, forward_linked, lemma_followed,
    lemma_followed_back, lemma_spanned_length, lemma_with_last_backward,
    lemma_with_last_forward, lemma_without_first_backward, lemma_without_first_forward, link_at,
    spans, value_at, values_along, with_last, without_first,
};
use crate::model::{
    appended, appended_all, lemma_appended_all, popped_rest, popped_value, text_of, texts, Entries,
};
use crate::node::{Link, Node, NodeView};
use crate::tracker::ListIteratorTracker;

verus! {

/// A first-in, first-out log of string entries. Every node is linked to the
/// node after it and to the node before it.
pub struct BetterTransactionLog {
    nodes: NodeArena,
    head: Link,
    tail: Link,
    length: u64,
    order: Ghost<Seq<usize>>,
}

impl View for BetterTransactionLog {
    type V = Entries;

    /// The values of the log, oldest first.
    open spec fn view(&self) -> Entries {
        values_along(self.nodes()@, self.order())
    }
}

impl BetterTransactionLog {
    /// The slots of the log's nodes, from the head to the tail.
    pub closed spec fn order(&self) -> Seq<usize> {
        self.order@
    }

    /// What `nodes` returns.
    pub closed spec fn spec_nodes(&self) -> &NodeArena {
        &self.nodes
    }

    /// What `head` returns.
    pub closed spec fn spec_head(&self) -> Link {
        self.head
    }

    /// What `tail` returns.
    pub closed spec fn spec_tail(&self) -> Link {
        self.tail
    }

    /// What `length` returns.
    pub closed spec fn spec_length(&self) -> u64 {
        self.length
    }

    /// The arena holds the nodes of the log and nothing else, their links
    /// follow the order of the log in both directions, `head` and `tail`
    /// lead to the first and the last node, and `length` counts the nodes.
    #[verifier::type_invariant]
    pub open spec fn wf(&self) -> bool {
        &&& self.nodes().wf()
        &&& spans(self.nodes()@, self.order())
        &&& forward_linked(self.nodes()@, self.order())
        &&& backward_linked(self.nodes()@, self.order())
        &&& self.head() == link_at(self.order(), 0)
        &&& self.tail() == link_at(self.order(), self.order().len() - 1)
        &&& self.length() == self.order().len()
    }

    /// In every log `length` counts the values, `head` and `tail` are empty
    /// exactly where the log is, they lead to the same node exactly where
    /// the log holds one value, and otherwise `head` leads to the node with
    /// the oldest value and `tail` to the node with the newest.
    pub proof fn lemma_ends(&self)
        requires
            self.wf(),
        ensures
            self.length() == self@.len(),
            self.order().len() == self@.len(),
            self.head() is None <==> self@.len() == 0,
            self.tail() is None <==> self@.len() == 0,
            self.head() is Some && self.head() == self.tail() <==> self@.len() == 1,
            self@.len() > 0 ==> value_at(self.nodes()@, self.head()) == Some(self@.first()),
            self@.len() > 0 ==> value_at(self.nodes()@, self.tail()) == Some(self@.last()),
            self@.len() > 0 ==> self.nodes()@[self.tail()->0].next is None,
            self@.len() > 0 ==> self.nodes()@[self.head()->0].prev is None,
    {
        let order = self.order();
        if order.len() > 0 {
            assert(self.nodes()@.contains_key(order[0]));
            assert(self.nodes()@.contains_key(order[order.len() - 1]));
            assert(self.nodes()@[order[order.len() - 1]].next == link_at(
                order,
                order.len() as int,
            ));
            if order.len() > 1 {
                assert(order[0] != order[order.len() - 1]);
            }
        }
    }

    /// A log that was filled by appending `values` to an empty log, one
    /// after the other, is as long as `values`; its head holds the value
    /// that was appended first and its tail the value that was appended
    /// last.
    pub proof fn lemma_ends_after_appends(&self, values: Entries)
        requires
            self.wf(),
            values.len() > 0,
            self@ == appended_all(Seq::empty(), values),
        ensures
            self@ == values,
            self.length() == values.len(),
            value_at(self.nodes()@, self.head()) == Some(values.first()),
            value_at(self.nodes()@, self.tail()) == Some(values.last()),
    {
        lemma_appended_all(Seq::empty(), values);
        assert(Seq::<Seq<char>>::empty() + values =~= values);
        self.lemma_ends();
    }

    /// A walk of `steps` steps from the head along the forward links leads
    /// to the node at position `steps`: after one step less than the length
    /// to the tail, and after as many steps as the length to nothing.
    pub proof fn lemma_walk_forward(&self, steps: nat)
        requires
            self.wf(),
        ensures
            followed(self.nodes()@, self.head(), steps) == link_at(self.order(), steps as int),
            self@.len() > 0 ==> followed(self.nodes()@, self.head(), (self@.len() - 1) as nat)
                == self.tail(),
            followed(self.nodes()@, self.head(), self@.len()) is None,
    {
        lemma_followed(self.nodes()@, self.order(), steps);
        lemma_followed(self.nodes()@, self.order(), self@.len());
        if self@.len() > 0 {
            lemma_followed(self.nodes()@, self.order(), (self@.len() - 1) as nat);
        }
    }

    /// A walk of `steps` steps from the tail along the backward links leads
    /// to the node `steps` positions before the tail: after one step less
    /// than the length to the head, and after as many steps as the length to
    /// nothing.
    pub proof fn lemma_walk_backward(&self, steps: nat)
        requires
            self.wf(),
        ensures
            followed_back(self.nodes()@, self.tail(), steps) == link_at(
                self.order(),
                self.order().len() - 1 - steps,
            ),
            self@.len() > 0 ==> followed_back(
                self.nodes()@,
                self.tail(),
                (self@.len() - 1) as nat,
            ) == self.head(),
            followed_back(self.nodes()@, self.tail(), self@.len()) is None,
    {
        lemma_followed_back(self.nodes()@, self.order(), steps);
        lemma_followed_back(self.nodes()@, self.order(), self@.len());
        if self@.len() > 0 {
            lemma_followed_back(self.nodes()@, self.order(), (self@.len() - 1) as nat);
        }
    }

    /// Of two nodes that are neighbours in the log, the forward link of the
    /// one in front leads to the one behind, and the backward link of the
    /// one behind leads to the one in front.
    pub proof fn lemma_neighbours_are_linked(&self, i: int)
        requires
            self.wf(),
            0 <= i,
            i + 1 < self@.len(),
        ensures
            self.nodes()@.contains_key(self.order()[i]),
            self.nodes()@.contains_key(self.order()[i + 1]),
            self.nodes()@[self.order()[i]].next == Some(self.order()[i + 1]),
            self.nodes()@[self.order()[i + 1]].prev == Some(self.order()[i]),
    {
        assert(self.nodes()@[self.order()[i]].next == link_at(self.order(), i + 1));
        assert(self.nodes()@[self.order()[i + 1]].prev == link_at(self.order(), i));
    }

    /// The links of the log are reciprocal: the forward link of a node
    /// leads to another node exactly where the backward link of that node
    /// leads to the first.
    pub proof fn lemma_links_are_reciprocal(&self, front: usize, behind: usize)
        requires
            self.wf(),
            self.nodes()@.contains_key(front),
            self.nodes()@.contains_key(behind),
        ensures
            self.nodes()@[front].next == Some(behind) <==> self.nodes()@[behind].prev == Some(
                front,
            ),
    {
        let order = self.order();
        assert(order.contains(front));
        assert(order.contains(behind));
        let i = choose|i: int| 0 <= i < order.len() && order[i] == front;
        let j = choose|j: int| 0 <= j < order.len() && order[j] == behind;
        assert(self.nodes()@[order[i]].next == link_at(order, i + 1));
        assert(self.nodes()@[order[j]].prev == link_at(order, j - 1));
        if i + 1 < order.len() {
            assert(order[i + 1] == behind ==> i + 1 == j);
        }
        if j > 0 {
            assert(order[j - 1] == front ==> j - 1 == i);
        }
    }

    /// The arena that holds the nodes of the log.
    #[verifier::when_used_as_spec(spec_nodes)]
    pub fn nodes(&self) -> (nodes: &NodeArena)
        ensures
            nodes == self.spec_nodes(),
    {
        &self.nodes
    }

    /// The link to the oldest node.
    #[verifier::when_used_as_spec(spec_head)]
    pub fn head(&self) -> (link: Link)
        ensures
            link == self.spec_head(),
    {
        self.head
    }

    /// The link to the newest node.
    #[verifier::when_used_as_spec(spec_tail)]
    pub fn tail(&self) -> (link: Link)
        ensures
            link == self.spec_tail(),
    {
        self.tail
    }

    /// The number of entries.
    #[verifier::when_used_as_spec(spec_length)]
    pub fn length(&self) -> (length: u64)
        ensures
            length == self.spec_length(),
    {
        self.length
    }

    /// A log without entries.
    pub fn new_empty() -> (log: BetterTransactionLog)
        ensures
            log.wf(),
            log@ == Seq::<Seq<char>>::empty(),
            log.order() == Seq::<usize>::empty(),
            log.nodes()@ == Map::<usize, NodeView>::empty(),
            log.nodes().capacity() == 0,
            log.nodes().vacant() == Seq::<usize>::empty(),
            log.head() is None,
            log.tail() is None,
            log.length() == 0,
    {
        let log = BetterTransactionLog {
            nodes: NodeArena::new(),
            head: None,
            tail: None,
            length: 0,
            order: Ghost(Seq::empty()),
        };
        assert(log@ =~= Seq::<Seq<char>>::empty());
        log
    }

    /// Adds `value` as the newest entry: a new node goes into a slot that was
    /// vacant, behind the node that was the tail, and the two are linked to
    /// each other.
    pub fn append(&mut self, value: String)
        ensures
            final(self).wf(),
            final(self)@ == appended(old(self)@, value@),
            final(self).length() == old(self).length() + 1,
            final(self).order() == old(self).order().push(old(self).nodes().next_slot()),
            !old(self).nodes()@.contains_key(old(self).nodes().next_slot()),
            final(self).nodes().vacant() == old(self).nodes().vacant_after_insert(),
            final(self).nodes().capacity() == old(self).nodes().capacity_after_insert(),
            final(self).nodes()@ == with_last(
                old(self).nodes()@,
                old(self).order(),
                old(self).nodes().next_slot(),
                NodeView { value: value@, next: None, prev: old(self).tail() },
            ),
            final(self).tail() == Some(final(self).order().last()),
            final(self).head() == Some(final(self).order()[0]),
            value_at(final(self).nodes()@, final(self).tail()) == Some(value@),
            value_at(final(self).nodes()@, final(self).head()) == Some(final(self)@[0]),
    {
        proof {
            use_type_invariant(&*self);
        }
        let mut taken = BetterTransactionLog::new_empty();
        core::mem::swap(self, &mut taken);
        let BetterTransactionLog { mut nodes, head, tail, length, order } = taken;
        let ghost before = nodes@;
        let id: usize = nodes.insert(Node::new(value));
        let head = match tail {
            None => Some(id),
            Some(last) => {
                nodes.set_next(last, Some(id));
                nodes.set_prev(id, Some(last));
                head
            },
        };
        let ghost grown = order@.push(id);
        proof {
            let node = NodeView { value: value@, next: None, prev: tail };
            assert(nodes@ =~= with_last(before, order@, id, node));
            lemma_with_last_forward(before, order@, id, node);
            lemma_with_last_backward(before, order@, id, node);
            nodes.lemma_slots_below_capacity();
            lemma_spanned_length(nodes@, grown, nodes.capacity() as nat);
        }
        *self = BetterTransactionLog {
            nodes,
            head,
            tail: Some(id),
            length: length + 1,
            order: Ghost(grown),
        };
    }

    /// Removes the oldest entry and returns its value; `None` where the log
    /// is empty. The node leaves the arena, and the node that becomes the
    /// head keeps no link back to it.
    pub fn pop(&mut self) -> (value: Option<String>)
        ensures
            final(self).wf(),
            text_of(value) == popped_value(old(self)@),
            final(self)@ == popped_rest(old(self)@),
            old(self)@.len() == 0 ==> *final(self) == *old(self),
            old(self)@.len() > 0 ==> {
                &&& final(self).length() == old(self).length() - 1
                &&& final(self).order() == old(self).order().drop_first()
                &&& final(self).nodes()@ == without_first(
                    old(self).nodes()@,
                    old(self).order(),
                    true,
                )
                &&& final(self).nodes().vacant() == old(self).nodes().vacant().push(
                    old(self).order()[0],
                )
                &&& final(self).nodes().capacity() == old(self).nodes().capacity()
                &&& final(self).head() == link_at(final(self).order(), 0)
                &&& final(self).tail() == link_at(final(self).order(), final(self)@.len() - 1)
            },
            final(self)@.len() > 0 ==> final(self).nodes()@[final(self).head()->0].prev is None,
            final(self)@.len() == 0 ==> final(self).head() is None && final(self).tail() is None,
    {
        proof {
            use_type_invariant(&*self);
        }
        if self.head.is_none() {
            return None;
        }
        let mut taken = BetterTransactionLog::new_empty();
        core::mem::swap(self, &mut taken);
        let BetterTransactionLog { mut nodes, head, tail, length, order } = taken;
        let ghost before = nodes@;
        let node = nodes.remove(head.unwrap()).unwrap();
        let tail = match node.next {
            Some(second) => {
                nodes.set_prev(second, None);
                tail
            },
            None => None,
        };
        proof {
            assert(nodes@ =~= without_first(before, order@, true));
            lemma_without_first_forward(before, order@, true);
            lemma_without_first_backward(before, order@);
        }
        *self = BetterTransactionLog {
            nodes,
            head: node.next,
            tail,
            length: length - 1,
            order: Ghost(order@.drop_first()),
        };
        Some(node.value)
    }

    /// Empties the log by taking out one entry after the other, oldest
    /// first.
    pub fn clear(&mut self)
        ensures
            final(self).wf(),
            final(self)@ == Seq::<Seq<char>>::empty(),
            final(self).order() == Seq::<usize>::empty(),
            final(self).nodes()@ == Map::<usize, NodeView>::empty(),
            final(self).nodes().capacity() == old(self).nodes().capacity(),
            final(self).nodes().vacant() == old(self).nodes().vacant() + old(self).order(),
            final(self).head() is None,
            final(self).tail() is None,
            final(self).length() == 0,
    {
        proof {
            use_type_invariant(&*self);
        }
        let ghost capacity = self.nodes().capacity();
        let ghost slots = self.nodes().vacant() + self.order();
        loop
            invariant
                self.wf(),
                self.nodes().capacity() == capacity,
                self.nodes().vacant() + self.order() == slots,
            ensures
                self.wf(),
                self@.len() == 0,
                self.nodes().capacity() == capacity,
                self.nodes().vacant() + self.order() == slots,
            decreases self@.len(),
        {
            let ghost vacant = self.nodes().vacant();
            let ghost order = self.order();
            if self.pop().is_none() {
                break ;
            }
            assert(vacant.push(order[0]) + order.drop_first() =~= vacant + order);
        }
        proof {
            assert(self.nodes().vacant() + self.order() =~= self.nodes().vacant());
            assert(self.order() =~= Seq::<usize>::empty());
            assert(self@ =~= Seq::<Seq<char>>::empty());
            assert(self.nodes()@ =~= Map::<usize, NodeView>::empty()) by {
                assert forall|id: usize| !self.nodes()@.contains_key(id) by {
                    if self.nodes()@.contains_key(id) {
                        assert(self.order().contains(id));
                    }
                }
            }
        }
    }

    /// The values of the log, oldest first, read by a walk from the head
    /// along the forward links.
    pub fn values(&self) -> (all: Vec<String>)
        ensures
            texts(all@) == self@,
            all@.len() == self.length(),
    {
        proof {
            use_type_invariant(self);
        }
        let mut tracker = ListIteratorTracker::new(self.head);
        let mut all: Vec<String> = Vec::new();
        loop
            invariant
                self.wf(),
                all@.len() <= self.order().len(),
                tracker@ == link_at(self.order(), all@.len() as int),
                forall|i: int| 0 <= i < all@.len() ==> all@[i]@ == self@[i],
            ensures
                all@.len() == self.order().len(),
                forall|i: int| 0 <= i < all@.len() ==> all@[i]@ == self@[i],
            decreases self.order().len() - all@.len(),
        {
            let ghost at = all@.len() as int;
            match tracker.next(&self.nodes) {
                Some(value) => {
                    assert(at < self.order().len());
                    assert(self.nodes()@[self.order()[at]].next == link_at(self.order(), at + 1));
                    all.push(value);
                },
                None => {
                    break ;
                },
            }
        }
        assert(texts(all@) =~= self@);
        all
    }

    /// The values of the log, newest first, read by a walk from the tail
    /// along the backward links.
    pub fn values_rev(&self) -> (all: Vec<String>)
        ensures
            texts(all@) == self@.reverse(),
            all@.len() == self.length(),
    {
        proof {
            use_type_invariant(self);
        }
        let mut tracker = ListIteratorTracker::new(self.tail);
        let mut all: Vec<String> = Vec::new();
        loop
            invariant
                self.wf(),
                all@.len() <= self.order().len(),
                tracker@ == link_at(self.order(), self.order().len() - 1 - all@.len()),
                forall|i: int| 0 <= i < all@.len() ==> all@[i]@ == self@[self@.len() - 1 - i],
            ensures
                all@.len() == self.order().len(),
                forall|i: int| 0 <= i < all@.len() ==> all@[i]@ == self@[self@.len() - 1 - i],
            decreases self.order().len() - all@.len(),
        {
            let ghost at = self.order().len() - 1 - all@.len();
            match tracker.next_back(&self.nodes) {
                Some(value) => {
                    assert(0 <= at);
                    assert(self.nodes()@[self.order()[at]].prev == link_at(self.order(), at - 1));
                    all.push(value);
                },
                None => {
                    break ;
                },
            }
        }
        assert(texts(all@) =~= self@.reverse());
        all
    }

    /// Gives up the log for a walk over it: the arena with the nodes, and a
    /// tracker that stands at the head.
    pub fn into_iter(self) -> (walk: (NodeArena, ListIteratorTracker))
        ensures
            walk.0 == *self.nodes(),
            walk.1@ == self.head(),
    {
        let BetterTransactionLog { nodes, head, tail: _, length: _, order: _ } = self;
        (nodes, ListIteratorTracker::new(head))
    }
}

} // verus!
