//! What it means for the nodes of an arena to form a list.
//!
//! A list is described by the slots of its nodes, written in order from the
//! head to the tail. The predicates here say how the links stored in the
//! nodes must agree with that order.

use vstd::prelude::*;
use crate::node::{Link, NodeView};

verus! {

/// The link that leads to position `i` of `order`; nothing where `order` has
/// no such position.
pub open spec fn link_at(order: Seq<usize>, i: int) -> Link {
    if 0 <= i < order.len() {
        Some(order[i])
    } else {
        None
    }
}

/// `order` names every node of `nodes`, each of them once.
pub open spec fn spans(nodes: Map<usize, NodeView>, order: Seq<usize>) -> bool {
    &&& order.no_duplicates()
    &&& forall|i: int| 0 <= i < order.len() ==> nodes.contains_key(#[trigger] order[i])
    &&& forall|id: usize| #[trigger] nodes.contains_key(id) ==> order.contains(id)
}

/// Every node's forward link leads to the node after it, and the last node's
/// forward link is empty.
pub open spec fn forward_linked(nodes: Map<usize, NodeView>, order: Seq<usize>) -> bool {
    forall|i: int| 0 <= i < order.len() ==> nodes[#[trigger] order[i]].next == link_at(order, i + 1)
}

/// Every node's backward link leads to the node before it, and the first
/// node's backward link is empty.
pub open spec fn backward_linked(nodes: Map<usize, NodeView>, order: Seq<usize>) -> bool {
    forall|i: int| 0 <= i < order.len() ==> nodes[#[trigger] order[i]].prev == link_at(order, i - 1)
}

/// No node has a backward link.
pub open spec fn backward_unlinked(nodes: Map<usize, NodeView>, order: Seq<usize>) -> bool {
    forall|i: int| 0 <= i < order.len() ==> nodes[#[trigger] order[i]].prev is None
}

/// The values of the nodes, in the order of the list.
pub open spec fn values_along(nodes: Map<usize, NodeView>, order: Seq<usize>) -> Seq<Seq<char>> {
    Seq::new(order.len(), |i: int| nodes[order[i]].value)
}

/// The value of the node that `link` leads to, if it leads to one.
pub open spec fn value_at(nodes: Map<usize, NodeView>, link: Link) -> Option<Seq<char>> {
    match link {
        Some(id) if nodes.contains_key(id) => Some(nodes[id].value),
        _ => None,
    }
}

/// Where `steps` steps along the forward links lead from `start`; nothing
/// once a step finds no node.
pub open spec fn followed(nodes: Map<usize, NodeView>, start: Link, steps: nat) -> Link
    decreases steps,
{
    if steps == 0 {
        start
    } else {
        match followed(nodes, start, (steps - 1) as nat) {
            Some(id) if nodes.contains_key(id) => nodes[id].next,
            _ => None,
        }
    }
}

/// Where `steps` steps along the backward links lead from `start`; nothing
/// once a step finds no node.
pub open spec fn followed_back(nodes: Map<usize, NodeView>, start: Link, steps: nat) -> Link
    decreases steps,
{
    if steps == 0 {
        start
    } else {
        match followed_back(nodes, start, (steps - 1) as nat) {
            Some(id) if nodes.contains_key(id) => nodes[id].prev,
            _ => None,
        }
    }
}

/// In a list that is linked forward, `steps` steps from the first node lead
/// to the node at position `steps`, and past the last node to nothing.
pub proof fn lemma_followed(nodes: Map<usize, NodeView>, order: Seq<usize>, steps: nat)
    requires
        spans(nodes, order),
        forward_linked(nodes, order),
    ensures
        followed(nodes, link_at(order, 0), steps) == link_at(order, steps as int),
    decreases steps,
{
    if steps > 0 {
        lemma_followed(nodes, order, (steps - 1) as nat);
        if steps - 1 < order.len() {
            assert(nodes.contains_key(order[steps - 1]));
        }
    }
}

/// In a list that is linked backward, `steps` steps from the last node lead
/// to the node `steps` positions before it, and past the first node to
/// nothing.
pub proof fn lemma_followed_back(nodes: Map<usize, NodeView>, order: Seq<usize>, steps: nat)
    requires
        spans(nodes, order),
        backward_linked(nodes, order),
    ensures
        followed_back(nodes, link_at(order, order.len() - 1), steps) == link_at(
            order,
            order.len() - 1 - steps,
        ),
    decreases steps,
{
    if steps > 0 {
        lemma_followed_back(nodes, order, (steps - 1) as nat);
        let at = order.len() - steps;
        if 0 <= at {
            assert(nodes.contains_key(order[at]));
        }
    }
}

/// The nodes after `node` went into the vacant slot `id` and the last node
/// of `order`, if there is one, had its forward link pointed at `id`.
pub open spec fn with_last(
    nodes: Map<usize, NodeView>,
    order: Seq<usize>,
    id: usize,
    node: NodeView,
) -> Map<usize, NodeView> {
    let grown = nodes.insert(id, node);
    if order.len() == 0 {
        grown
    } else {
        grown.insert(order.last(), NodeView { next: Some(id), ..nodes[order.last()] })
    }
}

/// The nodes after the first node of `order` left its slot. With
/// `clear_back` the node behind it, if there is one, lost its backward link.
pub open spec fn without_first(
    nodes: Map<usize, NodeView>,
    order: Seq<usize>,
    clear_back: bool,
) -> Map<usize, NodeView> {
    let rest = nodes.remove(order[0]);
    if clear_back && order.len() > 1 {
        rest.insert(order[1], NodeView { prev: None, ..nodes[order[1]] })
    } else {
        rest
    }
}

/// Linking a node without a forward link behind the last node keeps the
/// list spanned and linked forward, and adds the node's value at the end.
pub proof fn lemma_with_last_forward(
    nodes: Map<usize, NodeView>,
    order: Seq<usize>,
    id: usize,
    node: NodeView,
)
    requires
        spans(nodes, order),
        forward_linked(nodes, order),
        !nodes.contains_key(id),
        node.next is None,
    ensures
        spans(with_last(nodes, order, id, node), order.push(id)),
        forward_linked(with_last(nodes, order, id, node), order.push(id)),
        values_along(with_last(nodes, order, id, node), order.push(id)) == values_along(
            nodes,
            order,
        ).push(node.value),
{
    let after = with_last(nodes, order, id, node);
    let grown = order.push(id);
    assert forall|i: int| 0 <= i < order.len() implies order[i] != id by {
        assert(nodes.contains_key(order[i]));
    }
    assert forall|i: int, j: int| 0 <= i < grown.len() && 0 <= j < grown.len() && i != j implies
        grown[i] != grown[j] by {
        if i < order.len() && j < order.len() {
            assert(order[i] != order[j]);
        }
    }
    assert forall|i: int| 0 <= i < grown.len() implies after.contains_key(#[trigger] grown[i]) by {
        if i < order.len() {
            assert(nodes.contains_key(order[i]));
        }
    }
    assert forall|key: usize| #[trigger] after.contains_key(key) implies grown.contains(key) by {
        if key == id {
            assert(grown[order.len() as int] == key);
        } else {
            assert(nodes.contains_key(key));
            let at = choose|i: int| 0 <= i < order.len() && order[i] == key;
            assert(grown[at] == key);
        }
    }
    assert forall|i: int| 0 <= i < grown.len() implies after[#[trigger] grown[i]].next == link_at(
        grown,
        i + 1,
    ) by {
        if i < order.len() {
            assert(grown[i] == order[i]);
            assert(nodes[order[i]].next == link_at(order, i + 1));
            if i + 1 < order.len() {
                assert(order[i] != order.last());
                assert(grown[i + 1] == order[i + 1]);
            }
        }
    }
    assert forall|i: int| 0 <= i < order.len() implies after[grown[i]].value
        == nodes[order[i]].value by {
        assert(grown[i] == order[i]);
    }
    assert(values_along(after, grown) =~= values_along(nodes, order).push(node.value));
}

/// Linking a node behind the last node, with its backward link on that
/// node, keeps the list linked backward.
pub proof fn lemma_with_last_backward(
    nodes: Map<usize, NodeView>,
    order: Seq<usize>,
    id: usize,
    node: NodeView,
)
    requires
        spans(nodes, order),
        backward_linked(nodes, order),
        !nodes.contains_key(id),
        node.prev == link_at(order, order.len() - 1),
    ensures
        backward_linked(with_last(nodes, order, id, node), order.push(id)),
{
    let after = with_last(nodes, order, id, node);
    let grown = order.push(id);
    assert forall|i: int| 0 <= i < grown.len() implies after[#[trigger] grown[i]].prev == link_at(
        grown,
        i - 1,
    ) by {
        if i < order.len() {
            assert(grown[i] == order[i]);
            assert(nodes.contains_key(order[i]));
            assert(nodes[order[i]].prev == link_at(order, i - 1));
            if i > 0 {
                assert(grown[i - 1] == order[i - 1]);
            }
        } else if order.len() > 0 {
            assert(nodes.contains_key(order.last()));
            assert(grown[i - 1] == order.last());
        }
    }
}

/// Linking a node without a backward link behind the last node keeps the
/// list free of backward links.
pub proof fn lemma_with_last_unlinked(
    nodes: Map<usize, NodeView>,
    order: Seq<usize>,
    id: usize,
    node: NodeView,
)
    requires
        spans(nodes, order),
        backward_unlinked(nodes, order),
        !nodes.contains_key(id),
        node.prev is None,
    ensures
        backward_unlinked(with_last(nodes, order, id, node), order.push(id)),
{
    let after = with_last(nodes, order, id, node);
    let grown = order.push(id);
    assert forall|i: int| 0 <= i < grown.len() implies after[#[trigger] grown[i]].prev is None by {
        if i < order.len() {
            assert(grown[i] == order[i]);
            assert(nodes.contains_key(order[i]));
            assert(nodes[order[i]].prev is None);
        } else if order.len() > 0 {
            assert(nodes.contains_key(order.last()));
        }
    }
}

/// Taking the first node out keeps the rest spanned and linked forward, and
/// drops the first value.
pub proof fn lemma_without_first_forward(
    nodes: Map<usize, NodeView>,
    order: Seq<usize>,
    clear_back: bool,
)
    requires
        spans(nodes, order),
        forward_linked(nodes, order),
        order.len() > 0,
    ensures
        spans(without_first(nodes, order, clear_back), order.drop_first()),
        forward_linked(without_first(nodes, order, clear_back), order.drop_first()),
        values_along(without_first(nodes, order, clear_back), order.drop_first()) == values_along(
            nodes,
            order,
        ).drop_first(),
{
    let after = without_first(nodes, order, clear_back);
    let rest = order.drop_first();
    assert forall|i: int| 0 <= i < rest.len() implies after.contains_key(#[trigger] rest[i]) by {
        assert(rest[i] == order[i + 1]);
        assert(order[i + 1] != order[0]);
        assert(nodes.contains_key(order[i + 1]));
    }
    assert forall|i: int, j: int| 0 <= i < rest.len() && 0 <= j < rest.len() && i != j implies
        rest[i] != rest[j] by {
        assert(order[i + 1] != order[j + 1]);
    }
    assert forall|key: usize| #[trigger] after.contains_key(key) implies rest.contains(key) by {
        assert(nodes.contains_key(key));
        let at = choose|i: int| 0 <= i < order.len() && order[i] == key;
        assert(rest[at - 1] == key);
    }
    assert forall|i: int| 0 <= i < rest.len() implies after[#[trigger] rest[i]].next == link_at(
        rest,
        i + 1,
    ) && after[rest[i]].value == nodes[order[i + 1]].value by {
        assert(rest[i] == order[i + 1]);
        assert(nodes[order[i + 1]].next == link_at(order, i + 2));
        if i + 1 < rest.len() {
            assert(rest[i + 1] == order[i + 2]);
        }
    }
    assert(values_along(after, rest) =~= values_along(nodes, order).drop_first());
}

/// Taking the first node out and clearing the backward link of the node
/// behind it keeps the rest linked backward.
pub proof fn lemma_without_first_backward(nodes: Map<usize, NodeView>, order: Seq<usize>)
    requires
        spans(nodes, order),
        backward_linked(nodes, order),
        order.len() > 0,
    ensures
        backward_linked(without_first(nodes, order, true), order.drop_first()),
{
    let after = without_first(nodes, order, true);
    let rest = order.drop_first();
    assert forall|i: int| 0 <= i < rest.len() implies after[#[trigger] rest[i]].prev == link_at(
        rest,
        i - 1,
    ) by {
        assert(rest[i] == order[i + 1]);
        assert(nodes[order[i + 1]].prev == link_at(order, i));
        if i > 0 {
            assert(order[i + 1] != order[1]);
            assert(rest[i - 1] == order[i]);
        }
    }
}

/// Taking the first node out keeps the rest free of backward links.
pub proof fn lemma_without_first_unlinked(nodes: Map<usize, NodeView>, order: Seq<usize>)
    requires
        spans(nodes, order),
        backward_unlinked(nodes, order),
        order.len() > 0,
    ensures
        backward_unlinked(without_first(nodes, order, false), order.drop_first()),
{
    let after = without_first(nodes, order, false);
    let rest = order.drop_first();
    assert forall|i: int| 0 <= i < rest.len() implies after[#[trigger] rest[i]].prev is None by {
        assert(rest[i] == order[i + 1]);
        assert(order[i + 1] != order[0]);
        assert(nodes[order[i + 1]].prev is None);
    }
}

/// In a spanned list every slot of the order lies below `bound` if every
/// node of the arena does, so the list is at most `bound` long.
pub proof fn lemma_spanned_length(nodes: Map<usize, NodeView>, order: Seq<usize>, bound: nat)
    requires
        spans(nodes, order),
        forall|id: usize| nodes.contains_key(id) ==> id < bound,
    ensures
        order.len() <= bound,
{
    assert forall|i: int| 0 <= i < order.len() implies order[i] < bound by {
        assert(nodes.contains_key(order[i]));
    }
    lemma_distinct_below(order, bound);
}

/// Distinct slot numbers below `bound` are at most `bound` many.
pub proof fn lemma_distinct_below(order: Seq<usize>, bound: nat)
    requires
        order.no_duplicates(),
        forall|i: int| 0 <= i < order.len() ==> order[i] < bound,
    ensures
        order.len() <= bound,
    decreases bound,
{
    if bound == 0 {
        if order.len() > 0 {
            assert(order[0] < bound);
        }
    } else {
        if exists|i: int| 0 <= i < order.len() && order[i] == bound - 1 {
            let at = choose|i: int| 0 <= i < order.len() && order[i] == bound - 1;
            let rest = order.remove(at);
            assert forall|i: int| 0 <= i < rest.len() implies rest[i] < bound - 1 by {
                if i < at {
                    assert(rest[i] == order[i]);
                } else {
                    assert(rest[i] == order[i + 1]);
                }
            }
            assert(rest.no_duplicates()) by {
                assert forall|i: int, j: int| 0 <= i < rest.len() && 0 <= j < rest.len() && i != j
                    implies rest[i] != rest[j] by {
                    let oi = if i < at { i } else { i + 1 };
                    let oj = if j < at { j } else { j + 1 };
                    assert(rest[i] == order[oi]);
                    assert(rest[j] == order[oj]);
                }
            }
            lemma_distinct_below(rest, (bound - 1) as nat);
        } else {
            assert forall|i: int| 0 <= i < order.len() implies order[i] < bound - 1 by {
                assert(order[i] < bound);
            }
            lemma_distinct_below(order, (bound - 1) as nat);
        }
    }
}

} // verus!
