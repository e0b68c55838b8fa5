use transaction_log::{ListIteratorTracker, Node, TransactionLog};

#[test]
fn lists_test_appending() {
    let mut tl = TransactionLog::new_empty();
    assert!(tl.head().is_none());
    assert!(tl.tail().is_none());
    assert_eq!(tl.length(), 0);
    tl.append(String::from("Testing1"));
    assert_eq!(tl.length(), 1);
    assert_eq!(tl.nodes().node(tl.head()), Some(&Node::new("Testing1".to_string()))); // node without a next
    assert_eq!(tl.nodes().node(tl.tail()), Some(&Node::new("Testing1".to_string())));
    tl.append(String::from("Testing2"));
    assert_eq!(tl.length(), 2);
    assert!(tl.nodes().node(tl.head()).unwrap().next.is_some()); // head has a next now
    assert_eq!(
        tl.nodes().node(tl.nodes().node(tl.head()).unwrap().next),
        Some(&Node::new(String::from("Testing2"))) // does not have a next
    );
    assert_eq!(tl.nodes().node(tl.tail()), Some(&Node::new(String::from("Testing2"))));
    tl.append(String::from("Testing3"));
    assert_eq!(tl.length(), 3);
    let second = tl.nodes().node(tl.head()).unwrap().next;
    assert_eq!(
        tl.nodes().node(tl.nodes().node(second).unwrap().next),
        Some(&Node::new(String::from("Testing3"))) // head is unchanged, but the chain grows
    );
    assert_eq!(tl.nodes().node(tl.tail()), Some(&Node::new(String::from("Testing3"))));
}

#[test]
fn lists_test_popping() {
    let mut tl = TransactionLog::new_empty();
    tl.append(String::from("Testing1"));
    tl.append(String::from("Testing2"));
    tl.append(String::from("Testing3"));

    assert_eq!(tl.pop(), Some("Testing1".to_string()));
    assert_eq!(tl.length(), 2);
    assert!(tl.nodes().node(tl.head()).unwrap().next.is_some());
    assert_eq!(
        tl.nodes().node(tl.nodes().node(tl.head()).unwrap().next),
        Some(&Node::new(String::from("Testing3"))) // Testing2 is the head now, and Testing3 is its next
    );
    assert_eq!(tl.nodes().node(tl.tail()), Some(&Node::new(String::from("Testing3"))));
    assert_eq!(tl.pop(), Some(String::from("Testing2")));
    assert_eq!(tl.length(), 1);
    assert_eq!(tl.pop(), Some(String::from("Testing3")));
    assert_eq!(tl.length(), 0);
    assert_eq!(tl.head(), None);
    assert!(tl.tail().is_none());
}

#[test]
fn pop_on_a_new_log_yields_nothing() {
    let mut tl = TransactionLog::new_empty();
    assert_eq!(tl.pop(), None);
    assert_eq!(tl.length(), 0);
    assert_eq!(tl.head(), None);
    assert_eq!(tl.tail(), None);
}

#[test]
fn each_append_adds_one_and_moves_only_the_tail() {
    let mut tl = TransactionLog::new_empty();
    let values = ["a", "b", "c", "d", "e"];
    for (count, value) in values.iter().enumerate() {
        tl.append(value.to_string());
        assert_eq!(tl.length(), count as u64 + 1);
        assert_eq!(tl.nodes().node(tl.tail()).unwrap().value, *value);
        assert_eq!(tl.nodes().node(tl.head()).unwrap().value, "a");
    }
}

#[test]
fn entries_leave_in_the_order_they_came() {
    let mut tl = TransactionLog::new_empty();
    tl.append(String::from("v1"));
    tl.append(String::from("v2"));
    tl.append(String::from("v3"));
    assert_eq!(tl.pop(), Some(String::from("v1")));
    assert_eq!(tl.pop(), Some(String::from("v2")));
    assert_eq!(tl.pop(), Some(String::from("v3")));
    assert_eq!(tl.pop(), None);
    assert_eq!(tl.length(), 0);
    assert_eq!(tl.head(), None);
    assert_eq!(tl.tail(), None);
}

#[test]
fn no_node_has_a_back_link() {
    let mut tl = TransactionLog::new_empty();
    for value in ["a", "b", "c"] {
        tl.append(value.to_string());
    }
    let mut link = tl.head();
    let mut count = 0;
    while let Some(node) = tl.nodes().node(link) {
        assert_eq!(node.prev, None);
        link = node.next;
        count += 1;
    }
    assert_eq!(count, 3);
}

#[test]
fn a_tracker_walks_the_log_from_its_head() {
    let mut tl = TransactionLog::new_empty();
    tl.append(String::from("a"));
    tl.append(String::from("b"));
    tl.append(String::from("c"));
    let mut tracker = ListIteratorTracker::new(tl.head());
    assert_eq!(tracker.next(tl.nodes()), Some(String::from("a")));
    assert_eq!(tracker.next(tl.nodes()), Some(String::from("b")));
    assert_eq!(tracker.next(tl.nodes()), Some(String::from("c")));
    assert_eq!(tracker.next(tl.nodes()), None);
    assert_eq!(tl.length(), 3);
}

#[test]
fn clear_empties_a_long_log() {
    let mut tl = TransactionLog::new_empty();
    for count in 0..100_000 {
        tl.append(count.to_string());
    }
    assert_eq!(tl.length(), 100_000);
    tl.clear();
    assert_eq!(tl.length(), 0);
    assert_eq!(tl.head(), None);
    assert_eq!(tl.tail(), None);
    assert_eq!(tl.pop(), None);
}

#[test]
fn dropping_a_long_log_needs_no_deep_recursion() {
    let mut tl = TransactionLog::new_empty();
    for count in 0..300_000 {
        tl.append(count.to_string());
    }
    assert_eq!(tl.length(), 300_000);
    drop(tl);
}
