use transaction_log::{BetterTransactionLog, ListIteratorTracker, Node};

#[test]
fn test_appending() {
    let mut tl = BetterTransactionLog::new_empty();
    assert!(tl.head().is_none());
    assert!(tl.tail().is_none());
    assert_eq!(tl.length(), 0);
    tl.append(String::from("Testing1"));
    assert_eq!(tl.length(), 1);
    assert_eq!(tl.nodes().node(tl.head()), Some(&Node::new("Testing1".to_string()))); // node without a next
    assert_eq!(tl.nodes().node(tl.tail()), Some(&Node::new("Testing1".to_string())));
    tl.append(String::from("Testing2"));
    assert_eq!(tl.length(), 2);
    assert!(tl.nodes().node(tl.head()).unwrap().next.is_some()); // head has a next now
    assert_eq!(
        tl.nodes().node(tl.tail()).unwrap().value,
        String::from("Testing2")
    );
    tl.append(String::from("Testing3"));
    assert_eq!(tl.length(), 3);
    let second = tl.nodes().node(tl.head()).unwrap().next;
    assert!(tl.nodes().node(second).unwrap().next.is_some());
    assert_eq!(tl.nodes().node(tl.tail()).unwrap().value, String::from("Testing3"));
}

#[test]
fn test_popping() {
    let mut tl = BetterTransactionLog::new_empty();
    tl.append(String::from("Testing1"));
    tl.append(String::from("Testing2"));
    tl.append(String::from("Testing3"));

    assert_eq!(tl.pop(), Some("Testing1".to_string()));
    assert_eq!(tl.length(), 2);
    assert!(tl.nodes().node(tl.head()).unwrap().next.is_some());
    let second = tl.nodes().node(tl.head()).unwrap().next;
    assert_eq!(
        tl.nodes().node(second).unwrap().value,
        String::from("Testing3") // Testing2 is the head now, and Testing3 is its next
    );
    assert_eq!(tl.pop(), Some(String::from("Testing2")));
    assert_eq!(tl.length(), 1);
    assert_eq!(tl.pop(), Some(String::from("Testing3")));
    assert_eq!(tl.length(), 0);
    assert_eq!(tl.head(), None);
    assert!(tl.tail().is_none());
}

#[test]
fn test_log_iter() {
    let mut tl = BetterTransactionLog::new_empty();
    tl.append(String::from("vibes"));
    tl.append(String::from("only"));
    let mut tracker = ListIteratorTracker::new(tl.tail());

    let (nodes, mut forward) = tl.into_iter();
    let mut seen = Vec::new();
    while let Some(x) = forward.next(&nodes) {
        println!("{:#}", x);
        seen.push(x);
    }
    assert_eq!(seen, vec![String::from("vibes"), String::from("only")]);
    let mut seen_back = Vec::new();
    while let Some(x) = tracker.next_back(&nodes) {
        println!("{:#}", x);
        seen_back.push(x);
    }
    assert_eq!(seen_back, vec![String::from("only"), String::from("vibes")]);
}

#[test]
fn better_pop_on_a_new_log_yields_nothing() {
    let mut tl = BetterTransactionLog::new_empty();
    assert_eq!(tl.pop(), None);
    assert_eq!(tl.length(), 0);
    assert_eq!(tl.head(), None);
    assert_eq!(tl.tail(), None);
    assert_eq!(tl.values(), Vec::<String>::new());
}

#[test]
fn better_each_append_adds_one_and_moves_only_the_tail() {
    let mut tl = BetterTransactionLog::new_empty();
    let values = ["a", "b", "c", "d", "e"];
    for (count, value) in values.iter().enumerate() {
        tl.append(value.to_string());
        assert_eq!(tl.length(), count as u64 + 1);
        assert_eq!(tl.nodes().node(tl.tail()).unwrap().value, *value);
        assert_eq!(tl.nodes().node(tl.head()).unwrap().value, "a");
    }
}

#[test]
fn better_entries_leave_in_the_order_they_came() {
    let mut tl = BetterTransactionLog::new_empty();
    tl.append(String::from("v1"));
    tl.append(String::from("v2"));
    tl.append(String::from("v3"));
    assert_eq!(tl.pop(), Some(String::from("v1")));
    assert_eq!(tl.pop(), Some(String::from("v2")));
    assert_eq!(tl.pop(), Some(String::from("v3")));
    assert_eq!(tl.pop(), None);
    assert_eq!(tl.length(), 0);
    assert_eq!(tl.head(), None);
    assert_eq!(tl.tail(), None);
}

#[test]
fn better_neighbours_point_at_each_other() {
    let mut tl = BetterTransactionLog::new_empty();
    for value in ["a", "b", "c", "d"] {
        tl.append(value.to_string());
    }
    let mut link = tl.head();
    let mut pairs = 0;
    while let Some(node) = tl.nodes().node(link) {
        if let Some(after) = tl.nodes().node(node.next) {
            assert_eq!(after.prev, link);
            pairs += 1;
        } else {
            assert_eq!(link, tl.tail());
        }
        link = node.next;
    }
    assert_eq!(pairs, 3);
    assert_eq!(tl.nodes().node(tl.head()).unwrap().prev, None);
    assert_eq!(tl.nodes().node(tl.tail()).unwrap().next, None);
}

#[test]
fn better_pop_clears_the_back_link_of_the_new_head() {
    let mut tl = BetterTransactionLog::new_empty();
    tl.append(String::from("first"));
    tl.append(String::from("second"));
    let old_head = tl.head();
    assert_eq!(tl.nodes().node(tl.tail()).unwrap().prev, old_head);
    assert_eq!(tl.pop(), Some(String::from("first")));
    let head = tl.nodes().node(tl.head()).unwrap();
    assert_eq!(head.value, "second");
    assert_eq!(head.prev, None);
    assert_eq!(tl.nodes().node(old_head), None);
    assert_eq!(tl.head(), tl.tail());
}

#[test]
fn better_walks_agree_in_both_directions() {
    let mut tl = BetterTransactionLog::new_empty();
    tl.append(String::from("a"));
    tl.append(String::from("b"));
    tl.append(String::from("c"));
    assert_eq!(tl.values(), vec!["a", "b", "c"]);
    assert_eq!(tl.values_rev(), vec!["c", "b", "a"]);
    assert_eq!(tl.length(), 3);
}

#[test]
fn better_clear_empties_the_log() {
    let mut tl = BetterTransactionLog::new_empty();
    for count in 0..1000 {
        tl.append(count.to_string());
    }
    assert_eq!(tl.length(), 1000);
    tl.clear();
    assert_eq!(tl.length(), 0);
    assert_eq!(tl.head(), None);
    assert_eq!(tl.tail(), None);
    assert_eq!(tl.values(), Vec::<String>::new());
    tl.append(String::from("again"));
    assert_eq!(tl.values(), vec!["again"]);
}

#[test]
fn better_append_after_pop_keeps_the_order() {
    let mut tl = BetterTransactionLog::new_empty();
    tl.append(String::from("a"));
    tl.append(String::from("b"));
    assert_eq!(tl.pop(), Some(String::from("a")));
    tl.append(String::from("c"));
    tl.append(String::from("d"));
    assert_eq!(tl.values(), vec!["b", "c", "d"]);
    assert_eq!(tl.values_rev(), vec!["d", "c", "b"]);
    assert_eq!(tl.pop(), Some(String::from("b")));
    assert_eq!(tl.pop(), Some(String::from("c")));
    assert_eq!(tl.pop(), Some(String::from("d")));
    assert_eq!(tl.pop(), None);
}

#[test]
fn better_dropping_a_long_log_needs_no_deep_recursion() {
    let mut tl = BetterTransactionLog::new_empty();
    for count in 0..300_000 {
        tl.append(count.to_string());
    }
    assert_eq!(tl.length(), 300_000);
    drop(tl);
}

#[test]
fn better_slots_are_used_again_after_a_pop() {
    let mut tl = BetterTransactionLog::new_empty();
    tl.append(String::from("a"));
    tl.append(String::from("b"));
    assert_eq!(tl.head(), Some(0));
    assert_eq!(tl.tail(), Some(1));
    assert_eq!(tl.pop(), Some(String::from("a")));
    tl.append(String::from("c"));
    assert_eq!(tl.head(), Some(1));
    assert_eq!(tl.tail(), Some(0));
    assert_eq!(tl.values(), vec!["b", "c"]);
}

#[test]
fn better_a_single_entry_is_head_and_tail() {
    let mut tl = BetterTransactionLog::new_empty();
    tl.append(String::from("only"));
    assert!(tl.head().is_some());
    assert_eq!(tl.head(), tl.tail());
    assert_eq!(tl.nodes().node(tl.head()), Some(&Node::new(String::from("only"))));
    assert_eq!(tl.pop(), Some(String::from("only")));
    assert_eq!(tl.head(), None);
    assert_eq!(tl.tail(), None);
}
