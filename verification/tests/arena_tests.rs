use transaction_log::{Node, NodeArena};

#[test]
fn arena_reuses_a_vacated_slot() {
    let mut arena = NodeArena::new();
    let a = arena.insert(Node::new(String::from("a")));
    let b = arena.insert(Node::new(String::from("b")));
    assert_eq!(a, 0);
    assert_eq!(b, 1);
    assert_eq!(arena.remove(a), Some(Node::new(String::from("a"))));
    assert_eq!(arena.node(Some(a)), None);
    let c = arena.insert(Node::new(String::from("c")));
    assert_eq!(c, a);
    assert_eq!(arena.node(Some(c)), Some(&Node::new(String::from("c"))));
    let d = arena.insert(Node::new(String::from("d")));
    assert_eq!(d, 2);
}

#[test]
fn arena_remove_of_a_missing_node_changes_nothing() {
    let mut arena = NodeArena::new();
    let a = arena.insert(Node::new(String::from("a")));
    assert_eq!(arena.remove(a + 1), None);
    assert_eq!(arena.remove(a), Some(Node::new(String::from("a"))));
    assert_eq!(arena.remove(a), None);
    assert_eq!(arena.node(None), None);
}

#[test]
fn arena_setters_change_one_link_only() {
    let mut arena = NodeArena::new();
    let a = arena.insert(Node::new_with(String::from("a"), Some(4), Some(5)));
    assert!(arena.set_next(a, Some(9)));
    assert_eq!(
        arena.node(Some(a)),
        Some(&Node::new_with(String::from("a"), Some(9), Some(5)))
    );
    assert!(arena.set_prev(a, None));
    assert_eq!(
        arena.node(Some(a)),
        Some(&Node::new_with(String::from("a"), Some(9), None))
    );
    assert!(!arena.set_next(a + 1, None));
    assert!(!arena.set_prev(a + 1, None));
    assert_eq!(
        arena.node(Some(a)),
        Some(&Node::new_with(String::from("a"), Some(9), None))
    );
}
