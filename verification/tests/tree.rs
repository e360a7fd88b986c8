use aoc_tree::traversal::{postorder_list, traverse_tree_apply_if};
use aoc_tree::tree::{
    add_node_below, depth, get_value, go_down, go_up, new_node_ref, set_value, Arena, Node, NodeError, NodeRef,
};

/// root -> a (10), root -> b -> c (5), d (7)
fn sample() -> (Arena<u64>, NodeRef, NodeRef, NodeRef, NodeRef, NodeRef) {
    let mut arena: Arena<u64> = Arena::new();
    let root = new_node_ref(&mut arena, "root", 0);
    let a = Node::add(&mut arena, root, "a", 10).unwrap();
    let b = Node::add(&mut arena, root, "b", 0).unwrap();
    let c = Node::add(&mut arena, b, "c", 5).unwrap();
    let d = Node::add(&mut arena, b, "d", 7).unwrap();
    (arena, root, a, b, c, d)
}

fn sum_of_children(arena: &Arena<u64>, node: NodeRef) -> u64 {
    let kids = &arena.node(node).children;
    if kids.is_empty() {
        get_value(arena, node)
    } else {
        kids.iter().map(|kid| get_value(arena, *kid)).sum()
    }
}

#[test]
fn identifiers_are_unique_and_grow() {
    let (arena, root, a, b, c, d) = sample();
    let ids: Vec<usize> = [root, a, b, c, d].iter().map(|n| arena.node(*n).unique_id).collect();
    assert_eq!(vec![0, 1, 2, 3, 4], ids);
    for i in 0..ids.len() {
        for j in (i + 1)..ids.len() {
            assert!(ids[i] < ids[j]);
        }
    }
    assert_eq!(5, arena.len());
}

#[test]
fn a_new_arena_is_empty() {
    let arena: Arena<u8> = Arena::new();
    assert_eq!(0, arena.len());
}

#[test]
fn a_root_has_no_parent_and_no_children() {
    let mut arena: Arena<i32> = Arena::new();
    let root = new_node_ref(&mut arena, "root", -4);
    let node = arena.node(root);
    assert_eq!("root", node.name);
    assert_eq!(-4, node.value);
    assert!(node.children.is_empty());
    assert_eq!(None, node.parent);
    assert_eq!(None, node.up());
    assert_eq!(None, go_up(&arena, root));
    assert_eq!(0, depth(&arena, root));
}

#[test]
fn node_new_keeps_what_it_is_given() {
    let mut arena: Arena<u8> = Arena::new();
    let node: Node<u8> = Node::new(&mut arena, "x".to_string(), 3, Some(2));
    assert_eq!(0, node.unique_id);
    assert_eq!("x", node.name);
    assert_eq!(3, node.value);
    assert!(node.children.is_empty());
    assert_eq!(Some(2), node.parent);
    assert_eq!(Some(2), node.up());
    assert_eq!(0, arena.len());
}

#[test]
fn every_new_node_gets_a_larger_identifier() {
    let mut arena: Arena<u8> = Arena::new();
    assert_eq!(0, arena.issued_ids());
    let first = Node::new(&mut arena, "same".to_string(), 1, None);
    let second = Node::new(&mut arena, "same".to_string(), 1, None);
    assert!(first.unique_id < second.unique_id);
    assert_eq!(2, arena.issued_ids());
    let root = new_node_ref(&mut arena, "root", 0);
    let kid = Node::add(&mut arena, root, "kid", 0).unwrap();
    assert_eq!(0, root);
    assert_eq!(1, kid);
    assert_eq!(2, arena.node(root).unique_id);
    assert_eq!(3, arena.node(kid).unique_id);
    assert_eq!(4, arena.issued_ids());
    assert!(Node::add(&mut arena, root, "kid", 0).is_err());
    assert_eq!(4, arena.issued_ids());
    let third = Node::new(&mut arena, "late".to_string(), 1, None);
    assert_eq!(4, third.unique_id);
    assert!(arena.node(kid).unique_id < third.unique_id);
    assert_eq!(2, arena.len());
}

#[test]
fn nodes_are_equal_by_identifier() {
    let mut arena: Arena<u8> = Arena::new();
    let first = Node::new(&mut arena, "a".to_string(), 1, None);
    let second = Node::new(&mut arena, "a".to_string(), 1, None);
    assert!(first != second);
    let mut copy = first.clone();
    assert_eq!("a", copy.name);
    assert_eq!(first.unique_id, copy.unique_id);
    copy.name = "b".to_string();
    copy.value = 9;
    assert!(first == copy);
    assert!(second == second.clone());
}

#[test]
fn add_appends_in_insertion_order_and_sets_the_parent() {
    let (arena, root, a, b, c, d) = sample();
    assert_eq!(vec![a, b], arena.node(root).children);
    assert_eq!(vec![c, d], arena.node(b).children);
    assert!(arena.node(a).children.is_empty());
    assert_eq!(Some(root), arena.node(a).parent);
    assert_eq!(Some(root), arena.node(b).parent);
    assert_eq!(Some(b), arena.node(c).parent);
    assert_eq!(Some(b), arena.node(d).parent);
    assert_eq!("d", arena.node(d).name);
    assert_eq!(7, arena.node(d).value);
}

#[test]
fn add_with_a_taken_name_fails_and_changes_nothing() {
    let (mut arena, root, a, b, _, _) = sample();
    let before = arena.len();
    let result = Node::add(&mut arena, root, "a", 99);
    match result {
        Err(NodeError::Add(msg)) => assert_eq!("'a' already exists under node 'root'", msg),
        _ => panic!("a duplicate name must be refused"),
    }
    assert_eq!(before, arena.len());
    assert_eq!(vec![a, b], arena.node(root).children);
    assert_eq!(10, get_value(&arena, a));
}

#[test]
fn the_same_name_may_be_used_under_another_parent() {
    let (mut arena, _, a, b, _, _) = sample();
    let below_a = Node::add(&mut arena, a, "c", 1).unwrap();
    let below_b = go_down(&arena, b, "c").unwrap();
    assert!(below_a != below_b);
    assert_eq!(Some(a), go_up(&arena, below_a));
}

#[test]
fn add_node_below_reports_a_taken_name() {
    let (mut arena, root, a, b, _, _) = sample();
    match add_node_below(&mut arena, root, "b", 1) {
        Err(NodeError::Add(msg)) => assert_eq!("'b' already exists under node 'root'", msg),
        _ => panic!("a duplicate name must be refused"),
    }
    assert_eq!(5, arena.len());
    assert_eq!(5, arena.issued_ids());
    assert_eq!(vec![a, b], arena.node(root).children);
    assert_eq!(0, get_value(&arena, b));
    let e = match add_node_below(&mut arena, root, "e", 1) {
        Ok(e) => e,
        Err(_) => panic!("a free name must be accepted"),
    };
    assert_eq!(5, e);
    assert_eq!(6, arena.len());
    assert_eq!(vec![a, b, e], arena.node(root).children);
    assert_eq!(Some(root), go_up(&arena, e));
    assert_eq!(1, get_value(&arena, e));
}

#[test]
fn get_child_finds_by_name() {
    let (arena, root, a, b, c, _) = sample();
    assert_eq!(Some(a), arena.node(root).get_child(&arena, "a"));
    assert_eq!(Some(b), arena.node(root).get_child(&arena, "b"));
    assert_eq!(None, arena.node(root).get_child(&arena, "c"));
    assert_eq!(Some(c), arena.node(b).get_child(&arena, "c"));
    assert_eq!(None, arena.node(a).get_child(&arena, "a"));
}

#[test]
fn down_fails_for_a_missing_child() {
    let (arena, root, a, _, _, _) = sample();
    assert_eq!(a, arena.node(root).down(&arena, "a").unwrap());
    match arena.node(root).down(&arena, "zz") {
        Err(NodeError::NotFound(msg)) => assert_eq!("'zz' not found", msg),
        _ => panic!("a missing child must be reported"),
    }
    match go_down(&arena, a, "a") {
        Err(NodeError::NotFound(msg)) => assert_eq!("'a' not found", msg),
        _ => panic!("a missing child must be reported"),
    }
}

#[test]
fn errors_have_a_text() {
    let (mut arena, root, _, _, _, _) = sample();
    let taken = Node::add(&mut arena, root, "a", 1).unwrap_err();
    assert_eq!("Could not add node: 'a' already exists under node 'root'", taken.to_text());
    let missing = go_down(&arena, root, "q").unwrap_err();
    assert_eq!("Node not found: 'q' not found", missing.to_text());
}

#[test]
fn down_up_down_ends_at_the_same_node() {
    let (arena, root, a, _, _, _) = sample();
    let first = go_down(&arena, root, "a").unwrap();
    let up = go_up(&arena, first).unwrap();
    let second = go_down(&arena, up, "a").unwrap();
    assert_eq!(a, first);
    assert_eq!(root, up);
    assert_eq!(arena.node(first).unique_id, arena.node(second).unique_id);
}

#[test]
fn a_value_that_is_set_is_read_back() {
    let (mut arena, _, a, _, c, _) = sample();
    set_value(&mut arena, a, 77);
    assert_eq!(77, get_value(&arena, a));
    assert_eq!(5, get_value(&arena, c));
    set_value(&mut arena, a, 78);
    assert_eq!(78, get_value(&arena, a));
    assert_eq!("a", arena.node(a).name);
}

#[test]
fn values_need_not_be_numbers() {
    let mut arena: Arena<String> = Arena::new();
    let root = new_node_ref(&mut arena, "root", "one".to_string());
    set_value(&mut arena, root, "two".to_string());
    assert_eq!("two", get_value(&arena, root));
}

#[test]
fn depth_counts_the_ancestors() {
    let (arena, root, a, b, c, d) = sample();
    assert_eq!(0, depth(&arena, root));
    assert_eq!(1, depth(&arena, a));
    assert_eq!(1, depth(&arena, b));
    assert_eq!(2, depth(&arena, c));
    assert_eq!(2, depth(&arena, d));
}

#[test]
fn traversal_offers_every_node_once_children_first_root_last() {
    let (mut arena, root, a, b, c, d) = sample();
    let mut offered: Vec<NodeRef> = Vec::new();
    traverse_tree_apply_if(
        &mut arena,
        root,
        |_, node| {
            offered.push(node);
            false
        },
        |arena, node| get_value(arena, node),
    );
    assert_eq!(vec![a, c, d, b, root], offered);
    assert_eq!(Some(&root), offered.last());
    for node in [root, a, b, c, d] {
        assert_eq!(1, offered.iter().filter(|n| **n == node).count());
    }
    let place = |node: NodeRef| offered.iter().position(|n| *n == node).unwrap();
    assert!(place(c) < place(b));
    assert!(place(d) < place(b));
    assert!(place(a) < place(root));
    assert!(place(b) < place(root));
}

#[test]
fn the_postorder_is_listed() {
    let (arena, root, a, b, c, d) = sample();
    assert_eq!(vec![a, c, d, b, root], postorder_list(&arena, root));
    assert_eq!(vec![c, d, b], postorder_list(&arena, b));
    assert_eq!(vec![a], postorder_list(&arena, a));
}

#[test]
fn the_visitor_is_called_where_the_predicate_accepts() {
    let (mut arena, root, a, b, c, d) = sample();
    let mut visited: Vec<NodeRef> = Vec::new();
    traverse_tree_apply_if(
        &mut arena,
        root,
        |arena, node| arena.node(node).children.is_empty(),
        |arena, node| {
            visited.push(node);
            get_value(arena, node) + 100
        },
    );
    assert_eq!(vec![a, c, d], visited);
    assert_eq!(110, get_value(&arena, a));
    assert_eq!(105, get_value(&arena, c));
    assert_eq!(107, get_value(&arena, d));
    assert_eq!(0, get_value(&arena, b));
    assert_eq!(0, get_value(&arena, root));
}

#[test]
fn a_root_without_children_is_traversed() {
    let mut arena: Arena<u64> = Arena::new();
    let root = new_node_ref(&mut arena, "root", 3);
    let mut offered: Vec<NodeRef> = Vec::new();
    traverse_tree_apply_if(
        &mut arena,
        root,
        |_, node| {
            offered.push(node);
            true
        },
        |arena, node| get_value(arena, node) * 2,
    );
    assert_eq!(vec![root], offered);
    assert_eq!(6, get_value(&arena, root));
}

#[test]
fn a_subtree_is_traversed_by_itself() {
    let (mut arena, root, a, b, c, d) = sample();
    let mut offered: Vec<NodeRef> = Vec::new();
    traverse_tree_apply_if(
        &mut arena,
        b,
        |_, node| {
            offered.push(node);
            true
        },
        |_, _| 1,
    );
    assert_eq!(vec![c, d, b], offered);
    assert_eq!(10, get_value(&arena, a));
    assert_eq!(0, get_value(&arena, root));
    assert_eq!(1, get_value(&arena, b));
}

#[test]
fn aggregation_folds_children_into_their_parents() {
    let (mut arena, root, a, b, c, d) = sample();
    traverse_tree_apply_if(&mut arena, root, |_, _| true, sum_of_children);
    assert_eq!(12, get_value(&arena, b));
    assert_eq!(22, get_value(&arena, root));
    assert_eq!(10, get_value(&arena, a));
    assert_eq!(5, get_value(&arena, c));
    assert_eq!(7, get_value(&arena, d));
}

#[test]
fn traversal_leaves_the_shape_alone() {
    let (mut arena, root, a, b, c, d) = sample();
    traverse_tree_apply_if(&mut arena, root, |_, _| true, |_, _| 0);
    assert_eq!(5, arena.len());
    assert_eq!(vec![a, b], arena.node(root).children);
    assert_eq!(vec![c, d], arena.node(b).children);
    assert_eq!(Some(b), go_up(&arena, d));
    assert_eq!("c", arena.node(c).name);
}

#[test]
fn a_deep_tree_is_traversed_without_recursion() {
    let mut arena: Arena<u64> = Arena::new();
    let root = new_node_ref(&mut arena, "0", 0);
    let mut cursor = root;
    for i in 1..20000u64 {
        cursor = Node::add(&mut arena, cursor, "next", i).unwrap();
    }
    let mut count = 0u64;
    let mut last = None;
    traverse_tree_apply_if(
        &mut arena,
        root,
        |_, node| {
            count += 1;
            last = Some(node);
            false
        },
        |arena, node| get_value(arena, node),
    );
    assert_eq!(20000, count);
    assert_eq!(Some(root), last);
    assert_eq!(19999, depth(&arena, cursor));
}

#[test]
fn two_trees_share_one_arena() {
    let mut arena: Arena<u8> = Arena::new();
    let first = new_node_ref(&mut arena, "first", 1);
    let second = new_node_ref(&mut arena, "second", 2);
    let kid = Node::add(&mut arena, second, "kid", 3).unwrap();
    assert!(arena.node(first).unique_id != arena.node(second).unique_id);
    let mut offered: Vec<NodeRef> = Vec::new();
    traverse_tree_apply_if(
        &mut arena,
        second,
        |_, node| {
            offered.push(node);
            false
        },
        |arena, node| get_value(arena, node),
    );
    assert_eq!(vec![kid, second], offered);
}
