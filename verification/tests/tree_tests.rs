use dsalgo::tree::{factorial, Node, Tree};

fn sample() -> Tree {
    let mut tree = Tree::new();
    for v in [7, 4, 6, 9, 10, 8] {
        tree.insert(v);
    }
    tree
}

#[test]
fn new_tree_is_empty() {
    let tree = Tree::new();
    assert!(tree.root().is_none());
    assert_eq!(tree.size(), 0);
    assert_eq!(tree.count_height(), -1);
    assert_eq!(tree.count_leaves(), 0);
    assert_eq!(tree.traverse_pre_order(), Vec::<i32>::new());
    assert_eq!(tree.traverse_in_order(), Vec::<i32>::new());
    assert_eq!(tree.traverse_level_order(), Vec::<i32>::new());
}

#[test]
fn empty_tree_extremes_are_the_ends_of_the_range() {
    let tree = Tree::new();
    assert_eq!(tree.find_min_value(), i32::MAX);
    assert_eq!(tree.min_value(), i32::MAX);
    assert_eq!(tree.find_max(), i32::MIN);
}

#[test]
fn node_new_has_nothing_below() {
    let node = Node::new(5);
    assert_eq!(node.value(), 5);
    assert!(node.left().is_none());
    assert!(node.right().is_none());
}

#[test]
fn insert_places_smaller_left_and_others_right() {
    let tree = sample();
    let root = tree.root().unwrap();
    assert_eq!(root.value(), 7);
    let left = root.left().unwrap();
    let right = root.right().unwrap();
    assert_eq!(left.value(), 4);
    assert!(left.left().is_none());
    assert_eq!(left.right().unwrap().value(), 6);
    assert_eq!(right.value(), 9);
    assert_eq!(right.left().unwrap().value(), 8);
    assert_eq!(right.right().unwrap().value(), 10);
}

#[test]
fn insert_puts_an_equal_value_to_the_right() {
    let mut tree = Tree::new();
    tree.insert(3);
    tree.insert(3);
    let root = tree.root().unwrap();
    assert!(root.left().is_none());
    assert_eq!(root.right().unwrap().value(), 3);
    assert!(!tree.is_binary_search_tree());
}

#[test]
fn find_meets_inserted_values_only() {
    let tree = sample();
    for v in [7, 4, 6, 9, 10, 8] {
        assert!(tree.find(v));
    }
    assert!(!tree.find(1));
    assert!(!tree.find(5));
    assert!(!tree.find(11));
    assert!(!Tree::new().find(0));
}

#[test]
fn pre_order_lists_each_fork_before_its_sides() {
    assert_eq!(sample().traverse_pre_order(), vec![7, 4, 6, 9, 8, 10]);
}

#[test]
fn in_order_lists_the_values_from_left_to_right() {
    assert_eq!(sample().traverse_in_order(), vec![4, 6, 7, 8, 9, 10]);
    let mut swapped = sample();
    swapped.swap_root();
    assert_eq!(swapped.traverse_in_order(), vec![8, 9, 10, 7, 4, 6]);
}

#[test]
fn height_counts_edges_on_the_longest_way() {
    assert_eq!(sample().count_height(), 2);
    let mut chain = Tree::new();
    for v in 1..=5 {
        chain.insert(v);
    }
    assert_eq!(chain.count_height(), 4);
    let mut one = Tree::new();
    one.insert(1);
    assert_eq!(one.count_height(), 0);
}

#[test]
fn minimum_and_maximum() {
    let tree = sample();
    assert_eq!(tree.find_min_value(), 4);
    assert_eq!(tree.min_value(), 4);
    assert_eq!(tree.find_max(), 10);
}

#[test]
fn leftmost_value_differs_from_least_after_swap() {
    let mut tree = sample();
    tree.swap_root();
    assert_eq!(tree.find_min_value(), 8);
    assert_eq!(tree.min_value(), 4);
    assert_eq!(tree.find_max(), 10);
}

#[test]
fn equals_compares_values_and_places() {
    let a = sample();
    let b = sample();
    assert!(a.equals(&b));
    let mut c = sample();
    c.insert(1);
    assert!(!a.equals(&c));
    assert!(!c.equals(&a));
    let mut d = Tree::new();
    for v in [7, 9, 4, 6, 10, 8] {
        d.insert(v);
    }
    assert!(a.equals(&d));
    let mut e = Tree::new();
    for v in [4, 7, 6, 9, 10, 8] {
        e.insert(v);
    }
    assert!(!a.equals(&e));
    assert!(Tree::new().equals(&Tree::new()));
    assert!(!Tree::new().equals(&a));
}

#[test]
fn search_order_is_recognised() {
    assert!(sample().is_binary_search_tree());
    assert!(Tree::new().is_binary_search_tree());
    let mut swapped = sample();
    swapped.swap_root();
    assert!(!swapped.is_binary_search_tree());
}

#[test]
fn search_order_with_the_ends_of_the_range() {
    let mut tree = Tree::new();
    tree.insert(0);
    tree.insert(i32::MIN);
    tree.insert(i32::MAX);
    assert!(tree.is_binary_search_tree());
}

#[test]
fn swap_root_exchanges_the_sides_of_the_top() {
    let mut tree = sample();
    tree.swap_root();
    let root = tree.root().unwrap();
    assert_eq!(root.value(), 7);
    assert_eq!(root.left().unwrap().value(), 9);
    assert_eq!(root.right().unwrap().value(), 4);
    tree.swap_root();
    assert!(tree.equals(&sample()));
    let mut empty = Tree::new();
    empty.swap_root();
    assert!(empty.root().is_none());
}

#[test]
fn values_at_a_distance() {
    let tree = sample();
    assert_eq!(tree.print_node_at_distance(0), vec![7]);
    assert_eq!(tree.print_node_at_distance(1), vec![4, 9]);
    assert_eq!(tree.print_node_at_distance(2), vec![6, 8, 10]);
    assert_eq!(tree.print_node_at_distance(3), Vec::<i32>::new());
    assert_eq!(tree.print_node_at_distance(-1), Vec::<i32>::new());
}

#[test]
fn level_order_goes_level_by_level() {
    assert_eq!(sample().traverse_level_order(), vec![7, 4, 9, 6, 8, 10]);
}

#[test]
fn size_and_leaves() {
    let tree = sample();
    assert_eq!(tree.size(), 6);
    assert_eq!(tree.count_leaves(), 3);
    let mut one = Tree::new();
    one.insert(1);
    assert_eq!(one.size(), 1);
    assert_eq!(one.count_leaves(), 1);
}

#[test]
fn clone_copies_the_whole_tree() {
    let tree = sample();
    let copy = tree.clone();
    assert!(tree.equals(&copy));
}

#[test]
fn factorial_values() {
    assert_eq!(factorial(0), 1);
    assert_eq!(factorial(1), 1);
    assert_eq!(factorial(4), 24);
    assert_eq!(factorial(10), 3628800);
    assert_eq!(factorial(12), 479001600);
}

#[test]
fn tree_from_parts_builds_any_shape() {
    let node = Node::from_parts(1, Some(Node::new(5)), Some(Node::from_parts(0, None, Some(Node::new(9)))));
    let tree = Tree::from_root(Some(node));
    assert_eq!(tree.traverse_pre_order(), vec![1, 5, 0, 9]);
    assert!(!tree.is_binary_search_tree());
    assert_eq!(tree.min_value(), 0);
    assert_eq!(tree.find_min_value(), 5);
    assert!(!tree.find(5));
    assert!(Tree::from_root(None).equals(&Tree::new()));
}

#[test]
fn insert_into_a_long_chain() {
    let mut tree = Tree::new();
    for v in 0..20000 {
        tree.insert(v);
    }
    assert!(tree.find(19999));
    assert_eq!(tree.find_max(), 19999);
}
