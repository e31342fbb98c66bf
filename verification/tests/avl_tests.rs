use dsalgo::avl::{AvlNode, AvlTree};

fn in_order(node: Option<&AvlNode>, out: &mut Vec<i32>) {
    if let Some(n) = node {
        in_order(n.left(), out);
        out.push(n.value());
        in_order(n.right(), out);
    }
}

fn values(tree: &AvlTree) -> Vec<i32> {
    let mut out = Vec::new();
    in_order(tree.root(), &mut out);
    out
}

#[test]
fn avl_node_new_has_height_zero() {
    let node = AvlNode::new(3);
    assert_eq!(node.value(), 3);
    assert_eq!(node.recorded_height(), 0);
    assert!(node.left().is_none());
    assert!(node.right().is_none());
}

#[test]
fn avl_new_tree_is_empty() {
    assert!(AvlTree::new().root().is_none());
}

#[test]
fn avl_first_insert_makes_the_root() {
    let mut tree = AvlTree::new();
    tree.insert(10);
    let root = tree.root().unwrap();
    assert_eq!(root.value(), 10);
    assert_eq!(root.recorded_height(), 0);
}

#[test]
fn avl_second_insert_records_height_one() {
    let mut tree = AvlTree::new();
    tree.insert(10);
    tree.insert(30);
    let root = tree.root().unwrap();
    assert_eq!(root.value(), 10);
    assert_eq!(root.recorded_height(), 1);
    assert!(root.left().is_none());
    assert_eq!(root.right().unwrap().value(), 30);
    assert_eq!(root.right().unwrap().recorded_height(), 0);
}

fn true_height(node: Option<&AvlNode>) -> i32 {
    match node {
        Some(n) => 1 + true_height(n.left()).max(true_height(n.right())),
        None => -1,
    }
}

fn check_sound(node: Option<&AvlNode>) {
    if let Some(n) = node {
        assert_eq!(n.recorded_height(), true_height(Some(n)));
        let lean = true_height(n.left()) - true_height(n.right());
        assert!((-1..=1).contains(&lean));
        check_sound(n.left());
        check_sound(n.right());
    }
}

#[test]
fn avl_right_left_case_turns_twice() {
    let mut tree = AvlTree::new();
    tree.insert(10);
    tree.insert(30);
    tree.insert(20);
    let root = tree.root().unwrap();
    assert_eq!(root.value(), 20);
    assert_eq!(root.recorded_height(), 1);
    let left = root.left().unwrap();
    let right = root.right().unwrap();
    assert_eq!(left.value(), 10);
    assert_eq!(left.recorded_height(), 0);
    assert!(left.left().is_none());
    assert!(left.right().is_none());
    assert_eq!(right.value(), 30);
    assert_eq!(right.recorded_height(), 0);
    assert!(right.left().is_none());
    assert!(right.right().is_none());
}

#[test]
fn avl_fourth_insert_of_the_example() {
    let mut tree = AvlTree::new();
    for v in [10, 30, 20, 15] {
        tree.insert(v);
    }
    let root = tree.root().unwrap();
    assert_eq!(root.value(), 20);
    assert_eq!(root.recorded_height(), 2);
    let left = root.left().unwrap();
    assert_eq!(left.value(), 10);
    assert_eq!(left.recorded_height(), 1);
    assert!(left.left().is_none());
    assert_eq!(left.right().unwrap().value(), 15);
    assert_eq!(left.right().unwrap().recorded_height(), 0);
    let right = root.right().unwrap();
    assert_eq!(right.value(), 30);
    assert_eq!(right.recorded_height(), 0);
}

#[test]
fn avl_left_left_case_turns_right() {
    let mut tree = AvlTree::new();
    for v in [30, 20, 10] {
        tree.insert(v);
    }
    let root = tree.root().unwrap();
    assert_eq!(root.value(), 20);
    assert_eq!(root.left().unwrap().value(), 10);
    assert_eq!(root.right().unwrap().value(), 30);
    assert_eq!(root.right().unwrap().recorded_height(), 0);
    assert_eq!(root.recorded_height(), 1);
}

#[test]
fn avl_right_right_case_turns_left() {
    let mut tree = AvlTree::new();
    for v in [10, 20, 30] {
        tree.insert(v);
    }
    let root = tree.root().unwrap();
    assert_eq!(root.value(), 20);
    assert_eq!(root.left().unwrap().value(), 10);
    assert_eq!(root.left().unwrap().recorded_height(), 0);
    assert_eq!(root.right().unwrap().value(), 30);
    assert_eq!(root.recorded_height(), 1);
}

#[test]
fn avl_six_ascending_inserts_are_balanced() {
    let mut tree = AvlTree::new();
    for v in 1..=6 {
        tree.insert(v);
    }
    let root = tree.root().unwrap();
    assert_eq!(root.value(), 4);
    assert_eq!(root.recorded_height(), 2);
    check_sound(tree.root());
}

#[test]
fn avl_stays_balanced_with_true_heights() {
    let mut tree = AvlTree::new();
    for v in [50, 20, 60, 10, 8, 15, 32, 46, 11, 48, 20, 3, 99, 70, 1, 2, 4, 5, 6, 7] {
        tree.insert(v);
        check_sound(tree.root());
    }
    let mut chain = AvlTree::new();
    for v in 0..1000 {
        chain.insert(v);
    }
    check_sound(chain.root());
    assert_eq!(true_height(chain.root()), 9);
}

#[test]
fn avl_keeps_values_in_order() {
    let mut tree = AvlTree::new();
    let input = [50, 20, 60, 10, 8, 15, 32, 46, 11, 48, 20, 3, 99, 70];
    for v in input {
        tree.insert(v);
    }
    let mut expected = input.to_vec();
    expected.sort();
    assert_eq!(values(&tree), expected);
}

#[test]
fn avl_ascending_inserts_stay_in_order() {
    let mut tree = AvlTree::new();
    for v in 0..100 {
        tree.insert(v);
    }
    assert_eq!(values(&tree), (0..100).collect::<Vec<i32>>());
}

#[test]
fn avl_from_parts_keeps_heights_as_given() {
    let node = AvlNode::from_parts(7, 2, Some(AvlNode::new(1)), None);
    let tree = AvlTree::from_root(Some(node));
    let root = tree.root().unwrap();
    assert_eq!(root.recorded_height(), 7);
    assert_eq!(root.value(), 2);
    assert_eq!(root.left().unwrap().value(), 1);
    assert!(root.right().is_none());
    assert!(AvlTree::from_root(None).root().is_none());
}

#[test]
fn avl_balances_by_recorded_heights() {
    let node = AvlNode::from_parts(5, 10, Some(AvlNode::from_parts(4, 5, None, None)), None);
    let mut tree = AvlTree::from_root(Some(node));
    tree.insert(20);
    let root = tree.root().unwrap();
    assert_eq!(root.value(), 5);
    assert_eq!(root.recorded_height(), 2);
    assert!(root.left().is_none());
    let right = root.right().unwrap();
    assert_eq!(right.value(), 10);
    assert_eq!(right.recorded_height(), 1);
    assert_eq!(right.right().unwrap().value(), 20);
}
