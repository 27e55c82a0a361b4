use lib::tree::{Tree, TreeNode};

fn tree_of(items: &[i32]) -> Tree {
    let mut tree = Tree::new();
    for &x in items {
        tree.insert(x);
    }
    tree
}

#[test]
fn tree_demo() {
    let mut tree = Tree::new();
    tree.insert(5);
    tree.insert(3);
    tree.insert(7);
    tree.insert(1);
    tree.insert(4);
    tree.insert(6);
    tree.insert(8);
    assert_eq!(tree.print(), vec![5, 3, 1, 4, 7, 6, 8]);
    tree.delete(3);
    assert_eq!(tree.print(), vec![5, 7, 6, 8]);
}

#[test]
fn empty_tree_prints_nothing() {
    let tree = Tree::new();
    assert!(tree.print().is_empty());
}

#[test]
fn equal_values_go_right() {
    let tree = tree_of(&[5, 5, 2, 5]);
    assert_eq!(tree.print(), vec![5, 2, 5, 5]);
}

#[test]
fn delete_root_empties_tree() {
    let mut tree = tree_of(&[5, 3, 7]);
    tree.delete(5);
    assert!(tree.print().is_empty());
}

#[test]
fn delete_absent_value_changes_nothing() {
    let mut tree = tree_of(&[5, 3, 7, 1]);
    tree.delete(4);
    assert_eq!(tree.print(), vec![5, 3, 1, 7]);
    let mut empty = Tree::new();
    empty.delete(4);
    assert!(empty.print().is_empty());
}

#[test]
fn delete_cuts_off_every_copy() {
    let mut tree = tree_of(&[5, 3, 3, 9, 3]);
    tree.delete(3);
    assert_eq!(tree.print(), vec![5, 9]);
}

#[test]
fn delete_leaf_on_the_right() {
    let mut tree = tree_of(&[5, 3, 7, 6, 8]);
    tree.delete(8);
    assert_eq!(tree.print(), vec![5, 3, 7, 6]);
}

#[test]
fn print_lists_every_value() {
    let items = [4, -2, 9, 4, 0, 13, -7];
    let tree = tree_of(&items);
    let mut printed = tree.print();
    printed.sort();
    let mut expected = items.to_vec();
    expected.sort();
    assert_eq!(printed, expected);
}

#[test]
fn tree_node_insert_and_delete() {
    let mut node = TreeNode::new(10);
    node.insert(4);
    node.insert(12);
    node.insert(2);
    assert_eq!(node.left.as_ref().map(|n| n.value), Some(4));
    assert_eq!(node.right.as_ref().map(|n| n.value), Some(12));
    assert!(!node.delete(4));
    assert!(node.left.is_none());
    assert_eq!(node.right.as_ref().map(|n| n.value), Some(12));
    assert!(node.delete(10));
    assert_eq!(node.value, 10);
    assert!(node.right.is_none());
}

#[test]
fn tree_node_new_is_a_leaf() {
    let node = TreeNode::new(-1);
    assert_eq!(node.value, -1);
    assert!(node.left.is_none() && node.right.is_none());
}

#[test]
fn tree_node_print_appends() {
    let mut node = TreeNode::new(2);
    node.insert(1);
    node.insert(3);
    let mut out = vec![0];
    TreeNode::print(&node, &mut out);
    assert_eq!(out, vec![0, 2, 1, 3]);
}
