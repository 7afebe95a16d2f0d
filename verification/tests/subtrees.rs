use binary_search_tree::tree::{BinarySearchTree, TreeNode};

fn subtree_of(keys: &[i32]) -> Option<Box<TreeNode>> {
    let mut root = None;
    for key in keys {
        BinarySearchTree::_insert_recursive(&mut root, *key);
    }
    root
}

fn inorder(node: &Option<Box<TreeNode>>) -> Vec<i32> {
    let mut keys = Vec::new();
    BinarySearchTree::_inorder_recursive(node, &mut keys);
    keys
}

fn preorder(node: &Option<Box<TreeNode>>) -> Vec<i32> {
    let mut keys = Vec::new();
    BinarySearchTree::_preorder_recursive(node, &mut keys);
    keys
}

#[test]
fn insert_into_empty_slot_makes_a_leaf() {
    let mut slot = None;
    BinarySearchTree::_insert_recursive(&mut slot, 5);
    let node = slot.expect("a node");
    assert_eq!(node.value, 5);
    assert!(node.left.is_none());
    assert!(node.right.is_none());
}

#[test]
fn insert_goes_left_for_smaller_and_right_otherwise() {
    let root = subtree_of(&[5, 3, 5]).expect("a node");
    assert_eq!(root.value, 5);
    assert_eq!(root.left.as_ref().expect("left").value, 3);
    assert_eq!(root.right.as_ref().expect("right").value, 5);
}

#[test]
fn search_descends_from_a_subtree() {
    let root = subtree_of(&[5, 3, 8, 1]);
    assert!(BinarySearchTree::_search_recursive(&root, 1));
    assert!(BinarySearchTree::_search_recursive(&root, 8));
    assert!(!BinarySearchTree::_search_recursive(&root, 2));
    assert!(!BinarySearchTree::_search_recursive(&None, 2));
}

#[test]
fn search_follows_the_descent_in_an_unordered_subtree() {
    let leaf = |value: i32| Some(Box::new(TreeNode { value, left: None, right: None }));
    let root = Some(Box::new(TreeNode { value: 5, left: leaf(9), right: leaf(1) }));
    assert!(!BinarySearchTree::_search_recursive(&root, 9));
    assert!(!BinarySearchTree::_search_recursive(&root, 1));
    assert!(BinarySearchTree::_search_recursive(&root, 5));
    assert_eq!(inorder(&root), vec![9, 5, 1]);
}

#[test]
fn traversals_append_to_what_is_there() {
    let root = subtree_of(&[2, 1, 3]);
    let mut keys = vec![100];
    BinarySearchTree::_inorder_recursive(&root, &mut keys);
    assert_eq!(keys, vec![100, 1, 2, 3]);
    BinarySearchTree::_preorder_recursive(&root, &mut keys);
    assert_eq!(keys, vec![100, 1, 2, 3, 2, 1, 3]);
    BinarySearchTree::_postorder_recursive(&root, &mut keys);
    assert_eq!(keys, vec![100, 1, 2, 3, 2, 1, 3, 1, 3, 2]);
    BinarySearchTree::_inorder_recursive(&None, &mut keys);
    assert_eq!(keys.len(), 10);
}

#[test]
fn delete_hands_back_the_rest() {
    let root = subtree_of(&[5, 3, 8, 7, 9]);
    let rest = BinarySearchTree::_delete_recursive(root, 8);
    assert_eq!(preorder(&rest), vec![5, 3, 9, 7]);
    let rest = BinarySearchTree::_delete_recursive(rest, 5);
    assert_eq!(preorder(&rest), vec![7, 3, 9]);
    let rest = BinarySearchTree::_delete_recursive(rest, 6);
    assert_eq!(preorder(&rest), vec![7, 3, 9]);
    assert!(BinarySearchTree::_delete_recursive(None, 6).is_none());
}

#[test]
fn delete_of_the_only_node_leaves_nothing() {
    let root = subtree_of(&[5]);
    assert!(BinarySearchTree::_delete_recursive(root, 5).is_none());
}
