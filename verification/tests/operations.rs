use binary_search_tree::tree::BinarySearchTree;

fn tree_of(keys: &[i32]) -> BinarySearchTree {
    let mut tree = BinarySearchTree::new();
    for key in keys {
        tree.insert(*key);
    }
    tree
}

fn is_sorted(keys: &[i32]) -> bool {
    keys.windows(2).all(|pair| pair[0] <= pair[1])
}

#[test]
fn new_tree_is_empty() {
    let tree = BinarySearchTree::new();
    assert_eq!(tree.size(), 0);
    assert_eq!(tree.inorder_traversal(), Vec::<i32>::new());
    assert_eq!(tree.preorder_traversal(), Vec::<i32>::new());
    assert_eq!(tree.postorder_traversal(), Vec::<i32>::new());
    assert!(!tree.search(0));
    assert_eq!(tree.print_tree(), "");
}

#[test]
fn seven_keys_in_order_and_pre_order() {
    let tree = tree_of(&[5, 3, 8, 1, 4, 7, 9]);
    assert_eq!(tree.size(), 7);
    assert_eq!(tree.inorder_traversal(), vec![1, 3, 4, 5, 7, 8, 9]);
    assert_eq!(tree.preorder_traversal(), vec![5, 3, 1, 4, 8, 7, 9]);
    assert_eq!(tree.postorder_traversal(), vec![1, 4, 3, 7, 9, 8, 5]);
    assert!(tree.search(4));
    assert!(!tree.search(6));
}

#[test]
fn seven_keys_delete_inner_node() {
    let mut tree = tree_of(&[5, 3, 8, 1, 4, 7, 9]);
    tree.delete(3);
    assert_eq!(tree.inorder_traversal(), vec![1, 4, 5, 7, 8, 9]);
    assert_eq!(tree.size(), 6);
    assert_eq!(tree.preorder_traversal(), vec![5, 4, 1, 8, 7, 9]);
    assert!(!tree.search(3));
}

#[test]
fn delete_from_empty_tree_keeps_size_zero() {
    let mut tree = BinarySearchTree::new();
    tree.delete(1);
    assert_eq!(tree.size(), 0);
    assert_eq!(tree.inorder_traversal(), Vec::<i32>::new());
    tree.delete(1);
    assert_eq!(tree.size(), 0);
}

#[test]
fn three_equal_keys() {
    let tree = tree_of(&[5, 5, 5]);
    assert_eq!(tree.size(), 3);
    assert_eq!(tree.inorder_traversal(), vec![5, 5, 5]);
    assert_eq!(tree.preorder_traversal(), vec![5, 5, 5]);
    assert!(tree.search(5));
}

#[test]
fn equal_keys_go_to_the_right() {
    let tree = tree_of(&[5, 3, 5, 3]);
    assert_eq!(tree.preorder_traversal(), vec![5, 3, 3, 5]);
    assert_eq!(tree.postorder_traversal(), vec![3, 3, 5, 5]);
    assert_eq!(tree.inorder_traversal(), vec![3, 3, 5, 5]);
    assert_eq!(tree.print_tree(), "    5\n 5\n        3\n    3\n");
}

#[test]
fn inorder_is_sorted_after_inserts() {
    let keys = [12, -7, 0, 33, 12, -7, 5, i32::MAX, i32::MIN, 1, 2, 2];
    let tree = tree_of(&keys);
    let walked = tree.inorder_traversal();
    assert!(is_sorted(&walked));
    let mut expected = keys.to_vec();
    expected.sort();
    assert_eq!(walked, expected);
}

#[test]
fn size_counts_inserts_less_deletes_of_present_keys() {
    let mut tree = tree_of(&[4, 2, 6, 1, 3, 5, 7, 4]);
    assert_eq!(tree.size(), 8);
    tree.delete(4);
    tree.delete(1);
    tree.delete(7);
    assert_eq!(tree.size(), 5);
    assert_eq!(tree.inorder_traversal().len(), 5);
    assert_eq!(tree.inorder_traversal(), vec![2, 3, 4, 5, 6]);
}

#[test]
fn deleting_an_absent_key_still_counts_down() {
    let mut tree = tree_of(&[10, 20]);
    tree.delete(15);
    assert_eq!(tree.size(), 1);
    assert_eq!(tree.inorder_traversal(), vec![10, 20]);
    assert_eq!(tree.preorder_traversal(), vec![10, 20]);
    tree.delete(15);
    assert_eq!(tree.size(), 0);
    tree.delete(15);
    assert_eq!(tree.size(), 0);
    assert_eq!(tree.inorder_traversal(), vec![10, 20]);
    tree.insert(30);
    assert_eq!(tree.size(), 1);
    assert_eq!(tree.inorder_traversal(), vec![10, 20, 30]);
}

#[test]
fn search_finds_what_was_inserted_and_nothing_else() {
    let keys = [50, 30, 70, 20, 40, 60, 80];
    let tree = tree_of(&keys);
    for key in keys {
        assert!(tree.search(key));
    }
    for key in [0, 25, 35, 45, 55, 65, 75, 85, -50] {
        assert!(!tree.search(key));
    }
}

#[test]
fn search_after_delete_of_single_key() {
    let mut tree = tree_of(&[50, 30, 70]);
    tree.delete(30);
    assert!(!tree.search(30));
    assert!(tree.search(50));
    assert!(tree.search(70));
}

#[test]
fn search_after_delete_of_one_of_two_equal_keys() {
    let mut tree = tree_of(&[50, 30, 30, 70]);
    tree.delete(30);
    assert!(tree.search(30));
    assert_eq!(tree.inorder_traversal(), vec![30, 50, 70]);
    tree.delete(30);
    assert!(!tree.search(30));
    assert_eq!(tree.inorder_traversal(), vec![50, 70]);
    assert_eq!(tree.size(), 2);
}

#[test]
fn inserting_a_key_twice_adds_two_nodes() {
    let mut tree = tree_of(&[8, 3, 10]);
    tree.insert(6);
    tree.insert(6);
    assert_eq!(tree.size(), 5);
    assert_eq!(tree.inorder_traversal(), vec![3, 6, 6, 8, 10]);
    assert_eq!(tree.preorder_traversal(), vec![8, 3, 6, 6, 10]);
}

#[test]
fn every_traversal_has_size_elements() {
    let mut tree = tree_of(&[9, 4, 15, 4, 1, 20, 12]);
    tree.delete(4);
    tree.delete(20);
    let size = tree.size();
    assert_eq!(size, 5);
    assert_eq!(tree.inorder_traversal().len(), size);
    assert_eq!(tree.preorder_traversal().len(), size);
    assert_eq!(tree.postorder_traversal().len(), size);
}

#[test]
fn delete_leaf() {
    let mut tree = tree_of(&[5, 3, 8]);
    tree.delete(8);
    assert_eq!(tree.preorder_traversal(), vec![5, 3]);
    assert_eq!(tree.size(), 2);
}

#[test]
fn delete_node_with_right_child_only() {
    let mut tree = tree_of(&[5, 3, 4]);
    tree.delete(3);
    assert_eq!(tree.preorder_traversal(), vec![5, 4]);
}

#[test]
fn delete_node_with_left_child_only() {
    let mut tree = tree_of(&[5, 3, 1]);
    tree.delete(3);
    assert_eq!(tree.preorder_traversal(), vec![5, 1]);
}

#[test]
fn delete_node_with_two_children_takes_successor() {
    let mut tree = tree_of(&[50, 30, 70, 60, 80, 65]);
    tree.delete(50);
    assert_eq!(tree.preorder_traversal(), vec![60, 30, 70, 65, 80]);
    assert_eq!(tree.inorder_traversal(), vec![30, 60, 65, 70, 80]);
    assert_eq!(tree.postorder_traversal(), vec![30, 65, 80, 70, 60]);
}

#[test]
fn delete_root_until_empty() {
    let mut tree = tree_of(&[2, 1, 3]);
    tree.delete(2);
    assert_eq!(tree.preorder_traversal(), vec![3, 1]);
    tree.delete(3);
    assert_eq!(tree.preorder_traversal(), vec![1]);
    tree.delete(1);
    assert_eq!(tree.preorder_traversal(), Vec::<i32>::new());
    assert_eq!(tree.size(), 0);
    tree.insert(7);
    assert_eq!(tree.preorder_traversal(), vec![7]);
    assert_eq!(tree.size(), 1);
}

#[test]
fn delete_with_equal_successor() {
    let mut tree = tree_of(&[5, 2, 5, 7]);
    tree.delete(5);
    assert_eq!(tree.inorder_traversal(), vec![2, 5, 7]);
    assert_eq!(tree.preorder_traversal(), vec![5, 2, 7]);
}

#[test]
fn rising_keys_make_a_chain() {
    let tree = tree_of(&[1, 2, 3, 4]);
    assert_eq!(tree.preorder_traversal(), vec![1, 2, 3, 4]);
    assert_eq!(tree.postorder_traversal(), vec![4, 3, 2, 1]);
    assert_eq!(tree.print_tree(), "            4\n        3\n    2\n 1\n");
}

#[test]
fn picture_of_seven_keys() {
    let tree = tree_of(&[5, 3, 8, 1, 4, 7, 9]);
    let expected = "        9\n    8\n        7\n 5\n        4\n    3\n        1\n";
    assert_eq!(tree.print_tree(), expected);
}

#[test]
fn picture_of_one_key_has_one_blank() {
    let tree = tree_of(&[42]);
    assert_eq!(tree.print_tree(), " 42\n");
}

#[test]
fn picture_writes_negative_and_extreme_keys() {
    let tree = tree_of(&[0, i32::MIN, i32::MAX, -10, 1000]);
    let expected = "    2147483647\n        1000\n 0\n        -10\n    -2147483648\n";
    assert_eq!(tree.print_tree(), expected);
}

#[test]
fn picture_matches_std_formatting() {
    let keys = [7, -3, 100, 19, -2048, 65536, 9, 10, 11, 99, 101];
    for key in keys {
        let tree = tree_of(&[key]);
        assert_eq!(tree.print_tree(), format!(" {}\n", key));
    }
}
