//! The tree in memory, and the operations on it.

use crate::laws::{
    lemma_delete_count, lemma_delete_inorder, lemma_delete_ordered, lemma_descend_finds,
    lemma_inorder_sorted, lemma_insert_count, lemma_insert_inorder, lemma_insert_ordered,
    lemma_traversals_agree,
};
use crate::sequence::{insert_sorted, remove_first, sorted};
use crate::shape::Shape;
use crate::text::{push_decimal, spaces};
use vstd::prelude::*;
use vstd::string::StringExecFns;

verus! {

/// One node: a key and the two subtrees it owns.
#[derive(Debug)]
pub struct TreeNode {
    pub value: i32,
    pub left: Option<Box<TreeNode>>,
    pub right: Option<Box<TreeNode>>,
}

impl TreeNode {
    /// The mathematical tree that this node is the root of.
    pub open spec fn shape(self) -> Shape
        decreases self,
    {
        Shape::Fork {
            left: Box::new(shape_of(self.left)),
            value: self.value,
            right: Box::new(shape_of(self.right)),
        }
    }
}

/// The mathematical tree below a child slot: empty for an empty slot.
pub open spec fn shape_of(link: Option<Box<TreeNode>>) -> Shape
    decreases link,
{
    match link {
        None => Shape::Empty,
        Some(node) => node.shape(),
    }
}

/// A binary search tree that keeps equal keys, with a count of its nodes.
pub struct BinarySearchTree {
    root: Option<Box<TreeNode>>,
    size: usize,
}

impl View for BinarySearchTree {
    type V = Shape;

    closed spec fn view(&self) -> Shape {
        shape_of(self.root)
    }
}

impl BinarySearchTree {
    /// The count that the tree keeps: one up for each insertion, one down,
    /// but not below zero, for each deletion.
    pub closed spec fn spec_size(&self) -> nat {
        self.size as nat
    }

    #[verifier::type_invariant]
    spec fn well_formed(self) -> bool {
        &&& shape_of(self.root).ordered()
        &&& self.size <= shape_of(self.root).count()
    }

    /// The empty tree.
    pub fn new() -> (tree: Self)
        ensures
            tree@ == Shape::Empty,
            tree.spec_size() == 0,
    {
        BinarySearchTree { root: None, size: 0 }
    }

    /// The count that the tree keeps. It never exceeds the number of nodes,
    /// and falls short of it only after a deletion of a key that the tree
    /// did not hold.
    pub fn size(&self) -> (n: usize)
        ensures
            n == self.spec_size(),
            n <= self@.count(),
            self@.ordered(),
    {
        proof {
            use_type_invariant(self);
        }
        self.size
    }

    /// Adds `value`, also where the tree holds it already, and counts one up.
    ///
    /// The new node is a leaf. In the in-order traversal it comes behind the
    /// last key that is not greater than `value`.
    pub fn insert(&mut self, value: i32)
        requires
            old(self).spec_size() < usize::MAX,
        ensures
            final(self)@ == old(self)@.insert(value),
            final(self)@.ordered(),
            final(self)@.inorder() == insert_sorted(old(self)@.inorder(), value),
            final(self)@.count() == old(self)@.count() + 1,
            final(self).spec_size() == old(self).spec_size() + 1,
    {
        proof {
            use_type_invariant(&*self);
            lemma_insert_ordered(self@, value);
            lemma_insert_inorder(self@, value);
            lemma_insert_count(self@, value);
        }
        let mut taken = BinarySearchTree::new();
        std::mem::swap(self, &mut taken);
        let size = taken.size;
        let mut root = taken.root;
        if root.is_none() {
            root = Some(Box::new(TreeNode { value, left: None, right: None }));
        } else {
            Self::_insert_recursive(&mut root, value);
        }
        *self = BinarySearchTree { root, size: size + 1 };
    }

    /// Whether the tree holds `value`.
    pub fn search(&self, value: i32) -> (found: bool)
        ensures
            found == self@.contains(value),
    {
        proof {
            use_type_invariant(self);
            lemma_descend_finds(self@, value);
        }
        Self::_search_recursive(&self.root, value)
    }

    /// Removes one node that holds `value`, if there is one, and counts one
    /// down in either case, but not below zero.
    ///
    /// The in-order traversal loses its first occurrence of `value` and is
    /// otherwise as before. A tree that does not hold `value` keeps its shape.
    pub fn delete(&mut self, value: i32)
        ensures
            final(self)@ == old(self)@.delete(value),
            final(self)@.ordered(),
            final(self)@.inorder() == remove_first(old(self)@.inorder(), value),
            old(self)@.contains(value) ==> final(self)@.count() == old(self)@.count() - 1,
            !old(self)@.contains(value) ==> final(self)@ == old(self)@,
            final(self).spec_size() == if old(self).spec_size() == 0 {
                0
            } else {
                old(self).spec_size() - 1
            },
    {
        proof {
            use_type_invariant(&*self);
            lemma_delete_ordered(self@, value);
            lemma_delete_inorder(self@, value);
            lemma_delete_count(self@, value);
        }
        let mut taken = BinarySearchTree::new();
        std::mem::swap(self, &mut taken);
        let size = taken.size;
        let root = Self::_delete_recursive(taken.root, value);
        *self = BinarySearchTree { root, size: size.saturating_sub(1) };
    }

    /// The keys in ascending order: of every node, the left subtree first,
    /// then the node, then the right subtree.
    pub fn inorder_traversal(&self) -> (result: Vec<i32>)
        ensures
            result@ == self@.inorder(),
            result@.len() == self@.count(),
            sorted(result@),
    {
        proof {
            use_type_invariant(self);
            lemma_inorder_sorted(self@);
            lemma_traversals_agree(self@);
        }
        let mut result = Vec::new();
        Self::_inorder_recursive(&self.root, &mut result);
        assert(Seq::<i32>::empty() + self@.inorder() =~= self@.inorder());
        result
    }

    /// The keys with every node in front of its subtrees, the left one first.
    pub fn preorder_traversal(&self) -> (result: Vec<i32>)
        ensures
            result@ == self@.preorder(),
            result@.len() == self@.count(),
    {
        proof {
            lemma_traversals_agree(self@);
        }
        let mut result = Vec::new();
        Self::_preorder_recursive(&self.root, &mut result);
        assert(Seq::<i32>::empty() + self@.preorder() =~= self@.preorder());
        result
    }

    /// The keys with every node behind its subtrees, the left one first.
    pub fn postorder_traversal(&self) -> (result: Vec<i32>)
        ensures
            result@ == self@.postorder(),
            result@.len() == self@.count(),
    {
        proof {
            lemma_traversals_agree(self@);
        }
        let mut result = Vec::new();
        Self::_postorder_recursive(&self.root, &mut result);
        assert(Seq::<i32>::empty() + self@.postorder() =~= self@.postorder());
        result
    }

    /// Puts a new leaf for `value` below `node`, to the left of every
    /// greater key on the way down and to the right of the others.
    pub fn _insert_recursive(node: &mut Option<Box<TreeNode>>, value: i32)
        ensures
            shape_of(*final(node)) == shape_of(*old(node)).insert(value),
        decreases *old(node),
    {
        match node.take() {
            None => {
                *node = Some(Box::new(TreeNode { value, left: None, right: None }));
            },
            Some(mut current) => {
                if value < current.value {
                    Self::_insert_recursive(&mut current.left, value);
                } else {
                    Self::_insert_recursive(&mut current.right, value);
                }
                *node = Some(current);
            },
        }
    }

    /// Whether a descent from `node` meets `value`.
    pub fn _search_recursive(node: &Option<Box<TreeNode>>, value: i32) -> (found: bool)
        ensures
            found == shape_of(*node).descend(value),
        decreases *node,
    {
        match node {
            None => false,
            Some(current) => {
                if current.value == value {
                    true
                } else if value < current.value {
                    Self::_search_recursive(&current.left, value)
                } else {
                    Self::_search_recursive(&current.right, value)
                }
            },
        }
    }

    /// The key of the leftmost node below `node`.
    fn leftmost_value(node: &TreeNode) -> (key: i32)
        ensures
            key == node.shape().leftmost(),
    {
        let mut current: &TreeNode = node;
        while current.left.is_some()
            invariant
                current.shape().leftmost() == node.shape().leftmost(),
            decreases current,
        {
            current = current.left.as_ref().unwrap();
        }
        current.value
    }

    /// Takes out of the subtree `node` the first node that a descent for
    /// `value` stops at, and hands back the subtree that is left.
    pub fn _delete_recursive(node: Option<Box<TreeNode>>, value: i32) -> (rest: Option<
        Box<TreeNode>,
    >)
        ensures
            shape_of(rest) == shape_of(node).delete(value),
        decreases node,
    {
        match node {
            None => None,
            Some(mut current) => {
                if value < current.value {
                    let left = current.left.take();
                    current.left = Self::_delete_recursive(left, value);
                    Some(current)
                } else if value > current.value {
                    let right = current.right.take();
                    current.right = Self::_delete_recursive(right, value);
                    Some(current)
                } else if current.left.is_none() {
                    current.right
                } else if current.right.is_none() {
                    current.left
                } else {
                    let right = current.right.take().unwrap();
                    let successor = Self::leftmost_value(&right);
                    current.value = successor;
                    current.right = Self::_delete_recursive(Some(right), successor);
                    Some(current)
                }
            },
        }
    }

    /// Appends the keys below `node` to `result`: left subtree, node, right
    /// subtree.
    pub fn _inorder_recursive(node: &Option<Box<TreeNode>>, result: &mut Vec<i32>)
        ensures
            final(result)@ == old(result)@ + shape_of(*node).inorder(),
        decreases *node,
    {
        if let Some(current) = node {
            Self::_inorder_recursive(&current.left, result);
            result.push(current.value);
            Self::_inorder_recursive(&current.right, result);
        }
    }

    /// Appends the keys below `node` to `result`: node, left subtree, right
    /// subtree.
    pub fn _preorder_recursive(node: &Option<Box<TreeNode>>, result: &mut Vec<i32>)
        ensures
            final(result)@ == old(result)@ + shape_of(*node).preorder(),
        decreases *node,
    {
        if let Some(current) = node {
            result.push(current.value);
            Self::_preorder_recursive(&current.left, result);
            Self::_preorder_recursive(&current.right, result);
        }
    }

    /// Appends the keys below `node` to `result`: left subtree, right
    /// subtree, node.
    pub fn _postorder_recursive(node: &Option<Box<TreeNode>>, result: &mut Vec<i32>)
        ensures
            final(result)@ == old(result)@ + shape_of(*node).postorder(),
        decreases *node,
    {
        if let Some(current) = node {
            Self::_postorder_recursive(&current.left, result);
            Self::_postorder_recursive(&current.right, result);
            result.push(current.value);
        }
    }

    /// Appends the picture of the subtree `node` to `out`, with the node
    /// itself as many blanks in as `indent` is long.
    fn _print_recursive(node: &Option<Box<TreeNode>>, indent: &String, out: &mut String)
        requires
            indent@ == spaces(indent@.len()),
        ensures
            final(out)@ == old(out)@ + shape_of(*node).render(indent@.len()),
        decreases *node,
    {
        if let Some(current) = node {
            proof {
                reveal_strlit("    ");
                reveal_strlit(" ");
                reveal_strlit("\n");
            }
            let mut deeper = indent.clone();
            deeper.append("    ");
            assert(deeper@ =~= spaces(indent@.len() + 4));
            Self::_print_recursive(&current.right, &deeper, out);
            if indent.as_str().is_empty() {
                out.append(" ");
            } else {
                out.append(indent.as_str());
            }
            push_decimal(out, current.value);
            out.append("\n");
            Self::_print_recursive(&current.left, &deeper, out);
            assert(out@ =~= old(out)@ + shape_of(*node).render(indent@.len())) by {
                assert(" "@ =~= spaces(1));
                assert("\n"@ =~= seq!['\n']);
            }
        } else {
            assert(out@ =~= old(out)@ + shape_of(*node).render(indent@.len()));
        }
    }

    /// The picture of the tree, turned a quarter to the left: one line for
    /// each node, greater keys above smaller ones, every node four blanks
    /// further in than its parent. The root has one blank in front.
    pub fn print_tree(&self) -> (picture: String)
        ensures
            picture@ == self@.render(0),
    {
        let mut picture = String::new();
        let indent = String::new();
        assert(indent@ =~= spaces(0));
        Self::_print_recursive(&self.root, &indent, &mut picture);
        assert(Seq::<char>::empty() + self@.render(0) =~= self@.render(0));
        picture
    }
}

} // verus!
