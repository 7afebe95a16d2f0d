//! The mathematical model: a binary tree of keys, and what each operation
//! of the library means on it.

use crate::text::line;
use vstd::multiset::Multiset;
use vstd::prelude::*;

verus! {

/// A binary tree of keys, as a mathematical value.
pub enum Shape {
    /// The tree without nodes.
    Empty,
    /// A node with its key and its two subtrees.
    Fork { left: Box<Shape>, value: i32, right: Box<Shape> },
}

impl Shape {
    /// The tree of one node.
    pub open spec fn leaf(value: i32) -> Shape {
        Shape::Fork { left: Box::new(Shape::Empty), value, right: Box::new(Shape::Empty) }
    }

    /// The number of nodes.
    pub open spec fn count(self) -> nat
        decreases self,
    {
        match self {
            Shape::Empty => 0,
            Shape::Fork { left, value, right } => left.count() + 1 + right.count(),
        }
    }

    /// The keys, left subtree first, then the node, then the right subtree.
    pub open spec fn inorder(self) -> Seq<i32>
        decreases self,
    {
        match self {
            Shape::Empty => Seq::empty(),
            Shape::Fork { left, value, right } => left.inorder().push(value) + right.inorder(),
        }
    }

    /// The keys, the node first, then the left subtree, then the right one.
    pub open spec fn preorder(self) -> Seq<i32>
        decreases self,
    {
        match self {
            Shape::Empty => Seq::empty(),
            Shape::Fork { left, value, right } => seq![value] + left.preorder() + right.preorder(),
        }
    }

    /// The keys, left subtree first, then the right one, then the node.
    pub open spec fn postorder(self) -> Seq<i32>
        decreases self,
    {
        match self {
            Shape::Empty => Seq::empty(),
            Shape::Fork { left, value, right } => (left.postorder() + right.postorder()).push(
                value,
            ),
        }
    }

    /// The keys as a multiset: each key as often as nodes hold it.
    pub open spec fn keys(self) -> Multiset<i32> {
        self.inorder().to_multiset()
    }

    /// Whether some node holds `key`.
    pub open spec fn contains(self, key: i32) -> bool {
        self.inorder().contains(key)
    }

    /// The search order: below every node, the keys to the left are smaller
    /// than the node's key, and the keys to the right are not smaller.
    pub open spec fn ordered(self) -> bool
        decreases self,
    {
        match self {
            Shape::Empty => true,
            Shape::Fork { left, value, right } => {
                &&& left.ordered()
                &&& right.ordered()
                &&& forall|k: i32| #[trigger] left.contains(k) ==> k < value
                &&& forall|k: i32| #[trigger] right.contains(k) ==> value <= k
            },
        }
    }

    /// The answer of a descent for `key`: stop at an equal key, go left for
    /// a smaller one and right for a greater one.
    pub open spec fn descend(self, key: i32) -> bool
        decreases self,
    {
        match self {
            Shape::Empty => false,
            Shape::Fork { left, value, right } => if key == value {
                true
            } else if key < value {
                left.descend(key)
            } else {
                right.descend(key)
            },
        }
    }

    /// The tree with a new leaf for `key`, at the end of the descent that
    /// goes left for a smaller key and right otherwise.
    pub open spec fn insert(self, key: i32) -> Shape
        decreases self,
    {
        match self {
            Shape::Empty => Shape::leaf(key),
            Shape::Fork { left, value, right } => if key < value {
                Shape::Fork { left: Box::new(left.insert(key)), value, right }
            } else {
                Shape::Fork { left, value, right: Box::new(right.insert(key)) }
            },
        }
    }

    /// The key of the leftmost node; of the empty tree, 0.
    pub open spec fn leftmost(self) -> i32
        decreases self,
    {
        match self {
            Shape::Empty => 0,
            Shape::Fork { left, value, right } => if *left is Empty {
                value
            } else {
                left.leftmost()
            },
        }
    }

    /// The tree without the first node that a descent for `key` stops at.
    ///
    /// A node with at most one subtree gives way to that subtree. A node
    /// with two takes the leftmost key of its right subtree, which loses that
    /// key in the same way.
    pub open spec fn delete(self, key: i32) -> Shape
        decreases self,
    {
        match self {
            Shape::Empty => Shape::Empty,
            Shape::Fork { left, value, right } => if key < value {
                Shape::Fork { left: Box::new(left.delete(key)), value, right }
            } else if key > value {
                Shape::Fork { left, value, right: Box::new(right.delete(key)) }
            } else if *left is Empty {
                *right
            } else if *right is Empty {
                *left
            } else {
                Shape::Fork {
                    left,
                    value: right.leftmost(),
                    right: Box::new(right.delete(right.leftmost())),
                }
            },
        }
    }

    /// The picture of the tree, one line for each node: the right subtree
    /// above the node and the left subtree below it, both four blanks
    /// further in than the node, which stands `indent` blanks in.
    pub open spec fn render(self, indent: nat) -> Seq<char>
        decreases self,
    {
        match self {
            Shape::Empty => Seq::empty(),
            Shape::Fork { left, value, right } => right.render(indent + 4) + line(indent, value)
                + left.render(indent + 4),
        }
    }
}

} // verus!
