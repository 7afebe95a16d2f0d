//! What holds of the operations on every tree, proved on the model.

use crate::sequence::{
    insert_sorted, lemma_contains_concat, lemma_insert_sorted_back, lemma_insert_sorted_front,
    lemma_insert_sorted_multiset, lemma_remove_first_absent, lemma_remove_first_back,
    lemma_remove_first_front, lemma_remove_first_len, lemma_remove_first_multiset,
    lemma_remove_first_subset, remove_first, sorted,
};
use crate::shape::Shape;
use vstd::prelude::*;

verus! {

/// The keys of a node's tree are the keys of its left subtree, its own key
/// and the keys of its right subtree.
pub proof fn lemma_fork_contains(left: Shape, value: i32, right: Shape, key: i32)
    ensures
        (Shape::Fork { left: Box::new(left), value, right: Box::new(right) }).contains(key) <==> (
        left.contains(key) || key == value || right.contains(key)),
{
    let front = left.inorder().push(value);
    lemma_contains_concat(front, right.inorder(), key);
    lemma_contains_concat(left.inorder(), seq![value], key);
    assert(front =~= left.inorder() + seq![value]);
    assert(seq![value][0] == value);
}

/// Every traversal visits each node once: the three hold the same keys, as
/// many of each, and as many in all as the tree has nodes.
pub proof fn lemma_traversals_agree(t: Shape)
    ensures
        t.inorder().len() == t.count(),
        t.preorder().len() == t.count(),
        t.postorder().len() == t.count(),
        t.preorder().to_multiset() == t.inorder().to_multiset(),
        t.postorder().to_multiset() == t.inorder().to_multiset(),
    decreases t,
{
    broadcast use vstd::seq_lib::lemma_multiset_commutative;
    broadcast use vstd::seq_lib::to_multiset_build;
    broadcast use vstd::multiset::group_multiset_axioms;

    match t {
        Shape::Empty => {},
        Shape::Fork { left, value, right } => {
            lemma_traversals_agree(*left);
            lemma_traversals_agree(*right);
            let one = seq![value];
            assert(left.preorder() + one =~= left.preorder().push(value));
            assert((one + left.preorder()).to_multiset() =~= (left.preorder()
                + one).to_multiset());
            assert(t.preorder().to_multiset() =~= t.inorder().to_multiset());
            assert(t.postorder().to_multiset() =~= t.inorder().to_multiset());
        },
    }
}

/// In a tree in search order the in-order traversal never steps down.
pub proof fn lemma_inorder_sorted(t: Shape)
    requires
        t.ordered(),
    ensures
        sorted(t.inorder()),
    decreases t,
{
    match t {
        Shape::Empty => {},
        Shape::Fork { left, value, right } => {
            lemma_inorder_sorted(*left);
            lemma_inorder_sorted(*right);
            let a = left.inorder();
            let b = right.inorder();
            let s = t.inorder();
            assert forall|i: int, j: int| 0 <= i < j < s.len() implies s[i] <= s[j] by {
                if i < a.len() {
                    assert(left.contains(a[i]));
                }
                if j > a.len() {
                    assert(right.contains(b[j - a.len() - 1]));
                }
                if i > a.len() {
                    assert(right.contains(b[i - a.len() - 1]));
                }
                if j < a.len() {
                    assert(left.contains(a[j]));
                }
            }
        },
    }
}

/// In a tree in search order a descent meets a key exactly when some node
/// holds it.
pub proof fn lemma_descend_finds(t: Shape, key: i32)
    requires
        t.ordered(),
    ensures
        t.descend(key) == t.contains(key),
    decreases t,
{
    match t {
        Shape::Empty => {},
        Shape::Fork { left, value, right } => {
            lemma_fork_contains(*left, value, *right, key);
            lemma_descend_finds(*left, key);
            lemma_descend_finds(*right, key);
        },
    }
}

/// The keys after an insertion are the new key and the keys from before.
pub proof fn lemma_insert_contains(t: Shape, key: i32, other: i32)
    ensures
        t.insert(key).contains(other) <==> (other == key || t.contains(other)),
    decreases t,
{
    match t {
        Shape::Empty => {
            lemma_fork_contains(Shape::Empty, key, Shape::Empty, other);
        },
        Shape::Fork { left, value, right } => {
            lemma_fork_contains(*left, value, *right, other);
            if key < value {
                lemma_insert_contains(*left, key, other);
                lemma_fork_contains(left.insert(key), value, *right, other);
            } else {
                lemma_insert_contains(*right, key, other);
                lemma_fork_contains(*left, value, right.insert(key), other);
            }
        },
    }
}

/// An insertion adds one node.
pub proof fn lemma_insert_count(t: Shape, key: i32)
    ensures
        t.insert(key).count() == t.count() + 1,
    decreases t,
{
    match t {
        Shape::Empty => {},
        Shape::Fork { left, value, right } => {
            if key < value {
                lemma_insert_count(*left, key);
            } else {
                lemma_insert_count(*right, key);
            }
        },
    }
}

/// An insertion keeps the search order.
pub proof fn lemma_insert_ordered(t: Shape, key: i32)
    requires
        t.ordered(),
    ensures
        t.insert(key).ordered(),
    decreases t,
{
    match t {
        Shape::Empty => {},
        Shape::Fork { left, value, right } => {
            if key < value {
                lemma_insert_ordered(*left, key);
                assert forall|k: i32| #[trigger] left.insert(key).contains(k) implies k
                    < value by {
                    lemma_insert_contains(*left, key, k);
                }
            } else {
                lemma_insert_ordered(*right, key);
                assert forall|k: i32| #[trigger] right.insert(key).contains(k) implies value
                    <= k by {
                    lemma_insert_contains(*right, key, k);
                }
            }
        },
    }
}

/// In a tree in search order an insertion puts the key into the in-order
/// traversal behind the last key that is not greater, and moves no other.
pub proof fn lemma_insert_inorder(t: Shape, key: i32)
    requires
        t.ordered(),
    ensures
        t.insert(key).inorder() == insert_sorted(t.inorder(), key),
    decreases t,
{
    match t {
        Shape::Empty => {
            assert(t.insert(key).inorder() =~= seq![key]);
            assert(insert_sorted(Seq::<i32>::empty(), key) =~= seq![key]);
        },
        Shape::Fork { left, value, right } => {
            let a = left.inorder();
            let b = right.inorder();
            if key < value {
                lemma_insert_inorder(*left, key);
                let back = seq![value] + b;
                assert(t.inorder() =~= a + back);
                lemma_insert_sorted_front(a, back, key);
                assert(t.insert(key).inorder() =~= insert_sorted(a, key) + back);
            } else {
                lemma_insert_inorder(*right, key);
                let front = a.push(value);
                assert forall|i: int| 0 <= i < front.len() implies front[i] <= key by {
                    if i < a.len() {
                        assert(left.contains(a[i]));
                    }
                }
                lemma_insert_sorted_back(front, b, key);
            }
        },
    }
}

/// The in-order traversal of a tree with a node starts at its leftmost key.
pub proof fn lemma_leftmost_first(t: Shape)
    requires
        t is Fork,
    ensures
        t.inorder().len() > 0,
        t.inorder()[0] == t.leftmost(),
    decreases t,
{
    match t {
        Shape::Empty => {},
        Shape::Fork { left, value, right } => {
            if *left is Fork {
                lemma_leftmost_first(*left);
            }
        },
    }
}

/// In a tree in search order a deletion takes the first occurrence of the
/// key out of the in-order traversal and moves no other key; where the key
/// does not occur the traversal stays as it is.
pub proof fn lemma_delete_inorder(t: Shape, key: i32)
    requires
        t.ordered(),
    ensures
        t.delete(key).inorder() == remove_first(t.inorder(), key),
    decreases t,
{
    match t {
        Shape::Empty => {},
        Shape::Fork { left, value, right } => {
            let a = left.inorder();
            let b = right.inorder();
            let back = seq![value] + b;
            assert(t.inorder() =~= a + back);
            assert(back[0] == value);
            assert(back.skip(1) =~= b);
            if key < value {
                lemma_delete_inorder(*left, key);
                if a.contains(key) {
                    lemma_remove_first_front(a, back, key);
                    assert(t.delete(key).inorder() =~= remove_first(a, key) + back);
                } else {
                    lemma_remove_first_absent(a, key);
                    lemma_fork_contains(*left, value, *right, key);
                    assert(!right.contains(key));
                    lemma_remove_first_absent(t.inorder(), key);
                }
            } else if key > value {
                lemma_delete_inorder(*right, key);
                let front = a.push(value);
                lemma_contains_concat(a, seq![value], key);
                assert(front =~= a + seq![value]);
                assert(seq![value][0] == value);
                assert(!left.contains(key));
                assert(!front.contains(key));
                lemma_remove_first_back(front, b, key);
            } else {
                assert(!left.contains(key));
                lemma_remove_first_back(a, back, key);
                assert(remove_first(back, key) == b);
                if *left is Empty {
                    assert(a + b =~= b);
                } else if *right is Empty {
                    assert(a + b =~= a);
                } else {
                    let least = right.leftmost();
                    lemma_leftmost_first(*right);
                    lemma_delete_inorder(*right, least);
                    assert(remove_first(b, least) == b.skip(1));
                    assert(a.push(least) + b.skip(1) =~= a + b);
                }
            }
        },
    }
}

/// The keys after a deletion were keys before it.
pub proof fn lemma_delete_subset(t: Shape, key: i32, other: i32)
    requires
        t.ordered(),
        t.delete(key).contains(other),
    ensures
        t.contains(other),
{
    lemma_delete_inorder(t, key);
    lemma_remove_first_subset(t.inorder(), key, other);
}

/// A deletion keeps the search order.
pub proof fn lemma_delete_ordered(t: Shape, key: i32)
    requires
        t.ordered(),
    ensures
        t.delete(key).ordered(),
    decreases t,
{
    match t {
        Shape::Empty => {},
        Shape::Fork { left, value, right } => {
            if key < value {
                lemma_delete_ordered(*left, key);
                assert forall|k: i32| #[trigger] left.delete(key).contains(k) implies k
                    < value by {
                    lemma_delete_subset(*left, key, k);
                }
            } else if key > value {
                lemma_delete_ordered(*right, key);
                assert forall|k: i32| #[trigger] right.delete(key).contains(k) implies value
                    <= k by {
                    lemma_delete_subset(*right, key, k);
                }
            } else if *left is Empty {
            } else if *right is Empty {
            } else {
                let least = right.leftmost();
                lemma_leftmost_first(*right);
                lemma_inorder_sorted(*right);
                lemma_delete_ordered(*right, least);
                let b = right.inorder();
                assert(right.contains(least)) by {
                    assert(b[0] == least);
                }
                assert forall|k: i32| #[trigger] right.delete(least).contains(k) implies least
                    <= k by {
                    lemma_delete_subset(*right, least, k);
                    let i = choose|i: int| 0 <= i < b.len() && b[i] == k;
                    assert(b[0] <= b[i]);
                }
            }
        },
    }
}

/// In a tree in search order a deletion takes one node away where the key
/// occurs, and none where it does not.
pub proof fn lemma_delete_count(t: Shape, key: i32)
    requires
        t.ordered(),
    ensures
        t.contains(key) ==> t.delete(key).count() == t.count() - 1,
        !t.contains(key) ==> t.delete(key) == t,
    decreases t,
{
    lemma_delete_inorder(t, key);
    lemma_remove_first_len(t.inorder(), key);
    lemma_traversals_agree(t);
    lemma_traversals_agree(t.delete(key));
    match t {
        Shape::Empty => {},
        Shape::Fork { left, value, right } => {
            lemma_fork_contains(*left, value, *right, key);
            if key < value {
                lemma_delete_count(*left, key);
            } else if key > value {
                lemma_delete_count(*right, key);
            }
        },
    }
}

/// A node holds a key exactly when the multiset of keys counts it.
pub proof fn lemma_contains_keys(t: Shape, key: i32)
    ensures
        t.contains(key) <==> t.keys().count(key) > 0,
{
    broadcast use vstd::seq_lib::to_multiset_contains;

}

/// In a tree in search order an insertion adds the key once to the multiset
/// of keys and leaves the other keys as they are.
pub proof fn lemma_insert_keys(t: Shape, key: i32)
    requires
        t.ordered(),
    ensures
        t.insert(key).keys() == t.keys().insert(key),
{
    lemma_insert_inorder(t, key);
    lemma_insert_sorted_multiset(t.inorder(), key);
}

/// In a tree in search order a deletion takes the key once out of the
/// multiset of keys, if it is there, and leaves the other keys as they are.
pub proof fn lemma_delete_keys(t: Shape, key: i32)
    requires
        t.ordered(),
    ensures
        t.delete(key).keys() == t.keys().remove(key),
{
    lemma_delete_inorder(t, key);
    lemma_remove_first_multiset(t.inorder(), key);
}

/// After an insertion a search finds the new key, and any other key exactly
/// when it found it before.
pub proof fn lemma_search_after_insert(t: Shape, key: i32, other: i32)
    requires
        t.ordered(),
    ensures
        t.insert(key).descend(other) == (other == key || t.descend(other)),
{
    lemma_insert_ordered(t, key);
    lemma_descend_finds(t, other);
    lemma_descend_finds(t.insert(key), other);
    lemma_insert_contains(t, key, other);
}

/// After a deletion a search finds the deleted key exactly when the tree held
/// it more than once, and any other key exactly when it found it before.
pub proof fn lemma_search_after_delete(t: Shape, key: i32, other: i32)
    requires
        t.ordered(),
    ensures
        t.delete(key).descend(other) == if other == key {
            t.keys().count(key) >= 2
        } else {
            t.descend(other)
        },
{
    broadcast use vstd::multiset::group_multiset_axioms;

    lemma_delete_ordered(t, key);
    lemma_descend_finds(t, other);
    lemma_descend_finds(t.delete(key), other);
    lemma_delete_keys(t, key);
    lemma_contains_keys(t, other);
    lemma_contains_keys(t.delete(key), other);
}

/// Where the tree holds a key at most once, a search does not find it after
/// its deletion.
pub proof fn lemma_delete_then_search(t: Shape, key: i32)
    requires
        t.ordered(),
        t.keys().count(key) <= 1,
    ensures
        !t.delete(key).descend(key),
        !t.delete(key).contains(key),
{
    lemma_search_after_delete(t, key, key);
    lemma_delete_ordered(t, key);
    lemma_descend_finds(t.delete(key), key);
}

/// A key that is inserted twice is held twice more: the tree has two more
/// nodes, both occurrences are in the in-order traversal, which is still
/// sorted, and a search finds the key.
pub proof fn lemma_insert_twice(t: Shape, key: i32)
    requires
        t.ordered(),
    ensures
        t.insert(key).insert(key).ordered(),
        t.insert(key).insert(key).count() == t.count() + 2,
        t.insert(key).insert(key).keys().count(key) == t.keys().count(key) + 2,
        t.insert(key).insert(key).inorder() == insert_sorted(
            insert_sorted(t.inorder(), key),
            key,
        ),
        sorted(t.insert(key).insert(key).inorder()),
        t.insert(key).insert(key).descend(key),
{
    broadcast use vstd::multiset::group_multiset_axioms;

    let once = t.insert(key);
    let twice = once.insert(key);
    lemma_insert_ordered(t, key);
    lemma_insert_ordered(once, key);
    lemma_insert_count(t, key);
    lemma_insert_count(once, key);
    lemma_insert_keys(t, key);
    lemma_insert_keys(once, key);
    lemma_insert_inorder(t, key);
    lemma_insert_inorder(once, key);
    lemma_inorder_sorted(twice);
    lemma_search_after_insert(once, key, key);
}

} // verus!
