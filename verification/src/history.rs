//! Trees as the outcome of a sequence of insertions and deletions that
//! starts at the empty tree, and what holds after every such sequence.

use crate::laws::{
    lemma_delete_count, lemma_delete_keys, lemma_delete_ordered, lemma_descend_finds,
    lemma_contains_keys, lemma_inorder_sorted, lemma_insert_count, lemma_insert_keys,
    lemma_insert_ordered, lemma_traversals_agree,
};
use crate::sequence::sorted;
use crate::shape::Shape;
use vstd::multiset::Multiset;
use vstd::prelude::*;

verus! {

/// One change of a tree.
pub enum Step {
    /// The insertion of a key.
    Insert(i32),
    /// The deletion of a key.
    Delete(i32),
}

/// The tree that the steps make of the empty tree.
pub open spec fn shape_after(steps: Seq<Step>) -> Shape
    decreases steps.len(),
{
    if steps.len() == 0 {
        Shape::Empty
    } else {
        let before = shape_after(steps.drop_last());
        match steps.last() {
            Step::Insert(key) => before.insert(key),
            Step::Delete(key) => before.delete(key),
        }
    }
}

/// The count that a tree keeps after the steps: one up for an insertion, one
/// down for a deletion, but not below zero.
pub open spec fn size_after(steps: Seq<Step>) -> nat
    decreases steps.len(),
{
    if steps.len() == 0 {
        0
    } else {
        let before = size_after(steps.drop_last());
        match steps.last() {
            Step::Insert(key) => before + 1,
            Step::Delete(key) => if before == 0 {
                0
            } else {
                (before - 1) as nat
            },
        }
    }
}

/// The keys that the steps leave: every inserted key as often as it was
/// inserted, less the times it was deleted while it was there.
pub open spec fn keys_after(steps: Seq<Step>) -> Multiset<i32>
    decreases steps.len(),
{
    if steps.len() == 0 {
        Multiset::empty()
    } else {
        let before = keys_after(steps.drop_last());
        match steps.last() {
            Step::Insert(key) => before.insert(key),
            Step::Delete(key) => before.remove(key),
        }
    }
}

/// The number of insertions among the steps.
pub open spec fn inserts(steps: Seq<Step>) -> nat
    decreases steps.len(),
{
    if steps.len() == 0 {
        0
    } else if steps.last() is Insert {
        inserts(steps.drop_last()) + 1
    } else {
        inserts(steps.drop_last())
    }
}

/// The number of deletions among the steps.
pub open spec fn deletes(steps: Seq<Step>) -> nat
    decreases steps.len(),
{
    if steps.len() == 0 {
        0
    } else if steps.last() is Delete {
        deletes(steps.drop_last()) + 1
    } else {
        deletes(steps.drop_last())
    }
}

/// Every deletion among the steps is of a key that the tree held just
/// before it.
pub open spec fn deletes_hit(steps: Seq<Step>) -> bool
    decreases steps.len(),
{
    if steps.len() == 0 {
        true
    } else {
        &&& deletes_hit(steps.drop_last())
        &&& match steps.last() {
            Step::Insert(key) => true,
            Step::Delete(key) => shape_after(steps.drop_last()).contains(key),
        }
    }
}

/// After any steps the tree is in search order, and its in-order traversal
/// never steps down.
pub proof fn lemma_history_ordered(steps: Seq<Step>)
    ensures
        shape_after(steps).ordered(),
        sorted(shape_after(steps).inorder()),
    decreases steps.len(),
{
    if steps.len() > 0 {
        let before = shape_after(steps.drop_last());
        lemma_history_ordered(steps.drop_last());
        match steps.last() {
            Step::Insert(key) => lemma_insert_ordered(before, key),
            Step::Delete(key) => lemma_delete_ordered(before, key),
        }
    }
    lemma_inorder_sorted(shape_after(steps));
}

/// After any steps the tree holds the keys that the steps leave, each as
/// often as they leave it.
pub proof fn lemma_history_keys(steps: Seq<Step>)
    ensures
        shape_after(steps).keys() == keys_after(steps),
    decreases steps.len(),
{
    broadcast use vstd::seq_lib::to_multiset_len;

    if steps.len() == 0 {
        assert(shape_after(steps).keys().len() == 0);
        assert(shape_after(steps).keys() =~= Multiset::empty());
    } else {
        let before = shape_after(steps.drop_last());
        lemma_history_ordered(steps.drop_last());
        lemma_history_keys(steps.drop_last());
        match steps.last() {
            Step::Insert(key) => lemma_insert_keys(before, key),
            Step::Delete(key) => lemma_delete_keys(before, key),
        }
    }
}

/// After any steps a search finds a key exactly when the steps leave it: it
/// was inserted more often than it was deleted while it was there. A key that
/// was never inserted is not found.
pub proof fn lemma_history_search(steps: Seq<Step>, key: i32)
    ensures
        shape_after(steps).descend(key) <==> keys_after(steps).count(key) > 0,
        (forall|i: int| 0 <= i < steps.len() ==> steps[i] != Step::Insert(key))
            ==> !shape_after(steps).descend(key),
{
    lemma_history_ordered(steps);
    lemma_history_keys(steps);
    lemma_descend_finds(shape_after(steps), key);
    lemma_contains_keys(shape_after(steps), key);
    if forall|i: int| 0 <= i < steps.len() ==> steps[i] != Step::Insert(key) {
        lemma_never_inserted(steps, key);
    }
}

/// The steps leave no key that they never inserted.
pub proof fn lemma_never_inserted(steps: Seq<Step>, key: i32)
    requires
        forall|i: int| 0 <= i < steps.len() ==> steps[i] != Step::Insert(key),
    ensures
        keys_after(steps).count(key) == 0,
    decreases steps.len(),
{
    broadcast use vstd::multiset::group_multiset_axioms;

    if steps.len() > 0 {
        let earlier = steps.drop_last();
        assert forall|i: int| 0 <= i < earlier.len() implies earlier[i] != Step::Insert(key) by {
            assert(earlier[i] == steps[i]);
        }
        lemma_never_inserted(earlier, key);
        assert(steps.last() == steps[steps.len() - 1]);
    }
}

/// After any steps the count that the tree keeps does not exceed the number
/// of its nodes.
pub proof fn lemma_history_size_bound(steps: Seq<Step>)
    ensures
        size_after(steps) <= shape_after(steps).count(),
    decreases steps.len(),
{
    if steps.len() > 0 {
        let before = shape_after(steps.drop_last());
        lemma_history_ordered(steps.drop_last());
        lemma_history_size_bound(steps.drop_last());
        match steps.last() {
            Step::Insert(key) => lemma_insert_count(before, key),
            Step::Delete(key) => lemma_delete_count(before, key),
        }
    }
}

/// Where every deletion was of a key that the tree held, the count that the
/// tree keeps is the number of insertions less the number of deletions, and
/// it is the number of nodes, and so the length of every traversal.
pub proof fn lemma_history_size(steps: Seq<Step>)
    requires
        deletes_hit(steps),
    ensures
        size_after(steps) == inserts(steps) - deletes(steps),
        size_after(steps) == shape_after(steps).count(),
        size_after(steps) == shape_after(steps).inorder().len(),
        size_after(steps) == shape_after(steps).preorder().len(),
        size_after(steps) == shape_after(steps).postorder().len(),
    decreases steps.len(),
{
    lemma_traversals_agree(shape_after(steps));
    if steps.len() > 0 {
        let before = shape_after(steps.drop_last());
        lemma_history_ordered(steps.drop_last());
        lemma_history_size(steps.drop_last());
        lemma_traversals_agree(before);
        match steps.last() {
            Step::Insert(key) => lemma_insert_count(before, key),
            Step::Delete(key) => {
                lemma_delete_count(before, key);
                assert(before.inorder().len() > 0);
            },
        }
    }
}

} // verus!
