//! Sequences of keys: what it means to put a key into a sorted sequence and
//! to take the first occurrence of a key out of one.

use vstd::prelude::*;

verus! {

/// No key is followed by a smaller one.
pub open spec fn sorted(s: Seq<i32>) -> bool {
    forall|i: int, j: int| 0 <= i < j < s.len() ==> s[i] <= s[j]
}

/// `s` with `key` put in front of its first greater key, or at the end where
/// there is none. In a sorted sequence that is behind the last key that is
/// not greater.
pub open spec fn insert_sorted(s: Seq<i32>, key: i32) -> Seq<i32>
    decreases s.len(),
{
    if s.len() == 0 || key < s[0] {
        seq![key] + s
    } else {
        seq![s[0]] + insert_sorted(s.skip(1), key)
    }
}

/// `s` without its first occurrence of `key`; `s` itself where it has none.
pub open spec fn remove_first(s: Seq<i32>, key: i32) -> Seq<i32>
    decreases s.len(),
{
    if s.len() == 0 {
        s
    } else if s[0] == key {
        s.skip(1)
    } else {
        seq![s[0]] + remove_first(s.skip(1), key)
    }
}

/// A key of a concatenation is a key of one of its parts.
pub proof fn lemma_contains_concat(front: Seq<i32>, back: Seq<i32>, key: i32)
    ensures
        (front + back).contains(key) <==> front.contains(key) || back.contains(key),
{
    let whole = front + back;
    if front.contains(key) {
        let i = choose|i: int| 0 <= i < front.len() && front[i] == key;
        assert(whole[i] == key);
    }
    if back.contains(key) {
        let i = choose|i: int| 0 <= i < back.len() && back[i] == key;
        assert(whole[front.len() + i] == key);
    }
    if whole.contains(key) {
        let i = choose|i: int| 0 <= i < whole.len() && whole[i] == key;
        if i < front.len() {
            assert(front[i] == key);
        } else {
            assert(back[i - front.len()] == key);
        }
    }
}

/// What is left after a removal was there before.
pub proof fn lemma_remove_first_subset(s: Seq<i32>, key: i32, other: i32)
    requires
        remove_first(s, key).contains(other),
    ensures
        s.contains(other),
    decreases s.len(),
{
    if s.len() > 0 {
        let rest = s.skip(1);
        if s[0] == key {
            let i = choose|i: int| 0 <= i < rest.len() && rest[i] == other;
            assert(s[i + 1] == other);
        } else {
            lemma_contains_concat(seq![s[0]], remove_first(rest, key), other);
            if seq![s[0]].contains(other) {
                assert(s[0] == other);
            } else {
                lemma_remove_first_subset(rest, key, other);
                let i = choose|i: int| 0 <= i < rest.len() && rest[i] == other;
                assert(s[i + 1] == other);
            }
        }
    }
}

/// A removal takes one key where the key occurs, and none where it does not.
pub proof fn lemma_remove_first_len(s: Seq<i32>, key: i32)
    ensures
        s.contains(key) ==> remove_first(s, key).len() == s.len() - 1,
        !s.contains(key) ==> remove_first(s, key).len() == s.len(),
    decreases s.len(),
{
    if s.len() > 0 {
        let rest = s.skip(1);
        if s[0] == key {
            assert(s.contains(key));
        } else {
            lemma_remove_first_len(rest, key);
            lemma_contains_concat(seq![s[0]], rest, key);
            assert(seq![s[0]] + rest =~= s);
            assert(!seq![s[0]].contains(key));
        }
    }
}

/// As a multiset, the sequence after an insertion holds the key once more.
pub proof fn lemma_insert_sorted_multiset(s: Seq<i32>, key: i32)
    ensures
        insert_sorted(s, key).to_multiset() == s.to_multiset().insert(key),
    decreases s.len(),
{
    broadcast use vstd::seq_lib::lemma_multiset_commutative;
    broadcast use vstd::seq_lib::to_multiset_build;
    broadcast use vstd::multiset::group_multiset_axioms;

    if s.len() == 0 || key < s[0] {
        assert(s + seq![key] =~= s.push(key));
        assert((seq![key] + s).to_multiset() =~= (s + seq![key]).to_multiset());
    } else {
        let rest = s.skip(1);
        lemma_insert_sorted_multiset(rest, key);
        assert(seq![s[0]] + rest =~= s);
        assert(insert_sorted(s, key).to_multiset() =~= s.to_multiset().insert(key));
    }
}

/// As a multiset, the sequence after a removal holds the key once less, and
/// not less than never.
pub proof fn lemma_remove_first_multiset(s: Seq<i32>, key: i32)
    ensures
        remove_first(s, key).to_multiset() == s.to_multiset().remove(key),
    decreases s.len(),
{
    broadcast use vstd::seq_lib::lemma_multiset_commutative;
    broadcast use vstd::seq_lib::to_multiset_build;
    broadcast use vstd::seq_lib::to_multiset_contains;
    broadcast use vstd::multiset::group_multiset_axioms;

    if s.len() == 0 {
        assert(!s.contains(key));
        assert(s.to_multiset() =~= s.to_multiset().remove(key));
    } else {
        let rest = s.skip(1);
        let head = seq![s[0]];
        assert(head + rest =~= s);
        assert(rest + head =~= rest.push(s[0]));
        assert((head + rest).to_multiset() =~= (rest + head).to_multiset());
        if s[0] == key {
            assert(rest.to_multiset() =~= s.to_multiset().remove(key));
        } else {
            lemma_remove_first_multiset(rest, key);
            let less = remove_first(rest, key);
            assert(less + head =~= less.push(s[0]));
            assert((head + less).to_multiset() =~= (less + head).to_multiset());
            assert(remove_first(s, key).to_multiset() =~= s.to_multiset().remove(key));
        }
    }
}

/// A key put into `s` lands at index `at` when the keys before `at` are not
/// greater and the keys from `at` on are greater.
pub proof fn lemma_insert_sorted_at(s: Seq<i32>, key: i32, at: int)
    requires
        0 <= at <= s.len(),
        forall|j: int| 0 <= j < at ==> s[j] <= key,
        forall|j: int| at <= j < s.len() ==> key < s[j],
    ensures
        insert_sorted(s, key) == s.insert(at, key),
    decreases s.len(),
{
    if s.len() == 0 || key < s[0] {
        assert(at == 0);
        assert(s.insert(at, key) =~= seq![key] + s);
    } else {
        let rest = s.skip(1);
        assert(at > 0);
        lemma_insert_sorted_at(rest, key, at - 1);
        assert(s.insert(at, key) =~= seq![s[0]] + rest.insert(at - 1, key));
    }
}

/// Taking `key` out of `s` removes index `at` when `at` is the first index
/// that holds `key`.
pub proof fn lemma_remove_first_at(s: Seq<i32>, key: i32, at: int)
    requires
        0 <= at < s.len(),
        s[at] == key,
        forall|j: int| 0 <= j < at ==> s[j] != key,
    ensures
        remove_first(s, key) == s.remove(at),
    decreases s.len(),
{
    if s[0] == key {
        assert(at == 0);
        assert(s.remove(0) =~= s.skip(1));
    } else {
        let rest = s.skip(1);
        lemma_remove_first_at(rest, key, at - 1);
        assert(s.remove(at) =~= seq![s[0]] + rest.remove(at - 1));
    }
}

/// A sequence that does not hold `key` loses nothing.
pub proof fn lemma_remove_first_absent(s: Seq<i32>, key: i32)
    requires
        !s.contains(key),
    ensures
        remove_first(s, key) == s,
    decreases s.len(),
{
    if s.len() > 0 {
        let rest = s.skip(1);
        assert(s[0] != key);
        assert forall|k: i32| rest.contains(k) implies s.contains(k) by {
            let i = choose|i: int| 0 <= i < rest.len() && rest[i] == k;
            assert(s[i + 1] == k);
        }
        lemma_remove_first_absent(rest, key);
        assert(seq![s[0]] + rest =~= s);
    }
}

/// A key that is smaller than the first key of `back` is put into `front`.
pub proof fn lemma_insert_sorted_front(front: Seq<i32>, back: Seq<i32>, key: i32)
    requires
        back.len() > 0,
        key < back[0],
    ensures
        insert_sorted(front + back, key) == insert_sorted(front, key) + back,
    decreases front.len(),
{
    let whole = front + back;
    if front.len() == 0 {
        assert(whole =~= back);
        assert(insert_sorted(front, key) + back =~= seq![key] + back);
    } else if key < front[0] {
        assert(whole[0] == front[0]);
        assert(seq![key] + whole =~= (seq![key] + front) + back);
    } else {
        assert(whole[0] == front[0]);
        assert(whole.skip(1) =~= front.skip(1) + back);
        lemma_insert_sorted_front(front.skip(1), back, key);
        assert(seq![front[0]] + (insert_sorted(front.skip(1), key) + back) =~= (seq![front[0]]
            + insert_sorted(front.skip(1), key)) + back);
    }
}

/// A key that no key of `front` exceeds is put into `back`.
pub proof fn lemma_insert_sorted_back(front: Seq<i32>, back: Seq<i32>, key: i32)
    requires
        forall|i: int| 0 <= i < front.len() ==> front[i] <= key,
    ensures
        insert_sorted(front + back, key) == front + insert_sorted(back, key),
    decreases front.len(),
{
    let whole = front + back;
    if front.len() == 0 {
        assert(whole =~= back);
        assert(front + insert_sorted(back, key) =~= insert_sorted(back, key));
    } else {
        assert(whole[0] == front[0]);
        assert(whole.skip(1) =~= front.skip(1) + back);
        lemma_insert_sorted_back(front.skip(1), back, key);
        assert(seq![front[0]] + (front.skip(1) + insert_sorted(back, key)) =~= front
            + insert_sorted(back, key));
    }
}

/// The first occurrence of a key that `front` holds is taken out of `front`.
pub proof fn lemma_remove_first_front(front: Seq<i32>, back: Seq<i32>, key: i32)
    requires
        front.contains(key),
    ensures
        remove_first(front + back, key) == remove_first(front, key) + back,
    decreases front.len(),
{
    let whole = front + back;
    assert(front.len() > 0);
    assert(whole[0] == front[0]);
    assert(whole.skip(1) =~= front.skip(1) + back);
    if front[0] != key {
        let i = choose|i: int| 0 <= i < front.len() && front[i] == key;
        assert(front.skip(1)[i - 1] == key);
        lemma_remove_first_front(front.skip(1), back, key);
        assert(seq![front[0]] + (remove_first(front.skip(1), key) + back) =~= (seq![front[0]]
            + remove_first(front.skip(1), key)) + back);
    }
}

/// The first occurrence of a key that `front` lacks is taken out of `back`.
pub proof fn lemma_remove_first_back(front: Seq<i32>, back: Seq<i32>, key: i32)
    requires
        !front.contains(key),
    ensures
        remove_first(front + back, key) == front + remove_first(back, key),
    decreases front.len(),
{
    let whole = front + back;
    if front.len() == 0 {
        assert(whole =~= back);
        assert(front + remove_first(back, key) =~= remove_first(back, key));
    } else {
        assert(whole[0] == front[0]);
        assert(front[0] != key);
        assert(whole.skip(1) =~= front.skip(1) + back);
        assert forall|k: i32| front.skip(1).contains(k) implies front.contains(k) by {
            let i = choose|i: int| 0 <= i < front.skip(1).len() && front.skip(1)[i] == k;
            assert(front[i + 1] == k);
        }
        lemma_remove_first_back(front.skip(1), back, key);
        assert(seq![front[0]] + (front.skip(1) + remove_first(back, key)) =~= front
            + remove_first(back, key));
    }
}

} // verus!
