//! Stable sorting by an integer key.
use vstd::prelude::*;

verus! {

/// `e` put behind all elements whose key does not exceed its own.
pub open spec fn insert_by<A>(s: Seq<A>, e: A, key: spec_fn(A) -> int) -> Seq<A>
    decreases s.len(),
{
    if s.len() == 0 {
        seq![e]
    } else if key(s.last()) <= key(e) {
        s.push(e)
    } else {
        insert_by(s.drop_last(), e, key).push(s.last())
    }
}

/// The elements in the order of their keys; those with equal keys keep their order.
pub open spec fn sort_by<A>(s: Seq<A>, key: spec_fn(A) -> int) -> Seq<A>
    decreases s.len(),
{
    if s.len() == 0 {
        s
    } else {
        insert_by(sort_by(s.drop_last(), key), s.last(), key)
    }
}

/// The keys do not descend.
pub open spec fn sorted_by<A>(s: Seq<A>, key: spec_fn(A) -> int) -> bool {
    forall|i: int, j: int| 0 <= i < j < s.len() ==> key(s[i]) <= key(s[j])
}

/// Insertion keeps the order.
pub proof fn lemma_insert<A>(s: Seq<A>, e: A, key: spec_fn(A) -> int)
    requires
        sorted_by(s, key),
    ensures
        sorted_by(insert_by(s, e, key), key),
        insert_by(s, e, key).to_multiset() =~= s.to_multiset().insert(e),
        insert_by(s, e, key).len() == s.len() + 1,
    decreases s.len(),
{
    broadcast use vstd::seq_lib::group_to_multiset_ensures;

    if s.len() == 0 {
        assert(seq![e] =~= s.push(e));
    } else if key(s.last()) <= key(e) {
    } else {
        let front = s.drop_last();
        lemma_insert(front, e, key);
        let t = insert_by(front, e, key);
        assert(s =~= front.push(s.last()));
        assert forall|x: A| #[trigger] t.contains(x) implies key(x) <= key(s.last()) by {
            assert(t.to_multiset().contains(x));
            if x != e {
                assert(front.to_multiset().contains(x));
                assert(front.contains(x));
                let i = choose|i: int| 0 <= i < front.len() && front[i] == x;
                assert(s[i] == x);
            }
        }
        assert forall|i: int, j: int| 0 <= i < j < t.push(s.last()).len() implies key(
            t.push(s.last())[i],
        ) <= key(t.push(s.last())[j]) by {
            if j == t.len() {
                assert(t.contains(t[i]));
            }
        }
    }
}

/// Sorting orders the elements and keeps them.
pub proof fn law_sort_orders<A>(s: Seq<A>, key: spec_fn(A) -> int)
    ensures
        sorted_by(sort_by(s, key), key),
        sort_by(s, key).to_multiset() == s.to_multiset(),
        sort_by(s, key).len() == s.len(),
    decreases s.len(),
{
    broadcast use vstd::seq_lib::group_to_multiset_ensures;

    if s.len() > 0 {
        law_sort_orders(s.drop_last(), key);
        lemma_insert(sort_by(s.drop_last(), key), s.last(), key);
        assert(s =~= s.drop_last().push(s.last()));
        assert(sort_by(s, key).to_multiset() =~= s.to_multiset());
    }
}

/// Where an element is put.
pub proof fn lemma_insert_at<A>(s: Seq<A>, e: A, key: spec_fn(A) -> int, i: int)
    requires
        0 <= i <= s.len(),
        i > 0 ==> key(s[i - 1]) <= key(e),
        forall|j: int| i <= j < s.len() ==> key(#[trigger] s[j]) > key(e),
    ensures
        insert_by(s, e, key) == s.insert(i, e),
    decreases s.len(),
{
    if i < s.len() {
        assert(key(s.last()) > key(e));
        let front = s.drop_last();
        lemma_insert_at(front, e, key, i);
        assert(front.insert(i, e).push(s.last()) =~= s.insert(i, e));
    } else {
        assert(s.push(e) =~= s.insert(i, e));
        if s.len() == 0 {
            assert(seq![e] =~= s.insert(i, e));
        }
    }
}

} // verus!
