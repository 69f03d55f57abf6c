//! How logical indices are spread over the slots, and what a rearrangement of
//! the slots keeps.

use vstd::prelude::*;
use vstd::relations::{sorted_by, total_ordering};
use vstd::seq_lib::{
    lemma_multiset_commutative, lemma_sorted_unique, to_multiset_contains, to_multiset_len,
};
use crate::block::DUMMY_INDEX;

verus! {

/// The logical indices of `capacity` slots in their home order: slot `i`
/// holds index `i` below `m`, the other slots hold no index.
pub open spec fn home_order(m: int, capacity: int) -> Seq<u32> {
    Seq::new(
        capacity as nat,
        |i: int|
            if i < m {
                i as u32
            } else {
                DUMMY_INDEX
            },
    )
}

/// Sequences with the same elements keep them under a function.
pub proof fn lemma_bag_map<A, B>(a: Seq<A>, b: Seq<A>, f: spec_fn(A) -> B)
    requires
        a.to_multiset() == b.to_multiset(),
    ensures
        a.map_values(f).to_multiset() == b.map_values(f).to_multiset(),
    decreases a.len(),
{
    broadcast use vstd::seq_lib::group_to_multiset_ensures;
    broadcast use vstd::multiset::group_multiset_axioms;

    to_multiset_len(a);
    to_multiset_len(b);
    assert(a.len() == b.len());
    if a.len() == 0 {
        assert(a.map_values(f) =~= b.map_values(f));
    } else {
        let x = a.last();
        assert(a.contains(x));
        assert(b.to_multiset().count(x) > 0);
        assert(b.contains(x));
        let i = choose|i: int| 0 <= i < b.len() && b[i] == x;
        let a1 = a.drop_last();
        let b1 = b.remove(i);
        assert(a1 =~= a.remove(a.len() - 1));
        assert(a1.to_multiset() =~= b1.to_multiset());
        lemma_bag_map(a1, b1, f);
        assert(a.map_values(f) =~= a1.map_values(f).push(f(x)));
        assert(b.map_values(f).remove(i) =~= b1.map_values(f));
        assert(b.map_values(f)[i] == f(x));
        assert(b.map_values(f).contains(f(x)));
        assert(b.map_values(f).to_multiset() =~= b1.map_values(f).to_multiset().insert(f(x)));
    }
}

/// Sequences that hold the same elements up to `n` and are equal from `n` on
/// hold the same elements.
pub proof fn lemma_bag_whole<A>(a: Seq<A>, b: Seq<A>, n: int)
    requires
        0 <= n <= a.len() == b.len(),
        a.subrange(0, n).to_multiset() == b.subrange(0, n).to_multiset(),
        a.subrange(n, a.len() as int) == b.subrange(n, b.len() as int),
    ensures
        a.to_multiset() == b.to_multiset(),
{
    lemma_multiset_commutative(a.subrange(0, n), a.subrange(n, a.len() as int));
    lemma_multiset_commutative(b.subrange(0, n), b.subrange(n, b.len() as int));
    assert(a =~= a.subrange(0, n) + a.subrange(n, a.len() as int));
    assert(b =~= b.subrange(0, n) + b.subrange(n, b.len() as int));
}

/// An element of one of two sequences with the same elements is found in the
/// other.
pub proof fn lemma_bag_member<A>(a: Seq<A>, b: Seq<A>, p: int) -> (q: int)
    requires
        a.to_multiset() == b.to_multiset(),
        0 <= p < a.len(),
    ensures
        0 <= q < b.len(),
        b[q] == a[p],
{
    broadcast use vstd::seq_lib::group_to_multiset_ensures;

    assert(a.contains(a[p]));
    assert(b.to_multiset().count(a[p]) > 0);
    assert(b.contains(a[p]));
    choose|q: int| 0 <= q < b.len() && b[q] == a[p]
}

/// Putting `v` at place `i` takes one element out and puts one in.
pub proof fn lemma_bag_update<A>(s: Seq<A>, i: int, v: A)
    requires
        0 <= i < s.len(),
    ensures
        s.update(i, v).to_multiset() == s.to_multiset().remove(s[i]).insert(v),
{
    broadcast use vstd::seq_lib::group_to_multiset_ensures;

    assert(s.update(i, v) =~= s.remove(i).insert(i, v));
}

/// Exchanging two elements keeps the elements.
pub proof fn lemma_bag_swap<A>(s: Seq<A>, i: int, j: int)
    requires
        0 <= i < s.len(),
        0 <= j < s.len(),
    ensures
        s.update(i, s[j]).update(j, s[i]).to_multiset() == s.to_multiset(),
{
    broadcast use vstd::seq_lib::group_to_multiset_ensures;
    broadcast use vstd::multiset::group_multiset_axioms;

    if i == j {
        assert(s.update(i, s[j]).update(j, s[i]) =~= s);
    } else {
        let s1 = s.update(i, s[j]);
        lemma_bag_update(s, i, s[j]);
        lemma_bag_update(s1, j, s[i]);
        assert(s.contains(s[i]));
        assert(s.contains(s[j]));
        assert(s.to_multiset().remove(s[i]).insert(s[j]).remove(s[j]).insert(s[i])
            =~= s.to_multiset());
    }
}

/// Where the slots hold the indices of the home order, in whatever order,
/// every index below `m` is held by exactly one slot.
pub proof fn lemma_one_holder(idx: Seq<u32>, m: int, capacity: int, k: u32) -> (p: int)
    requires
        0 <= m <= capacity <= DUMMY_INDEX,
        idx.to_multiset() == home_order(m, capacity).to_multiset(),
        k < m,
    ensures
        idx.len() == capacity,
        0 <= p < capacity,
        idx[p] == k,
        forall|q: int| 0 <= q < capacity && idx[q] == k ==> q == p,
{
    broadcast use vstd::seq_lib::group_to_multiset_ensures;
    broadcast use vstd::multiset::group_multiset_axioms;

    let home = home_order(m, capacity);
    let bag = idx.to_multiset();
    to_multiset_len(home);
    to_multiset_len(idx);
    assert(home[k as int] == k);
    assert(home.contains(k));
    to_multiset_contains(home, k);
    to_multiset_contains(idx, k);
    assert(idx.contains(k));
    let p = choose|p: int| 0 <= p < idx.len() && idx[p] == k;
    let rest = home.remove(k as int);
    assert(!rest.contains(k)) by {
        if rest.contains(k) {
            let j = choose|j: int| 0 <= j < rest.len() && rest[j] == k;
            if j < k {
                assert(rest[j] == home[j]);
            } else {
                assert(rest[j] == home[j + 1]);
            }
        }
    }
    assert(rest.to_multiset().count(k) == 0);
    assert(bag.count(k) == 1);
    assert forall|q: int| 0 <= q < capacity && idx[q] == k implies q == p by {
        if q != p {
            let less = idx.remove(q);
            let at = if p < q {
                p
            } else {
                p - 1
            };
            assert(less[at] == k);
            assert(less.contains(k));
            assert(less.to_multiset().count(k) > 0);
        }
    }
    p
}

/// The indices `idx` stand in ascending order.
pub open spec fn ascending_indices(idx: Seq<u32>) -> bool {
    forall|i: int, j: int| 0 <= i < j < idx.len() ==> idx[i] <= idx[j]
}

/// Slots that hold the indices of the home order in ascending order hold
/// them in the home order.
pub proof fn lemma_sorted_is_home(idx: Seq<u32>, m: int, capacity: int)
    requires
        0 <= m <= capacity <= DUMMY_INDEX,
        idx.to_multiset() == home_order(m, capacity).to_multiset(),
        ascending_indices(idx),
    ensures
        idx == home_order(m, capacity),
{
    let leq = |a: u32, b: u32| a <= b;
    let home = home_order(m, capacity);
    assert(total_ordering(leq)) by {
        assert forall|x: u32, y: u32| #[trigger] leq(x, y) && #[trigger] leq(y, x) implies x
            == y by {}
        assert forall|x: u32, y: u32, z: u32| #[trigger] leq(x, y) && #[trigger] leq(
            y,
            z,
        ) implies leq(x, z) by {}
    }
    assert(sorted_by(idx, leq));
    assert(sorted_by(home, leq));
    lemma_sorted_unique(idx, home, leq);
}

} // verus!
