//! Counting facts about boolean sequences.
//!
//! A sequence of keys, looked at through a threshold, is a sequence of
//! booleans: `true` where the key lies below the threshold. A sequence of keys
//! is ascending exactly when each of these boolean sequences has all of its
//! `true` entries in front. The merge network is proved correct through this
//! view, and the facts it needs about such sequences are collected here.

use vstd::prelude::*;

verus! {

/// Number of `true` entries of `b`.
pub open spec fn ones(b: Seq<bool>) -> nat
    decreases b.len(),
{
    if b.len() == 0 {
        0
    } else {
        ones(b.drop_last()) + if b.last() {
            1nat
        } else {
            0nat
        }
    }
}

/// Every `true` entry of `b` stands before every `false` entry.
pub open spec fn front_loaded(b: Seq<bool>) -> bool {
    forall|i: int, j: int| 0 <= i < j < b.len() && b[j] ==> b[i]
}

/// The entries of `s` at even indices, in order.
pub open spec fn evens<A>(s: Seq<A>) -> Seq<A> {
    Seq::new((s.len() / 2) as nat, |j: int| s[2 * j])
}

/// The entries of `s` at odd indices, in order.
pub open spec fn odds<A>(s: Seq<A>) -> Seq<A> {
    Seq::new((s.len() / 2) as nat, |j: int| s[2 * j + 1])
}

pub proof fn lemma_ones_bound(b: Seq<bool>)
    ensures
        ones(b) <= b.len(),
    decreases b.len(),
{
    if b.len() > 0 {
        lemma_ones_bound(b.drop_last());
    }
}

pub proof fn lemma_ones_push(b: Seq<bool>, v: bool)
    ensures
        ones(b.push(v)) == ones(b) + if v {
            1nat
        } else {
            0nat
        },
{
    assert(b.push(v).drop_last() =~= b);
}

pub proof fn lemma_ones_concat(a: Seq<bool>, b: Seq<bool>)
    ensures
        ones(a + b) == ones(a) + ones(b),
    decreases b.len(),
{
    if b.len() == 0 {
        assert(a + b =~= a);
    } else {
        assert((a + b).drop_last() =~= a + b.drop_last());
        lemma_ones_concat(a, b.drop_last());
    }
}

pub proof fn lemma_ones_update(b: Seq<bool>, i: int, v: bool)
    requires
        0 <= i < b.len(),
    ensures
        ones(b.update(i, v)) + (if b[i] {
            1nat
        } else {
            0nat
        }) == ones(b) + (if v {
            1nat
        } else {
            0nat
        }),
    decreases b.len(),
{
    if i == b.len() - 1 {
        assert(b.update(i, v).drop_last() =~= b.drop_last());
    } else {
        assert(b.update(i, v).drop_last() =~= b.drop_last().update(i, v));
        lemma_ones_update(b.drop_last(), i, v);
    }
}

/// Exchanging two entries keeps the number of `true` entries.
pub proof fn lemma_ones_swap(b: Seq<bool>, i: int, j: int)
    requires
        0 <= i < b.len(),
        0 <= j < b.len(),
    ensures
        ones(b.update(i, b[j]).update(j, b[i])) == ones(b),
{
    lemma_ones_update(b, i, b[j]);
    lemma_ones_update(b.update(i, b[j]), j, b[i]);
}

/// In a front-loaded sequence the `true` entries are exactly the first
/// `ones(b)` entries.
pub proof fn lemma_front_loaded_boundary(b: Seq<bool>)
    requires
        front_loaded(b),
    ensures
        ones(b) <= b.len(),
        forall|i: int| 0 <= i < b.len() ==> (#[trigger] b[i] <==> i < ones(b)),
    decreases b.len(),
{
    lemma_ones_bound(b);
    if b.len() > 0 {
        let p = b.drop_last();
        assert(front_loaded(p)) by {
            assert forall|i: int, j: int| 0 <= i < j < p.len() && p[j] implies p[i] by {
                assert(b[j] ==> b[i]);
            }
        }
        lemma_front_loaded_boundary(p);
        if b.last() {
            assert forall|i: int| 0 <= i < p.len() implies p[i] by {
                assert(b[b.len() - 1] ==> b[i]);
            }
            if p.len() > 0 {
                assert(p[p.len() - 1]);
            }
            assert(ones(p) == p.len());
        } else {
            assert forall|i: int| 0 <= i < b.len() implies (#[trigger] b[i] <==> i < ones(b)) by {
                if i < p.len() {
                    assert(p[i] == b[i]);
                }
            }
        }
    }
}

pub proof fn lemma_evens_odds_extend<A>(s: Seq<A>, x: A, y: A)
    requires
        s.len() % 2 == 0,
    ensures
        evens(s.push(x).push(y)) =~= evens(s).push(x),
        odds(s.push(x).push(y)) =~= odds(s).push(y),
{
}

/// The `true` entries of a sequence of even length are those at its even and
/// those at its odd indices.
pub proof fn lemma_ones_by_parity(b: Seq<bool>)
    requires
        b.len() % 2 == 0,
    ensures
        ones(b) == ones(evens(b)) + ones(odds(b)),
    decreases b.len(),
{
    if b.len() == 0 {
        assert(evens(b) =~= Seq::<bool>::empty());
        assert(odds(b) =~= Seq::<bool>::empty());
    } else {
        let n = b.len() as int;
        let p = b.subrange(0, n - 2);
        let x = b[n - 2];
        let y = b[n - 1];
        assert(b =~= p.push(x).push(y));
        lemma_evens_odds_extend(p, x, y);
        lemma_ones_by_parity(p);
        lemma_ones_push(p, x);
        lemma_ones_push(p.push(x), y);
        lemma_ones_push(evens(p), x);
        lemma_ones_push(odds(p), y);
    }
}

/// In a front-loaded sequence of even length the even indices hold as many
/// `true` entries as the odd ones, or one more; in the second case the last
/// entry is `false`.
pub proof fn lemma_even_odd_gap(b: Seq<bool>)
    requires
        front_loaded(b),
        b.len() % 2 == 0,
    ensures
        ones(odds(b)) <= ones(evens(b)) <= ones(odds(b)) + 1,
        b.len() > 0 && ones(evens(b)) == ones(odds(b)) + 1 ==> !b.last(),
    decreases b.len(),
{
    if b.len() == 0 {
        assert(evens(b) =~= Seq::<bool>::empty());
        assert(odds(b) =~= Seq::<bool>::empty());
    } else {
        let n = b.len() as int;
        let p = b.subrange(0, n - 2);
        let x = b[n - 2];
        let y = b[n - 1];
        assert(b =~= p.push(x).push(y));
        assert(front_loaded(p)) by {
            assert forall|i: int, j: int| 0 <= i < j < p.len() && p[j] implies p[i] by {
                assert(b[j] ==> b[i]);
            }
        }
        lemma_evens_odds_extend(p, x, y);
        lemma_even_odd_gap(p);
        lemma_ones_push(evens(p), x);
        lemma_ones_push(odds(p), y);
        assert(y ==> x) by {
            assert(b[n - 1] ==> b[n - 2]);
        }
        if x && p.len() > 0 {
            assert(p.last()) by {
                assert(b[n - 2] ==> b[n - 3]);
            }
        }
    }
}

pub proof fn lemma_evens_odds_concat<A>(x: Seq<A>, y: Seq<A>)
    requires
        x.len() % 2 == 0,
    ensures
        evens(x + y) =~= evens(x) + evens(y),
        odds(x + y) =~= odds(x) + odds(y),
{
}

} // verus!
