//! The schedule of the sort: the comparators of the network, in the order
//! in which they are applied. It depends on the length of the range alone.

use vstd::arithmetic::power2::{lemma_pow2_strictly_increases, pow2};
use vstd::prelude::*;
use crate::sort::{exchange, pair_probes, KeyOrder, Probe};

verus! {

/// The comparators of the last row of a merge step, from position `i` on:
/// one between every second position of the lane and the next, as far as
/// they lie below `n`.
pub open spec fn row_pairs(n: int, i: int, high: int, d: int) -> Seq<(int, int)>
    decreases high - i + 2 * d,
{
    if d <= 0 || i >= high - d {
        Seq::empty()
    } else if i + d < n {
        seq![(i, i + d)] + row_pairs(n, i + 2 * d, high, d)
    } else {
        row_pairs(n, i + 2 * d, high, d)
    }
}

/// The comparators of a row from one position on are the comparator at that
/// position, where there is one, and those from the next position on.
pub proof fn lemma_row_advance(
    n: int,
    i: int,
    high: int,
    d: int,
    done: Seq<(int, int)>,
    whole: Seq<(int, int)>,
)
    requires
        d > 0,
        i < high - d,
        done + row_pairs(n, i, high, d) == whole,
    ensures
        i + d < n ==> done.push((i, i + d)) + row_pairs(n, i + 2 * d, high, d) == whole,
        i + d >= n ==> done + row_pairs(n, i + 2 * d, high, d) == whole,
{
    let rest = row_pairs(n, i + 2 * d, high, d);
    if i + d < n {
        assert(done.push((i, i + d)) + rest =~= done + (seq![(i, i + d)] + rest));
    }
}

/// The comparators that merge the lane from `low` below `high` with the step
/// `d`: those that merge its even and its odd positions, then its last row.
/// `e` bounds the depth.
pub open spec fn merge_pairs(n: int, low: int, high: int, d: int, e: nat) -> Seq<(int, int)>
    decreases e,
{
    if e == 0 {
        Seq::empty()
    } else if high - low > 2 * d {
        merge_pairs(n, low, high, 2 * d, (e - 1) as nat) + merge_pairs(
            n,
            low + d,
            high,
            2 * d,
            (e - 1) as nat,
        ) + row_pairs(n, low + d, high, d)
    } else if low + d < n {
        seq![(low, low + d)]
    } else {
        Seq::empty()
    }
}

/// The comparators that sort the positions from `low` below `high`: those
/// that sort its two halves, then those that merge them. `e` bounds the
/// depth.
pub open spec fn sort_pairs(n: int, low: int, high: int, e: nat) -> Seq<(int, int)>
    decreases e,
{
    if e == 0 || high - low <= 1 {
        Seq::empty()
    } else {
        sort_pairs(n, low, low + (high - low) / 2, (e - 1) as nat) + sort_pairs(
            n,
            low + (high - low) / 2,
            high,
            (e - 1) as nat,
        ) + merge_pairs(n, low, high, 1, e)
    }
}

/// Two to the power `e` is the smallest power of two that is not below `n`.
pub open spec fn covers(e: nat, n: int) -> bool {
    n <= pow2(e) && (e == 0 || pow2((e - 1) as nat) < n)
}

/// The exponent of the smallest power of two that is not below `n`.
pub open spec fn cover(n: int) -> nat {
    choose|e: nat| #[trigger] covers(e, n)
}

/// The comparators of a sort of the first `n` positions, in order: the
/// network for the smallest power of two that is not below `n`, without the
/// comparators that reach `n` or beyond.
pub open spec fn network(n: int) -> Seq<(int, int)> {
    sort_pairs(n, 0, pow2(cover(n)) as int, cover(n))
}

proof fn lemma_pow2_monotone(a: nat, b: nat)
    requires
        a <= b,
    ensures
        pow2(a) <= pow2(b),
{
    if a < b {
        lemma_pow2_strictly_increases(a, b);
    }
}

pub proof fn lemma_cover(n: int, e: nat)
    requires
        covers(e, n),
    ensures
        cover(n) == e,
{
    let c = cover(n);
    assert(covers(c, n));
    if c < e {
        lemma_pow2_monotone(c, (e - 1) as nat);
    }
    if e < c {
        lemma_pow2_monotone(e, (c - 1) as nat);
    }
}

/// The elements after the comparators `pairs` were applied to `items` in
/// order, and what was read and written on the way: a comparator reads both
/// its positions and writes both where it exchanges them.
pub open spec fn play<T: View, C: KeyOrder<T>>(items: Seq<T::V>, pairs: Seq<(int, int)>) -> (
    Seq<T::V>,
    Seq<Probe>,
)
    decreases pairs.len(),
{
    if pairs.len() == 0 {
        (items, Seq::empty())
    } else {
        let before = play::<T, C>(items, pairs.drop_last());
        let a = pairs.last().0;
        let b = pairs.last().1;
        (
            exchange::<T, C>(before.0, a, b),
            before.1 + pair_probes(a, b, !(C::rank(before.0[a]) < C::rank(before.0[b]))),
        )
    }
}

/// The comparators `pairs` have led from `items` to `after`, and from what
/// was seen before to what is seen now.
pub open spec fn played<T: View, C: KeyOrder<T>>(
    items: Seq<T::V>,
    after: Seq<T::V>,
    seen: Seq<Probe>,
    seen_after: Seq<Probe>,
    pairs: Seq<(int, int)>,
) -> bool {
    &&& after == play::<T, C>(items, pairs).0
    &&& seen_after == seen + play::<T, C>(items, pairs).1
}

pub proof fn lemma_played_none<T: View, C: KeyOrder<T>>(items: Seq<T::V>, seen: Seq<Probe>)
    ensures
        played::<T, C>(items, items, seen, seen, Seq::empty()),
{
    assert(seen =~= seen + Seq::<Probe>::empty());
}

/// One more comparator after those that were played.
pub proof fn lemma_played_step<T: View, C: KeyOrder<T>>(
    items: Seq<T::V>,
    cur: Seq<T::V>,
    next: Seq<T::V>,
    s0: Seq<Probe>,
    s1: Seq<Probe>,
    s2: Seq<Probe>,
    done: Seq<(int, int)>,
    a: int,
    b: int,
)
    requires
        played::<T, C>(items, cur, s0, s1, done),
        next == exchange::<T, C>(cur, a, b),
        s2 == s1 + pair_probes(a, b, !(C::rank(cur[a]) < C::rank(cur[b]))),
    ensures
        played::<T, C>(items, next, s0, s2, done.push((a, b))),
{
    let more = done.push((a, b));
    assert(more.drop_last() =~= done);
    let p = play::<T, C>(items, done).1;
    let q = pair_probes(a, b, !(C::rank(cur[a]) < C::rank(cur[b])));
    assert((s0 + p) + q =~= s0 + (p + q));
}

/// Comparators played one after the other are their sequence played.
pub proof fn lemma_play_concat<T: View, C: KeyOrder<T>>(
    items: Seq<T::V>,
    p: Seq<(int, int)>,
    q: Seq<(int, int)>,
)
    ensures
        play::<T, C>(items, p + q).0 == play::<T, C>(play::<T, C>(items, p).0, q).0,
        play::<T, C>(items, p + q).1 == play::<T, C>(items, p).1 + play::<T, C>(
            play::<T, C>(items, p).0,
            q,
        ).1,
    decreases q.len(),
{
    let mid = play::<T, C>(items, p);
    if q.len() == 0 {
        assert(p + q =~= p);
        assert(mid.1 =~= mid.1 + Seq::<Probe>::empty());
    } else {
        assert((p + q).drop_last() =~= p + q.drop_last());
        assert((p + q).last() == q.last());
        lemma_play_concat::<T, C>(items, p, q.drop_last());
        let inner = play::<T, C>(mid.0, q.drop_last());
        let a = q.last().0;
        let b = q.last().1;
        let x = pair_probes(a, b, !(C::rank(inner.0[a]) < C::rank(inner.0[b])));
        assert((mid.1 + inner.1) + x =~= mid.1 + (inner.1 + x));
    }
}

pub proof fn lemma_played_then<T: View, C: KeyOrder<T>>(
    i0: Seq<T::V>,
    i1: Seq<T::V>,
    i2: Seq<T::V>,
    s0: Seq<Probe>,
    s1: Seq<Probe>,
    s2: Seq<Probe>,
    p: Seq<(int, int)>,
    q: Seq<(int, int)>,
)
    requires
        played::<T, C>(i0, i1, s0, s1, p),
        played::<T, C>(i1, i2, s1, s2, q),
    ensures
        played::<T, C>(i0, i2, s0, s2, p + q),
{
    lemma_play_concat::<T, C>(i0, p, q);
    let x = play::<T, C>(i0, p).1;
    let y = play::<T, C>(i1, q).1;
    assert((s0 + x) + y =~= s0 + (x + y));
}

} // verus!
