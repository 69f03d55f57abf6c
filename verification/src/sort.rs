//! Batcher's odd-even merge sort over a store that is reached one element at a
//! time.
//!
//! The sort never looks at more than two elements at once and visits the pairs
//! in an order that depends on the length alone. The elements live behind an
//! [`Access`]; they are compared through a [`KeyOrder`].

use std::ops::Range;
use vstd::arithmetic::power2::{lemma_pow2_strictly_increases, lemma_pow2_unfold, pow2};
use vstd::layout::unsigned_int_max_values;
use vstd::prelude::*;
use crate::network::{
    agree_on, exchanged, gap_at, increasing, lane, lemma_agree_keeps, lemma_counts_chain,
    lemma_counts_join, lemma_counts_swap, lemma_exchanged_sorted, lemma_gap_at,
    lemma_increasing_parts, lemma_lane_increasing, lemma_lane_split, lemma_parity_members,
    lemma_pow2_facts, lemma_span_lane, lemma_vsorted_parts, lower_half, pair_done, same_counts,
    span, upper_half, vsorted,
};
use crate::schedule::{
    covers, lemma_cover, lemma_played_none, lemma_played_step, lemma_played_then,
    lemma_row_advance, merge_pairs, network, played, row_pairs, sort_pairs,
};
use crate::zero_one::{evens, odds};

verus! {

/// An order on `T` that is given by an integer rank.
pub trait KeyOrder<T: View> {
    /// The rank that the order goes by.
    spec fn rank(v: T::V) -> int;

    /// Whether `a` stands strictly before `b`.
    fn less(&self, a: &T, b: &T) -> (r: bool)
        ensures
            r == (Self::rank(a@) < Self::rank(b@)),
    ;
}

/// One read or write of a store: whether it was a write, and the position.
pub struct Probe {
    pub write: bool,
    pub at: int,
}

/// `after` is `before` and then reads and writes of positions below `bound`
/// only.
pub open spec fn reached(before: Seq<Probe>, after: Seq<Probe>, bound: int) -> bool {
    &&& before.is_prefix_of(after)
    &&& forall|j: int| before.len() <= j < after.len() ==> 0 <= (#[trigger] after[j]).at < bound
}

/// What is seen of one comparator between the positions `a` and `b`: both
/// are read, and both are written where the elements were exchanged.
pub open spec fn pair_probes(a: int, b: int, exchanged: bool) -> Seq<Probe> {
    if exchanged {
        seq![
            Probe { write: false, at: a },
            Probe { write: false, at: b },
            Probe { write: true, at: a },
            Probe { write: true, at: b },
        ]
    } else {
        seq![Probe { write: false, at: a }, Probe { write: false, at: b }]
    }
}

pub proof fn lemma_reached_self(a: Seq<Probe>, bound: int)
    ensures
        reached(a, a, bound),
{
    assert(a.subrange(0, a.len() as int) =~= a);
}

pub proof fn lemma_reached_pair(s: Seq<Probe>, a: int, b: int, exchanged: bool)
    requires
        0 <= a < b,
    ensures
        reached(s, s + pair_probes(a, b, exchanged), b + 1),
        s.push(Probe { write: false, at: a }).push(Probe { write: false, at: b }) == s
            + pair_probes(a, b, false),
        s.push(Probe { write: false, at: a }).push(Probe { write: false, at: b }).push(
            Probe { write: true, at: a },
        ).push(Probe { write: true, at: b }) == s + pair_probes(a, b, true),
{
    let t = s + pair_probes(a, b, exchanged);
    assert(t.subrange(0, s.len() as int) =~= s);
    assert(s.push(Probe { write: false, at: a }).push(Probe { write: false, at: b }) =~= s
        + pair_probes(a, b, false));
    assert(s.push(Probe { write: false, at: a }).push(Probe { write: false, at: b }).push(
        Probe { write: true, at: a },
    ).push(Probe { write: true, at: b }) =~= s + pair_probes(a, b, true));
}

pub proof fn lemma_reached_then(
    a: Seq<Probe>,
    b: Seq<Probe>,
    c: Seq<Probe>,
    inner: int,
    bound: int,
)
    requires
        reached(a, b, bound),
        reached(b, c, inner),
        inner <= bound,
    ensures
        reached(a, c, bound),
{
    assert(c.subrange(0, a.len() as int) =~= b.subrange(0, a.len() as int));
    assert forall|j: int| a.len() <= j < c.len() implies 0 <= (#[trigger] c[j]).at < bound by {
        if j < b.len() {
            assert(c.subrange(0, b.len() as int)[j] == b[j]);
        }
    }
}

/// A store of elements that are read and written one at a time.
pub trait Access<T: View>: Sized {
    /// What a failed read or write reports.
    type Error;

    /// What the store holds besides its elements.
    type Fixed;

    /// The part of the store that no read and no write changes.
    spec fn fixed(&self) -> Self::Fixed;

    /// A read or a write of a store of this kind may fail with `e`.
    spec fn reports(e: Self::Error) -> bool;

    /// The reads and writes of the store that have succeeded, in order.
    spec fn seen(&self) -> Seq<Probe>;

    /// The elements that the store holds, by position.
    spec fn items(&self) -> Seq<T::V>;

    /// What the store needs to hold of itself before it is used.
    spec fn valid(&self) -> bool;

    /// No read or write of the store fails.
    spec fn steady(&self) -> bool;

    /// The store takes `v` as an element.
    spec fn accepts(&self, v: T::V) -> bool;

    /// Reads the element at position `i`.
    fn read(&mut self, i: usize) -> (r: Result<T, Self::Error>)
        requires
            old(self).valid(),
            i < old(self).items().len(),
        ensures
            old(self).steady() ==> r.is_ok(),
            r matches Err(e) ==> Self::reports(e),
            r matches Ok(x) ==> {
                &&& x@ == old(self).items()[i as int]
                &&& final(self).items() == old(self).items()
                &&& final(self).seen() == old(self).seen().push(Probe { write: false, at: i as int })
                &&& final(self).accepts(x@)
                &&& final(self).valid()
                &&& final(self).fixed() == old(self).fixed()
                &&& final(self).steady() == old(self).steady()
                &&& forall|v: T::V| #[trigger] final(self).accepts(v) == old(self).accepts(v)
            },
    ;

    /// Puts `x` at position `i`.
    fn write(&mut self, i: usize, x: &T) -> (r: Result<(), Self::Error>)
        requires
            old(self).valid(),
            i < old(self).items().len(),
            old(self).accepts(x@),
        ensures
            old(self).steady() ==> r.is_ok(),
            r matches Err(e) ==> Self::reports(e),
            r.is_ok() ==> {
                &&& final(self).items() == old(self).items().update(i as int, x@)
                &&& final(self).seen() == old(self).seen().push(Probe { write: true, at: i as int })
                &&& final(self).valid()
                &&& final(self).fixed() == old(self).fixed()
                &&& final(self).steady() == old(self).steady()
                &&& forall|v: T::V| #[trigger] final(self).accepts(v) == old(self).accepts(v)
            },
    ;
}

/// What a store keeps through a read or a write that succeeds.
pub open spec fn carried<T: View, A: Access<T>>(before: A, after: A) -> bool {
    &&& after.valid()
    &&& after.fixed() == before.fixed()
    &&& after.steady() == before.steady()
    &&& forall|v: T::V| #[trigger] after.accepts(v) == before.accepts(v)
}

/// The ranks of `items`, by position.
pub open spec fn keys<T: View, C: KeyOrder<T>>(items: Seq<T::V>) -> Seq<int> {
    Seq::new(items.len(), |p: int| C::rank(items[p]))
}

/// The first `n` entries of `k` are ascending.
pub open spec fn ascending(k: Seq<int>, n: int) -> bool {
    forall|i: int, j: int| 0 <= i < j < n ==> k[i] <= k[j]
}

/// `after` holds the first `n` elements of `before` in ascending order of
/// rank, and the others where they were.
pub open spec fn sorted_prefix<T: View, C: KeyOrder<T>>(
    before: Seq<T::V>,
    after: Seq<T::V>,
    n: int,
) -> bool {
    &&& after.len() == before.len()
    &&& ascending(keys::<T, C>(after), n)
    &&& after.subrange(0, n).to_multiset() == before.subrange(0, n).to_multiset()
    &&& after.subrange(n, after.len() as int) == before.subrange(n, before.len() as int)
}

/// `items` after a comparator between positions `a` and `b`: exchanged unless
/// the element at `a` stands strictly before the one at `b`.
pub open spec fn exchange<T: View, C: KeyOrder<T>>(items: Seq<T::V>, a: int, b: int) -> Seq<T::V> {
    if C::rank(items[a]) < C::rank(items[b]) {
        items
    } else {
        items.update(a, items[b]).update(b, items[a])
    }
}

/// `after` is `before` but at positions of `ps` below `n`.
pub open spec fn untouched<V>(before: Seq<V>, after: Seq<V>, n: int, ps: Seq<int>) -> bool {
    &&& after.len() == before.len()
    &&& forall|p: int|
        0 <= p < before.len() && (p >= n || !ps.contains(p)) ==> #[trigger] after[p] == before[p]
}

/// The first `n` elements of `after` are those of `before`, in some order.
pub open spec fn same_bag<V>(before: Seq<V>, after: Seq<V>, n: int) -> bool {
    after.subrange(0, n).to_multiset() == before.subrange(0, n).to_multiset()
}

/// `after` is `before` with the elements at the positions of `ps` rearranged
/// among themselves.
pub open spec fn rearranged<T: View, C: KeyOrder<T>>(
    before: Seq<T::V>,
    after: Seq<T::V>,
    n: int,
    ps: Seq<int>,
) -> bool {
    &&& untouched(before, after, n, ps)
    &&& same_bag(before, after, n)
    &&& same_counts(keys::<T, C>(before), keys::<T, C>(after), n, ps)
}

proof fn lemma_update_bag<V>(s: Seq<V>, i: int, v: V)
    requires
        0 <= i < s.len(),
    ensures
        s.update(i, v).to_multiset() == s.to_multiset().remove(s[i]).insert(v),
{
    broadcast use vstd::seq_lib::group_to_multiset_ensures;

    assert(s.update(i, v) =~= s.remove(i).insert(i, v));
}

proof fn lemma_swap_bag<V>(s: Seq<V>, n: int, a: int, b: int)
    requires
        0 <= a < b < n <= s.len(),
    ensures
        same_bag(s, s.update(a, s[b]).update(b, s[a]), n),
{
    broadcast use vstd::seq_lib::group_to_multiset_ensures;
    broadcast use vstd::multiset::group_multiset_axioms;

    let q = s.subrange(0, n);
    let q1 = q.update(a, q[b]);
    assert(s.update(a, s[b]).update(b, s[a]).subrange(0, n) =~= q1.update(b, q[a]));
    lemma_update_bag(q, a, q[b]);
    lemma_update_bag(q1, b, q[a]);
    assert(q.contains(q[a]));
    assert(q.contains(q[b]));
    assert(q.to_multiset().remove(q[a]).insert(q[b]).remove(q[b]).insert(q[a]) =~= q.to_multiset());
}

proof fn lemma_untouched_agree<T: View, C: KeyOrder<T>>(
    before: Seq<T::V>,
    after: Seq<T::V>,
    n: int,
    touched: Seq<int>,
    watched: Seq<int>,
)
    requires
        untouched(before, after, n, touched),
        n <= before.len(),
        forall|j: int|
            0 <= j < watched.len() ==> 0 <= #[trigger] watched[j] && !touched.contains(watched[j]),
    ensures
        agree_on(keys::<T, C>(before), keys::<T, C>(after), n, watched),
{
    assert forall|j: int| 0 <= j < watched.len() && watched[j] < n implies keys::<T, C>(
        after,
    )[#[trigger] watched[j]] == keys::<T, C>(before)[watched[j]] by {
        assert(after[watched[j]] == before[watched[j]]);
    }
}

/// Applies one comparator: afterwards the element at `a` does not stand after
/// the one at `b`.
fn compare_and_swap<T: View, C: KeyOrder<T>, A: Access<T>>(
    order: &C,
    access: &mut A,
    a: usize,
    b: usize,
) -> (r: Result<(), A::Error>)
    requires
        old(access).valid(),
        a < b < old(access).items().len(),
    ensures
        old(access).steady() ==> r.is_ok(),
        r matches Err(e) ==> A::reports(e),
        r.is_ok() ==> {
            &&& carried(*old(access), *final(access))
            &&& reached(old(access).seen(), final(access).seen(), b + 1)
            &&& final(access).seen() == old(access).seen() + pair_probes(
                a as int,
                b as int,
                !(C::rank(old(access).items()[a as int]) < C::rank(old(access).items()[b as int])),
            )
            &&& final(access).items() == exchange::<T, C>(old(access).items(), a as int, b as int)
        },
{
    proof {
        lemma_reached_pair(old(access).seen(), a as int, b as int, true);
        lemma_reached_pair(old(access).seen(), a as int, b as int, false);
    }
    let x = access.read(a)?;
    let y = access.read(b)?;
    if !order.less(&x, &y) {
        access.write(a, &y)?;
        access.write(b, &x)?;
    }
    Ok(())
}

proof fn lemma_span_members(low: int, high: int)
    requires
        low <= high,
    ensures
        forall|p: int| span(low, high).contains(p) <==> low <= p < high,
{
    assert forall|p: int| span(low, high).contains(p) <==> low <= p < high by {
        if low <= p < high {
            assert(span(low, high)[p - low] == p);
        }
    }
}

/// One comparator of the last row of a merge step, in terms of the lane.
proof fn lemma_row_step<T: View, C: KeyOrder<T>>(
    base: Seq<T::V>,
    cur: Seq<T::V>,
    next: Seq<T::V>,
    n: int,
    ps: Seq<int>,
    t: int,
)
    requires
        increasing(ps),
        0 <= ps[0],
        0 <= t,
        2 * t + 2 < ps.len(),
        ps[2 * t + 2] < n <= base.len(),
        rearranged::<T, C>(base, cur, n, ps),
        exchanged(keys::<T, C>(base), keys::<T, C>(cur), n, ps, t),
        next == exchange::<T, C>(cur, ps[2 * t + 1], ps[2 * t + 2]),
    ensures
        rearranged::<T, C>(base, next, n, ps),
        exchanged(keys::<T, C>(base), keys::<T, C>(next), n, ps, t + 1),
{
    let a = ps[2 * t + 1];
    let b = ps[2 * t + 2];
    let kb = keys::<T, C>(base);
    let kc = keys::<T, C>(cur);
    let kn = keys::<T, C>(next);
    assert(ps[0] < a < b);
    assert(kc[a] == kb[a]);
    assert(kc[b] == kb[b]);
    assert(ps.contains(a));
    assert(ps.contains(b));
    if C::rank(cur[a]) < C::rank(cur[b]) {
        assert(next == cur);
    } else {
        assert(kn =~= kc.update(a, kc[b]).update(b, kc[a]));
        lemma_counts_swap(kc, n, ps, 2 * t + 1, 2 * t + 2);
        lemma_counts_chain(kb, kc, kn, n, ps);
        lemma_swap_bag(cur, n, a, b);
    }
    assert forall|j: int| 0 <= j < t + 1 implies #[trigger] pair_done(kb, kn, n, ps, j) by {
        if j < t {
            assert(pair_done(kb, kc, n, ps, j));
            assert(ps[0] < ps[2 * j + 1] < ps[2 * j + 2]);
            assert(ps[2 * j + 2] < a);
        }
    }
    assert forall|j: int|
        0 <= j < ps.len() && (j == 0 || j > 2 * (t + 1)) && ps[j] < n implies kn[#[trigger] ps[j]]
        == kb[ps[j]] by {
        if j == 0 {
            assert(ps[0] < a);
        } else {
            assert(b < ps[j]);
            assert(ps[0] < ps[j]);
        }
        assert(kc[ps[j]] == kb[ps[j]]);
    }
}

/// Applies the last row of comparators of a merge step: one between each odd
/// entry of the lane and the even entry after it.
#[verifier::rlimit(40)]
fn exchange_row<T: View, C: KeyOrder<T>, A: Access<T>>(
    order: &C,
    access: &mut A,
    n: usize,
    low: usize,
    high: usize,
    d: usize,
    Ghost(ps): Ghost<Seq<int>>,
) -> (r: Result<(), A::Error>)
    requires
        old(access).valid(),
        n <= old(access).items().len(),
        lane(ps, low as int, high as int, d as int),
        ps.len() % 2 == 0,
        ps.len() >= 4,
        high <= usize::MAX / 2 + 1,
    ensures
        old(access).steady() ==> r.is_ok(),
        r matches Err(e) ==> A::reports(e),
        r.is_ok() ==> {
            &&& carried(*old(access), *final(access))
            &&& reached(old(access).seen(), final(access).seen(), n as int)
            &&& played::<T, C>(
                old(access).items(),
                final(access).items(),
                old(access).seen(),
                final(access).seen(),
                row_pairs(n as int, low + d, high as int, d as int),
            )
            &&& rearranged::<T, C>(old(access).items(), final(access).items(), n as int, ps)
            &&& exchanged(
                keys::<T, C>(old(access).items()),
                keys::<T, C>(final(access).items()),
                n as int,
                ps,
                ps.len() / 2 - 1,
            )
        },
{
    let ghost base = access.items();
    let ghost h = ps.len() as int / 2;
    proof {
        lemma_lane_increasing(ps, low as int, high as int, d as int);
        assert(ps[1] == ps[0] + d);
        lemma_reached_self(access.seen(), n as int);
        lemma_played_none::<T, C>(base, access.seen());
    }
    let mut i = low + d;
    let ghost mut t: int = 0;
    let ghost mut done: Seq<(int, int)> = Seq::empty();
    let ghost whole = row_pairs(n as int, low + d, high as int, d as int);
    assert(done + row_pairs(n as int, i as int, high as int, d as int) =~= whole);
    while i < high - d
        invariant
            played::<T, C>(base, access.items(), old(access).seen(), access.seen(), done),
            done + row_pairs(n as int, i as int, high as int, d as int) == whole,
            whole == row_pairs(n as int, low + d, high as int, d as int),
            0 <= t <= h - 1,
            h == ps.len() / 2,
            ps.len() % 2 == 0,
            ps.len() >= 4,
            i == ps[2 * t + 1],
            lane(ps, low as int, high as int, d as int),
            increasing(ps),
            forall|j: int| 0 <= j < ps.len() ==> low <= #[trigger] ps[j] < high,
            high <= usize::MAX / 2 + 1,
            1 <= d < high,
            n <= base.len(),
            base == old(access).items(),
            carried(*old(access), *access),
            reached(old(access).seen(), access.seen(), n as int),
            rearranged::<T, C>(base, access.items(), n as int, ps),
            exchanged(keys::<T, C>(base), keys::<T, C>(access.items()), n as int, ps, t),
        ensures
            t == h - 1,
        decreases h - 1 - t,
    {
        proof {
            if 2 * t + 1 == ps.len() - 1 {
                assert(ps.last() == ps[2 * t + 1]);
            }
            assert(ps[2 * t + 2] == ps[2 * t + 1] + d);
            assert(ps[2 * t + 3] == ps[2 * t + 2] + d);
        }
        if i + d < n {
            let ghost cur = access.items();
            let ghost seen = access.seen();
            compare_and_swap::<T, C, A>(order, access, i, i + d)?;
            proof {
                lemma_row_step::<T, C>(base, cur, access.items(), n as int, ps, t);
                lemma_reached_then(old(access).seen(), seen, access.seen(), i + d + 1, n as int);
                lemma_played_step::<T, C>(
                    base,
                    cur,
                    access.items(),
                    old(access).seen(),
                    seen,
                    access.seen(),
                    done,
                    i as int,
                    i + d,
                );
                lemma_row_advance(n as int, i as int, high as int, d as int, done, whole);
                done = done.push((i as int, i + d));
            }
        } else {
            proof {
                lemma_row_advance(n as int, i as int, high as int, d as int, done, whole);
                let kb = keys::<T, C>(base);
                let kc = keys::<T, C>(access.items());
                assert forall|j: int| 0 <= j < t + 1 implies #[trigger] pair_done(
                    kb,
                    kc,
                    n as int,
                    ps,
                    j,
                ) by {
                    if j == t {
                        assert(ps[2 * t + 1] < n ==> kc[ps[2 * t + 1]] == kb[ps[2 * t + 1]]);
                    }
                }
            }
        }
        i = i + 2 * d;
        proof {
            t = t + 1;
        }
    }
    proof {
        if 2 * t + 1 < ps.len() - 1 {
            assert(ps[2 * t + 2] == ps[2 * t + 1] + d);
            assert(ps[2 * t + 3] == ps[2 * t + 2] + d);
            assert(ps[2 * t + 3] < high);
        }
        assert(done =~= whole);
    }
    Ok(())
}

/// The state after the even and the odd entries of a lane have been merged
/// by themselves: what the last row of comparators starts from.
proof fn lemma_halves_merged<T: View, C: KeyOrder<T>>(
    before: Seq<T::V>,
    mid: Seq<T::V>,
    base: Seq<T::V>,
    n: int,
    ps: Seq<int>,
)
    requires
        ps.len() % 4 == 0,
        increasing(ps),
        0 <= ps[0],
        n <= before.len(),
        vsorted(keys::<T, C>(before), n, lower_half(ps)),
        vsorted(keys::<T, C>(before), n, upper_half(ps)),
        rearranged::<T, C>(before, mid, n, evens(ps)),
        vsorted(keys::<T, C>(mid), n, evens(ps)),
        rearranged::<T, C>(mid, base, n, odds(ps)),
        vsorted(keys::<T, C>(base), n, odds(ps)),
    ensures
        rearranged::<T, C>(before, base, n, ps),
        vsorted(keys::<T, C>(base), n, evens(ps)),
        forall|i: int| 0 <= i < ps.len() / 2 ==> #[trigger] gap_at(keys::<T, C>(base), n, ps, i),
{
    let k0 = keys::<T, C>(before);
    let km = keys::<T, C>(mid);
    let kb = keys::<T, C>(base);
    let ev = evens(ps);
    let od = odds(ps);
    lemma_parity_members(ps);
    lemma_increasing_parts(ps, 0, 0);
    assert forall|j: int| 0 <= j < od.len() implies 0 <= #[trigger] od[j] && !ev.contains(od[j]) by {
        assert(od.contains(od[j]));
        assert(ps[0] < ps[2 * j + 1]);
    }
    assert forall|j: int| 0 <= j < ev.len() implies 0 <= #[trigger] ev[j] && !od.contains(ev[j]) by {
        assert(ev.contains(ev[j]));
        assert(ps[0] <= ps[2 * j]);
    }
    lemma_untouched_agree::<T, C>(before, mid, n, ev, od);
    lemma_untouched_agree::<T, C>(mid, base, n, od, ev);
    lemma_agree_keeps(k0, km, n, od);
    lemma_agree_keeps(km, kb, n, ev);
    lemma_counts_chain(k0, km, kb, n, ev);
    lemma_counts_chain(k0, km, kb, n, od);
    lemma_counts_join(k0, kb, n, ps);
    assert forall|i: int| 0 <= i < ps.len() / 2 implies #[trigger] gap_at(kb, n, ps, i) by {
        lemma_gap_at(k0, kb, n, ps, i);
    }
    assert(untouched(before, base, n, ps)) by {
        assert forall|p: int| 0 <= p < before.len() && (p >= n || !ps.contains(p)) implies #[trigger] base[p]
            == before[p] by {
            assert(mid[p] == before[p]);
        }
    }
}

/// The halves of the odd entries of a lane are ascending when the halves of
/// the lane were and only its even entries have moved since.
proof fn lemma_odds_ready<T: View, C: KeyOrder<T>>(
    before: Seq<T::V>,
    mid: Seq<T::V>,
    n: int,
    ps: Seq<int>,
)
    requires
        ps.len() % 4 == 0,
        increasing(ps),
        0 <= ps[0],
        n <= before.len(),
        vsorted(keys::<T, C>(before), n, lower_half(ps)),
        vsorted(keys::<T, C>(before), n, upper_half(ps)),
        untouched(before, mid, n, evens(ps)),
    ensures
        vsorted(keys::<T, C>(mid), n, lower_half(odds(ps))),
        vsorted(keys::<T, C>(mid), n, upper_half(odds(ps))),
        vsorted(keys::<T, C>(before), n, lower_half(evens(ps))),
        vsorted(keys::<T, C>(before), n, upper_half(evens(ps))),
{
    let k0 = keys::<T, C>(before);
    let km = keys::<T, C>(mid);
    let ev = evens(ps);
    let od = odds(ps);
    let m = ps.len() as int;
    lemma_parity_members(ps);
    lemma_increasing_parts(ps, 0, 0);
    lemma_increasing_parts(od, 0, od.len() as int / 2);
    lemma_increasing_parts(od, od.len() as int / 2, od.len() as int);
    lemma_vsorted_parts(k0, n, lower_half(ps), 0, 0);
    lemma_vsorted_parts(k0, n, upper_half(ps), 0, 0);
    assert(lower_half(od) =~= odds(lower_half(ps)));
    assert(upper_half(od) =~= odds(upper_half(ps)));
    assert(lower_half(ev) =~= evens(lower_half(ps)));
    assert(upper_half(ev) =~= evens(upper_half(ps)));
    let lo = lower_half(od);
    let up = upper_half(od);
    assert forall|j: int| 0 <= j < lo.len() implies 0 <= #[trigger] lo[j] && !ev.contains(lo[j]) by {
        assert(od.contains(od[j]));
        assert(ps[0] < ps[2 * j + 1]);
    }
    assert forall|j: int| 0 <= j < up.len() implies 0 <= #[trigger] up[j] && !ev.contains(up[j]) by {
        let x = od.len() as int / 2 + j;
        assert(od.contains(od[x]));
        assert(ps[0] < ps[2 * x + 1]);
    }
    lemma_untouched_agree::<T, C>(before, mid, n, ev, lo);
    lemma_untouched_agree::<T, C>(before, mid, n, ev, up);
    lemma_agree_keeps(k0, km, n, lo);
    lemma_agree_keeps(k0, km, n, up);
}

/// Merges a lane whose two halves are ascending.
#[verifier::rlimit(30)]
fn odd_even_merge<T: View, C: KeyOrder<T>, A: Access<T>>(
    order: &C,
    access: &mut A,
    n: usize,
    low: usize,
    high: usize,
    d: usize,
    Ghost(ps): Ghost<Seq<int>>,
    Ghost(e): Ghost<nat>,
) -> (r: Result<(), A::Error>)
    requires
        old(access).valid(),
        n <= old(access).items().len(),
        lane(ps, low as int, high as int, d as int),
        ps.len() == pow2(e),
        e >= 1,
        high <= usize::MAX / 2 + 1,
        vsorted(keys::<T, C>(old(access).items()), n as int, lower_half(ps)),
        vsorted(keys::<T, C>(old(access).items()), n as int, upper_half(ps)),
    ensures
        old(access).steady() ==> r.is_ok(),
        r matches Err(e) ==> A::reports(e),
        r.is_ok() ==> {
            &&& carried(*old(access), *final(access))
            &&& reached(old(access).seen(), final(access).seen(), n as int)
            &&& played::<T, C>(
                old(access).items(),
                final(access).items(),
                old(access).seen(),
                final(access).seen(),
                merge_pairs(n as int, low as int, high as int, d as int, e),
            )
            &&& rearranged::<T, C>(old(access).items(), final(access).items(), n as int, ps)
            &&& vsorted(keys::<T, C>(final(access).items()), n as int, ps)
        },
    decreases e,
{
    let ghost before = access.items();
    let ghost s0 = access.seen();
    proof {
        lemma_reached_self(s0, n as int);
        lemma_lane_increasing(ps, low as int, high as int, d as int);
        lemma_pow2_facts(e);
        assert(ps[1] == ps[0] + d);
        if e >= 2 {
            assert(ps[2] == ps[1] + d);
        } else {
            assert(ps.last() == ps[1]);
        }
    }
    if high - low > 2 * d {
        proof {
            lemma_lane_split(ps, low as int, high as int, d as int);
            lemma_odds_ready::<T, C>(before, before, n as int, ps);
        }
        odd_even_merge::<T, C, A>(
            order,
            access,
            n,
            low,
            high,
            2 * d,
            Ghost(evens(ps)),
            Ghost((e - 1) as nat),
        )?;
        let ghost mid = access.items();
        let ghost s1 = access.seen();
        proof {
            lemma_odds_ready::<T, C>(before, mid, n as int, ps);
        }
        odd_even_merge::<T, C, A>(
            order,
            access,
            n,
            low + d,
            high,
            2 * d,
            Ghost(odds(ps)),
            Ghost((e - 1) as nat),
        )?;
        let ghost base = access.items();
        let ghost s2 = access.seen();
        proof {
            lemma_halves_merged::<T, C>(before, mid, base, n as int, ps);
            lemma_reached_then(s0, s1, s2, n as int, n as int);
        }
        exchange_row::<T, C, A>(order, access, n, low, high, d, Ghost(ps))?;
        proof {
            lemma_reached_then(s0, s2, access.seen(), n as int, n as int);
            let p1 = merge_pairs(n as int, low as int, high as int, 2 * d, (e - 1) as nat);
            let p2 = merge_pairs(n as int, low + d, high as int, 2 * d, (e - 1) as nat);
            let p3 = row_pairs(n as int, low + d, high as int, d as int);
            lemma_played_then::<T, C>(before, mid, base, s0, s1, s2, p1, p2);
            lemma_played_then::<T, C>(
                before,
                base,
                access.items(),
                s0,
                s2,
                access.seen(),
                p1 + p2,
                p3,
            );
            let kb = keys::<T, C>(base);
            let ka = keys::<T, C>(access.items());
            lemma_exchanged_sorted(kb, ka, n as int, ps);
            lemma_counts_chain(keys::<T, C>(before), kb, ka, n as int, ps);
            assert(untouched(before, access.items(), n as int, ps)) by {
                assert forall|p: int|
                    0 <= p < before.len() && (p >= n || !ps.contains(p)) implies #[trigger] access.items()[p]
                    == before[p] by {
                    assert(base[p] == before[p]);
                }
            }
        }
    } else if low + d < n {
        compare_and_swap::<T, C, A>(order, access, low, low + d)?;
        proof {
            lemma_reached_then(s0, s0, access.seen(), low + d + 1, n as int);
            lemma_played_none::<T, C>(before, s0);
            lemma_played_step::<T, C>(
                before,
                before,
                access.items(),
                s0,
                s0,
                access.seen(),
                Seq::empty(),
                low as int,
                low + d,
            );
            assert(Seq::<(int, int)>::empty().push((low as int, low + d)) =~= seq![
                (low as int, low + d),
            ]);
            let k0 = keys::<T, C>(before);
            let ka = keys::<T, C>(access.items());
            assert(ps.contains(ps[0]));
            assert(ps.contains(ps[1]));
            if C::rank(before[low as int]) < C::rank(before[low + d]) {
                assert(access.items() == before);
            } else {
                assert(ka =~= k0.update(ps[0], k0[ps[1]]).update(ps[1], k0[ps[0]]));
                lemma_counts_swap(k0, n as int, ps, 0, 1);
                lemma_swap_bag(before, n as int, low as int, low + d);
            }
        }
    } else {
        proof {
            lemma_played_none::<T, C>(before, s0);
        }
    }
    Ok(())
}

/// Two neighbouring ranges that were sorted one after the other are the
/// ascending halves of the range that they make up.
proof fn lemma_halves_sorted<T: View, C: KeyOrder<T>>(
    first: Seq<T::V>,
    second: Seq<T::V>,
    n: int,
    low: int,
    mid: int,
    high: int,
)
    requires
        0 <= low < mid < high,
        mid - low == high - mid,
        n <= first.len(),
        vsorted(keys::<T, C>(first), n, span(low, mid)),
        untouched(first, second, n, span(mid, high)),
        vsorted(keys::<T, C>(second), n, span(mid, high)),
    ensures
        vsorted(keys::<T, C>(second), n, lower_half(span(low, high))),
        vsorted(keys::<T, C>(second), n, upper_half(span(low, high))),
{
    let left = span(low, mid);
    let right = span(mid, high);
    lemma_span_members(mid, high);
    lemma_span_lane(low, mid);
    lemma_lane_increasing(left, low, mid, 1);
    assert forall|j: int| 0 <= j < left.len() implies 0 <= #[trigger] left[j] && !right.contains(
        left[j],
    ) by {}
    lemma_untouched_agree::<T, C>(first, second, n, right, left);
    lemma_agree_keeps(keys::<T, C>(first), keys::<T, C>(second), n, left);
    assert(lower_half(span(low, high)) =~= left);
    assert(upper_half(span(low, high)) =~= right);
}

/// What three steps leave untouched, each within a part of a range, the
/// three together leave untouched within the range.
proof fn lemma_span_untouched<V>(
    before: Seq<V>,
    first: Seq<V>,
    second: Seq<V>,
    after: Seq<V>,
    n: int,
    low: int,
    mid: int,
    high: int,
)
    requires
        0 <= low <= mid <= high,
        untouched(before, first, n, span(low, mid)),
        untouched(first, second, n, span(mid, high)),
        untouched(second, after, n, span(low, high)),
    ensures
        untouched(before, after, n, span(low, high)),
{
    lemma_span_members(low, high);
    lemma_span_members(low, mid);
    lemma_span_members(mid, high);
    assert forall|p: int|
        0 <= p < before.len() && (p >= n || !span(low, high).contains(p)) implies #[trigger] after[p]
        == before[p] by {
        assert(first[p] == before[p]);
        assert(second[p] == first[p]);
    }
}

/// Sorts the positions from `low` up to `high`, as far as they lie below `n`.
#[verifier::rlimit(30)]
fn merge_sort_range<T: View, C: KeyOrder<T>, A: Access<T>>(
    order: &C,
    access: &mut A,
    n: usize,
    low: usize,
    high: usize,
    Ghost(e): Ghost<nat>,
) -> (r: Result<(), A::Error>)
    requires
        old(access).valid(),
        n <= old(access).items().len(),
        low < high,
        high - low == pow2(e),
        high <= usize::MAX / 2 + 1,
    ensures
        old(access).steady() ==> r.is_ok(),
        r matches Err(e) ==> A::reports(e),
        r.is_ok() ==> {
            &&& carried(*old(access), *final(access))
            &&& reached(old(access).seen(), final(access).seen(), n as int)
            &&& played::<T, C>(
                old(access).items(),
                final(access).items(),
                old(access).seen(),
                final(access).seen(),
                sort_pairs(n as int, low as int, high as int, e),
            )
            &&& untouched(
                old(access).items(),
                final(access).items(),
                n as int,
                span(low as int, high as int),
            )
            &&& same_bag(old(access).items(), final(access).items(), n as int)
            &&& vsorted(keys::<T, C>(final(access).items()), n as int, span(low as int, high as int))
        },
    decreases e,
{
    let ghost before = access.items();
    let ghost s0 = access.seen();
    proof {
        lemma_pow2_facts(e);
        lemma_reached_self(s0, n as int);
    }
    if high - low > 1 {
        let m = (high - low) / 2;
        merge_sort_range::<T, C, A>(order, access, n, low, low + m, Ghost((e - 1) as nat))?;
        let ghost first = access.items();
        let ghost s1 = access.seen();
        merge_sort_range::<T, C, A>(order, access, n, low + m, high, Ghost((e - 1) as nat))?;
        let ghost second = access.items();
        let ghost s2 = access.seen();
        proof {
            lemma_reached_then(s0, s1, s2, n as int, n as int);
            lemma_span_lane(low as int, high as int);
            lemma_halves_sorted::<T, C>(first, second, n as int, low as int, low + m, high as int);
        }
        odd_even_merge::<T, C, A>(
            order,
            access,
            n,
            low,
            high,
            1,
            Ghost(span(low as int, high as int)),
            Ghost(e),
        )?;
        proof {
            lemma_reached_then(s0, s2, access.seen(), n as int, n as int);
            let p1 = sort_pairs(n as int, low as int, low + m, (e - 1) as nat);
            let p2 = sort_pairs(n as int, low + m, high as int, (e - 1) as nat);
            let p3 = merge_pairs(n as int, low as int, high as int, 1, e);
            lemma_played_then::<T, C>(before, first, second, s0, s1, s2, p1, p2);
            lemma_played_then::<T, C>(
                before,
                second,
                access.items(),
                s0,
                s2,
                access.seen(),
                p1 + p2,
                p3,
            );
            lemma_span_untouched(
                before,
                first,
                second,
                access.items(),
                n as int,
                low as int,
                low + m,
                high as int,
            );
        }
    } else {
        proof {
            assert(span(low as int, high as int).len() == 1);
            lemma_played_none::<T, C>(before, s0);
        }
    }
    Ok(())
}

/// The smallest power of two that is at least `n`.
fn enclosing_power(n: usize) -> (r: (usize, Ghost<nat>))
    requires
        n <= usize::MAX / 2 + 1,
    ensures
        r.0 == pow2(r.1@),
        n <= r.0 <= usize::MAX / 2 + 1,
        1 <= r.0,
        r.0 == 1 || r.0 / 2 < n,
{
    let mut p: usize = 1;
    let ghost mut e: nat = 0;
    proof {
        vstd::arithmetic::power2::lemma2_to64();
    }
    while p < n
        invariant
            p == pow2(e),
            1 <= p <= usize::MAX / 2 + 1,
            n <= usize::MAX / 2 + 1,
            p == 1 || p / 2 < n,
        decreases usize::MAX - p,
    {
        proof {
            let top = (usize::BITS - 1) as nat;
            unsigned_int_max_values();
            lemma_pow2_unfold(usize::BITS as nat);
            assert(usize::MAX / 2 + 1 == pow2(top));
            if e >= top {
                if e > top {
                    lemma_pow2_strictly_increases(top, e);
                }
                assert(false);
            }
            if e + 1 < top {
                lemma_pow2_strictly_increases(e + 1, top);
            }
            lemma_pow2_unfold(e + 1);
        }
        p = p * 2;
        proof {
            e = e + 1;
        }
    }
    (p, Ghost(e))
}

/// Sorts the elements at the positions of `range`, which starts at 0, into
/// ascending order of rank.
///
/// The elements are reached through `access` alone, two at a time, and the
/// pairs that are looked at depend on `range.end` only. Elements beyond the
/// range stay where they are. The sort fails only where a read or a write of
/// the store fails, and then reports that failure.
pub fn odd_even_mergesort<T: View, C: KeyOrder<T>, A: Access<T>>(
    range: Range<usize>,
    order: &C,
    access: &mut A,
) -> (r: Result<(), A::Error>)
    requires
        range.start == 0,
        range.end <= old(access).items().len(),
        range.end <= usize::MAX / 2 + 1,
        old(access).valid(),
    ensures
        old(access).steady() ==> r.is_ok(),
        r matches Err(e) ==> A::reports(e),
        r.is_ok() ==> {
            &&& carried(*old(access), *final(access))
            &&& reached(old(access).seen(), final(access).seen(), range.end as int)
            &&& played::<T, C>(
                old(access).items(),
                final(access).items(),
                old(access).seen(),
                final(access).seen(),
                network(range.end as int),
            )
            &&& sorted_prefix::<T, C>(old(access).items(), final(access).items(), range.end as int)
        },
{
    let n = range.end;
    let (high, Ghost(e)) = enclosing_power(n);
    proof {
        lemma_pow2_facts(e);
        assert(covers(e, n as int));
        lemma_cover(n as int, e);
    }
    let r = merge_sort_range::<T, C, A>(order, access, n, 0, high, Ghost(e));
    proof {
        if r.is_ok() {
            let before = old(access).items();
            let after = access.items();
            let k = keys::<T, C>(after);
            let whole = span(0, high as int);
            assert forall|i: int, j: int| 0 <= i < j < n implies k[i] <= k[j] by {
                assert(whole[i] == i && whole[j] == j);
                assert(k[whole[i]] <= k[whole[j]]);
            }
            assert(after.subrange(n as int, after.len() as int) =~= before.subrange(
                n as int,
                before.len() as int,
            ));
        }
    }
    r
}

} // verus!
