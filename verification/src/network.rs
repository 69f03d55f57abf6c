//! The odd-even merge network, seen as a statement about sequences of keys.
//!
//! The network works on *lanes*: positions `low, low + d, low + 2d, ..` below
//! `high`. Only positions below a bound `n` hold elements; a comparator that
//! reaches `n` or beyond is left out, which is the same as an element larger
//! than all others standing there. The lemmas of this module say when a lane
//! is ascending after the comparators of one merge step.

use vstd::arithmetic::power2::{lemma2_to64, lemma_pow2_pos, lemma_pow2_unfold, pow2};
use vstd::prelude::*;
use crate::zero_one::{
    evens, front_loaded, lemma_even_odd_gap, lemma_evens_odds_concat, lemma_front_loaded_boundary,
    lemma_ones_by_parity, lemma_ones_concat, lemma_ones_swap, odds, ones,
};

verus! {

/// What the halving steps of the network use of a power of two.
pub proof fn lemma_pow2_facts(e: nat)
    ensures
        pow2(e) >= 1,
        e == 0 ==> pow2(e) == 1,
        e == 1 ==> pow2(e) == 2,
        e >= 1 ==> pow2(e) == 2 * pow2((e - 1) as nat) && pow2(e) >= 2,
        e >= 2 ==> pow2(e) % 4 == 0 && pow2(e) >= 4,
{
    lemma_pow2_pos(e);
    lemma2_to64();
    if e >= 1 {
        lemma_pow2_unfold(e);
        lemma_pow2_pos((e - 1) as nat);
        if e >= 2 {
            lemma_pow2_unfold((e - 1) as nat);
            lemma_pow2_pos((e - 2) as nat);
        }
    }
}

/// `ps` lists the positions `low, low + d, ..` below `high`, none left out.
pub open spec fn lane(ps: Seq<int>, low: int, high: int, d: int) -> bool {
    &&& ps.len() >= 1
    &&& d >= 1
    &&& 0 <= low
    &&& ps[0] == low
    &&& forall|j: int| 1 <= j < ps.len() ==> #[trigger] ps[j] == ps[j - 1] + d
    &&& ps.last() < high <= ps.last() + d
}

/// The positions `low, low + 1, .., high - 1`.
pub open spec fn span(low: int, high: int) -> Seq<int> {
    Seq::new((high - low) as nat, |j: int| low + j)
}

/// The positions of `ps` grow strictly.
pub open spec fn increasing(ps: Seq<int>) -> bool {
    forall|i: int, j: int| 0 <= i < j < ps.len() ==> #[trigger] ps[i] < #[trigger] ps[j]
}

proof fn lemma_lane_gap(ps: Seq<int>, low: int, high: int, d: int, i: int, j: int)
    requires
        lane(ps, low, high, d),
        0 <= i <= j < ps.len(),
    ensures
        ps[j] >= ps[i] + (j - i),
        ps[i] >= low,
    decreases j,
{
    if j > 0 {
        if i < j {
            lemma_lane_gap(ps, low, high, d, i, j - 1);
        } else {
            lemma_lane_gap(ps, low, high, d, i - 1, j - 1);
        }
        assert(ps[j] == ps[j - 1] + d);
    }
}

pub proof fn lemma_lane_increasing(ps: Seq<int>, low: int, high: int, d: int)
    requires
        lane(ps, low, high, d),
    ensures
        increasing(ps),
        forall|j: int| 0 <= j < ps.len() ==> low <= #[trigger] ps[j] < high,
{
    assert forall|i: int, j: int| 0 <= i < j < ps.len() implies #[trigger] ps[i]
        < #[trigger] ps[j] by {
        lemma_lane_gap(ps, low, high, d, i, j);
    }
    assert forall|j: int| 0 <= j < ps.len() implies low <= #[trigger] ps[j] < high by {
        lemma_lane_gap(ps, low, high, d, j, ps.len() - 1);
    }
}

/// A lane of even length falls into the lane of its even and the lane of its
/// odd entries, each with twice the step.
pub proof fn lemma_lane_split(ps: Seq<int>, low: int, high: int, d: int)
    requires
        lane(ps, low, high, d),
        ps.len() % 2 == 0,
    ensures
        lane(evens(ps), low, high, 2 * d),
        lane(odds(ps), low + d, high, 2 * d),
{
    let m = ps.len() as int;
    let ev = evens(ps);
    let od = odds(ps);
    assert(ps[1] == ps[0] + d);
    assert forall|j: int| 1 <= j < ev.len() implies #[trigger] ev[j] == ev[j - 1] + 2 * d by {
        assert(ps[2 * j] == ps[2 * j - 1] + d);
        assert(ps[2 * j - 1] == ps[2 * j - 2] + d);
    }
    assert forall|j: int| 1 <= j < od.len() implies #[trigger] od[j] == od[j - 1] + 2 * d by {
        assert(ps[2 * j + 1] == ps[2 * j] + d);
        assert(ps[2 * j] == ps[2 * j - 1] + d);
    }
    assert(ps[m - 1] == ps[m - 2] + d);
    assert(ev.last() == ps[m - 2]);
    assert(od.last() == ps[m - 1]);
}

pub proof fn lemma_span_lane(low: int, high: int)
    requires
        0 <= low < high,
    ensures
        lane(span(low, high), low, high, 1),
{
}

/// A position of `ps` is one of its even or one of its odd entries, and not
/// both.
pub proof fn lemma_parity_members(ps: Seq<int>)
    requires
        ps.len() % 2 == 0,
        increasing(ps),
    ensures
        forall|p: int| ps.contains(p) <==> evens(ps).contains(p) || odds(ps).contains(p),
        forall|p: int| !(evens(ps).contains(p) && odds(ps).contains(p)),
{
    let ev = evens(ps);
    let od = odds(ps);
    assert forall|p: int| ps.contains(p) <==> ev.contains(p) || od.contains(p) by {
        if ps.contains(p) {
            let i = choose|i: int| 0 <= i < ps.len() && ps[i] == p;
            if i % 2 == 0 {
                assert(ev[i / 2] == p);
            } else {
                assert(od[i / 2] == p);
            }
        }
        if ev.contains(p) {
            let i = choose|i: int| 0 <= i < ev.len() && ev[i] == p;
            assert(ps[2 * i] == p);
        }
        if od.contains(p) {
            let i = choose|i: int| 0 <= i < od.len() && od[i] == p;
            assert(ps[2 * i + 1] == p);
        }
    }
    assert forall|p: int| !(ev.contains(p) && od.contains(p)) by {
        if ev.contains(p) && od.contains(p) {
            let i = choose|i: int| 0 <= i < ev.len() && ev[i] == p;
            let j = choose|j: int| 0 <= j < od.len() && od[j] == p;
            assert(ps[2 * i] == ps[2 * j + 1]);
            if 2 * i < 2 * j + 1 {
                assert(ps[2 * i] < ps[2 * j + 1]);
            } else {
                assert(ps[2 * j + 1] < ps[2 * i]);
            }
        }
    }
}

/// The keys at the positions of `ps` that lie below `n` are ascending.
pub open spec fn vsorted(k: Seq<int>, n: int, ps: Seq<int>) -> bool {
    forall|i: int, j: int|
        0 <= i < j < ps.len() && ps[j] < n ==> k[#[trigger] ps[i]] <= k[#[trigger] ps[j]]
}

/// For each position of `ps`, whether it holds a key below `t`.
pub open spec fn bits(k: Seq<int>, n: int, t: int, ps: Seq<int>) -> Seq<bool> {
    Seq::new(ps.len(), |j: int| ps[j] < n && k[ps[j]] < t)
}

/// Below every threshold, `k1` has as many keys at the positions of `ps` as
/// `k0` has.
pub open spec fn same_counts(k0: Seq<int>, k1: Seq<int>, n: int, ps: Seq<int>) -> bool {
    forall|t: int| ones(#[trigger] bits(k1, n, t, ps)) == ones(bits(k0, n, t, ps))
}

/// `k0` and `k1` hold the same keys at the positions of `ps` below `n`.
pub open spec fn agree_on(k0: Seq<int>, k1: Seq<int>, n: int, ps: Seq<int>) -> bool {
    forall|j: int| 0 <= j < ps.len() && ps[j] < n ==> k1[#[trigger] ps[j]] == k0[ps[j]]
}

pub proof fn lemma_agree_keeps(k0: Seq<int>, k1: Seq<int>, n: int, ps: Seq<int>)
    requires
        agree_on(k0, k1, n, ps),
        increasing(ps),
    ensures
        same_counts(k0, k1, n, ps),
        vsorted(k0, n, ps) ==> vsorted(k1, n, ps),
{
    assert forall|t: int| ones(#[trigger] bits(k1, n, t, ps)) == ones(bits(k0, n, t, ps)) by {
        assert(bits(k1, n, t, ps) =~= bits(k0, n, t, ps));
    }
    if vsorted(k0, n, ps) {
        assert forall|i: int, j: int| 0 <= i < j < ps.len() && ps[j] < n implies k1[#[trigger] ps[i]]
            <= k1[#[trigger] ps[j]] by {
            assert(ps[i] < ps[j]);
        }
    }
}

pub proof fn lemma_vsorted_front_loaded(k: Seq<int>, n: int, t: int, ps: Seq<int>)
    requires
        vsorted(k, n, ps),
        increasing(ps),
    ensures
        front_loaded(bits(k, n, t, ps)),
{
    let b = bits(k, n, t, ps);
    assert forall|i: int, j: int| 0 <= i < j < b.len() && b[j] implies b[i] by {
        assert(ps[i] < ps[j]);
        assert(k[ps[i]] <= k[ps[j]]);
    }
}

pub proof fn lemma_vsorted_parts(k: Seq<int>, n: int, ps: Seq<int>, a: int, b: int)
    requires
        vsorted(k, n, ps),
        0 <= a <= b <= ps.len(),
    ensures
        vsorted(k, n, ps.subrange(a, b)),
        ps.len() % 2 == 0 ==> vsorted(k, n, evens(ps)) && vsorted(k, n, odds(ps)),
{
    let q = ps.subrange(a, b);
    assert forall|i: int, j: int| 0 <= i < j < q.len() && q[j] < n implies k[#[trigger] q[i]]
        <= k[#[trigger] q[j]] by {
        assert(k[ps[a + i]] <= k[ps[a + j]]);
    }
    if ps.len() % 2 == 0 {
        let ev = evens(ps);
        let od = odds(ps);
        assert forall|i: int, j: int| 0 <= i < j < ev.len() && ev[j] < n implies k[#[trigger] ev[i]]
            <= k[#[trigger] ev[j]] by {
            assert(k[ps[2 * i]] <= k[ps[2 * j]]);
        }
        assert forall|i: int, j: int| 0 <= i < j < od.len() && od[j] < n implies k[#[trigger] od[i]]
            <= k[#[trigger] od[j]] by {
            assert(k[ps[2 * i + 1]] <= k[ps[2 * j + 1]]);
        }
    }
}

/// The same counts on the even and on the odd entries of a lane are the same
/// counts on the lane.
pub proof fn lemma_counts_join(k0: Seq<int>, k1: Seq<int>, n: int, ps: Seq<int>)
    requires
        ps.len() % 2 == 0,
        same_counts(k0, k1, n, evens(ps)),
        same_counts(k0, k1, n, odds(ps)),
    ensures
        same_counts(k0, k1, n, ps),
{
    assert forall|t: int| ones(#[trigger] bits(k1, n, t, ps)) == ones(bits(k0, n, t, ps)) by {
        lemma_ones_by_parity(bits(k1, n, t, ps));
        lemma_ones_by_parity(bits(k0, n, t, ps));
        assert(evens(bits(k1, n, t, ps)) =~= bits(k1, n, t, evens(ps)));
        assert(odds(bits(k1, n, t, ps)) =~= bits(k1, n, t, odds(ps)));
        assert(evens(bits(k0, n, t, ps)) =~= bits(k0, n, t, evens(ps)));
        assert(odds(bits(k0, n, t, ps)) =~= bits(k0, n, t, odds(ps)));
    }
}

pub proof fn lemma_counts_chain(k0: Seq<int>, k1: Seq<int>, k2: Seq<int>, n: int, ps: Seq<int>)
    requires
        same_counts(k0, k1, n, ps),
        same_counts(k1, k2, n, ps),
    ensures
        same_counts(k0, k2, n, ps),
{
    assert forall|t: int| ones(#[trigger] bits(k2, n, t, ps)) == ones(bits(k0, n, t, ps)) by {
        assert(ones(bits(k1, n, t, ps)) == ones(bits(k0, n, t, ps)));
    }
}

/// Exchanging the keys at two positions of a lane keeps its counts.
pub proof fn lemma_counts_swap(k: Seq<int>, n: int, ps: Seq<int>, i: int, j: int)
    requires
        increasing(ps),
        0 <= i < j < ps.len(),
        ps[j] < n <= k.len(),
        0 <= ps[0],
    ensures
        same_counts(k, k.update(ps[i], k[ps[j]]).update(ps[j], k[ps[i]]), n, ps),
{
    let k1 = k.update(ps[i], k[ps[j]]).update(ps[j], k[ps[i]]);
    assert(ps[i] < ps[j]);
    assert forall|t: int| ones(#[trigger] bits(k1, n, t, ps)) == ones(bits(k, n, t, ps)) by {
        let b = bits(k, n, t, ps);
        assert(bits(k1, n, t, ps) =~= b.update(i, b[j]).update(j, b[i])) by {
            assert forall|x: int| 0 <= x < ps.len() implies bits(k1, n, t, ps)[x] == b.update(
                i,
                b[j],
            ).update(j, b[i])[x] by {
                if 0 < x {
                    assert(ps[0] < ps[x]);
                }
                if x != i && x != j {
                    if x < i {
                        assert(ps[x] < ps[i]);
                    } else {
                        assert(ps[i] < ps[x]);
                    }
                    if x < j {
                        assert(ps[x] < ps[j]);
                    } else {
                        assert(ps[j] < ps[x]);
                    }
                }
            }
        }
        lemma_ones_swap(b, i, j);
    }
}

/// The first half of `s`.
pub open spec fn lower_half<A>(s: Seq<A>) -> Seq<A> {
    s.subrange(0, s.len() as int / 2)
}

/// The second half of `s`.
pub open spec fn upper_half<A>(s: Seq<A>) -> Seq<A> {
    s.subrange(s.len() as int / 2, s.len() as int)
}

pub proof fn lemma_increasing_parts(ps: Seq<int>, a: int, b: int)
    requires
        increasing(ps),
        0 <= a <= b <= ps.len(),
    ensures
        increasing(ps.subrange(a, b)),
        ps.len() % 2 == 0 ==> increasing(evens(ps)) && increasing(odds(ps)),
{
    let q = ps.subrange(a, b);
    assert forall|i: int, j: int| 0 <= i < j < q.len() implies #[trigger] q[i] < #[trigger] q[j] by {
        assert(ps[a + i] < ps[a + j]);
    }
    if ps.len() % 2 == 0 {
        let ev = evens(ps);
        let od = odds(ps);
        assert forall|i: int, j: int| 0 <= i < j < ev.len() implies #[trigger] ev[i] < #[trigger] ev[j] by {
            assert(ps[2 * i] < ps[2 * j]);
        }
        assert forall|i: int, j: int| 0 <= i < j < od.len() implies #[trigger] od[i] < #[trigger] od[j] by {
            assert(ps[2 * i + 1] < ps[2 * j + 1]);
        }
    }
}

/// After the two halves of a lane were ascending, and its even and its odd
/// entries have each been rearranged among themselves, the even entries hold,
/// below every threshold, as many keys as the odd ones, or up to two more.
pub proof fn lemma_count_gap(k0: Seq<int>, k: Seq<int>, n: int, t: int, ps: Seq<int>)
    requires
        ps.len() % 4 == 0,
        increasing(ps),
        vsorted(k0, n, lower_half(ps)),
        vsorted(k0, n, upper_half(ps)),
        same_counts(k0, k, n, evens(ps)),
        same_counts(k0, k, n, odds(ps)),
    ensures
        ones(bits(k, n, t, odds(ps))) <= ones(bits(k, n, t, evens(ps))) <= ones(
            bits(k, n, t, odds(ps)),
        ) + 2,
{
    let m = ps.len() as int;
    let h = m / 2;
    let b0 = bits(k0, n, t, ps);
    let a = b0.subrange(0, h);
    let c = b0.subrange(h, m);
    assert(b0 =~= a + c);
    assert(a =~= bits(k0, n, t, ps.subrange(0, h)));
    assert(c =~= bits(k0, n, t, ps.subrange(h, m)));
    lemma_increasing_parts(ps, 0, h);
    lemma_increasing_parts(ps, h, m);
    lemma_vsorted_front_loaded(k0, n, t, ps.subrange(0, h));
    lemma_vsorted_front_loaded(k0, n, t, ps.subrange(h, m));
    lemma_even_odd_gap(a);
    lemma_even_odd_gap(c);
    lemma_evens_odds_concat(a, c);
    lemma_ones_concat(evens(a), evens(c));
    lemma_ones_concat(odds(a), odds(c));
    assert(evens(b0) =~= bits(k0, n, t, evens(ps)));
    assert(odds(b0) =~= bits(k0, n, t, odds(ps)));
    assert(ones(bits(k, n, t, evens(ps))) == ones(bits(k0, n, t, evens(ps))));
    assert(ones(bits(k, n, t, odds(ps))) == ones(bits(k0, n, t, odds(ps))));
}

/// What the last comparators of a merge step rest on, at the `i`-th odd entry
/// of the lane: the even entry before it is not larger, and the even entry
/// three places on is not smaller.
pub open spec fn gap_at(k: Seq<int>, n: int, ps: Seq<int>, i: int) -> bool {
    &&& ps[2 * i + 1] < n ==> k[ps[2 * i]] <= k[ps[2 * i + 1]]
    &&& 2 * i + 4 < ps.len() && ps[2 * i + 4] < n ==> k[ps[2 * i + 1]] <= k[ps[2 * i + 4]]
}

pub proof fn lemma_gap_at(k0: Seq<int>, k: Seq<int>, n: int, ps: Seq<int>, i: int)
    requires
        ps.len() % 4 == 0,
        increasing(ps),
        vsorted(k0, n, lower_half(ps)),
        vsorted(k0, n, upper_half(ps)),
        same_counts(k0, k, n, evens(ps)),
        same_counts(k0, k, n, odds(ps)),
        vsorted(k, n, evens(ps)),
        vsorted(k, n, odds(ps)),
        0 <= i < ps.len() / 2,
    ensures
        gap_at(k, n, ps, i),
{
    lemma_increasing_parts(ps, 0, 0);
    let ev = evens(ps);
    let od = odds(ps);
    if ps[2 * i + 1] < n && k[ps[2 * i]] > k[ps[2 * i + 1]] {
        let t = k[ps[2 * i + 1]] + 1;
        lemma_count_gap(k0, k, n, t, ps);
        lemma_vsorted_front_loaded(k, n, t, ev);
        lemma_vsorted_front_loaded(k, n, t, od);
        lemma_front_loaded_boundary(bits(k, n, t, ev));
        lemma_front_loaded_boundary(bits(k, n, t, od));
        assert(bits(k, n, t, od)[i]);
        assert(!bits(k, n, t, ev)[i]);
    }
    if 2 * i + 4 < ps.len() && ps[2 * i + 4] < n && k[ps[2 * i + 1]] > k[ps[2 * i + 4]] {
        let t = k[ps[2 * i + 4]] + 1;
        lemma_count_gap(k0, k, n, t, ps);
        lemma_vsorted_front_loaded(k, n, t, ev);
        lemma_vsorted_front_loaded(k, n, t, od);
        lemma_front_loaded_boundary(bits(k, n, t, ev));
        lemma_front_loaded_boundary(bits(k, n, t, od));
        assert(bits(k, n, t, ev)[i + 2]);
        assert(!bits(k, n, t, od)[i]);
    }
}

pub open spec fn min_key(a: int, b: int) -> int {
    if a <= b {
        a
    } else {
        b
    }
}

pub open spec fn max_key(a: int, b: int) -> int {
    if a <= b {
        b
    } else {
        a
    }
}

/// The comparator between the `j`-th odd entry of the lane and the even entry
/// after it has been applied to `kb`, giving `kc`.
pub open spec fn pair_done(kb: Seq<int>, kc: Seq<int>, n: int, ps: Seq<int>, j: int) -> bool {
    let a = ps[2 * j + 1];
    let b = ps[2 * j + 2];
    if b < n {
        kc[a] == min_key(kb[a], kb[b]) && kc[b] == max_key(kb[a], kb[b])
    } else {
        a < n ==> kc[a] == kb[a]
    }
}

/// The first `t` comparators of the last row of a merge step have been
/// applied to `kb`, giving `kc`; the other entries of the lane are as in `kb`.
pub open spec fn exchanged(kb: Seq<int>, kc: Seq<int>, n: int, ps: Seq<int>, t: int) -> bool {
    &&& forall|j: int| 0 <= j < t ==> #[trigger] pair_done(kb, kc, n, ps, j)
    &&& forall|j: int|
        0 <= j < ps.len() && (j == 0 || j > 2 * t) && ps[j] < n ==> kc[#[trigger] ps[j]] == kb[ps[j]]
}

/// Entry `j` of the lane is not larger than the entry after it.
pub open spec fn step_ok(k: Seq<int>, n: int, ps: Seq<int>, j: int) -> bool {
    ps[j + 1] < n ==> k[ps[j]] <= k[ps[j + 1]]
}

proof fn lemma_chain(k: Seq<int>, n: int, ps: Seq<int>, i: int, j: int)
    requires
        increasing(ps),
        forall|x: int| 0 <= x < ps.len() - 1 ==> #[trigger] step_ok(k, n, ps, x),
        0 <= i < j < ps.len(),
        ps[j] < n,
    ensures
        k[ps[i]] <= k[ps[j]],
    decreases j - i,
{
    assert(step_ok(k, n, ps, j - 1));
    if i < j - 1 {
        assert(ps[j - 1] < ps[j]);
        lemma_chain(k, n, ps, i, j - 1);
    }
}

pub proof fn lemma_steps_sorted(k: Seq<int>, n: int, ps: Seq<int>)
    requires
        increasing(ps),
        forall|x: int| 0 <= x < ps.len() - 1 ==> #[trigger] step_ok(k, n, ps, x),
    ensures
        vsorted(k, n, ps),
{
    assert forall|i: int, j: int| 0 <= i < j < ps.len() && ps[j] < n implies k[#[trigger] ps[i]]
        <= k[#[trigger] ps[j]] by {
        lemma_chain(k, n, ps, i, j);
    }
}

/// The last row of comparators of a merge step leaves the lane ascending.
pub proof fn lemma_exchanged_sorted(kb: Seq<int>, kc: Seq<int>, n: int, ps: Seq<int>)
    requires
        ps.len() % 2 == 0,
        ps.len() >= 4,
        increasing(ps),
        exchanged(kb, kc, n, ps, ps.len() / 2 - 1),
        forall|i: int| 0 <= i < ps.len() / 2 ==> #[trigger] gap_at(kb, n, ps, i),
        vsorted(kb, n, evens(ps)),
        vsorted(kb, n, odds(ps)),
    ensures
        vsorted(kc, n, ps),
{
    let m = ps.len() as int;
    let h = m / 2;
    let ev = evens(ps);
    let od = odds(ps);
    assert forall|x: int| 0 <= x < m - 1 implies #[trigger] step_ok(kc, n, ps, x) by {
        if ps[x + 1] < n {
            assert(ps[x] < ps[x + 1]);
            if x % 2 == 1 {
                let j = x / 2;
                assert(pair_done(kb, kc, n, ps, j));
            } else {
                let j = x / 2;
                assert(x == 2 * j);
                assert(gap_at(kb, n, ps, j));
                let left = ps[2 * j];
                let right = ps[2 * j + 1];
                // the entry on the right, as the comparator after it left it
                if j == h - 1 {
                    assert(kc[ps[m - 1]] == kb[ps[m - 1]]);
                } else {
                    assert(pair_done(kb, kc, n, ps, j));
                    if ps[2 * j + 2] < n {
                        assert(ev[j] == ps[2 * j] && ev[j + 1] == ps[2 * j + 2]);
                        assert(kb[ev[j]] <= kb[ev[j + 1]]);
                    }
                }
                // the entry on the left, as the comparator before it left it
                if j == 0 {
                    assert(kc[ps[0]] == kb[ps[0]]);
                } else {
                    assert(pair_done(kb, kc, n, ps, j - 1));
                    assert(gap_at(kb, n, ps, j - 1));
                    assert(od[j - 1] == ps[2 * j - 1] && od[j] == ps[2 * j + 1]);
                    assert(kb[od[j - 1]] <= kb[od[j]]);
                }
            }
        }
    }
    lemma_steps_sorted(kc, n, ps);
}

} // verus!
