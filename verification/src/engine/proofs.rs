//! Why the steps of the protocol leave the engine in order.

use vstd::prelude::*;
use crate::arrangement::{
    ascending_indices, home_order, lemma_bag_map, lemma_bag_member, lemma_bag_swap,
    lemma_bag_whole, lemma_one_holder, lemma_sorted_is_home,
};
use crate::block::{fits, tag_of, BlockCache, BlockView, DUMMY_INDEX};
use crate::db::Touch;
use crate::engine::blocks::{ByIndex, ByTag, Slot};
use crate::engine::model::{
    is_root, probe_trace, read_of, resting, root, scan_trace, slot_key, slot_keys, stored_block,
    write_of, OramView,
};
use crate::sort::{keys, sorted_prefix};

verus! {

/// There is one number whose square is the largest not above `n`.
pub proof fn lemma_root(n: nat, s: nat)
    requires
        s * s <= n < (s + 1) * (s + 1),
    ensures
        root(n) == s,
{
    let r = root(n);
    assert(is_root(s, n));
    assert(is_root(r, n));
    if r < s {
        assert((r + 1) * (r + 1) <= s * s) by (nonlinear_arith)
            requires
                0 <= r + 1 <= s,
        ;
    }
    if s < r {
        assert((s + 1) * (s + 1) <= r * r) by (nonlinear_arith)
            requires
                0 <= s + 1 <= r,
        ;
    }
}

/// The shelter of an engine whose slots can be numbered in 32 bits has fewer
/// than 65536 slots.
pub proof fn lemma_root_small(n: nat)
    ensures
        is_root(root(n), n),
        root(n) <= n,
        n <= u32::MAX ==> root(n) <= 0xFFFF,
{
    assert(n * n >= n) by (nonlinear_arith);
    lemma_root_exists(n, n);
    let r = root(n);
    assert(is_root(r, n));
    assert(r <= r * r) by (nonlinear_arith)
        requires
            r >= 0,
    ;
    if n <= u32::MAX && r > 0xFFFF {
        assert(r * r >= 0x1_0000 * 0x1_0000) by (nonlinear_arith)
            requires
                r >= 0x1_0000,
        ;
    }
}

/// Every number has a root.
proof fn lemma_root_exists(n: nat, bound: nat)
    requires
        bound * bound >= n,
    ensures
        exists|s: nat| #[trigger] is_root(s, n),
    decreases bound,
{
    if bound == 0 {
        assert(is_root(0, n)) by (nonlinear_arith)
            requires
                n <= bound * bound,
                bound == 0,
        ;
    } else {
        let b = (bound - 1) as nat;
        if b * b <= n {
            if n < (b + 1) * (b + 1) {
                assert(is_root(b, n));
            } else {
                assert(is_root(bound, n)) by (nonlinear_arith)
                    requires
                        bound * bound >= n,
                        n >= (b + 1) * (b + 1),
                        b + 1 == bound,
                ;
            }
        } else {
            lemma_root_exists(n, b);
        }
    }
}

/// The shelter of an engine that has blocks has room.
pub proof fn lemma_has_root(v: OramView)
    requires
        v.shaped(),
    ensures
        v.prefix() > 0 ==> v.shelter_size > 0,
{
    if v.shelter_size == 0 {
        assert((v.shelter_size + 1) * (v.shelter_size + 1) == 1) by (nonlinear_arith)
            requires
                v.shelter_size == 0,
        ;
    }
}

/// A block written to a slot of an engine whose cache mirrors storage leaves
/// the cache mirroring storage.
pub proof fn lemma_put_block(v: OramView, k: int, b: BlockView)
    requires
        v.consistent(),
        0 <= k < v.capacity,
        fits(b, v.block_size),
    ensures
        v.put_block(k, b).consistent(),
        v.put_block(k, b).items() == v.items().update(k, b),
        v.put_block(k, b).frame() == v.frame(),
{
    let w = v.put_block(k, b);
    assert forall|i: int| 0 <= i < w.capacity implies #[trigger] w.slot_ok(i) by {
        assert(v.slot_ok(i));
    }
    assert(w.items() =~= v.items().update(k, b));
}

/// A block written back to the slot it was read from changes nothing.
pub proof fn lemma_written_back(v: OramView, i: int)
    requires
        v.consistent(),
        0 <= i < v.capacity,
    ensures
        v.put_block(i, v.items()[i]) == v,
{
    assert(v.slot_ok(i));
    let w = v.put_block(i, v.items()[i]);
    assert(w.cache =~= v.cache);
    assert(w.slots =~= v.slots);
}

/// The keys of one slot more are the keys so far and the key of that slot.
pub proof fn lemma_slot_keys_next(i: nat)
    ensures
        slot_keys(i + 1) == slot_keys(i).insert(slot_key(i as int)),
{
    assert forall|key: Seq<u8>| slot_keys(i + 1).contains(key) <==> slot_keys(i).insert(
        slot_key(i as int),
    ).contains(key) by {
        if slot_keys(i + 1).contains(key) {
            let j = choose|j: int| 0 <= j < i + 1 && key == #[trigger] slot_key(j);
            if j < i {
                assert(slot_keys(i).contains(key));
            }
        }
        if slot_keys(i).contains(key) {
            let j = choose|j: int| 0 <= j < i && key == #[trigger] slot_key(j);
            assert(0 <= j < i + 1 && key == slot_key(j));
        }
        if key == slot_key(i as int) {
            assert(0 <= i < i + 1 && key == slot_key(i as int));
        }
    }
    assert(slot_keys(i + 1) =~= slot_keys(i).insert(slot_key(i as int)));
}

/// The payloads of a shuffled engine are as long as they were, and the
/// blocks of the shelter are the ones that were there.
pub proof fn lemma_fresh_shuffled(b: OramView, c: OramView)
    requires
        b.consistent(),
        c.consistent(),
        c.frame() == b.frame(),
        b.fresh(),
        sorted_prefix::<Slot, ByTag>(b.items(), c.items(), b.prefix() as int),
    ensures
        c.fresh(),
{
    let m = b.prefix() as int;
    let cap = b.capacity as int;
    let bp = b.items().subrange(0, m);
    let cp = c.items().subrange(0, m);
    assert forall|i: int| 0 <= i < c.capacity implies ((#[trigger] c.slots[i]) matches Some(x)
        && x.data.buf.len() == c.block_size) by {
        assert(c.slot_ok(i));
        if i < m {
            let q = lemma_bag_member(cp, bp, i);
            assert(b.slot_ok(q));
            assert(b.slots[q] is Some);
        } else {
            assert(c.items().subrange(m, cap)[i - m] == b.items().subrange(m, cap)[i - m]);
            assert(b.slot_ok(i));
            assert(b.slots[i] is Some);
        }
    }
    assert forall|i: int| c.prefix() <= i < c.capacity implies #[trigger] c.cache[i]
        == OramView::keyless(tag_of(DUMMY_INDEX, c.salt)) by {
        assert(c.items().subrange(m, cap)[i - m] == b.items().subrange(m, cap)[i - m]);
        assert(b.slot_ok(i));
        assert(c.slot_ok(i));
        assert(b.cache[i] == OramView::keyless(tag_of(DUMMY_INDEX, b.salt)));
    }
}

/// A trace is a beginning of what it is continued to.
pub proof fn lemma_prefix_plus(a: Seq<Touch>, b: Seq<Touch>)
    ensures
        a.is_prefix_of(a + b),
{
    assert((a + b).subrange(0, a.len() as int) =~= a);
}

/// The beginning of a beginning of a trace is a beginning of the trace.
pub proof fn lemma_prefix_chain(a: Seq<Touch>, b: Seq<Touch>, c: Seq<Touch>)
    requires
        a.is_prefix_of(b),
        b.is_prefix_of(c),
    ensures
        a.is_prefix_of(c),
{
    assert(c.subrange(0, a.len() as int) =~= b.subrange(0, a.len() as int));
}

/// Three touches after a trace are the trace of a probe after it.
pub proof fn lemma_probe_trace(t: Seq<Touch>, probe: int, next: int)
    ensures
        t.push(read_of(probe)).push(write_of(probe)).push(write_of(next)) == t + probe_trace(
            probe,
            next,
        ),
{
    assert(t.push(read_of(probe)).push(write_of(probe)).push(write_of(next)) =~= t + probe_trace(
        probe,
        next,
    ));
}

/// The scan of the shelter and the probe after it, seen after a trace, are
/// the footprint of the access after that trace.
pub proof fn lemma_footprint(t: Seq<Touch>, v: OramView, k: u32)
    ensures
        v.sheltered(k) ==> t + scan_trace(v.prefix() as int, v.capacity as int) + probe_trace(
            v.tag_slot(tag_of((v.n + v.count) as u32, v.salt)),
            v.next_slot(),
        ) == t + v.footprint(k),
        !v.sheltered(k) ==> t + scan_trace(v.prefix() as int, v.capacity as int) + probe_trace(
            v.tag_slot(tag_of(k, v.salt)),
            v.next_slot(),
        ) == t + v.footprint(k),
{
    let scan = scan_trace(v.prefix() as int, v.capacity as int);
    let probe = probe_trace(v.probe(k), v.next_slot());
    assert((t + scan) + probe =~= t + (scan + probe));
}

/// Whether the accesses are recorded does not matter to the order of the
/// engine, nor to the values it holds.
pub proof fn lemma_recording(v: OramView, recording: Option<nat>)
    requires
        v.wf(),
    ensures
        (OramView { recording, ..v }).wf(),
        forall|k: u32| #[trigger] (OramView { recording, ..v }).value_of(k) == v.value_of(k),
        forall|k: u32| #[trigger] (OramView { recording, ..v }).hit(k) == v.hit(k),
{
    reveal(OramView::arranged);
    let w = OramView { recording, ..v };
    assert forall|i: int| 0 <= i < w.capacity implies #[trigger] w.slot_ok(i) by {
        assert(v.slot_ok(i));
    }
    assert(w.indices() =~= v.indices());
    assert forall|j: int| 0 <= j < w.prefix() implies w.tagged(
        #[trigger] tag_of(j as u32, w.salt),
    ) by {
        assert(v.tagged(tag_of(j as u32, v.salt)));
        let p = choose|p: int| 0 <= p < v.prefix() && (#[trigger] v.cache[p]).tag == tag_of(
            j as u32,
            v.salt,
        );
        assert(w.cache[p].tag == tag_of(j as u32, w.salt));
    }
    assert forall|k: u32| #[trigger] w.value_of(k) == v.value_of(k) by {
        assert(w.holder(k) == v.holder(k));
        assert(w.items() =~= v.items());
    }
    assert forall|k: u32| #[trigger] w.hit(k) == v.hit(k) by {
        assert(w.sheltered(k) == v.sheltered(k));
        assert(w.shelter_slot(k) == v.shelter_slot(k));
        assert(w.tagged(tag_of(k, w.salt)) == v.tagged(tag_of(k, v.salt)));
        assert(w.tag_slot(tag_of(k, w.salt)) == v.tag_slot(tag_of(k, v.salt)));
    }
}

/// What an engine that is in order offers to an access.
pub proof fn lemma_in_order(v: OramView)
    requires
        v.wf(),
    ensures
        v.consistent(),
        v.count <= v.shelter_size,
        v.shelter_size > 0 ==> v.count < v.shelter_size,
        v.indices().to_multiset() == home_order(v.prefix() as int, v.capacity as int).to_multiset(),
        forall|i: int, j: int|
            0 <= i < j < v.prefix() ==> (#[trigger] v.cache[i]).tag <= (#[trigger] v.cache[j]).tag,
        v.shelter_size > 0 ==> v.tagged(tag_of((v.n + v.count) as u32, v.salt)),
        forall|i: int|
            v.prefix() + v.count <= i < v.capacity ==> (#[trigger] v.cache[i]).index == DUMMY_INDEX,
{
    reveal(OramView::arranged);
    if v.shelter_size > 0 {
        let j = (v.n + v.count) as int;
        assert(v.tagged(tag_of(j as u32, v.salt)));
    }
}

/// The logical indices in the cache are those of the blocks in storage.
proof fn lemma_indices_of_items(v: OramView)
    requires
        v.consistent(),
    ensures
        v.indices() == v.items().map_values(|b: BlockView| b.header.index),
{
    assert forall|i: int| 0 <= i < v.capacity implies v.indices()[i] == v.items().map_values(
        |b: BlockView| b.header.index,
    )[i] by {
        assert(v.slot_ok(i));
    }
    assert(v.indices() =~= v.items().map_values(|b: BlockView| b.header.index));
}

/// The one slot that holds the block of a key.
pub proof fn lemma_holder(v: OramView, k: u32, p: int)
    requires
        v.shaped(),
        v.indices().to_multiset() == home_order(v.prefix() as int, v.capacity as int).to_multiset(),
        k < v.prefix(),
        0 <= p < v.capacity,
        v.cache[p].index == k,
    ensures
        v.holder(k) == p,
{
    let q = lemma_one_holder(v.indices(), v.prefix() as int, v.capacity as int, k);
    assert(v.indices()[p] == k);
    assert(v.indices()[q] == k);
    let h = v.holder(k);
    assert(v.indices()[h] == k);
}

/// Every key of the real and the dummy range has a slot that holds its
/// block.
pub proof fn lemma_has_holder(v: OramView, k: u32)
    requires
        v.shaped(),
        v.indices().to_multiset() == home_order(v.prefix() as int, v.capacity as int).to_multiset(),
        k < v.prefix(),
    ensures
        0 <= v.holder(k) < v.capacity,
        v.cache[v.holder(k)].index == k,
{
    let q = lemma_one_holder(v.indices(), v.prefix() as int, v.capacity as int, k);
    assert(v.indices()[q] == k);
    lemma_holder(v, k, q);
}

/// Engines that hold the same blocks, in whatever slots, hold the same value
/// for every key.
proof fn lemma_values_kept(a: OramView, b: OramView)
    requires
        a.consistent(),
        b.consistent(),
        a.same_make(b),
        a.indices().to_multiset() == home_order(a.prefix() as int, a.capacity as int).to_multiset(),
        a.items().to_multiset() == b.items().to_multiset(),
    ensures
        b.indices().to_multiset() == home_order(b.prefix() as int, b.capacity as int).to_multiset(),
        forall|k: u32| k < a.prefix() ==> #[trigger] b.value_of(k) == a.value_of(k),
{
    lemma_indices_of_items(a);
    lemma_indices_of_items(b);
    lemma_bag_map(a.items(), b.items(), |x: BlockView| x.header.index);
    assert forall|k: u32| k < a.prefix() implies #[trigger] b.value_of(k) == a.value_of(k) by {
        lemma_has_holder(a, k);
        let p = a.holder(k);
        let q = lemma_bag_member(a.items(), b.items(), p);
        assert(a.slot_ok(p));
        assert(b.slot_ok(q));
        lemma_holder(b, k, q);
    }
}

proof fn lemma_least_sheltered(v: OramView, k: u32, upto: int)
    requires
        v.prefix() <= upto < v.capacity,
        v.cache[upto].index == k,
    ensures
        exists|i: int|
            v.prefix() <= i < v.capacity && (#[trigger] v.cache[i]).index == k && forall|j: int|
                v.prefix() <= j < i ==> (#[trigger] v.cache[j]).index != k,
    decreases upto - v.prefix(),
{
    if exists|j: int| v.prefix() <= j < upto && (#[trigger] v.cache[j]).index == k {
        let j = choose|j: int| v.prefix() <= j < upto && (#[trigger] v.cache[j]).index == k;
        lemma_least_sheltered(v, k, j);
    } else {
        assert(v.cache[upto].index == k);
    }
}

proof fn lemma_least_tagged(v: OramView, t: u32, upto: int)
    requires
        0 <= upto < v.prefix(),
        v.cache[upto].tag == t,
    ensures
        exists|p: int|
            0 <= p < v.prefix() && (#[trigger] v.cache[p]).tag == t && forall|q: int|
                0 <= q < p ==> (#[trigger] v.cache[q]).tag != t,
    decreases upto,
{
    if exists|j: int| 0 <= j < upto && (#[trigger] v.cache[j]).tag == t {
        let j = choose|j: int| 0 <= j < upto && (#[trigger] v.cache[j]).tag == t;
        lemma_least_tagged(v, t, j);
    } else {
        assert(v.cache[upto].tag == t);
    }
}

/// The slot that an access takes its block from is a slot of the engine: in
/// the shelter the first that holds the key, before the shelter the first
/// with the tag of the key.
pub proof fn lemma_hit(v: OramView, k: u32)
    requires
        v.shaped(),
        v.hit(k) is Some,
    ensures
        0 <= v.hit(k).unwrap() < v.capacity,
        v.sheltered(k) ==> {
            &&& v.prefix() <= v.hit(k).unwrap()
            &&& v.cache[v.hit(k).unwrap()].index == k
            &&& forall|j: int|
                v.prefix() <= j < v.hit(k).unwrap() ==> (#[trigger] v.cache[j]).index != k
        },
        !v.sheltered(k) ==> {
            &&& v.hit(k).unwrap() < v.prefix()
            &&& v.cache[v.hit(k).unwrap()].tag == tag_of(k, v.salt)
            &&& forall|q: int|
                0 <= q < v.hit(k).unwrap() ==> (#[trigger] v.cache[q]).tag != tag_of(k, v.salt)
        },
{
    if v.sheltered(k) {
        let i = choose|i: int|
            v.prefix() <= i < v.capacity && (#[trigger] v.cache[i]).index == k;
        lemma_least_sheltered(v, k, i);
    } else {
        let t = tag_of(k, v.salt);
        let p = choose|p: int| 0 <= p < v.prefix() && (#[trigger] v.cache[p]).tag == t;
        lemma_least_tagged(v, t, p);
    }
}

/// The block that an access finds, by what the scan of the shelter found.
pub proof fn lemma_found(v: OramView, k: u32)
    requires
        v.wf(),
    ensures
        v.consistent(),
        v.sheltered(k) ==> v.shelter_size > 0 && v.hit(k) == Some(v.shelter_slot(k)) && v.found(k)
            == v.items()[v.shelter_slot(k)],
        !v.sheltered(k) && v.tagged(tag_of(k, v.salt)) ==> v.hit(k) == Some(
            v.tag_slot(tag_of(k, v.salt)),
        ) && v.found(k) == v.items()[v.tag_slot(tag_of(k, v.salt))],
        !v.sheltered(k) && !v.tagged(tag_of(k, v.salt)) ==> v.hit(k) is None,
{
    lemma_in_order(v);
}

/// Where an access finds the block of its key, the payload that it finds is
/// the value that is stored for the key.
pub proof fn lemma_found_value(v: OramView, k: u32)
    requires
        v.wf(),
        k < v.prefix(),
        v.hit(k) is Some,
        v.found(k).header.index == k,
    ensures
        v.found(k).data.buf == v.value_of(k),
{
    lemma_in_order(v);
    lemma_hit(v, k);
    let slot = v.hit(k).unwrap();
    assert(v.slot_ok(slot));
    lemma_holder(v, k, slot);
}

/// After all slots were sorted by logical index, every block stands at home,
/// and the engine holds the values it held.
pub proof fn lemma_rearranged(v: OramView, a: OramView)
    requires
        v.consistent(),
        a.consistent(),
        a.frame() == v.frame(),
        v.indices().to_multiset() == home_order(v.prefix() as int, v.capacity as int).to_multiset(),
        sorted_prefix::<Slot, ByIndex>(v.items(), a.items(), v.capacity as int),
    ensures
        a.indices() == home_order(a.prefix() as int, a.capacity as int),
        forall|k: u32| k < v.prefix() ==> #[trigger] a.value_of(k) == v.value_of(k),
{
    let cap = v.capacity as int;
    assert(v.items().subrange(0, cap) =~= v.items());
    assert(a.items().subrange(0, cap) =~= a.items());
    lemma_values_kept(v, a);
    assert(ascending_indices(a.indices())) by {
        assert forall|i: int, j: int| 0 <= i < j < a.indices().len() implies a.indices()[i]
            <= a.indices()[j] by {
            assert(a.slot_ok(i));
            assert(a.slot_ok(j));
            assert(keys::<Slot, ByIndex>(a.items())[i] <= keys::<Slot, ByIndex>(a.items())[j]);
        }
    }
    lemma_sorted_is_home(a.indices(), a.prefix() as int, cap);
}

/// After the tags were renewed, blocks that stood at home still do, each
/// with the tag of its slot and the payload it had.
pub proof fn lemma_rehashed(a: OramView, b: OramView)
    requires
        a.consistent(),
        b.consistent(),
        b.same_make(a),
        a.indices() == home_order(a.prefix() as int, a.capacity as int),
        forall|i: int|
            0 <= i < b.capacity ==> #[trigger] b.items()[i] == (if i < b.prefix() {
                BlockView {
                    header: BlockCache {
                        tag: tag_of(i as u32, b.salt),
                        index: a.items()[i].header.index,
                    },
                    data: a.items()[i].data,
                }
            } else {
                a.items()[i]
            }),
    ensures
        b.indices() == home_order(b.prefix() as int, b.capacity as int),
        forall|i: int| 0 <= i < b.prefix() ==> (#[trigger] b.cache[i]).tag == tag_of(i as u32, b.salt),
        forall|k: u32| k < b.prefix() ==> #[trigger] b.value_of(k) == a.slots[k as int].unwrap().data.buf,
{
    let home = home_order(b.prefix() as int, b.capacity as int);
    assert forall|i: int| 0 <= i < b.capacity implies b.indices()[i] == home[i] by {
        assert(b.slot_ok(i));
        assert(a.slot_ok(i));
        assert(a.indices()[i] == a.cache[i].index);
        assert(b.items()[i].header.index == a.items()[i].header.index);
    }
    assert(b.indices() =~= home);
    assert forall|i: int| 0 <= i < b.prefix() implies (#[trigger] b.cache[i]).tag == tag_of(
        i as u32,
        b.salt,
    ) by {
        assert(b.slot_ok(i));
        assert(b.items()[i].header.tag == tag_of(i as u32, b.salt));
    }
    assert forall|k: u32| k < b.prefix() implies #[trigger] b.value_of(k) == a.slots[k as int].unwrap().data.buf by {
        assert(b.slot_ok(k as int));
        assert(a.slot_ok(k as int));
        assert(b.items()[k as int].data == a.items()[k as int].data);
        assert(b.indices()[k as int] == k);
        lemma_holder(b, k, k as int);
    }
}

/// After a shuffle of blocks that stood at home, each with the tag of its
/// slot, the engine is in order and holds the values it held.
pub proof fn lemma_shuffled(b: OramView, c: OramView)
    requires
        b.consistent(),
        c.consistent(),
        c.frame() == b.frame(),
        c.count == 0,
        b.indices() == home_order(b.prefix() as int, b.capacity as int),
        forall|i: int| 0 <= i < b.prefix() ==> (#[trigger] b.cache[i]).tag == tag_of(i as u32, b.salt),
        sorted_prefix::<Slot, ByTag>(b.items(), c.items(), b.prefix() as int),
    ensures
        c.wf(),
        forall|k: u32| k < b.prefix() ==> #[trigger] c.value_of(k) == b.value_of(k),
{
    reveal(OramView::arranged);
    let m = b.prefix() as int;
    let cap = b.capacity as int;
    lemma_bag_whole(b.items(), c.items(), m);
    lemma_values_kept(b, c);
    let bp = b.items().subrange(0, m);
    let cp = c.items().subrange(0, m);
    assert forall|i: int| m <= i < cap implies (#[trigger] c.cache[i]).index == DUMMY_INDEX by {
        assert(c.slot_ok(i));
        assert(b.slot_ok(i));
        assert(c.items().subrange(m, cap)[i - m] == b.items().subrange(m, cap)[i - m]);
        assert(b.indices()[i] == DUMMY_INDEX);
    }
    assert forall|i: int, j: int| 0 <= i < j < m implies (#[trigger] c.cache[i]).tag <= (
    #[trigger] c.cache[j]).tag by {
        assert(c.slot_ok(i));
        assert(c.slot_ok(j));
        assert(keys::<Slot, ByTag>(c.items())[i] <= keys::<Slot, ByTag>(c.items())[j]);
    }
    assert forall|j: int| 0 <= j < m implies c.tagged(#[trigger] tag_of(j as u32, c.salt)) by {
        let q = lemma_bag_member(bp, cp, j);
        assert(b.slot_ok(j));
        assert(c.slot_ok(q));
        assert(c.cache[q].tag == tag_of(j as u32, c.salt));
    }
    assert forall|p: int| 0 <= p < m && (#[trigger] c.cache[p]).index != DUMMY_INDEX implies c.cache[p].tag
        == tag_of(c.cache[p].index, c.salt) by {
        let q = lemma_bag_member(cp, bp, p);
        assert(b.slot_ok(q));
        assert(c.slot_ok(p));
        assert(b.indices()[q] == q as u32);
    }
}

/// Storage that lacks a block of the right size for a slot does not hold an
/// engine at rest.
pub proof fn lemma_not_resting(blank: OramView, store: Map<Seq<u8>, Seq<u8>>)
    requires
        blank.shaped(),
        blank.shelter_size == root(blank.n),
        forall|i: int| 0 <= i < blank.capacity ==> #[trigger] blank.slots[i] == stored_block(store, i),
        exists|i: int|
            0 <= i < blank.capacity && !(#[trigger] blank.slots[i] matches Some(b) && fits(
                b,
                blank.block_size,
            )),
    ensures
        !resting(store, blank.n, blank.block_size),
{
    {
        let i = choose|i: int|
            0 <= i < blank.capacity && !(#[trigger] blank.slots[i] matches Some(b) && fits(
                b,
                blank.block_size,
            ));
        assert(blank.slots[i] == stored_block(store, i));
    }
}

/// Storage whose blocks the cache mirrors holds an engine at rest exactly
/// where every block stands at home.
pub proof fn lemma_resting_home(warm: OramView, store: Map<Seq<u8>, Seq<u8>>)
    requires
        warm.consistent(),
        warm.shelter_size == root(warm.n),
        forall|i: int| 0 <= i < warm.capacity ==> #[trigger] warm.slots[i] == stored_block(store, i),
    ensures
        resting(store, warm.n, warm.block_size) <==> warm.indices() == home_order(
            warm.prefix() as int,
            warm.capacity as int,
        ),
{
    let home = home_order(warm.prefix() as int, warm.capacity as int);
    if resting(store, warm.n, warm.block_size) {
        assert forall|i: int| 0 <= i < warm.capacity implies warm.indices()[i] == home[i] by {
            assert(warm.slot_ok(i));
            assert(warm.slots[i] == stored_block(store, i));
        }
        assert(warm.indices() =~= home);
    }
    if warm.indices() == home {
        assert forall|i: int| 0 <= i < warm.n + 2 * root(warm.n) implies (#[trigger] stored_block(
            store,
            i,
        ) matches Some(b) && fits(b, warm.block_size) && b.header.index == (if i < warm.n + root(
            warm.n,
        ) {
            i as u32
        } else {
            DUMMY_INDEX
        })) by {
            assert(warm.slot_ok(i));
            assert(warm.slots[i] == stored_block(store, i));
            assert(warm.indices()[i] == warm.cache[i].index);
        }
    }
}

/// The state after an access that took the block of slot `loc` into the
/// shelter as `st` and left `d` in its place.
pub proof fn lemma_moved(v: OramView, loc: int, d: BlockView, st: BlockView)
    requires
        v.wf(),
        v.shelter_size > 0,
        0 <= loc < v.prefix(),
        fits(d, v.block_size),
        fits(st, v.block_size),
        d.header == (BlockCache { tag: v.cache[loc].tag, index: DUMMY_INDEX }),
        st.header == v.cache[loc],
    ensures
        v.put_block(loc, d).put_block(v.next_slot(), st).counted().arranged(),
        forall|j: u32|
            j < v.prefix() ==> #[trigger] v.put_block(loc, d).put_block(v.next_slot(), st).counted().value_of(j) == (if j == st.header.index {
                st.data.buf
            } else {
                v.value_of(j)
            }),
{
    reveal(OramView::arranged);
    let app = (v.prefix() + v.count) as int;
    let v1 = v.put_block(loc, d);
    let v2 = v1.put_block(app, st);
    let w = v2.counted();
    lemma_put_block(v, loc, d);
    lemma_put_block(v1, app, st);
    assert(w.consistent()) by {
        assert forall|i: int| 0 <= i < w.capacity implies #[trigger] w.slot_ok(i) by {
            assert(v2.slot_ok(i));
        }
    }
    assert(v.cache[app].index == DUMMY_INDEX);
    let idx = v.indices();
    assert(w.indices() =~= idx.update(loc, idx[app]).update(app, idx[loc]));
    lemma_bag_swap(idx, loc, app);
    assert forall|j: int| 0 <= j < w.prefix() implies w.tagged(
        #[trigger] tag_of(j as u32, w.salt),
    ) by {
        assert(v.tagged(tag_of(j as u32, v.salt)));
        let p = choose|p: int| 0 <= p < v.prefix() && (#[trigger] v.cache[p]).tag == tag_of(
            j as u32,
            v.salt,
        );
        assert(w.cache[p].tag == tag_of(j as u32, w.salt));
    }
    assert forall|i: int, j: int| 0 <= i < j < w.prefix() implies (#[trigger] w.cache[i]).tag <= (
    #[trigger] w.cache[j]).tag by {
        assert(v.cache[i].tag <= v.cache[j].tag);
    }
    assert forall|p: int|
        0 <= p < w.prefix() && (#[trigger] w.cache[p]).index != DUMMY_INDEX implies w.cache[p].tag
        == tag_of(w.cache[p].index, w.salt) by {
        assert(v.cache[p].index != DUMMY_INDEX ==> v.cache[p].tag == tag_of(
            v.cache[p].index,
            v.salt,
        ));
    }
    assert forall|i: int| w.prefix() + w.count <= i < w.capacity implies (
    #[trigger] w.cache[i]).index == DUMMY_INDEX by {
        assert(v.cache[i].index == DUMMY_INDEX);
    }
    assert forall|j: u32| j < v.prefix() implies #[trigger] w.value_of(j) == (if j
        == st.header.index {
        st.data.buf
    } else {
        v.value_of(j)
    }) by {
        if j == st.header.index {
            assert(w.cache[app].index == j);
            lemma_holder(w, j, app);
        } else {
            lemma_has_holder(v, j);
            let p = v.holder(j);
            assert(w.cache[p].index == j);
            lemma_holder(w, j, p);
            assert(w.items()[p] == v.items()[p]);
        }
    }
}

/// The state after an access that found its key in the shelter and put the
/// fresh block `fresh`, which has no key, into the next slot of the shelter.
pub proof fn lemma_decoyed(v: OramView, fresh: BlockView)
    requires
        v.wf(),
        v.shelter_size > 0,
        fits(fresh, v.block_size),
        fresh.header.index == DUMMY_INDEX,
    ensures
        v.put_block(v.next_slot(), fresh).counted().arranged(),
        forall|j: u32|
            j < v.prefix() ==> #[trigger] v.put_block(v.next_slot(), fresh).counted().value_of(
                j,
            ) == v.value_of(j),
{
    reveal(OramView::arranged);
    let app = (v.prefix() + v.count) as int;
    let v1 = v.put_block(app, fresh);
    let w = v1.counted();
    lemma_put_block(v, app, fresh);
    assert(w.consistent()) by {
        assert forall|i: int| 0 <= i < w.capacity implies #[trigger] w.slot_ok(i) by {
            assert(v1.slot_ok(i));
        }
    }
    assert(v.cache[app].index == DUMMY_INDEX);
    assert(w.indices() =~= v.indices());
    assert forall|j: int| 0 <= j < w.prefix() implies w.tagged(
        #[trigger] tag_of(j as u32, w.salt),
    ) by {
        assert(v.tagged(tag_of(j as u32, v.salt)));
        let p = choose|p: int| 0 <= p < v.prefix() && (#[trigger] v.cache[p]).tag == tag_of(
            j as u32,
            v.salt,
        );
        assert(w.cache[p].tag == tag_of(j as u32, w.salt));
    }
    assert forall|i: int, j: int| 0 <= i < j < w.prefix() implies (#[trigger] w.cache[i]).tag <= (
    #[trigger] w.cache[j]).tag by {
        assert(v.cache[i].tag <= v.cache[j].tag);
    }
    assert forall|p: int|
        0 <= p < w.prefix() && (#[trigger] w.cache[p]).index != DUMMY_INDEX implies w.cache[p].tag
        == tag_of(w.cache[p].index, w.salt) by {
        assert(v.cache[p].index != DUMMY_INDEX ==> v.cache[p].tag == tag_of(
            v.cache[p].index,
            v.salt,
        ));
    }
    assert forall|i: int| w.prefix() + w.count <= i < w.capacity implies (
    #[trigger] w.cache[i]).index == DUMMY_INDEX by {
        assert(v.cache[i].index == DUMMY_INDEX);
    }
    assert forall|j: u32| j < v.prefix() implies #[trigger] w.value_of(j) == v.value_of(j) by {
        lemma_has_holder(v, j);
        let p = v.holder(j);
        assert(w.cache[p].index == j);
        lemma_holder(w, j, p);
        assert(w.items()[p] == v.items()[p]);
    }
}

/// The slots after the block of slot `loc` was taken into the shelter.
pub proof fn lemma_placed_moved(
    v: OramView,
    loc: int,
    clone: BlockView,
    stored: BlockView,
    write: Option<Seq<u8>>,
)
    requires
        v.consistent(),
        v.count < v.shelter_size,
        0 <= loc < v.prefix(),
        clone.header == OramView::keyless(v.items()[loc].header.tag),
        clone.data.max_len == v.block_size,
        clone.data.buf.len() == v.block_size,
        stored == v.carried_block(loc, write),
    ensures
        v.moved(v.put_block(loc, clone).put_block(v.next_slot(), stored).counted(), loc, write),
{
    let after = v.put_block(loc, clone).put_block(v.next_slot(), stored).counted();
    assert(after.frame() == v.counted().frame());
}

/// The slots after a fresh block without a key was put into the shelter.
pub proof fn lemma_placed_decoyed(v: OramView, fresh: BlockView)
    requires
        v.consistent(),
        v.count < v.shelter_size,
        fresh.header == OramView::keyless(tag_of(DUMMY_INDEX, v.salt)),
        fresh.data.max_len == v.block_size,
        fresh.data.buf.len() == v.block_size,
    ensures
        v.decoyed(v.put_block(v.next_slot(), fresh).counted()),
{
    let after = v.put_block(v.next_slot(), fresh).counted();
    assert(after.frame() == v.counted().frame());
}

/// An access that has done its step, and ended the epoch where the shelter
/// was full, has led the engine from one state that is in order to the next.
pub proof fn lemma_stepped(v: OramView, w: OramView, f: OramView, k: u32, write: Option<Seq<u8>>)
    requires
        v.wf(),
        v.shelter_size > 0,
        v.hit(k) is Some,
        v.placed(w, k, write),
        w.arranged(),
        w.same_make(v),
        w.count == v.count + 1,
        v.reliable ==> forall|j: u32|
            j < v.prefix() ==> #[trigger] w.value_of(j) == (if !v.sheltered(k) && write is Some && j
                == v.found(k).header.index {
                write.unwrap()
            } else {
                v.value_of(j)
            }),
        if w.count == w.shelter_size {
            &&& f.wf()
            &&& f.count == 0
            &&& f.same_make(w)
            &&& forall|j: u32| j < w.prefix() ==> #[trigger] f.value_of(j) == w.value_of(j)
        } else {
            f == w
        },
    ensures
        v.stepped(f, k, write),
{
    if v.reliable {
        assert forall|j: u32| j < v.prefix() implies #[trigger] f.value_of(j) == (if !v.sheltered(k)
            && write is Some && j == v.found(k).header.index {
            write.unwrap()
        } else {
            v.value_of(j)
        }) by {
            assert(f.value_of(j) == w.value_of(j));
        }
    }
}

} // verus!
