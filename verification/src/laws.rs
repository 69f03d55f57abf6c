//! What holds of the store as a whole, stated over the values of the engine
//! and proved from the contracts of its operations.

use vstd::prelude::*;
use crate::arrangement::home_order;
use crate::block::{block_bytes, block_of, fits, BlockView, DUMMY_INDEX};
use crate::data::lemma_codec_round_trip;
use crate::db::Touch;
use crate::engine::model::{read_of, resting, scan_trace, stored_block, write_of, OramView};
use crate::engine::proofs::{
    lemma_found_value, lemma_has_holder, lemma_has_root, lemma_hit, lemma_holder, lemma_in_order,
};

verus! {

/// A block that is written to storage is read back as it was: its tag, its
/// index, its payload with the length it had, and its padded length.
pub proof fn law_block_round_trip(b: BlockView)
    requires
        b.data.buf.len() <= b.data.max_len <= u64::MAX,
    ensures
        block_of(block_bytes(b)) == Some(b),
        block_bytes(b).len() == 24 + b.data.max_len,
{
    lemma_codec_round_trip(b.header.tag, b.header.index, b.data);
}

/// Between two operations on reliable storage the header cache mirrors
/// storage: for every slot, storage holds a block, of the block size of the
/// engine, and the cache holds its header. (Of storage on disk the engine
/// holds the headers alone, and every read is held against them.)
pub proof fn law_cache_mirrors_storage(v: OramView, i: int)
    requires
        v.wf(),
        v.reliable,
        0 <= i < v.capacity,
    ensures
        v.slots[i] matches Some(b) && b.header == v.cache[i] && fits(b, v.block_size),
{
    lemma_in_order(v);
    assert(v.slot_ok(i));
}

/// Between two operations the slots before the shelter are ascending in tag.
pub proof fn law_prefix_ascending(v: OramView, i: int, j: int)
    requires
        v.wf(),
        0 <= i <= j < v.prefix(),
    ensures
        v.cache[i].tag <= v.cache[j].tag,
{
    lemma_in_order(v);
}

/// Between two operations of an engine that has blocks, the count of
/// accesses in the epoch is below the size of the shelter.
pub proof fn law_count_below_shelter(v: OramView)
    requires
        v.wf(),
        v.n >= 1,
    ensures
        v.count < v.shelter_size,
{
    lemma_in_order(v);
    lemma_has_root(v);
}

/// Between two operations every key of the real and the dummy range has
/// exactly one block, in the slots up to the next free slot of the shelter,
/// and the other slots hold blocks without a key.
pub proof fn law_one_block_per_key(v: OramView, k: u32)
    requires
        v.wf(),
        k < v.prefix(),
    ensures
        0 <= v.holder(k) < v.prefix() + v.count,
        v.cache[v.holder(k)].index == k,
        forall|i: int| 0 <= i < v.capacity && v.cache[i].index == k ==> i == v.holder(k),
{
    lemma_in_order(v);
    lemma_has_holder(v, k);
    if v.holder(k) >= v.prefix() + v.count {
        assert(v.cache[v.holder(k)].index == DUMMY_INDEX);
    }
    assert forall|i: int| 0 <= i < v.capacity && v.cache[i].index == k implies i == v.holder(
        k,
    ) by {
        lemma_holder(v, k, i);
    }
}

/// Where the blocks of an engine stand at home, slot `i` holds the block of
/// key `i` in the real and the dummy range, and a block without a key in the
/// shelter.
pub proof fn law_home(v: OramView, i: int)
    requires
        v.shaped(),
        v.indices() == home_order(v.prefix() as int, v.capacity as int),
        0 <= i < v.capacity,
    ensures
        i < v.prefix() ==> v.cache[i].index == i,
        i >= v.prefix() ==> v.cache[i].index == DUMMY_INDEX,
{
    assert(v.indices()[i] == v.cache[i].index);
}

/// An access finds the block of its key where the key is sheltered, and
/// where no block before the shelter shares the tag of the key with the
/// block of the key.
pub proof fn law_finds_its_key(v: OramView, k: u32)
    requires
        v.wf(),
        k < v.prefix(),
        v.sheltered(k) || forall|p: int, q: int|
            0 <= p < q < v.prefix() ==> (#[trigger] v.cache[p]).tag != (#[trigger] v.cache[q]).tag,
    ensures
        v.hit(k) is Some,
        v.found(k).header.index == k,
        v.found(k).data.buf == v.value_of(k),
{
    reveal(OramView::arranged);
    if v.sheltered(k) {
        lemma_hit(v, k);
        let i = v.hit(k).unwrap();
        assert(v.slot_ok(i));
    } else {
        lemma_has_holder(v, k);
        let p = v.holder(k);
        assert(v.cache[p].index == k);
        if p >= v.prefix() {
            if p >= v.prefix() + v.count {
                assert(v.cache[p].index == DUMMY_INDEX);
            }
            assert(v.sheltered(k));
        }
        assert(v.cache[p].tag == tag_of_key(v, k));
        assert(v.tagged(tag_of_key(v, k)));
        lemma_hit(v, k);
        let t = v.hit(k).unwrap();
        assert(v.cache[t].tag == v.cache[p].tag);
        if t < p {
            assert(v.cache[t].tag != v.cache[p].tag);
        }
        if p < t {
            assert(v.cache[p].tag != v.cache[t].tag);
        }
        assert(v.slot_ok(p));
    }
    lemma_found_value(v, k);
}

/// The tag of key `k` under the salt of the engine.
pub open spec fn tag_of_key(v: OramView, k: u32) -> u32 {
    crate::block::tag_of(k, v.salt)
}

/// A key is found whenever it is one of the engine: a real key or the key
/// of a dummy block.
pub proof fn law_keys_are_found(v: OramView, k: u32)
    requires
        v.wf(),
        k < v.prefix(),
    ensures
        v.hit(k) is Some,
{
    reveal(OramView::arranged);
    if !v.sheltered(k) {
        assert(v.tagged(crate::block::tag_of(k as int as u32, v.salt)));
    }
}

/// After an access that has found the block of its key and has not ended
/// the epoch, the key is sheltered: the next access of it finds its block
/// in the shelter, and after a write that was taken the payload written.
pub proof fn law_sheltered_after(v: OramView, w: OramView, k: u32, write: Option<Seq<u8>>)
    requires
        v.wf(),
        v.reliable,
        v.stepped(w, k, write),
        v.next_count() != 0,
        k < v.prefix(),
        v.found(k).header.index == k,
    ensures
        w.sheltered(k),
        w.hit(k) is Some,
        w.found(k).header.index == k,
        w.found(k).data.buf == w.value_of(k),
        !v.sheltered(k) ==> w.cache[v.next_slot()].index == k,
        !v.sheltered(k) && write is Some ==> w.found(k).data.buf == write.unwrap(),
{
    lemma_in_order(v);
    lemma_in_order(w);
    lemma_hit(v, k);
    let slot = v.hit(k).unwrap();
    assert(v.slot_ok(slot));
    if v.sheltered(k) {
        assert(slot != v.next_slot()) by {
            if slot == v.next_slot() {
                assert(v.cache[slot].index == DUMMY_INDEX);
            }
        }
        assert(w.cache[slot].index == k);
    } else {
        assert(w.cache[v.next_slot()].index == k);
    }
    law_finds_its_key(w, k);
}

/// One operation of a client: a read of a key, or a write of a payload to a
/// key.
pub enum Op {
    Get(u32),
    Put(u32, Seq<u8>),
}

impl Op {
    /// The key of the operation.
    pub open spec fn key(self) -> u32 {
        match self {
            Op::Get(k) => k,
            Op::Put(k, _) => k,
        }
    }

    /// The payload that the operation writes.
    pub open spec fn written(self) -> Option<Seq<u8>> {
        match self {
            Op::Get(_) => None,
            Op::Put(_, v) => Some(v),
        }
    }
}

/// The operation `op` on the engine `v` reaches the block of its key, and
/// where it is a write the write is stored: the key is one of the engine,
/// the access finds the block of that key, and a write does not find its key
/// in the shelter.
pub open spec fn plain(v: OramView, op: Op) -> bool {
    &&& op.key() < v.prefix()
    &&& v.found(op.key()).header.index == op.key()
    &&& op is Put ==> !v.sheltered(op.key())
}

/// An operation is plain where the header cache says so: its key is one of
/// the engine, and either the key is sheltered and the operation is a read,
/// or no two blocks before the shelter share a tag and a write does not find
/// its key sheltered. `SqrtOram::shelters` and `SqrtOram::tags_differ` tell
/// both of an engine.
pub proof fn law_plain(v: OramView, op: Op)
    requires
        v.wf(),
        op.key() < v.prefix(),
        op is Put ==> !v.sheltered(op.key()),
        v.sheltered(op.key()) || forall|p: int, q: int|
            0 <= p < q < v.prefix() ==> (#[trigger] v.cache[p]).tag != (#[trigger] v.cache[q]).tag,
    ensures
        plain(v, op),
        v.hit(op.key()) is Some,
{
    law_finds_its_key(v, op.key());
}

/// Operation `i` of `ops` leads from state `i` to the next and is plain.
pub open spec fn step_at(states: Seq<OramView>, ops: Seq<Op>, i: int) -> bool {
    &&& states[i].stepped(states[i + 1], ops[i].key(), ops[i].written())
    &&& plain(states[i], ops[i])
}

/// `states` are the states of an engine on reliable storage before, between
/// and after the operations `ops`, all of which succeed and are plain.
pub open spec fn run(states: Seq<OramView>, ops: Seq<Op>) -> bool {
    &&& states.len() == ops.len() + 1
    &&& states[0].wf()
    &&& states[0].reliable
    &&& forall|i: int| 0 <= i < ops.len() ==> #[trigger] step_at(states, ops, i)
}

/// The payload of the last write to key `k` among `ops`.
pub open spec fn last_put(ops: Seq<Op>, k: u32) -> Option<Seq<u8>>
    decreases ops.len(),
{
    if ops.len() == 0 {
        None
    } else {
        match ops.last() {
            Op::Put(key, v) if key == k => Some(v),
            _ => last_put(ops.drop_last(), k),
        }
    }
}

/// After a run of plain operations, the value that is stored for a key is
/// the payload of the last write to it, or the value stored at the start
/// where there was no write.
pub proof fn law_last_write_is_stored(states: Seq<OramView>, ops: Seq<Op>, k: u32)
    requires
        run(states, ops),
        k < states[0].prefix(),
    ensures
        states.last().wf(),
        states.last().same_make(states[0]),
        states.last().value_of(k) == (match last_put(ops, k) {
            Some(v) => v,
            None => states[0].value_of(k),
        }),
    decreases ops.len(),
{
    if ops.len() > 0 {
        let m = ops.len() as int - 1;
        let shorter = states.drop_last();
        assert(run(shorter, ops.drop_last())) by {
            assert forall|i: int| 0 <= i < ops.drop_last().len() implies #[trigger] step_at(
                shorter,
                ops.drop_last(),
                i,
            ) by {
                assert(step_at(states, ops, i));
            }
        }
        law_last_write_is_stored(shorter, ops.drop_last(), k);
        assert(step_at(states, ops, m));
        assert(shorter.last() == states[m]);
        assert(states.last() == states[m + 1]);
    }
}

/// A read that follows a run of plain operations, and is plain itself, hands
/// out the payload of the last write to its key.
pub proof fn law_read_after_write(states: Seq<OramView>, ops: Seq<Op>, k: u32, v: Seq<u8>)
    requires
        run(states, ops),
        k < states[0].prefix(),
        last_put(ops, k) == Some(v),
        states.last().hit(k) is Some,
        states.last().found(k).header.index == k,
    ensures
        states.last().found(k).data.buf == v,
{
    law_last_write_is_stored(states, ops, k);
    lemma_found_value(states.last(), k);
}

/// An engine that is reopened on the storage that it was closed to holds the
/// values that it held.
pub proof fn law_reopen_keeps_values(
    closed: OramView,
    store: Map<Seq<u8>, Seq<u8>>,
    opened: OramView,
    k: u32,
)
    requires
        closed.wf(),
        resting(store, closed.n, closed.block_size),
        forall|j: u32|
            j < closed.prefix() ==> (#[trigger] stored_block(store, j as int)).unwrap().data.buf
                == closed.value_of(j),
        opened.wf(),
        opened.same_make(closed),
        forall|j: u32|
            j < opened.prefix() ==> #[trigger] opened.value_of(j) == stored_block(
                store,
                j as int,
            ).unwrap().data.buf,
        k < closed.prefix(),
    ensures
        opened.value_of(k) == closed.value_of(k),
{
    assert(stored_block(store, k as int).unwrap().data.buf == closed.value_of(k));
}

/// The `i`-th pair of touches of a trace.
pub open spec fn pair_at(t: Seq<Touch>, i: int) -> (Touch, Touch) {
    (t[2 * i], t[2 * i + 1])
}

/// The scan of the slots from `from` up to `to` reads and writes each slot
/// once, in order.
pub proof fn law_scan_trace(from: int, to: int)
    requires
        from <= to,
    ensures
        scan_trace(from, to).len() == 2 * (to - from),
        forall|i: int|
            0 <= i < to - from ==> #[trigger] pair_at(scan_trace(from, to), i) == (
                read_of(from + i),
                write_of(from + i),
            ),
    decreases to - from,
{
    if from < to {
        law_scan_trace(from, to - 1);
        assert forall|i: int| 0 <= i < to - from implies #[trigger] pair_at(
            scan_trace(from, to),
            i,
        ) == (read_of(from + i), write_of(from + i)) by {
            if i < to - 1 - from {
                assert(pair_at(scan_trace(from, to - 1), i) == (
                    read_of(from + i),
                    write_of(from + i),
                ));
            }
        }
    }
}

/// What an observer of the storage sees of an access has the same shape for
/// every key and for reads and writes alike: every slot of the shelter is
/// read and written back, in order; then one slot before the shelter is read
/// and written; then the next free slot of the shelter is written. The key
/// and the salt decide nothing but which slot before the shelter it is.
pub proof fn law_footprint_shape(v: OramView, k: u32)
    requires
        v.shaped(),
    ensures
        v.footprint(k).len() == 2 * v.shelter_size + 3,
        forall|i: int|
            0 <= i < v.shelter_size ==> #[trigger] pair_at(v.footprint(k), i) == (
                read_of(v.prefix() + i),
                write_of(v.prefix() + i),
            ),
        v.footprint(k)[2 * v.shelter_size as int] == read_of(v.probe(k)),
        v.footprint(k)[2 * v.shelter_size as int + 1] == write_of(v.probe(k)),
        v.footprint(k)[2 * v.shelter_size as int + 2] == write_of(v.next_slot()),
{
    law_scan_trace(v.prefix() as int, v.capacity as int);
    assert forall|i: int| 0 <= i < v.shelter_size implies #[trigger] pair_at(v.footprint(k), i) == (
        read_of(v.prefix() + i),
        write_of(v.prefix() + i),
    ) by {
        assert(pair_at(scan_trace(v.prefix() as int, v.capacity as int), i) == (
            read_of(v.prefix() + i),
            write_of(v.prefix() + i),
        ));
    }
}

/// Two accesses that probe the same slot, in engines of the same sizes and
/// at the same count, are seen alike: the observer learns of the key what
/// the probed slot tells, and no more.
pub proof fn law_footprint_by_probe(a: OramView, ka: u32, b: OramView, kb: u32)
    requires
        a.n == b.n,
        a.shelter_size == b.shelter_size,
        a.capacity == b.capacity,
        a.count == b.count,
        a.probe(ka) == b.probe(kb),
    ensures
        a.footprint(ka) == b.footprint(kb),
{
}

} // verus!
