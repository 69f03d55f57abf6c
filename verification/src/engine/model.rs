//! The engine as a value: the header cache, the blocks in storage, and what
//! it means for them to be in order.

use vstd::prelude::*;
use crate::arrangement::home_order;
use crate::block::{block_of, fits, tag_of, BlockCache, BlockView, DUMMY_INDEX};
use crate::data::{DataView, DataWrapper};
use crate::db::Touch;
use crate::endian::be_bytes;
use crate::sort::Probe;

verus! {

/// The key that slot `i` is stored under.
pub open spec fn slot_key(i: int) -> Seq<u8> {
    be_bytes(i as u32)
}

/// The block that `store` holds for slot `i`.
pub open spec fn stored_block(store: Map<Seq<u8>, Seq<u8>>, i: int) -> Option<BlockView> {
    if store.contains_key(slot_key(i)) {
        block_of(store[slot_key(i)])
    } else {
        None
    }
}

/// A read of slot `i`, as the observer of the storage sees it.
pub open spec fn read_of(i: int) -> Touch {
    Touch { write: false, key: slot_key(i) }
}

/// A write of slot `i`, as the observer of the storage sees it.
pub open spec fn write_of(i: int) -> Touch {
    Touch { write: true, key: slot_key(i) }
}

/// What the observer sees of a scan of the slots from `from` up to `to`:
/// each is read and written back.
pub open spec fn scan_trace(from: int, to: int) -> Seq<Touch>
    decreases to - from,
{
    if to <= from {
        Seq::empty()
    } else {
        scan_trace(from, to - 1).push(read_of(to - 1)).push(write_of(to - 1))
    }
}

/// What the observer sees of reads of the slots from `from` up to `to`, one
/// of each, in order.
pub open spec fn read_trace(from: int, to: int) -> Seq<Touch>
    decreases to - from,
{
    if to <= from {
        Seq::empty()
    } else {
        read_trace(from, to - 1).push(read_of(to - 1))
    }
}

/// What the observer sees of reads and writes of slots.
pub open spec fn touches_of(p: Seq<Probe>) -> Seq<Touch> {
    p.map_values(
        |x: Probe|
            if x.write {
                write_of(x.at)
            } else {
                read_of(x.at)
            },
    )
}

/// The keys that storage holds for an engine of `capacity` slots: one for
/// each slot.
pub open spec fn slot_keys(capacity: nat) -> Set<Seq<u8>> {
    Set::new(|key: Seq<u8>| exists|i: int| 0 <= i < capacity && key == #[trigger] slot_key(i))
}

/// What the observer sees of an access after the scan of the shelter: the
/// slot `probe` is read and written, and the slot `next` is written.
pub open spec fn probe_trace(probe: int, next: int) -> Seq<Touch> {
    seq![read_of(probe), write_of(probe), write_of(next)]
}

/// The largest number whose square is not above `n`: the size of the shelter
/// of an engine of `n` blocks.
pub open spec fn root(n: nat) -> nat {
    choose|s: nat| #[trigger] is_root(s, n)
}

/// The square of `s` is the largest square not above `n`.
pub open spec fn is_root(s: nat, n: nat) -> bool {
    s * s <= n < (s + 1) * (s + 1)
}

/// An engine of `n` blocks of `block_size` bytes fits the machine: its slots
/// can be numbered in 32 bits, with the largest number left for blocks
/// without a key, and a stored block can be held in memory.
pub open spec fn admissible(n: nat, block_size: nat) -> bool {
    &&& n + 2 * root(n) <= u32::MAX
    &&& n + 2 * root(n) <= usize::MAX / 2
    &&& block_size + 24 <= usize::MAX
}

/// Storage holds the blocks of an engine at rest: every slot holds a block
/// of the right size, the slots of the real and the dummy range each the
/// block of their own number, the slots of the shelter blocks without a key.
pub open spec fn resting(store: Map<Seq<u8>, Seq<u8>>, n: nat, block_size: nat) -> bool {
    forall|i: int|
        0 <= i < n + 2 * root(n) ==> (#[trigger] stored_block(store, i) matches Some(b) && fits(
            b,
            block_size,
        ) && b.header.index == (if i < n + root(n) {
            i as u32
        } else {
            DUMMY_INDEX
        }))
}

/// The payload of an optional wrapper, as a value.
pub open spec fn payload_of(d: Option<DataWrapper>) -> Option<Seq<u8>> {
    match d {
        Some(w) => Some(w@.buf),
        None => None,
    }
}

/// The engine as a value.
pub struct OramView {
    /// Number of real blocks.
    pub n: nat,
    /// Number of blocks in shelter.
    pub shelter_size: nat,
    /// Total number of slots.
    pub capacity: nat,
    /// Length of data stored in each block.
    pub block_size: nat,
    /// Accesses since the last shuffle.
    pub count: nat,
    /// Salt of the tag function.
    pub salt: Seq<u8>,
    /// The header cache, by slot.
    pub cache: Seq<BlockCache>,
    /// The block that storage holds for each slot, if it holds one. Of
    /// storage that is not reliable the engine holds the header of its cache
    /// for each slot, with a blank payload: such storage may lose what it is
    /// given, so every block that it hands out is held against the cache,
    /// and nothing is said of payloads.
    pub slots: Seq<Option<BlockView>>,
    /// Storage never fails and keeps what it is given: it is in memory.
    pub reliable: bool,
    /// Storage is in order.
    pub sound: bool,
    /// The length of the trace when recording was switched on, while it is
    /// on.
    pub recording: Option<nat>,
    /// The directory of the storage, where it is on disk.
    pub directory: Option<Seq<char>>,
}

/// The block with the header `header` and a payload of `size` zero bytes:
/// what the engine knows of a block on storage that may lose what it is
/// given.
pub open spec fn blank(header: BlockCache, size: nat) -> BlockView {
    BlockView { header, data: DataView { buf: Seq::new(size, |i: int| 0u8), max_len: size } }
}

impl OramView {
    /// Number of slots before the shelter: real and dummy blocks.
    pub open spec fn prefix(self) -> nat {
        self.n + self.shelter_size
    }

    /// The sizes fit together and fit the machine.
    pub open spec fn shaped(self) -> bool {
        &&& self.sound
        &&& self.capacity == self.n + 2 * self.shelter_size
        &&& self.shelter_size * self.shelter_size <= self.n < (self.shelter_size + 1) * (
        self.shelter_size + 1)
        &&& self.capacity <= u32::MAX
        &&& self.capacity <= usize::MAX / 2
        &&& self.block_size + 24 <= usize::MAX
        &&& self.cache.len() == self.capacity
        &&& self.slots.len() == self.capacity
        &&& self.salt.len() == 32
    }

    /// Storage holds a block of the right size for slot `i`, with the header
    /// that the cache has for it.
    pub open spec fn slot_ok(self, i: int) -> bool {
        self.slots[i] matches Some(b) && b.header == self.cache[i] && fits(b, self.block_size)
    }

    /// The header cache mirrors storage: every slot is in order.
    pub open spec fn consistent(self) -> bool {
        &&& self.shaped()
        &&& forall|i: int| 0 <= i < self.capacity ==> #[trigger] self.slot_ok(i)
    }

    /// The blocks in storage, by slot.
    pub open spec fn items(self) -> Seq<BlockView> {
        Seq::new(self.capacity, |i: int| self.slots[i].unwrap())
    }

    /// The logical indices in the header cache, by slot.
    pub open spec fn indices(self) -> Seq<u32> {
        Seq::new(self.cache.len(), |i: int| self.cache[i].index)
    }

    /// The engine with block `b` written to slot `k`.
    pub open spec fn put_block(self, k: int, b: BlockView) -> OramView {
        OramView {
            cache: self.cache.update(k, b.header),
            slots: self.slots.update(k, Some(b)),
            ..self
        }
    }

    /// The engine without its blocks and headers: what a read or a write of
    /// a block leaves as it is.
    pub open spec fn frame(self) -> OramView {
        OramView { cache: Seq::empty(), slots: Seq::empty(), ..self }
    }

    /// The logical index that slot `i` holds when every block is at home.
    pub open spec fn home_index(self, i: int) -> u32 {
        if i < self.prefix() {
            i as u32
        } else {
            DUMMY_INDEX
        }
    }

    /// A slot of the shelter holds the block of key `k`.
    pub open spec fn sheltered(self, k: u32) -> bool {
        exists|i: int| self.prefix() <= i < self.capacity && (#[trigger] self.cache[i]).index == k
    }

    /// The first slot of the shelter that holds the block of key `k`.
    pub open spec fn shelter_slot(self, k: u32) -> int {
        choose|i: int|
            self.prefix() <= i < self.capacity && (#[trigger] self.cache[i]).index == k && forall|
                j: int,
            |
                self.prefix() <= j < i ==> (#[trigger] self.cache[j]).index != k
    }

    /// A slot before the shelter holds a block with the tag `t`.
    pub open spec fn tagged(self, t: u32) -> bool {
        exists|p: int| 0 <= p < self.prefix() && (#[trigger] self.cache[p]).tag == t
    }

    /// The first slot before the shelter that holds a block with the tag `t`.
    pub open spec fn tag_slot(self, t: u32) -> int {
        choose|p: int|
            0 <= p < self.prefix() && (#[trigger] self.cache[p]).tag == t && forall|q: int|
                0 <= q < p ==> (#[trigger] self.cache[q]).tag != t
    }

    /// The slot that an access of key `k` takes its block from: the first
    /// slot of the shelter that holds the key, or else the first slot before
    /// the shelter with the tag of the key; none where there is no such slot.
    pub open spec fn hit(self, k: u32) -> Option<int> {
        if self.sheltered(k) {
            Some(self.shelter_slot(k))
        } else if self.tagged(tag_of(k, self.salt)) {
            Some(self.tag_slot(tag_of(k, self.salt)))
        } else {
            None
        }
    }

    /// The block that an access of key `k` takes.
    pub open spec fn found(self, k: u32) -> BlockView {
        self.items()[self.hit(k).unwrap()]
    }

    /// A slot that holds the block of key `k`.
    pub open spec fn holder(self, k: u32) -> int {
        choose|i: int| 0 <= i < self.capacity && (#[trigger] self.cache[i]).index == k
    }

    /// The payload that is stored for key `k`.
    pub open spec fn value_of(self, k: u32) -> Seq<u8> {
        self.items()[self.holder(k)].data.buf
    }

    /// The blocks are where the protocol wants them: the cache mirrors
    /// storage; every key of the real and the dummy range has one block, the
    /// other blocks have no key; the unused slots of the shelter hold blocks
    /// without a key; the slots before the shelter are ascending in tag,
    /// hold the tag of every key, and hold each block that has a key under
    /// the tag of its key.
    #[verifier::opaque]
    pub open spec fn arranged(self) -> bool {
        &&& self.consistent()
        &&& self.count <= self.shelter_size
        &&& self.indices().to_multiset() == home_order(
            self.prefix() as int,
            self.capacity as int,
        ).to_multiset()
        &&& forall|i: int|
            self.prefix() + self.count <= i < self.capacity ==> (#[trigger] self.cache[i]).index
                == DUMMY_INDEX
        &&& forall|i: int, j: int|
            0 <= i < j < self.prefix() ==> (#[trigger] self.cache[i]).tag <= (
            #[trigger] self.cache[j]).tag
        &&& forall|j: int|
            0 <= j < self.prefix() ==> self.tagged(#[trigger] tag_of(j as u32, self.salt))
        &&& forall|p: int|
            0 <= p < self.prefix() && (#[trigger] self.cache[p]).index != DUMMY_INDEX
                ==> self.cache[p].tag == tag_of(self.cache[p].index, self.salt)
    }

    /// The engine is in order between two operations: the blocks are where
    /// the protocol wants them and the shelter has room.
    pub open spec fn wf(self) -> bool {
        &&& self.arranged()
        &&& self.shelter_size > 0 ==> self.count < self.shelter_size
    }

    /// The engine with the same sizes and the same storage behind it.
    pub open spec fn same_make(self, other: OramView) -> bool {
        &&& self.n == other.n
        &&& self.shelter_size == other.shelter_size
        &&& self.capacity == other.capacity
        &&& self.block_size == other.block_size
        &&& self.reliable == other.reliable
        &&& self.recording == other.recording
        &&& self.directory == other.directory
    }

    /// The count after one more access.
    pub open spec fn next_count(self) -> nat {
        if self.count + 1 == self.shelter_size {
            0
        } else {
            self.count + 1
        }
    }

    /// The slot of the shelter that the next access fills.
    pub open spec fn next_slot(self) -> int {
        (self.prefix() + self.count) as int
    }

    /// The engine with the count advanced by one.
    pub open spec fn counted(self) -> OramView {
        OramView { count: self.count + 1, ..self }
    }

    /// The engine is as it was set up: every block has a payload of the
    /// block size, and the blocks of the shelter have the tag of blocks
    /// without a key.
    pub open spec fn fresh(self) -> bool {
        &&& forall|i: int|
            0 <= i < self.capacity ==> ((#[trigger] self.slots[i]) matches Some(b)
                && b.data.buf.len() == self.block_size)
        &&& forall|i: int|
            self.prefix() <= i < self.capacity ==> #[trigger] self.cache[i] == Self::keyless(
                tag_of(DUMMY_INDEX, self.salt),
            )
    }

    /// The block `b` as the engine holds it of storage: the block itself on
    /// reliable storage, and its header alone on storage that may lose what
    /// it is given.
    pub open spec fn seen_as(self, b: BlockView) -> BlockView {
        if self.reliable {
            b
        } else {
            blank(b.header, self.block_size)
        }
    }

    /// The header of a block without a key that has the tag `tag`.
    pub open spec fn keyless(tag: u32) -> BlockCache {
        BlockCache { tag, index: DUMMY_INDEX }
    }

    /// The block that an access puts into the shelter when it has taken the
    /// block of slot `loc`: that block, with the payload of `write` where
    /// there is one.
    pub open spec fn carried_block(self, loc: int, write: Option<Seq<u8>>) -> BlockView {
        self.seen_as(
            BlockView {
                header: self.items()[loc].header,
                data: match write {
                    Some(w) => DataView { buf: w, max_len: self.block_size },
                    None => self.items()[loc].data,
                },
            },
        )
    }

    /// `after` is the engine after an access that took the block of slot
    /// `loc` into the shelter: slot `loc` holds a block without a key, with
    /// the tag that the block had and a payload of the block size; the next
    /// slot of the shelter holds the block, with the payload of `write`
    /// where there is one; every other slot holds what it held; the count
    /// has advanced by one and nothing else has changed.
    pub open spec fn moved(self, after: OramView, loc: int, write: Option<Seq<u8>>) -> bool {
        &&& after.frame() == self.counted().frame()
        &&& after.cache == self.cache.update(
            loc,
            Self::keyless(self.items()[loc].header.tag),
        ).update(self.next_slot(), self.items()[loc].header)
        &&& after.slots.len() == self.slots.len()
        &&& forall|i: int|
            0 <= i < self.slots.len() && i != loc && i != self.next_slot()
                ==> #[trigger] after.slots[i] == self.slots[i]
        &&& after.slots[self.next_slot()] == Some(self.carried_block(loc, write))
        &&& after.slots[loc] matches Some(c) && c.header == Self::keyless(
            self.items()[loc].header.tag,
        ) && c.data.max_len == self.block_size && c.data.buf.len() == self.block_size
    }

    /// `after` is the engine after an access that found its key in the
    /// shelter: the next slot of the shelter holds a fresh block without a
    /// key, with the tag of such blocks under the salt and a payload of the
    /// block size; every other slot holds what it held; the count has
    /// advanced by one and nothing else has changed.
    pub open spec fn decoyed(self, after: OramView) -> bool {
        &&& after.frame() == self.counted().frame()
        &&& after.cache == self.cache.update(
            self.next_slot(),
            Self::keyless(tag_of(DUMMY_INDEX, self.salt)),
        )
        &&& after.slots.len() == self.slots.len()
        &&& forall|i: int|
            0 <= i < self.slots.len() && i != self.next_slot() ==> #[trigger] after.slots[i]
                == self.slots[i]
        &&& after.slots[self.next_slot()] matches Some(f) && f.header == Self::keyless(
            tag_of(DUMMY_INDEX, self.salt),
        ) && f.data.max_len == self.block_size && f.data.buf.len() == self.block_size
    }

    /// `after` is the engine after an access of key `k` that did not end the
    /// epoch: what [`OramView::decoyed`] says where the key was sheltered,
    /// and what [`OramView::moved`] says of the slot that was hit where it
    /// was not.
    pub open spec fn placed(self, after: OramView, k: u32, write: Option<Seq<u8>>) -> bool {
        if self.sheltered(k) {
            self.decoyed(after)
        } else {
            self.moved(after, self.hit(k).unwrap(), write)
        }
    }

    /// An access of key `k` has led from `self` to `after`: it found a block
    /// and, unless the key was sheltered, took the block into the shelter.
    /// With `write` the block that was taken has the new payload. The values
    /// of all other keys are as before, and so is the value of a key that was
    /// sheltered, whatever `write` holds. Where the access has not ended the
    /// epoch, every slot holds what [`OramView::placed`] says.
    pub open spec fn stepped(self, after: OramView, k: u32, write: Option<Seq<u8>>) -> bool {
        &&& after.wf()
        &&& after.same_make(self)
        &&& after.count == self.next_count()
        &&& self.hit(k) is Some
        &&& self.next_count() != 0 ==> self.placed(after, k, write)
        &&& self.reliable ==> forall|j: u32|
            j < self.prefix() ==> #[trigger] after.value_of(j) == (if !self.sheltered(k) && write is Some
                && j == self.found(k).header.index {
                write.unwrap()
            } else {
                self.value_of(j)
            })
    }

    /// The slot before the shelter that an access of key `k` touches: the
    /// first with the tag of the key, or, where the key is sheltered, the
    /// first with the tag of the decoy of this access.
    pub open spec fn probe(self, k: u32) -> int {
        if self.sheltered(k) {
            self.tag_slot(tag_of((self.n + self.count) as u32, self.salt))
        } else {
            self.tag_slot(tag_of(k, self.salt))
        }
    }

    /// What the observer sees of an access of key `k`, up to the end of the
    /// epoch if the access ends it: the scan of the shelter, the read and the
    /// write of the slot that the access probes, and the write of the next
    /// slot of the shelter.
    pub open spec fn footprint(self, k: u32) -> Seq<Touch> {
        scan_trace(self.prefix() as int, self.capacity as int) + probe_trace(
            self.probe(k),
            self.next_slot(),
        )
    }
}

} // verus!
