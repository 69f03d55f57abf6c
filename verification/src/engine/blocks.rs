//! Blocks in their slots: reading and writing them through the header
//! cache, and the slots as the store of the oblivious sort.

use vstd::prelude::*;
use crate::block::{block_bytes, fits, tag_of, Block, BlockCache, BlockView, DUMMY_INDEX};
use crate::data::{lemma_codec_round_trip, DataWrapper};
use crate::db::Touch;
use crate::endian::{lemma_be_injective, to_be_bytes};
use crate::engine::model::{
    blank, read_of, read_trace, slot_key, slot_keys, stored_block, touches_of, write_of, OramView,
};
use crate::engine::proofs::{lemma_put_block, lemma_slot_keys_next};
use crate::engine::SqrtOram;
use crate::error::OramError;
use crate::sort::{Access, KeyOrder, Probe};

verus! {

/// A block as the sort moves it from slot to slot. Of a block that was read
/// from storage that may lose what it is given, the sort is shown the header
/// alone: the payload goes where the header goes, and nothing is said of it.
pub struct Slot {
    pub block: Block,
    /// The header alone is shown.
    pub plain: bool,
}

impl View for Slot {
    type V = BlockView;

    open spec fn view(&self) -> BlockView {
        if self.plain {
            blank(self.block@.header, self.block@.data.max_len)
        } else {
            self.block@
        }
    }
}

/// The order of blocks by tag: the order of a shuffle.
pub struct ByTag;

impl KeyOrder<Slot> for ByTag {
    open spec fn rank(v: BlockView) -> int {
        v.header.tag as int
    }

    fn less(&self, a: &Slot, b: &Slot) -> (r: bool) {
        a.block.header.tag < b.block.header.tag
    }
}

/// The order of blocks by logical index, blocks without one last: the order
/// that brings every block home.
pub struct ByIndex;

impl KeyOrder<Slot> for ByIndex {
    open spec fn rank(v: BlockView) -> int {
        v.header.index as int
    }

    fn less(&self, a: &Slot, b: &Slot) -> (r: bool) {
        a.block.header.index < b.block.header.index
    }
}

impl SqrtOram {
    /// Reads the block of slot `k` from storage and holds it against the
    /// header cache.
    ///
    /// A block that is handed out has the block size of the engine and the
    /// header that the cache has for the slot; on reliable storage it is the
    /// block that storage holds for the slot. Fails with `IntegrityMismatch`
    /// where storage hands out something else, and with `NotFound` where it
    /// hands out nothing, which reliable storage does only where it holds
    /// nothing.
    pub fn read_block(&mut self, k: u32) -> (r: Result<Block, OramError>)
        requires
            old(self)@.shaped(),
            k < old(self)@.capacity,
        ensures
            final(self)@ == old(self)@,
            old(self)@.reliable ==> final(self).storage() == old(self).storage(),
            final(self).trace() == old(self).trace().push(read_of(k as int)),
            final(self).mark() == old(self).mark(),
            final(self).probes() == old(self).probes(),
            old(self)@.reliable && old(self)@.slot_ok(k as int) ==> r is Ok,
            match r {
                Ok(b) => {
                    &&& b@.header == old(self)@.cache[k as int]
                    &&& fits(b@, old(self)@.block_size)
                    &&& old(self)@.slot_ok(k as int)
                    &&& old(self)@.slots[k as int] == Some(old(self)@.seen_as(b@))
                },
                Err(e) => match e {
                    OramError::NotFound => old(self)@.reliable ==> !old(self).storage().contains_key(
                        slot_key(k as int),
                    ),
                    OramError::IntegrityMismatch => old(self)@.reliable ==> old(
                        self,
                    ).storage().contains_key(slot_key(k as int)) && !old(self)@.slot_ok(k as int),
                    _ => false,
                },
            },
    {
        let key = to_be_bytes(k);
        let found = self.db.get(key.as_slice());
        proof {
            assert(self@.slots =~= old(self)@.slots);
            if old(self)@.reliable {
                assert(old(self)@.slots[k as int] == stored_block(old(self).storage(), k as int));
            }
        }
        let data = match found {
            Some(d) => d,
            None => {
                return Err(OramError::NotFound);
            },
        };
        let block = match Block::decode(data.as_slice()) {
            Some(b) => b,
            None => {
                return Err(OramError::IntegrityMismatch);
            },
        };
        if block.data.max_len != self.block_size {
            return Err(OramError::IntegrityMismatch);
        }
        if self.cache[k as usize] != block.header {
            return Err(OramError::IntegrityMismatch);
        }
        Ok(block)
    }
}

impl SqrtOram {
    /// Writes `v` to slot `k` and its header to the cache.
    ///
    /// Afterwards the engine holds `v` for the slot, as far as it holds
    /// blocks of its storage: storage holds the bytes of `v` under the key
    /// of the slot, and reliable storage is otherwise as before.
    pub(super) fn write_block(&mut self, k: u32, v: &Block) -> (r: Result<(), OramError>)
        requires
            old(self)@.shaped(),
            k < old(self)@.capacity,
            fits(v@, old(self)@.block_size),
        ensures
            final(self).trace() == old(self).trace().push(write_of(k as int)),
            final(self).mark() == old(self).mark(),
            final(self).probes() == old(self).probes(),
            old(self)@.reliable ==> r is Ok,
            match r {
                Ok(_) => {
                    &&& final(self)@ == old(self)@.put_block(k as int, old(self)@.seen_as(v@))
                    &&& final(self).storage().contains_key(slot_key(k as int))
                    &&& final(self).storage()[slot_key(k as int)] == block_bytes(v@)
                    &&& old(self)@.reliable ==> final(self).storage() == old(
                        self,
                    ).storage().insert(slot_key(k as int), block_bytes(v@))
                    &&& block_bytes(v@).len() == 24 + old(self)@.block_size
                },
                Err(e) => e == OramError::StorageFailure,
            },
    {
        self.cache[k as usize] = v.header;
        let key = to_be_bytes(k);
        let bytes = v.encode();
        let ok = self.db.put(key.as_slice(), bytes.as_slice());
        if !ok {
            return Err(OramError::StorageFailure);
        }
        proof {
            lemma_codec_round_trip(v@.header.tag, v@.header.index, v@.data);
            let want = old(self)@.put_block(k as int, old(self)@.seen_as(v@));
            assert forall|i: int| 0 <= i < self@.capacity implies #[trigger] self@.slots[i]
                == want.slots[i] by {
                if old(self)@.reliable {
                    if i != k {
                        if slot_key(i) == slot_key(k as int) {
                            lemma_be_injective(i as u32, k);
                        }
                    }
                }
            }
            assert(self@.slots =~= want.slots);
        }
        Ok(())
    }

    /// Reads the header of every stored block into the cache.
    ///
    /// Fails with `NotFound` where storage hands out no block for a slot, and
    /// with `IntegrityMismatch` where what it hands out is no block of the
    /// engine's block size.
    #[verifier::rlimit(30)]
    pub(super) fn warm_up_cache(&mut self) -> (r: Result<(), OramError>)
        requires
            old(self)@.shaped(),
        ensures
            match r {
                Ok(_) => {
                    &&& final(self)@.consistent()
                    &&& final(self)@.frame() == old(self)@.frame()
                    &&& old(self)@.reliable ==> final(self)@.slots == old(self)@.slots
                    &&& old(self)@.reliable ==> final(self).storage() == old(self).storage()
                    &&& final(self).trace() == old(self).trace() + read_trace(
                        0,
                        old(self)@.capacity as int,
                    )
                },
                Err(e) => {
                    &&& e == OramError::NotFound || e == OramError::IntegrityMismatch
                    &&& old(self)@.reliable ==> exists|i: int|
                        0 <= i < old(self)@.capacity && !(#[trigger] old(self)@.slots[i] matches Some(
                            b,
                        ) && fits(b, old(self)@.block_size))
                },
            },
    {
        let mut i: usize = 0;
        assert(self.trace() =~= old(self).trace() + read_trace(0, 0));
        while i < self.capacity
            invariant
                self@.shaped(),
                self@.frame() == old(self)@.frame(),
                self@.reliable ==> self@.slots == old(self)@.slots,
                self@.reliable ==> self.storage() == old(self).storage(),
                self.trace() == old(self).trace() + read_trace(0, i as int),
                i <= self@.capacity,
                forall|j: int| 0 <= j < i ==> #[trigger] self@.slot_ok(j),
            decreases self@.capacity - i,
        {
            let key = to_be_bytes(i as u32);
            let ghost before = self@;
            let found = self.db.get(key.as_slice());
            assert(self@.slots =~= before.slots);
            assert(self.trace() =~= old(self).trace() + read_trace(0, i + 1));
            let data = match found {
                Some(d) => d,
                None => {
                    assert(old(self)@.reliable ==> old(self)@.slots[i as int] is None);
                    return Err(OramError::NotFound);
                },
            };
            let block = match Block::decode(data.as_slice()) {
                Some(b) => b,
                None => {
                    assert(old(self)@.reliable ==> old(self)@.slots[i as int] is None);
                    return Err(OramError::IntegrityMismatch);
                },
            };
            if block.data.buf.len() > block.data.max_len || block.data.max_len != self.block_size {
                assert(old(self)@.reliable ==> old(self)@.slots[i as int] == Some(block@));
                return Err(OramError::IntegrityMismatch);
            }
            self.cache[i] = block.header;
            proof {
                if self@.reliable {
                    assert(self@.slots =~= before.slots);
                }
                assert forall|j: int| 0 <= j < i + 1 implies #[trigger] self@.slot_ok(j) by {
                    if j < i {
                        assert(before.slot_ok(j));
                    }
                }
            }
            i += 1;
        }
        Ok(())
    }
}

impl SqrtOram {
    /// Writes a fresh block to every slot: to slot `i` one with the logical
    /// index `i` in the real and the dummy range, and one without a logical
    /// index in the shelter, all with random payloads.
    #[verifier::rlimit(30)]
    pub fn init_blocks(&mut self) -> (r: Result<(), OramError>)
        requires
            old(self)@.shaped(),
        ensures
            old(self)@.reliable ==> r is Ok,
            match r {
                Ok(_) => {
                    &&& final(self)@.consistent()
                    &&& final(self)@.fresh()
                    &&& final(self)@.frame() == old(self)@.frame()
                    &&& forall|i: int|
                        0 <= i < final(self)@.capacity ==> #[trigger] final(self)@.cache[i] == (
                        BlockCache {
                            tag: tag_of(final(self)@.home_index(i), final(self)@.salt),
                            index: final(self)@.home_index(i),
                        })
                    &&& old(self)@.reliable ==> final(self).storage().dom() == old(
                        self,
                    ).storage().dom().union(slot_keys(old(self)@.capacity))
                },
                Err(e) => e == OramError::StorageFailure,
            },
    {
        let mut i: usize = 0;
        assert(self.storage().dom() =~= old(self).storage().dom().union(slot_keys(0)));
        while i < self.capacity
            invariant
                self@.shaped(),
                self@.frame() == old(self)@.frame(),
                i <= self@.capacity,
                self@.reliable ==> self.storage().dom() == old(self).storage().dom().union(
                    slot_keys(i as nat),
                ),
                forall|j: int|
                    0 <= j < i ==> ((#[trigger] self@.slots[j]) matches Some(b) && b.data.buf.len()
                        == self@.block_size),
                forall|j: int| 0 <= j < i ==> #[trigger] self@.slot_ok(j),
                forall|j: int|
                    0 <= j < i ==> #[trigger] self@.cache[j] == (BlockCache {
                        tag: tag_of(self@.home_index(j), self@.salt),
                        index: self@.home_index(j),
                    }),
            decreases self@.capacity - i,
        {
            let block_index: u32 = if i < self.n + self.shelter_size {
                i as u32
            } else {
                DUMMY_INDEX
            };
            let block = Block::new(block_index, self.block_size, self.salt);
            let ghost before = self@;
            let ghost held = self.storage();
            self.write_block(i as u32, &block)?;
            proof {
                assert forall|j: int| 0 <= j < i + 1 implies #[trigger] self@.slot_ok(j) by {
                    if j < i {
                        assert(before.slot_ok(j));
                    }
                }
                assert forall|j: int| 0 <= j < i + 1 implies ((#[trigger] self@.slots[j]) matches Some(
                    b,
                ) && b.data.buf.len() == self@.block_size) by {
                    if j < i {
                        assert(before.slots[j] == self@.slots[j]);
                    }
                }
                lemma_slot_keys_next(i as nat);
                if self@.reliable {
                    assert(self.storage().dom() =~= held.dom().insert(slot_key(i as int)));
                    assert(self.storage().dom() =~= old(self).storage().dom().union(
                        slot_keys((i + 1) as nat),
                    ));
                }
            }
            i += 1;
        }
        Ok(())
    }
}

impl Access<Slot> for SqrtOram {
    type Error = OramError;

    type Fixed = (OramView, Seq<Touch>, Set<Seq<u8>>);

    open spec fn fixed(&self) -> (OramView, Seq<Touch>, Set<Seq<u8>>) {
        (
            self@.frame(),
            self.mark(),
            if self@.reliable {
                self.storage().dom()
            } else {
                Set::empty()
            },
        )
    }

    open spec fn seen(&self) -> Seq<Probe> {
        self.probes()
    }

    open spec fn reports(e: OramError) -> bool {
        e != OramError::PayloadTooLarge
    }

    open spec fn items(&self) -> Seq<BlockView> {
        self@.items()
    }

    open spec fn valid(&self) -> bool {
        self@.consistent() && self.trace() == self.mark() + touches_of(self.probes())
    }

    open spec fn steady(&self) -> bool {
        self@.reliable
    }

    open spec fn accepts(&self, v: BlockView) -> bool {
        fits(v, self@.block_size)
    }

    fn read(&mut self, i: usize) -> (r: Result<Slot, OramError>) {
        assert(self@.slot_ok(i as int));
        let answer = self.read_block(i as u32);
        let plain = !self.db.is_reliable();
        let ghost seen = self.probes@;
        self.probes = Ghost(seen.push(Probe { write: false, at: i as int }));
        proof {
            assert(self@.slots =~= old(self)@.slots);
            assert(touches_of(self.probes()) =~= touches_of(seen).push(read_of(i as int)));
            assert(self.trace() =~= self.mark() + touches_of(self.probes()));
        }
        match answer {
            Ok(block) => Ok(Slot { block, plain }),
            Err(e) => Err(e),
        }
    }

    fn write(&mut self, i: usize, x: &Slot) -> (r: Result<(), OramError>) {
        let reliable = self.db.is_reliable();
        let size = self.block_size;
        proof {
            lemma_put_block(self@, i as int, x@);
            assert(self@.slot_ok(i as int));
            if self@.reliable {
                assert(self@.slots[i as int] == stored_block(self.storage(), i as int));
            }
        }
        let r = if x.plain && reliable {
            // the header alone was shown: a blank payload is what is written
            let block = Block {
                header: x.block.header,
                data: DataWrapper { buf: vec![0u8; size], max_len: size },
            };
            assert(block@ =~= x@) by {
                assert(block@.data.buf =~= x@.data.buf);
            }
            self.write_block(i as u32, &block)
        } else if x.plain {
            if x.block.data.buf.len() > x.block.data.max_len {
                return Err(OramError::IntegrityMismatch);
            }
            self.write_block(i as u32, &x.block)
        } else if reliable {
            self.write_block(i as u32, &x.block)
        } else {
            // a block with its payload cannot be vouched for on this storage
            return Err(OramError::IntegrityMismatch);
        };
        let ghost seen = self.probes@;
        let ghost after = self@;
        self.probes = Ghost(seen.push(Probe { write: true, at: i as int }));
        proof {
            assert(self@.slots =~= after.slots);
            assert(touches_of(self.probes()) =~= touches_of(seen).push(write_of(i as int)));
            assert(self.trace() =~= self.mark() + touches_of(self.probes()));
            if r is Ok && self@.reliable {
                assert(self.storage().dom() =~= old(self).storage().dom());
            }
        }
        r
    }
}

} // verus!
