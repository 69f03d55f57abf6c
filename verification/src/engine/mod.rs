//! The engine of the store: the slots, the header cache and the protocol
//! that every access follows.

pub mod access;
pub mod blocks;
pub mod epoch;
pub mod model;
pub mod proofs;
pub mod setup;

use std::ops::Range;
use vstd::prelude::*;
use crate::block::BlockCache;
use crate::db::{touches, Database, Touch};
use crate::engine::model::{blank, scan_trace, stored_block, touches_of, OramView};
use crate::sort::{reached, Probe};
use crate::engine::proofs::lemma_recording;
use crate::entropy::Salt;

verus! {

/// A square-root oblivious RAM.
pub struct SqrtOram {
    /// Number of real blocks.
    n: usize,
    /// Number of blocks in shelter.
    shelter_size: usize,
    /// Total number of blocks in storage.
    capacity: usize,
    /// Salt for the tag function.
    salt: Salt,
    /// Database.
    db: Database,
    /// Number of read/write operations executed since the last shuffle.
    count: usize,
    /// Cache of the headers of the stored blocks.
    cache: Vec<BlockCache>,
    /// Length of data stored in each block.
    block_size: usize,
    /// A point in the trace that lies behind.
    mark: Ghost<Seq<Touch>>,
    /// The reads and writes of blocks by a sort since that point.
    probes: Ghost<Seq<Probe>>,
}

impl View for SqrtOram {
    type V = OramView;

    closed spec fn view(&self) -> OramView {
        OramView {
            n: self.n as nat,
            shelter_size: self.shelter_size as nat,
            capacity: self.capacity as nat,
            block_size: self.block_size as nat,
            count: self.count as nat,
            salt: self.salt@,
            cache: self.cache@,
            slots: if self.db.reliable() {
                Seq::new(self.cache@.len(), |i: int| stored_block(self.db.contents(), i))
            } else {
                Seq::new(
                    self.cache@.len(),
                    |i: int| Some(blank(self.cache@[i], self.block_size as nat)),
                )
            },
            reliable: self.db.reliable(),
            sound: self.db.wf(),
            recording: self.db.recording_since(),
            directory: self.db.directory(),
        }
    }
}

impl SqrtOram {
    /// The keys and values that the storage of the engine holds.
    pub closed spec fn storage(&self) -> Map<Seq<u8>, Seq<u8>> {
        self.db.contents()
    }

    /// What an observer of the storage has seen since the storage was
    /// opened: every read and every write, in order.
    pub closed spec fn trace(&self) -> Seq<Touch> {
        self.db.log()
    }

    /// A point that the trace has passed.
    pub closed spec fn mark(&self) -> Seq<Touch> {
        self.mark@
    }

    /// The reads and writes of blocks by the sort that is under way or was
    /// last run.
    pub closed spec fn probes(&self) -> Seq<Probe> {
        self.probes@
    }

    /// A sort of the slots below `bound` has led from `self` to `after`: the
    /// observer has seen its reads and writes, all of slots below `bound`,
    /// and reliable storage holds the keys it held.
    pub open spec fn sorted_within(&self, after: &SqrtOram, bound: int) -> bool {
        &&& after.trace() == self.trace() + touches_of(after.probes())
        &&& reached(Seq::empty(), after.probes(), bound)
        &&& self@.reliable ==> after.storage().dom() == self.storage().dom()
    }

    /// The blocks of the engine as a value are what its storage holds, read
    /// slot by slot, where the storage is reliable. Of storage on disk, which
    /// may lose what it is given, the engine as a value holds the headers of
    /// its cache alone, with blank payloads.
    pub proof fn lemma_slots_are_storage(&self)
        ensures
            self@.slots.len() == self@.cache.len(),
            self@.reliable ==> forall|i: int|
                0 <= i < self@.slots.len() ==> #[trigger] self@.slots[i] == stored_block(
                    self.storage(),
                    i,
                ),
            !self@.reliable ==> forall|i: int|
                0 <= i < self@.slots.len() ==> #[trigger] self@.slots[i] == Some(
                    blank(self@.cache[i], self@.block_size),
                ),
    {
    }

    /// An observer of the storage has seen one access of key `k` between
    /// `self` and `after`: the footprint of the access, and after it, where
    /// the access ended the epoch, the maintenance cycle.
    pub open spec fn observed(&self, after: &SqrtOram, k: u32) -> bool {
        &&& (self.trace() + self@.footprint(k)).is_prefix_of(after.trace())
        &&& self@.next_count() != 0 ==> after.trace() == self.trace() + self@.footprint(k)
    }

    /// An observer of the storage has seen a scan of the shelter between
    /// `self` and `after`, and no more: what is seen of an access that finds
    /// no block for its key.
    pub open spec fn scanned(&self, after: &SqrtOram) -> bool {
        after.trace() == self.trace() + scan_trace(self@.prefix() as int, self@.capacity as int)
    }

    /// Switches recording on: from now on the engine keeps what an observer
    /// of its storage sees.
    pub fn start_recording(&mut self)
        requires
            old(self)@.shaped(),
        ensures
            final(self)@ == (OramView { recording: Some(old(self).trace().len()), ..old(self)@ }),
            final(self).trace() == old(self).trace(),
            old(self)@.wf() ==> final(self)@.wf(),
    {
        self.db.start_recording();
        proof {
            assert(self@.slots =~= old(self)@.slots);
            if old(self)@.wf() {
                lemma_recording(old(self)@, Some(old(self).trace().len()));
            }
        }
    }

    /// Switches recording off and hands out what was recorded: the part of
    /// the trace since recording was switched on, for each access whether it
    /// was a write, and the key of its slot.
    pub fn stop_recording(&mut self) -> (r: Vec<(bool, Vec<u8>)>)
        requires
            old(self)@.shaped(),
        ensures
            final(self)@ == (OramView { recording: None, ..old(self)@ }),
            final(self).trace() == old(self).trace(),
            touches(r@) == (match old(self)@.recording {
                Some(from) => old(self).trace().subrange(
                    from as int,
                    old(self).trace().len() as int,
                ),
                None => Seq::<Touch>::empty(),
            }),
            old(self)@.wf() ==> final(self)@.wf(),
    {
        let r = self.db.stop_recording();
        proof {
            assert(self@.slots =~= old(self)@.slots);
            if old(self)@.wf() {
                lemma_recording(old(self)@, None);
            }
        }
        r
    }

    /// Number of real blocks.
    pub fn len(&self) -> (r: usize)
        ensures
            r == self@.n,
    {
        self.n
    }

    /// Number of blocks in the shelter.
    pub fn shelter_size(&self) -> (r: usize)
        ensures
            r == self@.shelter_size,
    {
        self.shelter_size
    }

    /// Total number of slots.
    pub fn capacity(&self) -> (r: usize)
        ensures
            r == self@.capacity,
    {
        self.capacity
    }

    /// Length of data stored in each block.
    pub fn block_size(&self) -> (r: usize)
        ensures
            r == self@.block_size,
    {
        self.block_size
    }

    /// Number of accesses since the last shuffle.
    pub fn count(&self) -> (r: usize)
        ensures
            r == self@.count,
    {
        self.count
    }

    /// The slots of the real blocks.
    pub fn real_range(&self) -> (r: Range<usize>)
        ensures
            r.start == 0,
            r.end == self@.n,
    {
        0..self.n
    }

    /// The slots of the dummy blocks.
    pub fn dummy_range(&self) -> (r: Range<usize>)
        requires
            self@.shaped(),
        ensures
            r.start == self@.n,
            r.end == self@.prefix(),
    {
        self.n..self.n + self.shelter_size
    }

    /// The slots of the shelter.
    pub fn shelter_range(&self) -> (r: Range<usize>)
        requires
            self@.shaped(),
        ensures
            r.start == self@.prefix(),
            r.end == self@.capacity,
    {
        self.n + self.shelter_size..self.capacity
    }
}

} // verus!
