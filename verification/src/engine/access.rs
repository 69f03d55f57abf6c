//! The access protocol: what every read and every write of a key does to
//! the slots.

use vstd::prelude::*;
use crate::block::{tag_of, Block, DUMMY_INDEX};
use crate::data::{Data, DataWrapper};
use crate::engine::model::{payload_of, probe_trace, read_of, scan_trace, write_of, OramView};
use crate::engine::proofs::{
    lemma_decoyed, lemma_footprint, lemma_found, lemma_has_root, lemma_holder, lemma_in_order,
    lemma_moved, lemma_placed_decoyed, lemma_placed_moved, lemma_probe_trace, lemma_put_block,
    lemma_stepped, lemma_written_back,
};
use crate::engine::SqrtOram;
use crate::error::OramError;

verus! {

impl SqrtOram {
    /// The first slot before the shelter whose block has the tag `seek`,
    /// found by binary search in the header cache.
    fn find_tag(&self, seek: u32) -> (r: Option<usize>)
        requires
            self@.shaped(),
            forall|i: int, j: int|
                0 <= i < j < self@.prefix() ==> (#[trigger] self@.cache[i]).tag <= (
                #[trigger] self@.cache[j]).tag,
        ensures
            match r {
                Some(p) => self@.tagged(seek) && p == self@.tag_slot(seek) && p < self@.prefix()
                    && self@.cache[p as int].tag == seek,
                None => !self@.tagged(seek),
            },
    {
        let end = self.n + self.shelter_size;
        let mut low: usize = 0;
        let mut high: usize = end;
        while low < high
            invariant
                self@.shaped(),
                end == self@.prefix(),
                0 <= low <= high <= end,
                forall|i: int, j: int|
                    0 <= i < j < self@.prefix() ==> (#[trigger] self@.cache[i]).tag <= (
                    #[trigger] self@.cache[j]).tag,
                forall|q: int| 0 <= q < low ==> (#[trigger] self@.cache[q]).tag < seek,
                forall|q: int| high <= q < end ==> (#[trigger] self@.cache[q]).tag >= seek,
            decreases high - low,
        {
            let mid = low + (high - low) / 2;
            if self.cache[mid].tag < seek {
                proof {
                    assert forall|q: int| 0 <= q < mid + 1 implies (#[trigger] self@.cache[q]).tag
                        < seek by {
                        if q < mid {
                            assert(self@.cache[q].tag <= self@.cache[mid as int].tag);
                        }
                    }
                }
                low = mid + 1;
            } else {
                proof {
                    assert forall|q: int| mid <= q < end implies (#[trigger] self@.cache[q]).tag
                        >= seek by {
                        if q > mid {
                            assert(self@.cache[mid as int].tag <= self@.cache[q].tag);
                        }
                    }
                }
                high = mid;
            }
        }
        if low < end && self.cache[low].tag == seek {
            proof {
                let t = self@.tag_slot(seek);
                assert(self@.cache[low as int].tag == seek);
                assert(self@.cache[t].tag == seek);
            }
            Some(low)
        } else {
            proof {
                if self@.tagged(seek) {
                    let p = choose|p: int|
                        0 <= p < self@.prefix() && (#[trigger] self@.cache[p]).tag == seek;
                    if p > low {
                        assert(self@.cache[low as int].tag <= self@.cache[p].tag);
                    }
                }
            }
            None
        }
    }

    /// Reads every block of the shelter and writes it back, and hands out a
    /// copy of the first that holds key `k`.
    fn scan_shelter(&mut self, k: u32) -> (r: Result<Option<Block>, OramError>)
        requires
            old(self)@.consistent(),
        ensures
            old(self)@.reliable ==> r is Ok,
            match r {
                Ok(found) => {
                    &&& final(self)@ == old(self)@
                    &&& final(self).trace() == old(self).trace() + scan_trace(
                        old(self)@.prefix() as int,
                        old(self)@.capacity as int,
                    )
                    &&& match found {
                        Some(b) => old(self)@.sheltered(k) && old(self)@.seen_as(b@) == old(
                            self,
                        )@.items()[old(self)@.shelter_slot(k)],
                        None => !old(self)@.sheltered(k),
                    }
                },
                Err(e) => e != OramError::PayloadTooLarge,
            },
    {
        let mut found: Option<Block> = None;
        let ghost mut at: int = 0;
        let start = self.n + self.shelter_size;
        let mut i: usize = start;
        assert(self.trace() =~= old(self).trace() + scan_trace(start as int, start as int));
        while i < self.capacity
            invariant
                self@ == old(self)@,
                self.trace() == old(self).trace() + scan_trace(start as int, i as int),
                self@.consistent(),
                start == self@.prefix(),
                start <= i <= self@.capacity,
                found is None ==> forall|j: int|
                    start <= j < i ==> (#[trigger] self@.cache[j]).index != k,
                found matches Some(b) ==> {
                    &&& start <= at < i
                    &&& self@.cache[at].index == k
                    &&& self@.seen_as(b@) == self@.items()[at]
                    &&& forall|j: int| start <= j < at ==> (#[trigger] self@.cache[j]).index != k
                },
            decreases self@.capacity - i,
        {
            let block = match self.read_block(i as u32) {
                Ok(b) => b,
                Err(e) => {
                    return Err(e);
                },
            };
            if found.is_none() && self.cache[i].index == k {
                found = Some(block.clone());
                proof {
                    at = i as int;
                }
            }
            proof {
                assert(self@.slot_ok(i as int));
                lemma_written_back(self@, i as int);
            }
            self.write_block(i as u32, &block)?;
            proof {
                assert(self.trace() =~= old(self).trace() + scan_trace(start as int, i + 1));
            }
            i += 1;
        }
        proof {
            if found is Some {
                let t = self@.shelter_slot(k);
                assert(self@.cache[at].index == k);
                assert(self@.cache[t].index == k);
            }
        }
        Ok(found)
    }

    /// Reads the block of slot `location` and writes it back.
    fn touch(&mut self, location: u32) -> (r: Result<(), OramError>)
        requires
            old(self)@.consistent(),
            location < old(self)@.capacity,
        ensures
            old(self)@.reliable ==> r is Ok,
            match r {
                Ok(_) => final(self)@ == old(self)@ && final(self).trace() == old(
                    self,
                ).trace().push(read_of(location as int)).push(write_of(location as int)),
                Err(e) => e != OramError::PayloadTooLarge,
            },
    {
        let block = match self.read_block(location) {
            Ok(b) => b,
            Err(e) => {
                return Err(e);
            },
        };
        proof {
            assert(self@.slot_ok(location as int));
            lemma_written_back(self@, location as int);
        }
        self.write_block(location, &block)
    }

    /// The part of an access that has found its key in the shelter: touches
    /// the decoy of this access and puts a fresh block without a key into
    /// the next slot of the shelter.
    #[verifier::rlimit(30)]
    fn decoy_step(&mut self) -> (r: Result<(), OramError>)
        requires
            old(self)@.wf(),
            old(self)@.shelter_size > 0,
        ensures
            old(self)@.reliable ==> r is Ok,
            match r {
                Ok(_) => {
                    &&& final(self)@.arranged()
                    &&& final(self)@.same_make(old(self)@)
                    &&& final(self)@.count == old(self)@.count + 1
                    &&& forall|j: u32|
                        j < old(self)@.prefix() ==> #[trigger] final(self)@.value_of(j) == old(
                            self,
                        )@.value_of(j)
                    &&& final(self).trace() == old(self).trace() + probe_trace(
                        old(self)@.tag_slot(
                            tag_of((old(self)@.n + old(self)@.count) as u32, old(self)@.salt),
                        ),
                        old(self)@.next_slot(),
                    )
                    &&& old(self)@.decoyed(final(self)@)
                },
                Err(e) => e != OramError::PayloadTooLarge,
            },
    {
        let ghost v = self@;
        proof {
            lemma_in_order(v);
        }
        let seek = Block::derive_tag((self.n + self.count) as u32, self.salt);
        let location = match self.find_tag(seek) {
            Some(p) => p,
            None => {
                return Err(OramError::IntegrityMismatch);
            },
        };
        self.touch(location as u32)?;
        let fresh = Block::new(DUMMY_INDEX, self.block_size, self.salt);
        let shelter_write_index = self.n + self.shelter_size + self.count;
        self.write_block(shelter_write_index as u32, &fresh)?;
        self.count += 1;
        proof {
            let f = v.seen_as(fresh@);
            lemma_decoyed(v, f);
            lemma_placed_decoyed(v, f);
            assert(self@ == v.put_block(v.next_slot(), f).counted());
            lemma_probe_trace(old(self).trace(), location as int, v.next_slot());
        }
        Ok(())
    }

    /// The part of an access that has not found its key in the shelter:
    /// takes the first block with the tag of the key from before the shelter,
    /// leaves a dummy clone in its place, and puts the block, with the
    /// payload of `write` where there is one, into the next slot of the
    /// shelter. Hands out the block as it was found.
    #[verifier::rlimit(30)]
    fn move_step(&mut self, k: u32, write: Option<DataWrapper>) -> (r: Result<Block, OramError>)
        requires
            old(self)@.wf(),
            !old(self)@.sheltered(k),
            write matches Some(d) ==> d@.buf.len() <= d@.max_len == old(self)@.block_size,
        ensures
            old(self)@.reliable && old(self)@.tagged(tag_of(k, old(self)@.salt)) ==> r is Ok,
            match r {
                Ok(b) => {
                    &&& old(self)@.tagged(tag_of(k, old(self)@.salt))
                    &&& old(self)@.seen_as(b@) == old(self)@.items()[old(self)@.tag_slot(
                        tag_of(k, old(self)@.salt),
                    )]
                    &&& final(self)@.arranged()
                    &&& final(self)@.same_make(old(self)@)
                    &&& final(self)@.count == old(self)@.count + 1
                    &&& old(self)@.shelter_size > 0
                    &&& old(self)@.reliable ==> forall|j: u32|
                        j < old(self)@.prefix() ==> #[trigger] final(self)@.value_of(j) == (
                        if write is Some && j == b@.header.index {
                            payload_of(write).unwrap()
                        } else {
                            old(self)@.value_of(j)
                        })
                    &&& final(self).trace() == old(self).trace() + probe_trace(
                        old(self)@.tag_slot(tag_of(k, old(self)@.salt)),
                        old(self)@.next_slot(),
                    )
                    &&& old(self)@.moved(
                        final(self)@,
                        old(self)@.tag_slot(tag_of(k, old(self)@.salt)),
                        payload_of(write),
                    )
                },
                Err(e) => match e {
                    OramError::IntegrityMismatch => old(self)@.reliable ==> !old(self)@.tagged(
                        tag_of(k, old(self)@.salt),
                    ) && final(self)@ == old(self)@ && final(self).trace() == old(self).trace(),
                    OramError::NotFound => !old(self)@.reliable,
                    OramError::StorageFailure => !old(self)@.reliable,
                    OramError::PayloadTooLarge => false,
                },
            },
    {
        let ghost v = self@;
        proof {
            lemma_in_order(v);
        }
        let seek = Block::derive_tag(k, self.salt);
        let location = match self.find_tag(seek) {
            Some(p) => p,
            None => {
                return Err(OramError::IntegrityMismatch);
            },
        };
        let found_block = match self.read_block(location as u32) {
            Ok(b) => b,
            Err(e) => {
                return Err(e);
            },
        };
        let clone = found_block.dummy_clone();
        proof {
            assert(v.slot_ok(location as int));
            lemma_put_block(v, location as int, v.seen_as(clone@));
            lemma_has_root(v);
        }
        self.write_block(location as u32, &clone)?;
        let shelter_write_index = self.n + self.shelter_size + self.count;
        let ghost payload = payload_of(write);
        let stored = match write {
            Some(data) => Block { header: found_block.header, data },
            None => found_block.clone(),
        };
        self.write_block(shelter_write_index as u32, &stored)?;
        self.count += 1;
        proof {
            let c = v.seen_as(clone@);
            let st = v.seen_as(stored@);
            lemma_moved(v, location as int, c, st);
            lemma_placed_moved(v, location as int, c, st, payload);
            assert(self@ == v.put_block(location as int, c).put_block(v.next_slot(), st).counted());
            if found_block@.header.index < v.prefix() {
                lemma_holder(v, found_block@.header.index, location as int);
            }
            lemma_probe_trace(old(self).trace(), location as int, v.next_slot());
        }
        Ok(found_block)
    }

    /// One access without the end of the epoch: the scan of the shelter and
    /// the step that follows from what the scan found.
    #[verifier::rlimit(30)]
    fn step(&mut self, k: u32, write: Option<DataWrapper>) -> (r: Result<
        Option<DataWrapper>,
        OramError,
    >)
        requires
            old(self)@.wf(),
            write matches Some(d) ==> d@.buf.len() <= d@.max_len == old(self)@.block_size,
        ensures
            old(self)@.reliable && old(self)@.hit(k) is Some ==> r is Ok,
            match r {
                Ok(out) => {
                    &&& old(self)@.hit(k) is Some
                    &&& old(self)@.shelter_size > 0
                    &&& final(self)@.arranged()
                    &&& final(self)@.same_make(old(self)@)
                    &&& final(self)@.count == old(self)@.count + 1
                    &&& old(self)@.reliable ==> forall|j: u32|
                        j < old(self)@.prefix() ==> #[trigger] final(self)@.value_of(j) == (if !old(
                            self,
                        )@.sheltered(k) && write is Some && j == old(self)@.found(k).header.index {
                            payload_of(write).unwrap()
                        } else {
                            old(self)@.value_of(j)
                        })
                    &&& final(self).trace() == old(self).trace() + old(self)@.footprint(k)
                    &&& old(self)@.placed(final(self)@, k, payload_of(write))
                    &&& match out {
                        Some(d) => write is None && (old(self)@.reliable ==> d@ == old(
                            self,
                        )@.found(k).data),
                        None => write is Some,
                    }
                },
                Err(e) => match e {
                    OramError::IntegrityMismatch => old(self)@.reliable ==> old(self)@.hit(k) is None
                        && final(self)@ == old(self)@ && old(self).scanned(final(self)),
                    OramError::NotFound => !old(self)@.reliable,
                    OramError::StorageFailure => !old(self)@.reliable,
                    OramError::PayloadTooLarge => false,
                },
            },
    {
        let ghost v = self@;
        let ghost t0 = self.trace();
        proof {
            lemma_found(v, k);
            lemma_footprint(t0, v, k);
        }
        let is_write = write.is_some();
        let sheltered = self.scan_shelter(k)?;
        let found = match sheltered {
            Some(b) => {
                self.decoy_step()?;
                b
            },
            None => self.move_step(k, write)?,
        };
        if is_write {
            Ok(None)
        } else {
            Ok(Some(found.data))
        }
    }

    /// If write is `None`, runs a read of key `k`, otherwise a write.
    ///
    /// Scans the shelter; takes the block of the key from before the shelter
    /// into the shelter unless the shelter holds it, and touches a decoy if
    /// it does; ends the epoch when the shelter is full. A read hands out the
    /// payload that was found, a write hands out nothing.
    #[verifier::rlimit(30)]
    pub fn access(&mut self, k: u32, write: Option<DataWrapper>) -> (r: Result<
        Option<DataWrapper>,
        OramError,
    >)
        requires
            old(self)@.wf(),
            write matches Some(d) ==> d@.buf.len() <= d@.max_len == old(self)@.block_size,
        ensures
            old(self)@.reliable && old(self)@.hit(k) is Some ==> r is Ok,
            match r {
                Ok(out) => {
                    &&& old(self)@.stepped(final(self)@, k, payload_of(write))
                    &&& old(self).observed(final(self), k)
                    &&& match out {
                        Some(d) => write is None && (old(self)@.reliable ==> d@ == old(
                            self,
                        )@.found(k).data),
                        None => write is Some,
                    }
                },
                Err(e) => match e {
                    OramError::IntegrityMismatch => old(self)@.reliable ==> old(self)@.hit(k) is None
                        && final(self)@ == old(self)@ && old(self).scanned(final(self)),
                    OramError::NotFound => !old(self)@.reliable,
                    OramError::StorageFailure => !old(self)@.reliable,
                    OramError::PayloadTooLarge => false,
                },
            },
    {
        let ghost v = self@;
        let ghost payload = payload_of(write);
        let out = self.step(k, write)?;
        let ghost w = self@;
        let ghost tw = self.trace();
        if self.count == self.shelter_size {
            proof {
                reveal(OramView::arranged);
            }
            self.settle()?;
        } else {
            proof {
                assert(tw.subrange(0, tw.len() as int) =~= tw);
            }
        }
        proof {
            lemma_stepped(v, w, self@, k, payload);
        }
        Ok(out)
    }
}

impl SqrtOram {
    /// Whether the shelter holds the block of key `k`, by the header cache:
    /// nothing is read from storage.
    pub fn shelters(&self, k: u32) -> (r: bool)
        requires
            self@.shaped(),
        ensures
            r == self@.sheltered(k),
    {
        let start = self.n + self.shelter_size;
        let mut i: usize = start;
        while i < self.capacity
            invariant
                self@.shaped(),
                start == self@.prefix(),
                start <= i <= self@.capacity,
                forall|j: int| start <= j < i ==> (#[trigger] self@.cache[j]).index != k,
            decreases self@.capacity - i,
        {
            if self.cache[i].index == k {
                assert(self@.cache[i as int].index == k);
                return true;
            }
            i += 1;
        }
        false
    }

    /// Whether no two blocks before the shelter have the same tag, by the
    /// header cache. Where that holds, every access finds the block of its
    /// key.
    pub fn tags_differ(&self) -> (r: bool)
        requires
            self@.wf(),
        ensures
            r == (forall|p: int, q: int|
                0 <= p < q < self@.prefix() ==> (#[trigger] self@.cache[p]).tag != (
                #[trigger] self@.cache[q]).tag),
    {
        proof {
            lemma_in_order(self@);
        }
        let end = self.n + self.shelter_size;
        if end < 2 {
            return true;
        }
        let mut i: usize = 1;
        while i < end
            invariant
                self@.shaped(),
                end == self@.prefix(),
                1 <= i <= end,
                forall|p: int, q: int|
                    0 <= p < q < self@.prefix() ==> (#[trigger] self@.cache[p]).tag <= (
                    #[trigger] self@.cache[q]).tag,
                forall|p: int, q: int|
                    0 <= p < q < i ==> (#[trigger] self@.cache[p]).tag < (
                    #[trigger] self@.cache[q]).tag,
            decreases end - i,
        {
            if self.cache[i - 1].tag == self.cache[i].tag {
                assert(self@.cache[i - 1].tag == self@.cache[i as int].tag);
                return false;
            }
            proof {
                assert forall|p: int, q: int| 0 <= p < q < i + 1 implies (
                #[trigger] self@.cache[p]).tag < (#[trigger] self@.cache[q]).tag by {
                    if q == i {
                        assert(self@.cache[i - 1].tag <= self@.cache[i as int].tag);
                        if p < i - 1 {
                            assert(self@.cache[p].tag < self@.cache[i - 1].tag);
                        }
                    }
                }
            }
            i += 1;
        }
        true
    }

    /// Stores data `v` at key `k`.
    ///
    /// `v` may be up to the block size long; a longer one is refused with
    /// `PayloadTooLarge` and changes nothing. A write to a key that is
    /// sheltered goes through the protocol and leaves the stored value as it
    /// is.
    pub fn put(&mut self, k: u32, v: Data) -> (r: Result<(), OramError>)
        requires
            old(self)@.wf(),
        ensures
            v@.len() <= old(self)@.block_size && old(self)@.reliable && old(self)@.hit(k) is Some
                ==> r is Ok,
            match r {
                Ok(_) => v@.len() <= old(self)@.block_size && old(self)@.stepped(
                    final(self)@,
                    k,
                    Some(v@),
                ) && old(self).observed(final(self), k),
                Err(e) => match e {
                    OramError::PayloadTooLarge => v@.len() > old(self)@.block_size && final(self)@
                        == old(self)@ && final(self).trace() == old(self).trace(),
                    OramError::IntegrityMismatch => v@.len() <= old(self)@.block_size && (old(
                        self,
                    )@.reliable ==> old(self)@.hit(k) is None && final(self)@ == old(self)@ && old(
                        self,
                    ).scanned(final(self))),
                    OramError::NotFound => v@.len() <= old(self)@.block_size && !old(
                        self,
                    )@.reliable,
                    OramError::StorageFailure => v@.len() <= old(self)@.block_size && !old(
                        self,
                    )@.reliable,
                },
            },
    {
        if v.len() > self.block_size {
            return Err(OramError::PayloadTooLarge);
        }
        let data = DataWrapper { buf: v, max_len: self.block_size };
        match self.access(k, Some(data)) {
            Ok(_) => Ok(()),
            Err(e) => Err(e),
        }
    }

    /// Reads the data at key `k`: the payload of the block that the access
    /// finds.
    pub fn get(&mut self, k: u32) -> (r: Result<Option<Data>, OramError>)
        requires
            old(self)@.wf(),
        ensures
            old(self)@.reliable && old(self)@.hit(k) is Some ==> r is Ok,
            match r {
                Ok(out) => {
                    &&& out matches Some(d) && (old(self)@.reliable ==> d@ == old(self)@.found(
                        k,
                    ).data.buf)
                    &&& old(self)@.stepped(final(self)@, k, None)
                    &&& old(self).observed(final(self), k)
                },
                Err(e) => match e {
                    OramError::IntegrityMismatch => old(self)@.reliable ==> old(self)@.hit(k) is None
                        && final(self)@ == old(self)@ && old(self).scanned(final(self)),
                    OramError::NotFound => !old(self)@.reliable,
                    OramError::StorageFailure => !old(self)@.reliable,
                    OramError::PayloadTooLarge => false,
                },
            },
    {
        match self.access(k, None) {
            Ok(Some(d)) => Ok(Some(d.buf)),
            Ok(None) => Ok(None),
            Err(e) => Err(e),
        }
    }
}

} // verus!
