//! The end of an epoch: every block is brought home, tagged under a new
//! salt, and shuffled.

use vstd::prelude::*;
use crate::arrangement::home_order;
use crate::block::{tag_of, Block, BlockCache, BlockView};
use crate::engine::blocks::{ByIndex, ByTag, Slot};
use crate::engine::model::{scan_trace, stored_block, touches_of, OramView};
use crate::engine::proofs::{
    lemma_has_holder, lemma_holder, lemma_prefix_chain, lemma_prefix_plus, lemma_put_block,
    lemma_rearranged, lemma_shuffled,
};
use crate::engine::SqrtOram;
use crate::entropy::{random_salt, Salt};
use crate::error::OramError;
use crate::schedule::{network, play};
use crate::sort::{odd_even_mergesort, sorted_prefix, Probe};

verus! {

impl SqrtOram {
    /// Draws the salt of the next epoch: 32 bytes of chance, of which nothing
    /// holds but their number. What the engine does with them is the same
    /// for every salt: see [`SqrtOram::retag`].
    pub(super) fn generate_salt() -> (salt: Salt) {
        random_salt()
    }

    /// Rotates the salt and gives the block of every slot before the shelter
    /// the tag of its slot number under the new salt.
    pub(super) fn rehash(&mut self) -> (r: Result<(), OramError>)
        requires
            old(self)@.consistent(),
        ensures
            old(self)@.reliable ==> r is Ok,
            match r {
                Ok(_) => {
                    &&& final(self)@.consistent()
                    &&& final(self)@.frame() == (OramView {
                        salt: final(self)@.salt,
                        ..old(self)@.frame()
                    })
                    &&& forall|i: int|
                        0 <= i < final(self)@.capacity ==> #[trigger] final(self)@.items()[i] == (
                        if i < final(self)@.prefix() {
                            BlockView {
                                header: BlockCache {
                                    tag: tag_of(i as u32, final(self)@.salt),
                                    index: old(self)@.items()[i].header.index,
                                },
                                data: old(self)@.items()[i].data,
                            }
                        } else {
                            old(self)@.items()[i]
                        })
                    &&& final(self).trace() == old(self).trace() + scan_trace(
                        0,
                        old(self)@.prefix() as int,
                    )
                    &&& old(self)@.reliable ==> final(self).storage().dom() == old(
                        self,
                    ).storage().dom()
                },
                Err(e) => e != OramError::PayloadTooLarge,
            },
    {
        let salt = Self::generate_salt();
        self.retag(salt)
    }

    /// Takes `salt` for the salt of the engine and gives the block of every
    /// slot before the shelter the tag of its slot number under it. Index and
    /// payload of every block stay, and so do the blocks of the shelter.
    #[verifier::rlimit(30)]
    pub(super) fn retag(&mut self, salt: Salt) -> (r: Result<(), OramError>)
        requires
            old(self)@.consistent(),
        ensures
            old(self)@.reliable ==> r is Ok,
            match r {
                Ok(_) => {
                    &&& final(self)@.consistent()
                    &&& final(self)@.frame() == (OramView { salt: salt@, ..old(self)@.frame() })
                    &&& forall|i: int|
                        0 <= i < final(self)@.capacity ==> #[trigger] final(self)@.items()[i] == (
                        if i < final(self)@.prefix() {
                            BlockView {
                                header: BlockCache {
                                    tag: tag_of(i as u32, salt@),
                                    index: old(self)@.items()[i].header.index,
                                },
                                data: old(self)@.items()[i].data,
                            }
                        } else {
                            old(self)@.items()[i]
                        })
                    &&& final(self).trace() == old(self).trace() + scan_trace(
                        0,
                        old(self)@.prefix() as int,
                    )
                    &&& old(self)@.reliable ==> final(self).storage().dom() == old(
                        self,
                    ).storage().dom()
                },
                Err(e) => e != OramError::PayloadTooLarge,
            },
    {
        self.salt = salt;
        proof {
            assert(self.trace() =~= old(self).trace() + scan_trace(0, 0));
        }
        let ghost start = self@;
        assert(start.slots =~= old(self)@.slots);
        assert(start.consistent()) by {
            assert forall|i: int| 0 <= i < start.capacity implies #[trigger] start.slot_ok(i) by {
                assert(old(self)@.slot_ok(i));
            }
        }
        let end = self.n + self.shelter_size;
        let mut i: usize = 0;
        while i < end
            invariant
                end == self@.prefix(),
                i <= end,
                self@.consistent(),
                self@.frame() == start.frame(),
                start.consistent(),
                start.reliable == old(self)@.reliable,
                self.trace() == old(self).trace() + scan_trace(0, i as int),
                self@.reliable ==> self.storage().dom() == old(self).storage().dom(),
                forall|j: int|
                    0 <= j < self@.capacity ==> #[trigger] self@.items()[j] == (if j < i {
                        BlockView {
                            header: BlockCache {
                                tag: tag_of(j as u32, self@.salt),
                                index: start.items()[j].header.index,
                            },
                            data: start.items()[j].data,
                        }
                    } else {
                        start.items()[j]
                    }),
            decreases end - i,
        {
            let ghost before = self@;
            let ghost held = self.storage();
            proof {
                assert(before.slot_ok(i as int));
                if before.reliable {
                    assert(before.slots[i as int] == stored_block(held, i as int));
                }
            }
            let mut block = match self.read_block(i as u32) {
                Ok(b) => b,
                Err(e) => {
                    return Err(e);
                },
            };
            assert(before.seen_as(block@) == before.items()[i as int]);
            let ghost read = block@;
            block.header.tag = Block::derive_tag(i as u32, self.salt);
            proof {
                assert(before.slot_ok(i as int));
                assert(before.seen_as(block@).data == before.seen_as(read).data);
                lemma_put_block(before, i as int, before.seen_as(block@));
            }
            self.write_block(i as u32, &block)?;
            proof {
                assert(self.trace() =~= old(self).trace() + scan_trace(0, i + 1));
                if before.reliable {
                    assert(self.storage().dom() =~= held.dom());
                }
            }
            i += 1;
        }
        proof {
            assert forall|i: int| 0 <= i < self@.capacity implies #[trigger] self@.items()[i] == (
            if i < self@.prefix() {
                BlockView {
                    header: BlockCache {
                        tag: tag_of(i as u32, self@.salt),
                        index: old(self)@.items()[i].header.index,
                    },
                    data: old(self)@.items()[i].data,
                }
            } else {
                old(self)@.items()[i]
            }) by {
                assert(start.items()[i] == old(self)@.items()[i]);
            }
        }
        Ok(())
    }

    /// Shuffles real and dummy blocks: sorts the slots before the shelter by
    /// tag.
    pub(super) fn shuffle(&mut self) -> (r: Result<(), OramError>)
        requires
            old(self)@.consistent(),
        ensures
            old(self)@.reliable ==> r is Ok,
            match r {
                Ok(_) => {
                    &&& final(self)@.consistent()
                    &&& final(self)@.frame() == old(self)@.frame()
                    &&& sorted_prefix::<Slot, ByTag>(
                        old(self)@.items(),
                        final(self)@.items(),
                        old(self)@.prefix() as int,
                    )
                    &&& old(self).sorted_within(final(self), old(self)@.prefix() as int)
                    &&& final(self).probes() == play::<Slot, ByTag>(
                        old(self)@.items(),
                        network(old(self)@.prefix() as int),
                    ).1
                    &&& final(self)@.items() == play::<Slot, ByTag>(
                        old(self)@.items(),
                        network(old(self)@.prefix() as int),
                    ).0
                },
                Err(e) => e != OramError::PayloadTooLarge,
            },
    {
        let end = self.n + self.shelter_size;
        self.mark = Ghost(self.db.log());
        self.probes = Ghost(Seq::empty());
        proof {
            assert(self@.slots =~= old(self)@.slots);
            assert(self.trace() =~= self.mark() + touches_of(self.probes()));
        }
        let r = odd_even_mergesort::<Slot, ByTag, SqrtOram>(0..end, &ByTag, self);
        proof {
            let seen = play::<Slot, ByTag>(old(self)@.items(), network(end as int)).1;
            assert(Seq::<Probe>::empty() + seen =~= seen);
        }
        match r {
            Ok(_) => Ok(()),
            Err(e) => Err(e),
        }
    }

    /// Rearranges the blocks so that every block stands at its home: sorts
    /// all slots by logical index.
    pub(super) fn rearrange(&mut self) -> (r: Result<(), OramError>)
        requires
            old(self)@.consistent(),
        ensures
            old(self)@.reliable ==> r is Ok,
            match r {
                Ok(_) => {
                    &&& final(self)@.consistent()
                    &&& final(self)@.frame() == old(self)@.frame()
                    &&& sorted_prefix::<Slot, ByIndex>(
                        old(self)@.items(),
                        final(self)@.items(),
                        old(self)@.capacity as int,
                    )
                    &&& old(self).sorted_within(final(self), old(self)@.capacity as int)
                    &&& final(self).probes() == play::<Slot, ByIndex>(
                        old(self)@.items(),
                        network(old(self)@.capacity as int),
                    ).1
                    &&& final(self)@.items() == play::<Slot, ByIndex>(
                        old(self)@.items(),
                        network(old(self)@.capacity as int),
                    ).0
                },
                Err(e) => e != OramError::PayloadTooLarge,
            },
    {
        let end = self.capacity;
        self.mark = Ghost(self.db.log());
        self.probes = Ghost(Seq::empty());
        proof {
            assert(self@.slots =~= old(self)@.slots);
            assert(self.trace() =~= self.mark() + touches_of(self.probes()));
        }
        let r = odd_even_mergesort::<Slot, ByIndex, SqrtOram>(0..end, &ByIndex, self);
        proof {
            let seen = play::<Slot, ByIndex>(old(self)@.items(), network(end as int)).1;
            assert(Seq::<Probe>::empty() + seen =~= seen);
        }
        match r {
            Ok(_) => Ok(()),
            Err(e) => Err(e),
        }
    }

    /// The maintenance cycle at the end of an epoch: brings every block home,
    /// rotates the salt, shuffles, and starts the next epoch.
    #[verifier::rlimit(30)]
    pub(super) fn settle(&mut self) -> (r: Result<(), OramError>)
        requires
            old(self)@.consistent(),
            old(self)@.indices().to_multiset() == home_order(
                old(self)@.prefix() as int,
                old(self)@.capacity as int,
            ).to_multiset(),
        ensures
            old(self)@.reliable ==> r is Ok,
            match r {
                Ok(_) => {
                    &&& final(self)@.wf()
                    &&& final(self)@.count == 0
                    &&& final(self)@.same_make(old(self)@)
                    &&& forall|k: u32|
                        k < old(self)@.prefix() ==> #[trigger] final(self)@.value_of(k) == old(
                            self,
                        )@.value_of(k)
                    &&& old(self).trace().is_prefix_of(final(self).trace())
                    &&& old(self)@.reliable ==> final(self).storage().dom() == old(
                        self,
                    ).storage().dom()
                },
                Err(e) => e != OramError::PayloadTooLarge,
            },
    {
        let ghost v = self@;
        self.rearrange()?;
        let ghost a = self@;
        let ghost ta = self.trace();
        let ghost pa = self.probes();
        proof {
            lemma_rearranged(v, a);
        }
        self.rehash()?;
        let ghost b = self@;
        let ghost tb = self.trace();
        self.count = 0;
        let ghost b0 = self@;
        assert(b0.slots =~= b.slots);
        proof {
            assert(b0.consistent()) by {
                assert forall|i: int| 0 <= i < b0.capacity implies #[trigger] b0.slot_ok(i) by {
                    assert(b.slot_ok(i));
                }
            }
            assert(b0.indices() =~= home_order(b0.prefix() as int, b0.capacity as int)) by {
                assert forall|i: int| 0 <= i < b0.capacity implies b0.indices()[i] == home_order(
                    b0.prefix() as int,
                    b0.capacity as int,
                )[i] by {
                    assert(b.slot_ok(i));
                    assert(a.slot_ok(i));
                    assert(a.indices()[i] == a.cache[i].index);
                    assert(b.items()[i].header.index == a.items()[i].header.index);
                }
            }
            assert forall|i: int| 0 <= i < b0.prefix() implies (#[trigger] b0.cache[i]).tag == tag_of(
                i as u32,
                b0.salt,
            ) by {
                assert(b.slot_ok(i));
                assert(b.items()[i].header.tag == tag_of(i as u32, b.salt));
            }
            assert forall|k: u32| k < v.prefix() implies #[trigger] b0.value_of(k) == a.value_of(
                k,
            ) by {
                lemma_has_holder(a, k);
                let p = a.holder(k);
                assert(a.slot_ok(p));
                assert(b.slot_ok(p));
                assert(b.items()[p].data == a.items()[p].data);
                assert(b.items()[p].header.index == a.items()[p].header.index);
                assert(b0.indices()[p] == k);
                lemma_holder(b0, k, p);
                assert(b0.items()[p] == b.items()[p]);
            }
        }
        self.shuffle()?;
        proof {
            lemma_shuffled(b0, self@);
            lemma_prefix_plus(old(self).trace(), touches_of(pa));
            lemma_prefix_plus(ta, scan_trace(0, v.prefix() as int));
            lemma_prefix_plus(tb, touches_of(self.probes()));
            lemma_prefix_chain(old(self).trace(), ta, tb);
            lemma_prefix_chain(old(self).trace(), tb, self.trace());
        }
        Ok(())
    }
}

} // verus!
