//! Setting the engine up on a new storage, opening it on one that holds its
//! blocks, and putting it to rest.

use vstd::prelude::*;
use crate::arrangement::home_order;
use crate::block::{fits, BlockCache, DUMMY_INDEX};
use crate::db::{Database, Options};
use crate::engine::model::{admissible, resting, root, slot_keys, stored_block};
use crate::engine::proofs::{
    lemma_fresh_shuffled, lemma_holder, lemma_in_order, lemma_not_resting, lemma_rearranged,
    lemma_rehashed, lemma_resting_home, lemma_root, lemma_root_small, lemma_shuffled,
};
use crate::engine::SqrtOram;
use crate::error::OramError;

verus! {

/// The largest number whose square is not above `n`.
fn isqrt(n: usize) -> (s: usize)
    requires
        n <= u32::MAX,
    ensures
        s * s <= n < (s + 1) * (s + 1),
        s <= n,
{
    let mut s: u64 = 0;
    let target: u64 = n as u64;
    while (s + 1) * (s + 1) <= target
        invariant
            target == n,
            target <= u32::MAX,
            s * s <= target,
            s <= target,
            (s + 1) * (s + 1) <= 0x1_0000_0000,
        decreases target - s,
    {
        proof {
            assert((s + 1) * (s + 1) >= s + 1) by (nonlinear_arith)
                requires
                    s >= 0,
            ;
            assert(s + 1 <= 0xFFFF) by (nonlinear_arith)
                requires
                    (s + 1) * (s + 1) <= 0xFFFF_FFFF,
                    s >= 0,
            ;
            assert((s + 2) * (s + 2) <= 0x1_0000_0000) by (nonlinear_arith)
                requires
                    0 <= s + 1 <= 0xFFFF,
            ;
        }
        s = s + 1;
    }
    s as usize
}

/// What opening an engine of `n` blocks of `block_size` bytes on the
/// database `db`, which holds its blocks, comes to. The engine that is
/// handed out is in order, at the start of an epoch, on the storage that
/// `db` was. On reliable storage it is handed out exactly where the storage
/// holds the blocks of such an engine at rest, and holds for every key the
/// payload that the storage held for it. Of storage on disk the headers that
/// it hands out decide, and nothing is said of the payloads.
pub open spec fn reopened(
    db: Database,
    n: nat,
    block_size: nat,
    r: Result<SqrtOram, OramError>,
) -> bool {
    &&& db.reliable() && resting(db.contents(), n, block_size) ==> r is Ok
    &&& match r {
        Ok(e) => {
            &&& e@.wf()
            &&& e@.n == n
            &&& e@.shelter_size == root(n)
            &&& e@.block_size == block_size
            &&& e@.count == 0
            &&& e@.reliable == db.reliable()
            &&& e@.directory == db.directory()
            &&& db.reliable() ==> resting(db.contents(), n, block_size)
            &&& db.reliable() ==> forall|k: u32|
                k < e@.prefix() ==> #[trigger] e@.value_of(k) == stored_block(
                    db.contents(),
                    k as int,
                ).unwrap().data.buf
        },
        Err(e) => match e {
            OramError::IntegrityMismatch => db.reliable() ==> !resting(
                db.contents(),
                n,
                block_size,
            ),
            OramError::NotFound => db.reliable() ==> !resting(db.contents(), n, block_size),
            OramError::StorageFailure => !db.reliable(),
            OramError::PayloadTooLarge => false,
        },
    }
}

/// What setting an engine of `n` blocks of `block_size` bytes up on the new
/// database `db` comes to: it succeeds on reliable storage, and the engine
/// that is handed out is in order, at the start of an epoch, on the storage
/// that `db` was, and as it was set up: every block has a payload of the
/// block size, and reliable storage holds a key for every slot beside what
/// it held.
pub open spec fn built(db: Database, n: nat, block_size: nat, r: Result<SqrtOram, OramError>) -> bool {
    &&& db.reliable() ==> r is Ok
    &&& match r {
        Ok(e) => {
            &&& e@.wf()
            &&& e@.fresh()
            &&& e@.n == n
            &&& e@.shelter_size == root(n)
            &&& e@.block_size == block_size
            &&& e@.count == 0
            &&& e@.reliable == db.reliable()
            &&& e@.directory == db.directory()
            &&& db.reliable() ==> e.storage().dom() == db.contents().dom().union(
                slot_keys(e@.capacity),
            )
        },
        Err(e) => e != OramError::PayloadTooLarge && !db.reliable(),
    }
}

impl SqrtOram {
    /// Whether an engine of `n` blocks of `block_size` bytes fits the
    /// machine.
    pub fn accepts_sizes(n: usize, block_size: usize) -> (r: bool)
        ensures
            r == admissible(n as nat, block_size as nat),
    {
        if n > u32::MAX as usize {
            return false;
        }
        let s = isqrt(n);
        proof {
            lemma_root(n as nat, s as nat);
        }
        let capacity: u64 = n as u64 + 2 * (s as u64);
        capacity <= u32::MAX as u64 && capacity <= (usize::MAX / 2) as u64 && block_size
            <= usize::MAX - 24
    }
}

impl SqrtOram {
    /// An engine over `db` whose cache is still blank.
    fn assemble(db: Database, n: usize, block_size: usize) -> (r: Self)
        requires
            admissible(n as nat, block_size as nat),
            db.wf(),
        ensures
            r@.shaped(),
            r@.n == n,
            r@.shelter_size == root(n as nat),
            r@.block_size == block_size,
            r@.count == 0,
            r@.reliable == db.reliable(),
            r@.directory == db.directory(),
            r.storage() == db.contents(),
            r@.reliable ==> forall|i: int|
                0 <= i < r@.capacity ==> #[trigger] r@.slots[i] == stored_block(db.contents(), i),
    {
        proof {
            lemma_root_small(n as nat);
        }
        let shelter_size = isqrt(n);
        proof {
            lemma_root(n as nat, shelter_size as nat);
        }
        let capacity = n + 2 * shelter_size;
        let salt = Self::generate_salt();
        let cache = vec![BlockCache { tag: 0, index: 0 }; capacity];
        SqrtOram {
            n,
            shelter_size,
            capacity,
            salt,
            db,
            count: 0,
            cache,
            block_size,
            mark: Ghost(Seq::empty()),
            probes: Ghost(Seq::empty()),
        }
    }

    /// Whether every block stands at home: slot `i` holds the block of key
    /// `i` in the real and the dummy range, and a block without a key in the
    /// shelter.
    fn at_home(&self) -> (r: bool)
        requires
            self@.shaped(),
        ensures
            r == (self@.indices() == home_order(self@.prefix() as int, self@.capacity as int)),
    {
        let prefix = self.n + self.shelter_size;
        let mut i: usize = 0;
        while i < self.capacity
            invariant
                self@.shaped(),
                prefix == self@.prefix(),
                i <= self@.capacity,
                forall|j: int|
                    0 <= j < i ==> self@.indices()[j] == home_order(
                        self@.prefix() as int,
                        self@.capacity as int,
                    )[j],
            decreases self@.capacity - i,
        {
            let home: u32 = if i < prefix {
                i as u32
            } else {
                DUMMY_INDEX
            };
            if self.cache[i].index != home {
                proof {
                    assert(self@.indices()[i as int] != home_order(
                        self@.prefix() as int,
                        self@.capacity as int,
                    )[i as int]);
                }
                return false;
            }
            i += 1;
        }
        proof {
            assert(self@.indices() =~= home_order(self@.prefix() as int, self@.capacity as int));
        }
        true
    }

    /// Sets the engine up on a database that is new: writes fresh blocks to
    /// all slots and shuffles.
    fn build(db: Database, n: usize, block_size: usize) -> (r: Result<Self, OramError>)
        requires
            admissible(n as nat, block_size as nat),
            db.wf(),
        ensures
            built(db, n as nat, block_size as nat, r),
    {
        let mut oram = Self::assemble(db, n, block_size);
        oram.init_blocks()?;
        let ghost b = oram@;
        proof {
            assert(b.indices() =~= home_order(b.prefix() as int, b.capacity as int));
        }
        oram.shuffle()?;
        proof {
            lemma_shuffled(b, oram@);
            lemma_fresh_shuffled(b, oram@);
        }
        Ok(oram)
    }

    /// The database of an engine: LevelDB in the directory `name`, or memory
    /// where there is no name.
    fn create_db(name: Option<&'static str>) -> (r: Result<Database, OramError>)
        ensures
            name is None ==> r is Ok,
            match r {
                Ok(db) => {
                    &&& db.wf()
                    &&& db.reliable() <==> name is None
                    &&& db.directory() == (match name {
                        Some(directory) => Some(directory@),
                        None => None,
                    })
                    &&& db.reliable() ==> !db.held_data() && db.contents() == Map::<
                        Seq<u8>,
                        Seq<u8>,
                    >::empty()
                },
                Err(e) => e == OramError::StorageFailure,
            },
    {
        match name {
            Some(db_name) => Database::open(db_name, Options::leveldb()),
            None => Database::open("in-memory", Options::in_memory()),
        }
    }

    /// An internal method for creating SqrtOram: on a database that existed
    /// before, the engine is reopened; on a new one it is set up.
    fn create(n: usize, block_size: usize, name: Option<&'static str>) -> (r: Result<
        Self,
        OramError,
    >)
        requires
            admissible(n as nat, block_size as nat),
        ensures
            name is None ==> r is Ok,
            match r {
                Ok(e) => {
                    &&& e@.wf()
                    &&& e@.n == n
                    &&& e@.shelter_size == root(n as nat)
                    &&& e@.block_size == block_size
                    &&& e@.count == 0
                    &&& e@.reliable <==> name is None
                    &&& e@.directory == (match name {
                        Some(directory) => Some(directory@),
                        None => None,
                    })
                    &&& name is None ==> e@.fresh() && e.storage().dom() == slot_keys(e@.capacity)
                },
                Err(e) => e != OramError::PayloadTooLarge,
            },
    {
        let db = Self::create_db(name)?;
        let r = Self::with_database(db, n, block_size);
        proof {
            if name is None && r is Ok {
                assert(r.unwrap().storage().dom() =~= slot_keys(r.unwrap()@.capacity));
            }
        }
        r
    }

    /// The engine of `n` blocks of `block_size` bytes on the database `db`:
    /// opened on it where the database existed before, as [`reopened`] says,
    /// and set up on it where it is new, as [`built`] says.
    pub fn with_database(db: Database, n: usize, block_size: usize) -> (r: Result<
        Self,
        OramError,
    >)
        requires
            admissible(n as nat, block_size as nat),
            db.wf(),
        ensures
            if db.held_data() {
                reopened(db, n as nat, block_size as nat, r)
            } else {
                built(db, n as nat, block_size as nat, r)
            },
    {
        if db.existed() {
            Self::reopen(db, n, block_size)
        } else {
            Self::build(db, n, block_size)
        }
    }
}

impl SqrtOram {
    /// Create a new SqrtOram in memory. If persistence is needed, see `open`.
    ///
    /// - `n`: number of real blocks
    /// - `block_size`: size of each blocks in bytes
    pub fn new(n: usize, block_size: usize) -> (r: Self)
        requires
            admissible(n as nat, block_size as nat),
        ensures
            r@.wf(),
            r@.n == n,
            r@.shelter_size == root(n as nat),
            r@.block_size == block_size,
            r@.count == 0,
            r@.reliable,
            r@.directory is None,
            r@.fresh(),
            r.storage().dom() == slot_keys(r@.capacity),
    {
        match Self::create(n, block_size, None) {
            Ok(e) => e,
            Err(_) => vstd::pervasive::unreached(),
        }
    }

    /// Open an existing or create a new SqrtORAM on disk.
    ///
    /// - `name`: name of the storage; name of the data directory on file system
    /// - `n`: number of real blocks
    /// - `block_size`: size of each blocks in bytes
    ///
    /// Fails with `StorageFailure` where the storage cannot be opened or
    /// written, and with `IntegrityMismatch` or `NotFound` where the storage
    /// existed and does not hold the blocks of an engine of these sizes at
    /// rest.
    pub fn open(name: &'static str, n: usize, block_size: usize) -> (r: Result<Self, OramError>)
        requires
            admissible(n as nat, block_size as nat),
        ensures
            match r {
                Ok(e) => {
                    &&& e@.wf()
                    &&& e@.n == n
                    &&& e@.shelter_size == root(n as nat)
                    &&& e@.block_size == block_size
                    &&& e@.count == 0
                    &&& !e@.reliable
                    &&& e@.directory == Some(name@)
                },
                Err(e) => e != OramError::PayloadTooLarge,
            },
    {
        Self::create(n, block_size, Some(name))
    }

    /// Opens the engine on a database that holds its blocks at rest: reads
    /// the headers, rotates the salt and shuffles.
    ///
    /// Fails with `IntegrityMismatch` where storage does not hold the blocks
    /// of an engine of these sizes at rest, and with `NotFound` where it
    /// hands out no block for a slot.
    #[verifier::rlimit(30)]
    pub fn reopen(db: Database, n: usize, block_size: usize) -> (r: Result<Self, OramError>)
        requires
            admissible(n as nat, block_size as nat),
            db.wf(),
        ensures
            reopened(db, n as nat, block_size as nat, r),
    {
        let mut oram = Self::assemble(db, n, block_size);
        let ghost blank = oram@;
        let ghost store = db.contents();
        match oram.warm_up_cache() {
            Ok(_) => {},
            Err(e) => {
                proof {
                    if blank.reliable {
                        lemma_not_resting(blank, store);
                    }
                }
                return Err(e);
            },
        }
        let ghost warm = oram@;
        proof {
            if warm.reliable {
                lemma_resting_home(warm, store);
            }
        }
        if !oram.at_home() {
            return Err(OramError::IntegrityMismatch);
        }
        oram.rehash()?;
        let ghost b = oram@;
        proof {
            lemma_rehashed(warm, b);
        }
        oram.shuffle()?;
        proof {
            lemma_shuffled(b, oram@);
            if warm.reliable {
                assert forall|k: u32| k < b.prefix() implies #[trigger] oram@.value_of(k)
                    == stored_block(store, k as int).unwrap().data.buf by {
                    assert(oram@.value_of(k) == b.value_of(k));
                    assert(warm.slots[k as int] == stored_block(store, k as int));
                }
            }
        }
        Ok(oram)
    }

    /// Puts the engine to rest: brings every block home and hands the
    /// database back, from which the engine can be reopened.
    pub fn close(self) -> (r: Result<Database, OramError>)
        requires
            self@.wf(),
        ensures
            self@.reliable ==> r is Ok,
            match r {
                Ok(db) => {
                    &&& db.wf()
                    &&& db.reliable() == self@.reliable
                    &&& db.directory() == self@.directory
                    &&& db.reliable() ==> resting(db.contents(), self@.n, self@.block_size)
                    &&& db.reliable() ==> forall|k: u32|
                        k < self@.prefix() ==> (#[trigger] stored_block(
                            db.contents(),
                            k as int,
                        )).unwrap().data.buf == self@.value_of(k)
                },
                Err(e) => e != OramError::PayloadTooLarge && !self@.reliable,
            },
    {
        let mut oram = self;
        let ghost v = oram@;
        proof {
            lemma_in_order(v);
        }
        oram.rearrange()?;
        let ghost a = oram@;
        proof {
            lemma_rearranged(v, a);
            lemma_root(v.n, v.shelter_size);
            if v.reliable {
            assert forall|i: int| 0 <= i < v.n + 2 * root(v.n) implies (#[trigger] stored_block(
                oram.db.contents(),
                i,
            ) matches Some(b) && fits(b, v.block_size) && b.header.index == (if i < v.n + root(
                v.n,
            ) {
                i as u32
            } else {
                DUMMY_INDEX
            })) by {
                assert(a.slot_ok(i));
                assert(a.indices()[i] == a.cache[i].index);
                assert(a.slots[i] == stored_block(oram.db.contents(), i));
            }
            assert forall|k: u32| k < v.prefix() implies (#[trigger] stored_block(
                oram.db.contents(),
                k as int,
            )).unwrap().data.buf == v.value_of(k) by {
                assert(a.slot_ok(k as int));
                assert(a.indices()[k as int] == k);
                lemma_holder(a, k, k as int);
                assert(a.slots[k as int] == stored_block(oram.db.contents(), k as int));
                assert(a.value_of(k) == v.value_of(k));
            }
            }
        }
        Ok(oram.db)
    }
}

} // verus!
