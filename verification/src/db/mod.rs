//! Storage back-ends: byte values under byte keys.

pub mod leveldb;
pub mod memory;
pub mod sealed;

use vstd::prelude::*;
use vstd::slice::slice_to_vec;
use crate::db::leveldb::LevelDb;
use crate::db::memory::Memory;
use crate::error::OramError;

verus! {

/// Where a database keeps what it holds, if not in memory.
pub enum Persistence {
    LevelDb,
}

/// How a database is opened.
pub struct Options {
    /// Decides what persistence will be used.
    ///
    /// - `None`: data is kept in memory, with no persistence
    /// - `Some(LevelDb)`: LevelDB, in a directory on disk
    pub persistence: Option<Persistence>,
}

impl Options {
    /// Keep the data in memory.
    pub fn in_memory() -> (r: Self)
        ensures
            r.persistence is None,
    {
        Options { persistence: None }
    }

    /// Keep the data in a LevelDB database.
    pub fn leveldb() -> (r: Self)
        ensures
            r.persistence == Some(Persistence::LevelDb),
    {
        Options { persistence: Some(Persistence::LevelDb) }
    }
}

/// One access of a database, as an observer of the storage sees it: whether
/// it was a write, and the key.
pub struct Touch {
    pub write: bool,
    pub key: Seq<u8>,
}

/// The storage behind a database.
pub enum Backend {
    Memory(Memory),
    LevelDb(LevelDb),
}

/// A store of byte values under byte keys.
pub struct Database {
    /// The name of the `Database`. It is also the name of its directory on
    /// disk, where it has one.
    name: &'static str,
    /// The backend of the `Database`.
    backend: Backend,
    /// If the database existed before it was opened.
    existed: bool,
    /// The accesses of the database since it was opened, in order.
    log: Ghost<Seq<Touch>>,
    /// The accesses since recording was switched on, while it is on: for
    /// each whether it was a write, and its key.
    recorder: Option<Vec<(bool, Vec<u8>)>>,
    /// The number of accesses before recording was switched on.
    recorded_from: Ghost<nat>,
}

/// Recorded accesses as the observer sees them.
pub open spec fn touches(r: Seq<(bool, Vec<u8>)>) -> Seq<Touch> {
    r.map_values(|t: (bool, Vec<u8>)| Touch { write: t.0, key: t.1@ })
}

impl Database {
    /// The keys and values that the database holds.
    pub closed spec fn contents(&self) -> Map<Seq<u8>, Seq<u8>> {
        match self.backend {
            Backend::Memory(m) => m@,
            Backend::LevelDb(d) => d@,
        }
    }

    /// No `put` fails, and every `get` tells what the database holds. True
    /// of a database in memory.
    pub closed spec fn reliable(&self) -> bool {
        self.backend is Memory
    }

    /// What the database needs to hold of itself.
    pub closed spec fn wf(&self) -> bool {
        &&& match self.backend {
            Backend::Memory(m) => m.wf(),
            Backend::LevelDb(d) => d.intact() && d.home() == self.name@,
        }
        &&& self.recorder matches Some(r) ==> self.recorded_from@ <= self.log@.len() && touches(r@)
            == self.log@.subrange(self.recorded_from@ as int, self.log@.len() as int)
    }

    /// The number of accesses before recording was switched on, while it is
    /// on.
    pub closed spec fn recording_since(&self) -> Option<nat> {
        match self.recorder {
            Some(_) => Some(self.recorded_from@),
            None => None,
        }
    }

    /// The directory of the database, where it is one on disk.
    pub closed spec fn directory(&self) -> Option<Seq<char>> {
        match self.backend {
            Backend::Memory(_) => None,
            Backend::LevelDb(d) => Some(d.home()),
        }
    }

    /// The database held data before it was opened.
    pub closed spec fn held_data(&self) -> bool {
        self.existed
    }

    /// The accesses of the database since it was opened: one entry for
    /// every `put` and every `get`, in order.
    pub closed spec fn log(&self) -> Seq<Touch> {
        self.log@
    }

    /// Opens the database `name` as `opt` says.
    ///
    /// A database in memory opens empty and never fails to. One on disk
    /// fails with `StorageFailure` where LevelDB cannot open it.
    pub fn open(name: &'static str, opt: Options) -> (r: Result<Database, OramError>)
        ensures
            opt.persistence is None ==> r is Ok,
            match r {
                Ok(db) => {
                    &&& db.wf()
                    &&& db.opened_as() == name
                    &&& db.directory() == (if opt.persistence is None {
                        None
                    } else {
                        Some(name@)
                    })
                    &&& db.recording_since() is None
                    &&& db.log() == Seq::<Touch>::empty()
                    &&& db.reliable() <==> opt.persistence is None
                    &&& db.reliable() ==> !db.held_data() && db.contents() == Map::<
                        Seq<u8>,
                        Seq<u8>,
                    >::empty()
                },
                Err(e) => e == OramError::StorageFailure,
            },
    {
        match opt.persistence {
            None => Ok(Self::new_memory(name)),
            Some(Persistence::LevelDb) => Self::new_leveldb(name),
        }
    }

    fn new_memory(name: &'static str) -> (r: Self)
        ensures
            r.wf(),
            r.reliable(),
            !r.held_data(),
            r.opened_as() == name,
            r.directory() is None,
            r.recording_since() is None,
            r.log() == Seq::<Touch>::empty(),
            r.contents() == Map::<Seq<u8>, Seq<u8>>::empty(),
    {
        Database {
            name,
            backend: Backend::Memory(Memory::new()),
            existed: false,
            log: Ghost(Seq::empty()),
            recorder: None,
            recorded_from: Ghost(0),
        }
    }

    fn new_leveldb(name: &'static str) -> (r: Result<Self, OramError>)
        ensures
            match r {
                Ok(db) => db.wf() && !db.reliable() && db.opened_as() == name && db.directory()
                    == Some(name@) && db.recording_since() is None && db.log() == Seq::<
                    Touch,
                >::empty(),
                Err(e) => e == OramError::StorageFailure,
            },
    {
        match LevelDb::open(name) {
            Ok((db, existed)) => Ok(Self::on_leveldb(name, db, existed)),
            Err(_) => Err(OramError::StorageFailure),
        }
    }

    /// The database `name` over the LevelDB database `db`, of which
    /// `existed` tells whether it was there before it was opened: it holds
    /// what `db` holds, and nothing has been seen of it yet.
    fn on_leveldb(name: &'static str, db: LevelDb, existed: bool) -> (r: Self)
        requires
            db.intact(),
            db.home() == name@,
        ensures
            r.directory() == Some(name@),
            r.wf(),
            !r.reliable(),
            r.held_data() == existed,
            r.contents() == db@,
            r.opened_as() == name,
            r.recording_since() is None,
            r.log() == Seq::<Touch>::empty(),
    {
        Database {
            name,
            backend: Backend::LevelDb(db),
            existed,
            log: Ghost(Seq::empty()),
            recorder: None,
            recorded_from: Ghost(0),
        }
    }

    /// Whether no `put` of the database fails and every `get` tells what it
    /// holds: whether it is a database in memory.
    pub fn is_reliable(&self) -> (r: bool)
        ensures
            r == self.reliable(),
    {
        match &self.backend {
            Backend::Memory(_) => true,
            Backend::LevelDb(_) => false,
        }
    }

    /// If the database existed before it was opened.
    pub fn existed(&self) -> (r: bool)
        ensures
            r == self.held_data(),
    {
        self.existed
    }

    /// The name that the database was opened under.
    pub closed spec fn opened_as(&self) -> &'static str {
        self.name
    }

    /// The name that the database was opened under.
    pub fn name(&self) -> (r: &'static str)
        ensures
            r == self.opened_as(),
    {
        self.name
    }

    /// Notes one access of the database.
    fn record(&mut self, write: bool, key: &[u8])
        requires
            old(self).wf(),
        ensures
            final(self).wf(),
            final(self).reliable() == old(self).reliable(),
            final(self).held_data() == old(self).held_data(),
            final(self).contents() == old(self).contents(),
            final(self).recording_since() == old(self).recording_since(),
            final(self).log() == old(self).log().push(Touch { write, key: key@ }),
            final(self).backend == old(self).backend,
            final(self).name == old(self).name,
    {
        self.log = Ghost(self.log@.push(Touch { write, key: key@ }));
        match self.recorder.take() {
            Some(mut r) => {
                let ghost before = r@;
                r.push((write, slice_to_vec(key)));
                proof {
                    assert(touches(r@) =~= touches(before).push(Touch { write, key: key@ }));
                    assert(touches(r@) =~= self.log@.subrange(
                        self.recorded_from@ as int,
                        self.log@.len() as int,
                    ));
                }
                self.recorder = Some(r);
            },
            None => {},
        }
    }

    /// Switches recording on: from now on the database keeps what an
    /// observer of the storage sees.
    pub fn start_recording(&mut self)
        requires
            old(self).wf(),
        ensures
            final(self).wf(),
            final(self).reliable() == old(self).reliable(),
            final(self).held_data() == old(self).held_data(),
            final(self).contents() == old(self).contents(),
            final(self).directory() == old(self).directory(),
            final(self).log() == old(self).log(),
            final(self).recording_since() == Some(old(self).log().len()),
    {
        self.recorded_from = Ghost(self.log@.len());
        self.recorder = Some(Vec::new());
        proof {
            assert(touches(Seq::<(bool, Vec<u8>)>::empty()) =~= self.log@.subrange(
                self.log@.len() as int,
                self.log@.len() as int,
            ));
        }
    }

    /// Switches recording off and hands out what was recorded: the accesses
    /// since recording was switched on, for each whether it was a write, and
    /// its key. Hands out nothing where recording was off.
    pub fn stop_recording(&mut self) -> (r: Vec<(bool, Vec<u8>)>)
        requires
            old(self).wf(),
        ensures
            final(self).wf(),
            final(self).reliable() == old(self).reliable(),
            final(self).held_data() == old(self).held_data(),
            final(self).contents() == old(self).contents(),
            final(self).directory() == old(self).directory(),
            final(self).log() == old(self).log(),
            final(self).recording_since() is None,
            touches(r@) == (match old(self).recording_since() {
                Some(from) => old(self).log().subrange(from as int, old(self).log().len() as int),
                None => Seq::<Touch>::empty(),
            }),
    {
        match self.recorder.take() {
            Some(r) => r,
            None => {
                let r: Vec<(bool, Vec<u8>)> = Vec::new();
                assert(touches(r@) =~= Seq::<Touch>::empty());
                r
            },
        }
    }

    /// Inserts `value` under `key`, in place of the value that was there;
    /// tells whether the storage took it.
    ///
    /// Reliable storage takes every write and is otherwise as before. Of
    /// storage on disk only the entry written is known afterwards. A database
    /// whose storage did not take a write is no longer in order: it must not
    /// be used again.
    pub fn put(&mut self, key: &[u8], value: &[u8]) -> (ok: bool)
        requires
            old(self).wf(),
        ensures
            ok ==> final(self).wf(),
            final(self).reliable() == old(self).reliable(),
            final(self).held_data() == old(self).held_data(),
            final(self).directory() == old(self).directory(),
            final(self).log() == old(self).log().push(Touch { write: true, key: key@ }),
            final(self).recording_since() == old(self).recording_since(),
            old(self).reliable() ==> ok && final(self).contents() == old(self).contents().insert(
                key@,
                value@,
            ),
            ok ==> final(self).contents().contains_key(key@) && final(self).contents()[key@]
                == value@,
    {
        self.record(true, key);
        match &mut self.backend {
            Backend::Memory(m) => m.put(key, value),
            Backend::LevelDb(d) => d.put(key, value),
        }
    }

    /// The value under `key`.
    ///
    /// A value that is returned is the one that the database held. Where
    /// none is returned, a reliable database holds none. Reliable storage
    /// holds afterwards what it held; of storage on disk nothing is said.
    pub fn get(&mut self, key: &[u8]) -> (r: Option<Vec<u8>>)
        requires
            old(self).wf(),
        ensures
            final(self).wf(),
            final(self).reliable() == old(self).reliable(),
            final(self).held_data() == old(self).held_data(),
            final(self).directory() == old(self).directory(),
            final(self).log() == old(self).log().push(Touch { write: false, key: key@ }),
            final(self).recording_since() == old(self).recording_since(),
            old(self).reliable() ==> final(self).contents() == old(self).contents(),
            match r {
                Some(v) => old(self).contents().contains_key(key@) && old(self).contents()[key@]
                    == v@,
                None => old(self).reliable() ==> !old(self).contents().contains_key(key@),
            },
    {
        self.record(false, key);
        match &mut self.backend {
            Backend::Memory(m) => m.get(key),
            Backend::LevelDb(d) => d.get(key),
        }
    }
}

} // verus!
