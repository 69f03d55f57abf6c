//! The storage on disk: a LevelDB database of the `rusty_leveldb` crate.

use vstd::prelude::*;
use crate::error::OramError;

verus! {

#[verifier::external_type_specification]
#[verifier::external_body]
pub struct ExDb(rusty_leveldb::DB);

#[verifier::external_type_specification]
#[verifier::external_body]
pub struct ExStatus(rusty_leveldb::Status);

/// The keys and values that a LevelDB database holds.
pub uninterp spec fn ldb_contents(db: rusty_leveldb::DB) -> Map<Seq<u8>, Seq<u8>>;

/// The directory that a LevelDB database was opened in.
pub uninterp spec fn ldb_home(db: rusty_leveldb::DB) -> Seq<char>;

/// No write of the database has failed since it was opened: it holds no
/// entry that it has not counted.
pub uninterp spec fn ldb_intact(db: rusty_leveldb::DB) -> bool;

/// Opens the database in the directory `name` with `rusty_leveldb::DB::open`
/// and the default options, which create it where it is missing.
///
/// Claimed of rusty_leveldb: a database that was opened is the one of the
/// directory that was named, and no write of it has failed yet. Nothing is
/// claimed of what it holds, nor of whether it opens.
#[verifier::external_body]
fn ldb_open(name: &str) -> (r: Result<rusty_leveldb::DB, rusty_leveldb::Status>)
    ensures
        match r {
            Ok(db) => ldb_home(db) == name@ && ldb_intact(db),
            Err(_) => true,
        },
{
    rusty_leveldb::DB::open(name, rusty_leveldb::Options::default())
}

/// Writes one entry with `rusty_leveldb::DB::put`.
///
/// Claimed of rusty_leveldb, of a database no write of which has failed:
/// where `put` reports success, the database holds `value` under `key`, and
/// still no write of it has failed. Nothing is claimed of what it holds
/// under other keys: a compaction that fails on the way loses entries
/// without a word. A `put` that fails may leave its entry behind uncounted:
/// a later write may then panic or bring the entry to light, so a database
/// is not written again after a write of it has failed. Either way it stays
/// the database of its directory.
#[verifier::external_body]
fn ldb_put(db: &mut rusty_leveldb::DB, key: &[u8], value: &[u8]) -> (r: Result<
    (),
    rusty_leveldb::Status,
>)
    requires
        ldb_intact(*old(db)),
    ensures
        r.is_ok() ==> ldb_intact(*final(db)) && ldb_contents(*final(db)).contains_key(key@)
            && ldb_contents(*final(db))[key@] == value@,
        ldb_home(*final(db)) == ldb_home(*old(db)),
{
    db.put(key, value)
}

/// Reads one entry with `rusty_leveldb::DB::get`.
///
/// Claimed of rusty_leveldb, of a database no write of which has failed: a
/// value that `get` returns was held under `key` before the call, and the
/// database stays one no write of which has failed, in its directory. `get`
/// returns nothing both where the key is absent and where reading failed,
/// so of that outcome nothing is claimed; and a read may set off a
/// compaction, so nothing is claimed of what the database holds afterwards.
#[verifier::external_body]
fn ldb_get(db: &mut rusty_leveldb::DB, key: &[u8]) -> (r: Option<Vec<u8>>)
    requires
        ldb_intact(*old(db)),
    ensures
        ldb_intact(*final(db)),
        ldb_home(*final(db)) == ldb_home(*old(db)),
        match r {
            Some(v) => ldb_contents(*old(db)).contains_key(key@) && ldb_contents(*old(db))[key@]
                == v@,
            None => true,
        },
{
    db.get(key).map(|v| v.to_vec())
}

/// Whether something exists at the path `name`, by `std::path::Path::exists`.
#[verifier::external_body]
fn path_exists(name: &str) -> (r: bool) {
    std::path::Path::new(name).exists()
}

/// A LevelDB database.
pub struct LevelDb(pub rusty_leveldb::DB);

impl View for LevelDb {
    type V = Map<Seq<u8>, Seq<u8>>;

    open spec fn view(&self) -> Map<Seq<u8>, Seq<u8>> {
        ldb_contents(self.0)
    }
}

impl LevelDb {
    /// The directory of the database.
    pub open spec fn home(&self) -> Seq<char> {
        ldb_home(self.0)
    }

    /// No write of the database has failed since it was opened. A database
    /// is written and read only as long as this holds.
    pub open spec fn intact(&self) -> bool {
        ldb_intact(self.0)
    }

    /// Opens the database `name`, creating it where it is missing.
    ///
    /// Returns the database of the directory `name` and whether something
    /// stood at that path before; fails with `StorageFailure` where LevelDB
    /// cannot open it. LevelDB and the disk decide which of the two it is:
    /// [`LevelDb::opened`] tells what is returned for what they answer.
    pub fn open(name: &'static str) -> (r: Result<(Self, bool), OramError>)
        ensures
            match r {
                Ok((db, _)) => db.home() == name@ && db.intact(),
                Err(e) => e == OramError::StorageFailure,
            },
    {
        let existed = path_exists(name);
        Self::opened(ldb_open(name), existed)
    }

    /// What `open` returns for the answer `answer` of LevelDB, where
    /// `existed` tells whether the directory was there: the database with
    /// `existed`, or `StorageFailure` for every failure of LevelDB.
    pub fn opened(
        answer: Result<rusty_leveldb::DB, rusty_leveldb::Status>,
        existed: bool,
    ) -> (r: Result<(Self, bool), OramError>)
        ensures
            match answer {
                Ok(db) => r == Ok::<(Self, bool), OramError>((LevelDb(db), existed)),
                Err(_) => r == Err::<(Self, bool), OramError>(OramError::StorageFailure),
            },
    {
        match answer {
            Ok(db) => Ok((LevelDb(db), existed)),
            Err(_) => Err(OramError::StorageFailure),
        }
    }

    /// Stores `value` under `key`; tells whether LevelDB took it.
    ///
    /// Where it did, the database holds `value` under `key`; of other keys
    /// nothing is said. LevelDB decides whether it does: [`LevelDb::taken`]
    /// tells what is returned for what it answers.
    ///
    /// After a write that LevelDB did not take, the database must not be
    /// written or read again.
    pub fn put(&mut self, key: &[u8], value: &[u8]) -> (ok: bool)
        requires
            old(self).intact(),
        ensures
            ok ==> final(self).intact() && final(self)@.contains_key(key@) && final(self)@[key@]
                == value@,
            final(self).home() == old(self).home(),
    {
        let answer = ldb_put(&mut self.0, key, value);
        Self::taken(&answer)
    }

    /// What `put` returns for the answer `answer` of LevelDB: whether the
    /// write succeeded.
    pub fn taken(answer: &Result<(), rusty_leveldb::Status>) -> (ok: bool)
        ensures
            ok == (answer is Ok),
    {
        match answer {
            Ok(_) => true,
            Err(_) => false,
        }
    }

    /// The value under `key`, where LevelDB hands one out.
    ///
    /// A value that is handed out is the one that the database held under
    /// `key`. Where none is handed out, the key is absent or LevelDB could
    /// not read it; LevelDB does not tell which. Nothing is said of what the
    /// database holds afterwards.
    pub fn get(&mut self, key: &[u8]) -> (r: Option<Vec<u8>>)
        requires
            old(self).intact(),
        ensures
            final(self).intact(),
            final(self).home() == old(self).home(),
            r matches Some(v) ==> old(self)@.contains_key(key@) && old(self)@[key@] == v@,
    {
        ldb_get(&mut self.0, key)
    }
}

} // verus!
