use blake2::digest::Digest;
use oram::db::leveldb::LevelDb;
use oram::db::memory::Memory;
use oram::db::sealed::{data_filename, DataFile};
use oram::db::{Database, Options};
use oram::OramError;

fn fresh_directory(tag: &str) -> &'static str {
    let unique: u64 = rand::random();
    let name = format!("/tmp/oram-test-{}-{:016x}", tag, unique);
    Box::leak(name.into_boxed_str())
}

#[test]
fn memory_returns_what_was_put() {
    let mut m = Memory::new();
    assert_eq!(m.get(b"absent"), None);
    assert!(m.put(b"k", b"v1"));
    assert_eq!(m.get(b"k"), Some(b"v1".to_vec()));
    assert!(m.put(b"k", b"v2"));
    assert_eq!(m.get(b"k"), Some(b"v2".to_vec()));
    assert!(m.put(b"", b""));
    assert_eq!(m.get(b""), Some(vec![]));
    assert_eq!(m.get(b"k\0"), None);
}

#[test]
fn memory_keeps_many_keys_apart() {
    let mut m = Memory::new();
    for i in 0..2000u32 {
        assert!(m.put(&i.to_be_bytes(), &i.to_le_bytes()));
    }
    // keys of other lengths with the same leading bytes
    assert!(m.put(&[0, 0, 0], b"three"));
    assert!(m.put(&[0, 0, 0, 0, 0], b"five"));
    for i in 0..2000u32 {
        assert_eq!(m.get(&i.to_be_bytes()), Some(i.to_le_bytes().to_vec()));
    }
    assert_eq!(m.get(&[0, 0, 0]), Some(b"three".to_vec()));
    assert_eq!(m.get(&[0, 0, 0, 0, 0]), Some(b"five".to_vec()));
    assert_eq!(m.get(&2000u32.to_be_bytes()), None);
}

#[test]
fn database_in_memory_opens_empty() {
    let mut db = Database::open("in-memory", Options::in_memory()).unwrap();
    assert!(!db.existed());
    assert!(db.is_reliable());
    assert_eq!(db.name(), "in-memory");
    assert_eq!(db.get(&[0, 0, 0, 1]), None);
    assert!(db.put(&[0, 0, 0, 1], &[7, 7]));
    assert_eq!(db.get(&[0, 0, 0, 1]), Some(vec![7, 7]));
    assert_eq!(db.get(&[0, 0, 0, 2]), None);
}

#[test]
fn leveldb_returns_what_was_put_and_keeps_it() {
    let name = fresh_directory("ldb");
    {
        let (mut db, existed) = LevelDb::open(name).unwrap();
        assert!(!existed);
        assert_eq!(db.get(b"k"), None);
        assert!(db.put(b"k", b"value"));
        assert!(db.put(b"other", b""));
        assert_eq!(db.get(b"k"), Some(b"value".to_vec()));
        assert!(db.put(b"k", b"second"));
        assert_eq!(db.get(b"k"), Some(b"second".to_vec()));
        assert_eq!(db.get(b"other"), Some(vec![]));
    }
    {
        let (mut db, existed) = LevelDb::open(name).unwrap();
        assert!(existed);
        assert_eq!(db.get(b"k"), Some(b"second".to_vec()));
        assert_eq!(db.get(b"absent"), None);
    }
}

#[test]
fn database_on_disk_reports_whether_it_existed() {
    let name = fresh_directory("db");
    {
        let mut db = Database::open(name, Options::leveldb()).unwrap();
        assert!(!db.existed());
        assert!(!db.is_reliable());
        assert_eq!(db.name(), name);
        assert!(db.put(&[1], &[2]));
    }
    let mut db = Database::open(name, Options::leveldb()).unwrap();
    assert!(db.existed());
    assert_eq!(db.get(&[1]), Some(vec![2]));
}

#[test]
fn database_that_cannot_be_opened_is_a_storage_failure() {
    // a path below something that is no directory
    let r = Database::open("/dev/null/oram", Options::leveldb());
    assert_eq!(r.err(), Some(OramError::StorageFailure));
}

#[test]
fn data_filename_is_the_hash_of_the_key_in_hex() {
    for key in [&b""[..], &b"k"[..], &[0u8, 0, 0, 7][..], &[0xFFu8; 200][..]] {
        let mut hasher = blake2::Blake2b::new();
        hasher.input(key);
        let hash = hasher.result();
        let mut expected = String::new();
        for b in hash.iter() {
            expected.push_str(&format!("{:02x}", b));
        }
        assert_eq!(data_filename(key), expected);
        assert_eq!(data_filename(key).len(), 128);
    }
    assert_eq!(
        &data_filename(b"")[..32],
        "786a02f742015903c6c6fd852552d272"
    );
    assert_ne!(data_filename(&[0, 0, 0, 1]), data_filename(&[0, 0, 0, 2]));
}

#[test]
fn data_file_is_what_bincode_writes_for_key_and_value() {
    let file = DataFile { key: vec![0, 0, 1, 2], value: vec![9; 40] };
    let bytes = file.to_bytes();
    assert_eq!(bytes, bincode::serialize(&(&file.key, &file.value)).unwrap());
    assert_eq!(bytes.len(), 16 + 4 + 40);
    assert_eq!(bytes[..8], [4, 0, 0, 0, 0, 0, 0, 0]);
    assert_eq!(DataFile::from_bytes(&bytes), Some(file));

    let empty = DataFile { key: vec![], value: vec![] };
    assert_eq!(empty.to_bytes(), vec![0u8; 16]);
    assert_eq!(DataFile::from_bytes(&[0u8; 16]), Some(empty));
}

#[test]
fn data_file_refuses_bytes_that_end_early() {
    let bytes = DataFile { key: vec![1, 2, 3], value: vec![4, 5] }.to_bytes();
    for cut in 0..bytes.len() {
        assert_eq!(DataFile::from_bytes(&bytes[..cut]), None);
    }
    let mut longer = bytes.clone();
    longer.push(0);
    assert_eq!(
        DataFile::from_bytes(&longer),
        Some(DataFile { key: vec![1, 2, 3], value: vec![4, 5] })
    );
}

#[test]
fn database_records_what_an_observer_sees() {
    let mut db = Database::open("in-memory", Options::in_memory()).unwrap();
    db.put(&[1], &[10]);
    assert!(db.stop_recording().is_empty());
    db.start_recording();
    db.get(&[1]);
    db.put(&[2], &[20]);
    db.get(&[3]);
    assert_eq!(
        db.stop_recording(),
        vec![(false, vec![1]), (true, vec![2]), (false, vec![3])]
    );
    db.get(&[1]);
    assert!(db.stop_recording().is_empty());
}

#[test]
fn leveldb_answers_are_taken_as_they_come() {
    let failure = rusty_leveldb::Status::new(rusty_leveldb::StatusCode::IOError, "disk");
    assert!(!LevelDb::taken(&Err(failure.clone())));
    assert!(LevelDb::taken(&Ok(())));
    assert_eq!(
        LevelDb::opened(Err(failure), true).err(),
        Some(OramError::StorageFailure)
    );

    let name = fresh_directory("answer");
    let answer = rusty_leveldb::DB::open(name, rusty_leveldb::Options::default());
    let (mut db, existed) = LevelDb::opened(answer, true).unwrap();
    assert!(existed);
    assert!(db.put(b"a", b"b"));
    assert_eq!(db.get(b"a"), Some(b"b".to_vec()));
}

#[test]
fn leveldb_opens_the_directory_that_is_named() {
    let first = fresh_directory("one");
    let second = fresh_directory("two");
    {
        let (mut db, _) = LevelDb::open(first).unwrap();
        assert!(db.put(b"k", b"first"));
    }
    {
        let (mut db, existed) = LevelDb::open(second).unwrap();
        assert!(!existed);
        assert_eq!(db.get(b"k"), None);
        assert!(db.put(b"k", b"second"));
    }
    let (mut db, existed) = LevelDb::open(first).unwrap();
    assert!(existed);
    assert_eq!(db.get(b"k"), Some(b"first".to_vec()));
}
