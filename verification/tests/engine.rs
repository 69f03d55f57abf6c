use oram::block::DUMMY_INDEX;
use oram::db::{Database, Options};
use oram::engine::blocks::Slot;
use oram::sort::Access;
use oram::{OramError, SqrtOram};

const TEST_BLOCK_SIZE: usize = 32;

fn fresh_directory(tag: &str) -> &'static str {
    let unique: u64 = rand::random();
    let name = format!("/tmp/oram-test-{}-{:016x}", tag, unique);
    Box::leak(name.into_boxed_str())
}

fn payload(i: usize) -> Vec<u8> {
    let mut data = [0u8; TEST_BLOCK_SIZE];
    data[0..8].copy_from_slice(&i.to_le_bytes());
    data.to_vec()
}

// What must hold of the headers between two operations.
fn check_arrangement(oram: &mut SqrtOram) {
    let n = oram.len();
    let prefix = n + oram.shelter_size();
    let mut seen = vec![0usize; prefix];
    let mut last_tag = 0u32;
    for i in 0..oram.capacity() {
        let block = oram.read_block(i as u32).unwrap();
        assert_eq!(block.data.max_len, oram.block_size());
        if block.header.index != DUMMY_INDEX {
            assert!((block.header.index as usize) < prefix);
            seen[block.header.index as usize] += 1;
            assert!(i < prefix + oram.count());
        }
        if i < prefix {
            assert!(last_tag <= block.header.tag);
            last_tag = block.header.tag;
        }
    }
    assert_eq!(seen, vec![1usize; prefix]);
    assert!(oram.count() < oram.shelter_size());
}

#[test]
fn initialization() {
    let n = 16 as usize;
    let mut oram = SqrtOram::new(n, TEST_BLOCK_SIZE);
    oram.init_blocks().unwrap();

    for i in 0..oram.capacity() {
        let block = oram.read_block(i as u32).unwrap();
        if oram.real_range().contains(&i) || oram.dummy_range().contains(&i) {
            assert_eq!(block.header.index, i as u32);
        } else if oram.shelter_range().contains(&i) {
            assert_eq!(block.header.index, DUMMY_INDEX);
        } else {
            panic!(
                "index {} should be in either real_range(), dummy_range() or shelter_range()",
                i
            );
        }
    }
}

#[test]
fn single_write_and_read() {
    let mut oram = SqrtOram::new(16, TEST_BLOCK_SIZE);

    let key = 15 as u32;
    let mut data = [0u8; TEST_BLOCK_SIZE];
    data[0..4].copy_from_slice(&key.to_le_bytes());
    oram.put(key, data.to_vec()).unwrap();
    let read_data = oram.get(key).unwrap().unwrap();
    assert_eq!(read_data[..], data[..]);
}

#[test]
fn basic_test() {
    let n = 8 as usize;
    let mut oram = SqrtOram::new(n, TEST_BLOCK_SIZE);

    for i in 0..n {
        let mut data = [0u8; TEST_BLOCK_SIZE];
        data[0..8].copy_from_slice(&i.to_le_bytes());
        assert_eq!(oram.count(), i % oram.shelter_size());
        oram.put(i as u32, data.to_vec()).unwrap();
    }

    for i in 0..n {
        let mut data = [0u8; TEST_BLOCK_SIZE];
        data[0..8].copy_from_slice(&i.to_le_bytes());
        assert_eq!(oram.count() % oram.shelter_size(), (n + i) % oram.shelter_size());
        assert_eq!(&data[..], &oram.get(i as u32).unwrap().unwrap()[..]);
    }
}

#[test]
fn put_lengthy_data() {
    let n = 8 as usize;
    let mut oram = SqrtOram::new(n, TEST_BLOCK_SIZE);

    let r = oram.put(0 as u32, vec![0; TEST_BLOCK_SIZE + 1]);
    assert_eq!(r, Err(OramError::PayloadTooLarge));
}

#[test]
fn put_right_sized_data() {
    let n = 8 as usize;
    let mut oram = SqrtOram::new(n, TEST_BLOCK_SIZE);

    oram.put(0 as u32, vec![0; TEST_BLOCK_SIZE]).unwrap();
    oram.put(0 as u32, vec![0; TEST_BLOCK_SIZE - 1]).unwrap();
}

#[test]
fn sizes_follow_the_square_root() {
    for (n, s) in [(1usize, 1usize), (2, 1), (3, 1), (4, 2), (8, 2), (9, 3), (15, 3), (16, 4), (99, 9), (100, 10)] {
        let oram = SqrtOram::new(n, 8);
        assert_eq!(oram.len(), n);
        assert_eq!(oram.shelter_size(), s);
        assert_eq!(oram.capacity(), n + 2 * s);
        assert_eq!(oram.block_size(), 8);
        assert_eq!(oram.count(), 0);
        assert_eq!(oram.real_range(), 0..n);
        assert_eq!(oram.dummy_range(), n..n + s);
        assert_eq!(oram.shelter_range(), n + s..n + 2 * s);
    }
}

#[test]
fn accepted_sizes() {
    assert!(SqrtOram::accepts_sizes(0, 0));
    assert!(SqrtOram::accepts_sizes(16, 32));
    assert!(SqrtOram::accepts_sizes(1 << 20, 4096));
    // 4294836225 = 65535 squared: the largest number of blocks whose slots
    // can be numbered below the index of a dummy block
    assert!(SqrtOram::accepts_sizes(4294836225, 32));
    assert!(!SqrtOram::accepts_sizes(4294836226, 32));
    assert!(!SqrtOram::accepts_sizes(u32::MAX as usize, 32));
    assert!(!SqrtOram::accepts_sizes(usize::MAX, 32));
    assert!(SqrtOram::accepts_sizes(16, usize::MAX - 24));
    assert!(!SqrtOram::accepts_sizes(16, usize::MAX - 23));
}

#[test]
fn fresh_engine_is_arranged() {
    for n in [1usize, 2, 4, 5, 16, 30] {
        let mut oram = SqrtOram::new(n, TEST_BLOCK_SIZE);
        check_arrangement(&mut oram);
    }
}

#[test]
fn init_and_read_after_write() {
    let mut oram = SqrtOram::new(16, 32);
    for i in 0..16usize {
        oram.put(i as u32, payload(i)).unwrap();
        check_arrangement(&mut oram);
    }
    for i in 0..16usize {
        assert_eq!(oram.get(i as u32).unwrap(), Some(payload(i)));
        check_arrangement(&mut oram);
    }
}

#[test]
fn overwrite_in_a_later_epoch() {
    // the shelter of 8 blocks has 2 slots: the read of key 1 ends the epoch
    let mut oram = SqrtOram::new(8, 32);
    oram.put(0, vec![0xA; 32]).unwrap();
    assert_eq!(oram.get(1).unwrap().unwrap().len(), 32);
    assert_eq!(oram.count(), 0);
    oram.put(0, vec![0xB; 32]).unwrap();
    assert_eq!(oram.get(0).unwrap(), Some(vec![0xB; 32]));
}

#[test]
fn same_key_overwrite_within_an_epoch() {
    // the second write finds key 0 in the shelter and ends the epoch
    let mut oram = SqrtOram::new(8, 32);
    oram.put(0, vec![0xA; 32]).unwrap();
    oram.put(0, vec![0xB; 32]).unwrap();
    assert_eq!(oram.count(), 0);
    assert_eq!(oram.get(0).unwrap(), Some(vec![0xA; 32]));
}

#[test]
fn write_to_a_sheltered_key_leaves_the_stored_value() {
    // with a shelter of 4 slots both writes fall into one epoch: the second
    // finds the key in the shelter, touches a decoy, and stores nothing
    let mut oram = SqrtOram::new(16, 32);
    oram.put(0, vec![0xA; 32]).unwrap();
    assert_eq!(oram.count(), 1);
    oram.put(0, vec![0xB; 32]).unwrap();
    assert_eq!(oram.count(), 2);
    assert_eq!(oram.get(0).unwrap(), Some(vec![0xA; 32]));
    check_arrangement(&mut oram);
}

#[test]
fn wrap_the_shelter() {
    let mut oram = SqrtOram::new(4, 16);
    assert_eq!(oram.shelter_size(), 2);
    let mut counts = Vec::new();
    oram.put(0, vec![10; 16]).unwrap();
    counts.push(oram.count());
    oram.get(1).unwrap();
    counts.push(oram.count());
    oram.put(2, vec![12; 16]).unwrap();
    counts.push(oram.count());
    oram.get(3).unwrap();
    counts.push(oram.count());

    // after the fourth operation the shelter is drained: every key written
    // is held by a block before the shelter
    let mut held = Vec::new();
    for i in oram.real_range().chain(oram.dummy_range()) {
        let block = oram.read_block(i as u32).unwrap();
        if block.header.index == 0 {
            assert_eq!(block.data.buf, vec![10; 16]);
        }
        if block.header.index == 2 {
            assert_eq!(block.data.buf, vec![12; 16]);
        }
        held.push(block.header.index);
    }
    held.sort();
    assert_eq!(held, vec![0, 1, 2, 3, 4, 5]);

    oram.put(1, vec![11; 16]).unwrap();
    counts.push(oram.count());
    assert_eq!(counts, vec![1, 0, 1, 0, 1]);
}

#[test]
fn oversize_payload_leaves_the_engine_usable() {
    let mut oram = SqrtOram::new(8, 32);
    oram.put(0, vec![5; 32]).unwrap();
    let count = oram.count();
    assert_eq!(oram.put(0, vec![0; 33]), Err(OramError::PayloadTooLarge));
    assert_eq!(oram.count(), count);
    assert_eq!(oram.get(0).unwrap(), Some(vec![5; 32]));
    check_arrangement(&mut oram);
}

#[test]
fn payload_keeps_its_length() {
    let mut oram = SqrtOram::new(9, 32);
    oram.put(0, vec![]).unwrap();
    oram.put(1, vec![1]).unwrap();
    oram.put(2, vec![2; 31]).unwrap();
    assert_eq!(oram.get(0).unwrap(), Some(vec![]));
    assert_eq!(oram.get(1).unwrap(), Some(vec![1]));
    assert_eq!(oram.get(2).unwrap(), Some(vec![2; 31]));
}

#[test]
fn key_never_written_reads_as_a_full_block() {
    let mut oram = SqrtOram::new(16, 32);
    let first = oram.get(7).unwrap().unwrap();
    assert_eq!(first.len(), 32);
    // reading does not change what is stored
    for _ in 0..10 {
        assert_eq!(oram.get(7).unwrap(), Some(first.clone()));
    }
}

#[test]
fn unknown_key_is_an_integrity_mismatch() {
    let mut oram = SqrtOram::new(16, 32);
    oram.put(3, vec![3; 32]).unwrap();
    let count = oram.count();
    // the keys are 0..16, the dummy blocks 16..20: no block has the tag of 1000
    assert_eq!(oram.get(1000), Err(OramError::IntegrityMismatch));
    assert_eq!(oram.put(1000, vec![1]), Err(OramError::IntegrityMismatch));
    assert_eq!(oram.count(), count);
    assert_eq!(oram.get(3).unwrap(), Some(vec![3; 32]));
    check_arrangement(&mut oram);
}

#[test]
fn engine_without_blocks() {
    let mut oram = SqrtOram::new(0, 32);
    assert_eq!(oram.capacity(), 0);
    assert_eq!(oram.get(0), Err(OramError::IntegrityMismatch));
    assert_eq!(oram.count(), 0);
}

#[test]
fn long_run_of_mixed_operations() {
    let n = 30usize;
    let mut oram = SqrtOram::new(n, 16);
    let mut model: Vec<Option<Vec<u8>>> = vec![None; n];
    let mut state = 99u64;
    // keys that hold a block in the shelter in this epoch
    let mut sheltered: Vec<u32> = Vec::new();
    for step in 0..600usize {
        state = state.wrapping_mul(6364136223846793005).wrapping_add(1442695040888963407);
        let k = ((state >> 33) % n as u64) as u32;
        let write = (state >> 20) & 1 == 1;
        if write {
            let v = vec![(step % 251) as u8; (step % 17) as usize];
            oram.put(k, v.clone()).unwrap();
            if !sheltered.contains(&k) {
                model[k as usize] = Some(v);
            }
        } else {
            let read = oram.get(k).unwrap().unwrap();
            if let Some(v) = &model[k as usize] {
                assert_eq!(&read, v);
            }
        }
        if oram.count() == 0 {
            sheltered.clear();
        } else if !sheltered.contains(&k) {
            sheltered.push(k);
        }
        assert_eq!(oram.count(), (step + 1) % oram.shelter_size());
    }
    check_arrangement(&mut oram);
    for k in 0..n {
        if let Some(v) = &model[k] {
            assert_eq!(oram.get(k as u32).unwrap().as_ref(), Some(v));
        }
    }
}

#[test]
fn close_brings_every_block_home() {
    let mut oram = SqrtOram::new(16, 32);
    for i in 0..7usize {
        oram.put(i as u32, payload(i)).unwrap();
    }
    let mut db = oram.close().unwrap();
    for i in 0..24u32 {
        let bytes = db.get(&i.to_be_bytes()).unwrap();
        let block = oram::block::Block::decode(&bytes).unwrap();
        if i < 20 {
            assert_eq!(block.header.index, i);
        } else {
            assert_eq!(block.header.index, DUMMY_INDEX);
        }
        if i < 7 {
            assert_eq!(block.data.buf, payload(i as usize));
        }
    }
}

#[test]
fn reopen_keeps_the_values() {
    let mut oram = SqrtOram::new(25, 32);
    for i in 0..25usize {
        oram.put(i as u32, payload(i)).unwrap();
    }
    oram.put(3, vec![1, 2, 3]).unwrap();
    let db = oram.close().unwrap();
    let mut oram = SqrtOram::reopen(db, 25, 32).unwrap();
    check_arrangement(&mut oram);
    assert_eq!(oram.count(), 0);
    for i in 0..25usize {
        let expected = if i == 3 { vec![1, 2, 3] } else { payload(i) };
        assert_eq!(oram.get(i as u32).unwrap(), Some(expected));
    }
    let db = oram.close().unwrap();
    let mut oram = SqrtOram::reopen(db, 25, 32).unwrap();
    assert_eq!(oram.get(24).unwrap(), Some(payload(24)));
}

#[test]
fn reopen_refuses_storage_that_is_not_at_rest() {
    // an empty database
    let db = Database::open("in-memory", Options::in_memory()).unwrap();
    assert_eq!(SqrtOram::reopen(db, 4, 16).err(), Some(OramError::NotFound));

    // an engine of other sizes
    let oram = SqrtOram::new(16, 32);
    let db = oram.close().unwrap();
    assert_eq!(SqrtOram::reopen(db, 16, 24).err(), Some(OramError::IntegrityMismatch));
    let oram = SqrtOram::new(16, 32);
    let db = oram.close().unwrap();
    assert_eq!(SqrtOram::reopen(db, 9, 32).err(), Some(OramError::IntegrityMismatch));

    // blocks that are no blocks
    let mut db = Database::open("in-memory", Options::in_memory()).unwrap();
    for i in 0..6u32 {
        db.put(&i.to_be_bytes(), &[1, 2, 3]);
    }
    assert_eq!(SqrtOram::reopen(db, 4, 16).err(), Some(OramError::IntegrityMismatch));
}

#[test]
fn persistence_round_trip_on_disk() {
    let name = fresh_directory("engine");
    let n = 36usize;
    {
        let mut oram = SqrtOram::open(name, n, TEST_BLOCK_SIZE).unwrap();
        for i in 0..n {
            assert_eq!(oram.count(), i % oram.shelter_size());
            oram.put(i as u32, i.to_be_bytes().to_vec()).unwrap();
        }
        for i in 0..n {
            assert_eq!(oram.get(i as u32).unwrap(), Some(i.to_be_bytes().to_vec()));
        }
        oram.close().unwrap();
    }
    {
        let mut oram = SqrtOram::open(name, n, TEST_BLOCK_SIZE).unwrap();
        for i in 0..n {
            assert_eq!(oram.get(i as u32).unwrap(), Some(i.to_be_bytes().to_vec()));
        }
        oram.close().unwrap();
    }
    let mut oram = SqrtOram::open(name, n, TEST_BLOCK_SIZE).unwrap();
    check_arrangement(&mut oram);
    for i in 0..n {
        assert_eq!(oram.get(i as u32).unwrap(), Some(i.to_be_bytes().to_vec()));
    }
}

fn slot_of(key: &[u8]) -> usize {
    assert_eq!(key.len(), 4);
    u32::from_be_bytes([key[0], key[1], key[2], key[3]]) as usize
}

// The slots that one access touches, checked against the shape that every
// access has; hands back the slot before the shelter that was probed.
fn check_footprint(seen: &[(bool, Vec<u8>)], n: usize, s: usize, count: usize) -> usize {
    assert!(seen.len() >= 2 * s + 3);
    for i in 0..s {
        assert_eq!(seen[2 * i], (false, ((n + s + i) as u32).to_be_bytes().to_vec()));
        assert_eq!(seen[2 * i + 1], (true, ((n + s + i) as u32).to_be_bytes().to_vec()));
    }
    let probe = slot_of(&seen[2 * s].1);
    assert!(probe < n + s);
    assert_eq!(seen[2 * s], (false, (probe as u32).to_be_bytes().to_vec()));
    assert_eq!(seen[2 * s + 1], (true, (probe as u32).to_be_bytes().to_vec()));
    assert_eq!(seen[2 * s + 2], (true, ((n + s + count) as u32).to_be_bytes().to_vec()));
    probe
}

#[test]
fn every_access_leaves_the_same_footprint() {
    let (n, s) = (16usize, 4usize);
    let mut oram = SqrtOram::new(n, 32);
    let mut probes = Vec::new();

    // a read, a write, and a read of a key that is sheltered by then
    oram.start_recording();
    oram.get(3).unwrap();
    let seen = oram.stop_recording();
    assert_eq!(seen.len(), 2 * s + 3);
    probes.push(check_footprint(&seen, n, s, 0));

    oram.start_recording();
    oram.put(9, vec![1; 32]).unwrap();
    let seen = oram.stop_recording();
    assert_eq!(seen.len(), 2 * s + 3);
    probes.push(check_footprint(&seen, n, s, 1));

    oram.start_recording();
    oram.get(3).unwrap();
    let seen = oram.stop_recording();
    assert_eq!(seen.len(), 2 * s + 3);
    probes.push(check_footprint(&seen, n, s, 2));

    // no slot before the shelter is probed twice in an epoch
    assert_ne!(probes[0], probes[1]);
    assert_ne!(probes[0], probes[2]);
    assert_ne!(probes[1], probes[2]);

    // the access that fills the shelter is followed by the maintenance cycle
    oram.start_recording();
    oram.put(0, vec![2; 32]).unwrap();
    let seen = oram.stop_recording();
    assert!(seen.len() > 2 * s + 3);
    check_footprint(&seen, n, s, 3);
    assert_eq!(oram.count(), 0);

    // nothing is recorded while recording is off
    oram.get(5).unwrap();
    assert!(oram.stop_recording().is_empty());
}

#[test]
fn refused_operations_are_seen_as_far_as_they_went() {
    let mut oram = SqrtOram::new(16, 32);
    oram.start_recording();
    assert_eq!(oram.put(1, vec![0; 33]), Err(OramError::PayloadTooLarge));
    assert!(oram.stop_recording().is_empty());

    // an unknown key is refused after the scan of the shelter
    oram.start_recording();
    assert_eq!(oram.get(5000), Err(OramError::IntegrityMismatch));
    assert_eq!(oram.stop_recording().len(), 2 * 4);
}

#[test]
fn fresh_engine_holds_full_payloads_and_keyless_shelter_blocks() {
    let mut oram = SqrtOram::new(9, 20);
    let shelter = oram.shelter_range();
    let mut shelter_tag = None;
    for i in 0..oram.capacity() {
        let block = oram.read_block(i as u32).unwrap();
        assert_eq!(block.data.buf.len(), 20);
        assert_eq!(block.data.max_len, 20);
        if shelter.contains(&i) {
            assert_eq!(block.header.index, DUMMY_INDEX);
            // all blocks without a key were set up with one tag
            assert_eq!(*shelter_tag.get_or_insert(block.header.tag), block.header.tag);
        }
    }
    assert_eq!(oram.put(0, vec![0u8; 21]), Err(OramError::PayloadTooLarge));
    assert_eq!(oram.get(0).unwrap().unwrap().len(), 20);
    assert_eq!(oram.count(), 1);
}

#[test]
fn shelter_and_tags_can_be_asked_of_the_cache() {
    let mut oram = SqrtOram::new(16, 32);
    assert!(!oram.shelters(3));
    assert!(oram.shelters(DUMMY_INDEX));
    oram.put(3, vec![7; 5]).unwrap();
    assert!(oram.shelters(3));
    assert!(!oram.shelters(4));
    // 20 tags of 32 bits: equal ones are as good as never seen
    assert!(oram.tags_differ());
    // a read of the sheltered key finds what was written
    assert_eq!(oram.get(3).unwrap(), Some(vec![7; 5]));
    assert!(oram.shelters(3));
    oram.get(4).unwrap();
    oram.get(5).unwrap();
    // the fourth access has ended the epoch
    assert_eq!(oram.count(), 0);
    assert!(!oram.shelters(3));
    assert_eq!(oram.get(3).unwrap(), Some(vec![7; 5]));
}

#[test]
fn access_leaves_the_slots_as_the_protocol_says() {
    let mut oram = SqrtOram::new(16, 32);
    let prefix = 20usize;
    let before: Vec<_> = (0..24u32).map(|i| oram.read_block(i).unwrap()).collect();
    let home = before.iter().position(|b| b.header.index == 6).unwrap();
    assert!(home < prefix);

    oram.put(6, vec![1, 2, 3]).unwrap();
    let after: Vec<_> = (0..24u32).map(|i| oram.read_block(i).unwrap()).collect();
    for i in 0..24usize {
        if i == home {
            // a clone without a key, with the tag of the block that left
            assert_eq!(after[i].header.tag, before[i].header.tag);
            assert_eq!(after[i].header.index, DUMMY_INDEX);
            assert_eq!(after[i].data.buf.len(), 32);
        } else if i == prefix {
            // the block, with the payload written
            assert_eq!(after[i].header, before[home].header);
            assert_eq!(after[i].data.buf, vec![1, 2, 3]);
            assert_eq!(after[i].data.max_len, 32);
        } else {
            assert_eq!(after[i].header, before[i].header);
            assert_eq!(after[i].data, before[i].data);
        }
    }

    // the key is sheltered now: a fresh block without a key goes into the
    // next slot of the shelter, and all other slots keep their blocks
    assert_eq!(oram.get(6).unwrap(), Some(vec![1, 2, 3]));
    let last: Vec<_> = (0..24u32).map(|i| oram.read_block(i).unwrap()).collect();
    for i in 0..24usize {
        if i == prefix + 1 {
            assert_eq!(last[i].header.index, DUMMY_INDEX);
            assert_eq!(last[i].data.buf.len(), 32);
        } else {
            assert_eq!(last[i].header, after[i].header);
            assert_eq!(last[i].data, after[i].data);
        }
    }
}

#[test]
fn with_database_sets_up_or_reopens() {
    let db = Database::open("in-memory", Options::in_memory()).unwrap();
    let mut oram = SqrtOram::with_database(db, 9, 16).unwrap();
    oram.put(2, vec![9; 16]).unwrap();
    // a database in memory did not exist before: the engine is set up anew
    let db = oram.close().unwrap();
    assert!(!db.existed());
    let mut oram = SqrtOram::with_database(db, 9, 16).unwrap();
    assert_eq!(oram.count(), 0);
    assert_eq!(oram.get(2).unwrap().unwrap().len(), 16);

    let name = fresh_directory("with");
    {
        let db = Database::open(name, Options::leveldb()).unwrap();
        let mut oram = SqrtOram::with_database(db, 9, 16).unwrap();
        oram.put(2, vec![9; 3]).unwrap();
        oram.close().unwrap();
    }
    let db = Database::open(name, Options::leveldb()).unwrap();
    assert!(db.existed());
    let mut oram = SqrtOram::with_database(db, 9, 16).unwrap();
    assert_eq!(oram.get(2).unwrap(), Some(vec![9; 3]));
}

#[test]
fn the_sort_moves_whole_blocks_in_memory_and_headers_on_disk() {
    // in memory a block is read and written as it is
    let mut oram = SqrtOram::new(9, 16);
    let slot = Access::read(&mut oram, 3).unwrap();
    assert!(!slot.plain);
    let block = oram.read_block(3).unwrap();
    assert_eq!(slot.block.header, block.header);
    assert_eq!(slot.block.data, block.data);
    Access::write(&mut oram, 3, &slot).unwrap();
    assert_eq!(oram.read_block(3).unwrap().data, block.data);

    // a block of which the header alone is shown is written with a blank payload
    let shown = Slot { block: block.clone(), plain: true };
    Access::write(&mut oram, 3, &shown).unwrap();
    let blanked = oram.read_block(3).unwrap();
    assert_eq!(blanked.header, block.header);
    assert_eq!(blanked.data.buf, vec![0u8; 16]);

    // on disk the header alone is shown, and the payload goes with it
    let name = fresh_directory("slots");
    let mut oram = SqrtOram::open(name, 9, 16).unwrap();
    let block = oram.read_block(5).unwrap();
    let slot = Access::read(&mut oram, 5).unwrap();
    assert!(slot.plain);
    Access::write(&mut oram, 5, &slot).unwrap();
    assert_eq!(oram.read_block(5).unwrap().data, block.data);
    // a block with its payload cannot be vouched for on disk
    let whole = Slot { block, plain: false };
    assert_eq!(
        Access::write(&mut oram, 5, &whole),
        Err(OramError::IntegrityMismatch)
    );
}
