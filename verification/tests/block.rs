use blake2::digest::{Input, VariableOutput};
use blake2::VarBlake2b;
use oram::block::{Block, DUMMY_INDEX};

fn expected_tag(index: u32, salt: [u8; 32]) -> u32 {
    let mut hasher = VarBlake2b::new_keyed(&salt, 4);
    hasher.input(index.to_be_bytes());
    let hash = hasher.vec_result();
    u32::from_be_bytes([hash[0], hash[1], hash[2], hash[3]])
}

#[test]
fn derive_tag_is_the_keyed_hash_of_the_index() {
    let mut salt = [0u8; 32];
    for (i, b) in salt.iter_mut().enumerate() {
        *b = (i * 7 + 1) as u8;
    }
    for index in [0u32, 1, 2, 15, 16, 4096, DUMMY_INDEX] {
        assert_eq!(Block::derive_tag(index, salt), expected_tag(index, salt));
    }
}

#[test]
fn derive_tag_depends_on_index_and_salt() {
    let salt = [3u8; 32];
    let other = [4u8; 32];
    let tags: Vec<u32> = (0..64u32).map(|i| Block::derive_tag(i, salt)).collect();
    for i in 0..64usize {
        assert_eq!(tags[i], Block::derive_tag(i as u32, salt));
        for j in 0..i {
            assert_ne!(tags[i], tags[j]);
        }
    }
    assert_ne!(Block::derive_tag(0, salt), Block::derive_tag(0, other));
    // the tag is not the index handed back
    assert_ne!(Block::derive_tag(5, salt), 5);
}

#[test]
fn new_block_has_the_tag_of_its_index_and_a_full_payload() {
    let salt = [9u8; 32];
    let block = Block::new(12, 48, salt);
    assert_eq!(block.header.index, 12);
    assert_eq!(block.header.tag, expected_tag(12, salt));
    assert_eq!(block.data.buf.len(), 48);
    assert_eq!(block.data.max_len, 48);

    let empty = Block::new(DUMMY_INDEX, 0, salt);
    assert_eq!(empty.header.index, DUMMY_INDEX);
    assert_eq!(empty.data.buf.len(), 0);
}

#[test]
fn random_payloads_differ() {
    let salt = [1u8; 32];
    let a = Block::new(1, 64, salt);
    let b = Block::new(1, 64, salt);
    assert_ne!(a.data.buf, b.data.buf);
    assert_ne!(a.data.buf, vec![0u8; 64]);
}

#[test]
fn dummy_clone_keeps_the_tag_only() {
    let salt = [5u8; 32];
    let mut block = Block::new(3, 32, salt);
    block.data.buf = vec![1, 2, 3];
    let clone = block.dummy_clone();
    assert_eq!(clone.header.tag, block.header.tag);
    assert_eq!(clone.header.index, DUMMY_INDEX);
    assert_eq!(clone.data.max_len, 32);
    assert_eq!(clone.data.buf.len(), 32);
}
