use oram::block::{Block, BlockCache, DUMMY_INDEX};
use oram::data::{decode, encode, DataWrapper, PADDING_VALUE};
use oram::endian::{from_be_bytes, to_be_bytes};

fn le8(n: u64) -> Vec<u8> {
    n.to_le_bytes().to_vec()
}

// The bytes of a payload and its padding as they stand in a stored block,
// after the eight bytes of tag and index.
fn stored_payload(data: &DataWrapper) -> Vec<u8> {
    encode(0, 0, data)[8..].to_vec()
}

#[test]
fn test_ser_empty() {
    let data = DataWrapper { buf: vec![], max_len: 4 };

    assert_eq!(data.padding(), vec![PADDING_VALUE; 4]);
    let mut expected = le8(0);
    expected.extend(le8(4));
    expected.extend(vec![PADDING_VALUE; 4]);
    assert_eq!(stored_payload(&data), expected);
}

#[test]
fn test_de_empty() {
    let data = DataWrapper { buf: vec![], max_len: 4 };

    let mut bytes = vec![0u8; 8];
    bytes.extend(le8(0));
    bytes.extend(le8(4));
    bytes.extend(vec![PADDING_VALUE; 4]);
    let (tag, index, read) = decode(&bytes).unwrap();
    assert_eq!((tag, index), (0, 0));
    assert_eq!(read, data);
}

#[test]
fn test_ser_partial() {
    let data = DataWrapper { buf: vec![1, 2], max_len: 4 };

    assert_eq!(data.padding(), vec![PADDING_VALUE; 2]);
    let mut expected = le8(2);
    expected.extend(vec![1, 2]);
    expected.extend(le8(2));
    expected.extend(vec![PADDING_VALUE; 2]);
    assert_eq!(stored_payload(&data), expected);
}

#[test]
fn test_de_partial() {
    let data = DataWrapper { buf: vec![1, 2], max_len: 4 };

    let mut bytes = vec![0u8; 8];
    bytes.extend(le8(2));
    bytes.extend(vec![1, 2]);
    bytes.extend(le8(2));
    bytes.extend(vec![PADDING_VALUE; 2]);
    let (_, _, read) = decode(&bytes).unwrap();
    assert_eq!(read, data);
}

#[test]
fn test_ser_full() {
    let data = DataWrapper { buf: vec![1, 2, 3, 4], max_len: 4 };

    assert_eq!(data.padding(), Vec::<u8>::new());
    let mut expected = le8(4);
    expected.extend(vec![1, 2, 3, 4]);
    expected.extend(le8(0));
    assert_eq!(stored_payload(&data), expected);
}

#[test]
fn test_de_full() {
    let data = DataWrapper { buf: vec![1, 2, 3, 4], max_len: 4 };

    let mut bytes = vec![0u8; 8];
    bytes.extend(le8(4));
    bytes.extend(vec![1, 2, 3, 4]);
    bytes.extend(le8(0));
    let (_, _, read) = decode(&bytes).unwrap();
    assert_eq!(read, data);
}

#[test]
fn encoded_block_has_the_exact_layout() {
    let block = Block {
        header: BlockCache { tag: 0x0403_0201, index: 0x0807_0605 },
        data: DataWrapper { buf: vec![0xAA, 0xBB, 0xCC], max_len: 5 },
    };
    assert_eq!(
        block.encode(),
        vec![
            1, 2, 3, 4, // tag
            5, 6, 7, 8, // index
            3, 0, 0, 0, 0, 0, 0, 0, // length of the payload
            0xAA, 0xBB, 0xCC, // payload
            2, 0, 0, 0, 0, 0, 0, 0, // length of the padding
            0xFF, 0xFF, // padding
        ]
    );
}

#[test]
fn encoded_block_is_what_bincode_writes_for_the_parts() {
    let data = DataWrapper { buf: vec![9, 8, 7], max_len: 16 };
    let padding = data.padding();
    let expected = bincode::serialize(&(77u32, DUMMY_INDEX, &data.buf, &padding)).unwrap();
    assert_eq!(encode(77, DUMMY_INDEX, &data), expected);
}

#[test]
fn encoded_length_does_not_depend_on_the_payload() {
    for len in 0..=32usize {
        let data = DataWrapper { buf: vec![len as u8; len], max_len: 32 };
        assert_eq!(encode(1, 2, &data).len(), 24 + 32);
    }
}

#[test]
fn codec_round_trip_for_every_payload_length() {
    for len in 0..=32usize {
        let block = Block {
            header: BlockCache { tag: 0xDEAD_BEEF, index: len as u32 },
            data: DataWrapper { buf: (0..len as u8).collect(), max_len: 32 },
        };
        let read = Block::decode(&block.encode()).unwrap();
        assert_eq!(read.header, block.header);
        assert_eq!(read.data, block.data);
    }
}

#[test]
fn decode_refuses_bytes_that_end_early() {
    let block = Block {
        header: BlockCache { tag: 1, index: 2 },
        data: DataWrapper { buf: vec![1, 2, 3], max_len: 8 },
    };
    let bytes = block.encode();
    for cut in 0..bytes.len() {
        assert!(Block::decode(&bytes[..cut]).is_none());
    }
    assert!(Block::decode(&bytes).is_some());
}

#[test]
fn decode_ignores_bytes_after_the_block_and_the_value_of_the_padding() {
    let mut bytes = vec![1, 0, 0, 0, 2, 0, 0, 0];
    bytes.extend(le8(1));
    bytes.push(42);
    bytes.extend(le8(2));
    bytes.extend(vec![0, 7]);
    bytes.extend(vec![9, 9, 9]);
    let read = Block::decode(&bytes).unwrap();
    assert_eq!(read.header, BlockCache { tag: 1, index: 2 });
    assert_eq!(read.data, DataWrapper { buf: vec![42], max_len: 3 });
}

#[test]
fn from_parts_adds_the_lengths() {
    let d = DataWrapper::from_parts(vec![1, 2, 3], &vec![0xFF; 5]);
    assert_eq!(d, DataWrapper { buf: vec![1, 2, 3], max_len: 8 });
}

#[test]
fn big_endian_bytes_are_those_of_std() {
    for x in [0u32, 1, 255, 256, 65535, 65536, 0x0102_0304, u32::MAX - 1, u32::MAX] {
        assert_eq!(to_be_bytes(x), x.to_be_bytes().to_vec());
        assert_eq!(from_be_bytes(&x.to_be_bytes()), x);
    }
}
