//! The store of one sealed file per key, as far as it computes: the name of
//! the file of a key, and the bytes that the file holds. Reading and writing
//! the files is left to the owner of a protected file system.

use vstd::bytes::{
    lemma_auto_spec_u64_to_from_le_bytes, spec_u64_from_le_bytes, spec_u64_to_le_bytes,
};
use vstd::prelude::*;
use crate::block::{keyed_blake2b, keyed_hash};

verus! {

/// The digit that stands for a number below 16.
pub open spec fn hex_digit(n: int) -> char {
    if n == 0 {
        '0'
    } else if n == 1 {
        '1'
    } else if n == 2 {
        '2'
    } else if n == 3 {
        '3'
    } else if n == 4 {
        '4'
    } else if n == 5 {
        '5'
    } else if n == 6 {
        '6'
    } else if n == 7 {
        '7'
    } else if n == 8 {
        '8'
    } else if n == 9 {
        '9'
    } else if n == 10 {
        'a'
    } else if n == 11 {
        'b'
    } else if n == 12 {
        'c'
    } else if n == 13 {
        'd'
    } else if n == 14 {
        'e'
    } else {
        'f'
    }
}

/// The bytes written as digits to the base 16, two for each byte, the upper
/// half first.
pub open spec fn hex_of(bytes: Seq<u8>) -> Seq<char>
    decreases bytes.len(),
{
    if bytes.len() == 0 {
        Seq::empty()
    } else {
        hex_of(bytes.drop_last()).push(hex_digit(bytes.last() as int / 16)).push(
            hex_digit(bytes.last() as int % 16),
        )
    }
}

/// The bytes as a string of digits, by `hex::encode`.
///
/// Claimed of hex: it writes two digits for each byte, the upper half first,
/// with the letters `a` to `f` in lower case.
#[verifier::external_body]
fn hex_encode(bytes: &[u8]) -> (r: String)
    ensures
        r@ == hex_of(bytes@),
{
    hex::encode(bytes)
}

/// The name of the file that holds the value of `key`: the BLAKE2b hash of
/// the key, of 64 bytes and without a key of its own, in digits to the base
/// 16.
pub fn data_filename(key: &[u8]) -> (r: String)
    requires
        key@.len() <= isize::MAX,
    ensures
        r@ == hex_of(keyed_blake2b(Seq::empty(), 64, key@)),
        r@.len() == 128,
{
    let no_key: Vec<u8> = Vec::new();
    let hash = keyed_hash(no_key.as_slice(), 64, key);
    proof {
        lemma_hex_len(hash@);
    }
    hex_encode(hash.as_slice())
}

pub proof fn lemma_hex_len(bytes: Seq<u8>)
    ensures
        hex_of(bytes).len() == 2 * bytes.len(),
    decreases bytes.len(),
{
    if bytes.len() > 0 {
        lemma_hex_len(bytes.drop_last());
    }
}

/// What a sealed file holds: a key with its value.
#[derive(Debug, PartialEq, Eq)]
pub struct DataFile {
    pub key: Vec<u8>,
    pub value: Vec<u8>,
}

/// The bytes of a file with the given key and value: each after its length
/// in eight bytes, least significant first.
pub open spec fn record(key: Seq<u8>, value: Seq<u8>) -> Seq<u8> {
    spec_u64_to_le_bytes(key.len() as u64) + key + spec_u64_to_le_bytes(value.len() as u64) + value
}

/// The key and value that `bytes` begin with, if they begin with a record.
pub open spec fn parse_record(bytes: Seq<u8>) -> Option<(Seq<u8>, Seq<u8>)> {
    if bytes.len() < 8 {
        None
    } else {
        let n1 = spec_u64_from_le_bytes(bytes.subrange(0, 8)) as int;
        if bytes.len() - 8 < n1 + 8 {
            None
        } else {
            let n2 = spec_u64_from_le_bytes(bytes.subrange(8 + n1, 16 + n1)) as int;
            if bytes.len() - 16 - n1 < n2 {
                None
            } else {
                Some((bytes.subrange(8, 8 + n1), bytes.subrange(16 + n1, 16 + n1 + n2)))
            }
        }
    }
}

/// A record is read back as the key and the value it was made of.
pub proof fn lemma_record_round_trip(key: Seq<u8>, value: Seq<u8>)
    requires
        key.len() <= u64::MAX,
        value.len() <= u64::MAX,
    ensures
        record(key, value).len() == 16 + key.len() + value.len(),
        parse_record(record(key, value)) == Some((key, value)),
{
    lemma_auto_spec_u64_to_from_le_bytes();
    let r = record(key, value);
    let n1 = key.len() as int;
    let n2 = value.len() as int;
    assert(r.subrange(0, 8) =~= spec_u64_to_le_bytes(key.len() as u64));
    assert(r.subrange(8, 8 + n1) =~= key);
    assert(r.subrange(8 + n1, 16 + n1) =~= spec_u64_to_le_bytes(value.len() as u64));
    assert(r.subrange(16 + n1, 16 + n1 + n2) =~= value);
}

/// The record of a key and a value, made by `bincode::serialize` from the
/// pair of them.
///
/// Claimed of bincode: with its default options it writes a byte vector as
/// its length in eight bytes, least significant first, and its bytes, and a
/// pair as its parts one after the other; and writing such a pair into
/// memory does not fail.
#[verifier::external_body]
fn encode_pair(key: &Vec<u8>, value: &Vec<u8>) -> (r: Result<Vec<u8>, Box<bincode::ErrorKind>>)
    requires
        key@.len() + value@.len() + 16 <= usize::MAX,
    ensures
        r.is_ok(),
        r.unwrap()@ == record(key@, value@),
{
    bincode::serialize(&(key, value))
}

/// The key and the value of the record that `bytes` begin with, read by
/// `bincode::deserialize` as a pair of byte vectors.
///
/// Claimed of bincode: with its default options it reads what
/// [`encode_pair`] writes, fails exactly where the bytes end before the
/// record does, and does not look at bytes after the record.
#[verifier::external_body]
fn decode_pair(bytes: &[u8]) -> (r: Result<(Vec<u8>, Vec<u8>), Box<bincode::ErrorKind>>)
    ensures
        match r {
            Ok((key, value)) => parse_record(bytes@) == Some((key@, value@)),
            Err(_) => parse_record(bytes@).is_none(),
        },
{
    bincode::deserialize::<(Vec<u8>, Vec<u8>)>(bytes)
}

impl DataFile {
    /// The bytes of the file.
    pub fn to_bytes(&self) -> (r: Vec<u8>)
        requires
            self.key@.len() + self.value@.len() + 16 <= usize::MAX,
        ensures
            r@ == record(self.key@, self.value@),
    {
        encode_pair(&self.key, &self.value).unwrap()
    }

    /// The file that holds `bytes`, if they are the bytes of one.
    pub fn from_bytes(bytes: &[u8]) -> (r: Option<DataFile>)
        ensures
            match r {
                Some(f) => parse_record(bytes@) == Some((f.key@, f.value@)),
                None => parse_record(bytes@).is_none(),
            },
    {
        match decode_pair(bytes) {
            Ok((key, value)) => Some(DataFile { key, value }),
            Err(_) => None,
        }
    }
}

} // verus!
