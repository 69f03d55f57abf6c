//! Blocks: the unit of storage, with the header that places it.

use vstd::prelude::*;
use crate::data::{decode, decoding, encode, encoding, DataView, DataWrapper};
use crate::endian::{be_bytes, be_value, from_be_bytes, to_be_bytes};
use crate::entropy::{random_bytes, Salt};

verus! {

/// The logical index of a block that stands for no key.
pub const DUMMY_INDEX: u32 = u32::MAX;

/// The header of a block: what the engine keeps in memory of every slot.
#[derive(Clone, Copy, Debug, PartialEq, Eq, Structural)]
pub struct BlockCache {
    /// Where the block goes when the blocks are shuffled.
    pub tag: u32,
    /// The key that the block holds the value of, or `DUMMY_INDEX`.
    pub index: u32,
}

impl Default for BlockCache {
    fn default() -> (r: Self)
        ensures
            r == (BlockCache { tag: 0, index: 0 }),
    {
        BlockCache { tag: 0, index: 0 }
    }
}

/// Block content.
pub struct Block {
    pub header: BlockCache,
    /// The stored data of the block.
    pub data: DataWrapper,
}

/// A block as a value.
pub struct BlockView {
    pub header: BlockCache,
    pub data: DataView,
}

impl View for Block {
    type V = BlockView;

    open spec fn view(&self) -> BlockView {
        BlockView { header: self.header, data: self.data@ }
    }
}

impl Clone for Block {
    fn clone(&self) -> (r: Self)
        ensures
            r@ == self@,
    {
        Block { header: self.header, data: self.data.clone() }
    }
}

/// What `VarBlake2b` of the `blake2` crate gives for a key, an output length
/// and a message.
pub uninterp spec fn keyed_blake2b(key: Seq<u8>, out_len: nat, message: Seq<u8>) -> Seq<u8>;

/// The tag of a logical index under a salt: the keyed hash of the index, of
/// four bytes, read as a number.
pub open spec fn tag_of(index: u32, salt: Seq<u8>) -> u32 {
    be_value(keyed_blake2b(salt, 4, be_bytes(index)))
}

/// The keyed BLAKE2b hash of `message`, of `out_len` bytes: `VarBlake2b`
/// made by `new_keyed`, fed by `input` and read by `vec_result`.
///
/// Claimed of blake2: the digest depends on key, output length and message
/// alone, and has the length asked for. A key or an output longer than 64
/// bytes make it panic and are left out.
#[verifier::external_body]
pub(crate) fn keyed_hash(key: &[u8], out_len: usize, message: &[u8]) -> (digest: Vec<u8>)
    requires
        key@.len() <= 64,
        1 <= out_len <= 64,
        message@.len() <= isize::MAX,
    ensures
        digest@ == keyed_blake2b(key@, out_len as nat, message@),
        digest@.len() == out_len,
{
    let mut hasher = blake2::VarBlake2b::new_keyed(key, out_len);
    blake2::digest::Input::input(&mut hasher, message);
    blake2::digest::VariableOutput::vec_result(hasher)
}

/// A well-formed block of size `size`: its payload is not longer than the
/// length it is padded to, and that length is `size`.
pub open spec fn fits(b: BlockView, size: nat) -> bool {
    b.data.buf.len() <= b.data.max_len == size
}

impl Block {
    /// Creates a block for a key, or a dummy block where `index` is
    /// `DUMMY_INDEX`, with a random payload of `size` bytes and the tag that
    /// `salt` gives the index.
    pub fn new(index: u32, size: usize, salt: Salt) -> (r: Self)
        ensures
            r@.header == (BlockCache { tag: tag_of(index, salt@), index }),
            r@.data.buf.len() == size,
            fits(r@, size as nat),
    {
        let buf = random_bytes(size);
        let data = DataWrapper { buf, max_len: size };
        let tag = Self::derive_tag(index, salt);
        Block { header: BlockCache { tag, index }, data }
    }

    /// Makes a dummy clone with only the tag unchanged: its index is
    /// `DUMMY_INDEX` and its payload is random, of the same padded length.
    pub fn dummy_clone(&self) -> (r: Self)
        ensures
            r@.header == (BlockCache { tag: self@.header.tag, index: DUMMY_INDEX }),
            r@.data.buf.len() == self@.data.max_len,
            fits(r@, self@.data.max_len),
    {
        let buf = random_bytes(self.data.max_len);
        let data = DataWrapper { buf, max_len: self.data.max_len };
        Block { header: BlockCache { tag: self.header.tag, index: DUMMY_INDEX }, data }
    }

    /// The tag of `index` under `salt`.
    pub fn derive_tag(index: u32, salt: Salt) -> (tag: u32)
        ensures
            tag == tag_of(index, salt@),
    {
        let message = to_be_bytes(index);
        let digest = keyed_hash(salt.as_slice(), 4, message.as_slice());
        from_be_bytes(digest.as_slice())
    }

    /// The bytes that the block is stored as.
    pub fn encode(&self) -> (r: Vec<u8>)
        requires
            self@.data.buf.len() <= self@.data.max_len <= usize::MAX - 24,
        ensures
            r@ == block_bytes(self@),
    {
        encode(self.header.tag, self.header.index, &self.data)
    }

    /// The block that `bytes` are read as, if they hold one.
    pub fn decode(bytes: &[u8]) -> (r: Option<Block>)
        ensures
            match r {
                Some(b) => block_of(bytes@) == Some(b@),
                None => block_of(bytes@).is_none(),
            },
    {
        match decode(bytes) {
            Some((tag, index, data)) => Some(Block { header: BlockCache { tag, index }, data }),
            None => None,
        }
    }
}

/// The bytes that a block is stored as.
pub open spec fn block_bytes(b: BlockView) -> Seq<u8> {
    encoding(b.header.tag, b.header.index, b.data)
}

/// The block that `bytes` are read as.
pub open spec fn block_of(bytes: Seq<u8>) -> Option<BlockView> {
    match decoding(bytes) {
        Some((tag, index, data)) => Some(BlockView { header: BlockCache { tag, index }, data }),
        None => None,
    }
}

} // verus!
