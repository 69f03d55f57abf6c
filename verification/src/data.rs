//! Payloads and their fixed-length form in storage.
//!
//! A block is stored as its tag, its logical index, its payload and a padding
//! that fills the payload up to the block size, so that every block takes the
//! same number of bytes whatever the length of its payload.

use vstd::bytes::{
    lemma_auto_spec_u32_to_from_le_bytes, lemma_auto_spec_u64_to_from_le_bytes,
    spec_u32_from_le_bytes, spec_u32_to_le_bytes, spec_u64_from_le_bytes, spec_u64_to_le_bytes,
};
use vstd::prelude::*;

verus! {

/// The byte that fills a payload up to the block size.
pub const PADDING_VALUE: u8 = 255;

/// Type of stored data.
pub type Data = Vec<u8>;

/// A payload with the length that it is padded to in storage.
#[derive(Debug, PartialEq, Eq)]
pub struct DataWrapper {
    /// The actual data buffer.
    pub buf: Data,
    /// The length that `buf` is padded to in storage; `buf` is not longer.
    pub max_len: usize,
}

/// A payload as a value: its bytes and the length that they are padded to.
pub struct DataView {
    pub buf: Seq<u8>,
    pub max_len: nat,
}

impl View for DataWrapper {
    type V = DataView;

    open spec fn view(&self) -> DataView {
        DataView { buf: self.buf@, max_len: self.max_len as nat }
    }
}

/// The bytes that stand for a block with the given tag, index, payload and
/// padding: the two numbers in four bytes each, least significant first, then
/// payload and padding, each after its length in eight bytes.
pub open spec fn frame(tag: u32, index: u32, buf: Seq<u8>, padding: Seq<u8>) -> Seq<u8> {
    spec_u32_to_le_bytes(tag) + spec_u32_to_le_bytes(index) + spec_u64_to_le_bytes(
        buf.len() as u64,
    ) + buf + spec_u64_to_le_bytes(padding.len() as u64) + padding
}

/// The tag, index, payload and padding that `bytes` begin with, if they begin
/// with a frame. Bytes after the frame are not looked at.
pub open spec fn parse_frame(bytes: Seq<u8>) -> Option<(u32, u32, Seq<u8>, Seq<u8>)> {
    if bytes.len() < 16 {
        None
    } else {
        let tag = spec_u32_from_le_bytes(bytes.subrange(0, 4));
        let index = spec_u32_from_le_bytes(bytes.subrange(4, 8));
        let n1 = spec_u64_from_le_bytes(bytes.subrange(8, 16)) as int;
        if bytes.len() - 16 < n1 + 8 {
            None
        } else {
            let n2 = spec_u64_from_le_bytes(bytes.subrange(16 + n1, 24 + n1)) as int;
            if bytes.len() - 24 - n1 < n2 {
                None
            } else {
                Some(
                    (
                        tag,
                        index,
                        bytes.subrange(16, 16 + n1),
                        bytes.subrange(24 + n1, 24 + n1 + n2),
                    ),
                )
            }
        }
    }
}

/// A frame is read back as what it was made of.
pub proof fn lemma_frame_round_trip(tag: u32, index: u32, buf: Seq<u8>, padding: Seq<u8>)
    requires
        buf.len() <= u64::MAX,
        padding.len() <= u64::MAX,
    ensures
        frame(tag, index, buf, padding).len() == 24 + buf.len() + padding.len(),
        parse_frame(frame(tag, index, buf, padding)) == Some((tag, index, buf, padding)),
{
    lemma_auto_spec_u32_to_from_le_bytes();
    lemma_auto_spec_u64_to_from_le_bytes();
    let f = frame(tag, index, buf, padding);
    let n1 = buf.len() as int;
    let n2 = padding.len() as int;
    assert(f.subrange(0, 4) =~= spec_u32_to_le_bytes(tag));
    assert(f.subrange(4, 8) =~= spec_u32_to_le_bytes(index));
    assert(f.subrange(8, 16) =~= spec_u64_to_le_bytes(buf.len() as u64));
    assert(f.subrange(16, 16 + n1) =~= buf);
    assert(f.subrange(16 + n1, 24 + n1) =~= spec_u64_to_le_bytes(padding.len() as u64));
    assert(f.subrange(24 + n1, 24 + n1 + n2) =~= padding);
}

#[verifier::external_type_specification]
#[verifier::external_body]
pub struct ExErrorKind(bincode::ErrorKind);

/// The frame of a block, made by `bincode::serialize` from the tuple of the
/// four parts.
///
/// Claimed of bincode: with its default options it writes a `u32` as four
/// bytes and a length as eight, least significant first, a byte vector as its
/// length and its bytes, and a tuple as its parts one after the other; and
/// writing such a tuple into memory does not fail.
#[verifier::external_body]
fn encode_frame(tag: u32, index: u32, buf: &Vec<u8>, padding: &Vec<u8>) -> (r: Result<
    Vec<u8>,
    Box<bincode::ErrorKind>,
>)
    requires
        buf@.len() + padding@.len() + 24 <= usize::MAX,
    ensures
        r.is_ok(),
        r.unwrap()@ == frame(tag, index, buf@, padding@),
{
    bincode::serialize(&(tag, index, buf, padding))
}

/// The parts of the frame that `bytes` begin with, read by
/// `bincode::deserialize` as a tuple of two numbers and two byte vectors.
///
/// Claimed of bincode: with its default options it reads what
/// [`encode_frame`] writes, fails exactly where the bytes end before the frame
/// does, and does not look at bytes after the frame.
#[verifier::external_body]
fn decode_frame(bytes: &[u8]) -> (r: Result<(u32, u32, Vec<u8>, Vec<u8>), Box<bincode::ErrorKind>>)
    ensures
        match r {
            Ok((tag, index, buf, padding)) => parse_frame(bytes@) == Some(
                (tag, index, buf@, padding@),
            ),
            Err(_) => parse_frame(bytes@).is_none(),
        },
{
    bincode::deserialize::<(u32, u32, Vec<u8>, Vec<u8>)>(bytes)
}

impl Clone for DataWrapper {
    fn clone(&self) -> (r: Self)
        ensures
            r@ == self@,
    {
        DataWrapper { buf: self.buf.clone(), max_len: self.max_len }
    }
}

impl DataWrapper {
    /// The bytes that follow the payload in storage.
    pub fn padding(&self) -> (r: Vec<u8>)
        requires
            self.buf@.len() <= self.max_len,
        ensures
            r@ == padding_of(self@),
    {
        let missing: usize = self.max_len - self.buf.len();
        let r = vec![PADDING_VALUE; missing];
        assert(r@ =~= padding_of(self@));
        r
    }

    /// The payload that was stored as `buf` followed by `padding`.
    pub fn from_parts(buf: Data, padding: &Data) -> (r: DataWrapper)
        requires
            buf@.len() + padding@.len() <= usize::MAX,
        ensures
            r@ == (DataView { buf: buf@, max_len: buf@.len() + padding@.len() }),
    {
        let max_len = buf.len() + padding.len();
        DataWrapper { buf, max_len }
    }
}

/// The padding of a payload: as many bytes of `PADDING_VALUE` as the payload
/// lacks to its padded length.
pub open spec fn padding_of(d: DataView) -> Seq<u8> {
    Seq::new((d.max_len - d.buf.len()) as nat, |i: int| PADDING_VALUE)
}

/// The bytes that a block with this tag, index and payload is stored as.
pub open spec fn encoding(tag: u32, index: u32, d: DataView) -> Seq<u8> {
    frame(tag, index, d.buf, padding_of(d))
}

/// The tag, index and payload that `bytes` are read as: the padded length of
/// the payload is the length of payload and padding together.
pub open spec fn decoding(bytes: Seq<u8>) -> Option<(u32, u32, DataView)> {
    match parse_frame(bytes) {
        Some((tag, index, buf, padding)) => Some(
            (tag, index, DataView { buf, max_len: buf.len() + padding.len() }),
        ),
        None => None,
    }
}

/// Writes tag, index and payload as the bytes of a block.
pub fn encode(tag: u32, index: u32, data: &DataWrapper) -> (r: Vec<u8>)
    requires
        data.buf@.len() <= data.max_len <= usize::MAX - 24,
    ensures
        r@ == encoding(tag, index, data@),
        r@.len() == 24 + data.max_len,
{
    let padding = data.padding();
    proof {
        lemma_frame_round_trip(tag, index, data.buf@, padding@);
    }
    encode_frame(tag, index, &data.buf, &padding).unwrap()
}

/// Reads the bytes of a block back as tag, index and payload.
pub fn decode(bytes: &[u8]) -> (r: Option<(u32, u32, DataWrapper)>)
    ensures
        match r {
            Some((tag, index, data)) => decoding(bytes@) == Some((tag, index, data@)),
            None => decoding(bytes@).is_none(),
        },
{
    let total = bytes.len();
    match decode_frame(bytes) {
        Ok((tag, index, buf, padding)) => {
            assert(buf@.len() + padding@.len() <= total);
            Some((tag, index, DataWrapper::from_parts(buf, &padding)))
        },
        Err(_) => None,
    }
}

/// What was encoded is decoded again: the payload with its length, and the
/// padded length.
pub proof fn lemma_codec_round_trip(tag: u32, index: u32, d: DataView)
    requires
        d.buf.len() <= d.max_len <= u64::MAX,
    ensures
        decoding(encoding(tag, index, d)) == Some((tag, index, d)),
        encoding(tag, index, d).len() == 24 + d.max_len,
{
    lemma_frame_round_trip(tag, index, d.buf, padding_of(d));
}

} // verus!
