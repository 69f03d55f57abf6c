//! Big-endian encoding of 32-bit numbers: the form of a slot's key in storage
//! and of the input and output of the tag function.

use vstd::prelude::*;

verus! {

/// The four bytes of `x`, most significant first.
pub open spec fn be_bytes(x: u32) -> Seq<u8> {
    seq![
        (x / 0x100_0000) as u8,
        ((x / 0x1_0000) % 0x100) as u8,
        ((x / 0x100) % 0x100) as u8,
        (x % 0x100) as u8,
    ]
}

/// The number whose big-endian bytes are the first four of `s`.
pub open spec fn be_value(s: Seq<u8>) -> u32 {
    (s[0] * 0x100_0000 + s[1] * 0x1_0000 + s[2] * 0x100 + s[3]) as u32
}

/// Decoding undoes encoding, so distinct numbers have distinct encodings.
pub proof fn lemma_be_round_trip(x: u32)
    ensures
        be_bytes(x).len() == 4,
        be_value(be_bytes(x)) == x,
{
}

pub proof fn lemma_be_injective(x: u32, y: u32)
    requires
        be_bytes(x) == be_bytes(y),
    ensures
        x == y,
{
    lemma_be_round_trip(x);
    lemma_be_round_trip(y);
}

/// Encodes `x` as four bytes, most significant first.
pub fn to_be_bytes(x: u32) -> (r: Vec<u8>)
    ensures
        r@ == be_bytes(x),
{
    let mut r: Vec<u8> = Vec::with_capacity(4);
    r.push((x / 0x100_0000) as u8);
    r.push(((x / 0x1_0000) % 0x100) as u8);
    r.push(((x / 0x100) % 0x100) as u8);
    r.push((x % 0x100) as u8);
    assert(r@ =~= be_bytes(x));
    r
}

/// Decodes four bytes, most significant first.
pub fn from_be_bytes(s: &[u8]) -> (x: u32)
    requires
        s@.len() >= 4,
    ensures
        x == be_value(s@),
{
    let b0: u32 = s[0] as u32;
    let b1: u32 = s[1] as u32;
    let b2: u32 = s[2] as u32;
    let b3: u32 = s[3] as u32;
    b0 * 0x100_0000 + b1 * 0x1_0000 + b2 * 0x100 + b3
}

} // verus!
