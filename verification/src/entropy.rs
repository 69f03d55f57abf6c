//! Fresh random bytes, from the thread-local generator of the `rand` crate.

use vstd::prelude::*;

verus! {

/// The key of the tag function.
pub type Salt = [u8; 32];

/// `len` bytes from `rand::thread_rng`, filled in by `RngCore::fill_bytes`.
///
/// Claimed of rand: the call fills the whole buffer that it is given, so what
/// comes back has the length asked for. Nothing is claimed of the bytes.
#[verifier::external_body]
pub(crate) fn random_bytes(len: usize) -> (buf: Vec<u8>)
    ensures
        buf@.len() == len,
{
    let mut buf = vec![0u8; len];
    rand::RngCore::fill_bytes(&mut rand::thread_rng(), &mut buf);
    buf
}

/// A salt from `rand::thread_rng`, drawn by `Rng::gen`. Nothing is claimed of
/// its bytes.
#[verifier::external_body]
pub(crate) fn random_salt() -> (salt: Salt) {
    rand::Rng::gen::<Salt>(&mut rand::thread_rng())
}

} // verus!
