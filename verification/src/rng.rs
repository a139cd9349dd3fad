//! Randomness from the operating system.

use vstd::prelude::*;

verus! {

/// `rand::RngCore::try_fill_bytes` on `rand::rngs::OsRng`: asks the
/// operating system's random source to overwrite `buf`. True when it did;
/// false when the operating system could not supply the bytes. Only the
/// length is stated: the bytes are random.
#[verifier::external_body]
pub(crate) fn fill_random(buf: &mut [u8]) -> (ok: bool)
    ensures
        final(buf)@.len() == old(buf)@.len(),
{
    rand::RngCore::try_fill_bytes(&mut rand::rngs::OsRng, buf).is_ok()
}

/// A random `u64`, or `None` when the operating system gave no random
/// bytes.
pub fn random_u64() -> (r: Option<u64>) {
    let mut b = [0u8; 8];
    if !fill_random(&mut b) {
        return None;
    }
    let mut v: u64 = 0;
    let mut i: usize = 0;
    while i < 8
        invariant
            i <= 8,
            b@.len() == 8,
        decreases 8 - i,
    {
        v = (v << 8u64) | (b[i] as u64);
        i = i + 1;
    }
    Some(v)
}

} // verus!
