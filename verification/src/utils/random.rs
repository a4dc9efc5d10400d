use vstd::prelude::*;
use rand::Rng;

verus! {

/// Draws one byte from `rand::random::<u8>`. Nothing is stated of the value:
/// it comes from the thread-local generator.
#[verifier::external_body]
pub(crate) fn random_byte() -> (r: u8) {
    rand::random::<u8>()
}

/// Draws an index with `rand::thread_rng().gen_range(0..bound)`.
/// `gen_range` panics on an empty range, hence `bound > 0`; the draw itself
/// is random, so only its range is stated.
#[verifier::external_body]
pub(crate) fn random_index(bound: usize) -> (r: usize)
    requires
        bound > 0,
    ensures
        r < bound,
{
    rand::thread_rng().gen_range(0..bound)
}

/// Fills 32 bytes with independent draws of `random_byte`.
pub(crate) fn random_bytes_32() -> (r: [u8; 32])
    ensures
        r@.len() == 32,
{
    let mut ret: [u8; 32] = [0u8; 32];
    let mut i: usize = 0;
    while i < 32
        invariant
            i <= 32,
            ret@.len() == 32,
        decreases 32 - i,
    {
        ret[i] = random_byte();
        i = i + 1;
    }
    ret
}

} // verus!
