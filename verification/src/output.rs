//! The XSH-RR output permutation: xorshift the high bits of the
//! 64-bit state down, truncate to 32 bits, then rotate right by the
//! top five bits of the state.

use vstd::prelude::*;

verus! {

/// Rotate a 32-bit word right by `n` positions.
pub open spec fn rotr32(x: u32, n: u32) -> u32
    recommends
        n < 32,
{
    if n == 0 {
        x
    } else {
        (x >> n) | (x << ((32 - n) as u32))
    }
}

/// The XSH-RR transform of a pre-step state: bits [27..59) of
/// `(state >> 18) ^ state`, rotated right by `state >> 59`.
pub open spec fn xsh_rr(state: u64) -> u32 {
    rotr32((((state >> 18) ^ state) >> 27) as u32, (state >> 59) as u32)
}

/// Executable rotation, equal to the specification `rotr32`.
pub(crate) fn rotr32_exec(x: u32, n: u32) -> (r: u32)
    requires
        n < 32,
    ensures
        r == rotr32(x, n),
{
    if n == 0 {
        x
    } else {
        (x >> n) | (x << (32 - n))
    }
}

/// Executable XSH-RR transform, equal to the specification `xsh_rr`.
pub(crate) fn xsh_rr_exec(state: u64) -> (r: u32)
    ensures
        r == xsh_rr(state),
{
    let rot = (state >> 59) as u32;
    proof {
        assert(state >> 59 < 32) by (bit_vector);
    }
    let xored = ((state >> 18) ^ state) >> 27;
    rotr32_exec(#[verifier::truncate] (xored as u32), rot)
}

} // verus!
