//! The water-foam driver's random source: xorshift32, which matches the retail client's
//! distribution, not its stream.
use vstd::prelude::*;

verus! {

/// One xorshift32 step: `x ^= x << 13; x ^= x >> 17; x ^= x << 5`.
pub open spec fn xorshift32(x: u32) -> u32 {
    let a = x ^ ((x << 13u32) as u32);
    let b = a ^ (a >> 17u32);
    b ^ ((b << 5u32) as u32)
}

/// Advances the state one xorshift32 step and returns the new state.
pub fn next_u32(state: &mut u32) -> (r: u32)
    ensures
        r == xorshift32(*old(state)),
        *final(state) == r,
{
    let mut x = *state;
    x = x ^ (x << 13u32);
    x = x ^ (x >> 17u32);
    x = x ^ (x << 5u32);
    *state = x;
    x
}

/// A nonzero state never reaches zero, and zero is a fixed point: the generator must be seeded
/// with a nonzero state, and then never stalls.
pub proof fn lemma_xorshift_zero_iff_zero(x: u32)
    ensures
        (xorshift32(x) == 0) <==> (x == 0),
{
    assert(((x ^ ((x << 13u32) as u32)) ^ ((x ^ ((x << 13u32) as u32)) >> 17u32)) ^ ((((x ^ ((x
        << 13u32) as u32)) ^ ((x ^ ((x << 13u32) as u32)) >> 17u32)) << 5u32) as u32) == 0 <==> x
        == 0) by (bit_vector);
}

} // verus!
