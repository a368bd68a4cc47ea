//! The integer hash behind the pseudo-random placement of wind particles.

use vstd::prelude::*;

verus! {

/// The 24-bit hash of `n`: a permuted congruential step (multiply by
/// 747796405 and add 2891336453, modulo 2^32), a shift by an amount taken
/// from the top four bits, a multiplication by 277803737, a final xor-shift
/// by 22, and the low 24 bits of the result.
pub open spec fn hash24(n: u32) -> u32 {
    let x1 = ((n as nat * 747796405 + 2891336453) % 0x1_0000_0000) as u32;
    let x2 = (x1 >> ((x1 >> 28u32) + 4u32)) ^ x1;
    let x3 = ((x2 as nat * 277803737) % 0x1_0000_0000) as u32;
    let x4 = (x3 >> 22u32) ^ x3;
    x4 & 0xff_ffffu32
}

/// The 24-bit hash of `n`; dividing it by `0xffffff` spreads it over the
/// unit interval.
pub fn hash24_of(n: u32) -> (r: u32)
    ensures
        r == hash24(n),
        r <= 0xff_ffff,
{
    let x = n.wrapping_mul(747796405).wrapping_add(2891336453);
    let top = x >> 28u32;
    assert(top <= 15) by (bit_vector)
        requires
            top == x >> 28u32,
    ;
    let x = (x >> (top + 4)) ^ x;
    let x = x.wrapping_mul(277803737);
    let x = (x >> 22u32) ^ x;
    let r = x & 0xff_ffff;
    assert(r <= 0xff_ffff) by (bit_vector)
        requires
            r == x & 0xff_ffffu32,
    ;
    r
}

} // verus!
