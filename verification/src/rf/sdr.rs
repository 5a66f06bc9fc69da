//! Deterministic noise of the synthetic receiver.

use vstd::prelude::*;

verus! {

/// One step of the 64-bit xorshift generator with shifts 13, 7 and 17.
pub open spec fn xorshift(x: u64) -> u64 {
    let a = x ^ (x << 13u64);
    let b = a ^ (a >> 7u64);
    b ^ (b << 17u64)
}

/// The low 32 bits of a number, read as a signed integer.
pub open spec fn low_signed(x: u64) -> int {
    let low = x as int % 0x1_0000_0000;
    if low < 0x8000_0000 {
        low
    } else {
        low - 0x1_0000_0000
    }
}

/// Noise of sample number `x`, between `i32::MIN` and `i32::MAX`: the low half
/// of one xorshift step.
pub fn pseudo_noise(x: u64) -> (noise: i32)
    ensures
        noise == low_signed(xorshift(x)),
{
    let a: u64 = x ^ (x << 13u64);
    let b: u64 = a ^ (a >> 7u64);
    let c: u64 = b ^ (b << 17u64);
    let low: u64 = c % 0x1_0000_0000;
    if low < 0x8000_0000 {
        low as i32
    } else {
        (low as i64 - 0x1_0000_0000) as i32
    }
}

/// The low half of a number is the number up to a multiple of 2^32, within the range
/// of a signed integer of 32 bits.
pub proof fn law_low_half_is_the_number_without_its_high_half(x: u64)
    ensures
        (x - low_signed(x)) % 0x1_0000_0000 == 0,
        i32::MIN <= low_signed(x) <= i32::MAX,
{
}

/// A step is linear, so the steps of two numbers differ as the step of their
/// difference, bit by bit; and it has an inverse, so no two numbers share a step.
pub proof fn law_step_is_linear(x: u64, y: u64)
    ensures
        xorshift(x ^ y) == xorshift(x) ^ xorshift(y),
        xorshift(0) == 0,
        xorshift(x) == xorshift(y) ==> x == y,
{
    assert(({
        let z = x ^ y;
        let a = z ^ (z << 13u64);
        let b = a ^ (a >> 7u64);
        b ^ (b << 17u64)
    }) == ({
        let a = x ^ (x << 13u64);
        let b = a ^ (a >> 7u64);
        b ^ (b << 17u64)
    }) ^ ({
        let a = y ^ (y << 13u64);
        let b = a ^ (a >> 7u64);
        b ^ (b << 17u64)
    })) by (bit_vector);
    let s = xorshift(x);
    let z = x ^ y;
    let a = z ^ (z << 13u64);
    let b = a ^ (a >> 7u64);
    assert((b ^ (b << 17u64) == 0 ==> b == 0) && (a ^ (a >> 7u64) == 0 ==> a == 0) && (z ^ (z
        << 13u64) == 0 ==> z == 0) && (z == 0 ==> z ^ (z << 13u64) == 0) && (a == 0 ==> a ^ (a
        >> 7u64) == 0) && (b == 0 ==> b ^ (b << 17u64) == 0) && (x ^ x == 0) && (0u64 ^ (0u64
        << 13u64) == 0) && (0u64 ^ (0u64 >> 7u64) == 0) && (0u64 ^ (0u64 << 17u64) == 0) && (x ^ y
        == 0 ==> x == y) && s ^ s == 0) by (bit_vector);
}

} // verus!
