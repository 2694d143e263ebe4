use vstd::prelude::*;

verus! {

/// One xor-shift-by-33 step of the 64-bit finaliser.
pub open spec fn xorshift33(x: u64) -> u64 {
    x ^ (x >> 33u64)
}

/// The 64-bit finaliser behind the debris generator's hash: xor-shift,
/// multiply, xor-shift, multiply, xor-shift (all modulo 2^64).
pub open spec fn debris_mix(seed: u64) -> u64 {
    let x1 = xorshift33(seed);
    let x2 = x1.wrapping_mul(0xff51afd7ed558ccdu64);
    let x3 = xorshift33(x2);
    let x4 = x3.wrapping_mul(0xc4ceb9fe1a85ec53u64);
    xorshift33(x4)
}

/// The generator behind the radiation noise: one linear congruential step
/// followed by the same finaliser, kept to its low 52 bits.
pub open spec fn noise_mix(seed: u64) -> u64 {
    let x0 = seed.wrapping_mul(6364136223846793005u64).wrapping_add(1442695040888963407u64);
    let x1 = ((x0 >> 33u64) ^ x0).wrapping_mul(0xff51afd7ed558ccdu64);
    let x2 = ((x1 >> 33u64) ^ x1).wrapping_mul(0xc4ceb9fe1a85ec53u64);
    ((x2 >> 33u64) ^ x2) & 0x000F_FFFF_FFFF_FFFFu64
}

/// Hash bits of `seed` for the debris generator; dividing by `u64::MAX`
/// gives a number in `[0, 1]`.
pub fn simple_hash_bits(seed: u64) -> (x: u64)
    ensures
        x == debris_mix(seed),
{
    let mut x = seed;
    x ^= x >> 33;
    x = x.wrapping_mul(0xff51afd7ed558ccd);
    x ^= x >> 33;
    x = x.wrapping_mul(0xc4ceb9fe1a85ec53);
    x ^= x >> 33;
    x
}

/// Low 52 hash bits of `seed` for the radiation noise; dividing by 2^52
/// gives a number in `[0, 1)`.
pub fn pseudo_random_bits(seed: u64) -> (x: u64)
    ensures
        x == noise_mix(seed),
        x < 0x0010_0000_0000_0000u64,
{
    let x = seed.wrapping_mul(6364136223846793005).wrapping_add(1442695040888963407);
    let x = ((x >> 33) ^ x).wrapping_mul(0xff51afd7ed558ccd);
    let x = ((x >> 33) ^ x).wrapping_mul(0xc4ceb9fe1a85ec53);
    let x = (x >> 33) ^ x;
    proof {
        assert(x & 0x000F_FFFF_FFFF_FFFFu64 <= 0x000F_FFFF_FFFF_FFFFu64) by (bit_vector);
    }
    x & 0x000F_FFFF_FFFF_FFFF
}

} // verus!
