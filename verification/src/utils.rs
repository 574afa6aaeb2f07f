//! A small, fast pseudo random number generator.

use vstd::prelude::*;

verus! {

/// The amount the seed advances by with each number drawn.
pub const SEED_INCREMENT: u64 = 0x2d35_8dcc_aa6c_78a5;

/// The constant the seed is mixed with.
pub const SEED_MIX: u64 = 0x8bb8_4b93_962e_acc9;

/// The seed after drawing one number.
pub open spec fn next_seed(seed: u64) -> u64 {
    ((seed + SEED_INCREMENT) % 0x1_0000_0000_0000_0000) as u64
}

/// The 64 bits drawn from an already advanced seed: the two halves of the 128-bit product of
/// the seed and the mixed seed, xored.
pub open spec fn mixed_output(seed: u64) -> u64 {
    let t = (seed as u128 * (seed ^ SEED_MIX) as u128) as u128;
    (t as u64) ^ ((t >> 64u128) as u64)
}

/// The product used by [mixed_output], computed without overflow.
pub fn mixed(seed: u64) -> (r: u64)
    ensures
        r == mixed_output(seed),
{
    let a = seed as u128;
    let b = (seed ^ SEED_MIX) as u128;
    assert(a * b <= u128::MAX) by (nonlinear_arith)
        requires
            a <= u64::MAX,
            b <= u64::MAX,
    ;
    let t: u128 = a * b;
    (t as u64) ^ ((t >> 64u128) as u64)
}

/// A pseudo random number generator.
#[derive(Default, Debug, Clone)]
pub struct Rng {
    seed: u64,
}

impl Rng {
    /// The current seed.
    pub closed spec fn seed(&self) -> u64 {
        self.seed
    }

    pub fn new(seed: u64) -> (r: Rng)
        ensures
            r.seed() == seed,
    {
        Rng { seed }
    }

    /// Draw 32 random bits.
    pub fn next_u32(&mut self) -> (r: u32)
        ensures
            final(self).seed() == next_seed(old(self).seed()),
            r == mixed_output(next_seed(old(self).seed())) as u32,
    {
        let seed = self.seed.wrapping_add(SEED_INCREMENT);
        self.seed = seed;
        mixed(seed) as u32
    }
}

} // verus!
