//! Hashing of lattice coordinates for the noise functions, one lane at a time.

use vstd::prelude::*;

verus! {

/// The multiplier the hash mixes with.
pub const HASH_MULTIPLIER: i32 = 0x27d4eb2d;

/// The hash of a combined lattice value: multiplied by the constant with wrap-around, then
/// xored with itself shifted right (arithmetically) by 15.
pub open spec fn mix(h: i32) -> i32 {
    let m = h.wrapping_mul(HASH_MULTIPLIER);
    (m >> 15i32) ^ m
}

/// [mix], computed.
fn mix_lane(h: i32) -> (r: i32)
    ensures
        r == mix(h),
{
    let m = h.wrapping_mul(HASH_MULTIPLIER);
    (m >> 15i32) ^ m
}

/// The hash of each lane of a 2D lattice point with the seed: seed, x and y are xored, then
/// mixed.
pub fn hash2d(seed: &[i32], i: &[i32], j: &[i32]) -> (r: Vec<i32>)
    requires
        i.len() == seed.len(),
        j.len() == seed.len(),
    ensures
        r.len() == seed.len(),
        forall|k: int| 0 <= k < seed.len() ==> r[k] == mix(seed[k] ^ i[k] ^ j[k]),
{
    let mut r: Vec<i32> = Vec::new();
    let mut k: usize = 0;
    while k < seed.len()
        invariant
            k <= seed.len(),
            i.len() == seed.len(),
            j.len() == seed.len(),
            r.len() == k,
            forall|m: int| 0 <= m < k ==> r[m] == mix(seed[m] ^ i[m] ^ j[m]),
        decreases seed.len() - k,
    {
        r.push(mix_lane(seed[k] ^ i[k] ^ j[k]));
        k += 1;
    }
    r
}

/// The hash of each lane of a 3D lattice point with the seed: seed, x, y and z are xored,
/// then mixed.
pub fn hash3d(seed: &[i32], i: &[i32], j: &[i32], k: &[i32]) -> (r: Vec<i32>)
    requires
        i.len() == seed.len(),
        j.len() == seed.len(),
        k.len() == seed.len(),
    ensures
        r.len() == seed.len(),
        forall|n: int| 0 <= n < seed.len() ==> r[n] == mix(seed[n] ^ i[n] ^ j[n] ^ k[n]),
{
    let mut r: Vec<i32> = Vec::new();
    let mut n: usize = 0;
    while n < seed.len()
        invariant
            n <= seed.len(),
            i.len() == seed.len(),
            j.len() == seed.len(),
            k.len() == seed.len(),
            r.len() == n,
            forall|m: int| 0 <= m < n ==> r[m] == mix(seed[m] ^ i[m] ^ j[m] ^ k[m]),
        decreases seed.len() - n,
    {
        r.push(mix_lane(seed[n] ^ i[n] ^ j[n] ^ k[n]));
        n += 1;
    }
    r
}

} // verus!
