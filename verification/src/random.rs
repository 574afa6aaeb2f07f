//! Pseudo random numbers and uniform sampling.

use vstd::prelude::*;

use crate::utils::{SEED_INCREMENT, mixed, mixed_output, next_seed};

verus! {

/// A pseudo random number generator.
#[derive(Default, Debug, Clone)]
pub struct Rng {
    seed: u64,
}

/// The `usize` drawn when the seed is `seed`.
pub open spec fn drawn_usize(seed: u64) -> usize {
    mixed_output(next_seed(seed)) as usize
}

impl Rng {
    /// The current seed.
    pub closed spec fn seed(&self) -> u64 {
        self.seed
    }

    pub fn new(seed: u64) -> (r: Rng)
        ensures
            r.seed() == seed,
    {
        Rng { seed }
    }

    /// Draw a random `usize`.
    pub fn next_usize(&mut self) -> (r: usize)
        ensures
            final(self).seed() == next_seed(old(self).seed()),
            r == drawn_usize(old(self).seed()),
    {
        let seed = self.seed.wrapping_add(SEED_INCREMENT);
        self.seed = seed;
        mixed(seed) as usize
    }

    /// Draw a random `u32`: the low bits of the next `usize`.
    pub fn next_u32(&mut self) -> (r: u32)
        ensures
            final(self).seed() == next_seed(old(self).seed()),
            r == drawn_usize(old(self).seed()) as u32,
    {
        self.next_usize() as u32
    }

    /// Draw a random `i32`: the low bits of the next `usize`.
    pub fn next_i32(&mut self) -> (r: i32)
        ensures
            final(self).seed() == next_seed(old(self).seed()),
            r == drawn_usize(old(self).seed()) as i32,
    {
        self.next_usize() as i32
    }
}

/// The integer types that can be sampled uniformly.
pub trait UniformType: Copy {

}

impl UniformType for u32 {

}

impl UniformType for i32 {

}

impl UniformType for usize {

}

/// A uniform distribution over the integers `start..=start + range`.
#[derive(Clone)]
pub struct UniformDistribution<T> {
    start: T,
    range: T,
}

impl<T: UniformType> UniformDistribution<T> {
    /// The lowest value.
    pub closed spec fn start(&self) -> T {
        self.start
    }

    /// The distance from the lowest to the highest value.
    pub closed spec fn range(&self) -> T {
        self.range
    }
}

impl UniformDistribution<u32> {
    /// The uniform distribution over `low..=high`.
    pub fn new(low: u32, high: u32) -> (r: UniformDistribution<u32>)
        requires
            low <= high,
        ensures
            r.start() == low,
            r.range() == high - low,
    {
        UniformDistribution { start: low, range: high - low }
    }

    /// Draw a value. The range must leave room for one more value.
    pub fn sample(&self, rng: &mut Rng) -> (r: u32)
        requires
            self.range() < u32::MAX,
            self.start() + self.range() <= u32::MAX,
        ensures
            final(rng).seed() == next_seed(old(rng).seed()),
            r == self.start() + ((drawn_usize(old(rng).seed()) as u32) as int) % (self.range() + 1),
            self.start() <= r <= self.start() + self.range(),
    {
        let v = rng.next_u32();
        self.start + v % (self.range + 1)
    }
}

impl UniformDistribution<i32> {
    /// The uniform distribution over `low..=high`. The difference must fit in an `i32`.
    pub fn new(low: i32, high: i32) -> (r: UniformDistribution<i32>)
        requires
            low <= high,
            high - low <= i32::MAX,
        ensures
            r.start() == low,
            r.range() == high - low,
    {
        UniformDistribution { start: low, range: high - low }
    }

    /// Draw a value from the absolute value of the next `i32`. The range must leave room for
    /// one more value, and the drawn `i32` must have an absolute value.
    pub fn sample(&self, rng: &mut Rng) -> (r: i32)
        requires
            0 <= self.range() < i32::MAX,
            self.start() + self.range() <= i32::MAX,
            drawn_usize(old(rng).seed()) as i32 != i32::MIN,
        ensures
            final(rng).seed() == next_seed(old(rng).seed()),
            r == self.start() + abs_i32(drawn_usize(old(rng).seed()) as i32) % (self.range() + 1),
            self.start() <= r <= self.start() + self.range(),
    {
        let v = rng.next_i32();
        let a = if v < 0 { -v } else { v };
        self.start + a % (self.range + 1)
    }
}

/// The absolute value of an `i32`, as an integer.
pub open spec fn abs_i32(v: i32) -> int {
    if v < 0 { -v } else { v as int }
}

impl UniformDistribution<usize> {
    /// The uniform distribution over `low..=high`.
    pub fn new(low: usize, high: usize) -> (r: UniformDistribution<usize>)
        requires
            low <= high,
        ensures
            r.start() == low,
            r.range() == high - low,
    {
        UniformDistribution { start: low, range: high - low }
    }

    /// Draw a value. The range must leave room for one more value.
    pub fn sample(&self, rng: &mut Rng) -> (r: usize)
        requires
            self.range() < usize::MAX,
            self.start() + self.range() <= usize::MAX,
        ensures
            final(rng).seed() == next_seed(old(rng).seed()),
            r == self.start() + (drawn_usize(old(rng).seed()) as int) % (self.range() + 1),
            self.start() <= r <= self.start() + self.range(),
    {
        let v = rng.next_usize();
        self.start + v % (self.range + 1)
    }
}

/// Chooses elements of a slice uniformly.
pub struct Choose<'a, T> {
    slice: &'a [T],
    range: UniformDistribution<usize>,
}

impl<'a, T> Choose<'a, T> {
    /// The elements chosen from.
    pub closed spec fn elements(&self) -> Seq<T> {
        self.slice@
    }

    /// The elements are chosen by index from the whole slice.
    pub closed spec fn wf(&self) -> bool {
        &&& 0 < self.slice@.len() <= usize::MAX
        &&& self.range.start() == 0
        &&& self.range.range() == self.slice@.len() - 1
    }

    /// Choose from a slice, which must not be empty.
    pub fn new(slice: &'a [T]) -> (r: Choose<'a, T>)
        requires
            slice@.len() > 0,
        ensures
            r.wf(),
            r.elements() == slice@,
    {
        let n = slice.len();
        Choose { slice, range: UniformDistribution::<usize>::new(0, n - 1) }
    }

    /// An endless stream of elements chosen with the generator.
    pub fn iter(&'a self, rng: &'a mut Rng) -> (r: ChooseIter<'a, T>)
        requires
            self.wf(),
        ensures
            r.choose == self,
            *r.rng == *old(rng),
            *final(rng) == *final(r.rng),
    {
        ChooseIter { choose: self, rng }
    }

    /// The element at the index drawn from the generator.
    pub fn sample(&self, rng: &mut Rng) -> (r: &'a T)
        requires
            self.wf(),
        ensures
            final(rng).seed() == next_seed(old(rng).seed()),
            *r == self.elements()[(drawn_usize(old(rng).seed()) as int) % (self.elements().len() as int)],
    {
        let index = self.range.sample(rng);
        &self.slice[index]
    }
}

/// An endless stream of elements of a [Choose].
pub struct ChooseIter<'a, T> {
    pub choose: &'a Choose<'a, T>,
    pub rng: &'a mut Rng,
}

impl<'a, T> ChooseIter<'a, T> {
    /// The next chosen element; there always is one.
    pub fn next(&mut self) -> (r: Option<&'a T>)
        requires
            old(self).choose.wf(),
        ensures
            final(self).choose == old(self).choose,
            (*final(self).rng).seed() == next_seed((*old(self).rng).seed()),
            r == Some(&old(self).choose.elements()[(drawn_usize((*old(self).rng).seed()) as int)
                % (old(self).choose.elements().len() as int)]),
    {
        Some(self.choose.sample(self.rng))
    }
}

} // verus!
