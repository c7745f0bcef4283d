//! Integer sampling used by Poisson disc sampling.
use vstd::prelude::*;
use crate::rng::{GlibcRand, step};

verus! {

/// A sample index in `[min, max)`: `min + rand() % (max - min)`, drawing one
/// value from `rng`.
pub fn random_range(rng: &mut GlibcRand, min: usize, max: usize) -> (r: usize)
    requires
        old(rng).wf(),
        min < max,
        max <= i32::MAX,
    ensures
        final(rng).wf(),
        final(rng).words() == step(old(rng).words(), old(rng).front()),
        final(rng).front() == (old(rng).front() + 1) % 31,
        r == min + (step(old(rng).words(), old(rng).front())[old(rng).front()] as int / 2) % (
        (max - min) as int),
        min <= r < max,
{
    let x = rng.rand();
    (min as i32 + (x % (max as i32 - min as i32))) as usize
}

} // verus!
