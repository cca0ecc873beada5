use vstd::prelude::*;

verus! {

/// Largest exclusive upper bound accepted by [`RandomNumberGenerator::uniform`].
/// The backing generator scales a 32-bit draw through `f64` arithmetic, and
/// only for bounds up to this size does the scaled result provably stay
/// within one step of the requested range.
pub const UNIFORM_MAX: usize = 0x1000_0000;

/// Source of uniformly distributed integers, backed by the host crate's
/// global pseudo-random generator.
#[derive(Debug)]
pub struct RandomNumberGenerator {}

/// Relies on `macroquad::rand::gen_range` (the `quad_rand` generator): it maps
/// a 32-bit draw `d` to `lower + (upper - lower) * d / 2^32` through `f64`
/// arithmetic and truncates back to an integer. For
/// `0 <= lower < upper <= 2^28` every rounding error is smaller than one
/// step of the range, so the result lies in `[lower, upper]` — the upper
/// bound itself can be hit when rounding lands on it, and no other value
/// outside the range can appear.
#[verifier::external_body]
fn gen_range_usize(lower: usize, upper: usize) -> (r: usize)
    requires
        lower < upper,
        upper <= UNIFORM_MAX,
    ensures
        lower <= r <= upper,
{
    macroquad::rand::gen_range(lower, upper)
}

impl RandomNumberGenerator {
    /// Draws a value from the half-open range `[lower, upper)`. The rare
    /// draw that the backing generator rounds up to `upper` is folded onto
    /// the largest value of the range.
    pub fn uniform(&mut self, lower: usize, upper: usize) -> (r: usize)
        requires
            lower < upper,
            upper <= UNIFORM_MAX,
        ensures
            lower <= r < upper,
    {
        let v = gen_range_usize(lower, upper);
        if v >= upper {
            upper - 1
        } else {
            v
        }
    }
}

} // verus!
