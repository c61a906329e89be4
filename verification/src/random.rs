//! Random choices of the simulation, drawn from `rand`'s small generator.

use vstd::prelude::*;
use rand::Rng;
use rand::SeedableRng;
use rand::rngs::SmallRng;

verus! {

#[verifier::external_type_specification]
#[verifier::external_body]
pub struct ExSmallRng(SmallRng);

/// Calls `rand::Rng::gen_range` with the half-open range `low..high` on `u32`.
/// `gen_range` panics on an empty range, so `low < high` is required; the
/// contract claims only that the value lies in the range.
#[verifier::external_body]
pub(crate) fn gen_range_u32(rng: &mut SmallRng, low: u32, high: u32) -> (r: u32)
    requires
        low < high,
    ensures
        low <= r < high,
{
    rng.gen_range(low..high)
}

/// Calls `rand::Rng::gen_range` with the half-open range `low..high` on `usize`.
/// The contract claims only that the value lies in the range.
#[verifier::external_body]
pub(crate) fn gen_range_usize(rng: &mut SmallRng, low: usize, high: usize) -> (r: usize)
    requires
        low < high,
    ensures
        low <= r < high,
{
    rng.gen_range(low..high)
}

/// Calls `rand::Rng::gen_range` with the half-open range `low..high` on `i32`.
/// The contract claims only that the value lies in the range.
#[verifier::external_body]
pub(crate) fn gen_range_i32(rng: &mut SmallRng, low: i32, high: i32) -> (r: i32)
    requires
        low < high,
    ensures
        low <= r < high,
{
    rng.gen_range(low..high)
}

/// Calls `rand::SeedableRng::from_entropy` for a freshly seeded generator.
/// Nothing is claimed of the generator's state.
#[verifier::external_body]
pub(crate) fn new_random_generator() -> SmallRng {
    SmallRng::from_entropy()
}

/// True with chance one in `one_in`; never true when `one_in` is zero.
pub fn random_chance(rng: &mut SmallRng, one_in: u32) -> (r: bool)
    ensures
        one_in == 0 ==> !r,
        one_in == 1 ==> r,
{
    if one_in == 0 {
        return false;
    }
    gen_range_u32(rng, 0, one_in) == 0
}

/// A fair coin.
pub fn coin_flip(rng: &mut SmallRng) -> bool {
    gen_range_u32(rng, 0, 2) == 0
}

/// A colour with each channel drawn uniformly.
pub fn random_color(rng: &mut SmallRng) -> crate::model::Color {
    let red = gen_range_u32(rng, 0, 256);
    let green = gen_range_u32(rng, 0, 256);
    let blue = gen_range_u32(rng, 0, 256);
    crate::model::Color { red: red as u8, green: green as u8, blue: blue as u8 }
}

} // verus!
