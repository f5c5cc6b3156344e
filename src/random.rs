//! The random draws the generator makes, through `rand`.

use rand::rngs::StdRng;
use vstd::prelude::*;

verus! {

#[verifier::external_type_specification]
#[verifier::external_body]
pub struct ExStdRng(StdRng);

/// Relies on `rand::Rng::gen_ratio`: a draw that is true with chance
/// `numerator` in `denominator`. Its documentation guarantees `false` for a
/// zero numerator and `true` when numerator and denominator are equal; it
/// panics on a zero denominator or a numerator above the denominator.
#[verifier::external_body]
pub(crate) fn draw_ratio(rng: &mut StdRng, numerator: u32, denominator: u32) -> (r: bool)
    requires
        0 < denominator,
        numerator <= denominator,
    ensures
        numerator == 0 ==> !r,
        numerator == denominator ==> r,
{
    rand::Rng::gen_ratio(rng, numerator, denominator)
}

/// Relies on `rand::Rng::gen_range` over `low..high` for `usize`: a value
/// drawn from that half-open range. It panics on an empty range.
#[verifier::external_body]
pub(crate) fn draw_usize(rng: &mut StdRng, low: usize, high: usize) -> (r: usize)
    requires
        low < high,
    ensures
        low <= r < high,
{
    rand::Rng::gen_range(rng, low..high)
}

/// Relies on `rand::Rng::gen_range` over `low..high` for `i32`: a value
/// drawn from that half-open range. It panics on an empty range.
#[verifier::external_body]
pub(crate) fn draw_i32(rng: &mut StdRng, low: i32, high: i32) -> (r: i32)
    requires
        low < high,
    ensures
        low <= r < high,
{
    rand::Rng::gen_range(rng, low..high)
}

} // verus!
