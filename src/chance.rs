use vstd::prelude::*;
use rand::Rng;
use crate::geometry::Point;

verus! {

#[verifier::external_type_specification]
#[verifier::external_body]
pub struct ExThreadRng(rand::rngs::ThreadRng);

/// Relies on rand::thread_rng: a handle on this thread's generator.
#[verifier::external_body]
pub(crate) fn fresh_rng() -> rand::rngs::ThreadRng {
    rand::thread_rng()
}

/// Relies on rand::Rng::gen_ratio: true with chance `numerator / denominator`;
/// never true for a zero numerator, always true for a numerator equal to the
/// denominator.
#[verifier::external_body]
pub(crate) fn draw_ratio(rng: &mut rand::rngs::ThreadRng, numerator: u32, denominator: u32) -> (r:
    bool)
    requires
        0 < denominator,
        numerator <= denominator,
    ensures
        numerator == 0 ==> !r,
        numerator == denominator ==> r,
{
    rng.gen_ratio(numerator, denominator)
}

/// Relies on rand::Rng::gen_range over `0..n`: an index below `n`.
#[verifier::external_body]
pub(crate) fn draw_below(rng: &mut rand::rngs::ThreadRng, n: usize) -> (r: usize)
    requires
        0 < n,
    ensures
        r < n,
{
    rng.gen_range(0..n)
}

/// One of `points` drawn at random, or `default` when there is none.
pub fn get_random_element_from(
    rng: &mut rand::rngs::ThreadRng,
    points: &Vec<Point>,
    default: Point,
) -> (r: Point)
    ensures
        points@.len() == 0 ==> r == default,
        points@.len() > 0 ==> points@.contains(r),
{
    if points.len() == 0 {
        default
    } else {
        let i = draw_below(rng, points.len());
        proof {
            assert(points@[i as int] == points@[i as int]);
        }
        points[i]
    }
}

} // verus!
