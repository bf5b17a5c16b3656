//! The random draw that decides how many layers a new value joins.

use vstd::prelude::*;

verus! {

/// Relies on rand::random_range over `0..n`: a value of the half-open range
/// drawn from the thread-local generator. It panics only on an empty range,
/// which `requires` leaves out.
#[verifier::external_body]
fn random_below(n: usize) -> (r: usize)
    requires
        0 < n,
    ensures
        r < n,
{
    rand::random_range(0..n)
}

/// Draws a height for a new tower: a number of layers in `1..=max`.
pub fn draw_height(max: usize) -> (h: usize)
    requires
        0 < max,
    ensures
        1 <= h <= max,
{
    1 + random_below(max)
}

} // verus!
