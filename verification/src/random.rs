use rand::seq::SliceRandom;
use vstd::prelude::*;

verus! {

/// One whole, in the thousandths in which probabilities, velocities and
/// coefficients are counted.
pub const UNIT: u32 = 1000;

/// Calls `rand::random_ratio`, which draws a boolean that is true with
/// probability `numerator / denominator` from the thread's generator.
///
/// Trusted: the draw is always true when the two numbers are equal and always
/// false when the numerator is zero. It panics on a zero denominator or a
/// ratio above one, which the precondition excludes.
#[verifier::external_body]
pub(crate) fn random_ratio(numerator: u32, denominator: u32) -> (hit: bool)
    requires
        denominator > 0,
        numerator <= denominator,
    ensures
        numerator == denominator ==> hit,
        numerator == 0 ==> !hit,
{
    rand::random_ratio(numerator, denominator)
}

/// Calls `rand::random_range` on the half-open range `low..high`.
///
/// Trusted: the number drawn lies in the range. It panics on an empty range,
/// which the precondition excludes.
#[verifier::external_body]
pub(crate) fn random_range(low: usize, high: usize) -> (n: usize)
    requires
        low < high,
    ensures
        low <= n < high,
{
    rand::random_range(low..high)
}

/// Calls `rand::random` for a signed byte. Nothing is claimed of the byte drawn.
#[verifier::external_body]
pub(crate) fn random_byte() -> i8 {
    rand::random::<i8>()
}

/// Calls `shuffle` of `rand::seq::SliceRandom` with the thread's generator.
///
/// Trusted: shuffling only exchanges entries, so the same entries are there
/// afterwards, each as often as before.
#[verifier::external_body]
pub(crate) fn shuffle(cells: &mut Vec<(usize, usize)>)
    ensures
        final(cells)@.to_multiset() == old(cells)@.to_multiset(),
{
    cells.shuffle(&mut rand::rng());
}

/// Whether `outcome` can come out of a draw that is true with a probability of
/// `per_mille` thousandths: a probability of zero never hits and one of a
/// whole or more always does.
pub open spec fn can_draw(per_mille: u32, outcome: bool) -> bool {
    &&& per_mille >= UNIT ==> outcome
    &&& per_mille == 0 ==> !outcome
}

/// Draws a boolean that is true with a probability of `per_mille` thousandths.
/// A probability above one whole counts as one whole.
pub fn chance(per_mille: u32) -> (hit: bool)
    ensures
        can_draw(per_mille, hit),
{
    let clamped: u32 = if per_mille > UNIT {
        UNIT
    } else {
        per_mille
    };
    random_ratio(clamped, UNIT)
}

} // verus!
