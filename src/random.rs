use vstd::prelude::*;

verus! {

/// Draws an integer uniformly from `min..=max`.
///
/// Relies on `fastrand::i32` with an inclusive range: the value lies within
/// the range, and the call panics only on an empty range, which `requires`
/// leaves out.
#[verifier::external_body]
pub fn random_i32_between(min: i32, max: i32) -> (r: i32)
    requires
        min <= max,
    ensures
        min <= r <= max,
{
    fastrand::i32(min..=max)
}

} // verus!
