//! Source of randomness for maze carving and target placement.
use vstd::prelude::*;

verus! {

/// Relies on rand::random_range: a draw from `0..n` is uniform over that
/// range and in particular always below `n`; the range is nonempty, so the
/// call does not panic.
#[verifier::external_body]
pub fn random_below(n: usize) -> (r: usize)
    requires
        n > 0,
    ensures
        r < n,
{
    rand::random_range(0..n)
}

} // verus!
