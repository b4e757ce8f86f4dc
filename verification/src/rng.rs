use vstd::prelude::*;

verus! {

/// Relies on rand::random_range over `0..n`: a uniform draw from a non-empty
/// range, so the result is strictly below the bound.
#[verifier::external_body]
pub(crate) fn random_below(n: usize) -> (r: usize)
    requires
        n > 0,
    ensures
        r < n,
{
    rand::random_range(0..n)
}

/// Relies on rand::random_range over `0..n`: a uniform draw from a non-empty
/// range, so the result is strictly below the bound.
#[verifier::external_body]
pub(crate) fn random_below_u64(n: u64) -> (r: u64)
    requires
        n > 0,
    ensures
        r < n,
{
    rand::random_range(0u64..n)
}

} // verus!
