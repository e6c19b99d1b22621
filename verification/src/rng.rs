//! The library's single source of randomness.

use vstd::prelude::*;

verus! {

/// Relies on `rand::random_range`: a draw from the thread-local generator,
/// uniform over `[0, n)`; the range must not be empty.
#[verifier::external_body]
pub(crate) fn rand_below(n: usize) -> (r: usize)
    requires
        1 <= n,
    ensures
        r < n,
{
    rand::random_range(0..n)
}

} // verus!
