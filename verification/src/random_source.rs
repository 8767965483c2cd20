//! The engine's only source of randomness, kept behind one tiny wrapper.

use vstd::prelude::*;

verus! {

/// Relies on rand::random_range over the thread-local generator: it returns
/// a value uniformly drawn from the given non-empty range and panics only
/// on an empty range.  Nothing beyond the range bound is assumed, since the
/// result depends on generator state.
#[verifier::external_body]
pub fn rand_below(n: usize) -> (r: usize)
    requires
        n >= 1,
    ensures
        r < n,
{
    rand::random_range(0..n)
}

} // verus!
