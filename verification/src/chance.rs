//! The one source of chance the engine draws on.

use rand::Rng;
use vstd::prelude::*;

verus! {

/// Draws an index below `n` from the thread-local generator of `rand`.
///
/// Calls `rand::thread_rng().gen_range(0..n)`. That call panics on an empty
/// range, hence `n > 0`; for a non-empty range it returns a member of the
/// range, which is all that is claimed here. Two draws need not agree.
#[verifier::external_body]
pub(crate) fn random_below(n: usize) -> (k: usize)
    requires
        n > 0,
    ensures
        k < n,
{
    rand::thread_rng().gen_range(0..n)
}

} // verus!
