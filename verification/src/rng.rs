//! Trusted access to the process-wide random number generator.

use rand::Rng;
use vstd::prelude::*;

verus! {

/// `rand::rngs::ThreadRng` declared as an opaque type for Verus.
#[verifier::external_type_specification]
#[verifier::external_body]
pub struct ExThreadRng(rand::rngs::ThreadRng);

/// Relies on rand::thread_rng: returns a handle to the thread-local
/// generator.  Nothing is assumed about the values it will produce.
#[verifier::external_body]
pub(crate) fn thread_rng() -> rand::rngs::ThreadRng {
    rand::thread_rng()
}

/// Relies on rand::Rng::gen_range: returns a value drawn from the given
/// range.  The range `0..n` is nonempty, so the call does not panic, and
/// whatever value comes back lies below `n`.
#[verifier::external_body]
pub(crate) fn gen_index(rng: &mut rand::rngs::ThreadRng, n: usize) -> (r: usize)
    requires
        n >= 1,
    ensures
        r < n,
{
    rng.gen_range(0..n)
}

} // verus!
