//! The process-wide random source, behind two calls whose contracts say what
//! holds of every draw.
use rand::seq::SliceRandom;
use rand::Rng;
use vstd::prelude::*;

verus! {

/// Relies on rand's `thread_rng().gen_range(0..bound)`: a value of
/// `[0, bound)`. It panics on an empty range, which `requires` leaves out.
#[verifier::external_body]
pub(crate) fn random_below(bound: u32) -> (r: u32)
    requires
        bound > 0,
    ensures
        r < bound,
{
    rand::thread_rng().gen_range(0..bound)
}

/// Relies on rand's `SliceRandom::shuffle` over `thread_rng()`: it reorders
/// the slice by swaps, so the same values remain, each as often as before.
#[verifier::external_body]
pub(crate) fn shuffle_ports(v: &mut Vec<u16>)
    ensures
        final(v)@.to_multiset() == old(v)@.to_multiset(),
{
    v.shuffle(&mut rand::thread_rng());
}

} // verus!
