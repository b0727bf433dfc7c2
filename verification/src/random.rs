//! The source of random draws.

use vstd::prelude::*;

verus! {

/// A draw from the thread's random number generator, by `rand::random` at the
/// type `u32`. Nothing is claimed of the value: callers are proved for every
/// draw.
#[verifier::external_body]
pub(crate) fn random_draw() -> (draw: u32) {
    rand::random::<u32>()
}

} // verus!
