//! The calls that leave this crate: the random source and the processor count.
//!
//! Nothing in these functions is proved. Their contracts state no more than
//! the outside functions are known to do.

use vstd::prelude::*;

verus! {

/// Draws one word from `rand::random`, which takes it from the thread-local
/// generator. Every word can come back, so nothing is claimed of the result.
#[verifier::external_body]
pub(crate) fn random_usize() -> usize {
    rand::random::<usize>()
}

/// Asks `num_cpus::get` for the number of logical processors that this
/// process may use. Its documentation promises one at least, but its source
/// does not bound the count on every path, and the number depends on the
/// machine: nothing is claimed of it, and the caller takes zero for one.
#[verifier::external_body]
pub(crate) fn available_cpus() -> usize {
    num_cpus::get()
}

} // verus!
