//! The answer to a poll.

use vstd::prelude::*;

verus! {

/// Whether a value is there yet.
#[derive(Debug, PartialEq)]
pub enum Poll<T> {
    /// The value is there.
    Ready(T),
    /// There is nothing yet; the caller will be woken.
    Pending,
}

} // verus!
