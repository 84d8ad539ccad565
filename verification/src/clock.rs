//! The clock that drives an animation.

use vstd::prelude::*;

verus! {

/// What becomes of the clock of an animation.
#[derive(Debug, PartialEq)]
#[must_use]
pub enum Command<T> {
    /// The clock goes on, or stays off.
    Keep,
    /// The clock is turned off.
    Stop,
    /// A new clock for this run takes the place of the present one.
    Start(T),
}

impl<T> Command<T> {
    /// The run that the clock drives after the command, if it drove `before`.
    pub open spec fn applied(self, before: Option<T>) -> Option<T> {
        match self {
            Command::Keep => before,
            Command::Stop => None,
            Command::Start(run) => Some(run),
        }
    }
}

} // verus!
