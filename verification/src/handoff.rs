//! What one non-blocking look at a handoff channel can find.

use vstd::prelude::*;

verus! {

/// The state in which a non-blocking receive found a one-slot handoff channel.
pub enum Handoff<T> {
    /// The work is still running: nothing was sent and the sender is alive.
    Pending,
    /// The work finished and this is its value.
    Ready(T),
    /// The sender is gone and never sent a value.
    Closed,
}

/// The handoff invariant is broken: the channel closed without a value.
#[derive(Clone, Copy, Debug, PartialEq, Eq)]
pub struct BrokenHandoff;

/// What a poll reports for a given channel state.
pub open spec fn poll_outcome<T>(found: Handoff<T>) -> Result<Option<T>, BrokenHandoff> {
    match found {
        Handoff::Pending => Ok(None),
        Handoff::Ready(value) => Ok(Some(value)),
        Handoff::Closed => Err(BrokenHandoff),
    }
}

impl<T> Handoff<T> {
    /// Turns the state found into the answer of a poll: a value when one has
    /// arrived, nothing while the work runs, an error when the task was lost.
    pub fn into_poll(self) -> (answer: Result<Option<T>, BrokenHandoff>)
        ensures
            answer == poll_outcome(self),
    {
        match self {
            Handoff::Pending => Ok(None),
            Handoff::Ready(value) => Ok(Some(value)),
            Handoff::Closed => Err(BrokenHandoff),
        }
    }
}

} // verus!
