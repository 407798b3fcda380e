//! Background computations for a frame-based application loop.
//!
//! A unit of work runs on a worker pool and hands its single result over a
//! one-slot channel. The consumer side never blocks: once per tick it polls
//! every outstanding handle, takes the values that have arrived and keeps the
//! handles that are still waiting.

pub mod handoff;
pub mod ledger;
pub mod pollable;
pub mod registry;
pub mod settle;

use crate::handoff::Handoff;
use crate::ledger::{opening, sound, step, Step};
use crate::registry::{drained, BackgroundTasks, BrokenDrain, Outstanding};
use crate::settle::{broken, delivered, retained, reversed};
use std::marker::PhantomData;
use vstd::prelude::*;

verus! {

/// Makes one result type computable in the background.
pub struct BackgroundComputePlugin<T>(PhantomData<T>);

/// Names the per-tick check of one result type, so that consumers can order
/// themselves after it.
pub struct BackgroundComputeCheck<T>(PhantomData<T>);

/// The notification that a background computation has finished, with its
/// value.
pub struct BackgroundComputeComplete<T>(pub T) where T: Send + Sync + 'static;

impl<T> Default for BackgroundComputePlugin<T> {
    fn default() -> (plugin: Self) {
        Self(PhantomData)
    }
}

impl<T> BackgroundComputePlugin<T> {
    /// The registry with which the result type starts: no handle in it.
    pub fn registry(&self) -> (tasks: BackgroundTasks<T>)
        ensures
            tasks@ == Seq::<Outstanding<T>>::empty(),
            tasks.ledger() == opening(Seq::empty(), 0),
    {
        BackgroundTasks::new()
    }
}

impl<T> Default for BackgroundComputeCheck<T> {
    fn default() -> (set: Self) {
        Self(PhantomData)
    }
}

impl<T> BackgroundComputeCheck<T> {
    /// The name of the check of `T`.
    pub fn new() -> (set: Self) {
        Self(PhantomData)
    }
}

impl<T> Clone for BackgroundComputeCheck<T> {
    fn clone(&self) -> (copy: Self)
        ensures
            copy == *self,
    {
        Self(PhantomData)
    }
}

impl<T> PartialEq for BackgroundComputeCheck<T> {
    fn eq(&self, other: &Self) -> (same: bool) {
        true
    }
}

impl<T> Eq for BackgroundComputeCheck<T> {

}

impl<T> std::hash::Hash for BackgroundComputeCheck<T> {
    fn hash<H: std::hash::Hasher>(&self, state: &mut H) {
    }
}

impl<T> vstd::std_specs::cmp::PartialEqSpecImpl for BackgroundComputeCheck<T> {
    open spec fn obeys_eq_spec() -> bool {
        true
    }

    open spec fn eq_spec(&self, other: &Self) -> bool {
        true
    }
}

/// One notification for each value, in the order of the values.
pub open spec fn announced<T: Send + Sync + 'static>(values: Seq<T>) -> Seq<
    BackgroundComputeComplete<T>,
> {
    values.map_values(|value: T| BackgroundComputeComplete(value))
}

/// Wraps each value into its notification.
pub fn announce<T: Send + Sync + 'static>(values: Vec<T>) -> (events: Vec<
    BackgroundComputeComplete<T>,
>)
    ensures
        events@ == announced(values@),
{
    let total = values.len();
    let mut left = reversed(values);
    let mut events: Vec<BackgroundComputeComplete<T>> = Vec::new();
    let mut seen: usize = 0;
    while seen < total
        invariant
            total == values@.len(),
            seen <= total,
            left@.len() == total - seen,
            forall|i: int| 0 <= i < total - seen ==> left@[i] == values@[total - 1 - i],
            events@.len() == seen,
            forall|i: int| 0 <= i < seen ==> events@[i] == BackgroundComputeComplete(values@[i]),
        decreases total - seen,
    {
        let value = left.pop().unwrap();
        events.push(BackgroundComputeComplete(value));
        seen = seen + 1;
    }
    proof {
        assert(events@ =~= announced(values@));
    }
    events
}

/// The notifications that a check produced, whichever way it ended.
pub open spec fn events_in<T: Send + Sync + 'static>(
    answer: Result<Vec<BackgroundComputeComplete<T>>, BrokenDrain<BackgroundComputeComplete<T>>>,
) -> Seq<BackgroundComputeComplete<T>> {
    match answer {
        Ok(events) => events@,
        Err(fault) => fault.values@,
    }
}

/// A check of `before` in which the channels held `outcomes`: the handles
/// without a value stay, one notification is produced for each value that
/// arrived, and the answer is a fault exactly when some channel was closed
/// without a value.
pub open spec fn checked<T: Send + Sync + 'static>(
    before: BackgroundTasks<T>,
    outcomes: Seq<Handoff<T>>,
    after: BackgroundTasks<T>,
    answer: Result<Vec<BackgroundComputeComplete<T>>, BrokenDrain<BackgroundComputeComplete<T>>>,
) -> bool {
    &&& outcomes.len() == before@.len()
    &&& after@ == retained(before@, outcomes)
    &&& after.ledger() == step(before.ledger(), Step::Drain(outcomes))
    &&& events_in(answer) == announced(delivered(outcomes))
    &&& match answer {
        Ok(_) => broken(outcomes) == 0,
        Err(fault) => fault.broken > 0 && fault.broken == broken(outcomes),
    }
}

/// The check of one tick: drains the registry and turns every value that
/// arrived into one notification for the caller to send.
pub fn background_compute_check_system<T: Send + Sync + 'static>(
    holder: &mut BackgroundTasks<T>,
) -> (answer: Result<
    Vec<BackgroundComputeComplete<T>>,
    BrokenDrain<BackgroundComputeComplete<T>>,
>)
    ensures
        exists|outcomes: Seq<Handoff<T>>| #[trigger]
            checked(*old(holder), outcomes, *final(holder), answer),
        final(holder)@.len() + events_in(answer).len() == old(holder)@.len(),
        sound(final(holder).ledger()),
{
    let drain = holder.drain_ready();
    let ghost outcomes = choose|outcomes: Seq<Handoff<T>>|
        drained(*old(holder), outcomes, *holder, drain);
    let answer = match drain {
        Ok(values) => Ok(announce(values)),
        Err(fault) => {
            let BrokenDrain { values, broken: lost } = fault;
            Err(BrokenDrain { values: announce(values), broken: lost })
        },
    };
    proof {
        assert(checked(*old(holder), outcomes, *holder, answer));
    }
    answer
}

} // verus!
