//! A handle on one unit of background work that can be polled without blocking.

use crate::handoff::{BrokenHandoff, Handoff};
use async_channel::{bounded, Receiver, Sender, TryRecvError};
use bevy_tasks::{AsyncComputeTaskPool, Task, TaskPool};
use std::future::Future;
use vstd::prelude::*;

verus! {

/// `async_channel::Receiver`, the receiving end of a channel. Its inside is
/// not looked at.
#[verifier::external_type_specification]
#[verifier::external_body]
#[verifier::reject_recursive_types(T)]
pub struct ExReceiver<T>(Receiver<T>);

/// `async_channel::Sender`, the sending end of a channel. Its inside is not
/// looked at.
#[verifier::external_type_specification]
#[verifier::external_body]
#[verifier::reject_recursive_types(T)]
pub struct ExSender<T>(Sender<T>);

/// `bevy_tasks::Task`, a piece of work that a pool runs for as long as the
/// task is held. Its inside is not looked at.
#[verifier::external_type_specification]
#[verifier::external_body]
#[verifier::reject_recursive_types(T)]
pub struct ExTask<T>(Task<T>);

/// `bevy_tasks::TaskPool`, a pool of worker threads. Its inside is not looked
/// at.
#[verifier::external_type_specification]
#[verifier::external_body]
pub struct ExTaskPool(TaskPool);

/// The consuming end of a one-slot handoff channel, together with the task
/// that will fill it. Holding the task keeps the work alive.
#[verifier::reject_recursive_types(T)]
pub struct PollableTask<T> {
    receiver: Receiver<T>,
    _task: Task<()>,
}

/// Calls `async_channel::Receiver::try_recv` and reports which of its three
/// answers came back. What comes back depends on how far the sending task has
/// run, so nothing is claimed of it.
#[verifier::external_body]
fn try_receive<T>(receiver: &Receiver<T>) -> (found: Handoff<T>) {
    match receiver.try_recv() {
        Ok(value) => Handoff::Ready(value),
        Err(TryRecvError::Empty) => Handoff::Pending,
        Err(TryRecvError::Closed) => Handoff::Closed,
    }
}

/// Calls `async_channel::bounded`, which opens a channel that holds at most
/// `capacity` messages and stops the program when `capacity` is zero. The two
/// ends are new, so nothing is claimed of them.
#[verifier::external_body]
fn bounded_channel<T>(capacity: usize) -> (ends: (Sender<T>, Receiver<T>))
    requires
        capacity > 0,
{
    bounded(capacity)
}

/// Calls `bevy_tasks::TaskPool::spawn`, which starts the work on the pool and
/// returns the task that keeps it alive. Nothing is claimed of the task.
#[verifier::external_body]
fn spawn_on<F>(pool: &TaskPool, work: F) -> (task: Task<()>)
    where
        F: Future<Output = ()> + Send + 'static,
{
    pool.spawn(work)
}

/// Calls `bevy_tasks::AsyncComputeTaskPool::try_get`, which returns the pool
/// of the process if one was set up. What it finds depends on what the
/// process did before, so nothing is claimed of the answer.
#[verifier::external_body]
pub(crate) fn compute_pool() -> (found: Option<&'static TaskPool>) {
    match AsyncComputeTaskPool::try_get() {
        Some(global) => Some(&**global),
        None => None,
    }
}

/// Opens the channel for one unit of work: it holds at most one value. The
/// sending end goes to the work, the receiving end to its handle.
pub fn handoff_channel<T>() -> (ends: (Sender<T>, Receiver<T>)) {
    bounded_channel(1)
}

impl<T> PollableTask<T> {
    /// The channel end that this handle polls.
    pub closed spec fn channel(&self) -> Receiver<T> {
        self.receiver
    }

    /// The task that this handle keeps alive.
    pub closed spec fn keep_alive(&self) -> Task<()> {
        self._task
    }

    /// Joins the consuming end of a handoff channel with the task that will
    /// send into it.
    pub fn new(receiver: Receiver<T>, task: Task<()>) -> (handle: Self)
        ensures
            handle.channel() == receiver,
            handle.keep_alive() == task,
    {
        PollableTask { receiver, _task: task }
    }

    /// Starts `work` on `pool` and returns the handle that polls `receiver`
    /// and keeps the work alive. `work` is the unit of work as adapted to the
    /// channel: it sends its one value to the other end of `receiver`.
    pub fn spawn<F>(pool: &TaskPool, receiver: Receiver<T>, work: F) -> (handle: Self)
        where
            F: Future<Output = ()> + Send + 'static,
        ensures
            handle.channel() == receiver,
    {
        let task = spawn_on(pool, work);
        PollableTask { receiver, _task: task }
    }

    /// One non-blocking look at the channel.
    pub fn receive(&self) -> (found: Handoff<T>) {
        try_receive(&self.receiver)
    }

    /// Takes the result if it has arrived. Returns at once: `Ok(None)` while
    /// the work is running, `Ok(Some(value))` when the value is there, and an
    /// error when the channel closed without one.
    pub fn poll(&self) -> (answer: Result<Option<T>, BrokenHandoff>) {
        self.receive().into_poll()
    }
}

} // verus!
