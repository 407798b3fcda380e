//! The registry of outstanding handles for one result type.

use crate::handoff::Handoff;
use crate::ledger::{lemma_step_sound, opening, sound, step, Ledger, Step};
use crate::pollable::{compute_pool, PollableTask};
use crate::settle::{
    broken, delivered, handles_of, lemma_delivered_count, lemma_retained_map, lemma_round_counts,
    outcomes_of, retained, reversed, settle, Settled,
};
use async_channel::Receiver;
use std::future::Future;
use vstd::prelude::*;

verus! {

/// An outstanding handle with the ticket under which it was inserted.
#[verifier::reject_recursive_types(T)]
pub struct Outstanding<T> {
    ticket: Ghost<nat>,
    handle: PollableTask<T>,
}

impl<T> Outstanding<T> {
    /// The number of insertions that came before this one.
    pub closed spec fn ticket(&self) -> nat {
        self.ticket@
    }

    /// The handle itself.
    pub closed spec fn handle(&self) -> PollableTask<T> {
        self.handle
    }
}

/// The tickets of the given handles, in turn.
pub open spec fn tickets_of<T>(handles: Seq<Outstanding<T>>) -> Seq<nat> {
    handles.map_values(|one: Outstanding<T>| one.ticket())
}

/// A drain that met at least one channel closed without a value. The values
/// that did arrive in the same drain are kept here, so none is lost.
pub struct BrokenDrain<V> {
    /// The values that arrived.
    pub values: Vec<V>,
    /// The number of handles whose channel closed without a value.
    pub broken: usize,
}

/// The values that a drain handed out, whichever way it ended.
pub open spec fn values_in<T>(answer: Result<Vec<T>, BrokenDrain<T>>) -> Seq<T> {
    match answer {
        Ok(values) => values@,
        Err(fault) => fault.values@,
    }
}

/// What a drain answers when the channels held `outcomes`: the values that
/// arrived, as a fault exactly when some channel was closed without one.
pub open spec fn answers<T>(
    answer: Result<Vec<T>, BrokenDrain<T>>,
    outcomes: Seq<Handoff<T>>,
) -> bool {
    &&& values_in(answer) == delivered(outcomes)
    &&& match answer {
        Ok(_) => broken(outcomes) == 0,
        Err(fault) => fault.broken > 0 && fault.broken == broken(outcomes),
    }
}

/// A drain of `before` in which the channels held `outcomes`: one outcome for
/// each handle, the handles without a value stay as they were, the ledger
/// records the others as served, and the answer carries the values.
pub open spec fn drained<T>(
    before: BackgroundTasks<T>,
    outcomes: Seq<Handoff<T>>,
    after: BackgroundTasks<T>,
    answer: Result<Vec<T>, BrokenDrain<T>>,
) -> bool {
    &&& outcomes.len() == before@.len()
    &&& after@ == retained(before@, outcomes)
    &&& after.ledger() == step(before.ledger(), Step::Drain(outcomes))
    &&& answers(answer, outcomes)
}

/// No worker pool was set up before work was submitted.
#[derive(Clone, Copy, Debug, PartialEq, Eq)]
pub struct PoolUnavailable;

/// What a submission does to a registry: where it was accepted, one handle on
/// `receiver` stands behind the others under the next ticket; where it was
/// not, nothing changed.
pub open spec fn submitted<T>(
    before: BackgroundTasks<T>,
    receiver: Receiver<T>,
    after: BackgroundTasks<T>,
    accepted: bool,
) -> bool {
    if accepted {
        &&& after@ == before@.push(after@.last())
        &&& after@.last().handle().channel() == receiver
        &&& after.ledger() == step(before.ledger(), Step::<T>::Insert)
    } else {
        &&& after@ == before@
        &&& after.ledger() == before.ledger()
    }
}

/// The outstanding handles of one result type, in the order of insertion.
#[verifier::reject_recursive_types(T)]
pub struct BackgroundTasks<T> {
    tasks: Vec<Outstanding<T>>,
    issued: Ghost<nat>,
    served: Ghost<Seq<nat>>,
}

impl<T> BackgroundTasks<T> {
    #[verifier::type_invariant]
    spec fn ticketed(&self) -> bool {
        sound(self.ledger())
    }

    /// The outstanding handles, oldest first.
    pub closed spec fn view(&self) -> Seq<Outstanding<T>> {
        self.tasks@
    }

    /// The number of insertions so far.
    pub closed spec fn issued(&self) -> nat {
        self.issued@
    }

    /// The tickets of the handles whose value was handed out, in the order
    /// in which that happened.
    pub closed spec fn served(&self) -> Seq<nat> {
        self.served@
    }

    /// The tickets of the outstanding handles, oldest first.
    pub open spec fn tickets(&self) -> Seq<nat> {
        tickets_of(self@)
    }

    /// The tickets of this registry's handles, past and present.
    pub open spec fn ledger(&self) -> Ledger {
        Ledger { outstanding: self.tickets(), issued: self.issued(), served: self.served() }
    }

    /// A registry with no handle in it.
    pub fn new() -> (registry: Self)
        ensures
            registry@ == Seq::<Outstanding<T>>::empty(),
            registry.ledger() == opening(Seq::empty(), 0),
            sound(registry.ledger()),
    {
        let registry = BackgroundTasks {
            tasks: Vec::new(),
            issued: Ghost(0),
            served: Ghost(Seq::empty()),
        };
        proof {
            assert(registry.ledger().outstanding =~= Seq::<nat>::empty());
        }
        registry
    }

    /// The number of outstanding handles.
    pub fn len(&self) -> (count: usize)
        ensures
            count == self@.len(),
    {
        self.tasks.len()
    }

    /// Whether no handle is outstanding.
    pub fn is_empty(&self) -> (empty: bool)
        ensures
            empty == (self@.len() == 0),
    {
        self.tasks.len() == 0
    }

    /// Adds a handle behind those that are outstanding, under the next ticket.
    pub fn insert(&mut self, handle: PollableTask<T>)
        ensures
            final(self)@ == old(self)@.push(final(self)@.last()),
            final(self)@.last().handle() == handle,
            final(self)@.last().ticket() == old(self).issued(),
            final(self).ledger() == step(old(self).ledger(), Step::<T>::Insert),
            sound(final(self).ledger()),
    {
        proof {
            use_type_invariant(&*self);
        }
        let ghost ticket = self.issued@;
        let ghost stood = self.tasks@;
        let ghost before = self.ledger();
        let mut tasks: Vec<Outstanding<T>> = Vec::new();
        std::mem::swap(&mut self.tasks, &mut tasks);
        proof {
            assert(tickets_of(self.tasks@) =~= Seq::<nat>::empty());
        }
        self.issued = Ghost(ticket + 1);
        tasks.push(Outstanding { ticket: Ghost(ticket), handle });
        proof {
            assert(tickets_of(tasks@) == tickets_of(stood).push(ticket));
            lemma_step_sound(before, Step::<T>::Insert);
        }
        self.tasks = tasks;
    }

    /// Starts `work` on the worker pool of the process and inserts the handle
    /// that polls `receiver`. Fails, and leaves the registry as it was, when
    /// no pool was set up. `work` is the unit of work as adapted to the
    /// channel: it sends its one value to the other end of `receiver`.
    pub fn submit<F>(&mut self, receiver: Receiver<T>, work: F) -> (answer: Result<
        (),
        PoolUnavailable,
    >)
        where
            F: Future<Output = ()> + Send + 'static,
        ensures
            submitted(*old(self), receiver, *final(self), answer is Ok),
            sound(final(self).ledger()),
    {
        proof {
            use_type_invariant(&*self);
        }
        match compute_pool() {
            Some(pool) => {
                self.insert(PollableTask::spawn(pool, receiver, work));
                Ok(())
            },
            None => Err(PoolUnavailable),
        }
    }

    /// Polls every outstanding handle once, oldest first. Each handle whose
    /// value has arrived leaves the registry and its value comes out; every
    /// other handle stays where it stood. The answer is a fault exactly when
    /// some channel was closed without a value.
    pub fn drain_ready(&mut self) -> (answer: Result<Vec<T>, BrokenDrain<T>>)
        ensures
            exists|outcomes: Seq<Handoff<T>>| #[trigger]
                drained(*old(self), outcomes, *final(self), answer),
            final(self)@.len() + values_in(answer).len() == old(self)@.len(),
            sound(final(self).ledger()),
    {
        proof {
            use_type_invariant(&*self);
        }
        let ghost stood = self.tasks@;
        let ghost before = self.ledger();
        let mut tasks: Vec<Outstanding<T>> = Vec::new();
        std::mem::swap(&mut self.tasks, &mut tasks);
        proof {
            assert(tickets_of(self.tasks@) =~= Seq::<nat>::empty());
        }
        let polled = poll_each(tasks);
        let ghost outcomes = outcomes_of(polled@);
        let Settled { kept, values, broken: lost } = settle(polled);
        let ghost after = step(before, Step::Drain(outcomes));
        proof {
            lemma_retained_map(stood, outcomes, |one: Outstanding<T>| one.ticket());
            lemma_step_sound(before, Step::Drain(outcomes));
            lemma_round_counts(stood, outcomes, stood.len() as int);
            lemma_delivered_count(outcomes);
            assert(stood.take(stood.len() as int) == stood);
            assert(outcomes.take(stood.len() as int) == outcomes);
            assert forall|i: int, j: int|
                0 <= i < before.served.len() && 0 <= j < after.outstanding.len()
                    implies #[trigger] before.served[i] != #[trigger] after.outstanding[j] by {
                assert(after.served[i] == before.served[i]);
            }
        }
        self.tasks = kept;
        self.served = Ghost(after.served);
        let answer = if lost == 0 {
            Ok(values)
        } else {
            Err(BrokenDrain { values, broken: lost })
        };
        proof {
            assert(drained(*old(self), outcomes, *self, answer));
        }
        answer
    }
}

/// Looks once at the channel of each handle, oldest first.
fn poll_each<T>(handles: Vec<Outstanding<T>>) -> (polled: Vec<(Outstanding<T>, Handoff<T>)>)
    ensures
        handles_of(polled@) == handles@,
{
    let total = handles.len();
    let mut left = reversed(handles);
    let mut polled: Vec<(Outstanding<T>, Handoff<T>)> = Vec::new();
    let mut seen: usize = 0;
    while seen < total
        invariant
            total == handles@.len(),
            seen <= total,
            left@.len() == total - seen,
            forall|i: int| 0 <= i < total - seen ==> left@[i] == handles@[total - 1 - i],
            polled@.len() == seen,
            forall|i: int| 0 <= i < seen ==> (#[trigger] polled@[i]).0 == handles@[i],
        decreases total - seen,
    {
        let entry = left.pop().unwrap();
        let found = entry.handle.receive();
        polled.push((entry, found));
        seen = seen + 1;
    }
    proof {
        assert(handles_of(polled@) =~= handles@);
    }
    polled
}

} // verus!
