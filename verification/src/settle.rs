//! One round of settling: given what each outstanding handle's channel held,
//! which handles stay and which values come out.

use crate::handoff::Handoff;
use vstd::prelude::*;

verus! {

/// What the channel of the handle at place `at` held: the outcome at that
/// place, and for a handle that was not polled, nothing yet.
pub open spec fn outcome_at<T>(outcomes: Seq<Handoff<T>>, at: int) -> Handoff<T> {
    if 0 <= at < outcomes.len() {
        outcomes[at]
    } else {
        Handoff::Pending
    }
}

/// The handles that stay outstanding after a round: every handle whose channel
/// did not hold a value, in the order in which they stood.
pub open spec fn retained<H, T>(handles: Seq<H>, outcomes: Seq<Handoff<T>>) -> Seq<H>
    decreases handles.len(),
{
    if handles.len() == 0 {
        Seq::empty()
    } else {
        let before = retained(handles.drop_last(), outcomes);
        if outcome_at(outcomes, handles.len() - 1) is Ready {
            before
        } else {
            before.push(handles.last())
        }
    }
}

/// The handles that leave in a round: every handle whose channel held a value,
/// in the order in which they stood.
pub open spec fn finished<H, T>(handles: Seq<H>, outcomes: Seq<Handoff<T>>) -> Seq<H>
    decreases handles.len(),
{
    if handles.len() == 0 {
        Seq::empty()
    } else {
        let before = finished(handles.drop_last(), outcomes);
        if outcome_at(outcomes, handles.len() - 1) is Ready {
            before.push(handles.last())
        } else {
            before
        }
    }
}

/// The values that a round hands out: those found ready, in the order of
/// their handles.
pub open spec fn delivered<T>(outcomes: Seq<Handoff<T>>) -> Seq<T>
    decreases outcomes.len(),
{
    if outcomes.len() == 0 {
        Seq::empty()
    } else {
        let before = delivered(outcomes.drop_last());
        match outcomes.last() {
            Handoff::Ready(value) => before.push(value),
            _ => before,
        }
    }
}

/// How many channels a round found closed without a value.
pub open spec fn broken<T>(outcomes: Seq<Handoff<T>>) -> nat
    decreases outcomes.len(),
{
    if outcomes.len() == 0 {
        0
    } else {
        let before = broken(outcomes.drop_last());
        if outcomes.last() is Closed {
            before + 1
        } else {
            before
        }
    }
}

/// How many channels a round found holding a value.
pub open spec fn ready_count<T>(outcomes: Seq<Handoff<T>>) -> nat
    decreases outcomes.len(),
{
    if outcomes.len() == 0 {
        0
    } else {
        let before = ready_count(outcomes.drop_last());
        if outcomes.last() is Ready {
            before + 1
        } else {
            before
        }
    }
}

/// The result of one round.
pub struct Settled<H, T> {
    /// The handles that stay outstanding.
    pub kept: Vec<H>,
    /// The values that arrived.
    pub values: Vec<T>,
    /// The number of handles whose channel closed without a value.
    pub broken: usize,
}

/// The items of `items`, last first.
pub(crate) fn reversed<A>(items: Vec<A>) -> (turned: Vec<A>)
    ensures
        turned@.len() == items@.len(),
        forall|i: int| 0 <= i < items@.len() ==> turned@[i] == items@[items@.len() - 1 - i],
{
    let mut rest = items;
    let mut turned: Vec<A> = Vec::new();
    while rest.len() > 0
        invariant
            rest@.len() + turned@.len() == items@.len(),
            rest@ == items@.take(rest@.len() as int),
            forall|i: int| 0 <= i < turned@.len() ==> turned@[i] == items@[items@.len() - 1 - i],
        decreases rest@.len(),
    {
        let item = rest.pop().unwrap();
        turned.push(item);
    }
    turned
}

/// The handles of a polled round, in turn.
pub open spec fn handles_of<H, T>(polled: Seq<(H, Handoff<T>)>) -> Seq<H> {
    Seq::new(polled.len(), |i: int| polled[i].0)
}

/// What the channels of a polled round held, in turn.
pub open spec fn outcomes_of<H, T>(polled: Seq<(H, Handoff<T>)>) -> Seq<Handoff<T>> {
    Seq::new(polled.len(), |i: int| polled[i].1)
}

/// Settling commutes with renaming the handles: what stays of the renamed
/// handles is the renaming of what stays.
pub proof fn lemma_retained_map<H, K, T>(
    handles: Seq<H>,
    outcomes: Seq<Handoff<T>>,
    name: spec_fn(H) -> K,
)
    ensures
        retained(handles.map_values(name), outcomes) == retained(handles, outcomes).map_values(
            name,
        ),
    decreases handles.len(),
{
    if handles.len() > 0 {
        lemma_retained_map(handles.drop_last(), outcomes, name);
        assert(handles.map_values(name).drop_last() == handles.drop_last().map_values(name));
        let before = retained(handles.drop_last(), outcomes);
        assert(before.push(handles.last()).map_values(name) == before.map_values(name).push(
            name(handles.last()),
        ));
    }
    assert(retained(handles.map_values(name), outcomes) =~= retained(
        handles,
        outcomes,
    ).map_values(name));
}

/// Every handle that stays stood among the handles, at a place whose channel
/// held no value. The place is the result.
pub proof fn lemma_retained_origin<H, T>(
    handles: Seq<H>,
    outcomes: Seq<Handoff<T>>,
    at: int,
) -> (from: int)
    requires
        0 <= at < retained(handles, outcomes).len(),
    ensures
        0 <= from < handles.len(),
        !(outcome_at(outcomes, from) is Ready),
        handles[from] == retained(handles, outcomes)[at],
    decreases handles.len(),
{
    let before = retained(handles.drop_last(), outcomes);
    if at < before.len() {
        lemma_retained_origin(handles.drop_last(), outcomes, at)
    } else {
        handles.len() - 1
    }
}

/// Every handle that leaves stood among the handles, at a place whose channel
/// held a value. The place is the result.
pub proof fn lemma_finished_origin<H, T>(
    handles: Seq<H>,
    outcomes: Seq<Handoff<T>>,
    at: int,
) -> (from: int)
    requires
        0 <= at < finished(handles, outcomes).len(),
    ensures
        0 <= from < handles.len(),
        outcome_at(outcomes, from) is Ready,
        handles[from] == finished(handles, outcomes)[at],
    decreases handles.len(),
{
    let before = finished(handles.drop_last(), outcomes);
    if at < before.len() {
        lemma_finished_origin(handles.drop_last(), outcomes, at)
    } else {
        handles.len() - 1
    }
}

/// The handle at a place whose channel held no value stays.
pub proof fn lemma_pending_stays<H, T>(handles: Seq<H>, outcomes: Seq<Handoff<T>>, place: int)
    requires
        0 <= place < handles.len(),
        !(outcome_at(outcomes, place) is Ready),
    ensures
        retained(handles, outcomes).contains(handles[place]),
    decreases handles.len(),
{
    let before = retained(handles.drop_last(), outcomes);
    let after = retained(handles, outcomes);
    if place < handles.len() - 1 {
        lemma_pending_stays(handles.drop_last(), outcomes, place);
        let at = choose|at: int| 0 <= at < before.len() && before[at] == handles.drop_last()[place];
        assert(after[at] == handles[place]);
    } else {
        assert(after[after.len() - 1] == handles[place]);
    }
}

/// The handle at a place whose channel held a value leaves.
pub proof fn lemma_ready_leaves<H, T>(handles: Seq<H>, outcomes: Seq<Handoff<T>>, place: int)
    requires
        0 <= place < handles.len(),
        outcome_at(outcomes, place) is Ready,
    ensures
        finished(handles, outcomes).contains(handles[place]),
    decreases handles.len(),
{
    let before = finished(handles.drop_last(), outcomes);
    let after = finished(handles, outcomes);
    if place < handles.len() - 1 {
        lemma_ready_leaves(handles.drop_last(), outcomes, place);
        let at = choose|at: int| 0 <= at < before.len() && before[at] == handles.drop_last()[place];
        assert(after[at] == handles[place]);
    } else {
        assert(after[after.len() - 1] == handles[place]);
    }
}

/// As many values come out of a round as channels held one.
pub proof fn lemma_delivered_count<T>(outcomes: Seq<Handoff<T>>)
    ensures
        delivered(outcomes).len() == ready_count(outcomes),
    decreases outcomes.len(),
{
    if outcomes.len() > 0 {
        lemma_delivered_count(outcomes.drop_last());
    }
}

/// Of the first `upto` handles, those that stay and those that leave are
/// counted by the outcomes at their places.
pub proof fn lemma_round_counts<H, T>(handles: Seq<H>, outcomes: Seq<Handoff<T>>, upto: int)
    requires
        0 <= upto <= handles.len(),
        upto <= outcomes.len(),
    ensures
        retained(handles.take(upto), outcomes).len() + ready_count(outcomes.take(upto)) == upto,
        finished(handles.take(upto), outcomes).len() == ready_count(outcomes.take(upto)),
    decreases upto,
{
    if upto > 0 {
        lemma_round_counts(handles, outcomes, upto - 1);
        assert(handles.take(upto).drop_last() == handles.take(upto - 1));
        assert(outcomes.take(upto).drop_last() == outcomes.take(upto - 1));
        assert(outcomes.take(upto).last() == outcome_at(outcomes, upto - 1));
    }
}

/// Settles one round. `polled` holds each handle with what its channel held.
/// A handle whose channel held a value leaves and its value comes out; every
/// other handle stays, a closed one too, and is counted as broken.
pub fn settle<H, T>(polled: Vec<(H, Handoff<T>)>) -> (round: Settled<H, T>)
    ensures
        round.kept@ == retained(handles_of(polled@), outcomes_of(polled@)),
        round.values@ == delivered(outcomes_of(polled@)),
        round.broken == broken(outcomes_of(polled@)),
{
    let total = polled.len();
    let ghost handles = handles_of(polled@);
    let ghost outcomes = outcomes_of(polled@);
    let mut left = reversed(polled);
    let mut kept: Vec<H> = Vec::new();
    let mut values: Vec<T> = Vec::new();
    let mut broken_seen: usize = 0;
    let mut seen: usize = 0;
    while seen < total
        invariant
            total == polled@.len(),
            handles == handles_of(polled@),
            outcomes == outcomes_of(polled@),
            seen <= total,
            left@.len() == total - seen,
            forall|i: int| 0 <= i < total - seen ==> left@[i] == polled@[total - 1 - i],
            kept@ == retained(handles.take(seen as int), outcomes),
            values@ == delivered(outcomes.take(seen as int)),
            broken_seen == broken(outcomes.take(seen as int)),
            broken_seen <= seen,
        decreases total - seen,
    {
        let (handle, outcome) = left.pop().unwrap();
        proof {
            let next = seen + 1;
            assert(handles.take(next).drop_last() == handles.take(seen as int));
            assert(outcomes.take(next).drop_last() == outcomes.take(seen as int));
            assert(handles.take(next).last() == handle);
            assert(outcomes.take(next).last() == outcome);
            assert(outcome_at(outcomes, seen as int) == outcome);
        }
        match outcome {
            Handoff::Ready(value) => {
                values.push(value);
            },
            Handoff::Pending => {
                kept.push(handle);
            },
            Handoff::Closed => {
                kept.push(handle);
                broken_seen = broken_seen + 1;
            },
        }
        seen = seen + 1;
    }
    proof {
        assert(handles.take(total as int) == handles);
        assert(outcomes.take(total as int) == outcomes);
    }
    Settled { kept, values, broken: broken_seen }
}

} // verus!
