//! The life of a registry as a ledger of tickets: which handles are
//! outstanding and which have handed over their value, step by step.

use crate::handoff::Handoff;
use crate::settle::{
    delivered, finished, lemma_delivered_count, lemma_finished_origin, lemma_pending_stays,
    lemma_ready_leaves, lemma_retained_origin, lemma_round_counts, outcome_at, ready_count,
    retained,
};
use vstd::prelude::*;

verus! {

/// Tickets in the order of their issue: each one below `issued`, and each one
/// below those that stand after it.
pub open spec fn rising(tickets: Seq<nat>, issued: nat) -> bool {
    &&& forall|i: int| 0 <= i < tickets.len() ==> #[trigger] tickets[i] < issued
    &&& forall|i: int, j: int|
        0 <= i < j < tickets.len() ==> #[trigger] tickets[i] < #[trigger] tickets[j]
}

/// Tickets that rise still rise after a round.
pub proof fn lemma_retained_rising<T>(tickets: Seq<nat>, outcomes: Seq<Handoff<T>>, issued: nat)
    requires
        rising(tickets, issued),
    ensures
        rising(retained(tickets, outcomes), issued),
    decreases tickets.len(),
{
    if tickets.len() > 0 {
        let front = tickets.drop_last();
        assert forall|i: int| 0 <= i < front.len() implies #[trigger] front[i]
            < tickets.last() by {
            assert(front[i] == tickets[i]);
        }
        assert forall|i: int, j: int| 0 <= i < j < front.len() implies #[trigger] front[i]
            < #[trigger] front[j] by {
            assert(front[i] == tickets[i] && front[j] == tickets[j]);
        }
        lemma_retained_rising(front, outcomes, tickets.last());
    }
}

/// One thing that happens to a registry.
pub enum Step<T> {
    /// A handle is inserted.
    Insert,
    /// The registry is drained while the channels hold these outcomes, the
    /// oldest handle's first.
    Drain(Seq<Handoff<T>>),
}

/// The tickets of a registry's handles, past and present.
pub struct Ledger {
    /// The tickets of the outstanding handles, oldest first.
    pub outstanding: Seq<nat>,
    /// The number of insertions so far.
    pub issued: nat,
    /// The tickets of the handles whose value was handed out, in the order in
    /// which that happened.
    pub served: Seq<nat>,
}

/// The ledger of a registry with the given outstanding tickets, none served
/// yet.
pub open spec fn opening(tickets: Seq<nat>, issued: nat) -> Ledger {
    Ledger { outstanding: tickets, issued, served: Seq::empty() }
}

/// The ledger after one step.
pub open spec fn step<T>(ledger: Ledger, taken: Step<T>) -> Ledger {
    match taken {
        Step::Insert => Ledger {
            outstanding: ledger.outstanding.push(ledger.issued),
            issued: ledger.issued + 1,
            served: ledger.served,
        },
        Step::Drain(outcomes) => Ledger {
            outstanding: retained(ledger.outstanding, outcomes),
            issued: ledger.issued,
            served: ledger.served + finished(ledger.outstanding, outcomes),
        },
    }
}

/// The ledger after the given steps, the first one first.
pub open spec fn replay<T>(ledger: Ledger, steps: Seq<Step<T>>) -> Ledger
    decreases steps.len(),
{
    if steps.len() == 0 {
        ledger
    } else {
        step(replay(ledger, steps.drop_last()), steps.last())
    }
}

/// A ledger in which every ticket stands once: the outstanding ones rise, no
/// served ticket is served twice, and no served ticket is outstanding.
pub open spec fn sound(ledger: Ledger) -> bool {
    &&& rising(ledger.outstanding, ledger.issued)
    &&& ledger.served.no_duplicates()
    &&& forall|i: int| 0 <= i < ledger.served.len() ==> #[trigger] ledger.served[i] < ledger.issued
    &&& forall|i: int, j: int|
        0 <= i < ledger.served.len() && 0 <= j < ledger.outstanding.len()
            ==> #[trigger] ledger.served[i] != #[trigger] ledger.outstanding[j]
}

/// The tickets that leave in a round rise as the outstanding ones did.
pub proof fn lemma_finished_rising<T>(tickets: Seq<nat>, outcomes: Seq<Handoff<T>>, issued: nat)
    requires
        rising(tickets, issued),
    ensures
        rising(finished(tickets, outcomes), issued),
    decreases tickets.len(),
{
    if tickets.len() > 0 {
        let front = tickets.drop_last();
        assert forall|i: int| 0 <= i < front.len() implies #[trigger] front[i]
            < tickets.last() by {
            assert(front[i] == tickets[i]);
        }
        assert forall|i: int, j: int| 0 <= i < j < front.len() implies #[trigger] front[i]
            < #[trigger] front[j] by {
            assert(front[i] == tickets[i] && front[j] == tickets[j]);
        }
        lemma_finished_rising(front, outcomes, tickets.last());
    }
}

/// In one round every outstanding handle is polled once, and it leaves the
/// registry exactly when its poll gave a value: a handle whose channel held a
/// value is served and no longer outstanding, so it is not polled again; any
/// other handle is not served and stays outstanding for the next round.
pub proof fn law_leaves_exactly_when_ready<T>(
    tickets: Seq<nat>,
    issued: nat,
    outcomes: Seq<Handoff<T>>,
    place: int,
)
    requires
        rising(tickets, issued),
        0 <= place < tickets.len(),
    ensures
        outcome_at(outcomes, place) is Ready ==> finished(tickets, outcomes).contains(
            tickets[place],
        ) && !retained(tickets, outcomes).contains(tickets[place]),
        !(outcome_at(outcomes, place) is Ready) ==> retained(tickets, outcomes).contains(
            tickets[place],
        ) && !finished(tickets, outcomes).contains(tickets[place]),
{
    let stay = retained(tickets, outcomes);
    let leave = finished(tickets, outcomes);
    if outcome_at(outcomes, place) is Ready {
        lemma_ready_leaves(tickets, outcomes, place);
        if stay.contains(tickets[place]) {
            let at = choose|at: int| 0 <= at < stay.len() && stay[at] == tickets[place];
            let from = lemma_retained_origin(tickets, outcomes, at);
            assert(from != place);
            assert(tickets[from] != tickets[place]) by {
                if from < place {
                    assert(tickets[from] < tickets[place]);
                } else {
                    assert(tickets[place] < tickets[from]);
                }
            }
        }
    } else {
        lemma_pending_stays(tickets, outcomes, place);
        if leave.contains(tickets[place]) {
            let at = choose|at: int| 0 <= at < leave.len() && leave[at] == tickets[place];
            let from = lemma_finished_origin(tickets, outcomes, at);
            assert(from != place);
            assert(tickets[from] != tickets[place]) by {
                if from < place {
                    assert(tickets[from] < tickets[place]);
                } else {
                    assert(tickets[place] < tickets[from]);
                }
            }
        }
    }
}

/// A drain of N handles of which K are ready hands out K values, takes K
/// handles away and leaves N - K, each of them one of the N, unchanged.
pub proof fn law_drain_counts<H, T>(handles: Seq<H>, outcomes: Seq<Handoff<T>>)
    requires
        handles.len() == outcomes.len(),
    ensures
        delivered(outcomes).len() == ready_count(outcomes),
        finished(handles, outcomes).len() == ready_count(outcomes),
        retained(handles, outcomes).len() == handles.len() - ready_count(outcomes),
        forall|at: int|
            0 <= at < retained(handles, outcomes).len() ==> handles.contains(
                #[trigger] retained(handles, outcomes)[at],
            ),
{
    lemma_delivered_count(outcomes);
    lemma_round_counts(handles, outcomes, handles.len() as int);
    assert(handles.take(handles.len() as int) == handles);
    assert(outcomes.take(handles.len() as int) == outcomes);
    assert forall|at: int| 0 <= at < retained(handles, outcomes).len() implies handles.contains(
        #[trigger] retained(handles, outcomes)[at],
    ) by {
        let from = lemma_retained_origin(handles, outcomes, at);
        assert(handles[from] == retained(handles, outcomes)[at]);
    }
}

/// A value that a channel holds when the registry is drained comes out of
/// that very drain, not of a later one.
pub proof fn law_ready_is_delivered_at_once<T>(outcomes: Seq<Handoff<T>>, place: int)
    requires
        0 <= place < outcomes.len(),
        outcomes[place] is Ready,
    ensures
        delivered(outcomes).contains(outcomes[place]->Ready_0),
    decreases outcomes.len(),
{
    let before = delivered(outcomes.drop_last());
    let all = delivered(outcomes);
    if place < outcomes.len() - 1 {
        law_ready_is_delivered_at_once(outcomes.drop_last(), place);
        let at = choose|at: int|
            0 <= at < before.len() && before[at] == outcomes.drop_last()[place]->Ready_0;
        assert(all[at] == outcomes[place]->Ready_0);
    } else {
        assert(all[all.len() - 1] == outcomes[place]->Ready_0);
    }
}

/// One step keeps a sound ledger sound.
pub proof fn lemma_step_sound<T>(ledger: Ledger, taken: Step<T>)
    requires
        sound(ledger),
    ensures
        sound(step(ledger, taken)),
{
    let next = step(ledger, taken);
    match taken {
        Step::Insert => {
            assert forall|i: int, j: int|
                0 <= i < next.served.len() && 0 <= j < next.outstanding.len()
                    implies #[trigger] next.served[i] != #[trigger] next.outstanding[j] by {
                if j < ledger.outstanding.len() {
                    assert(next.outstanding[j] == ledger.outstanding[j]);
                } else {
                    assert(ledger.served[i] < ledger.issued);
                }
            }
        },
        Step::Drain(outcomes) => {
            let stay = retained(ledger.outstanding, outcomes);
            let leave = finished(ledger.outstanding, outcomes);
            lemma_retained_rising(ledger.outstanding, outcomes, ledger.issued);
            lemma_finished_rising(ledger.outstanding, outcomes, ledger.issued);
            assert forall|i: int, j: int|
                0 <= i < next.served.len() && 0 <= j < stay.len()
                    implies #[trigger] next.served[i] != #[trigger] stay[j] by {
                let kept_from = lemma_retained_origin(ledger.outstanding, outcomes, j);
                if i < ledger.served.len() {
                    assert(next.served[i] == ledger.served[i]);
                    assert(ledger.served[i] != ledger.outstanding[kept_from]);
                } else {
                    let left_at = i - ledger.served.len();
                    assert(next.served[i] == leave[left_at]);
                    let left_from = lemma_finished_origin(ledger.outstanding, outcomes, left_at);
                    assert(left_from != kept_from);
                    if left_from < kept_from {
                        assert(ledger.outstanding[left_from] < ledger.outstanding[kept_from]);
                    } else {
                        assert(ledger.outstanding[kept_from] < ledger.outstanding[left_from]);
                    }
                }
            }
            assert forall|i: int, j: int|
                0 <= i < next.served.len() && 0 <= j < next.served.len() && i != j
                    implies next.served[i] != next.served[j] by {
                let old_count = ledger.served.len();
                if i < old_count && j < old_count {
                    assert(ledger.served[i] != ledger.served[j]);
                } else if i >= old_count && j >= old_count {
                    if i < j {
                        assert(leave[i - old_count] < leave[j - old_count]);
                    } else {
                        assert(leave[j - old_count] < leave[i - old_count]);
                    }
                } else if i < old_count {
                    let from = lemma_finished_origin(ledger.outstanding, outcomes, j - old_count);
                    assert(ledger.served[i] != ledger.outstanding[from]);
                } else {
                    let from = lemma_finished_origin(ledger.outstanding, outcomes, i - old_count);
                    assert(ledger.served[j] != ledger.outstanding[from]);
                }
            }
            assert forall|i: int| 0 <= i < next.served.len() implies #[trigger] next.served[i]
                < next.issued by {
                if i >= ledger.served.len() {
                    assert(next.served[i] == leave[i - ledger.served.len()]);
                }
            }
        },
    }
}

/// No value is handed out twice. Whatever is inserted and however the
/// channels fill, over any number of drains each ticket is served at most
/// once, and a served ticket is never outstanding again.
pub proof fn law_served_at_most_once<T>(tickets: Seq<nat>, issued: nat, steps: Seq<Step<T>>)
    requires
        rising(tickets, issued),
    ensures
        sound(replay(opening(tickets, issued), steps)),
    decreases steps.len(),
{
    let start = opening(tickets, issued);
    if steps.len() > 0 {
        law_served_at_most_once(tickets, issued, steps.drop_last());
        lemma_step_sound(replay(start, steps.drop_last()), steps.last());
    }
}

} // verus!
