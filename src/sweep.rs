//! The deferred-reply sweep: which pending events are due, what each reply
//! says, and how a successful post changes an event.
use vstd::prelude::*;
use crate::format::{format_round_trip, round_trip_text};
use crate::mention::PendingEvent;

verus! {

/// An event is due once its deadline has passed and it is not replied yet.
pub open spec fn is_due(e: PendingEvent, now_millis: int) -> bool {
    !e.replied && e.deadline_millis < now_millis
}

/// The same event, replied.
pub open spec fn replied(e: PendingEvent) -> PendingEvent {
    PendingEvent { replied: true, ..e }
}

/// What the store holds after a sweep at `now_millis` in which every post
/// succeeded.
pub open spec fn sweep_result(events: Seq<PendingEvent>, now_millis: int) -> Seq<PendingEvent> {
    events.map_values(
        |e: PendingEvent|
            if is_due(e, now_millis) {
                replied(e)
            } else {
                e
            },
    )
}

/// A reply that a sweep is to post.
#[derive(Clone, Debug, PartialEq, Eq)]
pub struct PlannedReply {
    /// Which of the swept events it answers.
    pub index: usize,
    /// The mention to reply to.
    pub message_id: u64,
    /// What the reply says.
    pub text: String,
}

/// The replies that a sweep at `now_millis` posts: one per due event, in
/// the order of `events`, each with the event's round-trip text.
pub fn plan_sweep(events: &Vec<PendingEvent>, now_millis: i128) -> (r: Vec<PlannedReply>)
    requires
        forall|i: int| 0 <= i < events@.len() ==> (#[trigger] events@[i]).round_trip.wf(),
    ensures
        forall|k: int|
            #![trigger r@[k]]
            0 <= k < r@.len() ==> {
                &&& r@[k].index < events@.len()
                &&& is_due(events@[r@[k].index as int], now_millis as int)
                &&& r@[k].message_id == events@[r@[k].index as int].message_id
                &&& r@[k].text@ == round_trip_text(events@[r@[k].index as int].round_trip)
            },
        forall|k: int, l: int| 0 <= k < l < r@.len() ==> r@[k].index < r@[l].index,
        forall|i: int|
            0 <= i < events@.len() && is_due(#[trigger] events@[i], now_millis as int) ==> exists|
                k: int,
            | 0 <= k < r@.len() && r@[k].index == i,
        r@.len() == 0 <==> forall|i: int|
            0 <= i < events@.len() ==> !is_due(#[trigger] events@[i], now_millis as int),
{
    let mut r: Vec<PlannedReply> = Vec::new();
    let mut i: usize = 0;
    while i < events.len()
        invariant
            forall|j: int| 0 <= j < events@.len() ==> (#[trigger] events@[j]).round_trip.wf(),
            0 <= i <= events@.len(),
            forall|k: int|
                #![trigger r@[k]]
                0 <= k < r@.len() ==> {
                    &&& r@[k].index < i
                    &&& is_due(events@[r@[k].index as int], now_millis as int)
                    &&& r@[k].message_id == events@[r@[k].index as int].message_id
                    &&& r@[k].text@ == round_trip_text(events@[r@[k].index as int].round_trip)
                },
            forall|k: int, l: int| 0 <= k < l < r@.len() ==> r@[k].index < r@[l].index,
            forall|j: int|
                0 <= j < i && is_due(#[trigger] events@[j], now_millis as int) ==> exists|k: int|
                    0 <= k < r@.len() && r@[k].index == j,
        decreases events@.len() - i,
    {
        let e = &events[i];
        if !e.replied && e.deadline_millis < now_millis {
            let text = format_round_trip(&e.round_trip);
            let ghost before = r@;
            r.push(PlannedReply { index: i, message_id: e.message_id, text });
            proof {
                assert forall|j: int|
                    0 <= j < i + 1 && is_due(#[trigger] events@[j], now_millis as int) implies exists|
                        k: int,
                    | 0 <= k < r@.len() && r@[k].index == j by {
                    if j < i {
                        let k = choose|k: int| 0 <= k < before.len() && before[k].index == j;
                        assert(r@[k] == before[k]);
                    } else {
                        assert(r@[r@.len() - 1].index == j);
                    }
                }
            }
        }
        i = i + 1;
    }
    proof {
        if r@.len() > 0 {
            assert(is_due(events@[r@[0].index as int], now_millis as int));
        }
    }
    r
}

/// Records the outcome of posting the reply to `events[index]`: a
/// successful post marks the event replied; a failed one leaves it pending,
/// for the next sweep.
pub fn record_post(events: &mut Vec<PendingEvent>, index: usize, posted: bool)
    requires
        index < old(events)@.len(),
    ensures
        final(events)@ == if posted {
            old(events)@.update(index as int, replied(old(events)@[index as int]))
        } else {
            old(events)@
        },
{
    if posted {
        events[index].replied = true;
    }
}

/// Sweeping twice at the same instant, every post succeeding, does no more
/// than sweeping once: after the first sweep no event is due, and a second
/// one changes nothing.
pub proof fn lemma_sweep_idempotent(events: Seq<PendingEvent>, now_millis: int)
    ensures
        forall|i: int|
            0 <= i < events.len() ==> !is_due(
                #[trigger] sweep_result(events, now_millis)[i],
                now_millis,
            ),
        sweep_result(sweep_result(events, now_millis), now_millis) == sweep_result(
            events,
            now_millis,
        ),
{
    assert(sweep_result(sweep_result(events, now_millis), now_millis) =~= sweep_result(
        events,
        now_millis,
    ));
}

/// A replied event never becomes pending again: recording a post, failed or
/// not, keeps every replied event replied.
pub proof fn lemma_replied_stays_replied(
    before: Seq<PendingEvent>,
    after: Seq<PendingEvent>,
    index: int,
    posted: bool,
)
    requires
        0 <= index < before.len(),
        after == if posted {
            before.update(index, replied(before[index]))
        } else {
            before
        },
    ensures
        after.len() == before.len(),
        forall|i: int| 0 <= i < before.len() && before[i].replied ==> (#[trigger] after[i]).replied,
{
}

} // verus!
