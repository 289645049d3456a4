//! What holds of a timer over any number of advance steps.

use vstd::prelude::*;
use crate::timer::{advance_spec, remaining_spec, ActionModel, DelayModel, TimerState};
use crate::wake::HandleModel;

verus! {

/// The timer after the advance steps `events`, each a time and the handle of
/// the handle offered, first to last.
pub open spec fn run_spec(m: DelayModel, events: Seq<(u64, HandleModel)>) -> DelayModel
    decreases events.len(),
{
    if events.len() == 0 {
        m
    } else {
        advance_spec(run_spec(m, events.drop_last()), events.last().0, events.last().1).next
    }
}

/// How many of the steps `events` ask for a timing thread.
pub open spec fn arms(m: DelayModel, events: Seq<(u64, HandleModel)>) -> nat
    decreases events.len(),
{
    if events.len() == 0 {
        0
    } else {
        let before = run_spec(m, events.drop_last());
        let step = advance_spec(before, events.last().0, events.last().1);
        arms(m, events.drop_last()) + if step.action is Arm {
            1nat
        } else {
            0nat
        }
    }
}

/// The slot that the timing thread reads, after an action was carried out:
/// an `Arm` and a `Replace` store their handle, `Nothing` leaves it.
pub open spec fn slot_after(slot: Option<HandleModel>, action: ActionModel) -> Option<HandleModel> {
    match action {
        ActionModel::Nothing => slot,
        ActionModel::Arm(_, t) => Some(t),
        ActionModel::Replace(t) => Some(t),
    }
}

/// The slot that the timing thread reads, after the actions of the steps
/// `events` were carried out in order.
pub open spec fn slot_spec(m: DelayModel, slot: Option<HandleModel>, events: Seq<(u64, HandleModel)>) -> Option<
    HandleModel,
>
    decreases events.len(),
{
    if events.len() == 0 {
        slot
    } else {
        let before = run_spec(m, events.drop_last());
        let step = advance_spec(before, events.last().0, events.last().1);
        slot_after(slot_spec(m, slot, events.drop_last()), step.action)
    }
}

/// The slot agrees with the timer: an armed timer's stored handle is in it.
pub open spec fn slot_agrees(m: DelayModel, slot: Option<HandleModel>) -> bool {
    match m.state {
        TimerState::Armed(t) => slot == Some(t),
        _ => true,
    }
}

/// A step at or after the deadline is done, whatever the timer's state, and
/// leaves the timer resolved.
pub proof fn lemma_due_resolves(m: DelayModel, now: u64, handle: HandleModel)
    requires
        now >= m.deadline,
    ensures
        advance_spec(m, now, handle).done,
        advance_spec(m, now, handle).next.state is Resolved,
{
}

/// A step that is not done was made before the deadline and leaves the timer
/// armed with the handle that the step was offered; if the timer was unarmed,
/// the step asks for the timing thread. So a timer never suspends without a
/// wake-up arranged for the task that advanced it.
pub proof fn lemma_suspended_is_armed(m: DelayModel, now: u64, handle: HandleModel)
    requires
        !advance_spec(m, now, handle).done,
    ensures
        now < m.deadline,
        advance_spec(m, now, handle).next.state == TimerState::Armed(handle),
        m.state is Unarmed ==> advance_spec(m, now, handle).action == ActionModel::Arm(
            m.deadline,
            handle,
        ),
{
}

/// A timer whose deadline has passed at its first step is done at once and
/// asks for nothing: no timing thread is started.
pub proof fn lemma_elapsed_never_arms(m: DelayModel, now: u64, handle: HandleModel)
    requires
        m.state is Unarmed,
        now >= m.deadline,
    ensures
        advance_spec(m, now, handle).done,
        advance_spec(m, now, handle).action is Nothing,
{
}

/// The deadline never changes.
pub proof fn lemma_deadline_fixed(m: DelayModel, events: Seq<(u64, HandleModel)>)
    ensures
        run_spec(m, events).deadline == m.deadline,
    decreases events.len(),
{
    if events.len() > 0 {
        lemma_deadline_fixed(m, events.drop_last());
    }
}

/// A resolved timer stays resolved, asks for nothing more, and every further
/// step is done.
pub proof fn lemma_resolved_is_final(m: DelayModel, events: Seq<(u64, HandleModel)>)
    requires
        m.state is Resolved,
    ensures
        run_spec(m, events) == m,
        arms(m, events) == 0,
        forall|slot: Option<HandleModel>| slot_spec(m, slot, events) == slot,
        forall|now: u64, handle: HandleModel| #[trigger]
            advance_spec(run_spec(m, events), now, handle).done,
    decreases events.len(),
{
    if events.len() > 0 {
        lemma_resolved_is_final(m, events.drop_last());
        assert forall|slot: Option<HandleModel>| slot_spec(m, slot, events) == slot by {
            assert(slot_spec(m, slot, events.drop_last()) == slot);
        }
    }
}

/// Over any steps a timer asks for at most one timing thread; one that was
/// armed or resolved before them asks for none; and once a thread was asked
/// for, the timer is no longer unarmed.
pub proof fn lemma_single_timing_thread(m: DelayModel, events: Seq<(u64, HandleModel)>)
    ensures
        arms(m, events) <= 1,
        !(m.state is Unarmed) ==> arms(m, events) == 0,
        !(m.state is Unarmed) ==> !(run_spec(m, events).state is Unarmed),
        arms(m, events) == 1 ==> !(run_spec(m, events).state is Unarmed),
    decreases events.len(),
{
    if events.len() > 0 {
        lemma_single_timing_thread(m, events.drop_last());
    }
}

/// Once the clock has reached the deadline at some step, that step and all
/// later ones leave the timer resolved, at whatever times the later ones are
/// made.
pub proof fn lemma_resolves_for_good(m: DelayModel, events: Seq<(u64, HandleModel)>, k: int)
    requires
        0 <= k < events.len(),
        events[k].0 >= m.deadline,
    ensures
        run_spec(m, events).state is Resolved,
    decreases events.len(),
{
    lemma_deadline_fixed(m, events.drop_last());
    if k < events.len() - 1 {
        assert(events.drop_last()[k] == events[k]);
        lemma_resolves_for_good(m, events.drop_last(), k);
    }
}

/// However often the handle changes between steps, the slot that the timing
/// thread reads follows it: after any steps, a timer that is still armed
/// stores the handle of the last step, task number and queue, and the slot
/// holds the same one, so the wake-up goes where the last step asked for it.
pub proof fn lemma_slot_follows_handle(
    m: DelayModel,
    slot: Option<HandleModel>,
    events: Seq<(u64, HandleModel)>,
)
    requires
        slot_agrees(m, slot),
    ensures
        slot_agrees(run_spec(m, events), slot_spec(m, slot, events)),
        events.len() > 0 && !(run_spec(m, events).state is Resolved) ==> run_spec(m, events).state
            == TimerState::Armed(events.last().1) && slot_spec(m, slot, events) == Some(
            events.last().1,
        ),
    decreases events.len(),
{
    if events.len() > 0 {
        lemma_slot_follows_handle(m, slot, events.drop_last());
    }
}

/// A timing thread that starts at `start` and sleeps for what is left then
/// wakes at or after the deadline, whenever it starts.
pub proof fn lemma_wake_is_due(deadline: u64, start: u64)
    ensures
        start + remaining_spec(deadline, start) >= deadline,
        start >= deadline ==> remaining_spec(deadline, start) == 0,
{
}

/// A fresh timer that is first advanced before its deadline resolves at its
/// second step, if that step is made once the timing thread has woken the
/// task: the first step is not ready and asks for the one timing thread with
/// the handle it was offered; a step at `second`, no earlier than the end of
/// the thread's sleep, is done; and no second thread was asked for.
pub proof fn lemma_resolves_at_second_step(
    m: DelayModel,
    first: u64,
    start: u64,
    second: u64,
    handle: HandleModel,
    later: HandleModel,
)
    requires
        m.state is Unarmed,
        first < m.deadline,
        second >= start + remaining_spec(m.deadline, start),
    ensures
        !advance_spec(m, first, handle).done,
        advance_spec(m, first, handle).action == ActionModel::Arm(m.deadline, handle),
        advance_spec(advance_spec(m, first, handle).next, second, later).done,
        run_spec(m, seq![(first, handle), (second, later)]).state is Resolved,
        arms(m, seq![(first, handle), (second, later)]) == 1,
{
    let events = seq![(first, handle), (second, later)];
    let one = events.drop_last();
    assert(one =~= seq![(first, handle)]);
    assert(one.drop_last() =~= Seq::<(u64, HandleModel)>::empty());
    assert(run_spec(m, one.drop_last()) == m);
    assert(run_spec(m, one) == advance_spec(m, first, handle).next);
    assert(arms(m, one.drop_last()) == 0);
    assert(arms(m, one) == 1);
}

/// A fresh timer whose deadline has passed when it is first advanced is done
/// after that one step, with no thread asked for and nothing stored.
pub proof fn lemma_resolves_at_first_step(m: DelayModel, now: u64, handle: HandleModel)
    requires
        m.state is Unarmed,
        now >= m.deadline,
    ensures
        run_spec(m, seq![(now, handle)]).state is Resolved,
        arms(m, seq![(now, handle)]) == 0,
        slot_spec(m, None, seq![(now, handle)]) is None,
{
    let events = seq![(now, handle)];
    assert(events.drop_last() =~= Seq::<(u64, HandleModel)>::empty());
    assert(run_spec(m, events.drop_last()) == m);
    assert(arms(m, events.drop_last()) == 0);
    assert(slot_spec(m, None, events.drop_last()) is None);
}

} // verus!
