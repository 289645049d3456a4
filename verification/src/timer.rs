//! The timer: a computation that resolves once a deadline has passed.
//!
//! `Delay` holds the decisions only. It reads no clock and starts no thread:
//! the caller passes the current time in, and gets back, besides the outcome,
//! what has to be done outside (start the one timing thread, or hand the
//! timing thread a new handle). Time is a count of ticks of any monotonic
//! clock.

use vstd::prelude::*;
use crate::poll::Poll;
use crate::wake::{Context, HandleModel, Target, WakeHandle};

verus! {

/// Where a timer stands.
pub enum TimerState {
    /// Never advanced before its deadline: no handle stored, no timing thread.
    Unarmed,
    /// A timing thread runs, and this handle is stored for it.
    Armed(HandleModel),
    /// The deadline has passed and the timer has said so.
    Resolved,
}

/// A timer as a plain value.
pub struct DelayModel {
    pub deadline: u64,
    pub state: TimerState,
}

/// What one advance step asks of the outside, as a plain value.
pub enum ActionModel {
    /// Nothing.
    Nothing,
    /// Start the timing thread: sleep until the deadline, then invoke the
    /// handle stored for it at that moment, first this one.
    Arm(u64, HandleModel),
    /// Store this handle for the running timing thread.
    Replace(HandleModel),
}

/// The result of one advance step, as plain values.
pub struct Advanced {
    pub next: DelayModel,
    pub done: bool,
    pub action: ActionModel,
}

/// One advance step of a timer at time `now`, offered `handle`.
pub open spec fn advance_spec(m: DelayModel, now: u64, handle: HandleModel) -> Advanced {
    let resolved = DelayModel { deadline: m.deadline, state: TimerState::Resolved };
    let armed = DelayModel { deadline: m.deadline, state: TimerState::Armed(handle) };
    match m.state {
        TimerState::Resolved => Advanced { next: m, done: true, action: ActionModel::Nothing },
        TimerState::Unarmed => if now >= m.deadline {
            Advanced { next: resolved, done: true, action: ActionModel::Nothing }
        } else {
            Advanced { next: armed, done: false, action: ActionModel::Arm(m.deadline, handle) }
        },
        TimerState::Armed(stored) => {
            let action = if stored == handle {
                ActionModel::Nothing
            } else {
                ActionModel::Replace(handle)
            };
            if now >= m.deadline {
                Advanced { next: resolved, done: true, action }
            } else {
                Advanced { next: armed, done: false, action }
            }
        },
    }
}

/// How long a timing thread that starts at `now` has to sleep.
pub open spec fn remaining_spec(deadline: u64, now: u64) -> int {
    if now < deadline {
        deadline - now
    } else {
        0
    }
}

/// How long a timing thread that starts at `now` has to sleep: the time left
/// to the deadline, and nothing once it has passed.
pub fn remaining(deadline: u64, now: u64) -> (r: u64)
    ensures
        r == remaining_spec(deadline, now),
{
    if now < deadline {
        deadline - now
    } else {
        0
    }
}

/// What one advance step asks of the outside.
pub enum TimerAction {
    /// Nothing.
    Nothing,
    /// Start the timing thread. It sleeps for `remaining(deadline, now)`, with
    /// `now` read when it starts, and then invokes the handle stored for it
    /// at that moment; `handle` is the first one stored.
    Arm { deadline: u64, handle: WakeHandle },
    /// Store `handle` for the timing thread, in place of the one it has.
    Replace { handle: WakeHandle },
}

impl View for TimerAction {
    type V = ActionModel;

    open spec fn view(&self) -> ActionModel {
        match *self {
            TimerAction::Nothing => ActionModel::Nothing,
            TimerAction::Arm { deadline, handle } => ActionModel::Arm(deadline, handle@),
            TimerAction::Replace { handle } => ActionModel::Replace(handle@),
        }
    }
}

enum Stage {
    Unarmed,
    Armed(WakeHandle),
    Resolved,
}

/// A timer with a fixed deadline.
pub struct Delay {
    when: u64,
    stage: Stage,
}

impl View for Delay {
    type V = DelayModel;

    closed spec fn view(&self) -> DelayModel {
        DelayModel {
            deadline: self.when,
            state: match self.stage {
                Stage::Unarmed => TimerState::Unarmed,
                Stage::Armed(handle) => TimerState::Armed(handle@),
                Stage::Resolved => TimerState::Resolved,
            },
        }
    }
}

impl Delay {
    /// A timer that resolves once the clock has reached `when`.
    pub fn new(when: u64) -> (r: Delay)
        ensures
            r@ == (DelayModel { deadline: when, state: TimerState::Unarmed }),
    {
        Delay { when, stage: Stage::Unarmed }
    }

    /// The deadline.
    pub fn deadline(&self) -> (r: u64)
        ensures
            r == self@.deadline,
    {
        self.when
    }

    /// Whether a timing thread has been asked for and the timer has not
    /// resolved yet.
    pub fn is_armed(&self) -> (r: bool)
        ensures
            r == (self@.state is Armed),
    {
        match &self.stage {
            Stage::Armed(_) => true,
            _ => false,
        }
    }

    /// Whether the timer has resolved.
    pub fn is_resolved(&self) -> (r: bool)
        ensures
            r == (self@.state is Resolved),
    {
        match &self.stage {
            Stage::Resolved => true,
            _ => false,
        }
    }

    /// Whom the stored handle wakes, if a handle is stored.
    pub fn stored_target(&self) -> (r: Option<Target>)
        ensures
            r == match self@.state {
                TimerState::Armed(handle) => Some(handle.target()),
                _ => None::<Target>,
            },
    {
        match &self.stage {
            Stage::Armed(handle) => Some(handle.target()),
            _ => None,
        }
    }

    /// One advance step at time `now`.
    ///
    /// Before the deadline the timer is not ready: on the first such step it
    /// stores the context's handle and asks for the timing thread; on later
    /// ones it compares the stored handle with the context's and, where they
    /// wake different tasks, stores the context's and asks for the timing
    /// thread to be given it. From the deadline on the timer is done. A timer
    /// whose deadline has passed at its first step never asks for a thread.
    pub fn advance(&mut self, ctx: &Context, now: u64) -> (r: (Poll<()>, TimerAction))
        ensures
            final(self)@ == advance_spec(old(self)@, now, ctx@).next,
            (r.0 is Done) == advance_spec(old(self)@, now, ctx@).done,
            r.1@ == advance_spec(old(self)@, now, ctx@).action,
    {
        let due = now >= self.when;
        let same = match &self.stage {
            Stage::Resolved => {
                return (Poll::Done(()), TimerAction::Nothing);
            },
            Stage::Unarmed => {
                if due {
                    self.stage = Stage::Resolved;
                    return (Poll::Done(()), TimerAction::Nothing);
                }
                let handle = ctx.current_wake_handle();
                self.stage = Stage::Armed(handle.clone());
                return (Poll::NotReady, TimerAction::Arm { deadline: self.when, handle });
            },
            Stage::Armed(stored) => stored.will_wake(ctx.wake_handle()),
        };
        let action = if same {
            TimerAction::Nothing
        } else {
            TimerAction::Replace { handle: ctx.current_wake_handle() }
        };
        if due {
            self.stage = Stage::Resolved;
            (Poll::Done(()), action)
        } else {
            if !same {
                self.stage = Stage::Armed(ctx.current_wake_handle());
            }
            (Poll::NotReady, action)
        }
    }
}

} // verus!
