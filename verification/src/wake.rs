//! Wake handles: cloneable tokens that ask for a task to be advanced again.

use crossbeam::channel::Sender;
use vstd::prelude::*;
use crate::queue::push_id;

verus! {

/// Whom a wake handle wakes.
#[derive(Clone, Copy, Debug, PartialEq, Eq, Structural)]
pub enum Target {
    /// Nobody: the handle does nothing.
    Nobody,
    /// The task with this number in its executor.
    Task(usize),
}

/// What invoking a wake handle does, as a value.
pub enum HandleModel {
    /// Nothing.
    Nobody,
    /// It wakes the task with this number, by pushing the number through
    /// this producer of a ready queue.
    Wakes(usize, Sender<usize>),
}

impl HandleModel {
    /// Whom the handle wakes.
    pub open spec fn target(self) -> Target {
        match self {
            HandleModel::Nobody => Target::Nobody,
            HandleModel::Wakes(id, _) => Target::Task(id),
        }
    }
}

enum Route {
    Silent,
    Queue(usize, Sender<usize>),
}

/// A token that, when invoked, puts its task back on the ready queue. It can
/// be cloned freely and invoked from any thread, any number of times.
pub struct WakeHandle {
    route: Route,
}

impl View for WakeHandle {
    type V = HandleModel;

    closed spec fn view(&self) -> HandleModel {
        match self.route {
            Route::Silent => HandleModel::Nobody,
            Route::Queue(id, queue) => HandleModel::Wakes(id, queue),
        }
    }
}

impl WakeHandle {
    /// The handle that wakes nobody, for schedulers that poll again on their
    /// own.
    pub fn noop() -> (r: WakeHandle)
        ensures
            r@ == HandleModel::Nobody,
    {
        WakeHandle { route: Route::Silent }
    }

    /// The handle that pushes task `id` on `queue`, the producer end of an
    /// executor's ready queue.
    pub(crate) fn for_task(id: usize, queue: Sender<usize>) -> (r: WakeHandle)
        ensures
            r@ == HandleModel::Wakes(id, queue),
    {
        WakeHandle { route: Route::Queue(id, queue) }
    }

    /// Whom this handle wakes.
    pub fn target(&self) -> (r: Target)
        ensures
            r == self@.target(),
    {
        match &self.route {
            Route::Silent => Target::Nobody,
            Route::Queue(id, _) => Target::Task(*id),
        }
    }

    /// Whether invoking `self` and invoking `other` wake the same task: both
    /// wake nobody, or both push the same number on the same ready queue.
    pub fn will_wake(&self, other: &WakeHandle) -> (r: bool)
        ensures
            r == (self@ == other@),
    {
        match (&self.route, &other.route) {
            (Route::Silent, Route::Silent) => true,
            (Route::Queue(a, mine), Route::Queue(b, theirs)) => *a == *b && mine.same_channel(
                theirs,
            ),
            _ => false,
        }
    }

    /// Asks for the task to be advanced again: pushes its number on the ready
    /// queue. Returns whether a number was pushed; the handle that wakes
    /// nobody never pushes. Whether the push succeeds depends on the queue
    /// still being read.
    pub fn wake(&self) -> (pushed: bool)
        ensures
            self@ == HandleModel::Nobody ==> !pushed,
    {
        match &self.route {
            Route::Silent => false,
            Route::Queue(id, queue) => push_id(queue, *id),
        }
    }
}

impl Clone for WakeHandle {
    /// A second handle for the same task.
    fn clone(&self) -> (r: WakeHandle)
        ensures
            r@ == self@,
    {
        match &self.route {
            Route::Silent => WakeHandle { route: Route::Silent },
            Route::Queue(id, queue) => WakeHandle { route: Route::Queue(*id, queue.clone()) },
        }
    }
}

/// What a computation sees while it is advanced.
pub struct Context {
    handle: WakeHandle,
}

impl View for Context {
    type V = HandleModel;

    closed spec fn view(&self) -> HandleModel {
        self.handle@
    }
}

impl Context {
    /// A context that offers `handle`.
    pub fn new(handle: WakeHandle) -> (r: Context)
        ensures
            r@ == handle@,
    {
        Context { handle }
    }

    /// A clone of the handle that wakes the task being advanced.
    pub fn current_wake_handle(&self) -> (r: WakeHandle)
        ensures
            r@ == self@,
    {
        self.handle.clone()
    }

    /// The handle that wakes the task being advanced, borrowed.
    pub fn wake_handle(&self) -> (r: &WakeHandle)
        ensures
            r@ == self@,
    {
        &self.handle
    }
}

} // verus!
