//! The round-robin executor: a simplified mode that polls instead of waiting
//! to be woken.
//!
//! The tasks stand in a list. A turn takes the task at the front, advances it
//! with the handle that wakes nobody, and puts it at the back if it is not
//! ready. A pass is one turn for each task that stood in the list when the
//! pass began. Progress comes from the outside changing between passes (time
//! going by), not from wake-ups; the caller decides how often to pass.

use std::collections::VecDeque;
use vstd::prelude::*;
use vstd::seq_lib::lemma_seq_contains_after_push;
use crate::history::{
    advances_of,
    agrees,
    lemma_pass_is_fair,
    lemma_step_agrees,
    lemma_step_resolves_once,
    lemma_tasks_where_push,
    resolves_once,
    tasks_of,
    tasks_where,
    Advance,
};
use crate::poll::Poll;
use crate::slab::Slab;
use crate::task::Suspendable;
use crate::wake::{Context, HandleModel, WakeHandle};

verus! {

/// A list without repeats stays so when something that it lacks is put at
/// its back.
pub proof fn lemma_push_keeps_distinct(q: Seq<usize>, x: usize)
    requires
        q.no_duplicates(),
        !q.contains(x),
    ensures
        q.push(x).no_duplicates(),
{
    let p = q.push(x);
    assert forall|i: int, j: int| 0 <= i < p.len() && 0 <= j < p.len() && i != j implies p[i] != p[j] by {
        if i < q.len() && j < q.len() {
            assert(q[i] != q[j]);
        } else if i < q.len() {
            assert(q.contains(q[i]));
        } else {
            assert(q.contains(q[j]));
        }
    }
}

/// A list without repeats stays so when its front is taken off, and then
/// holds what it held before but for the front.
pub proof fn lemma_drop_first_keeps_distinct(q: Seq<usize>)
    requires
        q.no_duplicates(),
        q.len() > 0,
    ensures
        q.drop_first().no_duplicates(),
        forall|t: usize| #[trigger] q.drop_first().contains(t) <==> q.contains(t) && t != q[0],
{
    let rest = q.drop_first();
    assert forall|i: int, j: int| 0 <= i < rest.len() && 0 <= j < rest.len() && i != j implies rest[i]
        != rest[j] by {
        assert(q[i + 1] != q[j + 1]);
    }
    assert forall|t: usize| #[trigger] rest.contains(t) <==> q.contains(t) && t != q[0] by {
        if rest.contains(t) {
            let i = choose|i: int| 0 <= i < rest.len() && rest[i] == t;
            assert(q[i + 1] == t);
            assert(q[i + 1] != q[0]);
        }
        if q.contains(t) && t != q[0] {
            let i = choose|i: int| 0 <= i < q.len() && q[i] == t;
            assert(rest[i - 1] == t);
        }
    }
}

/// An executor that advances its tasks in turn, over and over.
pub struct RoundRobin<C: Suspendable> {
    tasks: Slab<C>,
    order: VecDeque<usize>,
    history: Ghost<Seq<Advance>>,
}

impl<C: Suspendable> RoundRobin<C> {
    /// The slots of the submitted tasks, by task number: the computation
    /// while the task is in the list, nothing once it is discarded.
    pub closed spec fn slots(&self) -> Seq<Option<C>> {
        self.tasks@
    }

    /// The list of tasks still to be advanced, front first.
    pub closed spec fn queue(&self) -> Seq<usize> {
        self.order@
    }

    /// The advance steps made so far, first to last.
    pub closed spec fn history(&self) -> Seq<Advance> {
        self.history@
    }

    /// The executor's invariant: the list holds each task that is not yet
    /// discarded once and nothing else, no task was advanced after yielding
    /// its value, and a task that yielded its value is discarded.
    pub closed spec fn wf(&self) -> bool {
        &&& self.tasks.wf()
        &&& resolves_once(self.history@)
        &&& agrees(self.history@, self.tasks@)
        &&& self.order@.no_duplicates()
        &&& forall|id: usize| self.tasks.holds(id) <==> #[trigger] self.order@.contains(id)
    }

    /// Whether `id` names a task that is not yet discarded.
    pub open spec fn is_live(&self, id: usize) -> bool {
        id < self.slots().len() && self.slots()[id as int] is Some
    }

    /// The list holds exactly the tasks that are not yet discarded, each
    /// once; no task is ever advanced again after the step that yielded its
    /// value; and a task that yielded its value is discarded.
    pub proof fn lemma_list_is_exact(&self)
        requires
            self.wf(),
        ensures
            self.queue().no_duplicates(),
            forall|id: usize|
                #![trigger self.is_live(id)]
                #![trigger self.queue().contains(id)]
                self.is_live(id) <==> self.queue().contains(id),
            resolves_once(self.history()),
            forall|k: int|
                0 <= k < self.history().len() ==> (#[trigger] self.history()[k]).task
                    < self.slots().len() && (self.history()[k].resolved ==> !self.is_live(
                    self.history()[k].task,
                )),
    {
    }

    /// An executor without tasks.
    pub fn new() -> (r: RoundRobin<C>)
        ensures
            r.wf(),
            r.slots() == Seq::<Option<C>>::empty(),
            r.queue() == Seq::<usize>::empty(),
            r.history() == Seq::<Advance>::empty(),
    {
        RoundRobin { tasks: Slab::new(), order: VecDeque::new(), history: Ghost(Seq::empty()) }
    }

    /// Submits a computation: gives it the next task number and puts it at
    /// the back of the list. Returns the number.
    pub fn spawn(&mut self, computation: C) -> (id: usize)
        requires
            old(self).wf(),
        ensures
            final(self).wf(),
            id == old(self).slots().len(),
            final(self).slots() == old(self).slots().push(Some(computation)),
            final(self).queue() == old(self).queue().push(id),
            final(self).history() == old(self).history(),
    {
        let id = self.tasks.insert(computation);
        proof {
            assert(!old(self).tasks.holds(id));
            lemma_push_keeps_distinct(self.order@, id);
        }
        self.order.push_back(id);
        proof {
            assert forall|t: usize| self.tasks.holds(t) <==> #[trigger] self.order@.contains(t) by {
                lemma_seq_contains_after_push(old(self).order@, id, t);
                if t != id {
                    assert(self.tasks.holds(t) == old(self).tasks.holds(t));
                }
            }
            assert forall|k: int| 0 <= k < self.history@.len() implies (#[trigger] self.history@[k]).task
                < self.tasks@.len() && (self.history@[k].resolved
                ==> self.tasks@[self.history@[k].task as int] is None) by {}
        }
        id
    }

    /// How many tasks stand in the list.
    pub fn len(&self) -> (r: usize)
        ensures
            r == self.queue().len(),
    {
        self.order.len()
    }

    /// Whether the list is empty: every submitted task has been discarded.
    pub fn is_empty(&self) -> (r: bool)
        ensures
            r == (self.queue().len() == 0),
    {
        self.order.len() == 0
    }

    /// One turn: takes the task at the front of the list, advances it once
    /// with the handle that wakes nobody, and puts it at the back if it is
    /// not ready. Returns the task's number with its value if it is done, in
    /// which case the task is discarded; returns nothing if it is not ready
    /// or the list is empty.
    pub fn turn(&mut self) -> (r: Option<(usize, C::Output)>)
        requires
            old(self).wf(),
        ensures
            final(self).wf(),
            final(self).slots().len() == old(self).slots().len(),
            old(self).queue().len() == 0 ==> r is None,
            old(self).queue().len() == 0 ==> final(self).queue() == old(self).queue(),
            old(self).queue().len() == 0 ==> final(self).history() == old(self).history(),
            old(self).queue().len() == 0 ==> final(self).slots() == old(self).slots(),
            old(self).queue().len() > 0 ==> final(self).history() == old(self).history().push(
                Advance { task: old(self).queue()[0], handle: HandleModel::Nobody, resolved: r is Some },
            ),
            old(self).queue().len() > 0 ==> (r matches Some(done) ==> done.0 == old(self).queue()[0]),
            old(self).queue().len() > 0 && r is Some ==> final(self).queue()
                == old(self).queue().drop_first(),
            old(self).queue().len() > 0 && r is None ==> final(self).queue()
                == old(self).queue().drop_first().push(old(self).queue()[0]),
            old(self).queue().len() > 0 ==> (final(self).is_live(old(self).queue()[0]) <==> r is None),
            forall|j: int|
                0 <= j < old(self).slots().len() && old(self).queue().len() > 0
                    && j != old(self).queue()[0] ==> final(self).slots()[j] == old(self).slots()[j],
    {
        let ghost q0 = self.order@;
        let ghost s0 = self.tasks@;
        let id = match self.order.pop_front() {
            Some(id) => id,
            None => {
                return None;
            },
        };
        proof {
            assert(self.order@ =~= q0.drop_first());
            lemma_drop_first_keeps_distinct(q0);
            assert(q0.contains(id));
        }
        let mut task = match self.tasks.take(id) {
            Some(task) => task,
            None => {
                proof {
                    assert(false);
                }
                return None;
            },
        };
        let ctx = Context::new(WakeHandle::noop());
        // The task is out of its slot and out of the list here, and the
        // executor is whole without it.
        assert(self.wf()) by {
            assert forall|t: usize| self.tasks.holds(t) <==> #[trigger] self.order@.contains(t) by {
                if t != id {
                    assert(self.tasks.holds(t) == old(self).tasks.holds(t));
                }
            }
        }
        assert(self.tasks@.update(id as int, Some(task)) =~= s0);
        let outcome = task.advance(&ctx);
        self.settle(id, task, outcome)
    }

    /// Records the outcome of advancing task `id`, which was taken out of its
    /// slot and off the list for the step: a task that is done stays out and
    /// its value is handed on, one that is not ready goes back into its slot
    /// and to the back of the list.
    fn settle(&mut self, id: usize, task: C, outcome: Poll<C::Output>) -> (r: Option<
        (usize, C::Output),
    >)
        requires
            old(self).wf(),
            id < old(self).tasks@.len(),
            old(self).tasks@[id as int] is None,
            agrees(old(self).history@, old(self).tasks@.update(id as int, Some(task))),
        ensures
            final(self).wf(),
            final(self).history@ == old(self).history@.push(
                Advance { task: id, handle: HandleModel::Nobody, resolved: outcome is Done },
            ),
            match outcome {
                Poll::Done(v) => r == Some((id, v)) && final(self).tasks@ == old(self).tasks@
                    && final(self).order@ == old(self).order@,
                Poll::NotReady => r is None && final(self).tasks@ == old(self).tasks@.update(
                    id as int,
                    Some(task),
                ) && final(self).order@ == old(self).order@.push(id),
            },
    {
        let ghost record = Advance { task: id, handle: HandleModel::Nobody, resolved: outcome is Done };
        let ghost before = self.tasks@.update(id as int, Some(task));
        proof {
            lemma_step_resolves_once(self.history@, before, record);
        }
        self.history = Ghost(self.history@.push(record));
        match outcome {
            Poll::Done(value) => {
                proof {
                    lemma_step_agrees(old(self).history@, before, self.tasks@, record);
                }
                Some((id, value))
            },
            Poll::NotReady => {
                proof {
                    assert(!old(self).tasks.holds(id));
                    lemma_push_keeps_distinct(self.order@, id);
                }
                let _ = self.tasks.put_back(id, task);
                self.order.push_back(id);
                proof {
                    lemma_step_agrees(old(self).history@, before, self.tasks@, record);
                    assert forall|t: usize| self.tasks.holds(t) <==> #[trigger] self.order@.contains(
                        t,
                    ) by {
                        lemma_seq_contains_after_push(old(self).order@, id, t);
                        if t != id {
                            assert(self.tasks.holds(t) == old(self).tasks.holds(t));
                        }
                    }
                }
                None
            },
        }
    }

    /// One pass: a turn for each task that stands in the list when the pass
    /// begins, front to back. Each of those tasks is advanced exactly once,
    /// in the order of the list. Returns the tasks that are done, each with
    /// its value; those that are not ready stand in the list afterwards, in
    /// the same order as before.
    pub fn run(&mut self) -> (done: Vec<(usize, C::Output)>)
        requires
            old(self).wf(),
        ensures
            final(self).wf(),
            final(self).slots().len() == old(self).slots().len(),
            forall|j: int|
                0 <= j < old(self).slots().len() && old(self).slots()[j] is None
                    ==> final(self).slots()[j] is None,
            final(self).history().len() == old(self).history().len() + old(self).queue().len(),
            final(self).history().take(old(self).history().len() as int) == old(self).history(),
            tasks_of(final(self).history().skip(old(self).history().len() as int))
                == old(self).queue(),
            forall|k: int|
                old(self).history().len() <= k < final(self).history().len() ==> (
                #[trigger] final(self).history()[k]).handle == HandleModel::Nobody,
            final(self).queue() == tasks_where(
                final(self).history().skip(old(self).history().len() as int),
                false,
            ),
            done@.map_values(|d: (usize, C::Output)| d.0) == tasks_where(
                final(self).history().skip(old(self).history().len() as int),
                true,
            ),
            forall|task: usize|
                #[trigger] advances_of(final(self).history(), task) == advances_of(
                    old(self).history(),
                    task,
                ) + if old(self).is_live(task) {
                    1nat
                } else {
                    0nat
                },
    {
        let ghost q0 = self.order@;
        let ghost h0 = self.history@;
        let n = self.order.len();
        let mut done: Vec<(usize, C::Output)> = Vec::new();
        let mut k: usize = 0;
        proof {
            assert(self.history@.take(h0.len() as int) =~= h0);
            assert(self.history@.skip(h0.len() as int) =~= Seq::<Advance>::empty());
            assert(tasks_of(Seq::<Advance>::empty()) =~= q0.take(0));
            assert(self.order@ =~= q0.skip(0) + tasks_where(Seq::<Advance>::empty(), false));
            assert(done@.map_values(|d: (usize, C::Output)| d.0) =~= tasks_where(
                Seq::<Advance>::empty(),
                true,
            ));
        }
        while k < n
            invariant
                self.wf(),
                k <= n,
                n == q0.len(),
                old(self).wf(),
                q0 == old(self).order@,
                self.tasks@.len() == old(self).tasks@.len(),
                forall|j: int|
                    0 <= j < old(self).tasks@.len() && old(self).tasks@[j] is None
                        ==> self.tasks@[j] is None,
                self.history@.len() == h0.len() + k,
                self.history@.take(h0.len() as int) == h0,
                tasks_of(self.history@.skip(h0.len() as int)) == q0.take(k as int),
                forall|j: int|
                    h0.len() <= j < self.history@.len() ==> (#[trigger] self.history@[j]).handle
                        == HandleModel::Nobody,
                self.order@ == q0.skip(k as int) + tasks_where(
                    self.history@.skip(h0.len() as int),
                    false,
                ),
                done@.map_values(|d: (usize, C::Output)| d.0) == tasks_where(
                    self.history@.skip(h0.len() as int),
                    true,
                ),
            decreases n - k,
        {
            let ghost h1 = self.history@;
            let ghost recs = h1.skip(h0.len() as int);
            let ghost q1 = self.order@;
            let ghost done1 = done@;
            proof {
                assert(q1.len() > 0);
                assert(q1[0] == q0.skip(k as int)[0]);
                assert(q0.contains(q0[k as int]));
                assert(old(self).tasks.holds(q0[k as int]));
            }
            let result = self.turn();
            let ghost record = Advance { task: q0[k as int], handle: HandleModel::Nobody, resolved: result is Some };
            proof {
                assert(self.history@ == h1.push(record));
                assert(self.history@.skip(h0.len() as int) =~= recs.push(record));
                assert(self.history@.take(h0.len() as int) =~= h1.take(h0.len() as int));
                lemma_tasks_where_push(recs, record, false);
                lemma_tasks_where_push(recs, record, true);
                assert(q0.take(k as int + 1) =~= q0.take(k as int).push(q0[k as int]));
                assert(q1.drop_first() =~= q0.skip(k as int + 1) + tasks_where(recs, false));
                assert forall|j: int| h0.len() <= j < self.history@.len() implies (
                #[trigger] self.history@[j]).handle == HandleModel::Nobody by {
                    if j < h1.len() {
                        assert(self.history@[j] == h1[j]);
                    }
                }
            }
            match result {
                Some(finished) => {
                    done.push(finished);
                    proof {
                        assert(done@.map_values(|d: (usize, C::Output)| d.0) =~= done1.map_values(
                            |d: (usize, C::Output)| d.0,
                        ).push(finished.0));
                    }
                },
                None => {
                    proof {
                        assert(self.order@ =~= q0.skip(k as int + 1) + tasks_where(
                            recs.push(record),
                            false,
                        ));
                    }
                },
            }
            k = k + 1;
        }
        proof {
            assert(q0.take(n as int) =~= q0);
            assert(q0.skip(n as int) =~= Seq::<usize>::empty());
            assert(self.order@ =~= tasks_where(self.history@.skip(h0.len() as int), false));
            assert forall|task: usize|
                advances_of(self.history@, task) == advances_of(h0, task) + if old(self).is_live(
                    task,
                ) {
                    1nat
                } else {
                    0nat
                } by {
                lemma_pass_is_fair(h0, self.history@, q0, task);
                assert(old(self).tasks.holds(task) <==> q0.contains(task));
            }
        }
        done
    }
}

} // verus!
