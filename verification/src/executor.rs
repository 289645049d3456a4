//! The wake-driven executor.
//!
//! A task reaches the ready queue when it is submitted and whenever one of
//! its wake handles is invoked, from any thread. Whoever drives the executor
//! takes task numbers off the queue and hands each to `step`, which advances
//! that task exactly once. A task that is not ready is not queued again by
//! the executor: only a wake handle does that.

use crossbeam::channel::{unbounded, Receiver, Sender};
use vstd::prelude::*;
use vstd::seq_lib::lemma_seq_contains_after_push;
use crate::history::{
    agrees,
    lemma_step_agrees,
    lemma_step_resolves_once,
    lemma_tasks_where_push,
    resolves_once,
    tasks_of,
    tasks_where,
    Advance,
};
use crate::poll::Poll;
use crate::queue::push_id;
use crate::slab::{lemma_occupied_zero, occupied, Slab};
use crate::task::Suspendable;
use crate::wake::{Context, HandleModel, WakeHandle};

verus! {

/// What `step` did with a task number.
#[derive(Debug, PartialEq, Eq)]
pub enum Step<V> {
    /// The number names no waiting task: nothing was advanced.
    Stale,
    /// The task was advanced and is not ready; it waits for its next wake-up.
    Pending,
    /// The task was advanced, yielded this value, and was discarded.
    Finished(V),
}

/// An executor whose ready queue is fed by wake handles.
pub struct Executor<C: Suspendable> {
    tasks: Slab<C>,
    sender: Sender<usize>,
    scheduled: Receiver<usize>,
    history: Ghost<Seq<Advance>>,
}

impl<C: Suspendable> Executor<C> {
    /// The slots of the submitted tasks, by task number: the computation
    /// while the task waits, nothing once it is discarded.
    pub closed spec fn slots(&self) -> Seq<Option<C>> {
        self.tasks@
    }

    /// The advance steps made so far, first to last.
    pub closed spec fn history(&self) -> Seq<Advance> {
        self.history@
    }

    /// The consumer end of the executor's ready queue.
    pub closed spec fn queue_end(&self) -> Receiver<usize> {
        self.scheduled
    }

    /// The producer end of the executor's ready queue, which its wake handles
    /// push through.
    pub closed spec fn producer_end(&self) -> Sender<usize> {
        self.sender
    }

    /// The executor's invariant: its count of waiting tasks is right, no task
    /// was advanced after yielding its value, and a task that yielded its
    /// value is discarded.
    pub closed spec fn wf(&self) -> bool {
        &&& self.tasks.wf()
        &&& resolves_once(self.history@)
        &&& agrees(self.history@, self.tasks@)
        &&& forall|k: int|
            0 <= k < self.history@.len() ==> (#[trigger] self.history@[k]).handle
                == HandleModel::Wakes(self.history@[k].task, self.sender)
    }

    /// Whether `id` names a task that waits to be advanced.
    pub open spec fn is_live(&self, id: usize) -> bool {
        id < self.slots().len() && self.slots()[id as int] is Some
    }

    /// No task is ever advanced again after the step that yielded its value,
    /// a task that yielded its value is discarded, and every step was made
    /// with a handle that pushes the task advanced on this executor's queue.
    pub proof fn lemma_single_resolve(&self)
        requires
            self.wf(),
        ensures
            resolves_once(self.history()),
            forall|k: int|
                0 <= k < self.history().len() ==> (#[trigger] self.history()[k]).task
                    < self.slots().len() && (self.history()[k].resolved ==> !self.is_live(
                    self.history()[k].task,
                )),
            forall|k: int|
                0 <= k < self.history().len() ==> (#[trigger] self.history()[k]).handle
                    == HandleModel::Wakes(self.history()[k].task, self.producer_end()),
    {
    }

    /// An executor without tasks, with a fresh ready queue.
    pub fn new() -> (r: Executor<C>)
        ensures
            r.wf(),
            r.slots() == Seq::<Option<C>>::empty(),
            r.history() == Seq::<Advance>::empty(),
    {
        let (sender, scheduled) = unbounded();
        Executor { tasks: Slab::new(), sender, scheduled, history: Ghost(Seq::empty()) }
    }

    /// Submits a computation: gives it the next task number and pushes that
    /// number on the ready queue. Returns the number.
    pub fn spawn(&mut self, computation: C) -> (id: usize)
        requires
            old(self).wf(),
        ensures
            final(self).wf(),
            id == old(self).slots().len(),
            final(self).slots() == old(self).slots().push(Some(computation)),
            final(self).history() == old(self).history(),
            final(self).queue_end() == old(self).queue_end(),
            final(self).producer_end() == old(self).producer_end(),
    {
        let id = self.tasks.insert(computation);
        let _ = push_id(&self.sender, id);
        id
    }

    /// How many tasks were submitted so far.
    pub fn spawned(&self) -> (r: usize)
        ensures
            r == self.slots().len(),
    {
        self.tasks.len()
    }

    /// How many tasks wait to be advanced.
    pub fn live(&self) -> (r: usize)
        requires
            self.wf(),
        ensures
            r == occupied(self.slots()),
    {
        self.tasks.live()
    }

    /// Whether every submitted task has been discarded.
    pub fn is_idle(&self) -> (r: bool)
        requires
            self.wf(),
        ensures
            r <==> forall|id: usize| !self.is_live(id),
    {
        proof {
            lemma_occupied_zero(self.tasks@);
            self.tasks.lemma_len_bound();
            if occupied(self.tasks@) == 0 {
                assert forall|id: usize| !self.is_live(id) by {}
            } else {
                let i = choose|i: int| 0 <= i < self.tasks@.len() && !(self.tasks@[i] is None);
                assert(self.is_live(i as usize));
            }
        }
        self.tasks.live() == 0
    }

    /// Whether `id` names a task that waits to be advanced.
    pub fn is_waiting(&self, id: usize) -> (r: bool)
        ensures
            r == self.is_live(id),
    {
        self.tasks.contains(id)
    }

    /// A wake handle that pushes task `id` on this executor's ready queue.
    pub fn handle(&self, id: usize) -> (r: WakeHandle)
        ensures
            r@ == HandleModel::Wakes(id, self.producer_end()),
    {
        WakeHandle::for_task(id, self.sender.clone())
    }

    /// The consumer end of the ready queue. Whoever drives the executor
    /// receives task numbers from it and hands each to `step`.
    pub fn inbox(&self) -> (r: &Receiver<usize>)
        ensures
            *r == self.queue_end(),
    {
        &self.scheduled
    }

    /// Advances task `id` exactly once, with a wake handle for that task, if
    /// the task waits; otherwise does nothing.
    ///
    /// A task that yields its value is discarded at once, so no later step
    /// reaches it. A task that is not ready stays in its slot. The task is
    /// out of its slot while it is advanced: if the computation unwinds, the
    /// task is gone and the executor and the other tasks are as before.
    pub fn step(&mut self, id: usize) -> (r: Step<C::Output>)
        requires
            old(self).wf(),
        ensures
            final(self).wf(),
            final(self).queue_end() == old(self).queue_end(),
            final(self).producer_end() == old(self).producer_end(),
            final(self).slots().len() == old(self).slots().len(),
            forall|j: int|
                0 <= j < old(self).slots().len() && j != id ==> final(self).slots()[j]
                    == old(self).slots()[j],
            forall|j: usize| final(self).is_live(j) ==> old(self).is_live(j),
            !old(self).is_live(id) ==> r is Stale && final(self).slots() == old(self).slots()
                && final(self).history() == old(self).history(),
            old(self).is_live(id) ==> !(r is Stale) && (final(self).is_live(id) <==> r is Pending)
                && final(self).history() == old(self).history().push(
                Advance {
                    task: id,
                    handle: HandleModel::Wakes(id, old(self).producer_end()),
                    resolved: r is Finished,
                },
            ),
    {
        let mut task = match self.tasks.take(id) {
            Some(task) => task,
            None => {
                return Step::Stale;
            },
        };
        let ctx = Context::new(self.handle(id));
        // The task is out of its slot here, and the executor is whole without it.
        assert(self.wf());
        let outcome = task.advance(&ctx);
        self.settle(id, task, outcome)
    }

    /// Advances the tasks whose numbers come off the ready queue, one step per
    /// number, until the queue is empty, no task waits, or `budget` numbers were
    /// taken; with no budget or no task waiting it takes none. It never waits.
    /// Returns the tasks that finished, with their values, in finishing order.
    pub fn run_until_stalled(&mut self, budget: usize) -> (done: Vec<(usize, C::Output)>)
        requires
            old(self).wf(),
        ensures
            final(self).wf(),
            final(self).queue_end() == old(self).queue_end(),
            final(self).producer_end() == old(self).producer_end(),
            final(self).slots().len() == old(self).slots().len(),
            old(self).history().len() <= final(self).history().len() <= old(self).history().len()
                + budget,
            final(self).history().take(old(self).history().len() as int) == old(self).history(),
            done@.map_values(|d: (usize, C::Output)| d.0) == tasks_where(
                final(self).history().skip(old(self).history().len() as int),
                true,
            ),
            forall|j: usize|
                #![trigger final(self).is_live(j)]
                final(self).is_live(j) <==> old(self).is_live(j) && !tasks_where(
                    final(self).history().skip(old(self).history().len() as int),
                    true,
                ).contains(j),
            forall|j: usize|
                #![trigger final(self).slots()[j as int]]
                j < old(self).slots().len() && !tasks_of(
                    final(self).history().skip(old(self).history().len() as int),
                ).contains(j) ==> final(self).slots()[j as int] == old(self).slots()[j as int],
            forall|k: int|
                old(self).history().len() <= k < final(self).history().len() ==> old(self).is_live(
                    (#[trigger] final(self).history()[k]).task,
                ) && final(self).history()[k].handle == HandleModel::Wakes(
                    final(self).history()[k].task,
                    old(self).producer_end(),
                ),
            budget == 0 || (forall|j: usize| !old(self).is_live(j)) ==> done@.len() == 0
                && final(self).history() == old(self).history() && final(self).slots()
                == old(self).slots(),
    {
        let ghost h0 = self.history@;
        let ghost mut recs: Seq<Advance> = Seq::empty();
        let mut done: Vec<(usize, C::Output)> = Vec::new();
        let mut taken: usize = 0;
        let mut stalled = false;
        proof {
            assert(self.history@ =~= h0 + recs);
            assert(done@.map_values(|d: (usize, C::Output)| d.0) =~= Seq::<usize>::empty());
        }
        while taken < budget && !stalled
            invariant
                self.wf(),
                taken <= budget,
                self.scheduled == old(self).scheduled,
                self.sender == old(self).sender,
                self.tasks@.len() == old(self).tasks@.len(),
                self.history@ == h0 + recs,
                recs.len() <= taken,
                done@.map_values(|d: (usize, C::Output)| d.0) == tasks_where(recs, true),
                forall|j: usize|
                    #![trigger self.is_live(j)]
                    self.is_live(j) <==> old(self).is_live(j) && !tasks_where(recs, true).contains(
                        j,
                    ),
                forall|j: usize|
                    #![trigger self.tasks@[j as int]]
                    j < old(self).tasks@.len() && !tasks_of(recs).contains(j) ==> self.tasks@[j as int]
                        == old(self).tasks@[j as int],
                forall|k: int| 0 <= k < recs.len() ==> old(self).is_live((#[trigger] recs[k]).task),
            decreases
                budget - taken + if stalled {
                    0int
                } else {
                    1int
                },
        {
            if self.tasks.live() == 0 {
                stalled = true;
            } else {
                match self.scheduled.try_recv() {
                    Ok(id) => {
                        let ghost was_live = self.is_live(id);
                        let ghost done1 = done@;
                        let ghost recs1 = recs;
                        let ghost before = *self;
                        taken = taken + 1;
                        let outcome = self.step(id);
                        proof {
                            if was_live {
                                let record = Advance {
                                    task: id,
                                    handle: HandleModel::Wakes(id, self.sender),
                                    resolved: outcome is Finished,
                                };
                                recs = recs1.push(record);
                                assert(self.history@ =~= h0 + recs);
                                lemma_tasks_where_push(recs1, record, true);
                                assert(before.is_live(id));
                                assert forall|j: usize|
                                    #![trigger self.is_live(j)]
                                    self.is_live(j) <==> old(self).is_live(j) && !tasks_where(
                                        recs,
                                        true,
                                    ).contains(j) by {
                                    lemma_seq_contains_after_push(tasks_where(recs1, true), id, j);
                                    if j != id {
                                        assert(self.is_live(j) == before.is_live(j));
                                    }
                                }
                                assert forall|j: usize|
                                    #![trigger self.tasks@[j as int]]
                                    j < old(self).tasks@.len() && !tasks_of(recs).contains(
                                        j,
                                    ) implies self.tasks@[j as int] == old(self).tasks@[j as int] by {
                                    lemma_seq_contains_after_push(tasks_of(recs1), id, j);
                                    assert(self.tasks@[j as int] == before.tasks@[j as int]);
                                }
                            } else {
                                assert forall|j: usize|
                                    #![trigger self.is_live(j)]
                                    self.is_live(j) <==> old(self).is_live(j) && !tasks_where(
                                        recs,
                                        true,
                                    ).contains(j) by {
                                    assert(self.is_live(j) == before.is_live(j));
                                }
                            }
                        }
                        match outcome {
                            Step::Finished(value) => {
                                done.push((id, value));
                                proof {
                                    assert(done@.map_values(|d: (usize, C::Output)| d.0) =~= done1.map_values(
                                        |d: (usize, C::Output)| d.0,
                                    ).push(id));
                                }
                            },
                            _ => {},
                        }
                    },
                    Err(_) => {
                        stalled = true;
                    },
                }
            }
        }
        proof {
            assert(self.history@.take(h0.len() as int) =~= h0);
            assert(self.history@.skip(h0.len() as int) =~= recs);
            assert forall|k: int| h0.len() <= k < self.history@.len() implies old(self).is_live(
                (#[trigger] self.history@[k]).task,
            ) && self.history@[k].handle == HandleModel::Wakes(self.history@[k].task, self.sender) by {
                assert(self.history@[k] == recs[k - h0.len()]);
            }
            if budget == 0 || (forall|j: usize| !old(self).is_live(j)) {
                if recs.len() > 0 {
                    assert(old(self).is_live(recs[0].task));
                }
                assert(self.history@ =~= h0);
                assert(tasks_of(recs) =~= Seq::<usize>::empty());
                assert forall|j: int| 0 <= j < self.tasks@.len() implies self.tasks@[j]
                    == old(self).tasks@[j] by {
                    self.tasks.lemma_len_bound();
                    assert(!tasks_of(recs).contains(j as usize));
                    assert(self.tasks@[j as usize as int] == old(self).tasks@[j as usize as int]);
                }
                assert(self.tasks@ =~= old(self).tasks@);
                assert(done@.map_values(|d: (usize, C::Output)| d.0).len() == 0);
            }
        }
        done
    }

    /// Records the outcome of advancing task `id`, whose slot was emptied for
    /// the step: a task that is done stays out, one that is not ready goes
    /// back into its slot.
    fn settle(&mut self, id: usize, task: C, outcome: Poll<C::Output>) -> (r: Step<C::Output>)
        requires
            old(self).tasks.wf(),
            resolves_once(old(self).history@),
            forall|k: int|
                0 <= k < old(self).history@.len() ==> (#[trigger] old(self).history@[k]).handle
                    == HandleModel::Wakes(old(self).history@[k].task, old(self).sender),
            id < old(self).tasks@.len(),
            old(self).tasks@[id as int] is None,
            agrees(old(self).history@, old(self).tasks@.update(id as int, Some(task))),
        ensures
            final(self).wf(),
            final(self).scheduled == old(self).scheduled,
            final(self).sender == old(self).sender,
            final(self).history@ == old(self).history@.push(
                Advance {
                    task: id,
                    handle: HandleModel::Wakes(id, old(self).sender),
                    resolved: outcome is Done,
                },
            ),
            match outcome {
                Poll::Done(v) => r == Step::Finished(v) && final(self).tasks@ == old(self).tasks@,
                Poll::NotReady => r is Pending && final(self).tasks@ == old(self).tasks@.update(
                    id as int,
                    Some(task),
                ),
            },
    {
        let ghost record = Advance {
            task: id,
            handle: HandleModel::Wakes(id, self.sender),
            resolved: outcome is Done,
        };
        let ghost before = self.tasks@.update(id as int, Some(task));
        proof {
            lemma_step_resolves_once(self.history@, before, record);
        }
        self.history = Ghost(self.history@.push(record));
        match outcome {
            Poll::Done(value) => {
                proof {
                    lemma_step_agrees(old(self).history@, before, self.tasks@, record);
                }
                Step::Finished(value)
            },
            Poll::NotReady => {
                let _ = self.tasks.put_back(id, task);
                proof {
                    lemma_step_agrees(old(self).history@, before, self.tasks@, record);
                }
                Step::Pending
            },
        }
    }
}

} // verus!
