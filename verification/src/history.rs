//! The record of the advance steps that a scheduler has made.

use vstd::prelude::*;
use crate::wake::HandleModel;

verus! {

/// One advance step that a scheduler made and that returned.
pub struct Advance {
    /// The number of the task that was advanced.
    pub task: usize,
    /// The wake handle that the step was offered.
    pub handle: HandleModel,
    /// Whether the step yielded the task's final value.
    pub resolved: bool,
}

/// No task is advanced again after the step that yielded its value.
pub open spec fn resolves_once(h: Seq<Advance>) -> bool {
    forall|i: int, j: int| 0 <= i < j < h.len() && h[i].task == h[j].task ==> !h[i].resolved
}

/// The record fits the slots: every step was made on an existing slot, and
/// the slot of a task that has yielded its value is empty.
pub open spec fn agrees<C>(h: Seq<Advance>, slots: Seq<Option<C>>) -> bool {
    forall|k: int|
        0 <= k < h.len() ==> (#[trigger] h[k]).task < slots.len() && (h[k].resolved
            ==> slots[h[k].task as int] is None)
}

/// How many steps of the record were made on `task`.
pub open spec fn advances_of(h: Seq<Advance>, task: usize) -> nat
    decreases h.len(),
{
    if h.len() == 0 {
        0
    } else {
        advances_of(h.drop_last(), task) + if h.last().task == task {
            1nat
        } else {
            0nat
        }
    }
}

/// A step on a task whose slot is filled keeps the record free of steps after
/// the final one.
pub proof fn lemma_step_resolves_once<C>(h: Seq<Advance>, slots: Seq<Option<C>>, a: Advance)
    requires
        resolves_once(h),
        agrees(h, slots),
        a.task < slots.len(),
        slots[a.task as int] is Some,
    ensures
        resolves_once(h.push(a)),
{
    let g = h.push(a);
    assert forall|i: int, j: int| 0 <= i < j < g.len() && g[i].task == g[j].task implies !g[i].resolved by {
        if j < h.len() {
            assert(g[i] == h[i] && g[j] == h[j]);
        } else {
            assert(g[i] == h[i]);
        }
    }
}

/// A step on a task whose slot was filled keeps the record fitting the
/// slots, if the step changed no other slot and the slot of a task that
/// yielded its value is empty afterwards.
pub proof fn lemma_step_agrees<C>(
    h: Seq<Advance>,
    before: Seq<Option<C>>,
    after: Seq<Option<C>>,
    a: Advance,
)
    requires
        agrees(h, before),
        a.task < before.len(),
        before[a.task as int] is Some,
        after.len() == before.len(),
        forall|j: int| 0 <= j < before.len() && j != a.task ==> (after[j] is None) == (before[j] is None),
        a.resolved ==> after[a.task as int] is None,
    ensures
        agrees(h.push(a), after),
{
    let g = h.push(a);
    assert forall|k: int| 0 <= k < g.len() implies (#[trigger] g[k]).task < after.len() && (g[k].resolved
        ==> after[g[k].task as int] is None) by {
        if k < h.len() {
            assert(g[k] == h[k]);
        }
    }
}

/// A task that has yielded its value has no step after that one, so it has
/// yielded at most once.
pub proof fn lemma_resolved_is_last(h: Seq<Advance>, k: int)
    requires
        resolves_once(h),
        0 <= k < h.len(),
        h[k].resolved,
    ensures
        forall|j: int| k < j < h.len() ==> h[j].task != h[k].task,
        forall|i: int| 0 <= i < h.len() && i != k && h[i].task == h[k].task ==> !h[i].resolved,
{
}


/// The tasks of the steps `h`, in order.
pub open spec fn tasks_of(h: Seq<Advance>) -> Seq<usize> {
    h.map_values(|a: Advance| a.task)
}

/// The tasks of those steps of `h` that yielded a value (`resolved`) or did
/// not (`!resolved`), in order.
pub open spec fn tasks_where(h: Seq<Advance>, resolved: bool) -> Seq<usize>
    decreases h.len(),
{
    if h.len() == 0 {
        Seq::empty()
    } else if h.last().resolved == resolved {
        tasks_where(h.drop_last(), resolved).push(h.last().task)
    } else {
        tasks_where(h.drop_last(), resolved)
    }
}

/// One more step adds its task to the side it falls on.
pub proof fn lemma_tasks_where_push(h: Seq<Advance>, a: Advance, resolved: bool)
    ensures
        tasks_where(h.push(a), resolved) == if a.resolved == resolved {
            tasks_where(h, resolved).push(a.task)
        } else {
            tasks_where(h, resolved)
        },
        tasks_of(h.push(a)) == tasks_of(h).push(a.task),
{
    assert(h.push(a).drop_last() =~= h);
    assert(tasks_of(h.push(a)) =~= tasks_of(h).push(a.task));
}


/// The steps of two records laid end to end are counted together.
pub proof fn lemma_advances_of_concat(a: Seq<Advance>, b: Seq<Advance>, task: usize)
    ensures
        advances_of(a + b, task) == advances_of(a, task) + advances_of(b, task),
    decreases b.len(),
{
    if b.len() == 0 {
        assert(a + b =~= a);
    } else {
        assert((a + b).drop_last() =~= a + b.drop_last());
        lemma_advances_of_concat(a, b.drop_last(), task);
    }
}

/// In a record whose tasks are all different, a task has one step if it
/// occurs and none if it does not.
pub proof fn lemma_advances_of_distinct(h: Seq<Advance>, task: usize)
    requires
        tasks_of(h).no_duplicates(),
    ensures
        advances_of(h, task) == if tasks_of(h).contains(task) {
            1nat
        } else {
            0nat
        },
    decreases h.len(),
{
    if h.len() > 0 {
        let rest = h.drop_last();
        assert(tasks_of(rest) =~= tasks_of(h).drop_last());
        assert forall|i: int, j: int|
            0 <= i < rest.len() && 0 <= j < rest.len() && i != j implies tasks_of(rest)[i] != tasks_of(
            rest,
        )[j] by {
            assert(tasks_of(h)[i] != tasks_of(h)[j]);
        }
        lemma_advances_of_distinct(rest, task);
        if tasks_of(rest).contains(task) {
            let i = choose|i: int| 0 <= i < rest.len() && tasks_of(rest)[i] == task;
            assert(tasks_of(h)[i] == task);
            assert(tasks_of(h)[i] != tasks_of(h)[h.len() - 1]);
        } else if h.last().task == task {
            assert(tasks_of(h)[h.len() - 1] == task);
        } else if tasks_of(h).contains(task) {
            let i = choose|i: int| 0 <= i < h.len() && tasks_of(h)[i] == task;
            assert(tasks_of(rest)[i] == task);
        }
    }
}

/// A pass is fair: if the record grew from `before` to `after` by one step
/// for each task of `queue`, and the tasks of `queue` are all different, then
/// every task of `queue` was advanced exactly once more, and no other task
/// was advanced at all.
pub proof fn lemma_pass_is_fair(
    before: Seq<Advance>,
    after: Seq<Advance>,
    queue: Seq<usize>,
    task: usize,
)
    requires
        before.len() <= after.len(),
        after.take(before.len() as int) == before,
        tasks_of(after.skip(before.len() as int)) == queue,
        queue.no_duplicates(),
    ensures
        advances_of(after, task) == advances_of(before, task) + if queue.contains(task) {
            1nat
        } else {
            0nat
        },
{
    let added = after.skip(before.len() as int);
    assert(after =~= before + added);
    lemma_advances_of_concat(before, added, task);
    lemma_advances_of_distinct(added, task);
}

/// After the step that yielded a task's value the task has no further step:
/// the count of its steps stays what it was then.
pub proof fn lemma_no_advance_after_resolved(h: Seq<Advance>, k: int)
    requires
        resolves_once(h),
        0 <= k < h.len(),
        h[k].resolved,
    ensures
        advances_of(h, h[k].task) == advances_of(h.take(k + 1), h[k].task),
    decreases h.len(),
{
    if k + 1 == h.len() {
        assert(h.take(k + 1) =~= h);
    } else {
        let rest = h.drop_last();
        assert(rest.take(k + 1) =~= h.take(k + 1));
        assert(rest[k] == h[k]);
        assert forall|i: int, j: int|
            0 <= i < j < rest.len() && rest[i].task == rest[j].task implies !rest[i].resolved by {
            assert(rest[i] == h[i] && rest[j] == h[j]);
        }
        lemma_no_advance_after_resolved(rest, k);
        assert(h[h.len() - 1].task != h[k].task);
    }
}

} // verus!
