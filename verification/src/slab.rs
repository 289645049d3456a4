//! A slab of tasks: numbered slots that are filled once and emptied once.
//!
//! A task's number is the index of its slot. Numbers are handed out in order
//! and never used again, so a number that is met later (in a queue, in a wake
//! handle) names the same task or none.

use vstd::prelude::*;

verus! {

/// How many slots of `s` are filled.
pub open spec fn occupied<C>(s: Seq<Option<C>>) -> nat
    decreases s.len(),
{
    if s.len() == 0 {
        0
    } else {
        occupied(s.drop_last()) + if s.last() is Some {
            1nat
        } else {
            0nat
        }
    }
}

/// No more slots are filled than there are.
pub proof fn lemma_occupied_bound<C>(s: Seq<Option<C>>)
    ensures
        occupied(s) <= s.len(),
    decreases s.len(),
{
    if s.len() > 0 {
        lemma_occupied_bound(s.drop_last());
    }
}

/// A new slot at the end counts if it is filled.
pub proof fn lemma_occupied_push<C>(s: Seq<Option<C>>, x: Option<C>)
    ensures
        occupied(s.push(x)) == occupied(s) + if x is Some {
            1nat
        } else {
            0nat
        },
{
    assert(s.push(x).drop_last() =~= s);
}

/// Changing one slot changes the count by what the slot gains or loses.
pub proof fn lemma_occupied_update<C>(s: Seq<Option<C>>, i: int, x: Option<C>)
    requires
        0 <= i < s.len(),
    ensures
        occupied(s.update(i, x)) + (if s[i] is Some {
            1nat
        } else {
            0nat
        }) == occupied(s) + if x is Some {
            1nat
        } else {
            0nat
        },
    decreases s.len(),
{
    if i == s.len() - 1 {
        assert(s.update(i, x).drop_last() =~= s.drop_last());
    } else {
        assert(s.update(i, x).drop_last() =~= s.drop_last().update(i, x));
        lemma_occupied_update(s.drop_last(), i, x);
    }
}

/// No slot is filled exactly when the count is zero.
pub proof fn lemma_occupied_zero<C>(s: Seq<Option<C>>)
    ensures
        occupied(s) == 0 <==> forall|i: int| 0 <= i < s.len() ==> s[i] is None,
    decreases s.len(),
{
    if s.len() > 0 {
        lemma_occupied_zero(s.drop_last());
        if occupied(s) == 0 {
            assert forall|i: int| 0 <= i < s.len() implies s[i] is None by {
                if i < s.len() - 1 {
                    assert(s.drop_last()[i] == s[i]);
                }
            }
        } else if s.last() is None {
            let i = choose|i: int| 0 <= i < s.len() - 1 && !(s.drop_last()[i] is None);
            assert(s.drop_last()[i] == s[i]);
        }
    }
}

/// Numbered slots, each holding a task or nothing.
pub struct Slab<C> {
    slots: Vec<Option<C>>,
    live: usize,
}

impl<C> View for Slab<C> {
    type V = Seq<Option<C>>;

    closed spec fn view(&self) -> Seq<Option<C>> {
        self.slots@
    }
}

impl<C> Slab<C> {
    /// The filled-slot count that the slab keeps is right.
    pub closed spec fn wf(&self) -> bool {
        self.live == occupied(self.slots@)
    }

    /// Whether slot `id` exists and is filled.
    pub open spec fn holds(&self, id: usize) -> bool {
        id < self@.len() && self@[id as int] is Some
    }

    /// The slots can be counted by a machine word.
    pub proof fn lemma_len_bound(&self)
        ensures
            self@.len() <= usize::MAX,
    {
        assert(self.slots@.len() == self.slots.len());
    }

    /// A slab without slots.
    pub fn new() -> (r: Slab<C>)
        ensures
            r.wf(),
            r@ == Seq::<Option<C>>::empty(),
    {
        Slab { slots: Vec::new(), live: 0 }
    }

    /// The number of slots, filled or not: the next number to be handed out.
    pub fn len(&self) -> (r: usize)
        ensures
            r == self@.len(),
    {
        self.slots.len()
    }

    /// The number of filled slots.
    pub fn live(&self) -> (r: usize)
        requires
            self.wf(),
        ensures
            r == occupied(self@),
    {
        self.live
    }

    /// Whether slot `id` exists and is filled.
    pub fn contains(&self, id: usize) -> (r: bool)
        ensures
            r == self.holds(id),
    {
        id < self.slots.len() && self.slots[id].is_some()
    }

    /// Puts `task` in a new slot at the end and returns its number.
    pub fn insert(&mut self, task: C) -> (id: usize)
        requires
            old(self).wf(),
        ensures
            final(self).wf(),
            id == old(self)@.len(),
            final(self)@ == old(self)@.push(Some(task)),
    {
        let id = self.slots.len();
        proof {
            lemma_occupied_push(self.slots@, Some(task));
            lemma_occupied_bound(self.slots@.push(Some(task)));
        }
        self.slots.push(Some(task));
        assert(self.live + 1 == occupied(self.slots@) <= self.slots.len());
        self.live = self.live + 1;
        id
    }

    /// Empties slot `id` and returns what it held; a slot that does not exist
    /// or is empty yields nothing and leaves the slab as it is.
    pub fn take(&mut self, id: usize) -> (r: Option<C>)
        requires
            old(self).wf(),
        ensures
            final(self).wf(),
            old(self).holds(id) ==> r == old(self)@[id as int] && final(self)@ == old(self)@.update(
                id as int,
                None,
            ),
            !old(self).holds(id) ==> r is None && final(self)@ == old(self)@,
    {
        if id >= self.slots.len() {
            return None;
        }
        proof {
            lemma_occupied_update(self.slots@, id as int, None);
        }
        let taken = self.slots[id].take();
        if taken.is_some() {
            self.live = self.live - 1;
        } else {
            assert(self.slots@ =~= old(self).slots@);
        }
        taken
    }

    /// Fills the empty slot `id` again. A slot that does not exist or is
    /// filled is left alone, and the task is handed back.
    pub fn put_back(&mut self, id: usize, task: C) -> (rejected: Option<C>)
        requires
            old(self).wf(),
        ensures
            final(self).wf(),
            id < old(self)@.len() && old(self)@[id as int] is None ==> rejected is None
                && final(self)@ == old(self)@.update(id as int, Some(task)),
            !(id < old(self)@.len() && old(self)@[id as int] is None) ==> rejected == Some(task)
                && final(self)@ == old(self)@,
    {
        if id >= self.slots.len() || self.slots[id].is_some() {
            return Some(task);
        }
        proof {
            lemma_occupied_update(self.slots@, id as int, Some(task));
            lemma_occupied_bound(self.slots@.update(id as int, Some(task)));
        }
        self.slots.set(id, Some(task));
        assert(self.live + 1 == occupied(self.slots@) <= self.slots.len());
        self.live = self.live + 1;
        None
    }
}

} // verus!
