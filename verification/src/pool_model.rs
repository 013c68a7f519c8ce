//! What a pool is, as mathematics: the model that the contracts of
//! [`Pool`] speak of, and what follows from it.
//!
//! [`Pool`]: crate::pool::Pool

use crate::pool::Handle;
use crate::pool::FIRST_VALID_ID;
use vstd::prelude::*;

verus! {

/// What a slot in use holds.
pub struct Held<T> {
    pub id: u32,
    pub value: T,
}

/// What a pool holds, as far as its users can tell.
pub struct PoolModel<T> {
    /// Slot by slot: the id and the value in it, if it is in use.
    pub slots: Seq<Option<Held<T>>>,
    /// The empty slots, in the order in which pushes will take them.
    pub free: Seq<usize>,
    /// The id that the next value pushed will get.
    pub next_id: u32,
}

impl<T> PoolModel<T> {
    /// The free list names every empty slot once, and no other slot.
    pub open spec fn free_lists_the_empty_slots(self) -> bool {
        &&& self.free.no_duplicates()
        &&& forall|k: int|
            0 <= k < self.free.len() ==> (#[trigger] self.free[k]) < self.slots.len()
                && self.slots[self.free[k] as int] is None
        &&& forall|i: int|
            0 <= i < self.slots.len() && (#[trigger] self.slots[i]) is None
                ==> self.free.contains(i as usize)
    }

    /// The ids in use were given out before, and none is in use twice.
    pub open spec fn ids_are_given_once(self) -> bool {
        &&& forall|i: int|
            0 <= i < self.slots.len() && (#[trigger] self.slots[i]) is Some ==> FIRST_VALID_ID
                <= self.slots[i].unwrap().id < self.next_id
        &&& forall|i: int, j: int|
            0 <= i < self.slots.len() && 0 <= j < self.slots.len() && i != j
                && (#[trigger] self.slots[i]) is Some && (#[trigger] self.slots[j]) is Some
                ==> self.slots[i].unwrap().id != self.slots[j].unwrap().id
    }

    /// What holds of the model of every pool.
    pub open spec fn wf(self) -> bool {
        &&& 1 <= self.slots.len() <= usize::MAX
        &&& self.next_id >= FIRST_VALID_ID
        &&& self.free_lists_the_empty_slots()
        &&& self.ids_are_given_once()
    }

    /// A pool of `capacity` slots that holds nothing yet. Its slots will be
    /// taken from the lowest index up.
    pub open spec fn empty(capacity: usize) -> PoolModel<T> {
        PoolModel {
            slots: Seq::new(capacity as nat, |i: int| None),
            free: Seq::new(capacity as nat, |i: int| i as usize),
            next_id: FIRST_VALID_ID,
        }
    }

    /// The number of slots, used or not.
    pub open spec fn capacity(self) -> nat {
        self.slots.len()
    }

    /// The handle still answers: its slot is in use by the value with its id.
    pub open spec fn has(self, handle: Handle) -> bool {
        &&& handle.slot() < self.slots.len()
        &&& self.slots[handle.slot() as int] matches Some(held)
        &&& held.id == handle.id()
    }

    /// The value that a handle that still answers leads to.
    pub open spec fn value(self, handle: Handle) -> T
        recommends
            self.has(handle),
    {
        self.slots[handle.slot() as int].unwrap().value
    }

    /// The indices below `n` of the slots in use, from the lowest up.
    pub open spec fn used_below(self, n: int) -> Seq<int>
        decreases n,
    {
        if n <= 0 {
            Seq::empty()
        } else if self.slots[n - 1] is Some {
            self.used_below(n - 1).push(n - 1)
        } else {
            self.used_below(n - 1)
        }
    }

    /// The indices of the slots in use, from the lowest up.
    pub open spec fn used(self) -> Seq<int> {
        self.used_below(self.slots.len() as int)
    }

    /// The values held in the slots below `n`, in the order of their slots.
    pub open spec fn values_below(self, n: int) -> Seq<T> {
        Seq::new(
            self.used_below(n).len(),
            |k: int| self.slots[self.used_below(n)[k]].unwrap().value,
        )
    }

    /// The values held, in the order of their slots.
    pub open spec fn values(self) -> Seq<T> {
        self.values_below(self.slots.len() as int)
    }

    /// The same pool with the values held replaced, in the order of their
    /// slots, by those of `values`.
    pub open spec fn with_values(self, values: Seq<T>) -> PoolModel<T>
        recommends
            values.len() == self.used().len(),
    {
        PoolModel {
            slots: Seq::new(
                self.slots.len(),
                |i: int|
                    match self.slots[i] {
                        Some(held) => Some(
                            Held { id: held.id, value: values[self.used_below(i).len() as int] },
                        ),
                        None => None,
                    },
            ),
            ..self
        }
    }

    /// The same pool with the value behind `handle` replaced, if the handle
    /// still answers.
    pub open spec fn with_value(self, handle: Handle, value: T) -> PoolModel<T> {
        if self.has(handle) {
            PoolModel {
                slots: self.slots.update(
                    handle.slot() as int,
                    Some(Held { id: handle.id(), value }),
                ),
                ..self
            }
        } else {
            self
        }
    }

    /// The next push fits the machine: an id is left for it, and should the
    /// pool have to grow, the number of its slots can still be doubled.
    pub open spec fn can_push(self) -> bool {
        &&& self.next_id < u32::MAX
        &&& self.free.len() == 0 ==> 2 * self.slots.len() <= usize::MAX
    }

    /// The pool with as many empty slots again as it has slots, lined up
    /// behind those that were free already.
    pub open spec fn grown(self) -> PoolModel<T> {
        PoolModel {
            slots: self.slots + Seq::new(self.slots.len(), |i: int| None),
            free: self.free + Seq::new(
                self.slots.len(),
                |i: int| (self.slots.len() + i) as usize,
            ),
            ..self
        }
    }

    /// The pool as the next push finds it: grown if no slot was free.
    pub open spec fn with_room(self) -> PoolModel<T> {
        if self.free.len() == 0 {
            self.grown()
        } else {
            self
        }
    }

    /// The slot that the next push takes.
    pub open spec fn next_slot(self) -> usize {
        self.with_room().free[0]
    }

    /// The pool after `value` was pushed: it sits in the first free slot
    /// under the next id.
    pub open spec fn push(self, value: T) -> PoolModel<T> {
        let room = self.with_room();
        PoolModel {
            slots: room.slots.update(
                room.free[0] as int,
                Some(Held { id: self.next_id, value }),
            ),
            free: room.free.drop_first(),
            next_id: (self.next_id + 1) as u32,
        }
    }

    /// The pool after a removal through `handle`: if the handle still
    /// answered, its slot is empty and is the first to be taken again;
    /// if not, nothing has changed.
    pub open spec fn remove(self, handle: Handle) -> PoolModel<T> {
        if self.has(handle) {
            PoolModel {
                slots: self.slots.update(handle.slot() as int, None),
                free: seq![handle.slot()] + self.free,
                ..self
            }
        } else {
            self
        }
    }

    /// `other` differs from this pool in its values at most: the same slots
    /// are in use under the same ids, and the same slots will be taken next
    /// under the same ids.
    pub open spec fn alike(self, other: PoolModel<T>) -> bool {
        &&& other.slots.len() == self.slots.len()
        &&& other.free == self.free
        &&& other.next_id == self.next_id
        &&& forall|i: int|
            0 <= i < self.slots.len() ==> (#[trigger] other.slots[i]) is Some
                == self.slots[i] is Some
        &&& forall|i: int|
            0 <= i < self.slots.len() && self.slots[i] is Some
                ==> (#[trigger] other.slots[i]).unwrap().id == self.slots[i].unwrap().id
    }
}

// What follows for the slots in use.
impl<T> PoolModel<T> {
    /// The indices that `used_below` lists are those of the slots in use
    /// below `n`, each once, from the lowest up; the slot in use at `i` is
    /// listed at the place that is the number of slots in use below `i`.
    pub proof fn lemma_used_below(self, n: int)
        requires
            0 <= n <= self.slots.len(),
        ensures
            self.used_below(n).len() <= n,
            forall|k: int|
                0 <= k < self.used_below(n).len() ==> 0 <= (#[trigger] self.used_below(n)[k]) < n
                    && self.slots[self.used_below(n)[k]] is Some,
            forall|k: int, l: int|
                0 <= k < l < self.used_below(n).len() ==> self.used_below(n)[k]
                    < self.used_below(n)[l],
            forall|i: int|
                0 <= i < n && (#[trigger] self.slots[i]) is Some ==> {
                    &&& self.used_below(i).len() < self.used_below(n).len()
                    &&& self.used_below(n)[self.used_below(i).len() as int] == i
                },
        decreases n,
    {
        if n > 0 {
            self.lemma_used_below(n - 1);
            let before = self.used_below(n - 1);
            assert forall|i: int| 0 <= i < n && (#[trigger] self.slots[i]) is Some implies {
                &&& self.used_below(i).len() < self.used_below(n).len()
                &&& self.used_below(n)[self.used_below(i).len() as int] == i
            } by {
                if i < n - 1 {
                    assert(before[self.used_below(i).len() as int] == i);
                }
            }
        }
    }

    /// Which slots `used_below` lists depends only on which slots are in use.
    pub proof fn lemma_used_below_same(self, other: PoolModel<T>, n: int)
        requires
            0 <= n <= self.slots.len(),
            n <= other.slots.len(),
            forall|i: int|
                0 <= i < n ==> (#[trigger] self.slots[i]) is Some == other.slots[i] is Some,
        ensures
            self.used_below(n) == other.used_below(n),
        decreases n,
    {
        if n > 0 {
            self.lemma_used_below_same(other, n - 1);
            assert(self.slots[n - 1] is Some == other.slots[n - 1] is Some);
        }
    }

    /// Empty slots at the end add nothing to the slots in use.
    pub proof fn lemma_used_tail(self, from: int, n: int)
        requires
            0 <= from <= n <= self.slots.len(),
            forall|i: int| from <= i < n ==> (#[trigger] self.slots[i]) is None,
        ensures
            self.used_below(n) == self.used_below(from),
        decreases n,
    {
        if n > from {
            assert(self.slots[n - 1] is None);
            self.lemma_used_tail(from, n - 1);
        }
    }

    /// The empty slots below `n`.
    spec fn empties_below(self, n: int) -> Set<usize> {
        Set::new(|u: usize| u < n && self.slots[u as int] is None)
    }

    proof fn lemma_empties_below(self, n: int)
        requires
            0 <= n <= self.slots.len() <= usize::MAX,
        ensures
            self.empties_below(n).finite(),
            self.empties_below(n).len() + self.used_below(n).len() == n,
        decreases n,
    {
        if n <= 0 {
            assert(self.empties_below(n) =~= Set::<usize>::empty());
        } else {
            self.lemma_empties_below(n - 1);
            if self.slots[n - 1] is None {
                assert(self.empties_below(n) =~= self.empties_below(n - 1).insert(
                    (n - 1) as usize,
                ));
            } else {
                assert(self.empties_below(n) =~= self.empties_below(n - 1));
            }
        }
    }

    /// Every slot is either in use or in the free list.
    pub proof fn lemma_count(self)
        requires
            self.wf(),
        ensures
            self.used().len() + self.free.len() == self.slots.len(),
    {
        let n = self.slots.len() as int;
        let empties = self.empties_below(n);
        self.lemma_empties_below(n);
        self.free.unique_seq_to_set();
        assert forall|u: usize| self.free.to_set().contains(u) implies empties.contains(u) by {
            let k = choose|k: int| 0 <= k < self.free.len() && self.free[k] == u;
            assert(self.free[k] == u);
        }
        assert(self.free.to_set() =~= empties);
    }

    /// Ids stay given once where no slot is put to use and none changes its
    /// id.
    proof fn lemma_ids_kept(self, other: PoolModel<T>)
        requires
            self.ids_are_given_once(),
            self.next_id <= other.next_id,
            forall|i: int|
                0 <= i < other.slots.len() && (#[trigger] other.slots[i]) is Some ==> i
                    < self.slots.len() && self.slots[i] is Some && self.slots[i].unwrap().id
                    == other.slots[i].unwrap().id,
        ensures
            other.ids_are_given_once(),
    {
        assert forall|i: int, j: int|
            0 <= i < other.slots.len() && 0 <= j < other.slots.len() && i != j
                && (#[trigger] other.slots[i]) is Some
                && (#[trigger] other.slots[j]) is Some implies other.slots[i].unwrap().id
            != other.slots[j].unwrap().id by {
            assert(self.slots[i] is Some && self.slots[j] is Some);
        }
    }

    /// A pool that differs from one in order in its values at most is in
    /// order too, and answers the same handles.
    pub proof fn lemma_alike(self, other: PoolModel<T>)
        requires
            self.wf(),
            self.alike(other),
        ensures
            other.wf(),
            other.used() == self.used(),
            forall|handle: Handle| other.has(handle) == self.has(handle),
    {
        other.lemma_used_below_same(self, self.slots.len() as int);
        self.lemma_ids_kept(other);
        assert forall|k: int| 0 <= k < other.free.len() implies {
            &&& (#[trigger] other.free[k]) < other.slots.len()
            &&& other.slots[other.free[k] as int] is None
        } by {
            assert(self.slots[self.free[k] as int] is None);
        }
        assert forall|i: int|
            0 <= i < other.slots.len() && (#[trigger] other.slots[i]) is None
                implies other.free.contains(i as usize) by {
            assert(self.slots[i] is None);
        }
        assert forall|handle: Handle| other.has(handle) == self.has(handle) by {
            if handle.slot() < self.slots.len() {
                let slot = handle.slot() as int;
                assert(other.slots[slot] is Some == self.slots[slot] is Some);
            }
        }
    }
}

// What the changes to a pool keep.
impl<T> PoolModel<T> {
    /// A pool that holds nothing yet is in order.
    pub proof fn lemma_empty(capacity: usize)
        requires
            capacity >= 1,
        ensures
            PoolModel::<T>::empty(capacity).wf(),
            PoolModel::<T>::empty(capacity).used().len() == 0,
    {
        let empty = PoolModel::<T>::empty(capacity);
        assert forall|i: int|
            0 <= i < empty.slots.len() && (#[trigger] empty.slots[i]) is None
                implies empty.free.contains(i as usize) by {
            assert(empty.free[i] == i as usize);
        }
        empty.lemma_used_tail(0, capacity as int);
    }

    /// Growing a pool keeps it in order and holds what it held.
    pub proof fn lemma_grown(self)
        requires
            self.wf(),
            2 * self.slots.len() <= usize::MAX,
        ensures
            self.grown().wf(),
            self.grown().used() == self.used(),
            forall|handle: Handle| self.grown().has(handle) == self.has(handle),
    {
        let grown = self.grown();
        let n = self.slots.len() as int;
        self.lemma_ids_kept(grown);
        assert forall|k: int, l: int|
            0 <= k < grown.free.len() && 0 <= l < grown.free.len() && k != l
                implies grown.free[k] != grown.free[l] by {
            if k < self.free.len() && l >= self.free.len() {
                assert(self.free[k] < n);
            } else if l < self.free.len() && k >= self.free.len() {
                assert(self.free[l] < n);
            }
        }
        assert forall|i: int|
            0 <= i < grown.slots.len() && (#[trigger] grown.slots[i]) is None
                implies grown.free.contains(i as usize) by {
            if i < n {
                assert(self.slots[i] is None);
                let k = choose|k: int| 0 <= k < self.free.len() && self.free[k] == i as usize;
                assert(grown.free[k] == i as usize);
            } else {
                assert(grown.free[self.free.len() + (i - n)] == i as usize);
            }
        }
        grown.lemma_used_tail(n, 2 * n);
        self.lemma_used_below_same(grown, n);
    }

    /// A push keeps the pool in order, and takes a slot that was empty.
    pub proof fn lemma_push(self, value: T)
        requires
            self.wf(),
            self.can_push(),
        ensures
            self.push(value).wf(),
            self.with_room().wf(),
            self.with_room().free.len() > 0,
            self.with_room().slots[self.next_slot() as int] is None,
    {
        self.lemma_count();
        if self.free.len() == 0 {
            self.lemma_grown();
        }
        let room = self.with_room();
        let pushed = self.push(value);
        let slot = room.free[0];
        assert(room.slots[slot as int] is None);
        assert forall|k: int| 0 <= k < pushed.free.len() implies {
            &&& (#[trigger] pushed.free[k]) < pushed.slots.len()
            &&& pushed.slots[pushed.free[k] as int] is None
        } by {
            assert(pushed.free[k] == room.free[k + 1]);
        }
        assert forall|i: int|
            0 <= i < pushed.slots.len() && (#[trigger] pushed.slots[i]) is None
                implies pushed.free.contains(i as usize) by {
            assert(room.slots[i] is None);
            let k = choose|k: int| 0 <= k < room.free.len() && room.free[k] == i as usize;
            assert(pushed.free[k - 1] == i as usize);
        }
        assert forall|i: int|
            0 <= i < pushed.slots.len() && (#[trigger] pushed.slots[i]) is Some
                implies FIRST_VALID_ID <= pushed.slots[i].unwrap().id < pushed.next_id by {
            if i != slot {
                assert(room.slots[i] is Some);
            }
        }
        assert forall|i: int, j: int|
            0 <= i < pushed.slots.len() && 0 <= j < pushed.slots.len() && i != j
                && (#[trigger] pushed.slots[i]) is Some
                && (#[trigger] pushed.slots[j]) is Some implies pushed.slots[i].unwrap().id
            != pushed.slots[j].unwrap().id by {
            if i != slot {
                assert(room.slots[i] is Some);
            }
            if j != slot {
                assert(room.slots[j] is Some);
            }
        }
    }

    /// A removal keeps the pool in order.
    pub proof fn lemma_remove(self, handle: Handle)
        requires
            self.wf(),
        ensures
            self.remove(handle).wf(),
    {
        if self.has(handle) {
            let removed = self.remove(handle);
            let slot = handle.slot();
            self.lemma_ids_kept(removed);
            assert forall|k: int, l: int|
                0 <= k < removed.free.len() && 0 <= l < removed.free.len() && k != l
                    implies removed.free[k] != removed.free[l] by {
                if k > 0 {
                    assert(removed.free[k] == self.free[k - 1]);
                }
                if l > 0 {
                    assert(removed.free[l] == self.free[l - 1]);
                }
            }
            assert forall|k: int| 0 <= k < removed.free.len() implies {
                &&& (#[trigger] removed.free[k]) < removed.slots.len()
                &&& removed.slots[removed.free[k] as int] is None
            } by {
                if k > 0 {
                    assert(removed.free[k] == self.free[k - 1]);
                }
            }
            assert forall|i: int|
                0 <= i < removed.slots.len() && (#[trigger] removed.slots[i]) is None
                    implies removed.free.contains(i as usize) by {
                if i == slot {
                    assert(removed.free[0] == slot);
                } else {
                    assert(self.slots[i] is None);
                    let k = choose|k: int| 0 <= k < self.free.len() && self.free[k] == i as usize;
                    assert(removed.free[k + 1] == i as usize);
                }
            }
        }
    }

    /// Replacing a value keeps the pool in order, and the same slots in use.
    pub proof fn lemma_with_value(self, handle: Handle, value: T)
        requires
            self.wf(),
        ensures
            self.with_value(handle, value).wf(),
            self.with_value(handle, value).used() == self.used(),
            self.alike(self.with_value(handle, value)),
    {
        self.lemma_alike(self.with_value(handle, value));
    }

    /// Replacing the values keeps the pool in order, the same slots in use,
    /// and the new values in the order in which they were given. Replacing
    /// the values by themselves changes nothing.
    pub proof fn lemma_with_values(self, values: Seq<T>)
        requires
            self.wf(),
            values.len() == self.used().len(),
        ensures
            self.with_values(values).wf(),
            self.with_values(values).used() == self.used(),
            self.with_values(values).values() == values,
            self.with_values(self.values()) == self,
            self.alike(self.with_values(values)),
    {
        let replaced = self.with_values(values);
        let n = self.slots.len() as int;
        self.lemma_alike(replaced);
        self.lemma_used_below(n);
        assert forall|k: int| 0 <= k < values.len() implies replaced.values()[k] == values[k] by {
            let i = self.used()[k];
            assert(self.slots[i] is Some);
            assert(self.used()[self.used_below(i).len() as int] == i);
        }
        assert(replaced.values() =~= values);
        let same = self.with_values(self.values());
        assert forall|i: int| 0 <= i < n implies same.slots[i] == self.slots[i] by {
            if self.slots[i] is Some {
                assert(self.used()[self.used_below(i).len() as int] == i);
            }
        }
        assert(same.slots =~= self.slots);
    }
}

// What the users of a pool can count on.
impl<T> PoolModel<T> {
    /// Removal ends a handle: it answers no more, a second removal through
    /// it changes nothing, and every other handle leads to what it led to.
    pub proof fn lemma_removed_is_gone(self, handle: Handle, other: Handle)
        requires
            self.wf(),
            self.has(handle),
        ensures
            !self.remove(handle).has(handle),
            self.remove(handle).remove(handle) == self.remove(handle),
            other != handle ==> self.remove(handle).has(other) == self.has(other),
            other != handle && self.has(other) ==> self.remove(handle).value(other)
                == self.value(other),
    {
        if self.has(other) && other.slot() == handle.slot() {
            Handle::lemma_slot_and_id_decide(handle, other);
        }
    }

    /// The ids in use are ids that were given out.
    pub proof fn lemma_held_ids_were_given(self, handle: Handle)
        requires
            self.wf(),
            self.has(handle),
        ensures
            FIRST_VALID_ID <= handle.id() < self.next_id,
    {
        assert(self.slots[handle.slot() as int] is Some);
    }

    /// An id is given out once: a handle with an id that was given out
    /// before, and that answers no more, is not brought back by a push, nor
    /// will any later push bring it back.
    pub proof fn lemma_stale_stays_stale(self, handle: Handle, value: T)
        requires
            self.wf(),
            self.can_push(),
            !self.has(handle),
            handle.id() < self.next_id,
        ensures
            !self.push(value).has(handle),
            handle.id() < self.push(value).next_id,
    {
        self.lemma_push(value);
        if self.free.len() == 0 {
            self.lemma_grown();
        }
        assert(self.with_room().has(handle) == self.has(handle));
    }

    /// A push leaves every value where it is, under the handle it has.
    pub proof fn lemma_push_keeps(self, value: T, other: Handle)
        requires
            self.wf(),
            self.can_push(),
            self.has(other),
        ensures
            self.push(value).has(other),
            self.push(value).value(other) == self.value(other),
    {
        self.lemma_push(value);
        if self.free.len() == 0 {
            self.lemma_grown();
        }
        assert(self.with_room().has(other));
    }
}

/// One change to a pool.
pub enum PoolOp<T> {
    /// A push of a value.
    Push(T),
    /// A removal through a handle.
    Remove(Handle),
}

// What holds after any changes.
impl<T> PoolModel<T> {
    /// The pool after the change `op`.
    pub open spec fn apply(self, op: PoolOp<T>) -> PoolModel<T> {
        match op {
            PoolOp::Push(value) => self.push(value),
            PoolOp::Remove(handle) => self.remove(handle),
        }
    }

    /// The pool after the changes `ops`, in their order.
    pub open spec fn after(self, ops: Seq<PoolOp<T>>) -> PoolModel<T>
        decreases ops.len(),
    {
        if ops.len() == 0 {
            self
        } else {
            self.after(ops.drop_last()).apply(ops.last())
        }
    }

    /// Every push among the changes `ops` fits the machine when its turn
    /// comes.
    pub open spec fn takes(self, ops: Seq<PoolOp<T>>) -> bool
        decreases ops.len(),
    {
        ops.len() == 0 || (self.takes(ops.drop_last()) && (ops.last() is Push ==> self.after(
            ops.drop_last(),
        ).can_push()))
    }

    /// A handle with an id that was given out before, and that answers no
    /// more, answers nothing after any pushes and removals.
    pub proof fn lemma_stale_after(self, handle: Handle, ops: Seq<PoolOp<T>>)
        requires
            self.wf(),
            !self.has(handle),
            handle.id() < self.next_id,
            self.takes(ops),
        ensures
            self.after(ops).wf(),
            !self.after(ops).has(handle),
            handle.id() < self.after(ops).next_id,
        decreases ops.len(),
    {
        if ops.len() > 0 {
            let before = self.after(ops.drop_last());
            self.lemma_stale_after(handle, ops.drop_last());
            match ops.last() {
                PoolOp::Push(value) => {
                    before.lemma_push(value);
                    before.lemma_stale_stays_stale(handle, value);
                },
                PoolOp::Remove(other) => {
                    before.lemma_remove(other);
                },
            }
        }
    }

    /// A handle whose value was removed answers nothing from then on,
    /// whatever is pushed and removed afterwards, and whoever takes its
    /// slot.
    pub proof fn lemma_removed_stays_gone(self, handle: Handle, ops: Seq<PoolOp<T>>)
        requires
            self.wf(),
            self.has(handle),
            self.remove(handle).takes(ops),
        ensures
            !self.remove(handle).after(ops).has(handle),
    {
        self.lemma_held_ids_were_given(handle);
        self.lemma_remove(handle);
        self.remove(handle).lemma_stale_after(handle, ops);
    }
}

} // verus!
