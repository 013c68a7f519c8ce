//! A pool of slots with stable, generation-checked handles.
//!
//! A value that is pushed takes a free slot and gets a handle made of the
//! slot's index and an id that no other value of the pool ever gets. Removing
//! the value frees the slot for the next push; the old handle then answers
//! nothing, whoever lives in the slot by then.

use crate::pool_model::Held;
use crate::pool_model::PoolModel;
use std::hash::Hash;
use std::hash::Hasher;
use vstd::prelude::*;

verus! {

/// The id that, asked of an entry, is met by whatever value it holds.
pub const MATCH_ALL_IDS: u32 = 0;

/// The id of the first value pushed into a pool.
pub const FIRST_VALID_ID: u32 = 1;

/// The number of slots of a pool made by [`Pool::new`].
pub const DEFAULT_CAPACITY: usize = 10;

/// One slot of a pool.
pub enum Entry<T> {
    /// An empty slot. It names the slot that is handed out after this one.
    Free(usize),
    /// A slot in use, with the id of its value.
    Value(u32, T),
}

impl<T> Entry<T> {
    /// The entry holds a value that a request for `id` is given.
    pub open spec fn answers(&self, id: u32) -> bool {
        match *self {
            Entry::Free(_) => false,
            Entry::Value(value_id, _) => id == MATCH_ALL_IDS || value_id == id,
        }
    }

    /// Whether the slot is open for storing a value.
    #[inline]
    pub fn is_free(&self) -> (r: bool)
        ensures
            r == (*self is Free),
    {
        match *self {
            Entry::Free(_) => true,
            _ => false,
        }
    }

    /// Whether the slot holds a value.
    #[inline]
    pub fn has_value(&self) -> (r: bool)
        ensures
            r == (*self is Value),
    {
        !self.is_free()
    }

    /// The id of the value in the slot, if there is one.
    #[inline]
    pub fn id(&self) -> (r: Option<u32>)
        ensures
            r == (match *self {
                Entry::Free(_) => None::<u32>,
                Entry::Value(id, _) => Some(id),
            }),
    {
        if let Entry::Value(id, _) = self {
            return Some(*id);
        }
        None
    }

    /// The value in the slot, if there is one.
    #[inline]
    pub fn value(&self) -> (r: Option<&T>)
        ensures
            r == (match *self {
                Entry::Free(_) => None::<&T>,
                Entry::Value(_, value) => Some(&value),
            }),
    {
        self.value_with_id(MATCH_ALL_IDS)
    }

    /// The value in the slot, if there is one, to be changed in place.
    #[inline]
    pub fn value_mut(&mut self) -> (r: Option<&mut T>)
        ensures
            match r {
                Some(value) => *old(self) is Value && *value == old(self)->Value_1 && *final(self)
                    == Entry::Value(old(self)->Value_0, *final(value)),
                None => *old(self) is Free && *final(self) == *old(self),
            },
    {
        self.value_with_id_mut(MATCH_ALL_IDS)
    }

    /// The value in the slot, if there is one and `id` is its id or
    /// [`MATCH_ALL_IDS`].
    #[inline]
    pub fn value_with_id(&self, id: u32) -> (r: Option<&T>)
        ensures
            r == (if self.answers(id) {
                Some(&self->Value_1)
            } else {
                None::<&T>
            }),
    {
        if let Entry::Value(value_id, value) = self {
            if id == MATCH_ALL_IDS || *value_id == id {
                return Some(value);
            }
        }
        None
    }

    /// As [`Entry::value_with_id`], with the value to be changed in place.
    #[inline]
    pub fn value_with_id_mut(&mut self, id: u32) -> (r: Option<&mut T>)
        ensures
            match r {
                Some(value) => old(self).answers(id) && *value == old(self)->Value_1
                    && *final(self) == Entry::Value(old(self)->Value_0, *final(value)),
                None => !old(self).answers(id) && *final(self) == *old(self),
            },
    {
        match self {
            Entry::Value(value_id, value) => {
                if id == MATCH_ALL_IDS || *value_id == id {
                    Some(value)
                } else {
                    None
                }
            },
            Entry::Free(_) => None,
        }
    }
}

/// The key to one value of a pool: the slot it was put in and its id.
#[derive(Debug, Clone, Copy)]
pub struct Handle {
    index: usize,
    entry_id: u32,
}

impl Handle {
    /// The index of the slot that the handle points at.
    pub closed spec fn slot(&self) -> usize {
        self.index
    }

    /// The id of the value that the handle was made for.
    pub closed spec fn id(&self) -> u32 {
        self.entry_id
    }

    /// The index of the slot that the handle points at.
    #[inline]
    pub fn index(&self) -> (index: usize)
        ensures
            index == self.slot(),
    {
        self.index
    }

    /// Handles are no more than a slot and an id.
    pub proof fn lemma_slot_and_id_decide(a: Handle, b: Handle)
        requires
            a.slot() == b.slot(),
            a.id() == b.id(),
        ensures
            a == b,
    {
    }
}

impl PartialEq for Handle {
    /// Two handles are equal when their ids are: an id is given out once.
    fn eq(&self, other: &Handle) -> (r: bool) {
        self.entry_id == other.entry_id
    }
}

impl Eq for Handle {

}

impl vstd::std_specs::cmp::PartialEqSpecImpl for Handle {
    open spec fn obeys_eq_spec() -> bool {
        true
    }

    open spec fn eq_spec(&self, other: &Handle) -> bool {
        self.id() == other.id()
    }
}

impl Hash for Handle {
    /// Feeds the id, and nothing else, to `Hasher::write_u32`, so that equal
    /// handles hash alike. Nothing is claimed of what the hasher makes of it.
    #[verifier::external_body]
    fn hash<H: Hasher>(&self, state: &mut H) {
        state.write_u32(self.entry_id);
    }
}

/// A pre-allocated row of slots for a collection of values. A value that is
/// removed from the middle leaves its slot to the next push; no other
/// value moves.
pub struct Pool<T> {
    entries: Vec<Entry<T>>,
    next_free: usize,
    len: usize,
    next_id: u32,
    free: Ghost<Seq<usize>>,
}

/// What a row of entries holds, slot by slot.
pub open spec fn slots_of<T>(entries: Seq<Entry<T>>) -> Seq<Option<Held<T>>> {
    Seq::new(
        entries.len(),
        |i: int|
            match entries[i] {
                Entry::Free(_) => None,
                Entry::Value(id, value) => Some(Held { id, value }),
            },
    )
}

impl<T> View for Pool<T> {
    type V = PoolModel<T>;

    closed spec fn view(&self) -> PoolModel<T> {
        PoolModel { slots: slots_of(self.entries@), free: self.free@, next_id: self.next_id }
    }
}

impl<T> Pool<T> {
    /// The slot that the free slot at place `k` of the free list names as
    /// the one after it: the next in the list, or one past the last slot.
    spec fn link(&self, k: int) -> usize {
        if k < self.free@.len() {
            self.free@[k]
        } else {
            self.entries@.len() as usize
        }
    }

    /// The pool is in order: what it shows of itself is the model of a pool,
    /// and its free slots are chained in the order the model gives.
    pub closed spec fn wf(&self) -> bool {
        &&& self@.wf()
        &&& self.next_free == self.link(0)
        &&& self.len == self@.used().len()
        &&& forall|k: int|
            0 <= k < self.free@.len() ==> self.entries@[(#[trigger] self.free@[k]) as int]
                == Entry::<T>::Free(self.link(k + 1))
    }

    /// A pool that is in order shows the model of a pool.
    pub proof fn lemma_model_wf(&self)
        requires
            self.wf(),
        ensures
            self@.wf(),
    {
    }

    /// A pool of [`DEFAULT_CAPACITY`] slots.
    pub fn new() -> (pool: Pool<T>)
        ensures
            pool.wf(),
            pool@ == PoolModel::<T>::empty(DEFAULT_CAPACITY),
    {
        Pool::<T>::with_capacity(DEFAULT_CAPACITY)
    }

    /// A pool of `capacity` slots, of which there must be at least one.
    pub fn with_capacity(capacity: usize) -> (pool: Pool<T>)
        requires
            capacity > 0,
        ensures
            pool.wf(),
            pool@ == PoolModel::<T>::empty(capacity),
    {
        let mut entries: Vec<Entry<T>> = Vec::with_capacity(capacity);
        Pool::fill_with_free_entries(&mut entries, capacity);
        let pool = Pool {
            entries,
            next_free: 0,
            len: 0,
            next_id: FIRST_VALID_ID,
            free: Ghost(Seq::new(capacity as nat, |i: int| i as usize)),
        };
        proof {
            assert(pool@.slots =~= PoolModel::<T>::empty(capacity).slots);
            PoolModel::<T>::lemma_empty(capacity);
        }
        pool
    }

    /// Extends `entries` to `capacity` slots by empty ones, each naming the
    /// slot after it.
    fn fill_with_free_entries(entries: &mut Vec<Entry<T>>, capacity: usize)
        requires
            old(entries)@.len() <= capacity,
        ensures
            final(entries)@ == old(entries)@ + Seq::new(
                (capacity - old(entries)@.len()) as nat,
                |i: int| Entry::<T>::Free((old(entries)@.len() + i + 1) as usize),
            ),
    {
        let start: usize = entries.len();
        let mut i: usize = start;
        while i < capacity
            invariant
                start == old(entries)@.len(),
                start <= i <= capacity,
                entries@ == old(entries)@ + Seq::new(
                    (i - start) as nat,
                    |k: int| Entry::<T>::Free((start + k + 1) as usize),
                ),
            decreases capacity - i,
        {
            entries.push(Entry::Free(i + 1));
            i += 1;
            assert(entries@ =~= old(entries)@ + Seq::new(
                (i - start) as nat,
                |k: int| Entry::<T>::Free((start + k + 1) as usize),
            ));
        }
    }

    /// The number of slots of the pool, used or not. It grows by itself when
    /// a value is pushed and no slot is free.
    #[inline]
    pub fn capacity(&self) -> (n: usize)
        ensures
            n == self@.capacity(),
    {
        self.entries.len()
    }

    /// The number of values in the pool.
    #[inline]
    pub fn len(&self) -> (n: usize)
        requires
            self.wf(),
        ensures
            n == self@.used().len(),
    {
        self.len
    }

    #[inline]
    pub fn is_empty(&self) -> (r: bool)
        requires
            self.wf(),
        ensures
            r == (self@.used().len() == 0),
    {
        self.len == 0
    }

    /// Whether the next push fits the machine: whether an id is left for
    /// it and, should the pool have to grow, the number of its slots can
    /// still be doubled.
    pub fn can_push(&self) -> (r: bool)
        requires
            self.wf(),
        ensures
            r == self@.can_push(),
    {
        proof {
            self@.lemma_count();
        }
        self.next_id < u32::MAX && (self.len < self.entries.len() || self.entries.len()
            <= usize::MAX / 2)
    }

    /// Puts `value` into the first free slot, doubling the pool first if
    /// none is free, and returns the handle to it.
    pub fn push(&mut self, value: T) -> (handle: Handle)
        requires
            old(self).wf(),
            old(self)@.can_push(),
        ensures
            final(self).wf(),
            final(self)@ == old(self)@.push(value),
            handle.slot() == old(self)@.next_slot(),
            handle.id() == old(self)@.next_id,
            final(self)@.has(handle),
    {
        proof {
            self@.lemma_count();
            self@.lemma_push(value);
        }
        if self.len == self.entries.len() {
            let capacity: usize = self.entries.len();
            Pool::fill_with_free_entries(&mut self.entries, capacity + capacity);
            self.free = Ghost(Seq::new(capacity as nat, |i: int| (capacity + i) as usize));
            proof {
                assert(self@.slots =~= old(self)@.grown().slots);
                assert(self@.free =~= old(self)@.grown().free);
            }
        }
        let ghost room = self@;
        assert(room == old(self)@.with_room());
        let next_id: u32 = self.next_id;
        self.next_id += 1;
        self.len += 1;
        let slot: usize = self.next_free;
        let handle = Handle { index: slot, entry_id: next_id };
        let mut entry: Entry<T> = Entry::Value(next_id, value);
        std::mem::swap(&mut self.entries[slot], &mut entry);
        match entry {
            Entry::Free(next_free) => {
                self.next_free = next_free;
            },
            Entry::Value(_, _) => {},
        }
        self.free = Ghost(self.free@.drop_first());
        proof {
            assert(self@.slots =~= old(self)@.push(value).slots);
            self@.lemma_count();
        }
        handle
    }

    /// What `remove` does to the fields leaves the pool in order.
    proof fn lemma_unlink(before: Pool<T>, after: Pool<T>, handle: Handle)
        requires
            before.wf(),
            before@.has(handle),
            after.entries@ == before.entries@.update(
                handle.index as int,
                Entry::<T>::Free(before.next_free),
            ),
            after.free@ == seq![handle.index] + before.free@,
            after.next_free == handle.index,
            after.len == before.len - 1,
            after.next_id == before.next_id,
        ensures
            after.wf(),
            after@ == before@.remove(handle),
    {
        before@.lemma_remove(handle);
        before@.lemma_count();
        assert(after@.slots =~= before@.remove(handle).slots);
        assert(after@ == before@.remove(handle));
        after@.lemma_count();
        assert forall|k: int| 0 <= k < after.free@.len() implies after.entries@[(
        #[trigger] after.free@[k]) as int] == Entry::<T>::Free(after.link(k + 1)) by {
            if k > 0 {
                let j = k - 1;
                assert(after.free@[k] == before.free@[j]);
                assert(before.entries@[before.free@[j] as int] == Entry::<T>::Free(
                    before.link(j + 1),
                ));
                assert(before@.slots[before.free@[j] as int] is None);
                assert(before.free@[j] != handle.index);
                assert(after.link(k + 1) == before.link(j + 1));
            } else {
                assert(after.link(1) == before.link(0));
            }
        }
    }

    /// Takes the value behind `handle` out of the pool. A handle whose value
    /// was removed before, or that this pool never gave out, removes
    /// nothing.
    pub fn remove(&mut self, handle: Handle) -> (removed: Option<T>)
        requires
            old(self).wf(),
        ensures
            final(self).wf(),
            final(self)@ == old(self)@.remove(handle),
            removed == (if old(self)@.has(handle) {
                Some(old(self)@.value(handle))
            } else {
                None::<T>
            }),
    {
        if handle.index >= self.entries.len() || handle.entry_id == MATCH_ALL_IDS {
            assert(!self@.has(handle));
            return None;
        }
        let found: bool = self.entries[handle.index].value_with_id(handle.entry_id).is_some();
        assert(found == self@.has(handle));
        if !found {
            return None;
        }
        let mut entry: Entry<T> = Entry::Free(self.next_free);
        std::mem::swap(&mut self.entries[handle.index], &mut entry);
        assert(entry == old(self).entries@[handle.index as int]);
        proof {
            old(self)@.lemma_used_below(old(self)@.slots.len() as int);
            assert(old(self)@.slots[handle.index as int] is Some);
        }
        self.len -= 1;
        self.next_free = handle.index;
        self.free = Ghost(seq![handle.index] + self.free@);
        proof {
            Self::lemma_unlink(*old(self), *self, handle);
        }
        match entry {
            Entry::Value(_, value) => Some(value),
            Entry::Free(_) => None,
        }
    }

    /// The value behind `handle`, if it is still in the pool.
    pub fn get(&self, handle: Handle) -> (r: Option<&T>)
        requires
            self.wf(),
        ensures
            r == (if self@.has(handle) {
                Some(&self@.value(handle))
            } else {
                None::<&T>
            }),
    {
        if handle.index >= self.entries.len() || handle.entry_id == MATCH_ALL_IDS {
            return None;
        }
        self.entries[handle.index].value_with_id(handle.entry_id)
    }

    /// The value behind `handle`, if it is still in the pool, to be changed
    /// in place.
    pub fn get_mut(&mut self, handle: Handle) -> (r: Option<&mut T>)
        requires
            old(self).wf(),
        ensures
            final(self).wf(),
            match r {
                Some(value) => old(self)@.has(handle) && *value == old(self)@.value(handle)
                    && final(self)@ == old(self)@.with_value(handle, *final(value)),
                None => !old(self)@.has(handle) && final(self)@ == old(self)@,
            },
    {
        if handle.index >= self.entries.len() || handle.entry_id == MATCH_ALL_IDS {
            return None;
        }
        let ghost before = *self;
        let ghost after = *final(self);
        let r = self.entries[handle.index].value_with_id_mut(handle.entry_id);
        proof {
            if r is Some {
                let value: T = *final(r->0);
                before@.lemma_with_value(handle, value);
                assert(after@.slots =~= before@.with_value(handle, value).slots);
                assert forall|k: int| 0 <= k < after.free@.len() implies after.entries@[(
                #[trigger] after.free@[k]) as int] == Entry::<T>::Free(after.link(k + 1)) by {
                    assert(before.entries@[before.free@[k] as int] == Entry::<T>::Free(
                        before.link(k + 1),
                    ));
                }
            } else {
                assert(after.entries@ =~= before.entries@);
            }
        }
        r
    }

    /// The handle to the value in the slot at `index`, if that slot is in use.
    pub fn handle_at(&self, index: usize) -> (r: Option<Handle>)
        requires
            self.wf(),
        ensures
            match r {
                Some(handle) => handle.slot() == index && self@.has(handle),
                None => index >= self@.slots.len() || self@.slots[index as int] is None,
            },
    {
        if index >= self.entries.len() {
            return None;
        }
        match self.entries[index].id() {
            Some(entry_id) => Some(Handle { index, entry_id }),
            None => None,
        }
    }

    /// The values in the pool, in the order of their slots (which is not
    /// the order in which they came).
    pub fn iter(&self) -> (values: Vec<&T>)
        requires
            self.wf(),
        ensures
            values@.len() == self@.values().len(),
            forall|k: int|
                0 <= k < values@.len() ==> *(#[trigger] values@[k]) == self@.values()[k],
    {
        let mut values: Vec<&T> = Vec::new();
        let mut i: usize = 0;
        while i < self.entries.len()
            invariant
                i <= self.entries@.len(),
                values@.len() == self@.values_below(i as int).len(),
                forall|k: int|
                    0 <= k < values@.len() ==> *(#[trigger] values@[k]) == self@.values_below(
                        i as int,
                    )[k],
            decreases self.entries@.len() - i,
        {
            if let Some(value) = self.entries[i].value() {
                values.push(value);
            }
            i += 1;
        }
        values
    }

    /// The first `n` entries with the values of the slots in use replaced,
    /// in the order of the slots, by those of `values`.
    spec fn rewritten(&self, values: Seq<T>, n: int) -> Seq<Entry<T>> {
        Seq::new(
            n as nat,
            |j: int|
                match self.entries@[j] {
                    Entry::Free(next) => Entry::Free(next),
                    Entry::Value(id, _) => Entry::Value(
                        id,
                        values[self@.used_below(j).len() as int],
                    ),
                },
        )
    }

    /// The values in the pool, in the order of their slots, each to be
    /// changed in place.
    pub fn iter_mut(&mut self) -> (values: Vec<&mut T>)
        requires
            old(self).wf(),
        ensures
            final(self).wf(),
            values@.len() == old(self)@.values().len(),
            forall|k: int|
                0 <= k < values@.len() ==> *(#[trigger] values@[k]) == old(self)@.values()[k],
            final(self)@ == old(self)@.with_values(
                Seq::new(values@.len(), |k: int| *final(values@[k])),
            ),
    {
        let ghost before = *self;
        let ghost after = *final(self);
        let ghost start = self.entries@;
        let ghost n = start.len() as int;
        let mut values: Vec<&mut T> = Vec::new();
        let mut rest: &mut [Entry<T>] = self.entries.as_mut_slice();
        while rest.len() > 0
            invariant
                start == before.entries@,
                n == start.len(),
                rest@.len() <= n,
                rest@ == start.subrange(n - rest@.len(), n),
                values@.len() == before@.values_below(n - rest@.len()).len(),
                forall|k: int|
                    0 <= k < values@.len() ==> *(#[trigger] values@[k]) == before@.values_below(
                        n - rest@.len(),
                    )[k],
                after.entries@ == before.rewritten(
                    Seq::new(values@.len(), |k: int| *final(values@[k])),
                    n - rest@.len(),
                ) + final(rest)@,
            decreases rest@.len(),
        {
            let ghost i = n - rest@.len();
            let ghost handed = Seq::new(values@.len(), |k: int| *final(values@[k]));
            let (head, tail) = rest.split_at_mut(1);
            rest = tail;
            if let Some(entry) = head.first_mut() {
                assert(*entry == start[i]);
                if let Some(value) = entry.value_mut() {
                    values.push(value);
                }
            }
            proof {
                let written = Seq::new(values@.len(), |k: int| *final(values@[k]));
                before@.lemma_used_below(i);
                assert forall|j: int| 0 <= j < i implies before.rewritten(written, i + 1)[j]
                    == before.rewritten(handed, i)[j] by {
                    if start[j] is Value {
                        assert(before@.slots[j] is Some);
                        assert(before@.used_below(j).len() < before@.used_below(i).len());
                    }
                }
                assert(after.entries@ =~= before.rewritten(written, i + 1) + final(rest)@);
            }
        }
        proof {
            let written = Seq::new(values@.len(), |k: int| *final(values@[k]));
            assert(final(rest)@ =~= rest@);
            assert(after.entries@ =~= before.rewritten(written, n));
            before@.lemma_with_values(written);
            assert(after@.slots =~= before@.with_values(written).slots);
            assert forall|k: int| 0 <= k < after.free@.len() implies after.entries@[(
            #[trigger] after.free@[k]) as int] == Entry::<T>::Free(after.link(k + 1)) by {
                assert(before.entries@[before.free@[k] as int] == Entry::<T>::Free(
                    before.link(k + 1),
                ));
            }
        }
        values
    }

    /// The handles to the values in the pool, in the order of their slots.
    /// The list is a snapshot: the pool can be changed while it is walked.
    pub fn handles(&self) -> (handles: Vec<Handle>)
        requires
            self.wf(),
        ensures
            handles@.len() == self@.used().len(),
            forall|k: int|
                0 <= k < handles@.len() ==> (#[trigger] handles@[k]).slot() == self@.used()[k]
                    && self@.has(handles@[k]),
    {
        let mut handles: Vec<Handle> = Vec::new();
        let mut i: usize = 0;
        while i < self.entries.len()
            invariant
                i <= self.entries@.len(),
                handles@.len() == self@.used_below(i as int).len(),
                forall|k: int|
                    0 <= k < handles@.len() ==> (#[trigger] handles@[k]).slot()
                        == self@.used_below(i as int)[k] && self@.has(handles@[k]),
            decreases self.entries@.len() - i,
        {
            if let Some(entry_id) = self.entries[i].id() {
                handles.push(Handle { index: i, entry_id });
            }
            i += 1;
        }
        handles
    }
}

} // verus!
