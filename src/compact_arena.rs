//! The smallest arena: handles, insertion, removal and clearing, with the
//! values open as one slice.
use vstd::prelude::*;

use crate::arena::{Arena, ArenaId, ArenaView};

verus! {

/// An arena without positional access or reordering. Its generations count
/// from zero.
pub struct CompactArena<T> {
    inner: Arena<T>,
}

impl<T> View for CompactArena<T> {
    type V = ArenaView<T>;

    closed spec fn view(&self) -> ArenaView<T> {
        self.inner@
    }
}

impl<T> CompactArena<T> {
    /// The arena is well formed: its slot table, free list and values agree.
    pub closed spec fn wf(&self) -> bool {
        self.inner.wf()
    }

    /// Every well-formed arena has a consistent view.
    pub broadcast proof fn lemma_wf(&self)
        requires
            #[trigger] self.wf(),
        ensures
            self@.valid(),
    {
        self.inner.lemma_wf();
    }

    /// Constructs a new, empty arena.
    pub fn new() -> (r: Self)
        ensures
            r.wf(),
            r@.values == Seq::<T>::empty(),
            r@.ids == Seq::<ArenaId>::empty(),
            r@.free == Seq::<usize>::empty(),
            r@.next_generation == 0,
    {
        CompactArena { inner: Arena::starting_at(0, 0) }
    }

    /// Constructs a new, empty arena with room for at least `capacity` values.
    pub fn with_capacity(capacity: usize) -> (r: Self)
        ensures
            r.wf(),
            r@.values == Seq::<T>::empty(),
            r@.ids == Seq::<ArenaId>::empty(),
            r@.free == Seq::<usize>::empty(),
            r@.next_generation == 0,
    {
        CompactArena { inner: Arena::starting_at(capacity, 0) }
    }

    /// The number of values in the arena.
    pub fn len(&self) -> (r: usize)
        requires
            self.wf(),
        ensures
            r == self@.len(),
    {
        self.inner.len()
    }

    /// The number of slots the arena uses to map handles, live or free.
    pub fn slot_count(&self) -> (r: usize)
        requires
            self.wf(),
        ensures
            r == self@.slot_count(),
    {
        self.inner.slot_count()
    }

    /// The number of free slots, which values added later reuse first.
    pub fn free_slot_count(&self) -> (r: usize)
        requires
            self.wf(),
        ensures
            r == self@.free.len(),
            r == self@.slot_count() - self@.len(),
    {
        self.inner.free_slot_count()
    }

    /// The values of the arena, in physical order.
    pub fn as_slice(&self) -> (r: &[T])
        requires
            self.wf(),
        ensures
            r@ == self@.values,
    {
        self.inner.as_slice()
    }

    /// Inserts a value and returns its handle.
    pub fn insert(&mut self, value: T) -> (id: ArenaId)
        requires
            old(self).wf(),
            old(self)@.next_generation < u64::MAX,
        ensures
            final(self).wf(),
            id == old(self)@.next_id(),
            final(self)@ == old(self)@.inserted(value),
    {
        self.inner.insert(value)
    }

    /// Inserts a value made by `create`, which is handed the handle the value
    /// will have, and returns that handle.
    pub fn insert_with<F>(&mut self, create: F) -> (id: ArenaId)
        where
            F: FnOnce(ArenaId) -> T,
        requires
            old(self).wf(),
            old(self)@.next_generation < u64::MAX,
            create.requires((old(self)@.next_id(),)),
        ensures
            final(self).wf(),
            id == old(self)@.next_id(),
            final(self)@ == old(self)@.inserted(final(self)@.values.last()),
            create.ensures((id,), final(self)@.values.last()),
    {
        self.inner.insert_with(create)
    }

    /// Removes the value that the handle resolves to and returns it, or returns
    /// `None`, changing nothing, if the handle is not live. The last value moves
    /// into the hole.
    pub fn remove(&mut self, id: ArenaId) -> (r: Option<T>)
        requires
            old(self).wf(),
        ensures
            final(self).wf(),
            match r {
                Some(v) => {
                    &&& old(self)@.contains(id)
                    &&& v == old(self)@.values[old(self)@.position(id)]
                    &&& final(self)@ == old(self)@.removed_at(old(self)@.position(id))
                },
                None => !old(self)@.contains(id) && final(self)@ == old(self)@,
            },
    {
        self.inner.remove(id)
    }

    /// Removes every value; their slots join the free list.
    pub fn clear(&mut self)
        requires
            old(self).wf(),
        ensures
            final(self).wf(),
            final(self)@ == old(self)@.cleared(),
    {
        self.inner.clear()
    }
}

} // verus!
