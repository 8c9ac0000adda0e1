//! Filling an arena from existing values.
use vstd::prelude::*;

use crate::arena::{Arena, ArenaView};

verus! {

impl<T> ArenaView<T> {
    /// The slot that the `k`-th of a run of insertions takes: the free list is
    /// used up first, then new slots are made at the end of the table.
    pub open spec fn slot_for(self, k: int) -> int {
        if k < self.free.len() {
            self.free[k] as int
        } else {
            self.ids.len() + k
        }
    }
}

impl<T> Arena<T> {
    /// Inserts clones of all values of `slice`, in order.
    pub fn extend_from_slice(&mut self, slice: &[T]) where T: Clone
        requires
            old(self).wf(),
            old(self)@.next_generation + slice@.len() <= u64::MAX,
        ensures
            final(self).wf(),
            final(self)@.len() == old(self)@.len() + slice@.len(),
            final(self)@.values.subrange(0, old(self)@.len() as int) == old(self)@.values,
            final(self)@.ids.subrange(0, old(self)@.len() as int) == old(self)@.ids,
            forall|k: int|
                0 <= k < slice@.len() ==> cloned(
                    slice@[k],
                    #[trigger] final(self)@.values[old(self)@.len() + k],
                ),
            forall|k: int|
                0 <= k < slice@.len() ==> (#[trigger] final(self)@.ids[old(self)@.len() + k]).generation()
                    == old(self)@.next_generation + k && final(self)@.ids[old(self)@.len()
                    + k].slot() == old(self)@.slot_for(k),
            final(self)@.free == old(self)@.free.skip(
                if slice@.len() < old(self)@.free.len() {
                    slice@.len() as int
                } else {
                    old(self)@.free.len() as int
                },
            ),
            final(self)@.next_generation == old(self)@.next_generation + slice@.len(),
    {
        broadcast use ArenaView::lemma_next_id, Arena::lemma_wf;

        let ghost start = self@;
        let ghost n = start.len() as int;
        proof {
            Arena::<T>::lemma_wf(self);
        }
        let m = slice.len();
        let mut k: usize = 0;
        proof {
            assert(self@.values.subrange(0, n) =~= start.values);
            assert(self@.ids.subrange(0, n) =~= start.ids);
            assert(start.free.skip(0) =~= start.free);
        }
        while k < m
            invariant
                self.wf(),
                0 <= k <= m,
                m == slice@.len(),
                start.next_generation + m <= u64::MAX,
                n == start.len(),
                self@.len() == n + k,
                self@.values.subrange(0, n) == start.values,
                self@.ids.subrange(0, n) == start.ids,
                forall|i: int| 0 <= i < k ==> cloned(slice@[i], #[trigger] self@.values[n + i]),
                forall|i: int|
                    0 <= i < k ==> (#[trigger] self@.ids[n + i]).generation() == start.next_generation + i
                        && self@.ids[n + i].slot() == start.slot_for(i),
                self@.free == start.free.skip(
                    if k < start.free.len() {
                        k as int
                    } else {
                        start.free.len() as int
                    },
                ),
                self@.next_generation == start.next_generation + k,
            decreases m - k,
        {
            proof {
                Arena::<T>::lemma_wf(self);
            }
            let ghost before = self@;
            let value = slice[k].clone();
            let id = self.insert(value);
            proof {
                let after = self@;
                assert(after.values.subrange(0, n) =~= start.values) by {
                    assert forall|i: int| 0 <= i < n implies after.values[i] == start.values[i] by {
                        assert(after.values[i] == before.values[i]);
                        assert(before.values.subrange(0, n)[i] == start.values[i]);
                    }
                }
                assert(after.ids.subrange(0, n) =~= start.ids) by {
                    assert forall|i: int| 0 <= i < n implies after.ids[i] == start.ids[i] by {
                        assert(after.ids[i] == before.ids[i]);
                        assert(before.ids.subrange(0, n)[i] == start.ids[i]);
                    }
                }
                assert forall|i: int| 0 <= i < k + 1 implies cloned(
                    slice@[i],
                    #[trigger] after.values[n + i],
                ) by {
                    if i < k {
                        assert(after.values[n + i] == before.values[n + i]);
                    }
                }
                if k < start.free.len() {
                    assert(before.free[0] == start.free[k as int]);
                }
                assert forall|i: int|
                    0 <= i < k + 1 implies (#[trigger] after.ids[n + i]).generation()
                    == start.next_generation + i && after.ids[n + i].slot() == start.slot_for(i) by {
                    if i < k {
                        assert(after.ids[n + i] == before.ids[n + i]);
                    } else {
                        before.lemma_next_id();
                        assert(after.ids[n + i] == before.next_id());
                        if k >= start.free.len() {
                            assert(before.free.len() == 0);
                            assert(before.slot_count() == n + k);
                        } else {
                            assert(before.free[0] == start.free[k as int]);
                        }
                        assert(before.next_slot() == start.slot_for(i));
                        assert(before.next_id().generation() == start.next_generation + i);
                    }
                }
                if k < start.free.len() {
                    assert(after.free =~= start.free.skip(k + 1));
                } else {
                    assert(after.free =~= start.free.skip(start.free.len() as int));
                }
            }
            k = k + 1;
        }
    }
}

impl<T> Default for Arena<T> {
    /// A new, empty arena.
    fn default() -> (r: Self)
        ensures
            r.wf(),
            r@.values == Seq::<T>::empty(),
            r@.ids == Seq::<crate::arena::ArenaId>::empty(),
            r@.free == Seq::<usize>::empty(),
            r@.next_generation == 1,
    {
        Self::new()
    }
}

} // verus!
