//! The arena: a dense store of values, a slot table that maps handles to
//! positions in it, and the free list threaded through the unused slots.
use vstd::prelude::*;

use crate::entry::{
    covers, decodes, encodes, entries_ok, entry_at, entry_ref_at, listed, permutes, ref_covers,
    ref_listed, sort_by_slot_descending, Entry,
};
use crate::laws::lemma_position_of;

verus! {

/// A handle assigned to a value when it was added to an arena.
///
/// Unlike an index, a handle stays valid while other values are removed or
/// the arena is reordered. It is `Copy`, so it can be passed around freely.
/// Handles are ordered by generation first, then by slot.
#[derive(Debug, Clone, Copy, PartialEq, Eq, PartialOrd, Ord, Hash, Structural)]
pub struct ArenaId {
    uid: u64,
    idx: usize,
}

impl ArenaId {
    /// The generation stamped into the slot when the value was added.
    pub closed spec fn generation(self) -> u64 {
        self.uid
    }

    /// The position of the slot that maps the handle to its value.
    pub closed spec fn slot(self) -> usize {
        self.idx
    }

    /// Two handles are the same exactly when their generation and slot agree.
    pub broadcast proof fn lemma_ext(a: ArenaId, b: ArenaId)
        ensures
            (#[trigger] a.generation() == #[trigger] b.generation() && a.slot() == b.slot()) <==> a
                == b,
    {
    }
}

/// One entry of the slot table.
#[derive(Clone, Copy)]
enum Slot {
    /// The slot maps a live handle of generation `uid` to position `value`
    /// of the dense store.
    Used { uid: u64, value: usize },
    /// The slot is unused; `next_free` links the free list.
    Free { next_free: Option<usize> },
}

/// What an arena holds, seen as mathematical values.
///
/// `values` is the dense store in physical order and `ids[k]` is the handle of
/// `values[k]`. `free` is the free list from its head: the slots that the next
/// insertions reuse, in that order.
pub struct ArenaView<T> {
    pub values: Seq<T>,
    pub ids: Seq<ArenaId>,
    pub free: Seq<usize>,
    pub next_generation: u64,
}

impl<T> ArenaView<T> {
    /// Every slot that was ever allocated is either live or on the free list.
    pub open spec fn slot_count(self) -> nat {
        self.ids.len() + self.free.len()
    }

    pub open spec fn len(self) -> nat {
        self.values.len()
    }

    /// The consistency that every arena keeps between its handles, its free
    /// list and its generation counter.
    pub open spec fn valid(self) -> bool {
        &&& self.ids.len() == self.values.len()
        &&& self.slot_count() <= usize::MAX
        &&& forall|j: int, k: int|
            0 <= j < self.ids.len() && 0 <= k < self.ids.len() && j != k ==> (#[trigger] self.ids[j]).slot()
                != (#[trigger] self.ids[k]).slot()
        &&& forall|k: int|
            0 <= k < self.ids.len() ==> (#[trigger] self.ids[k]).generation() < self.next_generation
                && self.ids[k].slot() < self.slot_count()
        &&& self.free.no_duplicates()
        &&& forall|f: int| 0 <= f < self.free.len() ==> #[trigger] self.free[f] < self.slot_count()
        &&& forall|k: int, f: int|
            0 <= k < self.ids.len() && 0 <= f < self.free.len() ==> (#[trigger] self.ids[k]).slot()
                != #[trigger] self.free[f]
    }

    /// A handle resolves exactly when it is one of the live handles.
    pub open spec fn contains(self, id: ArenaId) -> bool {
        self.ids.contains(id)
    }

    /// The dense position of a live handle's value.
    pub open spec fn position(self, id: ArenaId) -> int {
        self.ids.index_of(id)
    }

    /// What a handle resolves to, if anything.
    pub open spec fn lookup(self, id: ArenaId) -> Option<T> {
        if self.contains(id) {
            Some(self.values[self.position(id)])
        } else {
            None
        }
    }

    /// The mapping from live handles to their values, whatever the physical order.
    pub open spec fn contents(self) -> Map<ArenaId, T> {
        Map::new(|id: ArenaId| self.contains(id), |id: ArenaId| self.values[self.position(id)])
    }

    /// The arena after inserting `value`: it goes to the end of the dense
    /// store under the next handle, which takes the head of the free list if
    /// there is one.
    pub open spec fn inserted(self, value: T) -> ArenaView<T> {
        ArenaView {
            values: self.values.push(value),
            ids: self.ids.push(self.next_id()),
            free: if self.free.len() > 0 {
                self.free.drop_first()
            } else {
                self.free
            },
            next_generation: (self.next_generation + 1) as u64,
        }
    }

    /// The arena after removing the value at dense position `k`: the last value
    /// moves into the hole, and the freed slot heads the free list.
    pub open spec fn removed_at(self, k: int) -> ArenaView<T> {
        ArenaView {
            values: self.values.update(k, self.values.last()).drop_last(),
            ids: self.ids.update(k, self.ids.last()).drop_last(),
            free: seq![self.ids[k].slot()] + self.free,
            next_generation: self.next_generation,
        }
    }

    /// The arena after removing every value: the slots are freed front to
    /// back, each pushed onto the head of the free list.
    pub open spec fn cleared(self) -> ArenaView<T> {
        ArenaView {
            values: Seq::empty(),
            ids: Seq::empty(),
            free: slots_reversed(self.ids) + self.free,
            next_generation: self.next_generation,
        }
    }

    /// The arena after removing every value and every slot; the generation
    /// counter keeps counting.
    pub open spec fn emptied(self) -> ArenaView<T> {
        ArenaView {
            values: Seq::empty(),
            ids: Seq::empty(),
            free: Seq::empty(),
            next_generation: self.next_generation,
        }
    }

    /// The values at dense positions `i` and `j` exchanged, with their handles.
    pub open spec fn swapped(self, i: int, j: int) -> ArenaView<T> {
        ArenaView {
            values: self.values.update(i, self.values[j]).update(j, self.values[i]),
            ids: self.ids.update(i, self.ids[j]).update(j, self.ids[i]),
            ..self
        }
    }

    /// The slot that the next insertion takes: the head of the free list, or a
    /// new slot at the end of the table.
    pub open spec fn next_slot(self) -> usize {
        if self.free.len() > 0 {
            self.free[0]
        } else {
            self.slot_count() as usize
        }
    }

    /// The handle that the next insertion returns.
    pub closed spec fn next_id(self) -> ArenaId {
        ArenaId { uid: self.next_generation, idx: self.next_slot() }
    }

    pub broadcast proof fn lemma_next_id(self)
        ensures
            (#[trigger] self.next_id()).generation() == self.next_generation,
            self.next_id().slot() == self.next_slot(),
    {
    }
}

/// The slots of `ids`, last one first: the order in which freeing the handles
/// from front to back pushes them onto the free list.
pub open spec fn slots_reversed(ids: Seq<ArenaId>) -> Seq<usize> {
    Seq::new(ids.len(), |i: int| ids[ids.len() - 1 - i].slot())
}

/// Entry `f` of the free list is a free slot that links to entry `f + 1`.
spec fn free_link(slots: Seq<Slot>, free: Seq<usize>, f: int) -> bool {
    &&& free[f] < slots.len()
    &&& slots[free[f] as int] == Slot::Free {
        next_free: if f + 1 < free.len() {
            Some(free[f + 1])
        } else {
            None
        },
    }
}

/// Freeing slot `s` pushes it onto the head of the free list: `slots2` and
/// `free2` are the slot table and the free list after that.
proof fn lemma_push_free(
    slots: Seq<Slot>,
    free: Seq<usize>,
    s: usize,
    slots2: Seq<Slot>,
    free2: Seq<usize>,
)
    requires
        forall|f: int| 0 <= f < free.len() ==> #[trigger] free_link(slots, free, f),
        free.no_duplicates(),
        s < slots.len(),
        slots[s as int] is Used,
        slots2 == slots.update(
            s as int,
            Slot::Free {
                next_free: if free.len() > 0 {
                    Some(free[0])
                } else {
                    None
                },
            },
        ),
        free2 == seq![s] + free,
    ensures
        forall|f: int| 0 <= f < free2.len() ==> #[trigger] free_link(slots2, free2, f),
        free2.no_duplicates(),
{
    assert forall|f: int| 0 <= f < free.len() implies #[trigger] free[f] != s by {
        assert(free_link(slots, free, f));
    }
    assert forall|f: int| 0 <= f < free2.len() implies #[trigger] free_link(slots2, free2, f) by {
        if f > 0 {
            assert(free_link(slots, free, f - 1));
            assert(free[f - 1] != s);
        }
    }
    assert forall|a: int, b: int|
        0 <= a < free2.len() && 0 <= b < free2.len() && a != b implies free2[a] != free2[b] by {
        if a == 0 {
            assert(free[b - 1] != s);
        } else if b == 0 {
            assert(free[a - 1] != s);
        }
    }
}

spec fn uid_of(slot: Slot) -> u64 {
    match slot {
        Slot::Used { uid, .. } => uid,
        Slot::Free { .. } => 0,
    }
}

/// Exchanges two elements of a vector.
pub(crate) fn swap_elements<A>(v: &mut Vec<A>, i: usize, j: usize)
    requires
        i < j < old(v)@.len(),
    ensures
        final(v)@ == old(v)@.update(i as int, old(v)@[j as int]).update(j as int, old(v)@[i as int]),
{
    let (left, right) = v.as_mut_slice().split_at_mut(j);
    core::mem::swap(&mut left[i], &mut right[0]);
}

/// A contiguous growable container that assigns a handle to each value added
/// to it.
///
/// Values live in one dense vector. A slot table maps each handle to the
/// value's current position, so handles stay valid while values are removed
/// (the last value moves into the hole), swapped or sorted.
#[derive(Clone)]
pub struct Arena<T> {
    values: Vec<T>,
    table: SlotTable,
}

/// The bookkeeping of an arena: everything but the values themselves.
#[derive(Clone)]
struct SlotTable {
    /// `owners[k]` is the slot that maps to dense position `k`.
    owners: Vec<usize>,
    slots: Vec<Slot>,
    first_free: Option<usize>,
    next_uid: u64,
    /// The free list from its head, as the `next_free` links thread it.
    free_list: Ghost<Seq<usize>>,
}

impl SlotTable {
    spec fn owner_ok(&self, k: int) -> bool {
        let s = self.owners@[k];
        &&& s < self.slots@.len()
        &&& self.slots@[s as int] matches Slot::Used { value, .. } && value == k
    }

    spec fn slot_ok(&self, n: nat, s: int) -> bool {
        match self.slots@[s] {
            Slot::Used { uid, value } => {
                &&& value < n
                &&& self.owners@[value as int] == s
                &&& uid < self.next_uid
            },
            Slot::Free { .. } => true,
        }
    }

    spec fn inv(&self, n: nat) -> bool {
        let free = self.free_list@;
        &&& self.owners@.len() == n
        &&& free.len() + n == self.slots@.len()
        &&& forall|k: int| 0 <= k < n ==> #[trigger] self.owner_ok(k)
        &&& forall|s: int| 0 <= s < self.slots@.len() ==> #[trigger] self.slot_ok(n, s)
        &&& forall|f: int| 0 <= f < free.len() ==> #[trigger] free_link(self.slots@, self.free_list@, f)
        &&& free.no_duplicates()
        &&& self.first_free == if free.len() > 0 {
            Some(free[0])
        } else {
            None::<usize>
        }
    }
}

impl<T> View for Arena<T> {
    type V = ArenaView<T>;

    closed spec fn view(&self) -> ArenaView<T> {
        ArenaView {
            values: self.values@,
            ids: Seq::new(
                self.values@.len(),
                |k: int| ArenaId { uid: uid_of(self.table.slots@[self.table.owners@[k] as int]), idx: self.table.owners@[k] },
            ),
            free: self.table.free_list@,
            next_generation: self.table.next_uid,
        }
    }
}

impl<T> Arena<T> {
    spec fn inv(&self) -> bool {
        self.table.inv(self.values@.len())
    }

    /// The arena is well formed: its slot table, free list and dense store agree.
    pub closed spec fn wf(&self) -> bool {
        self.inv()
    }

    proof fn lemma_view_valid(&self)
        requires
            self.inv(),
        ensures
            self@.valid(),
            self@.slot_count() == self.table.slots@.len(),
    {
        let v = self@;
        assert(self.table.slots.len() == self.table.slots@.len());
        assert forall|j: int, k: int|
            0 <= j < v.ids.len() && 0 <= k < v.ids.len() && j != k implies (#[trigger] v.ids[j]).slot()
            != (#[trigger] v.ids[k]).slot() by {
            assert(self.table.owner_ok(j));
            assert(self.table.owner_ok(k));
        }
        assert forall|k: int| 0 <= k < v.ids.len() implies (#[trigger] v.ids[k]).generation()
            < v.next_generation && v.ids[k].slot() < v.slot_count() by {
            assert(self.table.owner_ok(k));
            assert(self.table.slot_ok(self.values@.len(), self.table.owners@[k] as int));
        }
        assert forall|f: int| 0 <= f < v.free.len() implies #[trigger] v.free[f] < v.slot_count() by {
            assert(free_link(self.table.slots@, self.table.free_list@, f));
        }
        assert forall|k: int, f: int|
            0 <= k < v.ids.len() && 0 <= f < v.free.len() implies (#[trigger] v.ids[k]).slot()
            != #[trigger] v.free[f] by {
            assert(self.table.owner_ok(k));
            assert(free_link(self.table.slots@, self.table.free_list@, f));
        }
    }

    /// Every well-formed arena has a consistent view.
    pub broadcast proof fn lemma_wf(&self)
        requires
            #[trigger] self.wf(),
        ensures
            self@.valid(),
    {
        self.lemma_view_valid();
    }

    /// Finds the dense position of a handle's value, if the handle is live.
    fn find(&self, id: ArenaId) -> (r: Option<usize>)
        requires
            self.inv(),
        ensures
            match r {
                Some(k) => self@.contains(id) && k == self@.position(id),
                None => !self@.contains(id),
            },
            self@.contains(id) ==> 0 <= self@.position(id) < self@.len() && self@.ids[self@.position(
                id,
            )] == id,
    {
        proof {
            self.lemma_view_valid();
        }
        if id.idx >= self.table.slots.len() {
            proof {
                self.lemma_absent(id);
            }
            return None;
        }
        match self.table.slots[id.idx] {
            Slot::Used { uid, value } => {
                if uid == id.uid {
                    proof {
                        assert(self.table.slot_ok(self.values@.len(), id.idx as int));
                        assert(self.table.owner_ok(value as int));
                        assert(self@.ids[value as int] == id);
                        lemma_position_of(self@, value as int);
                    }
                    Some(value)
                } else {
                    proof {
                        self.lemma_absent(id);
                    }
                    None
                }
            },
            Slot::Free { .. } => {
                proof {
                    self.lemma_absent(id);
                }
                None
            },
        }
    }

    /// A handle whose slot does not map it to a value is not live.
    proof fn lemma_absent(&self, id: ArenaId)
        requires
            self.inv(),
            !(id.idx < self.table.slots@.len() && self.table.slots@[id.idx as int] is Used && uid_of(
                self.table.slots@[id.idx as int],
            ) == id.uid),
        ensures
            !self@.contains(id),
    {
        if self@.contains(id) {
            let k = choose|k: int| 0 <= k < self@.ids.len() && self@.ids[k] == id;
            assert(self.table.owner_ok(k));
        }
    }

    /// An empty arena with room for `capacity` values, whose first handle
    /// gets generation `first`.
    pub(crate) fn starting_at(capacity: usize, first: u64) -> (r: Self)
        ensures
            r.wf(),
            r@.values == Seq::<T>::empty(),
            r@.ids == Seq::<ArenaId>::empty(),
            r@.free == Seq::<usize>::empty(),
            r@.next_generation == first,
    {
        let r = Arena {
            values: Vec::with_capacity(capacity),
            table: SlotTable {
                owners: Vec::with_capacity(capacity),
                slots: Vec::with_capacity(capacity),
                first_free: None,
                next_uid: first,
                free_list: Ghost(Seq::empty()),
            },
        };
        assert(r@.ids =~= Seq::<ArenaId>::empty());
        r
    }

    /// Takes over a vector of values, giving them handles as if they were
    /// inserted in order into a new arena: the value at position `k` gets slot
    /// `k` and generation `k + 1`.
    pub fn from_vec(values: Vec<T>) -> (r: Self)
        requires
            values@.len() < u64::MAX,
        ensures
            r.wf(),
            r@.values == values@,
            forall|k: int|
                0 <= k < values@.len() ==> (#[trigger] r@.ids[k]).generation() == k + 1
                    && r@.ids[k].slot() == k,
            r@.free == Seq::<usize>::empty(),
            r@.next_generation == values@.len() + 1,
    {
        let n = values.len();
        let mut owners: Vec<usize> = Vec::with_capacity(n);
        let mut slots: Vec<Slot> = Vec::with_capacity(n);
        let mut k: usize = 0;
        while k < n
            invariant
                0 <= k <= n,
                n == values@.len(),
                n < u64::MAX,
                owners@.len() == k,
                slots@.len() == k,
                forall|i: int| 0 <= i < k ==> #[trigger] owners@[i] == i,
                forall|i: int|
                    0 <= i < k ==> #[trigger] slots@[i] == (Slot::Used { uid: (i + 1) as u64, value: i as usize }),
            decreases n - k,
        {
            owners.push(k);
            slots.push(Slot::Used { uid: k as u64 + 1, value: k });
            k = k + 1;
        }
        let r = Arena {
            values,
            table: SlotTable {
                owners,
                slots,
                first_free: None,
                next_uid: n as u64 + 1,
                free_list: Ghost(Seq::empty()),
            },
        };
        proof {
            assert forall|i: int| 0 <= i < n implies #[trigger] r.table.owner_ok(i) by {}
            assert forall|t: int| 0 <= t < n implies #[trigger] r.table.slot_ok(n as nat, t) by {}
        }
        r
    }

    /// Rebuilds an arena from its stored entries, in any order, and the
    /// generation counter it had.
    ///
    /// Returns `None` if two entries share a slot or an entry's generation was
    /// not handed out before `next_generation`. Otherwise the entries, by
    /// increasing slot, make the dense store; the slots between them are free,
    /// threaded lowest first.
    pub fn from_entries(next_generation: u64, mut entries: Vec<Entry<T>>) -> (r: Option<Self>)
        ensures
            r is Some <==> entries_ok(next_generation, entries@),
            r matches Some(a) ==> a.wf() && decodes(a@, next_generation, entries@),
    {
        let ghost orig = entries@;
        let (Ghost(perm), Ghost(inv)) = sort_by_slot_descending(&mut entries);
        let ghost sorted = entries@;
        let n = entries.len();
        let mut i: usize = 0;
        let mut ok = true;
        while ok && i < n
            invariant
                0 <= i <= n,
                n == entries@.len(),
                entries@ == sorted,
                permutes(sorted, orig, perm, inv),
                forall|a: int, b: int|
                    0 <= a < b < n ==> (#[trigger] sorted[a]).slot >= (#[trigger] sorted[b]).slot,
                ok ==> forall|k: int| 0 <= k < i ==> (#[trigger] sorted[k]).generation < next_generation,
                ok ==> forall|a: int, b: int|
                    0 <= a < b < i ==> (#[trigger] sorted[a]).slot > (#[trigger] sorted[b]).slot,
                !ok ==> !entries_ok(next_generation, orig),
            decreases n - i + if ok {
                1int
            } else {
                0int
            },
        {
            if entries[i].generation >= next_generation {
                proof {
                    let p = perm[i as int];
                    assert(orig[p] == sorted[i as int]);
                }
                ok = false;
            } else if i > 0 && entries[i - 1].slot == entries[i].slot {
                proof {
                    let p1 = perm[i - 1];
                    let p2 = perm[i as int];
                    assert(orig[p1] == sorted[i - 1]);
                    assert(orig[p2] == sorted[i as int]);
                    assert(inv[p1] == i - 1 && inv[p2] == i);
                }
                ok = false;
            } else {
                proof {
                    assert forall|a: int, b: int| 0 <= a < b < i + 1 implies (
                    #[trigger] sorted[a]).slot > (#[trigger] sorted[b]).slot by {
                        if b == i && a < i - 1 {
                            assert(sorted[a].slot >= sorted[i - 1].slot);
                        }
                    }
                }
                i = i + 1;
            }
        }
        if !ok {
            return None;
        }
        proof {
            assert forall|a: int, b: int|
                0 <= a < orig.len() && 0 <= b < orig.len() && a != b implies (#[trigger] orig[a]).slot
                != (#[trigger] orig[b]).slot by {
                let qa = inv[a];
                let qb = inv[b];
                assert(sorted[qa] == orig[a]);
                assert(sorted[qb] == orig[b]);
            }
            assert forall|a: int| 0 <= a < orig.len() implies (#[trigger] orig[a]).generation
                < next_generation by {
                assert(sorted[inv[a]] == orig[a]);
            }
        }
        let mut values: Vec<T> = Vec::with_capacity(n);
        let mut owners: Vec<usize> = Vec::with_capacity(n);
        let mut slots: Vec<Slot> = Vec::with_capacity(n);
        let mut first_free: Option<usize> = None;
        let mut last_gap: Option<usize> = None;
        let ghost mut free: Seq<usize> = Seq::empty();
        let mut k: usize = 0;
        while k < n
            invariant
                0 <= k <= n,
                n == sorted.len(),
                entries@ == sorted.take(n - k),
                forall|a: int, b: int| 0 <= a < b < n ==> (#[trigger] sorted[a]).slot > (#[trigger] sorted[b]).slot,
                forall|a: int| 0 <= a < n ==> (#[trigger] sorted[a]).generation < next_generation,
                values@.len() == k,
                owners@.len() == k,
                forall|j: int|
                    0 <= j < k ==> #[trigger] owners@[j] == sorted[n - 1 - j].slot && values@[j]
                        == sorted[n - 1 - j].value,
                slots@.len() == if k == 0 {
                    0
                } else {
                    sorted[n - k].slot + 1
                },
                forall|j: int|
                    0 <= j < k ==> slots@[#[trigger] owners@[j] as int] == (Slot::Used {
                        uid: sorted[n - 1 - j].generation,
                        value: j as usize,
                    }),
                forall|t: int|
                    0 <= t < slots@.len() && (#[trigger] slots@[t]) is Used ==> slots@[t]->Used_value < k
                        && owners@[slots@[t]->Used_value as int] == t && slots@[t]->Used_uid
                        < next_generation,
                free.len() + k == slots@.len(),
                forall|f: int| 0 <= f < free.len() ==> #[trigger] free_link(slots@, free, f),
                forall|a: int, b: int| 0 <= a < b < free.len() ==> #[trigger] free[a] < #[trigger] free[b],
                first_free == if free.len() > 0 {
                    Some(free[0])
                } else {
                    None::<usize>
                },
                last_gap == if free.len() > 0 {
                    Some(free.last())
                } else {
                    None::<usize>
                },
            decreases n - k,
        {
            let e = match entries.pop() {
                Some(e) => e,
                None => {
                    return None;
                },
            };
            proof {
                assert(e == sorted[n - 1 - k]);
                assert(sorted.take(n - k).drop_last() =~= sorted.take(n - k - 1));
                if k > 0 {
                    assert(sorted[n - 1 - k].slot > sorted[n - k].slot);
                }
            }
            proof {
                assert forall|f: int| 0 <= f < free.len() implies #[trigger] free[f] < slots@.len() by {
                    assert(free_link(slots@, free, f));
                }
            }
            while slots.len() < e.slot
                invariant
                    k < n,
                    n == sorted.len(),
                    slots@.len() <= e.slot,
                    forall|j: int|
                        0 <= j < k ==> slots@[#[trigger] owners@[j] as int] == (Slot::Used {
                            uid: sorted[n - 1 - j].generation,
                            value: j as usize,
                        }),
                    forall|j: int| 0 <= j < k ==> #[trigger] owners@[j] < slots@.len(),
                    forall|t: int|
                        0 <= t < slots@.len() && (#[trigger] slots@[t]) is Used ==> slots@[t]->Used_value
                            < k && owners@[slots@[t]->Used_value as int] == t && slots@[t]->Used_uid
                            < next_generation,
                    owners@.len() == k,
                    free.len() + k == slots@.len(),
                    forall|f: int| 0 <= f < free.len() ==> #[trigger] free_link(slots@, free, f),
                    forall|a: int, b: int| 0 <= a < b < free.len() ==> #[trigger] free[a] < #[trigger] free[b],
                    forall|f: int| 0 <= f < free.len() ==> #[trigger] free[f] < slots@.len(),
                    first_free == if free.len() > 0 {
                        Some(free[0])
                    } else {
                        None::<usize>
                    },
                    last_gap == if free.len() > 0 {
                        Some(free.last())
                    } else {
                        None::<usize>
                    },
                decreases e.slot - slots@.len(),
            {
                let g = slots.len();
                let ghost before = slots@;
                slots.push(Slot::Free { next_free: None });
                match last_gap {
                    Some(lg) => {
                        slots[lg] = Slot::Free { next_free: Some(g) };
                    },
                    None => {
                        first_free = Some(g);
                    },
                }
                last_gap = Some(g);
                proof {
                    let old_free = free;
                    if old_free.len() > 0 {
                        assert(free_link(before, old_free, old_free.len() - 1));
                    }
                    free = free.push(g);
                    assert forall|f: int| 0 <= f < free.len() implies #[trigger] free_link(
                        slots@,
                        free,
                        f,
                    ) by {
                        if f < old_free.len() {
                            assert(free_link(before, old_free, f));
                        }
                    }
                    assert forall|t: int|
                        0 <= t < slots@.len() && (#[trigger] slots@[t]) is Used implies slots@[t]->Used_value
                        < k && owners@[slots@[t]->Used_value as int] == t && slots@[t]->Used_uid
                        < next_generation by {
                        assert(slots@[t] == before[t]);
                    }
                    assert forall|j: int| 0 <= j < k implies slots@[#[trigger] owners@[j] as int] == (
                    Slot::Used { uid: sorted[n - 1 - j].generation, value: j as usize }) by {
                        assert(before[owners@[j] as int] is Used);
                    }
                }
            }
            let ghost pre = slots@;
            slots.push(Slot::Used { uid: e.generation, value: k });
            owners.push(e.slot);
            values.push(e.value);
            proof {
                assert forall|f: int| 0 <= f < free.len() implies #[trigger] free_link(slots@, free, f) by {
                    assert(free_link(pre, free, f));
                }
            }
            k = k + 1;
        }
        let r = Arena {
            values,
            table: SlotTable { owners, slots, first_free, next_uid: next_generation, free_list: Ghost(free) },
        };
        proof {
            assert forall|j: int| 0 <= j < n implies #[trigger] r.table.owner_ok(j) by {}
            assert forall|t: int| 0 <= t < r.table.slots@.len() implies #[trigger] r.table.slot_ok(n as nat, t) by {}
            assert(free.no_duplicates());
            let v = r@;
            assert forall|j: int| 0 <= j < n implies #[trigger] entry_at(v, j, sorted[n - 1 - j]) by {}
            assert forall|i: int| 0 <= i < n implies listed(v, #[trigger] orig[i]) by {
                let j = n - 1 - inv[i];
                assert(entry_at(v, j, sorted[n - 1 - j]));
            }
            assert forall|j: int| 0 <= j < n implies #[trigger] covers(v, orig, j) by {
                assert(entry_at(v, j, sorted[n - 1 - j]));
                assert(orig[perm[n - 1 - j]] == sorted[n - 1 - j]);
            }
            assert forall|a: int, b: int| 0 <= a < b < n implies (#[trigger] v.ids[a]).slot() < (
            #[trigger] v.ids[b]).slot() by {
                assert(v.ids[a].slot() == sorted[n - 1 - a].slot);
                assert(v.ids[b].slot() == sorted[n - 1 - b].slot);
            }
            r.lemma_view_valid();
            if n > 0 {
                assert(v.ids.last().slot() == sorted[0].slot);
            }
        }
        Some(r)
    }

    /// The generation that the next inserted value's handle gets.
    pub fn next_generation(&self) -> (r: u64)
        requires
            self.wf(),
        ensures
            r == self@.next_generation,
    {
        self.table.next_uid
    }

    /// Lists every live value with its handle's generation and slot, by
    /// increasing slot: the stored form of the arena, together with
    /// `next_generation`.
    pub fn entries(&self) -> (r: Vec<Entry<&T>>)
        requires
            self.wf(),
        ensures
            encodes(self@, r@),
    {
        let ghost v = self@;
        let mut r: Vec<Entry<&T>> = Vec::new();
        let ns = self.table.slots.len();
        let mut t: usize = 0;
        while t < ns
            invariant
                self.inv(),
                v == self@,
                ns == self.table.slots@.len(),
                0 <= t <= ns,
                forall|i: int| 0 <= i < r@.len() ==> ref_listed(v, #[trigger] r@[i]),
                forall|i: int| 0 <= i < r@.len() ==> (#[trigger] r@[i]).slot < t,
                forall|a: int, b: int| 0 <= a < b < r@.len() ==> (#[trigger] r@[a]).slot < (#[trigger] r@[b]).slot,
                forall|k: int|
                    0 <= k < v.len() && self.table.owners@[k] < t ==> #[trigger] ref_covers(v, r@, k),
            decreases ns - t,
        {
            match self.table.slots[t] {
                Slot::Used { uid, value } => {
                    proof {
                        assert(self.table.slot_ok(self.values@.len(), t as int));
                        assert(self.table.owner_ok(value as int));
                    }
                    let e = Entry { generation: uid, slot: t, value: &self.values[value] };
                    let ghost before = r@;
                    r.push(e);
                    proof {
                        assert(entry_ref_at(v, value as int, e));
                        assert(ref_listed(v, e));
                        assert forall|k: int|
                            0 <= k < v.len() && self.table.owners@[k] < t + 1 implies #[trigger] ref_covers(
                            v,
                            r@,
                            k,
                        ) by {
                            if self.table.owners@[k] < t {
                                assert(ref_covers(v, before, k));
                                let i = choose|i: int| 0 <= i < before.len() && entry_ref_at(v, k, before[i]);
                                assert(r@[i] == before[i]);
                            } else {
                                assert(self.table.owner_ok(k));
                                assert(r@[before.len() as int] == e);
                            }
                        }
                    }
                },
                Slot::Free { .. } => {
                    proof {
                        assert forall|k: int|
                            0 <= k < v.len() && self.table.owners@[k] < t + 1 implies #[trigger] ref_covers(
                            v,
                            r@,
                            k,
                        ) by {
                            assert(self.table.owner_ok(k));
                        }
                    }
                },
            }
            t = t + 1;
        }
        proof {
            assert forall|k: int| 0 <= k < v.len() implies #[trigger] ref_covers(v, r@, k) by {
                assert(self.table.owner_ok(k));
            }
        }
        r
    }

    /// Constructs a new, empty arena.
    pub fn new() -> (r: Self)
        ensures
            r.wf(),
            r@.values == Seq::<T>::empty(),
            r@.ids == Seq::<ArenaId>::empty(),
            r@.free == Seq::<usize>::empty(),
            r@.next_generation == 1,
    {
Self::starting_at(0, 1)
    }

    /// Constructs a new, empty arena with room for at least `capacity` values.
    pub fn with_capacity(capacity: usize) -> (r: Self)
        ensures
            r.wf(),
            r@.values == Seq::<T>::empty(),
            r@.ids == Seq::<ArenaId>::empty(),
            r@.free == Seq::<usize>::empty(),
            r@.next_generation == 1,
    {
Self::starting_at(capacity, 1)
    }

    /// The number of values in the arena.
    pub fn len(&self) -> (r: usize)
        requires
            self.wf(),
        ensures
            r == self@.len(),
    {
        self.values.len()
    }

    /// Returns `true` if the arena holds no values.
    pub fn is_empty(&self) -> (r: bool)
        requires
            self.wf(),
        ensures
            r == (self@.len() == 0),
    {
        self.values.len() == 0
    }

    /// The number of slots the arena uses to map handles, live or free.
    pub fn slot_count(&self) -> (r: usize)
        requires
            self.wf(),
        ensures
            r == self@.slot_count(),
    {
        proof {
            self.lemma_view_valid();
        }
        self.table.slots.len()
    }

    /// The number of free slots, which values added later reuse before new
    /// slots are made.
    pub fn free_slot_count(&self) -> (r: usize)
        requires
            self.wf(),
        ensures
            r == self@.free.len(),
            r == self@.slot_count() - self@.len(),
    {
        proof {
            self.lemma_view_valid();
        }
        self.table.slots.len() - self.values.len()
    }

    /// Returns the value that the handle resolves to, or `None` if it was
    /// removed.
    pub fn get(&self, id: ArenaId) -> (r: Option<&T>)
        requires
            self.wf(),
        ensures
            match r {
                Some(v) => self@.contains(id) && *v == self@.values[self@.position(id)],
                None => !self@.contains(id),
            },
    {
        match self.find(id) {
            Some(k) => Some(&self.values[k]),
            None => None,
        }
    }

    /// Returns true if the handle resolves to a value of the arena.
    pub fn contains(&self, id: ArenaId) -> (r: bool)
        requires
            self.wf(),
        ensures
            r == self@.contains(id),
    {
        self.find(id).is_some()
    }

    /// The dense position of the handle's value, if the handle is live.
    pub fn index_of(&self, id: ArenaId) -> (r: Option<usize>)
        requires
            self.wf(),
        ensures
            match r {
                Some(k) => self@.contains(id) && k == self@.position(id),
                None => !self@.contains(id),
            },
    {
        self.find(id)
    }

    /// The handle of the value at a dense position, or `None` if the position
    /// is out of bounds.
    pub fn id_at(&self, index: usize) -> (r: Option<ArenaId>)
        requires
            self.wf(),
        ensures
            r == if index < self@.len() {
                Some(self@.ids[index as int])
            } else {
                None
            },
    {
        if index >= self.values.len() {
            return None;
        }
        let s = self.table.owners[index];
        proof {
            assert(self.table.owner_ok(index as int));
        }
        match self.table.slots[s] {
            Slot::Used { uid, .. } => Some(ArenaId { uid, idx: s }),
            Slot::Free { .. } => None,
        }
    }

    /// Inserts a value made by `create`, which is handed the handle the value
    /// will have, and returns that handle.
    ///
    /// The handle takes the head of the free list, or a new slot when the list
    /// is empty, and the current generation, after which the generation counter
    /// moves on. The value goes to the end of the dense store.
    pub fn insert_with<F>(&mut self, create: F) -> (id: ArenaId)
        where
            F: FnOnce(ArenaId) -> T,
        requires
            old(self).wf(),
            old(self)@.next_generation < u64::MAX,
            create.requires((old(self)@.next_id(),)),
        ensures
            final(self).wf(),
            id == old(self)@.next_id(),
            final(self)@ == old(self)@.inserted(final(self)@.values.last()),
            create.ensures((id,), final(self)@.values.last()),
    {
        proof {
            self.lemma_view_valid();
        }
        let ghost old_view = self@;
        let n = self.values.len();
        let uid = self.table.next_uid;
        let idx = match self.table.first_free {
            Some(s) => {
                proof {
                    assert(free_link(self.table.slots@, self.table.free_list@, 0));
                }
                let next = match self.table.slots[s] {
                    Slot::Free { next_free } => next_free,
                    Slot::Used { .. } => None,
                };
                self.table.first_free = next;
                self.table.slots[s] = Slot::Used { uid, value: n };
                self.table.free_list = Ghost(self.table.free_list@.drop_first());
                s
            },
            None => {
                let s = self.table.slots.len();
                self.table.slots.push(Slot::Used { uid, value: n });
                s
            },
        };
        let id = ArenaId { uid, idx };
        self.table.next_uid = uid + 1;
        let value = create(id);
        self.values.push(value);
        self.table.owners.push(idx);
        proof {
            let free = self.table.free_list@;
            assert forall|k: int| 0 <= k < n + 1 implies #[trigger] self.table.owner_ok(k) by {
                if k < n {
                    assert(old(self).table.owner_ok(k));
                    assert(old(self).table.slot_ok(old(self).values@.len(), old(self).table.owners@[k] as int));
                }
            }
            assert forall|t: int| 0 <= t < self.table.slots@.len() implies #[trigger] self.table.slot_ok(self.values@.len(), t) by {
                if t != idx {
                    assert(old(self).table.slot_ok(old(self).values@.len(), t));
                }
            }
            assert forall|f: int| 0 <= f < free.len() implies #[trigger] free_link(self.table.slots@, self.table.free_list@, f) by {
                if old_view.free.len() > 0 {
                    assert(free_link(old(self).table.slots@, old(self).table.free_list@, f + 1));
                    assert(old_view.free[f + 1] != old_view.free[0]);
                } else {
                    assert(free_link(old(self).table.slots@, old(self).table.free_list@, f));
                }
            }
            if old_view.free.len() > 0 {
                assert(free_link(old(self).table.slots@, old(self).table.free_list@, 0));
                if free.len() > 0 {
                    assert(free_link(old(self).table.slots@, old(self).table.free_list@, 1));
                }
            }
            assert(self@.ids =~= old_view.ids.push(id));
            assert(self@.values =~= old_view.values.push(value));
        }
        id
    }

    /// Inserts a value and returns its handle, which stays valid until the value
    /// is removed, however the arena is reordered.
    pub fn insert(&mut self, value: T) -> (id: ArenaId)
        requires
            old(self).wf(),
            old(self)@.next_generation < u64::MAX,
        ensures
            final(self).wf(),
            id == old(self)@.next_id(),
            final(self)@ == old(self)@.inserted(value),
    {
        let make = move |_id: ArenaId| -> (r: T)
            ensures
                r == value,
        {
            value
        };
        self.insert_with(make)
    }

    /// Removes the value that the handle resolves to and returns it, or returns
    /// `None`, changing nothing, if the handle is not live.
    ///
    /// The last value of the dense store moves into the hole, and the freed slot
    /// becomes the head of the free list.
    pub fn remove(&mut self, id: ArenaId) -> (r: Option<T>)
        requires
            old(self).wf(),
        ensures
            final(self).wf(),
            match r {
                Some(v) => {
                    &&& old(self)@.contains(id)
                    &&& v == old(self)@.values[old(self)@.position(id)]
                    &&& final(self)@ == old(self)@.removed_at(old(self)@.position(id))
                },
                None => !old(self)@.contains(id) && final(self)@ == old(self)@,
            },
    {
        proof {
            self.lemma_view_valid();
        }
        let ghost old_view = self@;
        let k = match self.find(id) {
            Some(k) => k,
            None => return None,
        };
        let s = id.idx;
        proof {
            assert(old(self).table.owner_ok(k as int));
            assert(old(self).table.slot_ok(old(self).values@.len(), s as int));
        }
        self.table.slots[s] = Slot::Free { next_free: self.table.first_free };
        self.table.first_free = Some(s);
        self.table.free_list = Ghost(seq![s] + self.table.free_list@);
        let last = self.values.len() - 1;
        if k != last {
            let moved = self.table.owners[last];
            proof {
                assert(old(self).table.owner_ok(last as int));
            }
            match self.table.slots[moved] {
                Slot::Used { uid, .. } => {
                    self.table.slots[moved] = Slot::Used { uid, value: k };
                },
                Slot::Free { .. } => {},
            }
        }
        self.table.owners.swap_remove(k);
        let v = self.values.swap_remove(k);
        proof {
            let n = old_view.values.len();
            let free = self.table.free_list@;
            let moved = old(self).table.owners@[last as int];
            assert forall|j: int| 0 <= j < n - 1 implies #[trigger] self.table.owner_ok(j) by {
                assert(old(self).table.owner_ok(j));
            }
            assert forall|t: int| 0 <= t < self.table.slots@.len() implies #[trigger] self.table.slot_ok(self.values@.len(), t) by {
                assert(old(self).table.slot_ok(old(self).values@.len(), t));
                if t != s && t != moved {
                    if let Slot::Used { value, .. } = old(self).table.slots@[t] {
                        assert(old(self).table.owner_ok(value as int));
                    }
                }
            }
            assert forall|f: int| 0 <= f < free.len() implies #[trigger] free_link(self.table.slots@, self.table.free_list@, f) by {
                if f > 0 {
                    assert(free_link(old(self).table.slots@, old(self).table.free_list@, f - 1));
                    if f - 1 + 1 < old_view.free.len() {
                        assert(free_link(old(self).table.slots@, old(self).table.free_list@, f));
                    }
                } else if old_view.free.len() > 0 {
                    assert(free_link(old(self).table.slots@, old(self).table.free_list@, 0));
                }
            }
            assert forall|a: int, b: int|
                0 <= a < free.len() && 0 <= b < free.len() && a != b implies free[a] != free[b] by {
                if a == 0 {
                    assert(free_link(old(self).table.slots@, old(self).table.free_list@, b - 1));
                } else if b == 0 {
                    assert(free_link(old(self).table.slots@, old(self).table.free_list@, a - 1));
                }
            }
            assert(self@.ids =~= old_view.ids.update(k as int, old_view.ids.last()).drop_last());
        }
        Some(v)
    }

    /// Removes the value at a dense position and returns it, or returns `None`,
    /// changing nothing, if the position is out of bounds.
    pub fn remove_at(&mut self, index: usize) -> (r: Option<T>)
        requires
            old(self).wf(),
        ensures
            final(self).wf(),
            match r {
                Some(v) => {
                    &&& index < old(self)@.len()
                    &&& v == old(self)@.values[index as int]
                    &&& final(self)@ == old(self)@.removed_at(index as int)
                },
                None => index >= old(self)@.len() && final(self)@ == old(self)@,
            },
    {
        match self.id_at(index) {
            Some(id) => {
                proof {
                    self.lemma_view_valid();
                    lemma_position_of(self@, index as int);
                }
                self.remove(id)
            },
            None => None,
        }
    }

    /// Removes the last value of the dense store and returns it, or returns
    /// `None` if the arena is empty.
    pub fn pop(&mut self) -> (r: Option<T>)
        requires
            old(self).wf(),
        ensures
            final(self).wf(),
            match r {
                Some(v) => {
                    &&& old(self)@.len() > 0
                    &&& v == old(self)@.values.last()
                    &&& final(self)@ == old(self)@.removed_at(old(self)@.len() - 1)
                },
                None => old(self)@.len() == 0 && final(self)@ == old(self)@,
            },
    {
        proof {
            self.lemma_view_valid();
        }
        let ghost old_view = self@;
        if self.values.len() == 0 {
            return None;
        }
        let last = self.values.len() - 1;
        let s = self.table.owners[last];
        proof {
            assert(old(self).table.owner_ok(last as int));
        }
        self.table.slots[s] = Slot::Free { next_free: self.table.first_free };
        self.table.first_free = Some(s);
        self.table.free_list = Ghost(seq![s] + self.table.free_list@);
        self.table.owners.pop();
        let v = self.values.pop();
        proof {
            let n = old_view.values.len();
            let free = self.table.free_list@;
            assert forall|j: int| 0 <= j < n - 1 implies #[trigger] self.table.owner_ok(j) by {
                assert(old(self).table.owner_ok(j));
            }
            assert forall|t: int| 0 <= t < self.table.slots@.len() implies #[trigger] self.table.slot_ok(self.values@.len(), t) by {
                assert(old(self).table.slot_ok(old(self).values@.len(), t));
            }
            assert forall|f: int| 0 <= f < free.len() implies #[trigger] free_link(self.table.slots@, self.table.free_list@, f) by {
                if f > 0 {
                    assert(free_link(old(self).table.slots@, old(self).table.free_list@, f - 1));
                    if f - 1 + 1 < old_view.free.len() {
                        assert(free_link(old(self).table.slots@, old(self).table.free_list@, f));
                    }
                } else if old_view.free.len() > 0 {
                    assert(free_link(old(self).table.slots@, old(self).table.free_list@, 0));
                }
            }
            assert forall|a: int, b: int|
                0 <= a < free.len() && 0 <= b < free.len() && a != b implies free[a] != free[b] by {
                if a == 0 {
                    assert(free_link(old(self).table.slots@, old(self).table.free_list@, b - 1));
                } else if b == 0 {
                    assert(free_link(old(self).table.slots@, old(self).table.free_list@, a - 1));
                }
            }
            assert forall|j: int| 0 <= j < n - 1 implies self@.ids[j] == old_view.ids[j] by {
                assert(old(self).table.owner_ok(j));
            }
            assert(self@.ids =~= old_view.ids.drop_last());
            assert(old_view.values.update(n - 1, old_view.values.last()) =~= old_view.values);
            assert(old_view.ids.update(n - 1, old_view.ids.last()) =~= old_view.ids);
            assert(self@.values =~= old_view.removed_at(n - 1).values);
        }
        v
    }

    /// Removes every value. Their slots join the free list, to be reused by
    /// values added later; the slot count stays as it was.
    pub fn clear(&mut self)
        requires
            old(self).wf(),
        ensures
            final(self).wf(),
            final(self)@ == old(self)@.cleared(),
    {
        proof {
            self.lemma_view_valid();
        }
        let ghost old_view = self@;
        let n = self.values.len();
        let mut k: usize = 0;
        while k < n
            invariant
                0 <= k <= n,
                n == old(self).values@.len(),
                self.values@ == old(self).values@,
                self.table.owners@ == old(self).table.owners@,
                self.table.next_uid == old(self).table.next_uid,
                self.table.slots@.len() == old(self).table.slots@.len(),
                old(self).inv(),
                old_view == old(self)@,
                self.table.free_list@ == slots_reversed(old_view.ids.take(k as int)) + old_view.free,
                self.table.first_free == if self.table.free_list@.len() > 0 {
                    Some(self.table.free_list@[0])
                } else {
                    None::<usize>
                },
                forall|f: int| 0 <= f < self.table.free_list@.len() ==> #[trigger] free_link(self.table.slots@, self.table.free_list@, f),
                self.table.free_list@.no_duplicates(),
                forall|t: int|
                    0 <= t < self.table.slots@.len() && old(self).table.slots@[t] is Free ==> #[trigger] self.table.slots@[t]
                        == old(self).table.slots@[t],
                forall|t: int|
                    0 <= t < self.table.slots@.len() && old(self).table.slots@[t] is Used
                        && old(self).table.slots@[t]->Used_value >= k ==> #[trigger] self.table.slots@[t]
                        == old(self).table.slots@[t],
                forall|t: int|
                    0 <= t < self.table.slots@.len() && old(self).table.slots@[t] is Used
                        && old(self).table.slots@[t]->Used_value < k ==> (#[trigger] self.table.slots@[t]) is Free,
            decreases n - k,
        {
            let s = self.table.owners[k];
            proof {
                assert(old(self).table.owner_ok(k as int));
                assert(old(self).table.slot_ok(old(self).values@.len(), s as int));
            }
            let ghost prev_slots = self.table.slots@;
            let ghost prev_free = self.table.free_list@;

            self.table.slots[s] = Slot::Free { next_free: self.table.first_free };
            self.table.first_free = Some(s);
            self.table.free_list = Ghost(seq![s] + self.table.free_list@);
            proof {
                assert(self.table.slots@ == prev_slots.update(
                    s as int,
                    Slot::Free {
                        next_free: if prev_free.len() > 0 {
                            Some(prev_free[0])
                        } else {
                            None
                        },
                    },
                ));
                lemma_push_free(prev_slots, prev_free, s, self.table.slots@, self.table.free_list@);
                assert(slots_reversed(old_view.ids.take(k + 1)) =~= seq![s] + slots_reversed(
                    old_view.ids.take(k as int),
                ));
                assert(self.table.free_list@ =~= slots_reversed(old_view.ids.take(k + 1)) + old_view.free);
                assert forall|t: int|
                    0 <= t < self.table.slots@.len() && old(self).table.slots@[t] is Used
                        && old(self).table.slots@[t]->Used_value < k + 1 implies (
                    #[trigger] self.table.slots@[t]) is Free by {
                    assert(old(self).table.slot_ok(old(self).values@.len(), t));
                }
            }
            k = k + 1;
        }
        let ghost looped = *self;
        self.values.clear();
        self.table.owners.clear();
        proof {
            assert(old_view.ids.take(n as int) =~= old_view.ids);
            assert forall|f: int| 0 <= f < self.table.free_list@.len() implies #[trigger] free_link(self.table.slots@, self.table.free_list@, f) by {
                assert(free_link(looped.table.slots@, looped.table.free_list@, f));
            }
            assert forall|t: int| 0 <= t < self.table.slots@.len() implies #[trigger] self.table.slot_ok(self.values@.len(), t) by {
                assert(old(self).table.slot_ok(old(self).values@.len(), t));
            }
            assert(self@.ids =~= Seq::<ArenaId>::empty());
        }
    }

    /// Removes every value and every slot. Handles given out before stay
    /// invalid: the generation counter keeps counting.
    pub fn clear_all(&mut self)
        requires
            old(self).wf(),
        ensures
            final(self).wf(),
            final(self)@ == old(self)@.emptied(),
    {
        self.table.slots.clear();
        self.table.first_free = None;
        self.table.free_list = Ghost(Seq::empty());
        self.values.clear();
        self.table.owners.clear();
        proof {
            assert(self@.ids =~= Seq::<ArenaId>::empty());
        }
    }

    /// Exchanges the values at two dense positions. Every handle keeps
    /// resolving to the value it resolved to before.
    pub fn swap(&mut self, i: usize, j: usize)
        requires
            old(self).wf(),
            i < old(self)@.len(),
            j < old(self)@.len(),
        ensures
            final(self).wf(),
            final(self)@ == old(self)@.swapped(i as int, j as int),
    {
        let ghost old_view = self@;
        if i == j {
            proof {
                assert(old_view.values.update(i as int, old_view.values[j as int]).update(
                    j as int,
                    old_view.values[i as int],
                ) =~= old_view.values);
                assert(old_view.ids.update(i as int, old_view.ids[j as int]).update(
                    j as int,
                    old_view.ids[i as int],
                ) =~= old_view.ids);
            }
            return ;
        }
        let si = self.table.owners[i];
        let sj = self.table.owners[j];
        proof {
            assert(old(self).table.owner_ok(i as int));
            assert(old(self).table.owner_ok(j as int));
        }
        if i < j {
            swap_elements(&mut self.values, i, j);
        } else {
            swap_elements(&mut self.values, j, i);
        }
        self.table.owners[i] = sj;
        self.table.owners[j] = si;
        match self.table.slots[si] {
            Slot::Used { uid, .. } => {
                self.table.slots[si] = Slot::Used { uid, value: j };
            },
            Slot::Free { .. } => {},
        }
        match self.table.slots[sj] {
            Slot::Used { uid, .. } => {
                self.table.slots[sj] = Slot::Used { uid, value: i };
            },
            Slot::Free { .. } => {},
        }
        proof {
            let n = old_view.values.len();
            assert forall|k: int| 0 <= k < n implies #[trigger] self.table.owner_ok(k) by {
                assert(old(self).table.owner_ok(k));
            }
            assert forall|t: int| 0 <= t < self.table.slots@.len() implies #[trigger] self.table.slot_ok(self.values@.len(), t) by {
                assert(old(self).table.slot_ok(old(self).values@.len(), t));
            }
            assert forall|f: int| 0 <= f < self.table.free_list@.len() implies #[trigger] free_link(
                self.table.slots@,
                self.table.free_list@,
                f,
            ) by {
                assert(free_link(old(self).table.slots@, old(self).table.free_list@, f));
            }
            assert(self@.values =~= old_view.values.update(i as int, old_view.values[j as int]).update(
                j as int,
                old_view.values[i as int],
            ));
            assert forall|k: int| 0 <= k < n && k != i && k != j implies self@.ids[k] == old_view.ids[k] by {
                assert(old(self).table.owner_ok(k));
            }
            assert(self@.ids =~= old_view.ids.update(i as int, old_view.ids[j as int]).update(
                j as int,
                old_view.ids[i as int],
            ));
            assert(self@ == old_view.swapped(i as int, j as int));
        }
    }

    /// Returns a mutable reference to the value that the handle resolves to,
    /// or `None` if it was removed.
    pub fn get_mut(&mut self, id: ArenaId) -> (r: Option<&mut T>)
        requires
            old(self).wf(),
        ensures
            final(self).wf(),
            match r {
                Some(v) => {
                    &&& old(self)@.contains(id)
                    &&& *v == old(self)@.values[old(self)@.position(id)]
                    &&& final(self)@ == (ArenaView {
                        values: old(self)@.values.update(old(self)@.position(id), *final(v)),
                        ..old(self)@
                    })
                },
                None => !old(self)@.contains(id) && final(self)@ == old(self)@,
            },
    {
        match self.find(id) {
            Some(k) => Some(&mut self.values[k]),
            None => None,
        }
    }

    /// The values of the arena, in physical order, for editing in place. A
    /// slice keeps its length, so the arena stays well formed.
    ///
    /// Reordering values through the slice would leave handles resolving to
    /// other values; only `swap`, `sort_by`, `sort` and the removals reorder.
    pub fn as_mut_slice(&mut self) -> (r: &mut [T])
        requires
            old(self).wf(),
        ensures
            r@ == old(self)@.values,
            final(self)@.values == final(r)@,
            final(r)@.len() == r@.len() ==> final(self).wf() && final(self)@ == (ArenaView {
                values: final(r)@,
                ..old(self)@
            }),
    {
        self.values.as_mut_slice()
    }

    /// Exchanges the positions of the values that two handles resolve to and
    /// returns `true`, or returns `false`, changing nothing, if either handle is
    /// not live.
    pub fn swap_positions(&mut self, a: ArenaId, b: ArenaId) -> (r: bool)
        requires
            old(self).wf(),
        ensures
            final(self).wf(),
            r == (old(self)@.contains(a) && old(self)@.contains(b)),
            r ==> final(self)@ == old(self)@.swapped(old(self)@.position(a), old(self)@.position(b)),
            !r ==> final(self)@ == old(self)@,
    {
        if let Some(i) = self.find(a) {
            if let Some(j) = self.find(b) {
                self.swap(i, j);
                return true;
            }
        }
        false
    }

    /// The values of the arena, in physical order.
    pub fn as_slice(&self) -> (r: &[T])
        requires
            self.wf(),
        ensures
            r@ == self@.values,
    {
        self.values.as_slice()
    }
}

} // verus!
