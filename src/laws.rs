//! Properties that hold across the arena's operations.
use vstd::prelude::*;

use crate::arena::{ArenaId, ArenaView};
use crate::entry::{
    covers, decodes, encodes, entries_ok, entry_at, entry_ref_at, listed, ref_covers, ref_listed,
    Entry,
};

verus! {

/// In a valid view, the handle at dense position `k` is live and sits at `k`.
pub proof fn lemma_position_of<T>(v: ArenaView<T>, k: int)
    requires
        v.valid(),
        0 <= k < v.len(),
    ensures
        v.contains(v.ids[k]),
        v.position(v.ids[k]) == k,
        v.lookup(v.ids[k]) == Some(v.values[k]),
{
    let p = v.ids.index_of(v.ids[k]);
    assert(0 <= p < v.ids.len() && v.ids[p] == v.ids[k]);
    if p != k {
        assert(v.ids[p].slot() != v.ids[k].slot());
    }
}

/// Swapping the values at two positions changes only the physical order:
/// every handle resolves to what it resolved to before, and no other handle
/// becomes live.
pub proof fn swap_keeps_handles<T>(before: ArenaView<T>, i: int, j: int)
    requires
        before.valid(),
        0 <= i < before.len(),
        0 <= j < before.len(),
    ensures
        before.swapped(i, j).valid(),
        before.swapped(i, j).contents() == before.contents(),
        forall|id: ArenaId| #[trigger] before.swapped(i, j).lookup(id) == before.lookup(id),
{
    let after = before.swapped(i, j);
    assert forall|a: int, b: int|
        0 <= a < after.ids.len() && 0 <= b < after.ids.len() && a != b implies (
        #[trigger] after.ids[a]).slot() != (#[trigger] after.ids[b]).slot() by {
        let a0 = if a == i {
            j
        } else if a == j {
            i
        } else {
            a
        };
        let b0 = if b == i {
            j
        } else if b == j {
            i
        } else {
            b
        };
        assert(after.ids[a] == before.ids[a0]);
        assert(after.ids[b] == before.ids[b0]);
    }
    assert forall|k: int|
        0 <= k < after.ids.len() implies (#[trigger] after.ids[k]).generation()
        < after.next_generation && after.ids[k].slot() < after.slot_count() by {
        let k0 = if k == i {
            j
        } else if k == j {
            i
        } else {
            k
        };
        assert(after.ids[k] == before.ids[k0]);
    }
    assert forall|k: int, f: int|
        0 <= k < after.ids.len() && 0 <= f < after.free.len() implies (
        #[trigger] after.ids[k]).slot() != #[trigger] after.free[f] by {
        let k0 = if k == i {
            j
        } else if k == j {
            i
        } else {
            k
        };
        assert(after.ids[k] == before.ids[k0]);
    }
    assert forall|id: ArenaId| #[trigger] after.lookup(id) == before.lookup(id) by {
        if before.contains(id) {
            let p = before.position(id);
            let p2 = if p == i {
                j
            } else if p == j {
                i
            } else {
                p
            };
            assert(after.ids[p2] == id);
            lemma_position_of(after, p2);
        } else if after.contains(id) {
            let q = choose|q: int| 0 <= q < after.ids.len() && after.ids[q] == id;
            let q0 = if q == i {
                j
            } else if q == j {
                i
            } else {
                q
            };
            assert(before.ids[q0] == id);
        }
    }
    assert(after.contents() =~= before.contents()) by {
        assert forall|id: ArenaId| #[trigger] after.contains(id) implies after.values[after.position(id)]
            == before.values[before.position(id)] by {
            assert(after.lookup(id) == before.lookup(id));
        }
        assert forall|id: ArenaId| after.contains(id) <==> #[trigger] before.contains(id) by {
            assert(after.lookup(id) == before.lookup(id));
        }
    }
}

/// Inserting keeps a view valid, where the slot table has room to grow.
pub proof fn lemma_inserted_valid<T>(before: ArenaView<T>, value: T)
    requires
        before.valid(),
        before.next_generation < u64::MAX,
        before.slot_count() < usize::MAX,
    ensures
        before.inserted(value).valid(),
        before.inserted(value).ids.last() == before.next_id(),
        !before.contains(before.next_id()),
{
    broadcast use ArenaView::lemma_next_id;

    let after = before.inserted(value);
    let n = before.ids.len() as int;
    let id = before.next_id();
    if before.free.len() > 0 {
        assert forall|f: int| 0 <= f < after.free.len() implies after.free[f] != id.slot() by {
            assert(after.free[f] == before.free[f + 1]);
            assert(before.free[f + 1] != before.free[0]);
        }
    }
    assert forall|k: int| 0 <= k < n implies (#[trigger] before.ids[k]).slot() != id.slot() by {
        if before.free.len() > 0 {
            assert(before.free[0] == before.free[0]);
        }
    }
    assert forall|j: int, k: int|
        0 <= j < after.ids.len() && 0 <= k < after.ids.len() && j != k implies (
        #[trigger] after.ids[j]).slot() != (#[trigger] after.ids[k]).slot() by {
        if j < n && k < n {
            assert(after.ids[j] == before.ids[j]);
            assert(after.ids[k] == before.ids[k]);
        }
    }
    assert forall|k: int| 0 <= k < after.ids.len() implies (#[trigger] after.ids[k]).generation()
        < after.next_generation && after.ids[k].slot() < after.slot_count() by {
        if k < n {
            assert(after.ids[k] == before.ids[k]);
        }
    }
    assert forall|f: int| 0 <= f < after.free.len() implies #[trigger] after.free[f] < after.slot_count() by {
        assert(after.free[f] == before.free[f + 1]);
    }
    assert forall|k: int, f: int|
        0 <= k < after.ids.len() && 0 <= f < after.free.len() implies (
        #[trigger] after.ids[k]).slot() != #[trigger] after.free[f] by {
        assert(after.free[f] == before.free[f + 1]);
        if k < n {
            assert(after.ids[k] == before.ids[k]);
        }
    }
    if before.contains(id) {
        let k = choose|k: int| 0 <= k < n && before.ids[k] == id;
        assert(before.ids[k].generation() < before.next_generation);
    }
}

/// Removing the value at a position keeps a view valid.
pub proof fn lemma_removed_valid<T>(before: ArenaView<T>, k: int)
    requires
        before.valid(),
        0 <= k < before.len(),
    ensures
        before.removed_at(k).valid(),
        !before.removed_at(k).contains(before.ids[k]),
{
    let after = before.removed_at(k);
    let n = before.ids.len() as int;
    let gone = before.ids[k].slot();
    assert forall|j: int| 0 <= j < after.ids.len() implies after.ids[j] == before.ids[if j == k {
        n - 1
    } else {
        j
    }] by {}
    assert forall|a: int, b: int|
        0 <= a < after.ids.len() && 0 <= b < after.ids.len() && a != b implies (
        #[trigger] after.ids[a]).slot() != (#[trigger] after.ids[b]).slot() by {
        let a0 = if a == k {
            n - 1
        } else {
            a
        };
        let b0 = if b == k {
            n - 1
        } else {
            b
        };
        assert(after.ids[a] == before.ids[a0]);
        assert(after.ids[b] == before.ids[b0]);
    }
    assert forall|j: int| 0 <= j < after.ids.len() implies (#[trigger] after.ids[j]).generation()
        < after.next_generation && after.ids[j].slot() < after.slot_count() by {
        let j0 = if j == k {
            n - 1
        } else {
            j
        };
        assert(after.ids[j] == before.ids[j0]);
    }
    assert forall|f: int| 0 <= f < after.free.len() implies #[trigger] after.free[f] < after.slot_count() by {
        if f > 0 {
            assert(after.free[f] == before.free[f - 1]);
        }
    }
    assert forall|j: int, f: int|
        0 <= j < after.ids.len() && 0 <= f < after.free.len() implies (
        #[trigger] after.ids[j]).slot() != #[trigger] after.free[f] by {
        let j0 = if j == k {
            n - 1
        } else {
            j
        };
        assert(after.ids[j] == before.ids[j0]);
        if f > 0 {
            assert(after.free[f] == before.free[f - 1]);
        }
    }
    assert forall|a: int, b: int|
        0 <= a < after.free.len() && 0 <= b < after.free.len() && a != b implies after.free[a]
        != after.free[b] by {
        if a == 0 {
            assert(after.free[b] == before.free[b - 1]);
        } else if b == 0 {
            assert(after.free[a] == before.free[a - 1]);
        }
    }
    if after.contains(before.ids[k]) {
        let j = choose|j: int| 0 <= j < after.ids.len() && after.ids[j] == before.ids[k];
        let j0 = if j == k {
            n - 1
        } else {
            j
        };
        assert(after.ids[j] == before.ids[j0]);
    }
}

/// Right after a value is inserted, the handle that the insertion returns
/// resolves to that value.
pub proof fn insert_then_get<T>(before: ArenaView<T>, value: T)
    requires
        before.valid(),
        before.next_generation < u64::MAX,
        before.slot_count() < usize::MAX,
    ensures
        before.inserted(value).lookup(before.next_id()) == Some(value),
{
    lemma_inserted_valid(before, value);
    lemma_position_of(before.inserted(value), before.ids.len() as int);
}

/// Removing a handle's value leaves that handle resolving to nothing and every
/// other handle resolving to what it did before.
pub proof fn remove_keeps_survivors<T>(before: ArenaView<T>, id: ArenaId, other: ArenaId)
    requires
        before.valid(),
        before.contains(id),
        other != id,
    ensures
        before.removed_at(before.position(id)).lookup(id) is None,
        before.removed_at(before.position(id)).lookup(other) == before.lookup(other),
{
    let k = before.position(id);
    let n = before.ids.len() as int;
    let after = before.removed_at(k);
    lemma_removed_valid(before, k);
    if before.contains(other) {
        let p = before.position(other);
        let p2 = if p == n - 1 {
            k
        } else {
            p
        };
        assert(after.ids[p2] == other);
        lemma_position_of(after, p2);
    } else if after.contains(other) {
        let q = choose|q: int| 0 <= q < after.ids.len() && after.ids[q] == other;
        let q0 = if q == k {
            n - 1
        } else {
            q
        };
        assert(before.ids[q0] == other);
    }
}

/// A handle that is not live and whose generation is already spent never
/// becomes live again by an insertion, even one that reuses its slot.
pub proof fn spent_handle_stays_dead<T>(before: ArenaView<T>, id: ArenaId, value: T)
    requires
        before.valid(),
        before.next_generation < u64::MAX,
        !before.contains(id),
        id.generation() < before.next_generation,
    ensures
        !before.inserted(value).contains(id),
        id.generation() < before.inserted(value).next_generation,
{
    broadcast use ArenaView::lemma_next_id;

    let after = before.inserted(value);
    if after.contains(id) {
        let q = choose|q: int| 0 <= q < after.ids.len() && after.ids[q] == id;
        if q < before.ids.len() {
            assert(before.ids[q] == id);
        }
    }
}

/// Once a handle's value is removed, the handle never resolves again, not even
/// after an insertion takes over its slot.
pub proof fn removed_handle_stays_dead<T>(before: ArenaView<T>, id: ArenaId, value: T)
    requires
        before.valid(),
        before.contains(id),
        before.next_generation < u64::MAX,
    ensures
        before.removed_at(before.position(id)).lookup(id) is None,
        before.removed_at(before.position(id)).inserted(value).lookup(id) is None,
{
    let k = before.position(id);
    lemma_position_of(before, k);
    lemma_removed_valid(before, k);
    spent_handle_stays_dead(before.removed_at(k), id, value);
}

/// Insertion and removal never give slots back: insertion keeps or grows the
/// slot count, removal keeps it.
pub proof fn slot_count_never_shrinks<T>(before: ArenaView<T>, value: T, k: int)
    requires
        before.valid(),
        0 <= k < before.len(),
    ensures
        before.inserted(value).slot_count() >= before.slot_count(),
        before.removed_at(k).slot_count() == before.slot_count(),
{
}

/// The free slots are exactly the slots that hold no value.
pub proof fn free_slots_are_unused<T>(v: ArenaView<T>)
    requires
        v.valid(),
    ensures
        v.free.len() == v.slot_count() - v.len(),
{
}

/// Clearing empties the arena and keeps its slots; emptying drops the slots
/// too.
pub proof fn clear_semantics<T>(before: ArenaView<T>)
    requires
        before.valid(),
    ensures
        before.cleared().len() == 0,
        before.cleared().slot_count() == before.slot_count(),
        before.emptied().len() == 0,
        before.emptied().slot_count() == 0,
{
}

/// `loaded` carries what `stored` refers to: the same generations, slots and
/// values, in the same order.
pub open spec fn carries<T>(stored: Seq<Entry<&T>>, loaded: Seq<Entry<T>>) -> bool {
    &&& loaded.len() == stored.len()
    &&& forall|i: int|
        0 <= i < loaded.len() ==> (#[trigger] loaded[i]).generation == stored[i].generation
            && loaded[i].slot == stored[i].slot && loaded[i].value == *stored[i].value
}

/// The stored form of an arena can always be loaded again: its slots are
/// distinct and its generations were all handed out.
pub proof fn stored_entries_load<T>(a: ArenaView<T>, stored: Seq<Entry<&T>>, loaded: Seq<Entry<T>>)
    requires
        a.valid(),
        encodes(a, stored),
        carries(stored, loaded),
    ensures
        entries_ok(a.next_generation, loaded),
{
    assert forall|i: int, j: int|
        0 <= i < loaded.len() && 0 <= j < loaded.len() && i != j implies (#[trigger] loaded[i]).slot
        != (#[trigger] loaded[j]).slot by {
        if i < j {
            assert(stored[i].slot < stored[j].slot);
        } else {
            assert(stored[j].slot < stored[i].slot);
        }
    }
    assert forall|i: int| 0 <= i < loaded.len() implies (#[trigger] loaded[i]).generation
        < a.next_generation by {
        assert(ref_listed(a, stored[i]));
        let k = choose|k: int| 0 <= k < a.len() && entry_ref_at(a, k, stored[i]);
        assert(a.ids[k].generation() < a.next_generation);
    }
}

/// Loading the stored form of an arena gives an arena in which every handle
/// resolves to what it resolved to before, with the same generation counter.
pub proof fn round_trip_keeps_handles<T>(
    a: ArenaView<T>,
    stored: Seq<Entry<&T>>,
    loaded: Seq<Entry<T>>,
    b: ArenaView<T>,
)
    requires
        a.valid(),
        encodes(a, stored),
        carries(stored, loaded),
        b.valid(),
        decodes(b, a.next_generation, loaded),
    ensures
        b.next_generation == a.next_generation,
        b.contents() == a.contents(),
        forall|id: ArenaId| #[trigger] b.lookup(id) == a.lookup(id),
{
    broadcast use ArenaId::lemma_ext;

    assert forall|id: ArenaId| #[trigger] b.lookup(id) == a.lookup(id) by {
        if a.contains(id) {
            let k = a.position(id);
            lemma_position_of(a, k);
            assert(ref_covers(a, stored, k));
            let i = choose|i: int| 0 <= i < stored.len() && entry_ref_at(a, k, stored[i]);
            assert(listed(b, loaded[i]));
            let k2 = choose|k2: int| 0 <= k2 < b.len() && entry_at(b, k2, loaded[i]);
            assert(b.ids[k2] == id);
            lemma_position_of(b, k2);
        } else if b.contains(id) {
            let k2 = b.position(id);
            lemma_position_of(b, k2);
            assert(covers(b, loaded, k2));
            let i = choose|i: int| 0 <= i < loaded.len() && entry_at(b, k2, loaded[i]);
            assert(ref_listed(a, stored[i]));
            let k = choose|k: int| 0 <= k < a.len() && entry_ref_at(a, k, stored[i]);
            assert(a.ids[k] == id);
        }
    }
    assert(b.contents() =~= a.contents()) by {
        assert forall|id: ArenaId| #[trigger] b.contains(id) <==> a.contains(id) by {
            assert(b.lookup(id) == a.lookup(id));
        }
        assert forall|id: ArenaId| #[trigger] b.contains(id) implies b.values[b.position(id)]
            == a.values[a.position(id)] by {
            assert(b.lookup(id) == a.lookup(id));
        }
    }
}

} // verus!
