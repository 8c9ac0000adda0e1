//! The stored form of an arena: one entry per live value.
use vstd::prelude::*;

use crate::arena::{swap_elements, ArenaView};

verus! {

/// One live value of an arena as it is stored: the generation and slot of its
/// handle, and the value.
pub struct Entry<V> {
    pub generation: u64,
    pub slot: usize,
    pub value: V,
}

/// No two entries share a slot, and every generation was handed out before
/// `next_generation`.
pub open spec fn entries_ok<V>(next_generation: u64, e: Seq<Entry<V>>) -> bool {
    &&& forall|i: int, j: int|
        0 <= i < e.len() && 0 <= j < e.len() && i != j ==> (#[trigger] e[i]).slot != (#[trigger] e[j]).slot
    &&& forall|i: int| 0 <= i < e.len() ==> (#[trigger] e[i]).generation < next_generation
}

/// Dense position `k` of `v` holds the value of `e` under the handle that `e`
/// describes.
pub open spec fn entry_at<T>(v: ArenaView<T>, k: int, e: Entry<T>) -> bool {
    &&& v.ids[k].generation() == e.generation
    &&& v.ids[k].slot() == e.slot
    &&& v.values[k] == e.value
}

/// Dense position `k` of `v` holds the value that `e` refers to, under the
/// handle that `e` describes.
pub open spec fn entry_ref_at<T>(v: ArenaView<T>, k: int, e: Entry<&T>) -> bool {
    &&& v.ids[k].generation() == e.generation
    &&& v.ids[k].slot() == e.slot
    &&& v.values[k] == *e.value
}

/// Some dense position of `v` is the one that `e` refers to.
pub open spec fn ref_listed<T>(v: ArenaView<T>, e: Entry<&T>) -> bool {
    exists|k: int| 0 <= k < v.len() && #[trigger] entry_ref_at(v, k, e)
}

/// Some entry of `es` refers to dense position `k` of `v`.
pub open spec fn ref_covers<T>(v: ArenaView<T>, es: Seq<Entry<&T>>, k: int) -> bool {
    exists|i: int| 0 <= i < es.len() && #[trigger] entry_ref_at(v, k, es[i])
}

/// Some dense position of `v` holds what `e` describes.
pub open spec fn listed<T>(v: ArenaView<T>, e: Entry<T>) -> bool {
    exists|k: int| 0 <= k < v.len() && #[trigger] entry_at(v, k, e)
}

/// Some entry of `es` describes dense position `k` of `v`.
pub open spec fn covers<T>(v: ArenaView<T>, es: Seq<Entry<T>>, k: int) -> bool {
    exists|i: int| 0 <= i < es.len() && #[trigger] entry_at(v, k, es[i])
}

/// `e` lists every live value of `v` once, by increasing slot.
pub open spec fn encodes<T>(v: ArenaView<T>, e: Seq<Entry<&T>>) -> bool {
    &&& forall|i: int| 0 <= i < e.len() ==> ref_listed(v, #[trigger] e[i])
    &&& forall|k: int| 0 <= k < v.len() ==> #[trigger] ref_covers(v, e, k)
    &&& forall|a: int, b: int| 0 <= a < b < e.len() ==> (#[trigger] e[a]).slot < (#[trigger] e[b]).slot
}

/// `v` is the arena rebuilt from `e`: the entries by increasing slot make the
/// dense store, the slots between them are free, threaded lowest first, and the
/// generation counter is `next_generation`.
pub open spec fn decodes<T>(v: ArenaView<T>, next_generation: u64, e: Seq<Entry<T>>) -> bool {
    &&& v.next_generation == next_generation
    &&& v.len() == e.len()
    &&& forall|i: int| 0 <= i < e.len() ==> listed(v, #[trigger] e[i])
    &&& forall|k: int| 0 <= k < v.len() ==> #[trigger] covers(v, e, k)
    &&& forall|a: int, b: int|
        0 <= a < b < v.len() ==> (#[trigger] v.ids[a]).slot() < (#[trigger] v.ids[b]).slot()
    &&& v.slot_count() == if e.len() == 0 {
        0
    } else {
        v.ids.last().slot() + 1
    }
    &&& forall|a: int, b: int| 0 <= a < b < v.free.len() ==> #[trigger] v.free[a] < #[trigger] v.free[b]
}

/// `perm` and `inv` are mutually inverse maps between the positions of `s`
/// and those of `orig`, with `s[k] == orig[perm[k]]`.
pub open spec fn permutes<A>(s: Seq<A>, orig: Seq<A>, perm: Seq<int>, inv: Seq<int>) -> bool {
    &&& s.len() == orig.len()
    &&& perm.len() == s.len()
    &&& inv.len() == s.len()
    &&& forall|k: int|
        0 <= k < s.len() ==> 0 <= #[trigger] perm[k] < s.len() && inv[perm[k]] == k && s[k]
            == orig[perm[k]]
    &&& forall|j: int| 0 <= j < s.len() ==> 0 <= #[trigger] inv[j] < s.len() && perm[inv[j]] == j
}

/// Sorts entries by slot, largest slot first, and returns the permutation
/// that was applied together with its inverse.
pub(crate) fn sort_by_slot_descending<V>(v: &mut Vec<Entry<V>>) -> (r: (
    Ghost<Seq<int>>,
    Ghost<Seq<int>>,
))
    ensures
        permutes(final(v)@, old(v)@, r.0@, r.1@),
        forall|a: int, b: int|
            0 <= a < b < final(v)@.len() ==> (#[trigger] final(v)@[a]).slot >= (
            #[trigger] final(v)@[b]).slot,
{
    let ghost orig = v@;
    let n = v.len();
    let ghost mut perm = Seq::new(n as nat, |k: int| k);
    let ghost mut inv = Seq::new(n as nat, |k: int| k);
    if n < 2 {
        return (Ghost(perm), Ghost(inv));
    }
    let mut i: usize = 1;
    while i < n
        invariant
            1 <= i <= n,
            n == v@.len(),
            permutes(v@, orig, perm, inv),
            forall|a: int, b: int| 0 <= a < b < i ==> (#[trigger] v@[a]).slot >= (#[trigger] v@[b]).slot,
        decreases n - i,
    {
        let mut j: usize = i;
        while j > 0 && v[j - 1].slot < v[j].slot
            invariant
                0 <= j <= i < n,
                n == v@.len(),
                permutes(v@, orig, perm, inv),
                forall|a: int, b: int| 0 <= a < b < j ==> (#[trigger] v@[a]).slot >= (#[trigger] v@[b]).slot,
                forall|a: int, b: int|
                    j <= a < b <= i ==> (#[trigger] v@[a]).slot >= (#[trigger] v@[b]).slot,
                forall|a: int, b: int|
                    0 <= a < j && j < b <= i ==> (#[trigger] v@[a]).slot >= (#[trigger] v@[b]).slot,
            decreases j,
        {
            let ghost before = v@;
            swap_elements(v, j - 1, j);
            proof {
                let pa = perm[j - 1];
                let pb = perm[j as int];
                perm = perm.update(j - 1, pb).update(j as int, pa);
                inv = inv.update(pb, j - 1).update(pa, j as int);
                assert forall|a: int, b: int|
                    j - 1 <= a < b <= i implies (#[trigger] v@[a]).slot >= (#[trigger] v@[b]).slot by {
                    if a == j - 1 && b > j {
                        assert(before[j as int].slot >= before[b].slot);
                    }
                    if a == j {
                        assert(before[j - 1].slot >= before[b].slot);
                    }
                }
                assert forall|a: int, b: int|
                    0 <= a < j - 1 && j - 1 < b <= i implies (#[trigger] v@[a]).slot >= (
                    #[trigger] v@[b]).slot by {
                    if b == j {
                        assert(before[a].slot >= before[j - 1].slot);
                    }
                }
            }
            j = j - 1;
        }
        proof {
            assert forall|a: int, b: int| 0 <= a < b < i + 1 implies (#[trigger] v@[a]).slot >= (
            #[trigger] v@[b]).slot by {
                if j > 0 && a < j && b == j {
                    assert(v@[a].slot >= v@[j - 1].slot);
                }
            }
        }
        i = i + 1;
    }
    (Ghost(perm), Ghost(inv))
}

} // verus!
