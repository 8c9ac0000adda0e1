//! Sorting an arena in place, by exchanges that keep every handle valid.
use vstd::prelude::*;

use core::cmp::Ordering;
use vstd::std_specs::cmp::OrdSpec;

use crate::arena::Arena;
use crate::laws::swap_keeps_handles;

verus! {

/// `leq` holds of every pair of values in order.
pub open spec fn sorted_by<T>(s: Seq<T>, leq: spec_fn(T, T) -> bool) -> bool {
    forall|i: int, j: int| 0 <= i < j < s.len() ==> #[trigger] leq(s[i], s[j])
}

/// `leq` is total and transitive.
pub open spec fn total_preorder<T>(leq: spec_fn(T, T) -> bool) -> bool {
    &&& forall|a: T, b: T| #[trigger] leq(a, b) || leq(b, a)
    &&& forall|a: T, b: T, c: T| #[trigger] leq(a, b) && #[trigger] leq(b, c) ==> leq(a, c)
}

/// `compare` answers `Greater` exactly where `leq` fails.
pub open spec fn agrees<T, F: Fn(&T, &T) -> Ordering>(compare: F, leq: spec_fn(T, T) -> bool) -> bool {
    forall|a: T, b: T, o: Ordering| #[trigger]
        compare.ensures((&a, &b), o) ==> (o != Ordering::Greater <==> leq(a, b))
}

/// The order that `compare` states: `a` comes no later than `b` when
/// `compare(a, b)` never answers `Greater`.
pub open spec fn answers_leq<T, F: Fn(&T, &T) -> Ordering>(compare: F) -> spec_fn(T, T) -> bool {
    |a: T, b: T| forall|o: Ordering| #[trigger] compare.ensures((&a, &b), o) ==> o != Ordering::Greater
}

/// `compare` decides a total preorder: it answers `Greater` for a pair
/// either always or never, and the order it states is total and transitive.
pub open spec fn orders<T, F: Fn(&T, &T) -> Ordering>(compare: F) -> bool {
    agrees(compare, answers_leq(compare)) && total_preorder(answers_leq(compare))
}

/// The order of `Ord::cmp` on `T`.
pub open spec fn cmp_leq<T: Ord>() -> spec_fn(T, T) -> bool {
    |a: T, b: T| a.cmp_spec(&b) != Ordering::Greater
}

/// The value of `new` at position `k` was at a position in `[low, high]` in `old`.
spec fn drawn_at<T>(new: Seq<T>, old: Seq<T>, low: int, high: int, k: int) -> bool {
    exists|m: int| low <= m <= high && new[k] == #[trigger] old[m]
}

/// Every value of `new` at a position in `[low, high]` was at such a position in `old`.
spec fn drawn_from<T>(new: Seq<T>, old: Seq<T>, low: int, high: int) -> bool {
    forall|k: int| low <= k <= high ==> #[trigger] drawn_at(new, old, low, high, k)
}

/// Outside `[low, high]`, `new` and `old` agree.
spec fn same_outside<T>(new: Seq<T>, old: Seq<T>, low: int, high: int) -> bool {
    &&& new.len() == old.len()
    &&& forall|k: int| 0 <= k < new.len() && !(low <= k <= high) ==> #[trigger] new[k] == old[k]
}

proof fn lemma_drawn_from_refl<T>(a: Seq<T>, low: int, high: int)
    requires
        0 <= low,
        high < a.len(),
    ensures
        drawn_from(a, a, low, high),
{
    assert forall|k: int| low <= k <= high implies #[trigger] drawn_at(a, a, low, high, k) by {
        let m = k;
        assert(low <= m <= high && a[k] == a[m]);
    }
}

proof fn lemma_drawn_from_trans<T>(a: Seq<T>, b: Seq<T>, c: Seq<T>, low: int, high: int)
    requires
        drawn_from(a, b, low, high),
        drawn_from(b, c, low, high),
    ensures
        drawn_from(a, c, low, high),
{
    assert forall|k: int| low <= k <= high implies #[trigger] drawn_at(a, c, low, high, k) by {
        assert(drawn_at(a, b, low, high, k));
        let m1 = choose|m: int| low <= m <= high && a[k] == b[m];
        assert(drawn_at(b, c, low, high, m1));
        let m2 = choose|m: int| low <= m <= high && b[m1] == c[m];
        assert(a[k] == c[m2]);
    }
}

proof fn lemma_drawn_from_widen<T>(a: Seq<T>, b: Seq<T>, low: int, high: int, lo2: int, hi2: int)
    requires
        drawn_from(a, b, lo2, hi2),
        same_outside(a, b, lo2, hi2),
        low <= lo2,
        hi2 <= high,
        0 <= low,
        high < a.len(),
    ensures
        drawn_from(a, b, low, high),
{
    assert forall|k: int| low <= k <= high implies #[trigger] drawn_at(a, b, low, high, k) by {
        if lo2 <= k <= hi2 {
            assert(drawn_at(a, b, lo2, hi2, k));
            let m = choose|m: int| lo2 <= m <= hi2 && a[k] == b[m];
            assert(a[k] == b[m]);
        } else {
            assert(a[k] == b[k]);
        }
    }
}

impl<T> Arena<T> {
    /// Sorts the values with `compare`, by exchanges that keep every handle
    /// resolving to its value.
    ///
    /// Where `compare` decides a total preorder the values come out in that
    /// order; whatever it answers, the arena holds the same handles and values.
    pub fn sort_by<F: Fn(&T, &T) -> Ordering>(&mut self, compare: F)
        requires
            old(self).wf(),
            forall|a: &T, b: &T| compare.requires((a, b)),
        ensures
            final(self).wf(),
            final(self)@.len() == old(self)@.len(),
            final(self)@.contents() == old(self)@.contents(),
            final(self)@.free == old(self)@.free,
            final(self)@.next_generation == old(self)@.next_generation,
            orders(compare) ==> sorted_by(final(self)@.values, answers_leq(compare)),
    {
        let n = self.len();
        if n > 1 {
            self.quicksort(0, n - 1, &compare, Ghost(answers_leq(compare)));
        }
    }

    /// Sorts the values by their `Ord` order, keeping every handle valid.
    ///
    /// Where `cmp` follows its specification and that order is a total
    /// preorder, the values come out in that order; in any case the arena holds
    /// the same handles and values.
    pub fn sort(&mut self) where T: Ord
        requires
            old(self).wf(),
        ensures
            final(self).wf(),
            final(self)@.len() == old(self)@.len(),
            final(self)@.contents() == old(self)@.contents(),
            final(self)@.free == old(self)@.free,
            final(self)@.next_generation == old(self)@.next_generation,
            T::obeys_cmp_spec() && total_preorder(cmp_leq::<T>()) ==> sorted_by(
                final(self)@.values,
                cmp_leq::<T>(),
            ),
    {
        let compare = |a: &T, b: &T| -> (o: Ordering)
            ensures
                T::obeys_cmp_spec() ==> o == a.cmp_spec(b),
        {
            a.cmp(b)
        };
        proof {
            assert(T::obeys_cmp_spec() ==> agrees(compare, cmp_leq::<T>()));
        }
        let n = self.len();
        if n > 1 {
            self.quicksort(0, n - 1, &compare, Ghost(cmp_leq::<T>()));
        }
    }

    /// Sorts positions `low..=high` of the dense store by exchanges: the
    /// values that `compare` does not put after the pivot, the value at
    /// `high`, are gathered at the front, the pivot lands after them, and both
    /// sides are sorted in turn.
    fn quicksort<F: Fn(&T, &T) -> Ordering>(
        &mut self,
        low: usize,
        high: usize,
        compare: &F,
        Ghost(leq): Ghost<spec_fn(T, T) -> bool>,
    )
        requires
            old(self).wf(),
            low <= high < old(self)@.len(),
            forall|a: &T, b: &T| compare.requires((a, b)),
        ensures
            final(self).wf(),
            final(self)@.contents() == old(self)@.contents(),
            final(self)@.free == old(self)@.free,
            final(self)@.next_generation == old(self)@.next_generation,
            same_outside(final(self)@.values, old(self)@.values, low as int, high as int),
            same_outside(final(self)@.ids, old(self)@.ids, low as int, high as int),
            drawn_from(final(self)@.values, old(self)@.values, low as int, high as int),
            agrees(*compare, leq) && total_preorder(leq) ==> (forall|a: int, b: int|
                low <= a < b <= high ==> #[trigger] leq(final(self)@.values[a], final(self)@.values[b])),
        decreases high - low,
    {
        if low >= high {
            proof {
                lemma_drawn_from_refl(self@.values, low as int, high as int);
            }
            return ;
        }
        let ghost start = self@;
        let ghost good = agrees(*compare, leq) && total_preorder(leq);
        let ghost pivot = self@.values[high as int];
        proof {
            lemma_drawn_from_refl(self@.values, low as int, high as int);
        }
        let mut i: usize = low;
        let mut j: usize = low;
        while i <= high
            invariant
                self.wf(),
                low <= j <= i <= high + 1,
                high < self@.len(),
                forall|a: &T, b: &T| compare.requires((a, b)),
                self@.contents() == start.contents(),
                self@.free == start.free,
                self@.next_generation == start.next_generation,
                same_outside(self@.values, start.values, low as int, high as int),
                same_outside(self@.ids, start.ids, low as int, high as int),
                drawn_from(self@.values, start.values, low as int, high as int),
                i <= high ==> self@.values[high as int] == pivot,
                good == (agrees(*compare, leq) && total_preorder(leq)),
                good ==> forall|k: int| low <= k < j ==> #[trigger] leq(self@.values[k], pivot),
                good ==> forall|k: int| j <= k < i ==> !#[trigger] leq(self@.values[k], pivot),
                good && i > high ==> j > low && self@.values[j - 1] == pivot,
            decreases high + 1 - i,
        {
            let ghost before = self@;
            let o = compare(&self.as_slice()[i], &self.as_slice()[high]);
            proof {
                assert(good ==> (o != Ordering::Greater <==> leq(before.values[i as int], pivot))) by {
                    if good {
                        assert(compare.ensures((&before.values[i as int], &pivot), o));
                    }
                }
                assert(good && i == high ==> o != Ordering::Greater) by {
                    if good && i == high {
                        assert(leq(pivot, pivot) || leq(pivot, pivot));
                    }
                }
            }
            let in_order = match o {
                Ordering::Greater => false,
                _ => true,
            };
            if in_order {
                proof {
                    Arena::<T>::lemma_wf(self);
                    swap_keeps_handles(before, i as int, j as int);
                }
                self.swap(i, j);
                proof {
                    let sw = self@.values;
                    assert(sw[j as int] == before.values[i as int]);
                    assert forall|k: int| low <= k <= high implies #[trigger] drawn_at(
                        sw,
                        before.values,
                        low as int,
                        high as int,
                        k,
                    ) by {
                        if k == i {
                            assert(sw[k] == before.values[j as int]);
                        } else if k == j {
                            assert(sw[k] == before.values[i as int]);
                        } else {
                            assert(sw[k] == before.values[k]);
                        }
                    }
                    lemma_drawn_from_trans(sw, before.values, start.values, low as int, high as int);
                    assert(good ==> forall|k: int| low <= k < j + 1 ==> #[trigger] leq(sw[k], pivot)) by {
                        if good {
                            assert forall|k: int| low <= k < j + 1 implies #[trigger] leq(sw[k], pivot) by {
                                if k < j {
                                    assert(sw[k] == before.values[k]);
                                }
                            }
                        }
                    }
                    assert(good ==> forall|k: int| j + 1 <= k < i + 1 ==> !#[trigger] leq(sw[k], pivot)) by {
                        if good {
                            assert forall|k: int| j + 1 <= k < i + 1 implies !#[trigger] leq(sw[k], pivot) by {
                                if k == i {
                                    assert(sw[k] == before.values[j as int]);
                                } else {
                                    assert(sw[k] == before.values[k]);
                                }
                            }
                        }
                    }
                }
                j = j + 1;
            }
            i = i + 1;
        }
        if j == low {
            // Only a comparator that puts the pivot after itself leaves the
            // front side empty; it states no order, and the range stays as is.
            return ;
        }
        let p = j - 1;
        let ghost mid1 = self@;
        if p > low {
            self.quicksort(low, p - 1, compare, Ghost(leq));
            proof {
                lemma_drawn_from_widen(self@.values, mid1.values, low as int, high as int, low as int, p - 1);
                lemma_drawn_from_trans(self@.values, mid1.values, start.values, low as int, high as int);
                assert(good ==> forall|k: int| low <= k <= p - 1 ==> #[trigger] leq(self@.values[k], pivot)) by {
                    if good {
                        let cur = self@.values;
                        assert forall|k: int| low <= k <= p - 1 implies #[trigger] leq(cur[k], pivot) by {
                            assert(drawn_at(cur, mid1.values, low as int, p - 1, k));
                            let m = choose|m: int| low <= m <= p - 1 && cur[k] == mid1.values[m];
                            assert(leq(mid1.values[m], pivot));
                        }
                    }
                }
            }
        }
        let ghost mid2 = self@;
        if p < high {
            self.quicksort(p + 1, high, compare, Ghost(leq));
            proof {
                lemma_drawn_from_widen(self@.values, mid2.values, low as int, high as int, p + 1, high as int);
                lemma_drawn_from_trans(self@.values, mid2.values, start.values, low as int, high as int);
                assert(good ==> forall|k: int| p + 1 <= k <= high ==> !#[trigger] leq(self@.values[k], pivot)) by {
                    if good {
                        assert forall|k: int| p + 1 <= k <= high implies !#[trigger] leq(mid2.values[k], pivot) by {
                            assert(mid2.values[k] == mid1.values[k]);
                        }
                        let cur = self@.values;
                        assert forall|k: int| p + 1 <= k <= high implies !#[trigger] leq(cur[k], pivot) by {
                            assert(drawn_at(cur, mid2.values, p + 1, high as int, k));
                            let m = choose|m: int| p + 1 <= m <= high && cur[k] == mid2.values[m];
                            assert(!leq(mid2.values[m], pivot));
                        }
                    }
                }
            }
        }
        proof {
            let fin = self@.values;
            if good {
                assert(fin[p as int] == pivot);
                assert forall|k: int| low <= k < p implies #[trigger] leq(fin[k], pivot) by {
                    if p < high {
                        assert(fin[k] == mid2.values[k]);
                    }
                }
                assert forall|k: int| p < k <= high implies #[trigger] leq(pivot, fin[k]) by {
                    if p > low {
                        assert(mid2.values[k] == mid1.values[k]);
                    }
                    assert(!leq(fin[k], pivot));
                    assert(leq(fin[k], pivot) || leq(pivot, fin[k]));
                }
                assert forall|a: int, b: int| low <= a < b <= high implies #[trigger] leq(fin[a], fin[b]) by {
                    if b < p {
                        if p < high {
                            assert(fin[a] == mid2.values[a]);
                            assert(fin[b] == mid2.values[b]);
                        }
                    } else if a > p {
                    } else if b == p {
                        assert(leq(fin[a], pivot));
                    } else if a == p {
                        assert(leq(pivot, fin[b]));
                    } else {
                        assert(leq(fin[a], pivot));
                        assert(leq(pivot, fin[b]));
                    }
                }
            }
        }
    }
}

} // verus!
