//! A quicksort that leaves runs of up to three elements as they fall.
//!
//! `qsort` partitions a range around its middle element and sorts both
//! parts in the same way, but only ranges of four elements or more. What
//! comes out is stated exactly ([`qsorted`]); it is a rearrangement of the
//! range in which every element is at most each element three or more places
//! after it.

use crate::order::{
    at_most, comparisons_decided, follows, lawful_order, lemma_at_most_transitive,
    lemma_order_decided, precedes,
};
use vstd::prelude::*;

verus! {

/// `after` holds the elements of `before`, those outside `lo..=hi` where
/// they were and those inside somewhere inside.
pub open spec fn rearranged<A>(before: Seq<A>, after: Seq<A>, lo: int, hi: int) -> bool {
    &&& after.len() == before.len()
    &&& after.to_multiset() == before.to_multiset()
    &&& forall|k: int| 0 <= k < before.len() && !(lo <= k <= hi) ==> after[k] == before[k]
    &&& forall|k: int|
        lo <= k <= hi && 0 <= k < after.len() ==> #[trigger] came_from(before, lo, hi, after[k])
}

/// `x` is an element of `s` at a position in `lo..=hi`.
pub open spec fn came_from<A>(s: Seq<A>, lo: int, hi: int, x: A) -> bool {
    exists|m: int| lo <= m <= hi && #[trigger] found_at(s, x, m)
}

/// `x` is the element of `s` at `m`.
pub open spec fn found_at<A>(s: Seq<A>, x: A, m: int) -> bool {
    0 <= m < s.len() && s[m] == x
}

/// `s` with the elements at `i` and `j` exchanged.
pub open spec fn swapped<A>(s: Seq<A>, i: int, j: int) -> Seq<A> {
    s.update(i, s[j]).update(j, s[i])
}

/// Every element of `lo..=hi` is at most each element of the range that
/// stands three or more places after it.
pub open spec fn nearly_sorted<A: Ord>(s: Seq<A>, lo: int, hi: int) -> bool {
    forall|i: int, j: int|
        lo <= i && i + 3 <= j && j <= hi && 0 <= i && j < s.len() ==> at_most(
            #[trigger] s[i],
            #[trigger] s[j],
        )
}

/// The first position from `lo` upwards whose element does not precede
/// `pivot`.
pub open spec fn scan_up<A: Ord>(s: Seq<A>, lo: int, pivot: A) -> int
    decreases s.len() - lo,
{
    if 0 <= lo < s.len() && precedes(s[lo], pivot) {
        scan_up(s, lo + 1, pivot)
    } else {
        lo
    }
}

/// The first position from `hi` downwards whose element does not follow
/// `pivot`.
pub open spec fn scan_down<A: Ord>(s: Seq<A>, hi: int, pivot: A) -> int
    decreases hi,
{
    if 0 < hi < s.len() && follows(s[hi], pivot) {
        scan_down(s, hi - 1, pivot)
    } else {
        hi
    }
}

/// What partitioning `lo..=hi` around `pivot` makes of `s`, and where it
/// splits: as long as the two scans have not crossed, the elements they stop
/// at are exchanged and both move on.
pub open spec fn parted<A: Ord>(s: Seq<A>, lo: int, hi: int, pivot: A) -> (Seq<A>, int)
    decreases hi - lo + 2,
    via parted_terminates::<A>
{
    if lo > hi {
        (s, lo)
    } else {
        let l: int = scan_up(s, lo, pivot);
        let h: int = scan_down(s, hi, pivot);
        if l <= h {
            parted(swapped(s, l, h), l + 1, h - 1, pivot)
        } else {
            (s, l)
        }
    }
}

#[via_fn]
proof fn parted_terminates<A: Ord>(s: Seq<A>, lo: int, hi: int, pivot: A) {
    lemma_scan_up_rises(s, lo, pivot);
    lemma_scan_down_falls(s, hi, pivot);
}

/// The scan upwards never ends below its start.
pub proof fn lemma_scan_up_rises<A: Ord>(s: Seq<A>, lo: int, pivot: A)
    ensures
        scan_up(s, lo, pivot) >= lo,
    decreases s.len() - lo,
{
    if 0 <= lo < s.len() && precedes(s[lo], pivot) {
        lemma_scan_up_rises(s, lo + 1, pivot);
    }
}

/// The scan downwards never ends above its start.
pub proof fn lemma_scan_down_falls<A: Ord>(s: Seq<A>, hi: int, pivot: A)
    ensures
        scan_down(s, hi, pivot) <= hi,
    decreases hi,
{
    if 0 < hi < s.len() && follows(s[hi], pivot) {
        lemma_scan_down_falls(s, hi - 1, pivot);
    }
}

/// What `qsort` makes of `s` on `start..=end`: a range of four elements or
/// more is partitioned around its middle element and both parts are treated
/// in the same way; a shorter range stays as it is.
pub open spec fn qsorted<A: Ord>(s: Seq<A>, start: int, end: int) -> Seq<A>
    decreases end - start,
{
    if end - start > 2 && 0 <= start && end < s.len() {
        let cut = parted(s, start, end, s[(start + end) / 2]);
        let split: int = cut.1;
        if start < split <= end {
            let left = if split - start > 1 {
                qsorted(cut.0, start, split - 1)
            } else {
                cut.0
            };
            if split < end {
                qsorted(left, split, end)
            } else {
                left
            }
        } else {
            cut.0
        }
    } else {
        s
    }
}

/// Nothing rearranged is a rearrangement.
pub proof fn lemma_rearranged_refl<A>(s: Seq<A>, lo: int, hi: int)
    ensures
        rearranged(s, s, lo, hi),
{
    assert forall|k: int| lo <= k <= hi && 0 <= k < s.len() implies #[trigger] came_from(
        s,
        lo,
        hi,
        s[k],
    ) by {
        assert(found_at(s, s[k], k));
    }
}

/// An exchange inside the range keeps a rearrangement one.
pub proof fn lemma_swap_rearranged<A>(
    before: Seq<A>,
    now: Seq<A>,
    lo: int,
    hi: int,
    i: int,
    j: int,
)
    requires
        rearranged(before, now, lo, hi),
        lo <= i <= hi,
        lo <= j <= hi,
        0 <= i < now.len(),
        0 <= j < now.len(),
    ensures
        rearranged(before, swapped(now, i, j), lo, hi),
{
    let after = swapped(now, i, j);
    vstd::seq_lib::to_multiset_update(now, i, now[j]);
    vstd::seq_lib::to_multiset_update(now.update(i, now[j]), j, now[i]);
    vstd::seq_lib::to_multiset_contains(now, now[i]);
    vstd::seq_lib::to_multiset_contains(now, now[j]);
    assert(now.contains(now[i]) && now.contains(now[j]));
    assert(after.to_multiset() =~= now.to_multiset());
    assert forall|k: int| lo <= k <= hi && 0 <= k < after.len() implies #[trigger] came_from(
        before,
        lo,
        hi,
        after[k],
    ) by {
        let from: int = if k == j {
            i
        } else if k == i {
            j
        } else {
            k
        };
        assert(after[k] == now[from]);
        assert(came_from(before, lo, hi, now[from]));
        let m: int = choose|m: int| lo <= m <= hi && #[trigger] found_at(before, now[from], m);
        assert(found_at(before, after[k], m));
    }
}

/// A rearrangement of a part of a rearranged range is a rearrangement of the
/// range.
pub proof fn lemma_rearranged_within<A>(
    first: Seq<A>,
    second: Seq<A>,
    third: Seq<A>,
    lo: int,
    hi: int,
    from: int,
    to: int,
)
    requires
        rearranged(first, second, lo, hi),
        rearranged(second, third, from, to),
        lo <= from,
        to <= hi,
    ensures
        rearranged(first, third, lo, hi),
{
    assert(third.len() == first.len());
    assert(third.to_multiset() == first.to_multiset());
    assert forall|k: int| 0 <= k < first.len() && !(lo <= k <= hi) implies third[k] == first[k] by {
        assert(third[k] == second[k]);
        assert(second[k] == first[k]);
    }
    assert forall|k: int| lo <= k <= hi && 0 <= k < third.len() implies #[trigger] came_from(
        first,
        lo,
        hi,
        third[k],
    ) by {
        if from <= k <= to {
            assert(came_from(second, from, to, third[k]));
        }
        let via: int = if from <= k <= to {
            choose|m: int| from <= m <= to && #[trigger] found_at(second, third[k], m)
        } else {
            k
        };
        assert(third[k] == second[via]);
        assert(came_from(first, lo, hi, second[via]));
        let m: int = choose|m: int| lo <= m <= hi && #[trigger] found_at(first, second[via], m);
        assert(found_at(first, third[k], m));
    }
}

/// A bound from above on a range holds of every rearrangement of the range.
pub proof fn lemma_upper_bound_kept<A: Ord>(
    before: Seq<A>,
    after: Seq<A>,
    lo: int,
    hi: int,
    bound: A,
)
    requires
        rearranged(before, after, lo, hi),
        forall|k: int| lo <= k <= hi && 0 <= k < before.len() ==> at_most(#[trigger] before[k], bound),
    ensures
        forall|k: int| lo <= k <= hi && 0 <= k < after.len() ==> at_most(#[trigger] after[k], bound),
{
    assert forall|k: int| lo <= k <= hi && 0 <= k < after.len() implies at_most(
        #[trigger] after[k],
        bound,
    ) by {
        assert(came_from(before, lo, hi, after[k]));
        let m: int = choose|m: int| lo <= m <= hi && #[trigger] found_at(before, after[k], m);
        assert(at_most(before[m], bound));
    }
}

/// A bound from below on a range holds of every rearrangement of the range.
pub proof fn lemma_lower_bound_kept<A: Ord>(
    before: Seq<A>,
    after: Seq<A>,
    lo: int,
    hi: int,
    bound: A,
)
    requires
        rearranged(before, after, lo, hi),
        forall|k: int| lo <= k <= hi && 0 <= k < before.len() ==> at_most(bound, #[trigger] before[k]),
    ensures
        forall|k: int| lo <= k <= hi && 0 <= k < after.len() ==> at_most(bound, #[trigger] after[k]),
{
    assert forall|k: int| lo <= k <= hi && 0 <= k < after.len() implies at_most(
        bound,
        #[trigger] after[k],
    ) by {
        assert(came_from(before, lo, hi, after[k]));
        let m: int = choose|m: int| lo <= m <= hi && #[trigger] found_at(before, after[k], m);
        assert(at_most(bound, before[m]));
    }
}

/// Two nearly sorted ranges side by side, the left one at most `bound` and
/// the right one at least `bound`, make one nearly sorted range.
pub proof fn lemma_nearly_sorted_join<A: Ord>(s: Seq<A>, lo: int, split: int, hi: int, bound: A)
    requires
        lawful_order::<A>(),
        0 <= lo,
        hi < s.len(),
        nearly_sorted(s, lo, split - 1),
        nearly_sorted(s, split, hi),
        forall|k: int| lo <= k < split && k <= hi ==> at_most(#[trigger] s[k], bound),
        forall|k: int| split <= k <= hi && lo <= k ==> at_most(bound, #[trigger] s[k]),
    ensures
        nearly_sorted(s, lo, hi),
{
    assert forall|i: int, j: int|
        lo <= i && i + 3 <= j && j <= hi && 0 <= i && j < s.len() implies at_most(
        #[trigger] s[i],
        #[trigger] s[j],
    ) by {
        if j < split {
        } else if i >= split {
        } else {
            lemma_at_most_transitive(s[i], bound, s[j]);
        }
    }
}

/// Splits `start..=end` around the element in its middle: exchanges
/// elements until all that are at most the pivot stand before the returned
/// position and all that are at least the pivot from there on.
fn partition<A: Ord + Copy>(arr: &mut [A], start: usize, end: usize) -> (split: usize)
    requires
        lawful_order::<A>(),
        start + 2 <= end,
        end < old(arr)@.len(),
        end <= usize::MAX / 2,
    ensures
        (final(arr)@, split as int) == parted(
            old(arr)@,
            start as int,
            end as int,
            old(arr)@[(start + end) / 2],
        ),
        rearranged(old(arr)@, final(arr)@, start as int, end as int),
        start < split <= end,
        forall|k: int|
            start <= k < split ==> at_most(
                #[trigger] final(arr)@[k],
                old(arr)@[(start + end) / 2],
            ),
        forall|k: int|
            split <= k <= end ==> at_most(
                old(arr)@[(start + end) / 2],
                #[trigger] final(arr)@[k],
            ),
{
    let ghost before = arr@;
    let ghost middle: int = (start + end) / 2;
    let mut lo: usize = start;
    let mut hi: usize = end;
    let pivot_value = arr[(end + start) / 2];
    proof {
        lemma_order_decided::<A>();
        lemma_rearranged_refl(before, start as int, end as int);
        assert(precedes(pivot_value, pivot_value) <==> follows(pivot_value, pivot_value));
    }
    while lo <= hi
        invariant
            lawful_order::<A>(),
            comparisons_decided::<A>(),
            arr@.len() == before.len(),
            start + 2 <= end,
            end < arr@.len(),
            pivot_value == before[middle],
            middle == (start + end) / 2,
            rearranged(before, arr@, start as int, end as int),
            parted(arr@, lo as int, hi as int, pivot_value) == parted(
                before,
                start as int,
                end as int,
                pivot_value,
            ),
            start <= lo <= end,
            hi <= end,
            forall|k: int| start <= k < lo ==> at_most(#[trigger] arr@[k], pivot_value),
            forall|k: int| hi < k <= end ==> !precedes(#[trigger] arr@[k], pivot_value),
            (lo == start && hi == end && arr@ == before) || (start < lo && hi < end),
            start < lo && lo <= hi ==> exists|s: int|
                lo <= s <= end && !precedes(#[trigger] arr@[s], pivot_value),
            start < lo && lo <= hi ==> exists|s: int|
                start <= s <= hi && !follows(#[trigger] arr@[s], pivot_value),
        decreases end - lo + hi,
    {
        proof {
            lemma_order_decided::<A>();
        }
        let ghost fresh: bool = lo == start;
        let ghost upper: int = if fresh {
            middle
        } else {
            choose|s: int| lo <= s <= end && !precedes(#[trigger] arr@[s], pivot_value)
        };
        let ghost lower: int = if fresh {
            middle
        } else {
            choose|s: int| start <= s <= hi && !follows(#[trigger] arr@[s], pivot_value)
        };
        let ghost entered = arr@;
        let ghost lo_entered: int = lo as int;
        let ghost hi_entered: int = hi as int;
        while arr[lo] < pivot_value
            invariant
                comparisons_decided::<A>(),
                arr@ == entered,
                lo_entered <= lo <= upper,
                upper <= end,
                end < arr@.len(),
                !precedes(arr@[upper], pivot_value),
                forall|k: int| lo_entered <= k < lo ==> precedes(#[trigger] arr@[k], pivot_value),
                scan_up(entered, lo as int, pivot_value) == scan_up(entered, lo_entered, pivot_value),
            decreases upper - lo,
        {
            lo = lo + 1;
        }
        while arr[hi] > pivot_value
            invariant
                comparisons_decided::<A>(),
                arr@ == entered,
                lower <= hi <= hi_entered,
                0 <= lower,
                hi_entered < arr@.len(),
                !follows(arr@[lower], pivot_value),
                forall|k: int| hi < k <= hi_entered ==> follows(#[trigger] arr@[k], pivot_value),
                scan_down(entered, hi as int, pivot_value) == scan_down(
                    entered,
                    hi_entered,
                    pivot_value,
                ),
            decreases hi - lower,
        {
            hi = hi - 1;
        }
        proof {
            assert(scan_up(entered, lo_entered, pivot_value) == lo);
            assert(scan_down(entered, hi_entered, pivot_value) == hi);
        }
        if lo <= hi {
            proof {
                lemma_swap_rearranged(
                    before,
                    arr@,
                    start as int,
                    end as int,
                    lo as int,
                    hi as int,
                );
            }
            let tmp = arr[lo];
            arr[lo] = arr[hi];
            arr[hi] = tmp;
            proof {
                assert(arr@ == swapped(entered, lo as int, hi as int));
                if lo < hi {
                    assert(!precedes(arr@[hi as int], pivot_value));
                    assert(!follows(arr@[lo as int], pivot_value));
                }
            }

            lo = lo + 1;
            hi = hi - 1;
        }
    }
    proof {
        assert forall|k: int| lo <= k <= end implies at_most(
            before[middle],
            #[trigger] arr@[k],
        ) by {
            assert(!precedes(arr@[k], pivot_value));
        }
    }
    lo
}

/// Rearranges `arr[start..=end]` so that every element is at most each
/// element three or more places after it. A range of three elements or
/// fewer is left as it is.
pub fn qsort<A: Ord + Copy>(arr: &mut [A], start: usize, end: usize)
    requires
        lawful_order::<A>(),
        start <= end,
        end - start > 2 ==> end < old(arr)@.len() && end <= usize::MAX / 2,
    ensures
        final(arr)@ == qsorted(old(arr)@, start as int, end as int),
        rearranged(old(arr)@, final(arr)@, start as int, end as int),
        nearly_sorted(final(arr)@, start as int, end as int),
        end - start <= 2 ==> final(arr)@ == old(arr)@,
    decreases end - start,
{
    let ghost before = arr@;
    proof {
        lemma_rearranged_refl(before, start as int, end as int);
    }
    if end - start > 2 {
        let ghost pivot = before[(start + end) / 2];
        let new_start: usize = partition(arr, start, end);
        let ghost parted = arr@;
        if new_start - start > 1 {
            qsort(arr, start, new_start - 1)
        }
        let ghost left_done = arr@;
        proof {
            lemma_rearranged_refl(parted, start as int, new_start - 1);
            lemma_upper_bound_kept(parted, left_done, start as int, new_start - 1, pivot);
            lemma_rearranged_within(
                before,
                parted,
                left_done,
                start as int,
                end as int,
                start as int,
                new_start - 1,
            );
            assert(left_done.len() == before.len());
        }
        if new_start < end {
            qsort(arr, new_start, end);
        }
        proof {
            let done = arr@;
            lemma_rearranged_refl(left_done, new_start as int, end as int);
            assert forall|k: int|
                new_start <= k <= end && 0 <= k < left_done.len() implies at_most(
                pivot,
                #[trigger] left_done[k],
            ) by {
                assert(left_done[k] == parted[k]);
            }
            lemma_lower_bound_kept(left_done, done, new_start as int, end as int, pivot);
            lemma_rearranged_within(
                before,
                left_done,
                done,
                start as int,
                end as int,
                new_start as int,
                end as int,
            );
            assert forall|i: int, j: int|
                start <= i && i + 3 <= j && j <= new_start - 1 && 0 <= i && j < done.len() implies at_most(
                #[trigger] done[i],
                #[trigger] done[j],
            ) by {
                assert(done[i] == left_done[i] && done[j] == left_done[j]);
                assert(at_most(left_done[i], left_done[j]));
            }
            assert forall|k: int| start <= k < new_start && k <= end implies at_most(
                #[trigger] done[k],
                pivot,
            ) by {
                assert(done[k] == left_done[k]);
            }
            lemma_nearly_sorted_join(done, start as int, new_start as int, end as int, pivot);
        }
    }
}

} // verus!
