//! Merging several singly linked lists of `i32` into one, smallest head first.
//!
//! The merge takes, again and again, the smallest head among the lists, the
//! first list winning a tie. A head of `i32::MAX` is never taken, so a list
//! is read only up to its first `i32::MAX`.

use vstd::multiset::Multiset;
use vstd::prelude::*;

verus! {

#[derive(PartialEq, Eq, Debug)]
pub struct ListNode {
    pub val: i32,
    pub next: Option<Box<ListNode>>,
}

/// The values of a list, front to back.
pub open spec fn values(list: Option<Box<ListNode>>) -> Seq<i32>
    decreases list,
{
    match list {
        None => Seq::empty(),
        Some(node) => seq![node.val] + values(node.next),
    }
}

/// The values of each list.
pub open spec fn all_values(lists: Seq<Option<Box<ListNode>>>) -> Seq<Seq<i32>> {
    Seq::new(lists.len(), |i: int| values(lists[i]))
}

/// `idx` is the list that gives the next value: its head is below `i32::MAX`,
/// no list has a smaller head, and no list before it has the same head.
pub open spec fn is_next(lists: Seq<Seq<i32>>, idx: int) -> bool {
    &&& 0 <= idx < lists.len()
    &&& lists[idx].len() > 0
    &&& lists[idx][0] < i32::MAX
    &&& forall|i: int|
        0 <= i < lists.len() && (#[trigger] lists[i]).len() > 0 ==> lists[idx][0] <= lists[i][0]
    &&& forall|i: int| 0 <= i < idx && (#[trigger] lists[i]).len() > 0 ==> lists[idx][0] < lists[i][0]
}

/// No list gives a next value: each is empty or starts with `i32::MAX`.
pub open spec fn exhausted(lists: Seq<Seq<i32>>) -> bool {
    forall|i: int|
        0 <= i < lists.len() ==> (#[trigger] lists[i]).len() == 0 || lists[i][0] == i32::MAX
}

/// The lists after the head of list `idx` has been taken.
pub open spec fn advanced(lists: Seq<Seq<i32>>, idx: int) -> Seq<Seq<i32>> {
    lists.update(idx, lists[idx].drop_first())
}

/// Number of values in all the lists together.
pub open spec fn total_len(lists: Seq<Seq<i32>>) -> nat
    decreases lists.len(),
{
    if lists.len() == 0 {
        0
    } else {
        total_len(lists.drop_last()) + lists.last().len()
    }
}

/// The merge of the lists: the next value, then the merge of what is left.
pub open spec fn merged(lists: Seq<Seq<i32>>) -> Seq<i32>
    decreases total_len(lists),
    via merged_terminates
{
    if exists|idx: int| is_next(lists, idx) {
        let idx: int = choose|idx: int| is_next(lists, idx);
        seq![lists[idx][0]] + merged(advanced(lists, idx))
    } else {
        Seq::empty()
    }
}

/// What the merge leaves of the lists.
pub open spec fn drained(lists: Seq<Seq<i32>>) -> Seq<Seq<i32>>
    decreases total_len(lists),
    via drained_terminates
{
    if exists|idx: int| is_next(lists, idx) {
        let idx: int = choose|idx: int| is_next(lists, idx);
        drained(advanced(lists, idx))
    } else {
        lists
    }
}

#[via_fn]
proof fn merged_terminates(lists: Seq<Seq<i32>>) {
    if exists|idx: int| is_next(lists, idx) {
        let idx: int = choose|idx: int| is_next(lists, idx);
        lemma_advanced_is_shorter(lists, idx);
    }
}

#[via_fn]
proof fn drained_terminates(lists: Seq<Seq<i32>>) {
    if exists|idx: int| is_next(lists, idx) {
        let idx: int = choose|idx: int| is_next(lists, idx);
        lemma_advanced_is_shorter(lists, idx);
    }
}

/// Taking one head leaves one value fewer.
pub proof fn lemma_advanced_is_shorter(lists: Seq<Seq<i32>>, idx: int)
    requires
        0 <= idx < lists.len(),
        lists[idx].len() > 0,
    ensures
        total_len(advanced(lists, idx)) + 1 == total_len(lists),
    decreases lists.len(),
{
    let after = advanced(lists, idx);
    if idx == lists.len() - 1 {
        assert(after.drop_last() =~= lists.drop_last());
    } else {
        lemma_advanced_is_shorter(lists.drop_last(), idx);
        assert(after.drop_last() =~= advanced(lists.drop_last(), idx));
    }
}

/// At most one list gives the next value.
pub proof fn lemma_next_is_unique(lists: Seq<Seq<i32>>, a: int, b: int)
    requires
        is_next(lists, a),
        is_next(lists, b),
    ensures
        a == b,
{
    if a < b {
        assert(lists[a].len() > 0);
    } else if b < a {
        assert(lists[b].len() > 0);
    }
}

/// Where a list gives the next value, the lists are not exhausted.
pub proof fn lemma_next_or_exhausted(lists: Seq<Seq<i32>>, idx: int)
    requires
        is_next(lists, idx),
    ensures
        !exhausted(lists),
{
    assert(lists[idx].len() > 0);
}

/// `s` is in ascending order.
pub open spec fn ascending(s: Seq<i32>) -> bool {
    forall|i: int, j: int| 0 <= i <= j < s.len() ==> s[i] <= s[j]
}

/// Every list is in ascending order and holds no `i32::MAX`.
pub open spec fn mergeable(lists: Seq<Seq<i32>>) -> bool {
    forall|i: int|
        0 <= i < lists.len() ==> ascending(#[trigger] lists[i]) && forall|j: int|
            0 <= j < lists[i].len() ==> #[trigger] lists[i][j] < i32::MAX
}

/// The values of all the lists together.
pub open spec fn pooled(lists: Seq<Seq<i32>>) -> Multiset<i32>
    decreases lists.len(),
{
    if lists.len() == 0 {
        Multiset::empty()
    } else {
        pooled(lists.drop_last()).add(lists.last().to_multiset())
    }
}

/// Taking one head takes that value, and no other, out of the pool.
pub proof fn lemma_pooled_advanced(lists: Seq<Seq<i32>>, idx: int)
    requires
        0 <= idx < lists.len(),
        lists[idx].len() > 0,
    ensures
        pooled(lists) == pooled(advanced(lists, idx)).insert(lists[idx][0]),
    decreases lists.len(),
{
    let after = advanced(lists, idx);
    if idx == lists.len() - 1 {
        assert(after.drop_last() =~= lists.drop_last());
        vstd::seq_lib::to_multiset_remove(lists[idx], 0);
        assert(lists[idx].drop_first() =~= lists[idx].remove(0));
        vstd::seq_lib::to_multiset_contains(lists[idx], lists[idx][0]);
        assert(lists[idx].contains(lists[idx][0]));
        assert(lists[idx].to_multiset() =~= lists[idx].drop_first().to_multiset().insert(
            lists[idx][0],
        ));
    } else {
        lemma_pooled_advanced(lists.drop_last(), idx);
        assert(after.drop_last() =~= advanced(lists.drop_last(), idx));
    }
    assert(pooled(lists) =~= pooled(after).insert(lists[idx][0]));
}

/// A value of the pool is a value of one of the lists.
pub proof fn lemma_pooled_member(lists: Seq<Seq<i32>>, x: i32) -> (at: (int, int))
    requires
        pooled(lists).count(x) > 0,
    ensures
        0 <= at.0 < lists.len(),
        0 <= at.1 < lists[at.0].len(),
        lists[at.0][at.1] == x,
    decreases lists.len(),
{
    if lists.len() == 0 {
        (0, 0)
    } else if lists.last().to_multiset().count(x) > 0 {
        vstd::seq_lib::to_multiset_contains(lists.last(), x);
        let j: int = choose|j: int| 0 <= j < lists.last().len() && lists.last()[j] == x;
        (lists.len() - 1, j)
    } else {
        lemma_pooled_member(lists.drop_last(), x)
    }
}

/// Lists without values pool to nothing.
pub proof fn lemma_pooled_empty(lists: Seq<Seq<i32>>)
    requires
        forall|i: int| 0 <= i < lists.len() ==> (#[trigger] lists[i]).len() == 0,
    ensures
        pooled(lists) == Multiset::<i32>::empty(),
    decreases lists.len(),
{
    if lists.len() > 0 {
        lemma_pooled_empty(lists.drop_last());
        assert(lists.last().len() == 0);
        vstd::seq_lib::to_multiset_len(lists.last());
        assert(lists.last().to_multiset() =~= Multiset::<i32>::empty());
        assert(pooled(lists) =~= Multiset::<i32>::empty());
    }
}

/// Among the first `upto` lists, the one that gives the next value, or -1
/// where each of them is empty or starts with `i32::MAX`.
pub proof fn lemma_find_next(lists: Seq<Seq<i32>>, upto: int) -> (idx: int)
    requires
        0 <= upto <= lists.len(),
    ensures
        idx == -1 ==> exhausted(lists.take(upto)),
        idx != -1 ==> is_next(lists.take(upto), idx),
    decreases upto,
{
    if upto == 0 {
        -1
    } else {
        let earlier: int = lemma_find_next(lists, upto - 1);
        let shorter = lists.take(upto - 1);
        let longer = lists.take(upto);
        let last = lists[upto - 1];
        assert forall|i: int| 0 <= i < upto - 1 implies #[trigger] longer[i] == shorter[i] by {}
        if last.len() == 0 || last[0] == i32::MAX || (earlier != -1 && shorter[earlier][0]
            <= last[0]) {
            if earlier == -1 {
                assert forall|i: int| 0 <= i < longer.len() implies (#[trigger] longer[i]).len() == 0
                    || longer[i][0] == i32::MAX by {
                    if i < upto - 1 {
                        assert(shorter[i].len() == 0 || shorter[i][0] == i32::MAX);
                    }
                }
            } else {
                assert forall|i: int|
                    0 <= i < longer.len() && (#[trigger] longer[i]).len() > 0 implies longer[earlier][0]
                    <= longer[i][0] by {
                    if i < upto - 1 {
                        assert(shorter[i].len() > 0);
                    }
                }
                assert forall|i: int|
                    0 <= i < earlier && (#[trigger] longer[i]).len() > 0 implies longer[earlier][0]
                    < longer[i][0] by {
                    assert(shorter[i].len() > 0);
                }
            }
            earlier
        } else {
            assert forall|i: int|
                0 <= i < longer.len() && (#[trigger] longer[i]).len() > 0 implies last[0]
                <= longer[i][0] by {
                if i < upto - 1 {
                    assert(shorter[i].len() > 0);
                    if earlier == -1 {
                        assert(shorter[i].len() == 0 || shorter[i][0] == i32::MAX);
                    }
                }
            }
            assert forall|i: int| 0 <= i < upto - 1 && (#[trigger] longer[i]).len() > 0 implies last[0]
                < longer[i][0] by {
                assert(shorter[i].len() > 0);
                if earlier == -1 {
                    assert(shorter[i].len() == 0 || shorter[i][0] == i32::MAX);
                }
            }
            upto - 1
        }
    }
}

/// The merge and what it leaves hold, together, the values of the lists.
pub proof fn lemma_merge_keeps_values(lists: Seq<Seq<i32>>)
    ensures
        merged(lists).to_multiset().add(pooled(drained(lists))) == pooled(lists),
        drained(lists).len() == lists.len(),
    decreases total_len(lists),
{
    if exists|idx: int| is_next(lists, idx) {
        let idx: int = choose|idx: int| is_next(lists, idx);
        let rest = advanced(lists, idx);
        lemma_advanced_is_shorter(lists, idx);
        lemma_merge_keeps_values(rest);
        lemma_pooled_advanced(lists, idx);
        vstd::seq_lib::to_multiset_insert(merged(rest), 0, lists[idx][0]);
        assert(merged(lists) =~= merged(rest).insert(0, lists[idx][0]));
        assert(merged(lists).to_multiset().add(pooled(drained(lists))) =~= pooled(lists));
    } else {
        vstd::seq_lib::to_multiset_len(merged(lists));
        assert(merged(lists).to_multiset() =~= Multiset::<i32>::empty());
        assert(merged(lists).to_multiset().add(pooled(drained(lists))) =~= pooled(lists));
    }
}

/// The merge of lists in ascending order without `i32::MAX` is in ascending
/// order, holds the values of all the lists and leaves none behind.
pub proof fn lemma_merge_of_ascending(lists: Seq<Seq<i32>>)
    requires
        mergeable(lists),
    ensures
        ascending(merged(lists)),
        merged(lists).to_multiset() == pooled(lists),
        drained(lists).len() == lists.len(),
        forall|i: int| 0 <= i < lists.len() ==> (#[trigger] drained(lists)[i]).len() == 0,
    decreases total_len(lists),
{
    lemma_merge_keeps_values(lists);
    if exists|idx: int| is_next(lists, idx) {
        let idx: int = choose|idx: int| is_next(lists, idx);
        let head: i32 = lists[idx][0];
        let rest = advanced(lists, idx);
        lemma_advanced_is_shorter(lists, idx);
        assert forall|i: int| 0 <= i < rest.len() implies ascending(#[trigger] rest[i]) && forall|
            j: int,
        | 0 <= j < rest[i].len() ==> #[trigger] rest[i][j] < i32::MAX by {
            if i == idx {
                assert(ascending(lists[idx]));
                assert forall|a: int, b: int| 0 <= a <= b < rest[i].len() implies rest[i][a]
                    <= rest[i][b] by {
                    assert(rest[i][a] == lists[idx][a + 1] && rest[i][b] == lists[idx][b + 1]);
                }
                assert forall|j: int| 0 <= j < rest[i].len() implies #[trigger] rest[i][j]
                    < i32::MAX by {
                    assert(rest[i][j] == lists[idx][j + 1]);
                }
            } else {
                assert(rest[i] == lists[i]);
            }
        }
        lemma_merge_of_ascending(rest);
        let tail = merged(rest);
        assert(merged(lists) =~= seq![head] + tail);
        assert forall|j: int| 0 <= j < tail.len() implies head <= tail[j] by {
            vstd::seq_lib::to_multiset_contains(tail, tail[j]);
            assert(tail.contains(tail[j]));
            let at = lemma_pooled_member(rest, tail[j]);
            let from = lists[at.0];
            assert(ascending(from));
            assert(from.len() > 0);
            if at.0 == idx {
                assert(rest[at.0][at.1] == from[at.1 + 1]);
                assert(from[0] <= from[at.1 + 1]);
            } else {
                assert(rest[at.0] == from);
                assert(from[0] <= from[at.1]);
            }
        }
        assert forall|i: int, j: int| 0 <= i <= j < merged(lists).len() implies merged(lists)[i]
            <= merged(lists)[j] by {
            if i > 0 {
                assert(merged(lists)[i] == tail[i - 1] && merged(lists)[j] == tail[j - 1]);
            } else if j > 0 {
                assert(merged(lists)[j] == tail[j - 1]);
            }
        }
        vstd::seq_lib::to_multiset_insert(tail, 0, head);
        assert(merged(lists) =~= tail.insert(0, head));
        lemma_pooled_advanced(lists, idx);
    } else {
        let found: int = lemma_find_next(lists, lists.len() as int);
        assert(lists.take(lists.len() as int) =~= lists);
        assert(exhausted(lists));
        assert forall|i: int| 0 <= i < lists.len() implies (#[trigger] lists[i]).len() == 0 by {
            if lists[i].len() > 0 {
                assert(lists[i][0] < i32::MAX);
            }
        }
        lemma_pooled_empty(lists);
        vstd::seq_lib::to_multiset_len(merged(lists));
        assert(merged(lists).to_multiset() =~= Multiset::<i32>::empty());
    }
}

impl Clone for ListNode {
    fn clone(&self) -> (copy: Self)
        ensures
            copy == *self,
        decreases self,
    {
        ListNode {
            val: self.val,
            next: match &self.next {
                None => None,
                Some(node) => Some(Box::new((&**node).clone())),
            },
        }
    }
}

impl ListNode {
    /// A list of one value.
    #[inline]
    pub fn new(val: i32) -> (node: Self)
        ensures
            node.val == val,
            node.next is None,
            values(Some(Box::new(node))) == seq![val],
    {
        let node = ListNode { next: None, val };
        proof {
            assert(values(node.next) == Seq::<i32>::empty());
            assert(values(Some(Box::new(node))) =~= seq![val]);
        }
        node
    }
}

pub struct Solution;

impl Solution {
    /// The smallest head below `i32::MAX` among the lists, and the first
    /// list that has it; nothing if every list is empty or starts with
    /// `i32::MAX`.
    #[inline]
    pub fn min_value(lists: &Vec<Option<Box<ListNode>>>) -> (found: Option<(i32, usize)>)
        requires
            lists.len() > 0,
        ensures
            match found {
                Some((m, idx)) => is_next(all_values(lists@), idx as int) && m == all_values(
                    lists@,
                )[idx as int][0],
                None => exhausted(all_values(lists@)),
            },
    {
        let mut m: i32 = i32::MAX;
        let mut idx: usize = 0;
        let mut b: bool = false;
        let ghost heads = all_values(lists@);

        for i in 0..lists.len()
            invariant
                heads == all_values(lists@),
                heads.len() == lists.len(),
                !b ==> m == i32::MAX && idx == 0,
                !b ==> forall|j: int|
                    0 <= j < i ==> (#[trigger] heads[j]).len() == 0 || heads[j][0] == i32::MAX,
                b ==> idx < i && heads[idx as int].len() > 0 && heads[idx as int][0] == m && m
                    < i32::MAX,
                b ==> forall|j: int| 0 <= j < i && (#[trigger] heads[j]).len() > 0 ==> m <= heads[j][0],
                b ==> forall|j: int| 0 <= j < idx && (#[trigger] heads[j]).len() > 0 ==> m < heads[j][0],
        {
            proof {
                assert(heads[i as int] == values(lists@[i as int]));
            }
            if let Some(n) = &lists[i] {
                proof {
                    assert(values(lists@[i as int]) =~= seq![n.val] + values(n.next));
                }
                if n.val < m {
                    m = n.val;
                    idx = i;
                    b = true;
                }
            }
        }

        if b {
            Some((m, idx))
        } else {
            None
        }
    }

    /// Takes the next value off the lists until they are exhausted, and
    /// returns the values in the order taken.
    fn recursive(lists: &mut Vec<Option<Box<ListNode>>>) -> (list: Option<Box<ListNode>>)
        requires
            old(lists).len() > 0,
        ensures
            values(list) == merged(all_values(old(lists)@)),
            all_values(final(lists)@) == drained(all_values(old(lists)@)),
        decreases total_len(all_values(old(lists)@)),
    {
        let ghost before = all_values(lists@);
        if let Some((min_value, idx)) = Solution::min_value(lists) {
            let curr = lists[idx].as_ref().unwrap();
            let next: Option<Box<ListNode>> = curr.next.clone();
            proof {
                assert(cloned(curr.next, next));
                assert(next == curr.next);
                assert(before[idx as int] =~= seq![min_value] + values(next));
                assert(values(next) =~= before[idx as int].drop_first());
            }
            lists.set(idx, next);
            proof {
                let chosen: int = choose|k: int| is_next(before, k);
                lemma_next_is_unique(before, idx as int, chosen);
                assert(all_values(lists@) =~= advanced(before, idx as int));
                lemma_advanced_is_shorter(before, idx as int);
            }

            let rest = Solution::recursive(lists);
            let list = Some(Box::new(ListNode { val: min_value, next: rest }));
            proof {
                assert(values(list) =~= seq![min_value] + values(rest));
            }
            list
        } else {
            proof {
                assert forall|k: int| !is_next(before, k) by {
                    if is_next(before, k) {
                        lemma_next_or_exhausted(before, k);
                    }
                }
            }
            None
        }
    }

    /// Merges the lists into one: the smallest head first, the first list
    /// winning a tie, each list read up to its first `i32::MAX`.
    pub fn merge_k_lists(lists: Vec<Option<Box<ListNode>>>) -> (list: Option<Box<ListNode>>)
        ensures
            values(list) == merged(all_values(lists@)),
            mergeable(all_values(lists@)) ==> ascending(values(list)) && values(list).to_multiset()
                == pooled(all_values(lists@)),
    {
        proof {
            if mergeable(all_values(lists@)) {
                lemma_merge_of_ascending(all_values(lists@));
            }
        }
        if lists.is_empty() {
            proof {
                assert forall|k: int| !is_next(all_values(lists@), k) by {}
            }
            return None;
        }
        let mut v = lists.clone();
        proof {
            assert forall|i: int| 0 <= i < lists@.len() implies v@[i] == lists@[i] by {
                assert(cloned(lists@[i], v@[i]));
            }
            assert(v@ =~= lists@);
        }
        Solution::recursive(&mut v)
    }
}

} // verus!
