//! Sorting by time, stably and in either direction.

use vstd::prelude::*;

use crate::search::Timestamp;

verus! {

/// The one moment is before the other.
pub open spec fn earlier(a: Timestamp, b: Timestamp) -> bool {
    a.secs < b.secs || (a.secs == b.secs && a.nanos < b.nanos)
}

/// The one moment is before the other if and only if fewer nanoseconds lead up
/// to it.
pub proof fn lemma_earlier(a: Timestamp, b: Timestamp)
    requires
        a.wf(),
        b.wf(),
    ensures
        earlier(a, b) <==> a.total_nanos() < b.total_nanos(),
{
}

/// The item at `i` comes before the one at `j` in the sorted list: by its time
/// in the given direction, and by where it stood among items of equal time.
pub open spec fn precedes(times: Seq<Timestamp>, ascending: bool, i: int, j: int) -> bool {
    let forward = if ascending {
        earlier(times[i], times[j])
    } else {
        earlier(times[j], times[i])
    };
    forward || (times[i] == times[j] && i < j)
}

/// The indices are listed so that each comes before all that follow it.
pub open spec fn is_ascending_list(times: Seq<Timestamp>, ascending: bool, order: Seq<usize>) -> bool {
    forall|p: int, q: int|
        0 <= p < q < order.len() ==> precedes(
            times,
            ascending,
            #[trigger] order[p] as int,
            #[trigger] order[q] as int,
        )
}

/// The indices of all items are listed, each once, in the order in which the
/// items stand when they are sorted by time.
pub open spec fn is_sorted_order(times: Seq<Timestamp>, ascending: bool, order: Seq<usize>) -> bool {
    &&& order.len() == times.len()
    &&& forall|p: int| 0 <= p < order.len() ==> #[trigger] order[p] < times.len()
    &&& forall|i: usize| i < times.len() ==> #[trigger] order.contains(i)
    &&& is_ascending_list(times, ascending, order)
}

/// What the order is: the indices of all items, each once, so that of two items
/// the one that comes first is not the later one where the times ascend, not the
/// earlier one where they descend, and stood first where the times are equal.
/// Times are compared by their seconds, then by their nanoseconds, which for
/// nanoseconds below a second is how long they are after the start of 1970.
pub proof fn lemma_is_sorted_order(times: Seq<Timestamp>, ascending: bool, order: Seq<usize>)
    requires
        is_sorted_order(times, ascending, order),
    ensures
        order.len() == times.len(),
        forall|p: int| 0 <= p < order.len() ==> #[trigger] order[p] < times.len(),
        forall|i: usize| i < times.len() ==> #[trigger] order.contains(i),
        forall|p: int, q: int|
            0 <= p < q < order.len() ==> {
                let a = times[#[trigger] order[p] as int];
                let b = times[#[trigger] order[q] as int];
                &&& order[p] != order[q]
                &&& ascending ==> a.secs < b.secs || (a.secs == b.secs && a.nanos <= b.nanos)
                &&& !ascending ==> a.secs > b.secs || (a.secs == b.secs && a.nanos >= b.nanos)
                &&& a.secs == b.secs && a.nanos == b.nanos ==> order[p] < order[q]
                &&& a.nanos < 1_000_000_000 && b.nanos < 1_000_000_000 ==> {
                    let after_a = a.secs * 1_000_000_000 + a.nanos;
                    let after_b = b.secs * 1_000_000_000 + b.nanos;
                    if ascending {
                        after_a <= after_b
                    } else {
                        after_a >= after_b
                    }
                }
            },
{
    assert forall|p: int, q: int| 0 <= p < q < order.len() implies precedes(
        times,
        ascending,
        #[trigger] order[p] as int,
        #[trigger] order[q] as int,
    ) by {
    }
}

/// There is only one such order: sorting leaves no choice.
pub proof fn lemma_sorted_order_unique(times: Seq<Timestamp>, ascending: bool, a: Seq<usize>, b: Seq<usize>)
    requires
        is_sorted_order(times, ascending, a),
        is_sorted_order(times, ascending, b),
    ensures
        a == b,
{
    lemma_common_prefix(times, ascending, a, b, times.len() as int);
    assert(a =~= b);
}

proof fn lemma_common_prefix(
    times: Seq<Timestamp>,
    ascending: bool,
    a: Seq<usize>,
    b: Seq<usize>,
    n: int,
)
    requires
        is_sorted_order(times, ascending, a),
        is_sorted_order(times, ascending, b),
        0 <= n <= times.len(),
    ensures
        forall|k: int| 0 <= k < n ==> a[k] == b[k],
    decreases n,
{
    if n > 0 {
        let k = n - 1;
        lemma_common_prefix(times, ascending, a, b, k);
        assert(b.contains(a[k]));
        assert(a.contains(b[k]));
        let p = choose|p: int| 0 <= p < b.len() && b[p] == a[k];
        let q = choose|q: int| 0 <= q < a.len() && a[q] == b[k];
        if p < k {
            assert(a[p] == b[p]);
            assert(precedes(times, ascending, a[p] as int, a[k] as int));
            assert(false);
        }
        if q < k {
            assert(a[q] == b[q]);
            assert(precedes(times, ascending, b[q] as int, b[k] as int));
            assert(false);
        }
        if a[k] != b[k] {
            assert(precedes(times, ascending, b[k] as int, b[p] as int));
            assert(precedes(times, ascending, a[k] as int, a[q] as int));
            assert(false);
        }
    }
}

/// Whether the item at `i` comes before the one at `j` in the sorted list.
fn comes_first(times: &Vec<Timestamp>, ascending: bool, i: usize, j: usize) -> (r: bool)
    requires
        i < times@.len(),
        j < times@.len(),
    ensures
        r == precedes(times@, ascending, i as int, j as int),
{
    let a: Timestamp = times[i];
    let b: Timestamp = times[j];
    let same: bool = a.secs == b.secs && a.nanos == b.nanos;
    let a_earlier: bool = a.secs < b.secs || (a.secs == b.secs && a.nanos < b.nanos);
    if same {
        i < j
    } else if ascending {
        a_earlier
    } else {
        !a_earlier
    }
}

/// Merges two lists of indices, the second of which holds larger indices.
fn merge(
    times: &Vec<Timestamp>,
    ascending: bool,
    left: &Vec<usize>,
    right: &Vec<usize>,
) -> (r: Vec<usize>)
    requires
        left@.len() + right@.len() <= usize::MAX,
        is_ascending_list(times@, ascending, left@),
        is_ascending_list(times@, ascending, right@),
        forall|p: int| 0 <= p < left@.len() ==> #[trigger] left@[p] < times@.len(),
        forall|p: int| 0 <= p < right@.len() ==> #[trigger] right@[p] < times@.len(),
        forall|p: int, q: int|
            0 <= p < left@.len() && 0 <= q < right@.len() ==> #[trigger] left@[p]
                < #[trigger] right@[q],
    ensures
        r@.len() == left@.len() + right@.len(),
        is_ascending_list(times@, ascending, r@),
        forall|p: int|
            0 <= p < r@.len() ==> left@.contains(#[trigger] r@[p]) || right@.contains(r@[p]),
        forall|i: usize| left@.contains(i) || right@.contains(i) ==> #[trigger] r@.contains(i),
{
    let mut r: Vec<usize> = Vec::new();
    let mut i: usize = 0;
    let mut j: usize = 0;
    while i < left.len() || j < right.len()
        invariant
            left@.len() + right@.len() <= usize::MAX,
            is_ascending_list(times@, ascending, left@),
            is_ascending_list(times@, ascending, right@),
            forall|p: int| 0 <= p < left@.len() ==> #[trigger] left@[p] < times@.len(),
            forall|p: int| 0 <= p < right@.len() ==> #[trigger] right@[p] < times@.len(),
            forall|p: int, q: int|
                0 <= p < left@.len() && 0 <= q < right@.len() ==> #[trigger] left@[p]
                    < #[trigger] right@[q],
            i <= left@.len(),
            j <= right@.len(),
            r@.len() == i + j,
            is_ascending_list(times@, ascending, r@),
            forall|p: int, q: int|
                0 <= p < r@.len() && i <= q < left@.len() ==> precedes(
                    times@,
                    ascending,
                    #[trigger] r@[p] as int,
                    #[trigger] left@[q] as int,
                ),
            forall|p: int, q: int|
                0 <= p < r@.len() && j <= q < right@.len() ==> precedes(
                    times@,
                    ascending,
                    #[trigger] r@[p] as int,
                    #[trigger] right@[q] as int,
                ),
            forall|p: int|
                0 <= p < r@.len() ==> left@.contains(#[trigger] r@[p]) || right@.contains(r@[p]),
            forall|p: int| 0 <= p < i ==> r@.contains(#[trigger] left@[p]),
            forall|p: int| 0 <= p < j ==> r@.contains(#[trigger] right@[p]),
        decreases left@.len() + right@.len() - i - j,
    {
        let from_left: bool = if i == left.len() {
            false
        } else if j == right.len() {
            true
        } else {
            comes_first(times, ascending, left[i], right[j])
        };
        let next: usize = if from_left {
            left[i]
        } else {
            right[j]
        };
        let ghost before = r@;
        r.push(next);
        proof {
            assert(r@[before.len() as int] == next);
            assert forall|v: usize| before.contains(v) implies r@.contains(v) by {
                let p = choose|p: int| 0 <= p < before.len() && before[p] == v;
                assert(r@[p] == v);
            }
        }
        if from_left {
            assert(left@.contains(next));
            assert forall|q: int| j <= q < right@.len() implies precedes(
                times@,
                ascending,
                next as int,
                #[trigger] right@[q] as int,
            ) by {
                if j < q {
                    assert(precedes(times@, ascending, right@[j as int] as int, right@[q] as int));
                }
            }
            i = i + 1;
        } else {
            assert(right@.contains(next));
            assert forall|q: int| i <= q < left@.len() implies precedes(
                times@,
                ascending,
                next as int,
                #[trigger] left@[q] as int,
            ) by {
                if i < q {
                    assert(precedes(times@, ascending, left@[i as int] as int, left@[q] as int));
                }
            }
            j = j + 1;
        }
    }
    r
}

/// Lists the indices from `start` to `end` in sorted order.
fn sort_range(times: &Vec<Timestamp>, ascending: bool, start: usize, end: usize) -> (r: Vec<usize>)
    requires
        start <= end <= times@.len(),
    ensures
        r@.len() == end - start,
        is_ascending_list(times@, ascending, r@),
        forall|p: int| 0 <= p < r@.len() ==> start <= #[trigger] r@[p] < end,
        forall|i: usize| start <= i < end ==> #[trigger] r@.contains(i),
    decreases end - start,
{
    if end - start < 2 {
        let mut r: Vec<usize> = Vec::new();
        if start < end {
            r.push(start);
            assert(r@[0] == start);
        }
        return r;
    }
    let mid: usize = start + (end - start) / 2;
    let left: Vec<usize> = sort_range(times, ascending, start, mid);
    let right: Vec<usize> = sort_range(times, ascending, mid, end);
    let r: Vec<usize> = merge(times, ascending, &left, &right);
    assert forall|p: int| 0 <= p < r@.len() implies start <= #[trigger] r@[p] < end by {
        assert(left@.contains(r@[p]) || right@.contains(r@[p]));
    }
    r
}

/// Lists the indices of the items in the order in which the items stand when
/// they are sorted by time.
pub fn sorted_order(times: &Vec<Timestamp>, ascending: bool) -> (r: Vec<usize>)
    ensures
        is_sorted_order(times@, ascending, r@),
{
    sort_range(times, ascending, 0, times.len())
}

/// Puts the items into the order in which their indices are listed.
pub fn arrange<T>(items: Vec<T>, order: &Vec<usize>) -> (r: Vec<T>)
    requires
        order@.len() == items@.len(),
        forall|p: int| 0 <= p < order@.len() ==> #[trigger] order@[p] < items@.len(),
        order@.no_duplicates(),
    ensures
        r@.len() == items@.len(),
        forall|p: int| 0 <= p < r@.len() ==> #[trigger] r@[p] == items@[order@[p] as int],
{
    let mut slots: Vec<Option<T>> = Vec::new();
    let ghost all = items@;
    for item in it: items
        invariant
            it.seq() == all,
            slots@.len() == it.index(),
            forall|i: int| 0 <= i < slots@.len() ==> #[trigger] slots@[i] == Some(all[i]),
    {
        slots.push(Some(item));
    }
    let mut r: Vec<T> = Vec::new();
    for k in 0..order.len()
        invariant
            slots@.len() == all.len(),
            order@.len() == all.len(),
            forall|p: int| 0 <= p < order@.len() ==> #[trigger] order@[p] < all.len(),
            order@.no_duplicates(),
            r@.len() == k,
            forall|p: int| 0 <= p < k ==> #[trigger] r@[p] == all[order@[p] as int],
            forall|p: int| k <= p < order@.len() ==> slots@[#[trigger] order@[p] as int] == Some(
                all[order@[p] as int],
            ),
    {
        let slot: usize = order[k];
        let item: Option<T> = slots[slot].take();
        match item {
            Some(item) => {
                r.push(item);
            },
            None => {
                assert(false);
            },
        }
    }
    r
}

/// An order lists no index twice.
pub proof fn lemma_sorted_order_distinct(times: Seq<Timestamp>, ascending: bool, order: Seq<usize>)
    requires
        is_sorted_order(times, ascending, order),
    ensures
        order.no_duplicates(),
{
    assert forall|p: int, q: int| 0 <= p < order.len() && 0 <= q < order.len() && p != q implies order[p]
        != order[q] by {
        if p < q {
            assert(precedes(times, ascending, order[p] as int, order[q] as int));
        } else {
            assert(precedes(times, ascending, order[q] as int, order[p] as int));
        }
    }
}

} // verus!
