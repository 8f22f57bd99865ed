//! Quicksort that recurses into the smaller side of each split and loops on
//! the larger, over inclusive index bounds, with its partition step.

use vstd::prelude::*;
use crate::order::{
    sorted, sorted_between, same_values, rearranged_between, swap_at, lemma_swap_rearranges,
    lemma_rearranged_whole, lemma_rearranged_widen, lemma_rearranged_twice,
    lemma_rearranged_member, lemma_sorted_interval_unchanged,
};

verus! {

/// The bounds `[left, right]` name at least two elements of a sequence of
/// length `len`.
pub open spec fn proper_bounds(len: int, left: int, right: int) -> bool {
    0 <= left < right < len
}

/// `pivot` splits `[left, right]`: no smaller index holds a value as large as
/// the one at `pivot`, no larger index a smaller one.
pub open spec fn split_at(s: Seq<i32>, left: int, pivot: int, right: int) -> bool {
    &&& left <= pivot <= right
    &&& forall|k: int| left <= k < pivot ==> s[k] < s[pivot]
    &&& forall|k: int| pivot < k <= right ==> s[k] >= s[pivot]
}

/// Within `[left, right]`, the part before `lo` and the part after `hi` are
/// settled: no value before `lo` exceeds one from `lo` on, and no value up to
/// `hi` exceeds one after `hi`.
pub open spec fn fenced(s: Seq<i32>, left: int, lo: int, hi: int, right: int) -> bool {
    &&& forall|a: int, b: int| left <= a < lo <= b <= right ==> s[a] <= s[b]
    &&& forall|a: int, b: int| left <= a <= hi < b <= right ==> s[a] <= s[b]
}

/// Rearranging what lies between the fences keeps them.
proof fn lemma_fenced_kept(
    a: Seq<i32>,
    b: Seq<i32>,
    left: int,
    lo: int,
    hi: int,
    right: int,
)
    requires
        0 <= left <= lo <= hi + 1 <= right + 1 <= a.len(),
        rearranged_between(a, b, lo, hi + 1),
        fenced(b, left, lo, hi, right),
    ensures
        fenced(a, left, lo, hi, right),
{
    assert forall|x: int, y: int| left <= x < lo <= y <= right implies a[x] <= a[y] by {
        if y <= hi {
            lemma_rearranged_member(a, b, lo, hi + 1, y);
        }
    }
    assert forall|x: int, y: int| left <= x <= hi < y <= right implies a[x] <= a[y] by {
        if x >= lo {
            lemma_rearranged_member(a, b, lo, hi + 1, x);
        }
    }
}

/// Rearranging one side of a split keeps the split.
proof fn lemma_split_kept(
    a: Seq<i32>,
    b: Seq<i32>,
    left: int,
    pivot: int,
    right: int,
    lo: int,
    hi: int,
)
    requires
        0 <= left <= pivot <= right < a.len(),
        left <= lo <= hi <= right + 1,
        hi <= pivot || pivot < lo,
        rearranged_between(a, b, lo, hi),
        split_at(b, left, pivot, right),
    ensures
        split_at(a, left, pivot, right),
{
    assert forall|k: int| left <= k < pivot implies a[k] < a[pivot] by {
        if lo <= k < hi {
            lemma_rearranged_member(a, b, lo, hi, k);
        }
    }
    assert forall|k: int| pivot < k <= right implies a[k] >= a[pivot] by {
        if lo <= k < hi {
            lemma_rearranged_member(a, b, lo, hi, k);
        }
    }
}

/// Splits `[left, right]` around the value of its last element and returns
/// the index where that value comes to rest: everything before it in the
/// range is smaller, everything after it is at least as large. One scan from
/// the left moves each smaller value to a boundary that grows with it; the
/// last element is then exchanged with the one at the boundary. Bounds that
/// name fewer than two elements change nothing and give `left` back.
pub fn partition(numbers: &mut [i32], left: i32, right: i32) -> (pivot: i32)
    requires
        left < right ==> proper_bounds(old(numbers).len() as int, left as int, right as int),
    ensures
        left >= right ==> pivot == left && final(numbers)@ == old(numbers)@,
        left < right ==> split_at(final(numbers)@, left as int, pivot as int, right as int),
        left < right ==> final(numbers)@[pivot as int] == old(numbers)@[right as int],
        left < right ==> rearranged_between(
            final(numbers)@,
            old(numbers)@,
            left as int,
            right + 1,
        ),
{
    if left >= right {
        return left;
    }
    let last: usize = right as usize;
    let value: i32 = numbers[last];
    let mut boundary: usize = left as usize;
    let mut scan: usize = left as usize;
    proof {
        lemma_rearranged_widen(
            numbers@,
            old(numbers)@,
            left as int,
            left as int,
            left as int,
            right + 1,
        );
    }
    while scan < last
        invariant
            numbers.len() == old(numbers).len(),
            proper_bounds(numbers.len() as int, left as int, right as int),
            last == right,
            left <= boundary <= scan <= last,
            numbers@[last as int] == value,
            value == old(numbers)@[right as int],
            forall|k: int| left <= k < boundary ==> numbers@[k] < value,
            forall|k: int| boundary <= k < scan ==> numbers@[k] >= value,
            rearranged_between(numbers@, old(numbers)@, left as int, right + 1),
        decreases last - scan,
    {
        if numbers[scan] < value {
            let ghost before = numbers@;
            swap_at(numbers, boundary, scan);
            proof {
                lemma_swap_rearranges(before, boundary as int, scan as int, left as int, right + 1);
                lemma_rearranged_twice(numbers@, before, old(numbers)@, left as int, right + 1);
            }
            boundary += 1;
        }
        scan += 1;
    }
    let ghost before = numbers@;
    swap_at(numbers, boundary, last);
    proof {
        lemma_swap_rearranges(before, boundary as int, last as int, left as int, right + 1);
        lemma_rearranged_twice(numbers@, before, old(numbers)@, left as int, right + 1);
    }
    boundary as i32
}

/// Sorts `[left, right]` of `numbers` ascending and leaves the rest as it
/// was. After each partition the smaller side is sorted by a nested call and
/// the larger side by the next round of the loop, so that a nested call never
/// gets more than half of its caller's range. Bounds that name fewer than two
/// elements change nothing.
pub fn tail_quicksort(numbers: &mut [i32], left: i32, right: i32) -> (out: &[i32])
    requires
        left < right ==> proper_bounds(old(numbers).len() as int, left as int, right as int),
        left < right ==> right < i32::MAX,
    ensures
        out@ == final(numbers)@,
        left >= right ==> final(numbers)@ == old(numbers)@,
        left < right ==> sorted_between(final(numbers)@, left as int, right + 1),
        left < right ==> rearranged_between(
            final(numbers)@,
            old(numbers)@,
            left as int,
            right + 1,
        ),
        left == 0 && right + 1 == old(numbers).len() ==> sorted(final(numbers)@) && same_values(
            final(numbers)@,
            old(numbers)@,
        ),
        left < right && sorted_between(old(numbers)@, left as int, right + 1) ==> final(numbers)@
            == old(numbers)@,
    decreases
        (if left < right {
            right - left
        } else {
            0
        }),
{
    if left >= right {
        return numbers;
    }
    let mut lo: i32 = left;
    let mut hi: i32 = right;
    proof {
        lemma_rearranged_widen(
            numbers@,
            old(numbers)@,
            left as int,
            left as int,
            left as int,
            right + 1,
        );
    }
    while lo < hi
        invariant
            numbers.len() == old(numbers).len(),
            proper_bounds(numbers.len() as int, left as int, right as int),
            right < i32::MAX,
            left <= lo <= hi + 1 <= right + 1,
            rearranged_between(numbers@, old(numbers)@, left as int, right + 1),
            sorted_between(numbers@, left as int, lo as int),
            sorted_between(numbers@, hi + 1, right + 1),
            fenced(numbers@, left as int, lo as int, hi as int, right as int),
        decreases hi - lo,
    {
        let ghost before = numbers@;
        let pivot: i32 = partition(numbers, lo, hi);
        let ghost parted = numbers@;
        proof {
            lemma_fenced_kept(parted, before, left as int, lo as int, hi as int, right as int);
            lemma_rearranged_widen(parted, before, lo as int, hi + 1, left as int, right + 1);
            lemma_rearranged_twice(parted, before, old(numbers)@, left as int, right + 1);
        }
        if pivot - lo <= hi - pivot {
            tail_quicksort(numbers, lo, pivot - 1);
            proof {
                if lo < pivot - 1 {
                    lemma_split_kept(
                        numbers@,
                        parted,
                        lo as int,
                        pivot as int,
                        hi as int,
                        lo as int,
                        pivot as int,
                    );
                    lemma_rearranged_widen(
                        numbers@,
                        parted,
                        lo as int,
                        pivot as int,
                        lo as int,
                        hi + 1,
                    );
                    lemma_fenced_kept(
                        numbers@,
                        parted,
                        left as int,
                        lo as int,
                        hi as int,
                        right as int,
                    );
                    lemma_rearranged_widen(
                        numbers@,
                        parted,
                        lo as int,
                        pivot as int,
                        left as int,
                        right + 1,
                    );
                    lemma_rearranged_twice(numbers@, parted, old(numbers)@, left as int, right + 1);
                }
            }
            lo = pivot + 1;
        } else {
            tail_quicksort(numbers, pivot + 1, hi);
            proof {
                if pivot + 1 < hi {
                    lemma_split_kept(
                        numbers@,
                        parted,
                        lo as int,
                        pivot as int,
                        hi as int,
                        pivot + 1,
                        hi + 1,
                    );
                    lemma_rearranged_widen(numbers@, parted, pivot + 1, hi + 1, lo as int, hi + 1);
                    lemma_fenced_kept(
                        numbers@,
                        parted,
                        left as int,
                        lo as int,
                        hi as int,
                        right as int,
                    );
                    lemma_rearranged_widen(
                        numbers@,
                        parted,
                        pivot + 1,
                        hi + 1,
                        left as int,
                        right + 1,
                    );
                    lemma_rearranged_twice(numbers@, parted, old(numbers)@, left as int, right + 1);
                }
            }
            hi = pivot - 1;
        }
    }
    proof {
        if left == 0 && right + 1 == old(numbers).len() {
            lemma_rearranged_whole(numbers@, old(numbers)@);
        }
        if sorted_between(old(numbers)@, left as int, right + 1) {
            lemma_sorted_interval_unchanged(old(numbers)@, numbers@, left as int, right + 1);
        }
    }
    numbers
}

} // verus!
