//! Recursive in-place quicksort with the first element as divider.

use vstd::prelude::*;
use crate::order::{
    sorted, sorted_between, same_values, rearranged_between, swapped, lemma_swap_rearranges,
    lemma_rearranged_whole, lemma_rearranged_widen, lemma_rearranged_twice,
    lemma_rearranged_below, lemma_rearranged_above, lemma_sorted_input_unchanged,
    lemma_sorted_interval_unchanged,
};

verus! {

/// While the divider is held aside, one slot of the interval is free and
/// holds a stale copy: the interval is a rearrangement of what it was once
/// the divider is put into that slot.
pub open spec fn rearranged_with(
    s: Seq<i32>,
    slot: int,
    carried: i32,
    origin: Seq<i32>,
    start: int,
    end: int,
) -> bool {
    rearranged_between(s.update(slot, carried), origin, start, end)
}

/// Copying the value at `from` into the free slot frees `from` instead.
proof fn lemma_free_slot_moves(
    s: Seq<i32>,
    slot: int,
    from: int,
    carried: i32,
    origin: Seq<i32>,
    start: int,
    end: int,
)
    requires
        0 <= start <= slot < end <= s.len(),
        start <= from < end,
        from != slot,
        rearranged_with(s, slot, carried, origin, start, end),
    ensures
        rearranged_with(s.update(slot, s[from]), from, carried, origin, start, end),
{
    let held = s.update(slot, carried);
    lemma_swap_rearranges(held, slot, from, start, end);
    assert(s.update(slot, s[from]).update(from, carried) =~= swapped(held, slot, from));
    lemma_rearranged_twice(swapped(held, slot, from), held, origin, start, end);
}

/// Sorts the interval `[start, end)` of `numbers` ascending and leaves the
/// rest as it was. The first element of the interval is the divider: two
/// indices close in from the ends, each value found on the wrong side is
/// copied into the slot that is free, and the divider is put where they meet.
/// Both sides are then sorted the same way, a side of fewer than two elements
/// being left alone.
pub fn quick_sort_between(numbers: &mut [i32], start: usize, end: usize)
    requires
        start <= end <= old(numbers).len(),
    ensures
        rearranged_between(final(numbers)@, old(numbers)@, start as int, end as int),
        sorted_between(final(numbers)@, start as int, end as int),
        sorted_between(old(numbers)@, start as int, end as int) ==> final(numbers)@
            == old(numbers)@,
    decreases end - start,
{
    if end - start <= 1 {
        return;
    }
    let divider: i32 = numbers[start];
    let mut lo: usize = start;
    let mut hi: usize = end - 1;
    assert(numbers@.update(lo as int, divider) =~= numbers@);
    loop
        invariant_except_break
            start <= lo < hi < end <= numbers.len(),
            forall|k: int| start <= k < lo ==> numbers@[k] < divider,
            forall|k: int| hi < k < end ==> numbers@[k] >= divider,
            rearranged_with(numbers@, lo as int, divider, old(numbers)@, start as int, end as int),
        invariant
            numbers.len() == old(numbers).len(),
        ensures
            numbers.len() == old(numbers).len(),
            start <= lo < end <= numbers.len(),
            numbers@[lo as int] == divider,
            forall|k: int| start <= k < lo ==> numbers@[k] < divider,
            forall|k: int| lo < k < end ==> numbers@[k] >= divider,
            rearranged_between(numbers@, old(numbers)@, start as int, end as int),
        decreases hi - lo,
    {
        while hi > lo && numbers[hi] >= divider
            invariant
                numbers.len() == old(numbers).len(),
                start <= lo <= hi < end <= numbers.len(),
                forall|k: int| hi < k < end ==> numbers@[k] >= divider,
            decreases hi,
        {
            hi = hi - 1;
        }
        if hi <= lo {
            numbers[lo] = divider;
            break;
        }
        let low_value: i32 = numbers[hi];
        proof {
            lemma_free_slot_moves(
                numbers@,
                lo as int,
                hi as int,
                divider,
                old(numbers)@,
                start as int,
                end as int,
            );
        }
        numbers[lo] = low_value;
        lo += 1;
        while lo < hi && numbers[lo] < divider
            invariant
                numbers.len() == old(numbers).len(),
                start <= lo <= hi < end <= numbers.len(),
                forall|k: int| start <= k < lo ==> numbers@[k] < divider,
            decreases hi - lo,
        {
            lo += 1;
        }
        if lo >= hi {
            lo = hi;
            numbers[hi] = divider;
            break;
        }
        let high_value: i32 = numbers[lo];
        proof {
            lemma_free_slot_moves(
                numbers@,
                hi as int,
                lo as int,
                divider,
                old(numbers)@,
                start as int,
                end as int,
            );
        }
        numbers[hi] = high_value;
    }
    let ghost parted = numbers@;
    if lo - start > 1 {
        quick_sort_between(numbers, start, lo);
        proof {
            lemma_rearranged_below(numbers@, parted, start as int, lo as int, divider);
            lemma_rearranged_widen(
                numbers@,
                parted,
                start as int,
                lo as int,
                start as int,
                end as int,
            );
        }
    }
    let ghost left_done = numbers@;
    proof {
        lemma_rearranged_twice(left_done, parted, old(numbers)@, start as int, end as int);
    }
    if end - lo > 2 {
        quick_sort_between(numbers, lo + 1, end);
        proof {
            lemma_rearranged_above(numbers@, left_done, lo + 1, end as int, divider);
            lemma_rearranged_widen(
                numbers@,
                left_done,
                lo + 1,
                end as int,
                start as int,
                end as int,
            );
            lemma_rearranged_twice(numbers@, left_done, old(numbers)@, start as int, end as int);
        }
    }
    proof {
        if sorted_between(old(numbers)@, start as int, end as int) {
            lemma_sorted_interval_unchanged(old(numbers)@, numbers@, start as int, end as int);
        }
    }
}

/// Sorts `numbers` ascending in place, by quicksort with the first element of
/// each range as its divider. On input that is sorted already, or sorted the
/// other way round, every split is as uneven as it can be: the work grows
/// with the square of the length and the nesting of calls with the length.
pub fn quick_sort(numbers: &mut [i32]) -> (out: &[i32])
    ensures
        out@ == final(numbers)@,
        sorted(final(numbers)@),
        same_values(final(numbers)@, old(numbers)@),
        sorted(old(numbers)@) ==> final(numbers)@ == old(numbers)@,
{
    let l: usize = numbers.len();
    quick_sort_between(numbers, 0, l);
    proof {
        lemma_rearranged_whole(numbers@, old(numbers)@);
        if sorted(old(numbers)@) {
            lemma_sorted_input_unchanged(old(numbers)@, numbers@);
        }
    }
    numbers
}

} // verus!
