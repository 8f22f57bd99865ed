//! Shell sort with the halving gap sequence.

use vstd::prelude::*;
use crate::order::{
    sorted, sorted_between, same_values, swapped, lemma_swap_same_values,
    lemma_sorted_input_unchanged,
};

verus! {

/// While one value is carried leftwards, the slot it will land in holds a
/// stale copy: the sequence keeps its values once the carried value is put
/// into that slot.
pub open spec fn same_values_with(s: Seq<i32>, slot: int, carried: i32, origin: Seq<i32>) -> bool {
    same_values(s.update(slot, carried), origin)
}

/// Moving the free slot `gap` places to the left, by copying the value found
/// there into it, loses no value.
proof fn lemma_shift_keeps_values(s: Seq<i32>, slot: int, gap: int, carried: i32, origin: Seq<i32>)
    requires
        0 < gap <= slot < s.len(),
        same_values_with(s, slot, carried, origin),
    ensures
        same_values_with(s.update(slot, s[slot - gap]), slot - gap, carried, origin),
{
    let held = s.update(slot, carried);
    lemma_swap_same_values(held, slot - gap, slot);
    assert(s.update(slot, s[slot - gap]).update(slot - gap, carried) =~= swapped(
        held,
        slot - gap,
        slot,
    ));
}

/// Sorts `numbers` ascending by gapped insertion passes. The gap starts at
/// half the length and is halved after each pass; the last pass has gap one.
pub fn shell_sort(numbers: &mut [i32]) -> (out: &[i32])
    ensures
        out@ == final(numbers)@,
        sorted(final(numbers)@),
        same_values(final(numbers)@, old(numbers)@),
        sorted(old(numbers)@) ==> final(numbers)@ == old(numbers)@,
{
    let l: usize = numbers.len();
    let leap: usize = 2;
    let mut h: usize = l / leap;
    while h > 0
        invariant
            numbers.len() == l,
            leap == 2,
            same_values(numbers@, old(numbers)@),
            h == 0 && l >= 2 ==> sorted(numbers@),
        decreases h,
    {
        let mut i: usize = h;
        while i < l
            invariant
                numbers.len() == l,
                0 < h,
                h <= i || l < h,
                i <= l || l < h,
                same_values(numbers@, old(numbers)@),
                h == 1 ==> sorted_between(numbers@, 0, i as int),
            decreases l - i,
        {
            let aux: i32 = numbers[i];
            let mut j: usize = i;
            assert(numbers@.update(j as int, aux) =~= numbers@);
            while j >= h && numbers[j - h] > aux
                invariant
                    numbers.len() == l,
                    0 < h,
                    j <= i < l,
                    same_values_with(numbers@, j as int, aux, old(numbers)@),
                    h == 1 ==> sorted_between(numbers@, 0, j as int),
                    h == 1 ==> sorted_between(numbers@, j + 1, i + 1),
                    h == 1 ==> forall|a: int, b: int|
                        0 <= a < j < b <= i ==> numbers@[a] <= numbers@[b],
                    h == 1 ==> forall|b: int| j < b <= i ==> aux < numbers@[b],
                decreases j,
            {
                let moved: i32 = numbers[j - h];
                proof {
                    lemma_shift_keeps_values(numbers@, j as int, h as int, aux, old(numbers)@);
                }
                numbers[j] = moved;
                j -= h;
            }
            numbers[j] = aux;
            i += 1;
        }
        h /= leap;
    }
    proof {
        if sorted(old(numbers)@) {
            lemma_sorted_input_unchanged(old(numbers)@, numbers@);
        }
    }
    numbers
}

} // verus!
