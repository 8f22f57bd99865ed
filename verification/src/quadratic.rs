//! The three quadratic in-place sorts: bubble, selection and insertion.

use vstd::prelude::*;
use crate::order::{
    sorted, sorted_between, same_values, stable, stable_by, swap_at, lemma_sorted_input_unchanged,
    lemma_unmoved_is_stable, lemma_neighbour_swap_stable,
};

verus! {

/// Sorts `numbers` ascending by sweeping over adjacent pairs, exchanging each
/// pair that is out of order, until a whole sweep exchanges nothing. Equal
/// neighbours are never exchanged.
pub fn bubble_sort(numbers: &mut [i32]) -> (out: &[i32])
    ensures
        out@ == final(numbers)@,
        sorted(final(numbers)@),
        same_values(final(numbers)@, old(numbers)@),
        sorted(old(numbers)@) ==> final(numbers)@ == old(numbers)@,
        stable(old(numbers)@, final(numbers)@),
{
    let n: usize = numbers.len();
    // Where each element stood at the start.
    let ghost mut origin: Seq<int> = Seq::new(n as nat, |k: int| k);
    proof {
        lemma_unmoved_is_stable(numbers@);
    }
    if n <= 1 {
        return numbers;
    }
    let l: usize = n - 1;
    // The elements from `unsettled` on are in their final places.
    let ghost mut unsettled: int = n as int;
    loop
        invariant
            numbers.len() == n,
            l == n - 1,
            n >= 2,
            0 <= unsettled <= n,
            same_values(numbers@, old(numbers)@),
            stable_by(old(numbers)@, numbers@, origin),
            sorted_between(numbers@, unsettled, n as int),
            forall|a: int, b: int| 0 <= a < unsettled <= b < n ==> numbers@[a] <= numbers@[b],
        ensures
            sorted(numbers@),
            same_values(numbers@, old(numbers)@),
            stable_by(old(numbers)@, numbers@, origin),
        decreases unsettled,
    {
        let mut in_order: bool = true;
        let mut i: usize = 0;
        while i < l
            invariant
                numbers.len() == n,
                l == n - 1,
                0 <= i <= l,
                0 <= unsettled <= n,
                same_values(numbers@, old(numbers)@),
                stable_by(old(numbers)@, numbers@, origin),
                sorted_between(numbers@, unsettled, n as int),
                forall|a: int, b: int| 0 <= a < unsettled <= b < n ==> numbers@[a] <= numbers@[b],
                forall|a: int| 0 <= a <= i ==> numbers@[a] <= numbers@[i as int],
                i >= unsettled - 1 && unsettled >= 1 ==> forall|a: int|
                    0 <= a < unsettled ==> #[trigger] numbers@[a] <= numbers@[unsettled - 1],
                in_order ==> sorted_between(numbers@, 0, i + 1),
                !in_order ==> unsettled >= 2,
            decreases l - i,
        {
            if numbers[i] > numbers[i + 1] {
                proof {
                    lemma_neighbour_swap_stable(old(numbers)@, numbers@, origin, i as int);
                    origin = origin.update(i as int, origin[i + 1]).update(i + 1, origin[i as int]);
                }
                swap_at(numbers, i, i + 1);
                in_order = false;
            }
            i += 1;
        }
        if in_order {
            break;
        }
        proof {
            unsettled = unsettled - 1;
        }
    }
    proof {
        if sorted(old(numbers)@) {
            lemma_sorted_input_unchanged(old(numbers)@, numbers@);
        }
    }
    numbers
}

/// Sorts `numbers` ascending by moving, for each position in turn, the
/// smallest value of what follows into it.
pub fn selection_sort(numbers: &mut [i32]) -> (out: &[i32])
    ensures
        out@ == final(numbers)@,
        sorted(final(numbers)@),
        same_values(final(numbers)@, old(numbers)@),
        sorted(old(numbers)@) ==> final(numbers)@ == old(numbers)@,
{
    let l: usize = numbers.len();
    if l <= 1 {
        return numbers;
    }
    let mut i: usize = 0;
    while i < l - 1
        invariant
            numbers.len() == l,
            l >= 2,
            0 <= i <= l - 1,
            same_values(numbers@, old(numbers)@),
            sorted_between(numbers@, 0, i as int),
            forall|a: int, b: int| 0 <= a < i <= b < l ==> numbers@[a] <= numbers@[b],
        decreases l - i,
    {
        let mut min: usize = i;
        let mut j: usize = i + 1;
        while j < l
            invariant
                numbers.len() == l,
                i < j <= l,
                i <= min < j,
                forall|k: int| i <= k < j ==> numbers@[min as int] <= numbers@[k],
            decreases l - j,
        {
            if numbers[j] < numbers[min] {
                min = j;
            }
            j += 1;
        }
        swap_at(numbers, min, i);
        i += 1;
    }
    proof {
        if sorted(old(numbers)@) {
            lemma_sorted_input_unchanged(old(numbers)@, numbers@);
        }
    }
    numbers
}

/// Sorts `numbers` ascending by growing a sorted prefix: each next element
/// moves left past every strictly larger predecessor. Equal values keep their
/// order.
pub fn insertion_sort(numbers: &mut [i32]) -> (out: &[i32])
    ensures
        out@ == final(numbers)@,
        sorted(final(numbers)@),
        same_values(final(numbers)@, old(numbers)@),
        sorted(old(numbers)@) ==> final(numbers)@ == old(numbers)@,
        stable(old(numbers)@, final(numbers)@),
{
    let l: usize = numbers.len();
    // Where each element stood at the start.
    let ghost mut origin: Seq<int> = Seq::new(l as nat, |k: int| k);
    proof {
        lemma_unmoved_is_stable(numbers@);
    }
    let mut i: usize = 0;
    while i < l
        invariant
            numbers.len() == l,
            0 <= i <= l,
            same_values(numbers@, old(numbers)@),
            stable_by(old(numbers)@, numbers@, origin),
            sorted_between(numbers@, 0, i as int),
        decreases l - i,
    {
        let mut j: usize = i;
        while j > 0 && numbers[j] < numbers[j - 1]
            invariant
                numbers.len() == l,
                0 <= j <= i < l,
                same_values(numbers@, old(numbers)@),
                stable_by(old(numbers)@, numbers@, origin),
                sorted_between(numbers@, 0, j as int),
                sorted_between(numbers@, j as int, i + 1),
                forall|a: int, b: int| 0 <= a < j < b <= i ==> numbers@[a] <= numbers@[b],
            decreases j,
        {
            proof {
                lemma_neighbour_swap_stable(old(numbers)@, numbers@, origin, j - 1);
                origin = origin.update(j - 1, origin[j as int]).update(j as int, origin[j - 1]);
            }
            swap_at(numbers, j - 1, j);
            j -= 1;
        }
        i += 1;
    }
    proof {
        if sorted(old(numbers)@) {
            lemma_sorted_input_unchanged(old(numbers)@, numbers@);
        }
    }
    numbers
}

} // verus!
