//! The vocabulary every contract in this crate is written in: what it means
//! for a sequence to be ascending, and for two sequences to hold the same
//! values.

use vstd::prelude::*;
use vstd::seq_lib::*;

verus! {

/// `s` is non-decreasing from its first element to its last.
pub open spec fn sorted(s: Seq<i32>) -> bool {
    forall|i: int, j: int| 0 <= i <= j < s.len() ==> s[i] <= s[j]
}

/// `s` is non-decreasing on the index interval `[lo, hi)`.
pub open spec fn sorted_between(s: Seq<i32>, lo: int, hi: int) -> bool {
    forall|i: int, j: int| lo <= i <= j < hi ==> s[i] <= s[j]
}

/// `a` and `b` hold the same values, each the same number of times.
pub open spec fn same_values(a: Seq<i32>, b: Seq<i32>) -> bool {
    a.to_multiset() == b.to_multiset()
}

/// `a` and `b` agree everywhere but on `[lo, hi)`, where they hold the same
/// values, each the same number of times.
pub open spec fn rearranged_between(a: Seq<i32>, b: Seq<i32>, lo: int, hi: int) -> bool {
    &&& a.len() == b.len()
    &&& forall|k: int| 0 <= k < a.len() && !(lo <= k < hi) ==> a[k] == b[k]
    &&& a.subrange(lo, hi).to_multiset() == b.subrange(lo, hi).to_multiset()
}

/// `s` with the values at `i` and `j` exchanged.
pub open spec fn swapped(s: Seq<i32>, i: int, j: int) -> Seq<i32> {
    s.update(i, s[j]).update(j, s[i])
}

/// Exchanging two elements keeps the values of a sequence.
pub proof fn lemma_swap_same_values(s: Seq<i32>, i: int, j: int)
    requires
        0 <= i < s.len(),
        0 <= j < s.len(),
    ensures
        same_values(swapped(s, i, j), s),
{
    broadcast use vstd::multiset::group_multiset_axioms;
    let s1 = s.update(i, s[j]);
    to_multiset_update(s, i, s[j]);
    to_multiset_update(s1, j, s[i]);
    to_multiset_contains(s, s[i]);
    to_multiset_contains(s, s[j]);
    assert(s.contains(s[i]));
    assert(s.contains(s[j]));
    assert(swapped(s, i, j).to_multiset() =~= s.to_multiset());
}

/// Exchanging two elements inside `[lo, hi)` rearranges that interval only.
pub proof fn lemma_swap_rearranges(s: Seq<i32>, i: int, j: int, lo: int, hi: int)
    requires
        0 <= lo <= i < hi <= s.len(),
        lo <= j < hi,
    ensures
        rearranged_between(swapped(s, i, j), s, lo, hi),
{
    let t = swapped(s, i, j);
    lemma_swap_same_values(s.subrange(lo, hi), i - lo, j - lo);
    assert(t.subrange(lo, hi) =~= swapped(s.subrange(lo, hi), i - lo, j - lo));
}

/// Two sequences with the same values have the same length.
pub proof fn lemma_same_values_len(a: Seq<i32>, b: Seq<i32>)
    requires
        same_values(a, b),
    ensures
        a.len() == b.len(),
{
    to_multiset_len(a);
    to_multiset_len(b);
}

/// Every value of one sequence occurs in any other with the same values.
pub proof fn lemma_same_values_member(a: Seq<i32>, b: Seq<i32>, i: int)
    requires
        same_values(a, b),
        0 <= i < a.len(),
    ensures
        exists|j: int| 0 <= j < b.len() && b[j] == a[i],
{
    to_multiset_contains(a, a[i]);
    to_multiset_contains(b, a[i]);
    assert(a.contains(a[i]));
    assert(b.contains(a[i]));
}

/// A sequence that is a rearrangement of an interval, read as a whole.
pub proof fn lemma_rearranged_whole(a: Seq<i32>, b: Seq<i32>)
    requires
        rearranged_between(a, b, 0, a.len() as int),
    ensures
        same_values(a, b),
{
    assert(a.subrange(0, a.len() as int) =~= a);
    assert(b.subrange(0, b.len() as int) =~= b);
}

/// Every value that a rearranged interval holds was in that interval before.
pub proof fn lemma_rearranged_member(a: Seq<i32>, b: Seq<i32>, lo: int, hi: int, k: int)
    requires
        0 <= lo <= hi <= a.len(),
        rearranged_between(a, b, lo, hi),
        lo <= k < hi,
    ensures
        exists|j: int| lo <= j < hi && b[j] == a[k],
{
    lemma_same_values_member(a.subrange(lo, hi), b.subrange(lo, hi), k - lo);
    let before = b.subrange(lo, hi);
    let i = choose|i: int| 0 <= i < before.len() && before[i] == a.subrange(lo, hi)[k - lo];
    assert(b[i + lo] == a[k]);
}

/// A rearrangement of an interval is one of every interval around it.
pub proof fn lemma_rearranged_widen(
    a: Seq<i32>,
    b: Seq<i32>,
    lo: int,
    hi: int,
    start: int,
    end: int,
)
    requires
        0 <= start <= lo <= hi <= end <= a.len(),
        rearranged_between(a, b, lo, hi),
    ensures
        rearranged_between(a, b, start, end),
{
    let a1 = a.subrange(start, lo);
    let am = a.subrange(lo, hi);
    let a2 = a.subrange(hi, end);
    let b1 = b.subrange(start, lo);
    let bm = b.subrange(lo, hi);
    let b2 = b.subrange(hi, end);
    assert(a1 =~= b1);
    assert(a2 =~= b2);
    assert(a.subrange(start, end) =~= (a1 + am) + a2);
    assert(b.subrange(start, end) =~= (b1 + bm) + b2);
    lemma_multiset_commutative(a1 + am, a2);
    lemma_multiset_commutative(a1, am);
    lemma_multiset_commutative(b1 + bm, b2);
    lemma_multiset_commutative(b1, bm);
}

/// Rearranging an interval twice is rearranging it once.
pub proof fn lemma_rearranged_twice(a: Seq<i32>, b: Seq<i32>, c: Seq<i32>, lo: int, hi: int)
    requires
        rearranged_between(a, b, lo, hi),
        rearranged_between(b, c, lo, hi),
    ensures
        rearranged_between(a, c, lo, hi),
{
}

/// A strict upper bound on an interval survives its rearrangement.
pub proof fn lemma_rearranged_below(a: Seq<i32>, b: Seq<i32>, lo: int, hi: int, bound: i32)
    requires
        0 <= lo <= hi <= a.len(),
        rearranged_between(a, b, lo, hi),
        forall|k: int| lo <= k < hi ==> b[k] < bound,
    ensures
        forall|k: int| lo <= k < hi ==> a[k] < bound,
{
    assert forall|k: int| lo <= k < hi implies a[k] < bound by {
        lemma_rearranged_member(a, b, lo, hi, k);
    }
}

/// A lower bound on an interval survives its rearrangement.
pub proof fn lemma_rearranged_above(a: Seq<i32>, b: Seq<i32>, lo: int, hi: int, bound: i32)
    requires
        0 <= lo <= hi <= a.len(),
        rearranged_between(a, b, lo, hi),
        forall|k: int| lo <= k < hi ==> b[k] >= bound,
    ensures
        forall|k: int| lo <= k < hi ==> a[k] >= bound,
{
    assert forall|k: int| lo <= k < hi implies a[k] >= bound by {
        lemma_rearranged_member(a, b, lo, hi, k);
    }
}

/// A sequence has one ascending arrangement only: two sorted sequences with
/// the same values are equal.
pub proof fn lemma_sorted_arrangement_unique(a: Seq<i32>, b: Seq<i32>)
    requires
        sorted(a),
        sorted(b),
        same_values(a, b),
    ensures
        a == b,
{
    let leq = |x: i32, y: i32| x <= y;
    assert(vstd::relations::sorted_by(a, leq));
    assert(vstd::relations::sorted_by(b, leq));
    assert(vstd::relations::total_ordering(leq));
    lemma_sorted_unique(a, b, leq);
}

/// Sorting what is sorted already changes nothing: a sorted sequence with the
/// values of a sorted input is that input.
pub proof fn lemma_sorted_input_unchanged(input: Seq<i32>, output: Seq<i32>)
    requires
        sorted(input),
        sorted(output),
        same_values(output, input),
    ensures
        output == input,
{
    lemma_sorted_arrangement_unique(output, input);
}

/// A sequence of no or one element is sorted, and is the only arrangement of
/// its values.
pub proof fn lemma_short_is_sorted(input: Seq<i32>, output: Seq<i32>)
    requires
        input.len() <= 1,
        same_values(output, input),
    ensures
        sorted(input),
        output == input,
{
    lemma_same_values_len(output, input);
    if input.len() == 1 {
        lemma_same_values_member(output, input, 0);
    }
    assert(output =~= input);
}

/// A sequence whose elements are all one value is the only arrangement of
/// its values.
pub proof fn lemma_all_equal_unchanged(input: Seq<i32>, output: Seq<i32>)
    requires
        forall|i: int, j: int|
            0 <= i < input.len() && 0 <= j < input.len() ==> input[i] == input[j],
        same_values(output, input),
    ensures
        output == input,
{
    lemma_same_values_len(output, input);
    assert forall|k: int| 0 <= k < output.len() implies output[k] == input[k] by {
        lemma_same_values_member(output, input, k);
    }
    assert(output =~= input);
}

/// Sorting an interval that is sorted already changes nothing.
pub proof fn lemma_sorted_interval_unchanged(input: Seq<i32>, output: Seq<i32>, lo: int, hi: int)
    requires
        0 <= lo <= hi <= input.len(),
        sorted_between(input, lo, hi),
        sorted_between(output, lo, hi),
        rearranged_between(output, input, lo, hi),
    ensures
        output == input,
{
    let before = input.subrange(lo, hi);
    let after = output.subrange(lo, hi);
    lemma_sorted_arrangement_unique(after, before);
    assert forall|k: int| 0 <= k < output.len() implies output[k] == input[k] by {
        if lo <= k < hi {
            assert(after[k - lo] == before[k - lo]);
        }
    }
    assert(output =~= input);
}

/// `origin` tells, for each place of `output`, the place in `input` that its
/// element came from: every place of `input` is used at most once, and of two
/// equal values the one that stood first in `input` stands first in `output`.
pub open spec fn stable_by(input: Seq<i32>, output: Seq<i32>, origin: Seq<int>) -> bool {
    &&& origin.len() == output.len()
    &&& output.len() == input.len()
    &&& forall|k: int|
        0 <= k < origin.len() ==> 0 <= #[trigger] origin[k] < input.len() && output[k]
            == input[origin[k]]
    &&& forall|i: int, j: int|
        #![trigger origin[i], origin[j]]
        0 <= i < j < origin.len() ==> origin[i] != origin[j]
    &&& forall|i: int, j: int|
        #![trigger origin[i], origin[j]]
        0 <= i < j < origin.len() && output[i] == output[j] ==> origin[i] < origin[j]
}

/// `output` is a rearrangement of `input` that keeps equal values in the
/// order in which they stood.
pub open spec fn stable(input: Seq<i32>, output: Seq<i32>) -> bool {
    exists|origin: Seq<int>| stable_by(input, output, origin)
}

/// Leaving a sequence as it is keeps equal values in order.
pub proof fn lemma_unmoved_is_stable(input: Seq<i32>)
    ensures
        stable_by(input, input, Seq::new(input.len(), |k: int| k)),
        stable(input, input),
{
    assert(stable_by(input, input, Seq::new(input.len(), |k: int| k)));
}

/// Exchanging two neighbours of which the first is the larger keeps equal
/// values in order.
pub proof fn lemma_neighbour_swap_stable(input: Seq<i32>, s: Seq<i32>, origin: Seq<int>, k: int)
    requires
        stable_by(input, s, origin),
        0 <= k,
        k + 1 < s.len(),
        s[k] > s[k + 1],
    ensures
        stable_by(
            input,
            swapped(s, k, k + 1),
            origin.update(k, origin[k + 1]).update(k + 1, origin[k]),
        ),
{
}

/// Exchanges the elements at `i` and `j`.
pub fn swap_at(numbers: &mut [i32], i: usize, j: usize)
    requires
        i < old(numbers).len(),
        j < old(numbers).len(),
    ensures
        final(numbers)@ == swapped(old(numbers)@, i as int, j as int),
        same_values(final(numbers)@, old(numbers)@),
        final(numbers).len() == old(numbers).len(),
{
    let a: i32 = numbers[i];
    let b: i32 = numbers[j];
    numbers[i] = b;
    numbers[j] = a;
    proof {
        lemma_swap_same_values(old(numbers)@, i as int, j as int);
    }
}

} // verus!
