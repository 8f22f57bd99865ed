//! Top-down merge sort into freshly allocated storage.

use vstd::prelude::*;
use vstd::seq_lib::*;
use vstd::slice::{slice_subrange, slice_to_vec};
use crate::order::{
    sorted, same_values, stable, stable_by, lemma_sorted_input_unchanged, lemma_unmoved_is_stable,
};

verus! {

/// What holds of the output buffer after `li` elements of the sorted left
/// half and `ri` of the sorted right half have been taken.
pub open spec fn merged_so_far(
    merged: Seq<i32>,
    left: Seq<i32>,
    right: Seq<i32>,
    li: int,
    ri: int,
) -> bool {
    &&& 0 <= li <= left.len()
    &&& 0 <= ri <= right.len()
    &&& merged.len() == li + ri
    &&& sorted(merged)
    &&& merged.to_multiset() == left.subrange(0, li).to_multiset().add(
        right.subrange(0, ri).to_multiset(),
    )
    &&& forall|k: int, a: int|
        0 <= k < merged.len() && li <= a < left.len() ==> merged[k] <= left[a]
    &&& forall|k: int, b: int|
        0 <= k < merged.len() && ri <= b < right.len() ==> merged[k] <= right[b]
}

/// Taking the front of the left half keeps the merge state, when that front
/// is no larger than what is left of the right half.
proof fn lemma_take_left(merged: Seq<i32>, left: Seq<i32>, right: Seq<i32>, li: int, ri: int)
    requires
        merged_so_far(merged, left, right, li, ri),
        sorted(left),
        li < left.len(),
        ri < right.len() ==> left[li] <= right[ri],
        sorted(right),
    ensures
        merged_so_far(merged.push(left[li]), left, right, li + 1, ri),
{
    broadcast use vstd::multiset::group_multiset_axioms;
    to_multiset_build(merged, left[li]);
    to_multiset_build(left.subrange(0, li), left[li]);
    assert(left.subrange(0, li + 1) =~= left.subrange(0, li).push(left[li]));
    assert(merged.push(left[li]).to_multiset() =~= left.subrange(0, li + 1).to_multiset().add(
        right.subrange(0, ri).to_multiset(),
    ));
}

/// Taking the front of the right half keeps the merge state, when that front
/// is smaller than what is left of the left half.
proof fn lemma_take_right(merged: Seq<i32>, left: Seq<i32>, right: Seq<i32>, li: int, ri: int)
    requires
        merged_so_far(merged, left, right, li, ri),
        sorted(left),
        sorted(right),
        ri < right.len(),
        li < left.len() ==> right[ri] < left[li],
    ensures
        merged_so_far(merged.push(right[ri]), left, right, li, ri + 1),
{
    broadcast use vstd::multiset::group_multiset_axioms;
    to_multiset_build(merged, right[ri]);
    to_multiset_build(right.subrange(0, ri), right[ri]);
    assert(right.subrange(0, ri + 1) =~= right.subrange(0, ri).push(right[ri]));
    assert(merged.push(right[ri]).to_multiset() =~= left.subrange(0, li).to_multiset().add(
        right.subrange(0, ri + 1).to_multiset(),
    ));
}

/// Where each element of the output buffer was taken from: `from_left[k]`
/// says from which half, `at[k]` from which place of it. Each half is taken
/// in order, and a value taken from the right half is smaller than whatever
/// was taken from the left half after it, or is still to be taken from it.
pub open spec fn merge_trace(
    merged: Seq<i32>,
    left: Seq<i32>,
    right: Seq<i32>,
    li: int,
    ri: int,
    from_left: Seq<bool>,
    at: Seq<int>,
) -> bool {
    &&& from_left.len() == merged.len()
    &&& at.len() == merged.len()
    &&& 0 <= li <= left.len()
    &&& 0 <= ri <= right.len()
    &&& forall|k: int|
        0 <= k < merged.len() && from_left[k] ==> 0 <= #[trigger] at[k] < li && merged[k]
            == left[at[k]]
    &&& forall|k: int|
        0 <= k < merged.len() && !from_left[k] ==> 0 <= #[trigger] at[k] < ri && merged[k]
            == right[at[k]]
    &&& forall|i: int, j: int|
        #![trigger at[i], at[j]]
        0 <= i < j < merged.len() && from_left[i] == from_left[j] ==> at[i] < at[j]
    &&& forall|i: int, j: int|
        #![trigger merged[i], merged[j]]
        0 <= i < j < merged.len() && !from_left[i] && from_left[j] ==> merged[i] < merged[j]
    &&& forall|k: int, a: int|
        #![trigger merged[k], left[a]]
        0 <= k < merged.len() && !from_left[k] && li <= a < left.len() ==> merged[k] < left[a]
}

/// Taking the front of the left half extends the trace.
proof fn lemma_trace_left(
    merged: Seq<i32>,
    left: Seq<i32>,
    right: Seq<i32>,
    li: int,
    ri: int,
    from_left: Seq<bool>,
    at: Seq<int>,
)
    requires
        merge_trace(merged, left, right, li, ri, from_left, at),
        li < left.len(),
    ensures
        merge_trace(
            merged.push(left[li]),
            left,
            right,
            li + 1,
            ri,
            from_left.push(true),
            at.push(li),
        ),
{
    let m2 = merged.push(left[li]);
    let f2 = from_left.push(true);
    let a2 = at.push(li);
    assert forall|i: int, j: int|
        #![trigger m2[i], m2[j]]
        0 <= i < j < m2.len() && !f2[i] && f2[j] implies m2[i] < m2[j] by {
        if j == merged.len() {
            assert(merged[i] < left[li]);
        } else {
            assert(merged[i] < merged[j]);
        }
    }
    assert forall|i: int, j: int|
        #![trigger a2[i], a2[j]]
        0 <= i < j < m2.len() && f2[i] == f2[j] implies a2[i] < a2[j] by {
        if j == merged.len() {
            assert(at[i] == a2[i]);
        } else {
            assert(at[i] == a2[i] && at[j] == a2[j]);
        }
    }
    assert forall|k: int, a: int|
        #![trigger m2[k], left[a]]
        0 <= k < m2.len() && !f2[k] && li + 1 <= a < left.len() implies m2[k] < left[a] by {
        assert(merged[k] < left[a]);
    }
    assert forall|k: int| 0 <= k < m2.len() && f2[k] implies 0 <= #[trigger] a2[k] < li + 1
        && m2[k] == left[a2[k]] by {
        if k < merged.len() {
            assert(at[k] == a2[k]);
        }
    }
    assert forall|k: int| 0 <= k < m2.len() && !f2[k] implies 0 <= #[trigger] a2[k] < ri && m2[k]
        == right[a2[k]] by {
        assert(at[k] == a2[k]);
    }
}

/// Taking the front of the right half extends the trace, when that front is
/// smaller than what is left of the sorted left half.
proof fn lemma_trace_right(
    merged: Seq<i32>,
    left: Seq<i32>,
    right: Seq<i32>,
    li: int,
    ri: int,
    from_left: Seq<bool>,
    at: Seq<int>,
)
    requires
        merge_trace(merged, left, right, li, ri, from_left, at),
        sorted(left),
        ri < right.len(),
        li < left.len() ==> right[ri] < left[li],
    ensures
        merge_trace(
            merged.push(right[ri]),
            left,
            right,
            li,
            ri + 1,
            from_left.push(false),
            at.push(ri),
        ),
{
    let m2 = merged.push(right[ri]);
    let f2 = from_left.push(false);
    let a2 = at.push(ri);
    assert forall|i: int, j: int|
        #![trigger m2[i], m2[j]]
        0 <= i < j < m2.len() && !f2[i] && f2[j] implies m2[i] < m2[j] by {
        assert(merged[i] < merged[j]);
    }
    assert forall|i: int, j: int|
        #![trigger a2[i], a2[j]]
        0 <= i < j < m2.len() && f2[i] == f2[j] implies a2[i] < a2[j] by {
        if j == merged.len() {
            assert(at[i] == a2[i]);
        } else {
            assert(at[i] == a2[i] && at[j] == a2[j]);
        }
    }
    assert forall|k: int, a: int|
        #![trigger m2[k], left[a]]
        0 <= k < m2.len() && !f2[k] && li <= a < left.len() implies m2[k] < left[a] by {
        if k < merged.len() {
            assert(merged[k] < left[a]);
        } else {
            assert(left[li] <= left[a]);
        }
    }
    assert forall|k: int| 0 <= k < m2.len() && f2[k] implies 0 <= #[trigger] a2[k] < li && m2[k]
        == left[a2[k]] by {
        assert(at[k] == a2[k]);
    }
    assert forall|k: int| 0 <= k < m2.len() && !f2[k] implies 0 <= #[trigger] a2[k] < ri + 1
        && m2[k] == right[a2[k]] by {
        if k < merged.len() {
            assert(at[k] == a2[k]);
        }
    }
}

/// The place in the whole input that each merged element came from, given
/// where the elements of the two sorted halves came from in their halves.
pub open spec fn merged_origin(
    from_left: Seq<bool>,
    at: Seq<int>,
    left_origin: Seq<int>,
    right_origin: Seq<int>,
    h: int,
) -> Seq<int> {
    Seq::new(
        at.len(),
        |k: int|
            if from_left[k] {
                left_origin[at[k]]
            } else {
                h + right_origin[at[k]]
            },
    )
}

/// Merging two halves that kept equal values in order, the left half winning
/// ties, keeps equal values in order.
proof fn lemma_trace_stable(
    numbers: Seq<i32>,
    left: Seq<i32>,
    right: Seq<i32>,
    merged: Seq<i32>,
    left_origin: Seq<int>,
    right_origin: Seq<int>,
    from_left: Seq<bool>,
    at: Seq<int>,
    h: int,
)
    requires
        0 <= h <= numbers.len(),
        merged.len() == numbers.len(),
        stable_by(numbers.subrange(0, h), left, left_origin),
        stable_by(numbers.subrange(h, numbers.len() as int), right, right_origin),
        merge_trace(merged, left, right, left.len() as int, right.len() as int, from_left, at),
    ensures
        stable_by(numbers, merged, merged_origin(from_left, at, left_origin, right_origin, h)),
{
    let origin = merged_origin(from_left, at, left_origin, right_origin, h);
    let first = numbers.subrange(0, h);
    let second = numbers.subrange(h, numbers.len() as int);
    assert forall|k: int| 0 <= k < origin.len() implies 0 <= #[trigger] origin[k] < numbers.len()
        && merged[k] == numbers[origin[k]] by {
        if from_left[k] {
            let a = at[k];
            assert(0 <= left_origin[a] < h);
            assert(left[a] == first[left_origin[a]]);
        } else {
            let b = at[k];
            assert(0 <= right_origin[b] < numbers.len() - h);
            assert(right[b] == second[right_origin[b]]);
        }
    }
    assert forall|i: int, j: int|
        #![trigger origin[i], origin[j]]
        0 <= i < j < origin.len() implies origin[i] != origin[j] && (merged[i] == merged[j]
        ==> origin[i] < origin[j]) by {
        let x = at[i];
        let y = at[j];
        if from_left[i] && from_left[j] {
            assert(left_origin[x] != left_origin[y]);
            assert(left[x] == left[y] ==> left_origin[x] < left_origin[y]);
        } else if !from_left[i] && !from_left[j] {
            assert(right_origin[x] != right_origin[y]);
            assert(right[x] == right[y] ==> right_origin[x] < right_origin[y]);
        } else if from_left[i] {
            assert(0 <= left_origin[x] < h);
            assert(0 <= right_origin[y]);
        } else {
            assert(0 <= left_origin[y] < h);
            assert(0 <= right_origin[x]);
            assert(merged[i] < merged[j]);
        }
    }
}

/// Returns the values of `numbers` in ascending order, in new storage; the
/// input is left as it was. The input is split at its midpoint, the left half
/// taking the extra element of an odd length; both halves are sorted the same
/// way and merged, the left half winning ties.
pub fn merge_sort(numbers: &[i32]) -> (merged: Vec<i32>)
    ensures
        sorted(merged@),
        same_values(merged@, numbers@),
        sorted(numbers@) ==> merged@ == numbers@,
        stable(numbers@, merged@),
    decreases numbers@.len(),
{
    let l: usize = numbers.len();
    if l <= 1 {
        proof {
            lemma_unmoved_is_stable(numbers@);
        }
        return slice_to_vec(numbers);
    }
    let h: usize = l - l / 2;
    let left: Vec<i32> = merge_sort(slice_subrange(numbers, 0, h));
    let right: Vec<i32> = merge_sort(slice_subrange(numbers, h, l));
    proof {
        to_multiset_len(left@);
        to_multiset_len(right@);
        to_multiset_len(numbers@.subrange(0, h as int));
        to_multiset_len(numbers@.subrange(h as int, l as int));
    }

    let ghost left_origin = choose|o: Seq<int>| stable_by(numbers@.subrange(0, h as int), left@, o);
    let ghost right_origin = choose|o: Seq<int>|
        stable_by(numbers@.subrange(h as int, l as int), right@, o);
    let ghost mut from_left: Seq<bool> = Seq::empty();
    let ghost mut at: Seq<int> = Seq::empty();
    let mut li: usize = 0;
    let mut ri: usize = 0;
    let mut merged: Vec<i32> = Vec::with_capacity(l);
    proof {
        broadcast use vstd::multiset::group_multiset_axioms;
        to_multiset_len(left@.subrange(0, 0));
        to_multiset_len(right@.subrange(0, 0));
        to_multiset_len(merged@);
        vstd::multiset::lemma_multiset_empty_len(left@.subrange(0, 0).to_multiset());
        vstd::multiset::lemma_multiset_empty_len(right@.subrange(0, 0).to_multiset());
        vstd::multiset::lemma_multiset_empty_len(merged@.to_multiset());
        assert(merged@.to_multiset() =~= left@.subrange(0, 0).to_multiset().add(
            right@.subrange(0, 0).to_multiset(),
        ));
    }
    while li < h && ri < l - h
        invariant
            left.len() == h,
            right.len() == l - h,
            h <= l,
            sorted(left@),
            sorted(right@),
            merged_so_far(merged@, left@, right@, li as int, ri as int),
            merge_trace(merged@, left@, right@, li as int, ri as int, from_left, at),
        decreases l - li - ri,
    {
        if left[li] <= right[ri] {
            proof {
                lemma_take_left(merged@, left@, right@, li as int, ri as int);
                lemma_trace_left(merged@, left@, right@, li as int, ri as int, from_left, at);
                from_left = from_left.push(true);
                at = at.push(li as int);
            }
            merged.push(left[li]);
            li += 1;
        } else {
            proof {
                lemma_take_right(merged@, left@, right@, li as int, ri as int);
                lemma_trace_right(merged@, left@, right@, li as int, ri as int, from_left, at);
                from_left = from_left.push(false);
                at = at.push(ri as int);
            }
            merged.push(right[ri]);
            ri += 1;
        }
    }
    while li < h
        invariant
            left.len() == h,
            right.len() == l - h,
            h <= l,
            li < h ==> ri == l - h,
            sorted(left@),
            sorted(right@),
            merged_so_far(merged@, left@, right@, li as int, ri as int),
            merge_trace(merged@, left@, right@, li as int, ri as int, from_left, at),
        decreases h - li,
    {
        proof {
            lemma_take_left(merged@, left@, right@, li as int, ri as int);
            lemma_trace_left(merged@, left@, right@, li as int, ri as int, from_left, at);
            from_left = from_left.push(true);
            at = at.push(li as int);
        }
        merged.push(left[li]);
        li += 1;
    }
    while ri < l - h
        invariant
            left.len() == h,
            right.len() == l - h,
            h <= l,
            li == h,
            sorted(left@),
            sorted(right@),
            merged_so_far(merged@, left@, right@, li as int, ri as int),
            merge_trace(merged@, left@, right@, li as int, ri as int, from_left, at),
        decreases l - h - ri,
    {
        proof {
            lemma_take_right(merged@, left@, right@, li as int, ri as int);
            lemma_trace_right(merged@, left@, right@, li as int, ri as int, from_left, at);
            from_left = from_left.push(false);
            at = at.push(ri as int);
        }
        merged.push(right[ri]);
        ri += 1;
    }
    proof {
        let first = numbers@.subrange(0, h as int);
        let second = numbers@.subrange(h as int, l as int);
        lemma_multiset_commutative(first, second);
        assert(first + second =~= numbers@);
        assert(left@.subrange(0, h as int) =~= left@);
        assert(right@.subrange(0, l - h) =~= right@);
        if sorted(numbers@) {
            lemma_sorted_input_unchanged(numbers@, merged@);
        }
        lemma_trace_stable(
            numbers@,
            left@,
            right@,
            merged@,
            left_origin,
            right_origin,
            from_left,
            at,
            h as int,
        );
    }
    merged
}

} // verus!
