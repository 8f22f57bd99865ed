use sort_suite::merge::merge_sort;
use sort_suite::order::swap_at;
use sort_suite::quadratic::{bubble_sort, insertion_sort, selection_sort};
use sort_suite::quick::{quick_sort, quick_sort_between};
use sort_suite::shell::shell_sort;
use sort_suite::tail::{partition, tail_quicksort};

/// The outputs of the seven algorithms on one input, in a fixed order.
fn all_seven(input: &[i32]) -> Vec<Vec<i32>> {
    let mut out: Vec<Vec<i32>> = Vec::new();
    let mut v = input.to_vec();
    bubble_sort(&mut v);
    out.push(v);
    let mut v = input.to_vec();
    selection_sort(&mut v);
    out.push(v);
    let mut v = input.to_vec();
    insertion_sort(&mut v);
    out.push(v);
    let mut v = input.to_vec();
    shell_sort(&mut v);
    out.push(v);
    out.push(merge_sort(input));
    let mut v = input.to_vec();
    quick_sort(&mut v);
    out.push(v);
    let mut v = input.to_vec();
    let last = input.len() as i32 - 1;
    tail_quicksort(&mut v, 0, last);
    out.push(v);
    out
}

fn check_all(input: &[i32], expected: &[i32]) {
    let outs = all_seven(input);
    assert_eq!(outs.len(), 7);
    for out in outs {
        assert_eq!(out, expected.to_vec());
    }
}

#[test]
fn empty_input_gives_empty_output() {
    check_all(&[], &[]);
}

#[test]
fn single_element_is_unchanged() {
    check_all(&[5], &[5]);
}

#[test]
fn two_elements_out_of_order() {
    check_all(&[2, 1], &[1, 2]);
}

#[test]
fn two_elements_in_order() {
    check_all(&[1, 2], &[1, 2]);
}

#[test]
fn three_elements() {
    check_all(&[3, 1, 2], &[1, 2, 3]);
}

#[test]
fn all_equal_elements() {
    check_all(&[2, 2, 2, 2], &[2, 2, 2, 2]);
}

#[test]
fn fully_reversed() {
    check_all(&[5, 4, 3, 2, 1], &[1, 2, 3, 4, 5]);
}

#[test]
fn duplicates_and_negatives() {
    check_all(&[-3, 5, -3, 0, 5, 1], &[-3, -3, 0, 1, 5, 5]);
}

#[test]
fn sorted_input_is_unchanged() {
    check_all(&[-7, -7, 0, 1, 1, 2, 9, 40], &[-7, -7, 0, 1, 1, 2, 9, 40]);
}

#[test]
fn extreme_values() {
    check_all(
        &[i32::MAX, 0, i32::MIN, -1, i32::MAX, i32::MIN],
        &[i32::MIN, i32::MIN, -1, 0, i32::MAX, i32::MAX],
    );
}

#[test]
fn odd_length_mixed() {
    check_all(&[9, 7, 8, 1, 3, 2, 5, 4, 6], &[1, 2, 3, 4, 5, 6, 7, 8, 9]);
}

#[test]
fn agrees_with_std_sort_on_a_longer_input() {
    let mut input: Vec<i32> = Vec::new();
    let mut x: i64 = 12345;
    for _ in 0..500 {
        x = (x * 1103515245 + 12345) % 2147483648;
        input.push((x % 97) as i32 - 48);
    }
    let mut expected = input.clone();
    expected.sort();
    check_all(&input, &expected);
}

#[test]
fn output_keeps_every_value_as_often() {
    let input = vec![4, 1, 4, 4, -2, 1, 0];
    for out in all_seven(&input) {
        for value in [-2, 0, 1, 4, 7] {
            let before = input.iter().filter(|x| **x == value).count();
            let after = out.iter().filter(|x| **x == value).count();
            assert_eq!(before, after);
        }
    }
}

#[test]
fn output_is_non_decreasing() {
    let input = vec![10, -1, 3, 3, 8, -20, 0, 10];
    for out in all_seven(&input) {
        for i in 1..out.len() {
            assert!(out[i - 1] <= out[i]);
        }
    }
}

#[test]
fn merge_sort_leaves_its_input_alone() {
    let input = vec![3, 1, 2];
    let out = merge_sort(&input);
    assert_eq!(input, vec![3, 1, 2]);
    assert_eq!(out, vec![1, 2, 3]);
}

#[test]
fn swap_at_exchanges_two_elements() {
    let mut v = vec![1, 2, 3, 4];
    swap_at(&mut v, 0, 3);
    assert_eq!(v, vec![4, 2, 3, 1]);
    swap_at(&mut v, 1, 1);
    assert_eq!(v, vec![4, 2, 3, 1]);
}

#[test]
fn quick_sort_between_sorts_the_interval_only() {
    let mut v = vec![9, 8, 7, 6, 5, 4, 3];
    quick_sort_between(&mut v, 2, 5);
    assert_eq!(v, vec![9, 8, 5, 6, 7, 4, 3]);
}

#[test]
fn quick_sort_between_on_short_intervals() {
    let mut v = vec![3, 2, 1];
    quick_sort_between(&mut v, 1, 1);
    assert_eq!(v, vec![3, 2, 1]);
    quick_sort_between(&mut v, 3, 3);
    assert_eq!(v, vec![3, 2, 1]);
    quick_sort_between(&mut v, 0, 1);
    assert_eq!(v, vec![3, 2, 1]);
    quick_sort_between(&mut v, 1, 3);
    assert_eq!(v, vec![3, 1, 2]);
}

#[test]
fn tail_quicksort_sorts_the_range_only() {
    let mut v = vec![9, 8, 7, 6, 5, 4, 3];
    tail_quicksort(&mut v, 1, 4);
    assert_eq!(v, vec![9, 5, 6, 7, 8, 4, 3]);
}

#[test]
fn tail_quicksort_ignores_bounds_without_two_elements() {
    let mut v = vec![3, 2, 1];
    tail_quicksort(&mut v, 1, 1);
    assert_eq!(v, vec![3, 2, 1]);
    tail_quicksort(&mut v, 2, 0);
    assert_eq!(v, vec![3, 2, 1]);
    tail_quicksort(&mut v, 0, -1);
    assert_eq!(v, vec![3, 2, 1]);
}

#[test]
fn tail_quicksort_two_elements() {
    let mut v = vec![2, 1];
    tail_quicksort(&mut v, 0, 1);
    assert_eq!(v, vec![1, 2]);
    let mut v = vec![1, 2];
    tail_quicksort(&mut v, 0, 1);
    assert_eq!(v, vec![1, 2]);
    let mut v = vec![7, 7];
    tail_quicksort(&mut v, 0, 1);
    assert_eq!(v, vec![7, 7]);
}

#[test]
fn partition_places_the_last_value() {
    let mut v = vec![5, 1, 4, 2, 3];
    let pivot = partition(&mut v, 0, 4);
    assert_eq!(pivot, 2);
    assert_eq!(v[2], 3);
    assert!(v[0] < 3 && v[1] < 3);
    assert!(v[3] >= 3 && v[4] >= 3);
    let mut sorted = v.clone();
    sorted.sort();
    assert_eq!(sorted, vec![1, 2, 3, 4, 5]);
}

#[test]
fn partition_on_a_singleton_changes_nothing() {
    let mut v = vec![3, 2, 1];
    let pivot = partition(&mut v, 1, 1);
    assert_eq!(pivot, 1);
    assert_eq!(v, vec![3, 2, 1]);
}

#[test]
fn partition_on_inverted_bounds_changes_nothing() {
    let mut v = vec![3, 2, 1];
    let pivot = partition(&mut v, 2, 0);
    assert_eq!(pivot, 2);
    assert_eq!(v, vec![3, 2, 1]);
}

#[test]
fn partition_on_two_elements() {
    let mut v = vec![2, 1];
    assert_eq!(partition(&mut v, 0, 1), 0);
    assert_eq!(v, vec![1, 2]);
    let mut v = vec![1, 2];
    assert_eq!(partition(&mut v, 0, 1), 1);
    assert_eq!(v, vec![1, 2]);
}

#[test]
fn partition_on_all_duplicates() {
    let mut v = vec![2, 2, 2, 2];
    let pivot = partition(&mut v, 0, 3);
    assert_eq!(pivot, 0);
    assert_eq!(v, vec![2, 2, 2, 2]);
}

#[test]
fn partition_inside_a_longer_sequence() {
    let mut v = vec![100, 6, 9, 7, 8, -100];
    let pivot = partition(&mut v, 1, 4);
    assert_eq!(pivot, 3);
    assert_eq!(v[0], 100);
    assert_eq!(v[5], -100);
    assert_eq!(v[3], 8);
    assert!(v[1] < 8 && v[2] < 8);
    assert_eq!(v[4], 9);
}

#[test]
fn in_place_sorts_hand_back_the_sorted_storage() {
    let mut v = vec![3, 1, 2];
    assert_eq!(bubble_sort(&mut v).to_vec(), vec![1, 2, 3]);
    let mut v = vec![3, 1, 2];
    assert_eq!(selection_sort(&mut v).to_vec(), vec![1, 2, 3]);
    let mut v = vec![3, 1, 2];
    assert_eq!(insertion_sort(&mut v).to_vec(), vec![1, 2, 3]);
    let mut v = vec![3, 1, 2];
    assert_eq!(shell_sort(&mut v).to_vec(), vec![1, 2, 3]);
    let mut v = vec![3, 1, 2];
    assert_eq!(quick_sort(&mut v).to_vec(), vec![1, 2, 3]);
    let mut v = vec![3, 1, 2];
    assert_eq!(tail_quicksort(&mut v, 0, 2).to_vec(), vec![1, 2, 3]);
}

#[test]
fn sorts_work_on_a_part_of_a_longer_slice() {
    let mut v = vec![9, 3, 1, 2, 0];
    shell_sort(&mut v[1..4]);
    assert_eq!(v, vec![9, 1, 2, 3, 0]);
    let mut v = vec![9, 3, 1, 2, 0];
    quick_sort(&mut v[1..4]);
    assert_eq!(v, vec![9, 1, 2, 3, 0]);
    assert_eq!(merge_sort(&v[0..3]), vec![1, 2, 9]);
}

#[test]
fn shell_sort_with_several_gap_rounds() {
    let mut v = vec![8, 7, 6, 5, 4, 3, 2, 1, 0, -1, -2];
    shell_sort(&mut v);
    assert_eq!(v, vec![-2, -1, 0, 1, 2, 3, 4, 5, 6, 7, 8]);
}

#[test]
fn tail_quicksort_on_sorted_and_reversed_runs() {
    let mut v: Vec<i32> = (0..200).collect();
    tail_quicksort(&mut v, 0, 199);
    assert_eq!(v, (0..200).collect::<Vec<i32>>());
    let mut v: Vec<i32> = (0..200).rev().collect();
    tail_quicksort(&mut v, 0, 199);
    assert_eq!(v, (0..200).collect::<Vec<i32>>());
}

#[test]
fn quick_sort_on_sorted_and_reversed_runs() {
    let mut v: Vec<i32> = (0..200).collect();
    quick_sort(&mut v);
    assert_eq!(v, (0..200).collect::<Vec<i32>>());
    let mut v: Vec<i32> = (0..200).rev().collect();
    quick_sort(&mut v);
    assert_eq!(v, (0..200).collect::<Vec<i32>>());
}
