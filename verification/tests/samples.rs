use sort_suite::sample::{
    create_sample, few_unique_sample, layout_from_name, nearly_sorted_sample,
    nearly_sorted_value, random_sample,
    reversed_sample, SampleLayout,
};

#[test]
fn layout_names() {
    assert_eq!(layout_from_name("random"), SampleLayout::Random);
    assert_eq!(layout_from_name("nearly sorted"), SampleLayout::NearlySorted);
    assert_eq!(layout_from_name("reversed"), SampleLayout::Reversed);
    assert_eq!(layout_from_name("few unique"), SampleLayout::FewUnique);
}

#[test]
fn unknown_layout_name_is_random() {
    assert_eq!(layout_from_name(""), SampleLayout::Random);
    assert_eq!(layout_from_name("Reversed"), SampleLayout::Random);
    assert_eq!(layout_from_name("few  unique"), SampleLayout::Random);
}

#[test]
fn reversed_sample_counts_down_to_one() {
    assert_eq!(reversed_sample(5), vec![5, 4, 3, 2, 1]);
    assert_eq!(reversed_sample(1), vec![1]);
    assert_eq!(reversed_sample(0), Vec::<i32>::new());
}

#[test]
fn random_sample_stays_below_its_size() {
    let nums = random_sample(10);
    assert_eq!(nums.len(), 10);
    for n in nums {
        assert!(0 <= n && n < 10);
    }
    assert_eq!(random_sample(1), vec![0]);
    assert_eq!(random_sample(0), Vec::<i32>::new());
}

#[test]
fn nearly_sorted_sample_stays_below_its_size() {
    let nums = nearly_sorted_sample(200);
    assert_eq!(nums.len(), 200);
    for n in nums {
        assert!(0 <= n && n < 200);
    }
    assert_eq!(nearly_sorted_sample(1), vec![0]);
    assert_eq!(nearly_sorted_sample(0), Vec::<i32>::new());
}

#[test]
fn few_unique_sample_draws_from_a_hundredth() {
    let nums = few_unique_sample(300);
    assert_eq!(nums.len(), 300);
    for n in nums {
        assert!(0 <= n && n < 3);
    }
    assert_eq!(few_unique_sample(100), vec![0; 100]);
    assert_eq!(few_unique_sample(0), Vec::<i32>::new());
}

#[test]
fn create_sample_follows_the_layout() {
    assert_eq!(create_sample(SampleLayout::Reversed, 4), vec![4, 3, 2, 1]);
    let nums = create_sample(SampleLayout::Random, 7);
    assert_eq!(nums.len(), 7);
    assert!(nums.iter().all(|n| 0 <= *n && *n < 7));
    let nums = create_sample(SampleLayout::NearlySorted, 50);
    assert_eq!(nums.len(), 50);
    assert!(nums.iter().all(|n| 0 <= *n && *n < 50));
    let nums = create_sample(SampleLayout::FewUnique, 200);
    assert_eq!(nums.len(), 200);
    assert!(nums.iter().all(|n| 0 <= *n && *n < 2));
}

#[test]
fn nearly_sorted_value_keeps_an_undisturbed_position() {
    assert_eq!(nearly_sorted_value(3, false, 10), 3);
    assert_eq!(nearly_sorted_value(0, false, 1), 0);
    let drawn = nearly_sorted_value(3, true, 10);
    assert!(0 <= drawn && drawn < 10);
    assert_eq!(nearly_sorted_value(0, true, 1), 0);
}
