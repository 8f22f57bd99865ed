//! Sample sequences in four shapes, to run the sorts on.

use vstd::prelude::*;
use rand::Rng;

verus! {

/// The shape of a sample sequence.
#[derive(Clone, Copy, Debug, PartialEq, Eq, Structural)]
pub enum SampleLayout {
    /// Every value drawn at random.
    Random,
    /// Ascending, but for about one value in five drawn at random.
    NearlySorted,
    /// Descending.
    Reversed,
    /// Drawn at random from a hundredth as many values as the sample holds.
    FewUnique,
}

/// The layout that a name stands for; a name that is none of the four stands
/// for `Random`.
pub open spec fn layout_named(name: Seq<char>) -> SampleLayout {
    if name == "random"@ {
        SampleLayout::Random
    } else if name == "nearly sorted"@ {
        SampleLayout::NearlySorted
    } else if name == "reversed"@ {
        SampleLayout::Reversed
    } else if name == "few unique"@ {
        SampleLayout::FewUnique
    } else {
        SampleLayout::Random
    }
}

/// What holds of every sample of `size` values in the given layout.
pub open spec fn sample_of(layout: SampleLayout, size: int, s: Seq<i32>) -> bool {
    &&& s.len() == size
    &&& match layout {
        SampleLayout::Random => forall|i: int| 0 <= i < size ==> 0 <= #[trigger] s[i] < size,
        SampleLayout::NearlySorted => forall|i: int|
            0 <= i < size ==> 0 <= #[trigger] s[i] < size,
        SampleLayout::Reversed => forall|i: int| 0 <= i < size ==> #[trigger] s[i] == size - i,
        SampleLayout::FewUnique => forall|i: int|
            0 <= i < size ==> 0 <= #[trigger] s[i] < size / 100,
    }
}

/// Whether a sample of `size` values can be drawn in the given layout: the
/// size is not negative, and a sample of few unique values is empty or has at
/// least a hundred.
pub open spec fn can_sample(layout: SampleLayout, size: int) -> bool {
    &&& 0 <= size
    &&& layout == SampleLayout::FewUnique ==> size == 0 || size >= 100
}

/// Draws a value from the thread's generator with rand's `Rng::gen_range`,
/// which panics on an empty range and otherwise returns a value that is at
/// least its lower bound, here zero, and below `high`. Which one is left
/// open.
#[verifier::external_body]
fn draw_below(high: i32) -> (drawn: i32)
    requires
        0 < high,
    ensures
        0 <= drawn < high,
{
    rand::thread_rng().gen_range(0, high)
}

/// Draws a yes or no from the thread's generator with rand's
/// `Rng::gen_ratio`, which panics on a zero denominator or a numerator above
/// the denominator, always says no to a numerator of zero and always yes to
/// one equal to the denominator. Any other outcome is left open.
#[verifier::external_body]
fn draw_chance(numerator: u32, denominator: u32) -> (hit: bool)
    requires
        0 < denominator,
        numerator <= denominator,
    ensures
        numerator == 0 ==> !hit,
        numerator == denominator ==> hit,
{
    rand::thread_rng().gen_ratio(numerator, denominator)
}

/// Compares two string slices with std's `==` on `str`, which holds exactly
/// when both are the same sequence of characters.
#[verifier::external_body]
fn same_text(a: &str, b: &str) -> (same: bool)
    ensures
        same == (a@ == b@),
{
    a == b
}

/// Reads a layout from its name: `random`, `nearly sorted`, `reversed` or
/// `few unique`. Any other name gives `Random`.
pub fn layout_from_name(layout: &str) -> (named: SampleLayout)
    ensures
        named == layout_named(layout@),
{
    if same_text(layout, "random") {
        SampleLayout::Random
    } else if same_text(layout, "nearly sorted") {
        SampleLayout::NearlySorted
    } else if same_text(layout, "reversed") {
        SampleLayout::Reversed
    } else if same_text(layout, "few unique") {
        SampleLayout::FewUnique
    } else {
        SampleLayout::Random
    }
}

/// Makes a sample of `size` values in the given layout.
pub fn create_sample(layout: SampleLayout, size: i32) -> (sample: Vec<i32>)
    requires
        can_sample(layout, size as int),
    ensures
        sample_of(layout, size as int, sample@),
{
    match layout {
        SampleLayout::Random => random_sample(size),
        SampleLayout::NearlySorted => nearly_sorted_sample(size),
        SampleLayout::Reversed => reversed_sample(size),
        SampleLayout::FewUnique => few_unique_sample(size),
    }
}

/// Makes `size` values, each drawn at random from zero up to `size`, `size`
/// left out.
pub fn random_sample(size: i32) -> (nums: Vec<i32>)
    requires
        0 <= size,
    ensures
        sample_of(SampleLayout::Random, size as int, nums@),
{
    let mut nums: Vec<i32> = Vec::with_capacity(size as usize);
    let mut i: i32 = 0;
    while i < size
        invariant
            0 <= i <= size,
            nums.len() == i,
            forall|k: int| 0 <= k < i ==> 0 <= #[trigger] nums@[k] < size,
        decreases size - i,
    {
        nums.push(draw_below(size));
        i += 1;
    }
    nums
}

/// The value at `position` of a nearly sorted sample of `size` values: the
/// position itself, or a value drawn at random from zero up to `size`, `size`
/// left out, where the position is disturbed.
pub fn nearly_sorted_value(position: i32, disturbed: bool, size: i32) -> (value: i32)
    requires
        0 <= position < size,
    ensures
        !disturbed ==> value == position,
        0 <= value < size,
{
    if disturbed {
        draw_below(size)
    } else {
        position
    }
}

/// Makes `size` values that ascend from zero, but that about one in five is
/// replaced by a value drawn at random from zero up to `size`, `size` left
/// out.
pub fn nearly_sorted_sample(size: i32) -> (nums: Vec<i32>)
    requires
        0 <= size,
    ensures
        sample_of(SampleLayout::NearlySorted, size as int, nums@),
{
    let mut nums: Vec<i32> = Vec::with_capacity(size as usize);
    let mut i: i32 = 0;
    while i < size
        invariant
            0 <= i <= size,
            nums.len() == i,
            forall|k: int| 0 <= k < i ==> 0 <= #[trigger] nums@[k] < size,
        decreases size - i,
    {
        let disturbed: bool = draw_chance(1, 5);
        nums.push(nearly_sorted_value(i, disturbed, size));
        i += 1;
    }
    nums
}

/// Makes the values from `size` down to one.
pub fn reversed_sample(size: i32) -> (nums: Vec<i32>)
    requires
        0 <= size,
    ensures
        sample_of(SampleLayout::Reversed, size as int, nums@),
{
    let mut nums: Vec<i32> = Vec::with_capacity(size as usize);
    let mut i: i32 = 0;
    while i < size
        invariant
            0 <= i <= size,
            nums.len() == i,
            forall|k: int| 0 <= k < i ==> #[trigger] nums@[k] == size - k,
        decreases size - i,
    {
        nums.push(size - i);
        i += 1;
    }
    nums
}

/// Makes `size` values, each drawn at random from zero up to a hundredth of
/// `size`, that bound left out.
pub fn few_unique_sample(size: i32) -> (nums: Vec<i32>)
    requires
        can_sample(SampleLayout::FewUnique, size as int),
    ensures
        sample_of(SampleLayout::FewUnique, size as int, nums@),
{
    let mut nums: Vec<i32> = Vec::with_capacity(size as usize);
    let unique: i32 = size / 100;
    let mut i: i32 = 0;
    while i < size
        invariant
            0 <= i <= size,
            unique == size / 100,
            size == 0 || size >= 100,
            nums.len() == i,
            forall|k: int| 0 <= k < i ==> 0 <= #[trigger] nums@[k] < unique,
        decreases size - i,
    {
        nums.push(draw_below(unique));
        i += 1;
    }
    nums
}

} // verus!
