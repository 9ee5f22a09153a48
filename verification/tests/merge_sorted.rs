use egui_pixels::merge_sorted::MergeSortedOverlapping;
use std::ops::RangeInclusive;

fn merge(ranges: Vec<RangeInclusive<u64>>) -> Vec<RangeInclusive<u64>> {
    MergeSortedOverlapping::new(ranges).collect()
}

#[test]
fn empty() {
    let result = merge(vec![]);
    assert_eq!(result, vec![]);
}

#[test]
fn last_range_has_not_the_highest_end() {
    let result = merge(vec![0..=10, 1..=8]);
    assert_eq!(result, vec![0..=10]);
}

#[test]
fn out_of_order_after_merge_is_accepted() {
    assert_eq!(merge(vec![1..=5, 3..=7, 2..=103]), vec![1..=103]);
}

#[test]
fn out_of_order_with_same_start_then_accumulator_start() {
    assert_eq!(vec![1..=21], merge(vec![1..=5, 4..=20, 1..=21]));
}

#[test]
fn two_disjoint() {
    let result = merge(vec![1..=3, 5..=7]);
    assert_eq!(result, vec![1..=3, 5..=7]);
}

#[test]
fn two_overlapping() {
    let result = merge(vec![1..=5, 3..=7]);
    assert_eq!(result, vec![1..=7]);
}

#[test]
fn two_touching() {
    let result = merge(vec![1..=3, 4..=7]);
    assert_eq!(result, vec![1..=7]);
}

#[test]
fn two_touching_adjacent() {
    let result = merge(vec![1..=3, 3..=7]);
    assert_eq!(result, vec![1..=7]);
}

#[test]
fn second_contained_in_first() {
    let result = merge(vec![1..=10, 3..=5]);
    assert_eq!(result, vec![1..=10]);
}

#[test]
fn three_merge_all() {
    let result = merge(vec![1..=3, 2..=5, 4..=7]);
    assert_eq!(result, vec![1..=7]);
}

#[test]
fn three_partial_merge() {
    let result = merge(vec![1..=3, 5..=7, 6..=9]);
    assert_eq!(result, vec![1..=3, 5..=9]);
}

#[test]
fn many_interleaved() {
    let result = merge(vec![1..=3, 2..=4, 3..=5]);
    assert_eq!(result, vec![1..=5]);
}

#[test]
fn same_start_different_end() {
    let result = merge(vec![1..=3, 1..=5, 1..=7]);
    assert_eq!(result, vec![1..=7]);
}

#[test]
fn same_range_multiple_times() {
    let result = merge(vec![1..=3, 1..=3, 1..=3]);
    assert_eq!(result, vec![1..=3]);
}

#[test]
fn range_set_blaze_contract() {
    let merged = merge(vec![0..=1, 1..=4]);
    for w in merged.windows(2) {
        assert!(
            w[0].end() < w[1].start(),
            "ranges must be disjoint: {:?} and {:?}",
            w[0],
            w[1]
        );
    }
}

#[test]
fn fused_iterator_returns_none_after_exhaustion() {
    let mut iter = MergeSortedOverlapping::new(vec![1..=3]);
    assert_eq!(iter.next(), Some(1..=3));
    assert_eq!(iter.next(), None);
    assert_eq!(iter.next(), None);
    assert_eq!(iter.next(), None);
}

#[test]
fn same_start_smaller_end_after_larger() {
    let result = merge(vec![1..=10, 1..=5, 1..=3]);
    assert_eq!(result, vec![1..=10]);
}

#[test]
fn reproduce_user_crash_case() {
    let source_ranges = vec![
        2365505_u64..=2365559_u64,
        2365651_u64..=2365701_u64,
        2366806_u64..=2367960_u64,
        2367961_u64..=2368095_u64,
        2368662_u64..=2369039_u64,
    ];
    assert!(egui_pixels::merge_sorted::is_mergeable(&source_ranges));
    let merged = merge(source_ranges);
    let checked: Vec<_> = range_set_blaze::CheckSortedDisjoint::new(merged.clone().into_iter()).collect();
    assert_eq!(checked, merged);
}

#[test]
fn adjacent_ranges_are_merged_for_check_sorted_disjoint() {
    let merged = merge(vec![1..=5, 6..=10, 20..=30]);
    let result: Vec<_> = range_set_blaze::CheckSortedDisjoint::new(merged.into_iter()).collect();
    assert_eq!(result, vec![1..=10, 20..=30]);
}

#[test]
fn with_check_sorted_disjoint_overlapping_same_start() {
    let merged = merge(vec![1..=10, 1..=5, 1..=15, 1..=12]);
    let result: Vec<_> = range_set_blaze::CheckSortedDisjoint::new(merged.into_iter()).collect();
    assert_eq!(result, vec![1..=15]);
}

#[test]
fn unsorted_input_is_not_mergeable() {
    assert!(!egui_pixels::merge_sorted::is_mergeable(&vec![5..=7, 1..=3]));
    assert!(!egui_pixels::merge_sorted::is_mergeable(&vec![10..=9]));
    assert!(!egui_pixels::merge_sorted::is_mergeable(&vec![1..=5, 1..=10, 20..=30, 1..=15]));
    assert!(egui_pixels::merge_sorted::is_mergeable(&vec![1..=5, 3..=7, 2..=103]));
}

#[test]
fn merge_near_the_top_of_u64() {
    assert_eq!(merge(vec![0..=(u64::MAX - 1), 5..=u64::MAX]), vec![0..=u64::MAX]);
    assert_eq!(merge(vec![(u64::MAX - 3)..=(u64::MAX - 2), u64::MAX..=u64::MAX]), vec![(u64::MAX - 3)..=(u64::MAX - 2), u64::MAX..=u64::MAX]);
}
