use exercises::merge_intervals;
use exercises::merge_intervals::{merge_pairs, sort_pairs};

#[test]
fn test_merge_intervals_1() {
    let intervals = vec![vec![1, 3], vec![2, 6], vec![8, 10], vec![15, 18]];
    let result = merge_intervals(intervals);
    println!("Merged intervals: {:?}", result);
    assert_eq!(result, vec![vec![1, 6], vec![8, 10], vec![15, 18]]);
}

#[test]
fn test_merge_intervals_2() {
    let intervals = vec![vec![1, 4], vec![4, 5]];
    let result = merge_intervals(intervals);
    println!("Merged intervals: {:?}", result);
    assert_eq!(result, vec![vec![1, 5]]);
}

#[test]
fn test_merge_intervals_3() {
    let intervals = vec![vec![1, 4], vec![0, 4]];
    let result = merge_intervals(intervals);
    println!("Merged intervals: {:?}", result);
    assert_eq!(result, vec![vec![0, 4]]);
}

#[test]
fn test_merge_intervals_4() {
    let intervals = vec![vec![1, 10], vec![2, 6], vec![8, 10]];
    let result = merge_intervals(intervals);
    println!("Merged intervals: {:?}", result);
    assert_eq!(result, vec![vec![1, 10]]);
}

#[test]
fn test_merge_intervals_5() {
    let intervals = vec![vec![1, 2], vec![3, 5], vec![4, 7], vec![8, 10]];
    let result = merge_intervals(intervals);
    println!("Merged intervals: {:?}", result);
    assert_eq!(result, vec![vec![1, 2], vec![3, 7], vec![8, 10]]);
}

#[test]
fn merge_of_no_interval_and_of_one() {
    let none: Vec<Vec<i32>> = vec![];
    assert_eq!(merge_intervals(none.clone()), none);
    assert_eq!(merge_intervals(vec![vec![5, 9]]), vec![vec![5, 9]]);
    assert_eq!(merge_intervals(vec![vec![5, 1]]), vec![vec![5, 1]]);
}

#[test]
fn merge_keeps_intervals_apart_that_only_touch_in_between() {
    // 2 and 3 follow each other, but no number of the one interval lies in
    // the other.
    assert_eq!(merge_intervals(vec![vec![3, 4], vec![1, 2]]), vec![vec![1, 2], vec![3, 4]]);
    assert_eq!(
        merge_intervals(vec![vec![i32::MIN, -1], vec![0, i32::MAX]]),
        vec![vec![i32::MIN, -1], vec![0, i32::MAX]]
    );
    assert_eq!(
        merge_intervals(vec![vec![6, 8], vec![1, 9], vec![2, 4], vec![4, 7]]),
        vec![vec![1, 9]]
    );
}

#[test]
fn sort_keeps_the_order_of_equal_starts() {
    let pairs = vec![(3, 1), (1, 9), (3, 0), (1, 2), (2, 2)];
    assert_eq!(sort_pairs(&pairs), vec![(1, 9), (1, 2), (2, 2), (3, 1), (3, 0)]);
    assert_eq!(merge_pairs(&vec![(1, 2), (2, 1), (2, 5), (7, 7)]), vec![(1, 5), (7, 7)]);
}
