use interval_sets::sort::{insertion_sort, merge, merge_sort, merge_sort_recur};
use std::cmp::Ordering;

fn ascending(a: &i32, b: &i32) -> Ordering {
    a.cmp(b)
}

fn descending(a: &i32, b: &i32) -> Ordering {
    b.cmp(a)
}

#[test]
fn insertion_sort_sorts_a_range() {
    let mut v = vec![9, 5, 3, 8, 1, 7, 0];
    insertion_sort(&mut v, 1, 6, &ascending);
    assert_eq!(v, vec![9, 1, 3, 5, 7, 8, 0]);
}

#[test]
fn merge_sort_sorts_everything() {
    let mut v = vec![5, -2, 9, 9, 0, 3, -7, 4, 1, 1, 8];
    let n = v.len();
    merge_sort(&mut v, 0, n, &ascending);
    assert_eq!(v, vec![-7, -2, 0, 1, 1, 3, 4, 5, 8, 9, 9]);
    merge_sort_recur(&mut v, 0, n, &descending);
    assert_eq!(v, vec![9, 9, 8, 5, 4, 3, 1, 1, 0, -2, -7]);
}

#[test]
fn merge_joins_sorted_runs() {
    let mut v = vec![1, 4, 6, 2, 3, 7];
    merge(&mut v, 0, 3, 6, &ascending);
    assert_eq!(v, vec![1, 2, 3, 4, 6, 7]);
}

#[test]
fn merge_sort_is_stable_for_equal_keys() {
    let mut v = vec![(2, 'a'), (1, 'b'), (2, 'c'), (1, 'd')];
    let by_key = |x: &(i32, char), y: &(i32, char)| x.0.cmp(&y.0);
    merge_sort(&mut v, 0, 4, &by_key);
    assert_eq!(v, vec![(1, 'b'), (1, 'd'), (2, 'a'), (2, 'c')]);
}

#[test]
fn insertion_sort_keeps_equal_keys_in_order() {
    let mut v = vec![(3, 'a'), (1, 'b'), (3, 'c'), (2, 'd'), (1, 'e')];
    let by_key = |x: &(i32, char), y: &(i32, char)| x.0.cmp(&y.0);
    insertion_sort(&mut v, 0, 5, &by_key);
    assert_eq!(v, vec![(1, 'b'), (1, 'e'), (2, 'd'), (3, 'a'), (3, 'c')]);
}
