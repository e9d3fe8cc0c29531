use interval_sets::interval::Interval;
use interval_sets::interval_set::IntervalSet;

#[test]
fn add_single_point() {
    let mut s = IntervalSet::new();
    s.add_point(5);
    assert_eq!(s.to_string(), "≠5,");
}

#[test]
fn add_single_closed_interval() {
    let mut s = IntervalSet::new();
    s.add_interval(Interval::new(1, 10, false, false));
    assert_eq!(s.to_string(), "[1,10],");
}

#[test]
fn exclude_point_inside_interval() {
    let mut s = IntervalSet::new();
    s.add_interval(Interval::new(1, 10, false, false));
    s.remove_point(5);
    assert_eq!(s.to_string(), "[1,5),(5,10],");
}

#[test]
fn mix_point_and_interval() {
    let mut s = IntervalSet::new();
    s.add_interval(Interval::new(1, 10, false, false));
    s.remove_point(5);
    s.add_point(0);
    assert_eq!(s.to_string(), "≠0,[1,5),(5,10],");
}

#[test]
fn merge_touching_intervals() {
    let mut s = IntervalSet::new();
    s.add_interval(Interval::new(1, 10, false, false));
    s.add_interval(Interval::new(10, 20, true, false));
    assert_eq!(s.to_string(), "[1,20],");
}

#[test]
fn open_right_bound_by_excluding_endpoint() {
    let mut s = IntervalSet::new();
    s.add_interval(Interval::new(1, 20, false, false));
    s.remove_point(20);
    assert_eq!(s.to_string(), "[1,20),");
}

#[test]
fn add_disjoint_interval() {
    let mut s = IntervalSet::new();
    s.add_interval(Interval::new(1, 20, false, true));
    s.add_interval(Interval::new(30, 40, false, false));
    s.add_point(0);
    assert_eq!(s.to_string(), "≠0,[1,20),[30,40],");
}

#[test]
fn merge_overlapping_intervals() {
    let mut s = IntervalSet::new();
    s.add_interval(Interval::new(30, 40, false, false));
    s.add_interval(Interval::new(25, 35, false, false));
    assert_eq!(s.to_string(), "[25,40],");
}

#[test]
fn closed_interval_membership() {
    let mut s = IntervalSet::new();
    s.add_interval(Interval::new(1, 10, false, false));
    assert!(s.contains_point(&1));
    assert!(s.contains_point(&10));
    assert!(!s.contains_point(&0));
    assert!(!s.contains_point(&11));
    assert_eq!(s.to_string(), "[1,10],");
}

#[test]
fn open_ends_are_excluded() {
    let mut s = IntervalSet::new();
    s.add_interval(Interval::new(0, 10, true, true));
    assert!(!s.contains_point(&0));
    assert!(s.contains_point(&1));
    assert!(s.contains_point(&9));
    assert!(!s.contains_point(&10));
    assert_eq!(s.to_string(), "(0,10),");
}

#[test]
fn reversed_ends_swap_flags() {
    let mut s = IntervalSet::new();
    s.add_interval(Interval::new(10, 0, false, true));
    assert!(!s.contains_point(&0));
    assert!(s.contains_point(&10));
    assert_eq!(s.to_string(), "(0,10],");
}

#[test]
fn degenerate_open_interval_is_no_op() {
    let mut s = IntervalSet::new();
    s.add_interval(Interval::new(5, 5, true, true));
    assert_eq!(s.to_string(), "");
    assert!(!s.contains_point(&5));
    s.add_interval(Interval::new(5, 5, false, true));
    assert_eq!(s.to_string(), "");
    s.add_interval(Interval::new(5, 5, false, false));
    assert!(s.contains_point(&5));
    assert_eq!(s.to_string(), "[5,5],");
}

#[test]
fn open_end_keeps_an_earlier_exclusion() {
    let mut s = IntervalSet::new();
    s.add_interval(Interval::new(1, 10, false, false));
    s.remove_point(5);
    s.add_interval(Interval::new(5, 7, true, false));
    assert!(!s.contains_point(&5));
    assert!(s.contains_point(&6));
    assert_eq!(s.to_string(), "[1,5),(5,10],");
}

#[test]
fn closed_end_clears_an_exclusion() {
    let mut s = IntervalSet::new();
    s.add_interval(Interval::new(1, 10, false, false));
    s.remove_point(5);
    s.add_interval(Interval::new(5, 7, false, false));
    assert!(s.contains_point(&5));
    assert_eq!(s.to_string(), "[1,10],");
}

#[test]
fn open_end_keeps_an_earlier_inclusion() {
    let mut s = IntervalSet::new();
    s.add_point(3);
    s.add_interval(Interval::new(3, 8, true, true));
    assert!(s.contains_point(&3));
    assert!(!s.contains_point(&8));
    assert_eq!(s.to_string(), "[3,8),");
}

#[test]
fn interval_swallows_points_and_intervals() {
    let mut s = IntervalSet::new();
    s.add_point(12);
    s.add_interval(Interval::new(14, 16, false, false));
    s.add_point(18);
    s.add_interval(Interval::new(20, 30, false, false));
    s.remove_point(25);
    s.add_interval(Interval::new(10, 22, false, false));
    assert_eq!(s.to_string(), "[10,25),(25,30],");
    for v in 10..=30 {
        assert_eq!(s.contains_point(&v), v != 25, "value {}", v);
    }
}

#[test]
fn point_after_interval_is_rendered_in_order() {
    let mut s = IntervalSet::new();
    s.add_interval(Interval::new(1, 3, false, false));
    s.add_interval(Interval::new(5, 8, false, false));
    s.remove_point(6);
    s.add_point(10);
    assert_eq!(s.to_string(), "[1,3],[5,6),(6,8],≠10,");
}

#[test]
fn negative_values_render_with_sign() {
    let mut s = IntervalSet::new();
    s.add_interval(Interval::new(-20, -3, false, false));
    s.add_point(i64::MIN);
    s.add_point(i64::MAX);
    assert_eq!(
        s.to_string(),
        "≠-9223372036854775808,[-20,-3],≠9223372036854775807,"
    );
}

#[test]
fn repeated_operations_are_idempotent() {
    let mut once = IntervalSet::new();
    once.add_interval(Interval::new(1, 9, true, false));
    once.add_point(20);
    once.remove_point(4);
    let mut twice = IntervalSet::new();
    twice.add_interval(Interval::new(1, 9, true, false));
    twice.add_interval(Interval::new(1, 9, true, false));
    twice.add_point(20);
    twice.add_point(20);
    twice.remove_point(4);
    twice.remove_point(4);
    assert_eq!(once.to_string(), twice.to_string());
    assert_eq!(once.to_string(), "(1,4),(4,9],≠20,");
}

#[test]
fn additions_in_any_order_agree() {
    let mut a = IntervalSet::new();
    a.add_interval(Interval::new(1, 5, false, true));
    a.add_interval(Interval::new(5, 9, true, false));
    a.add_point(5);
    let mut b = IntervalSet::new();
    b.add_point(5);
    b.add_interval(Interval::new(5, 9, true, false));
    b.add_interval(Interval::new(1, 5, false, true));
    for v in -2..12 {
        assert_eq!(a.contains_point(&v), b.contains_point(&v), "value {}", v);
    }
    assert_eq!(a.to_string(), "[1,9],");
}

#[test]
fn contains_matches_a_reference_evaluation() {
    // (l, r, left_open, right_open) intervals, then removed values, then added values
    let intervals = [(3, 8, true, false), (10, 6, false, true), (20, 25, true, true), (25, 30, false, false)];
    let removed = [7, 12, 25, 40];
    let added = [12, 0, 40];
    let mut s = IntervalSet::new();
    for &(l, r, lo, ro) in intervals.iter() {
        s.add_interval(Interval::new(l, r, lo, ro));
    }
    for &v in removed.iter() {
        s.remove_point(v);
    }
    for &v in added.iter() {
        s.add_point(v);
    }
    let in_interval = |v: i64, (l, r, lo, ro): (i64, i64, bool, bool)| {
        let (l, r, lo, ro) = if l <= r { (l, r, lo, ro) } else { (r, l, ro, lo) };
        (if lo { v > l } else { v >= l }) && (if ro { v < r } else { v <= r })
    };
    for v in -5..45 {
        let mut expected = intervals.iter().any(|&iv| in_interval(v, iv));
        if removed.contains(&v) {
            expected = false;
        }
        if added.contains(&v) {
            expected = true;
        }
        assert_eq!(s.contains_point(&v), expected, "value {}", v);
    }
}

#[test]
fn markers_beyond_new_interval_survive_absorption() {
    let mut s = IntervalSet::new();
    s.add_interval(Interval::new(1, 10, false, false));
    s.remove_point(3);
    s.add_interval(Interval::new(30, 40, false, false));
    s.remove_point(38);
    s.add_interval(Interval::new(5, 32, false, false));
    assert!(!s.contains_point(&3));
    assert!(!s.contains_point(&38));
    assert!(s.contains_point(&20));
    assert_eq!(s.to_string(), "[1,3),(3,38),(38,40],");
}

#[test]
fn interval_inside_another_keeps_the_outer_one() {
    let mut s = IntervalSet::new();
    s.add_interval(Interval::new(1, 20, false, false));
    s.add_interval(Interval::new(5, 10, false, false));
    assert!(s.contains_point(&15));
    assert_eq!(s.to_string(), "[1,20],");
}

#[test]
fn adding_an_open_interval_twice_keeps_its_open_end() {
    let mut s = IntervalSet::new();
    s.add_interval(Interval::new(3, 9, true, false));
    let once = s.to_string();
    s.add_interval(Interval::new(3, 9, true, false));
    assert_eq!(s.to_string(), once);
    assert_eq!(once, "(3,9],");
    assert!(!s.contains_point(&3));
}
