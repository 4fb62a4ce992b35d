use segment_intersection::geometry::{ccw, intersect, overlap_for_colinear, Point};

fn pt(x: i32, y: i32) -> Point {
    Point { x, y }
}

#[test]
fn ccw_is_positive_for_a_left_turn() {
    assert_eq!(ccw(&pt(0, 0), &pt(1, 0), &pt(0, 1)), 1);
    assert_eq!(ccw(&pt(0, 0), &pt(4, 0), &pt(0, 3)), 12);
}

#[test]
fn ccw_is_negative_for_a_right_turn() {
    assert_eq!(ccw(&pt(0, 0), &pt(0, 1), &pt(1, 0)), -1);
    assert_eq!(ccw(&pt(1, 1), &pt(3, 4), &pt(6, 2)), -13);
}

#[test]
fn ccw_is_zero_on_a_line() {
    assert_eq!(ccw(&pt(0, 0), &pt(1, 1), &pt(5, 5)), 0);
    assert_eq!(ccw(&pt(-2, 3), &pt(0, 2), &pt(4, 0)), 0);
}

#[test]
fn ccw_is_zero_when_two_points_coincide() {
    assert_eq!(ccw(&pt(3, 7), &pt(3, 7), &pt(-1, 4)), 0);
    assert_eq!(ccw(&pt(3, 7), &pt(-1, 4), &pt(3, 7)), 0);
    assert_eq!(ccw(&pt(-1, 4), &pt(3, 7), &pt(3, 7)), 0);
}

#[test]
fn ccw_changes_sign_when_two_points_are_exchanged() {
    let (p, q, r) = (pt(2, -5), pt(7, 1), pt(-3, 4));
    assert_eq!(ccw(&p, &q, &r), 75);
    assert_eq!(ccw(&q, &p, &r), -75);
}

#[test]
fn ccw_changes_sign_when_the_axes_are_exchanged() {
    assert_eq!(ccw(&pt(2, -5), &pt(7, 1), &pt(-3, 4)), 75);
    assert_eq!(ccw(&pt(-5, 2), &pt(1, 7), &pt(4, -3)), -75);
}

#[test]
fn ccw_is_exact_at_the_corners_of_the_grid() {
    let low = i32::MIN;
    let high = i32::MAX;
    assert_eq!(
        ccw(&pt(low, low), &pt(high, low), &pt(high, high)),
        18446744065119617025
    );
    assert_eq!(
        ccw(&pt(low, low), &pt(high, high), &pt(high, low)),
        -18446744065119617025
    );
    assert_eq!(ccw(&pt(low, low), &pt(0, 0), &pt(high, high)), 0);
    assert_eq!(ccw(&pt(low, high), &pt(-1, 0), &pt(high, low)), 0);
}

#[test]
fn overlap_includes_the_boundary() {
    assert!(overlap_for_colinear(&pt(0, 0), &pt(1, 0), &pt(1, 0), &pt(2, 0)));
    assert!(overlap_for_colinear(&pt(0, 0), &pt(0, 0), &pt(0, 0), &pt(0, 0)));
}

#[test]
fn overlap_needs_both_axes() {
    assert!(overlap_for_colinear(&pt(0, 0), &pt(2, 2), &pt(1, 1), &pt(3, 3)));
    assert!(!overlap_for_colinear(&pt(0, 0), &pt(2, 2), &pt(3, 1), &pt(4, 2)));
    assert!(!overlap_for_colinear(&pt(0, 0), &pt(2, 2), &pt(1, 3), &pt(2, 4)));
    assert!(!overlap_for_colinear(&pt(0, 0), &pt(2, 2), &pt(3, 3), &pt(4, 4)));
}

#[test]
fn overlap_takes_end_points_in_any_order() {
    assert!(overlap_for_colinear(&pt(2, 0), &pt(0, 0), &pt(3, 0), &pt(1, 0)));
    assert!(!overlap_for_colinear(&pt(1, 0), &pt(0, 0), &pt(3, 0), &pt(2, 0)));
    assert!(!overlap_for_colinear(&pt(3, 0), &pt(2, 0), &pt(1, 0), &pt(0, 0)));
}

#[test]
fn a_point_intersects_the_segment_it_lies_on() {
    assert!(intersect(&pt(0, 0), &pt(4, 2), &pt(2, 1), &pt(2, 1)));
    assert!(intersect(&pt(2, 1), &pt(2, 1), &pt(0, 0), &pt(4, 2)));
    assert!(intersect(&pt(0, 0), &pt(4, 2), &pt(4, 2), &pt(4, 2)));
}

#[test]
fn a_point_off_the_segment_does_not_intersect_it() {
    assert!(!intersect(&pt(0, 0), &pt(4, 2), &pt(2, 2), &pt(2, 2)));
    assert!(!intersect(&pt(0, 0), &pt(4, 2), &pt(6, 3), &pt(6, 3)));
    assert!(!intersect(&pt(6, 3), &pt(6, 3), &pt(0, 0), &pt(4, 2)));
}

#[test]
fn two_points_intersect_when_they_are_equal() {
    assert!(intersect(&pt(5, -5), &pt(5, -5), &pt(5, -5), &pt(5, -5)));
    assert!(!intersect(&pt(5, -5), &pt(5, -5), &pt(5, -4), &pt(5, -4)));
}

#[test]
fn segments_that_would_cross_if_extended_do_not_intersect() {
    assert!(!intersect(&pt(0, 0), &pt(2, 2), &pt(5, 0), &pt(3, 2)));
    assert!(!intersect(&pt(0, 0), &pt(10, 0), &pt(5, 1), &pt(5, 9)));
}

#[test]
fn a_segment_ending_on_another_intersects_it() {
    assert!(intersect(&pt(0, 0), &pt(10, 0), &pt(5, 0), &pt(5, 9)));
    assert!(intersect(&pt(0, 0), &pt(10, 0), &pt(7, -3), &pt(10, 0)));
}

#[test]
fn intersect_is_exact_at_the_corners_of_the_grid() {
    let low = i32::MIN;
    let high = i32::MAX;
    assert!(intersect(&pt(low, low), &pt(high, high), &pt(low, high), &pt(high, low)));
    assert!(!intersect(&pt(low, low), &pt(high, high), &pt(low, high), &pt(-1, 1)));
    assert!(intersect(&pt(low, low), &pt(high, high), &pt(low, high), &pt(0, -1)));
    assert!(!intersect(&pt(low, low), &pt(high, high), &pt(low, high), &pt(-1, 0)));
    assert!(!intersect(&pt(low, low), &pt(high, high - 1), &pt(high, high), &pt(0, 1)));
}

#[test]
fn intersect_gives_one_answer_for_all_eight_orders() {
    let cases = [
        (pt(0, 0), pt(6, 3), pt(1, 4), pt(5, -2), true),
        (pt(0, 0), pt(6, 3), pt(1, 4), pt(2, 2), false),
        (pt(0, 0), pt(6, 3), pt(2, 1), pt(8, 4), true),
        (pt(0, 0), pt(6, 3), pt(8, 4), pt(10, 5), false),
    ];
    for (p1, p2, q1, q2, expected) in cases {
        assert_eq!(intersect(&p1, &p2, &q1, &q2), expected);
        assert_eq!(intersect(&p2, &p1, &q1, &q2), expected);
        assert_eq!(intersect(&p1, &p2, &q2, &q1), expected);
        assert_eq!(intersect(&p2, &p1, &q2, &q1), expected);
        assert_eq!(intersect(&q1, &q2, &p1, &p2), expected);
        assert_eq!(intersect(&q2, &q1, &p1, &p2), expected);
        assert_eq!(intersect(&q1, &q2, &p2, &p1), expected);
        assert_eq!(intersect(&q2, &q1, &p2, &p1), expected);
    }
}

#[test]
fn intersect_gives_one_answer_when_the_axes_are_exchanged() {
    let cases = [
        (pt(0, 0), pt(6, 3), pt(1, 4), pt(5, -2), true),
        (pt(0, 0), pt(6, 3), pt(1, 4), pt(2, 2), false),
        (pt(0, 0), pt(6, 3), pt(2, 1), pt(8, 4), true),
        (pt(0, 0), pt(6, 3), pt(8, 4), pt(10, 5), false),
    ];
    for (p1, p2, q1, q2, expected) in cases {
        let swapped = intersect(
            &pt(p1.y, p1.x),
            &pt(p2.y, p2.x),
            &pt(q1.y, q1.x),
            &pt(q2.y, q2.x),
        );
        assert_eq!(swapped, expected);
    }
}
