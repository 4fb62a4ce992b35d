use segment_intersection::geometry::{intersect, Point, Segment};
use segment_intersection::pairwise::count_intersections;

fn seg(x1: i32, y1: i32, x2: i32, y2: i32) -> Segment {
    Segment {
        p1: Point { x: x1, y: y1 },
        p2: Point { x: x2, y: y2 },
    }
}

fn sample() -> Vec<Segment> {
    vec![
        seg(0, 0, 4, 4),
        seg(0, 4, 4, 0),
        seg(0, 2, 4, 2),
        seg(5, 0, 5, 4),
        seg(4, 4, 6, 4),
        seg(10, 10, 11, 11),
    ]
}

#[test]
fn no_segments_give_no_pairs() {
    assert_eq!(count_intersections(&Vec::new()), 0);
}

#[test]
fn one_segment_gives_no_pairs() {
    assert_eq!(count_intersections(&vec![seg(0, 0, 1, 1)]), 0);
}

#[test]
fn two_crossing_segments_give_one_pair() {
    assert_eq!(count_intersections(&vec![seg(1, 0, 1, 2), seg(0, 1, 2, 1)]), 1);
}

#[test]
fn two_separate_segments_give_no_pair() {
    assert_eq!(count_intersections(&vec![seg(0, 0, 0, 1), seg(1, 0, 1, 1)]), 0);
}

#[test]
fn the_sample_has_five_pairs() {
    // (0,1), (0,2), (1,2) meet in the middle of the square; (0,4) share an end
    // point; (3,4) cross at (5,4).
    assert_eq!(count_intersections(&sample()), 5);
}

#[test]
fn equal_segments_are_counted_pair_by_pair() {
    let s = seg(0, 0, 3, 1);
    assert_eq!(count_intersections(&vec![s, s]), 1);
    assert_eq!(count_intersections(&vec![s, s, s]), 3);
    assert_eq!(count_intersections(&vec![s, s, s, s]), 6);
}

#[test]
fn the_order_of_the_collection_does_not_change_the_count() {
    let mut segments = sample();
    segments.reverse();
    assert_eq!(count_intersections(&segments), 5);
    segments.swap(0, 3);
    assert_eq!(count_intersections(&segments), 5);
}

#[test]
fn the_count_is_at_most_the_number_of_pairs() {
    let mut segments: Vec<Segment> = Vec::new();
    for k in 0..7 {
        // a fan of segments through the origin: every two of them intersect
        segments.push(seg(-10, -k, 10, k));
        let n = segments.len() as u128;
        assert_eq!(count_intersections(&segments), n * (n - 1) / 2);
    }
    for k in 0..5 {
        segments.push(seg(100 + k, 100, 100 + k, 200));
        let n = segments.len() as u128;
        assert!(count_intersections(&segments) <= n * (n - 1) / 2);
    }
    assert_eq!(count_intersections(&segments), 21);
}

#[test]
fn adding_a_segment_does_not_lower_the_count() {
    let added = [
        seg(0, 0, 4, 4),
        seg(20, 20, 30, 30),
        seg(2, -1, 2, 5),
        seg(5, 4, 5, 4),
    ];
    for extra in added {
        let mut segments = sample();
        let before = count_intersections(&segments);
        segments.push(extra);
        assert!(count_intersections(&segments) >= before);
    }
}

#[test]
fn adding_a_segment_raises_the_count_by_the_segments_it_meets() {
    let extra = seg(2, -1, 2, 5);
    let met = sample()
        .iter()
        .filter(|s| intersect(&s.p1, &s.p2, &extra.p1, &extra.p2))
        .count() as u128;
    assert_eq!(met, 3);
    for place in 0..=sample().len() {
        let mut segments = sample();
        segments.insert(place, extra);
        assert_eq!(count_intersections(&segments), 5 + met);
    }
}
