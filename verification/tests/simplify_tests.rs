use douglas_peucker::batch::simplify_batch;
use douglas_peucker::geometry::{perp_distance_sq, Point, MAX_COORD};
use douglas_peucker::simplify::{simplify_nonempty, simplify_polyline, SimplifyError};
use douglas_peucker::tolerance::Tolerance;

fn pt(x: i32, y: i32) -> Point {
    Point { x, y }
}

fn line(coords: &[(i32, i32)]) -> Vec<Point> {
    coords.iter().map(|&(x, y)| pt(x, y)).collect()
}

#[test]
fn degenerate_segment_distance_is_zero() {
    let d = perp_distance_sq(pt(3, 4), pt(1, 1), pt(1, 1));
    assert_eq!(d.num, 0);
    let d = perp_distance_sq(pt(-7, 100), pt(0, 0), pt(0, 0));
    assert_eq!(d.num, 0);
}

#[test]
fn distance_squared_is_exact() {
    // cross((0,0),(2,5),(1,0)) = 5, len2 = 29: distance^2 = 25/29.
    let d = perp_distance_sq(pt(1, 0), pt(0, 0), pt(2, 5));
    assert_eq!(d.num, 25);
    assert_eq!(d.den, 29);
    // A point on the line has distance exactly 0.
    let d = perp_distance_sq(pt(2, 2), pt(0, 0), pt(5, 5));
    assert_eq!(d.num, 0);
}

#[test]
fn spike_is_kept_and_flat_points_dropped() {
    let input = line(&[(0, 0), (1, 0), (2, 5), (3, 0), (4, 0)]);
    let out = simplify_polyline(&input, Tolerance::from_int(1)).unwrap();
    assert_eq!(out, line(&[(0, 0), (2, 5), (4, 0)]));
}

#[test]
fn two_points_are_unchanged() {
    let input = line(&[(7, -3), (9, 2)]);
    let out = simplify_polyline(&input, Tolerance::from_int(0)).unwrap();
    assert_eq!(out, input);
    let out = simplify_polyline(&input, Tolerance::from_int(1_000_000)).unwrap();
    assert_eq!(out, input);
}

#[test]
fn straight_line_collapses_to_endpoints() {
    let input = line(&[(0, 0), (1, 0), (2, 0), (3, 0)]);
    let out = simplify_polyline(&input, Tolerance::new(1, 2)).unwrap();
    assert_eq!(out, line(&[(0, 0), (3, 0)]));
}

#[test]
fn collinear_points_drop_even_at_tolerance_zero() {
    let input = line(&[(0, 0), (1, 1), (2, 2)]);
    let out = simplify_polyline(&input, Tolerance::from_int(0)).unwrap();
    assert_eq!(out, line(&[(0, 0), (2, 2)]));
}

#[test]
fn tolerance_zero_keeps_every_bend() {
    let input = line(&[(0, 0), (1, 1), (2, 0)]);
    let out = simplify_polyline(&input, Tolerance::from_int(0)).unwrap();
    assert_eq!(out, input);
}

#[test]
fn tie_keeps_first_maximum() {
    // (1,1) and (3,-1) are equally far from the top-level chord; the first
    // one is split on, and (2,0) then lies on the chord (1,1)-(3,-1).
    let input = line(&[(0, 0), (1, 1), (2, 0), (3, -1), (4, 0)]);
    let out = simplify_polyline(&input, Tolerance::from_int(0)).unwrap();
    assert_eq!(out, line(&[(0, 0), (1, 1), (3, -1), (4, 0)]));
}

#[test]
fn endpoints_always_present() {
    let input = line(&[(-5, 3), (0, 50), (3, -20), (8, 1), (11, 7)]);
    for t in [0u32, 5, 40, 1000] {
        let out = simplify_polyline(&input, Tolerance::from_int(t)).unwrap();
        assert_eq!(out.first(), input.first());
        assert_eq!(out.last(), input.last());
        assert!(out.len() >= 2);
        assert!(out.len() <= input.len());
    }
}

#[test]
fn simplification_is_idempotent() {
    let input = line(&[(0, 0), (1, 3), (2, -1), (3, 8), (4, 0), (5, 2), (6, 1)]);
    let t = Tolerance::from_int(2);
    let once = simplify_polyline(&input, t).unwrap();
    let twice = simplify_polyline(&once, t).unwrap();
    assert_eq!(twice, once);
}

#[test]
fn larger_tolerance_never_keeps_more() {
    let input = line(&[(0, 0), (1, 3), (2, -1), (3, 8), (4, 0), (5, 2), (6, 1)]);
    let mut prev_len = usize::MAX;
    for t in [0u32, 1, 2, 4, 8, 100] {
        let out = simplify_polyline(&input, Tolerance::from_int(t)).unwrap();
        assert!(out.len() <= prev_len);
        prev_len = out.len();
    }
}

#[test]
fn empty_polyline_is_rejected() {
    let input: Vec<Point> = Vec::new();
    let r = simplify_polyline(&input, Tolerance::from_int(1));
    assert_eq!(r, Err(SimplifyError::InvalidInput));
}

#[test]
fn single_point_returned_once() {
    let input = line(&[(4, 9)]);
    let out = simplify_polyline(&input, Tolerance::from_int(3)).unwrap();
    assert_eq!(out, line(&[(4, 9)]));
}

#[test]
fn batch_matches_single_calls_in_order() {
    let a = line(&[(0, 0), (1, 0), (2, 5), (3, 0), (4, 0)]);
    let b = line(&[(0, 0), (1, 1), (2, 2)]);
    let c = line(&[(10, 10), (20, -10)]);
    let t = Tolerance::from_int(1);
    let batch = vec![a.clone(), b.clone(), c.clone()];
    let out = simplify_batch(&batch, t).unwrap();
    assert_eq!(out.len(), 3);
    assert_eq!(out[0], simplify_polyline(&a, t).unwrap());
    assert_eq!(out[1], simplify_polyline(&b, t).unwrap());
    assert_eq!(out[2], simplify_polyline(&c, t).unwrap());
}

#[test]
fn batch_output_is_simplified_not_echoed() {
    // A batch whose lines all shrink: the dispatcher really simplifies.
    let batch = vec![
        line(&[(0, 0), (1, 5), (2, 0)]),
        line(&[(0, 0), (1, 0), (2, 0), (3, 0)]),
    ];
    let out = simplify_batch(&batch, Tolerance::from_int(100)).unwrap();
    assert_eq!(out[0], line(&[(0, 0), (2, 0)]));
    assert_eq!(out[1], line(&[(0, 0), (3, 0)]));
}

#[test]
fn batch_with_empty_line_is_rejected() {
    let batch = vec![line(&[(0, 0), (1, 1)]), Vec::new()];
    let r = simplify_batch(&batch, Tolerance::from_int(1));
    assert_eq!(r, Err(SimplifyError::InvalidInput));
}

#[test]
fn empty_batch_is_accepted() {
    let batch: Vec<Vec<Point>> = Vec::new();
    let out = simplify_batch(&batch, Tolerance::from_int(1)).unwrap();
    assert!(out.is_empty());
}

#[test]
fn extreme_coordinates_do_not_overflow() {
    let input = line(&[(-MAX_COORD, -MAX_COORD), (0, MAX_COORD), (MAX_COORD, -MAX_COORD)]);
    let out = simplify_nonempty(&input, Tolerance::new(u32::MAX, 1));
    assert_eq!(out, line(&[(-MAX_COORD, -MAX_COORD), (MAX_COORD, -MAX_COORD)]));
    let out = simplify_nonempty(&input, Tolerance::from_int(0));
    assert_eq!(out, input);
}

#[test]
fn fractional_tolerance_is_exact() {
    // The spike (1,1) is at distance 1 from the chord: kept only when the
    // tolerance is strictly below 1.
    let input = line(&[(0, 0), (1, 1), (2, 1), (3, 0)]);
    let just_below = Tolerance::new(999_999, 1_000_000);
    let exactly_one = Tolerance::from_int(1);
    // Below 1: the first spike is kept; (2,1) is then within 1 of the
    // sub-chord (1,1)-(3,0) and drops.
    let kept = simplify_polyline(&input, just_below).unwrap();
    assert_eq!(kept, line(&[(0, 0), (1, 1), (3, 0)]));
    // At exactly 1 the strict comparison drops the whole interior.
    let dropped = simplify_polyline(&input, exactly_one).unwrap();
    assert_eq!(dropped, line(&[(0, 0), (3, 0)]));
}
