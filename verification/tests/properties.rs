use convex_hull::{convex_hull, Point};

fn sorted(mut v: Vec<Point>) -> Vec<Point> {
    v.sort_unstable();
    v
}

/// The turn direction of three points, computed independently of the
/// library: twice the signed area of the triangle.
fn signed_area_doubled(a: Point, b: Point, c: Point) -> i64 {
    let bax = b.x as i64 - a.x as i64;
    let bay = b.y as i64 - a.y as i64;
    let cbx = c.x as i64 - b.x as i64;
    let cby = c.y as i64 - b.y as i64;
    bax * cby - bay * cbx
}

#[test]
fn diagonal_colinear_is_degenerate() {
    let polygon = vec![
        Point::new(0, 0),
        Point::new(1, 1),
        Point::new(2, 2),
        Point::new(3, 3),
    ];
    let result = convex_hull(polygon);
    assert_eq!(result, Ok(Vec::new()));
}

#[test]
fn three_diagonal_colinear_is_degenerate() {
    let polygon = vec![Point::new(2, -2), Point::new(0, 0), Point::new(-2, 2)];
    let result = convex_hull(polygon);
    assert_eq!(result, Ok(Vec::new()));
}

#[test]
fn repeated_single_point_is_degenerate() {
    let polygon = vec![Point::new(1, 2), Point::new(1, 2), Point::new(1, 2)];
    let result = convex_hull(polygon);
    assert_eq!(result, Ok(Vec::new()));
}

#[test]
fn duplicates_of_a_triangle_keep_its_hull() {
    let polygon = vec![
        Point::new(0, 0),
        Point::new(4, 0),
        Point::new(0, 3),
        Point::new(0, 0),
        Point::new(4, 0),
    ];
    let hull = convex_hull(polygon).unwrap();
    assert_eq!(
        sorted(hull),
        sorted(vec![Point::new(0, 0), Point::new(4, 0), Point::new(0, 3)])
    );
}

#[test]
fn hull_is_permutation_invariant() {
    let polygon = vec![
        Point::new(41, -6),
        Point::new(-24, -74),
        Point::new(-51, -6),
        Point::new(73, 17),
        Point::new(-30, -34),
    ];
    let mut shuffled = polygon.clone();
    shuffled.reverse();
    shuffled.swap(0, 2);
    let first = convex_hull(polygon).unwrap();
    let second = convex_hull(shuffled).unwrap();
    assert_eq!(sorted(first), sorted(second));
}

#[test]
fn hull_is_idempotent() {
    let polygon = vec![
        Point::new(41, -6),
        Point::new(-24, -74),
        Point::new(-51, -6),
        Point::new(73, 17),
        Point::new(-30, -34),
    ];
    let hull = convex_hull(polygon).unwrap();
    let again = convex_hull(hull.clone()).unwrap();
    assert_eq!(sorted(hull), sorted(again));
}

#[test]
fn empty_degenerate_result_rerun_fails() {
    let polygon = vec![Point::new(0, 0), Point::new(1, 1), Point::new(2, 2)];
    let hull = convex_hull(polygon).unwrap();
    assert_eq!(hull.len(), 0);
    let rerun = convex_hull(hull);
    assert_eq!(
        rerun.err(),
        Some("only 0 Point(s), should be at least 3".to_string())
    );
}

#[test]
fn hull_vertices_come_from_the_input() {
    let polygon = vec![
        Point::new(0, 0),
        Point::new(10, 1),
        Point::new(3, 9),
        Point::new(5, 4),
        Point::new(-2, 6),
    ];
    let hull = convex_hull(polygon.clone()).unwrap();
    for p in &hull {
        assert!(polygon.contains(p));
    }
}

#[test]
fn hull_boundary_turns_left() {
    let polygon = vec![
        Point::new(0, 0),
        Point::new(10, 1),
        Point::new(3, 9),
        Point::new(5, 4),
        Point::new(-2, 6),
        Point::new(4, -3),
    ];
    let hull = convex_hull(polygon).unwrap();
    let n = hull.len();
    assert!(n >= 3);
    for i in 0..n {
        let a = hull[i];
        let b = hull[(i + 1) % n];
        let c = hull[(i + 2) % n];
        assert!(signed_area_doubled(a, b, c) > 0);
    }
}

#[test]
fn triangle_comes_back_counter_clockwise() {
    let polygon = vec![Point::new(0, 0), Point::new(0, 5), Point::new(7, 1)];
    let hull = convex_hull(polygon.clone()).unwrap();
    assert_eq!(sorted(hull.clone()), sorted(polygon));
    assert!(signed_area_doubled(hull[0], hull[1], hull[2]) > 0);
}
