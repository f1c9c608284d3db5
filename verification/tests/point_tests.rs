use dose_response::point::{point, CircularArea, Point, SquareArea};
use std::f32::EPSILON;

fn tile_distance(a: (i32, i32), b: (i32, i32)) -> u32 {
    Point::new(a.0, a.1).tile_distance(Point::new(b.0, b.1))
}

fn distance(a: (i32, i32), b: (i32, i32)) -> f32 {
    (Point::new(a.0, a.1).distance_squared(Point::new(b.0, b.1)) as f32).sqrt()
}

fn points(pairs: &[(i32, i32)]) -> Vec<Point> {
    pairs.iter().map(|&(x, y)| point(x, y)).collect()
}

#[test]
fn test_tile_distance() {
    assert_eq!(tile_distance((0, 0), (0, 0)), 0);

    assert_eq!(tile_distance((0, 0), (1, 0)), 1);
    assert_eq!(tile_distance((0, 0), (-1, 0)), 1);
    assert_eq!(tile_distance((0, 0), (1, 1)), 1);
    assert_eq!(tile_distance((0, 0), (-1, 1)), 1);
    assert_eq!(tile_distance((0, 0), (0, 1)), 1);
    assert_eq!(tile_distance((0, 0), (0, -1)), 1);
    assert_eq!(tile_distance((0, 0), (1, 1)), 1);
    assert_eq!(tile_distance((0, 0), (1, -1)), 1);

    assert_eq!(tile_distance((0, 0), (2, 2)), 2);
    assert_eq!(tile_distance((0, 0), (-2, -2)), 2);
    assert_eq!(tile_distance((0, 0), (0, 2)), 2);
    assert_eq!(tile_distance((0, 0), (2, 0)), 2);

    assert_eq!(tile_distance((-3, -3), (10, 10)), 13);
    assert_eq!(tile_distance((-3, -3), (5, -2)), 8);
}

#[test]
fn test_euclidean_distance() {
    let actual = distance((0, 0), (0, 0));
    let expected = 0.0;
    assert!((actual - expected).abs() <= EPSILON);

    let actual = distance((0, 0), (10, 10));
    let expected = 14.142136;
    assert!((actual - expected).abs() <= EPSILON);

    let actual = distance((0, 0), (10, -10));
    let expected = 14.142136;
    assert!((actual - expected).abs() <= EPSILON);

    let actual = distance((0, 0), (-10, 10));
    let expected = 14.142136;
    assert!((actual - expected).abs() <= EPSILON);

    let actual = distance((0, 0), (10, -10));
    let expected = 14.142136;
    assert!((actual - expected).abs() <= EPSILON);

    let actual = distance((0, 0), (3, 4));
    let expected = 5.0;
    assert!((actual - expected).abs() <= EPSILON);

    let actual = distance((0, 0), (-3, 4));
    let expected = 5.0;
    assert!((actual - expected).abs() <= EPSILON);

    let actual = distance((0, 0), (3, -4));
    let expected = 5.0;
    assert!((actual - expected).abs() <= EPSILON);

    let actual = distance((0, 0), (-3, -4));
    let expected = 5.0;
    assert!((actual - expected).abs() <= EPSILON);
}

#[test]
fn test_points_within_radius_of_zero() {
    let actual: Vec<Point> = SquareArea::new(point(3, 3), 0).to_vec();
    assert_eq!(actual, points(&[(3, 3)]));
}

#[test]
fn test_points_within_radius_of_one() {
    let actual: Vec<Point> = SquareArea::new(point(0, 0), 1).to_vec();
    let expected = points(&[
        (-1, -1), (0, -1), (1, -1),
        (-1, 0), (0, 0), (1, 0),
        (-1, 1), (0, 1), (1, 1),
    ]);
    assert_eq!(actual, expected);
}

#[test]
fn test_points_within_radius_of_five() {
    let mut actual: Vec<(i32, i32)> = SquareArea::new(point(0, 0), 5)
        .to_vec()
        .iter()
        .map(|p| (p.x, p.y))
        .collect();

    let mut expected = Vec::new();
    for x in -5..6 {
        for y in -5..6 {
            expected.push((x, y));
        }
    }
    // the order is undefined so make sure we don't fail just because of ordering
    actual.sort();
    expected.sort();
    assert_eq!(actual, expected);
}

#[test]
fn square_area_next_walks_rows_then_stops() {
    let mut area = SquareArea::new(point(10, -10), 1);
    let mut seen = Vec::new();
    while let Some(p) = area.next() {
        seen.push((p.x, p.y));
    }
    assert_eq!(seen.len(), 9);
    assert_eq!(seen[0], (9, -11));
    assert_eq!(seen[3], (9, -10));
    assert_eq!(seen[8], (11, -9));
    assert_eq!(area.next(), None);
}

#[test]
fn circular_area_keeps_only_points_strictly_inside() {
    let mut area = CircularArea::new(point(0, 0), 2);
    let mut seen = Vec::new();
    while let Some(p) = area.next() {
        seen.push((p.x, p.y));
    }
    assert_eq!(
        seen,
        vec![(-1, -1), (0, -1), (1, -1), (-1, 0), (0, 0), (1, 0), (-1, 1), (0, 1), (1, 1)]
    );
    let mut empty = CircularArea::new(point(4, 4), 0);
    assert_eq!(empty.next(), None);
}

#[test]
fn within_radius_is_strict_and_within_reach_is_not() {
    let origin = point(0, 0);
    assert!(origin.within_radius(point(3, 3), 5));
    assert!(!origin.within_radius(point(3, 4), 5));
    assert!(origin.within_reach(point(3, 4), 5));
    assert!(!origin.within_reach(point(4, 4), 5));
    assert!(!origin.within_radius(origin, 0));
    assert!(origin.within_reach(origin, 0));
}

#[test]
fn distance_squared_of_extreme_points_does_not_wrap() {
    let a = point(i32::MIN, i32::MIN);
    let b = point(i32::MAX, i32::MAX);
    let side: u128 = (1u128 << 32) - 1;
    assert_eq!(a.distance_squared(b), 2 * side * side);
    assert_eq!(a.tile_distance(b), u32::MAX);
}

#[test]
fn offset_refuses_unrepresentable_tiles() {
    assert_eq!(point(1, 2).offset(-3, 4), Some(point(-2, 6)));
    assert_eq!(point(i32::MAX, 0).offset(1, 0), None);
    assert_eq!(point(0, i32::MIN).offset(0, -1), None);
}

#[test]
fn tiles_are_ordered_by_both_coordinates() {
    use_order(point(1, 1), point(2, 2), Some(std::cmp::Ordering::Less));
    use_order(point(2, 2), point(1, 1), Some(std::cmp::Ordering::Greater));
    use_order(point(3, -4), point(3, -4), Some(std::cmp::Ordering::Equal));
    use_order(point(1, 3), point(2, 2), None);
    use_order(point(1, 2), point(2, 2), None);
    assert!(point(0, 0) < point(1, 1));
    assert!(point(0, 0) <= point(0, 0));
    assert!(!(point(0, 0) < point(0, 1)));
    assert!(!(point(0, 1) > point(0, 0)));
    assert!(point(5, 5) > point(-5, -5));
}

fn use_order(a: Point, b: Point, expected: Option<std::cmp::Ordering>) {
    assert_eq!(a.partial_cmp(&b), expected);
}

#[test]
fn tiles_add_up() {
    assert_eq!(point(1, 2) + point(3, 4), point(4, 6));
    assert_eq!(point(1, 2) + (-3, 5), point(-2, 7));
    assert_eq!(point(i32::MAX - 1, i32::MIN) + (1, 0), point(i32::MAX, i32::MIN));
}
