use country_boundaries::multipolygon::{is_left, is_point_in_polygon};
use country_boundaries::{Multipolygon, Point};

fn big_square() -> Vec<Point> {
    vec![p(0, 0), p(0, 10), p(10, 10), p(10, 0)]
}

fn hole() -> Vec<Point> {
    vec![p(2, 2), p(2, 8), p(8, 8), p(8, 2)]
}

fn small_square() -> Vec<Point> {
    vec![p(4, 4), p(4, 6), p(6, 6), p(6, 4)]
}

fn p(x: u16, y: u16) -> Point {
    Point { x, y }
}

#[test]
fn simple_point_in_polygon() {
    assert!(is_point_in_polygon(&p(5, 5), big_square().as_slice()));
}

#[test]
fn covers_simple_polygon() {
    assert!(Multipolygon { outer: vec![big_square()], inner: vec![] }.covers(&p(5, 5)));
}

#[test]
fn does_not_cover_hole() {
    assert!(!Multipolygon { outer: vec![big_square()], inner: vec![hole()] }.covers(&p(5, 5)));
}

#[test]
fn does_cover_polygon_in_hole() {
    assert!(
        Multipolygon { outer: vec![big_square(), small_square()], inner: vec![hole()] }
            .covers(&p(5, 5))
    );
}

#[test]
fn only_upper_left_edge_counts_as_inside() {
    let polygon = Multipolygon { outer: vec![big_square()], inner: vec![] };

    assert!(polygon.covers(&p(0, 0)));
    assert!(polygon.covers(&p(5, 0)));
    assert!(polygon.covers(&p(0, 5)));
    assert!(!polygon.covers(&p(0, 10)));
    assert!(!polygon.covers(&p(10, 0)));
    assert!(!polygon.covers(&p(5, 10)));
    assert!(!polygon.covers(&p(10, 5)));
    assert!(!polygon.covers(&p(10, 10)));
}

#[test]
fn is_left_is_the_cross_product() {
    // left of an edge that goes up: positive
    assert_eq!(50, is_left(&p(5, 0), &p(5, 10), &p(0, 5)));
    // right of it: negative
    assert_eq!(-50, is_left(&p(0, 0), &p(0, 10), &p(5, 5)));
    // on the line through it: zero
    assert_eq!(0, is_left(&p(1, 1), &p(3, 3), &p(7, 7)));
    assert_eq!(-13, is_left(&p(2, 3), &p(7, 4), &p(10, 2)));
}

#[test]
fn is_left_has_room_for_the_largest_coordinates() {
    assert_eq!(4_294_836_225, is_left(&p(65535, 0), &p(0, 65535), &p(0, 0)));
    assert_eq!(-4_294_836_225, is_left(&p(0, 0), &p(0, 65535), &p(65535, 0)));
    assert_eq!(4_294_836_225, is_left(&p(65535, 65535), &p(0, 65535), &p(65535, 0)));
}

#[test]
fn ring_without_points_contains_nothing() {
    assert!(!is_point_in_polygon(&p(0, 0), &[]));
    assert!(!Multipolygon { outer: vec![vec![]], inner: vec![] }.covers(&p(0, 0)));
    assert!(!Multipolygon { outer: vec![], inner: vec![] }.covers(&p(0, 0)));
}

#[test]
fn ring_winds_either_way() {
    let clockwise = big_square();
    let mut counterclockwise = big_square();
    counterclockwise.reverse();

    for point in [p(5, 5), p(0, 0), p(10, 10), p(5, 10), p(11, 5), p(0, 9)] {
        assert_eq!(
            is_point_in_polygon(&point, &clockwise),
            is_point_in_polygon(&point, &counterclockwise)
        );
    }
    assert!(is_point_in_polygon(&p(5, 5), &counterclockwise));
}

#[test]
fn triangle_contains_what_is_left_of_its_slanted_edge() {
    let triangle = vec![p(0, 0), p(0, 10), p(10, 0)];

    assert!(is_point_in_polygon(&p(1, 1), &triangle));
    assert!(is_point_in_polygon(&p(4, 5), &triangle));
    // on the slanted edge, and beyond it
    assert!(!is_point_in_polygon(&p(5, 5), &triangle));
    assert!(!is_point_in_polygon(&p(6, 5), &triangle));
}

#[test]
fn holes_count_against_outer_rings() {
    let two_holes = Multipolygon { outer: vec![big_square()], inner: vec![hole(), hole()] };
    assert!(!two_holes.covers(&p(5, 5)));
    assert!(two_holes.covers(&p(1, 1)));

    let twice = Multipolygon { outer: vec![big_square(), big_square()], inner: vec![hole()] };
    assert!(twice.covers(&p(5, 5)));

    let hole_only = Multipolygon { outer: vec![], inner: vec![hole()] };
    assert!(!hole_only.covers(&p(5, 5)));
}
