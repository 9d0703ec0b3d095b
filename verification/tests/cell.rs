use country_boundaries::ids::{add_missing, contains_id, distinct_ids, knows_id, retain_known, same_id};
use country_boundaries::walk::CellWalk;
use country_boundaries::{Cell, Multipolygon, Point};

fn p(x: u16, y: u16) -> Point {
    Point { x, y }
}

fn square(from: u16, to: u16) -> Vec<Point> {
    vec![p(from, from), p(from, to), p(to, to), p(to, from)]
}

fn area(id: &str, from: u16, to: u16) -> (String, Multipolygon) {
    (String::from(id), Multipolygon { outer: vec![square(from, to)], inner: vec![] })
}

fn sample() -> Cell {
    Cell {
        containing_ids: vec![String::from("A"), String::from("B")],
        intersecting_areas: vec![area("C", 0, 10), area("D", 5, 20), area("E", 30, 40)],
    }
}

#[test]
fn cell_lists_covering_ids_first_and_then_the_shapes_that_cover_the_point() {
    let cell = sample();

    assert_eq!(vec!["A", "B", "C"], cell.get_ids(p(1, 1)));
    assert_eq!(vec!["A", "B", "C", "D"], cell.get_ids(p(7, 7)));
    assert_eq!(vec!["A", "B", "D"], cell.get_ids(p(10, 10)));
    assert_eq!(vec!["A", "B"], cell.get_ids(p(25, 25)));
    assert_eq!(vec!["A", "B", "E"], cell.get_ids(p(30, 39)));
}

#[test]
fn cell_lists_all_ids_whatever_the_point() {
    assert_eq!(vec!["A", "B", "C", "D", "E"], sample().get_all_ids());
    let empty = Cell { containing_ids: vec![], intersecting_areas: vec![] };
    assert!(empty.get_all_ids().is_empty());
    assert!(empty.get_ids(p(0, 0)).is_empty());
}

#[test]
fn cell_does_not_deduplicate() {
    let cell = Cell {
        containing_ids: vec![String::from("A")],
        intersecting_areas: vec![area("A", 0, 10), area("B", 0, 4), area("B", 6, 10)],
    };

    assert_eq!(vec!["A", "A"], cell.get_ids(p(5, 5)));
    assert_eq!(vec!["A", "A", "B", "B"], cell.get_all_ids());
    // any shape of a region may cover the point
    assert!(cell.is_in(p(1, 1), "B"));
    assert!(cell.is_in(p(7, 7), "B"));
    assert!(!cell.is_in(p(5, 5), "B"));
}

#[test]
fn cell_tells_whether_a_point_is_in_a_region() {
    let cell = sample();

    assert!(cell.is_in(p(50, 50), "A"));
    assert!(cell.is_in(p(50, 50), "B"));
    assert!(cell.is_in(p(1, 1), "C"));
    assert!(!cell.is_in(p(1, 1), "D"));
    assert!(cell.is_in(p(7, 7), "D"));
    assert!(!cell.is_in(p(50, 50), "E"));
    assert!(!cell.is_in(p(1, 1), "F"));
    assert!(!cell.is_in(p(1, 1), ""));
}

#[test]
fn cell_tells_whether_a_point_is_in_any_of_some_regions() {
    let cell = sample();

    assert!(cell.is_in_any(p(50, 50), &["X", "A"]));
    assert!(cell.is_in_any(p(7, 7), &["X", "D"]));
    assert!(!cell.is_in_any(p(1, 1), &["X", "D", "E"]));
    assert!(cell.is_in_any(p(1, 1), &["C"]));
    assert!(!cell.is_in_any(p(1, 1), &[]));
}

#[test]
fn ids_are_the_same_when_their_text_is() {
    assert!(same_id("DE", "DE"));
    assert!(same_id("", ""));
    assert!(!same_id("DE", "DK"));
    assert!(!same_id("DE", "DE-BY"));
    assert!(!same_id("DE", "de"));
    assert!(same_id("Österreich", "Österreich"));
    assert!(!same_id("Österreich", "Osterreich"));
}

#[test]
fn id_lists_are_searched_by_text() {
    let owned = vec![String::from("A"), String::from("B")];
    assert!(contains_id(&["A", "B"], "B"));
    assert!(!contains_id(&["A", "B"], "C"));
    assert!(!contains_id(&[], "A"));
    assert!(knows_id(&owned, "A"));
    assert!(!knows_id(&owned, "AB"));
}

#[test]
fn id_lists_are_merged_like_sets_that_keep_their_order() {
    let owned = vec![String::from("B"), String::from("A"), String::from("B"), String::from("C")];
    assert_eq!(vec!["B", "A", "C"], distinct_ids(&owned));

    let known = vec![String::from("C"), String::from("B")];
    assert_eq!(vec!["B", "C"], retain_known(&vec!["A", "B", "C", "D"], &known));
    assert!(retain_known(&vec!["A"], &known).is_empty());

    let mut ids = vec!["A", "B"];
    add_missing(&mut ids, &vec!["B", "C", "A", "D", "C"]);
    assert_eq!(vec!["A", "B", "C", "D"], ids);
}

fn walked(mut walk: CellWalk) -> Vec<usize> {
    let mut places = Vec::new();
    while let Some(place) = walk.next() {
        places.push(place);
    }
    assert_eq!(None, walk.next());
    places
}

#[test]
fn walk_goes_row_by_row_from_west_to_east() {
    let walk = CellWalk {
        cells: 20,
        width: 5,
        min_x: 1,
        min_y: 1,
        steps_x: 2,
        steps_y: 1,
        x_step: 0,
        y_step: 0,
    };
    assert_eq!(vec![6, 7, 8, 11, 12, 13], walked(walk));
    // a walk is a plain value: the same walk starts over
    assert_eq!(vec![6, 7, 8, 11, 12, 13], walked(walk));
}

#[test]
fn walk_goes_on_in_the_first_column_behind_the_last() {
    let walk = CellWalk {
        cells: 15,
        width: 5,
        min_x: 3,
        min_y: 0,
        steps_x: 3,
        steps_y: 2,
        x_step: 0,
        y_step: 0,
    };
    assert_eq!(vec![3, 4, 0, 1, 8, 9, 5, 6, 13, 14, 10, 11], walked(walk));
}

#[test]
fn walk_over_one_cell_and_over_all_cells() {
    let one = CellWalk {
        cells: 6,
        width: 3,
        min_x: 2,
        min_y: 1,
        steps_x: 0,
        steps_y: 0,
        x_step: 0,
        y_step: 0,
    };
    assert_eq!(vec![5], walked(one));
    let all = CellWalk { min_x: 0, min_y: 0, steps_x: 2, steps_y: 1, ..one };
    assert_eq!(vec![0, 1, 2, 3, 4, 5], walked(all));
}
