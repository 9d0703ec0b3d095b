use country_boundaries::boundaries::normalize;
use country_boundaries::{Cell, CountryBoundaries, LatLon, Multipolygon, Point};

const DEGREE: i32 = 10_000_000;

fn empty_cell() -> Cell {
    Cell { containing_ids: vec![], intersecting_areas: vec![] }
}

fn raster(width: usize, height: usize) -> CountryBoundaries {
    let cells = (0..width * height).map(|_| empty_cell()).collect();
    CountryBoundaries::new(cells, width, vec![]).unwrap()
}

#[test]
fn normalize_wraps_into_the_range() {
    let full: i64 = 360 * DEGREE as i64;
    let half: i64 = 180 * DEGREE as i64;
    let ten: i64 = 10 * DEGREE as i64;

    assert_eq!(0, normalize(0, -half, full));
    assert_eq!(-half, normalize(-half, -half, full));
    assert_eq!(-half, normalize(half, -half, full));
    assert_eq!(half - 1, normalize(half - 1, -half, full));
    assert_eq!(-half + ten, normalize(half + ten, -half, full));
    assert_eq!(half - ten, normalize(-half - ten, -half, full));
    assert_eq!(ten, normalize(ten + 3 * full, -half, full));
    assert_eq!(ten, normalize(ten - 3 * full, -half, full));
}

#[test]
fn normalize_wraps_into_ranges_that_do_not_hold_zero() {
    assert_eq!(12, normalize(2, 10, 5));
    assert_eq!(10, normalize(10, 10, 5));
    assert_eq!(14, normalize(-1, 10, 5));
    assert_eq!(-7, normalize(3, -10, 5));
    assert_eq!(-10, normalize(-10, -10, 5));
    assert_eq!(-6, normalize(-11, -10, 5));
    assert_eq!(0, normalize(i64::MIN, 0, 1));
    assert_eq!(i64::MAX, normalize(i64::MAX, i64::MAX, 1));
    assert_eq!(i64::MIN + 1, normalize(i64::MAX, i64::MIN, i64::MAX));
}

#[test]
fn raster_knows_its_width_and_height() {
    let boundaries = raster(360, 180);
    assert_eq!(360, boundaries.raster_width());
    assert_eq!(180, boundaries.raster_height());
}

#[test]
fn longitude_falls_in_the_column_west_of_it() {
    let boundaries = raster(360, 180);

    assert_eq!(0, boundaries.longitude_to_cell_x(-180 * DEGREE));
    assert_eq!(0, boundaries.longitude_to_cell_x(-180 * DEGREE + DEGREE - 1));
    assert_eq!(1, boundaries.longitude_to_cell_x(-179 * DEGREE));
    assert_eq!(179, boundaries.longitude_to_cell_x(-1));
    assert_eq!(180, boundaries.longitude_to_cell_x(0));
    assert_eq!(196, boundaries.longitude_to_cell_x(16 * DEGREE));
    assert_eq!(196, boundaries.longitude_to_cell_x(16 * DEGREE + DEGREE / 2));
    assert_eq!(359, boundaries.longitude_to_cell_x(180 * DEGREE - 1));
    // the east edge of the world has no column of its own
    assert_eq!(359, boundaries.longitude_to_cell_x(180 * DEGREE));
}

#[test]
fn latitude_falls_in_the_row_south_of_it() {
    let boundaries = raster(360, 180);

    // the north edge of the world has no row of its own
    assert_eq!(0, boundaries.latitude_to_cell_y(90 * DEGREE));
    assert_eq!(0, boundaries.latitude_to_cell_y(90 * DEGREE - 1));
    assert_eq!(0, boundaries.latitude_to_cell_y(89 * DEGREE));
    assert_eq!(1, boundaries.latitude_to_cell_y(89 * DEGREE - 1));
    assert_eq!(44, boundaries.latitude_to_cell_y(45 * DEGREE + DEGREE / 2));
    assert_eq!(44, boundaries.latitude_to_cell_y(45 * DEGREE));
    assert_eq!(45, boundaries.latitude_to_cell_y(45 * DEGREE - 1));
    assert_eq!(89, boundaries.latitude_to_cell_y(0));
    assert_eq!(90, boundaries.latitude_to_cell_y(-1));
    assert_eq!(178, boundaries.latitude_to_cell_y(-89 * DEGREE));
    assert_eq!(179, boundaries.latitude_to_cell_y(-89 * DEGREE - 1));
    assert_eq!(179, boundaries.latitude_to_cell_y(-90 * DEGREE));
}

#[test]
fn columns_and_rows_of_a_raster_that_does_not_divide_the_degrees() {
    let boundaries = raster(7, 3);

    // 360 / 7 = 51.43 degrees to a column
    assert_eq!(0, boundaries.longitude_to_cell_x(-180 * DEGREE + 514_285_714));
    assert_eq!(1, boundaries.longitude_to_cell_x(-180 * DEGREE + 514_285_715));
    assert_eq!(6, boundaries.longitude_to_cell_x(180 * DEGREE - 1));
    // 60 degrees to a row
    assert_eq!(0, boundaries.latitude_to_cell_y(30 * DEGREE));
    assert_eq!(1, boundaries.latitude_to_cell_y(30 * DEGREE - 1));
    assert_eq!(1, boundaries.latitude_to_cell_y(-30 * DEGREE));
    assert_eq!(2, boundaries.latitude_to_cell_y(-30 * DEGREE - 1));
}

#[test]
fn local_x_is_the_floor_of_the_offset_in_65535ths_of_a_column() {
    let boundaries = raster(360, 180);

    assert_eq!(0, boundaries.longitude_to_local_x(196, 16 * DEGREE));
    assert_eq!(0, boundaries.longitude_to_local_x(196, 16 * DEGREE + 152));
    assert_eq!(1, boundaries.longitude_to_local_x(196, 16 * DEGREE + 153));
    assert_eq!(32767, boundaries.longitude_to_local_x(196, 16 * DEGREE + DEGREE / 2));
    assert_eq!(65534, boundaries.longitude_to_local_x(196, 17 * DEGREE - 1));
    assert_eq!(65535, boundaries.longitude_to_local_x(359, 180 * DEGREE));
    // a longitude outside of the column is held to the edge of the column
    assert_eq!(0, boundaries.longitude_to_local_x(196, 15 * DEGREE));
    assert_eq!(65535, boundaries.longitude_to_local_x(196, 18 * DEGREE));
}

#[test]
fn local_y_is_the_floor_of_the_offset_in_65535ths_of_a_row() {
    let boundaries = raster(360, 180);

    assert_eq!(0, boundaries.latitude_to_local_y(44, 45 * DEGREE));
    assert_eq!(0, boundaries.latitude_to_local_y(44, 45 * DEGREE + 152));
    assert_eq!(1, boundaries.latitude_to_local_y(44, 45 * DEGREE + 153));
    assert_eq!(32767, boundaries.latitude_to_local_y(44, 45 * DEGREE + DEGREE / 2));
    assert_eq!(65534, boundaries.latitude_to_local_y(44, 46 * DEGREE - 1));
    assert_eq!(65535, boundaries.latitude_to_local_y(0, 90 * DEGREE));
    assert_eq!(0, boundaries.latitude_to_local_y(179, -90 * DEGREE));
    // a latitude outside of the row is held to the edge of the row
    assert_eq!(0, boundaries.latitude_to_local_y(44, 44 * DEGREE));
    assert_eq!(65535, boundaries.latitude_to_local_y(44, 47 * DEGREE));
}

#[test]
fn local_coordinates_scale_with_the_size_of_the_cell() {
    let boundaries = raster(2, 2);

    // a cell is 180 degrees wide and 90 degrees high
    assert_eq!(32767, boundaries.longitude_to_local_x(0, -90 * DEGREE));
    assert_eq!(16383, boundaries.longitude_to_local_x(1, 45 * DEGREE));
    assert_eq!(32767, boundaries.latitude_to_local_y(0, 45 * DEGREE));
    assert_eq!(49151, boundaries.latitude_to_local_y(1, -(22 * DEGREE + DEGREE / 2)));
}

#[test]
fn cell_and_local_point_resolves_a_position() {
    let mut cells: Vec<Cell> = (0..360 * 180).map(|_| empty_cell()).collect();
    cells[44 * 360 + 196].containing_ids.push(String::from("HR"));
    let boundaries = CountryBoundaries::new(cells, 360, vec![]).unwrap();
    let position = LatLon::new(45 * DEGREE + DEGREE / 2, 16 * DEGREE + DEGREE / 4).unwrap();

    let (cell, point) = boundaries.cell_and_local_point(position);

    assert_eq!(vec![String::from("HR")], cell.containing_ids);
    assert_eq!(Point { x: 16383, y: 32767 }, point);
    assert_eq!(cell, boundaries.cell(196, 44));
}

#[test]
fn position_is_tested_against_the_shapes_of_its_cell() {
    // one cell for the world; the region is the north-eastern quarter of it
    let quarter = Multipolygon {
        outer: vec![vec![
            Point { x: 32768, y: 32768 },
            Point { x: 32768, y: 65535 },
            Point { x: 65535, y: 65535 },
            Point { x: 65535, y: 32768 },
        ]],
        inner: vec![],
    };
    let cell = Cell {
        containing_ids: vec![String::from("W")],
        intersecting_areas: vec![(String::from("NE"), quarter)],
    };
    let boundaries = CountryBoundaries::new(vec![cell], 1, vec![]).unwrap();
    let at = |latitude: i32, longitude: i32| LatLon::new(latitude, longitude).unwrap();

    assert_eq!(vec!["W", "NE"], boundaries.ids(at(45 * DEGREE, 90 * DEGREE)));
    assert_eq!(vec!["W"], boundaries.ids(at(-45 * DEGREE, 90 * DEGREE)));
    assert_eq!(vec!["W"], boundaries.ids(at(45 * DEGREE, -90 * DEGREE)));
    assert!(boundaries.is_in(at(45 * DEGREE, 90 * DEGREE), "NE"));
    assert!(!boundaries.is_in(at(45 * DEGREE, -90 * DEGREE), "NE"));
    assert!(boundaries.is_in(at(45 * DEGREE, -90 * DEGREE), "W"));
    assert!(boundaries.is_in_any(at(45 * DEGREE, 90 * DEGREE), &["X", "NE"]));
    assert!(!boundaries.is_in_any(at(-45 * DEGREE, 90 * DEGREE), &["X", "NE"]));
    // x 32768 starts 27467 ten-millionths of a degree east of the meridian
    assert!(!boundaries.is_in(at(45 * DEGREE, 27466), "NE"));
    assert!(boundaries.is_in(at(45 * DEGREE, 27467), "NE"));
}
