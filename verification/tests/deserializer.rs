use country_boundaries::deserializer::{
    from_reader, read_areas, read_cell, read_polygons, read_raster, read_ring, read_size,
    read_sizes, read_string, read_u16, read_u32, read_u64, read_u8,
};
use country_boundaries::{BoundingBox, Cell, CountryBoundaries, DecodeError, LatLon, Multipolygon, Point};
use std::collections::HashSet;

const DEGREE: i32 = 10_000_000;

fn id(text: &str) -> Vec<u8> {
    let mut bytes = (text.len() as u16).to_be_bytes().to_vec();
    bytes.extend_from_slice(text.as_bytes());
    bytes
}

fn ring(points: &[(u16, u16)]) -> Vec<u8> {
    let mut bytes = (points.len() as u32).to_be_bytes().to_vec();
    for &(x, y) in points {
        bytes.extend_from_slice(&x.to_be_bytes());
        bytes.extend_from_slice(&y.to_be_bytes());
    }
    bytes
}

fn rings(rings: &[Vec<u8>]) -> Vec<u8> {
    let mut bytes = vec![rings.len() as u8];
    for ring in rings {
        bytes.extend_from_slice(ring);
    }
    bytes
}

fn area(name: &str, outer: &[Vec<u8>], inner: &[Vec<u8>]) -> Vec<u8> {
    let mut bytes = id(name);
    bytes.extend(rings(outer));
    bytes.extend(rings(inner));
    bytes
}

fn cell(containing_ids: &[&str], areas: &[Vec<u8>]) -> Vec<u8> {
    let mut bytes = vec![containing_ids.len() as u8];
    for name in containing_ids {
        bytes.extend(id(name));
    }
    bytes.push(areas.len() as u8);
    for area in areas {
        bytes.extend_from_slice(area);
    }
    bytes
}

fn sizes(records: &[(&str, f64)]) -> Vec<u8> {
    let mut bytes = (records.len() as u32).to_be_bytes().to_vec();
    for &(name, size) in records {
        bytes.extend(id(name));
        bytes.extend_from_slice(&size.to_bits().to_be_bytes());
    }
    bytes
}

fn raster(width: u32, cells: &[Vec<u8>]) -> Vec<u8> {
    let mut bytes = width.to_be_bytes().to_vec();
    bytes.extend_from_slice(&(cells.len() as u32).to_be_bytes());
    for cell in cells {
        bytes.extend_from_slice(cell);
    }
    bytes
}

fn dataset(version: u16, width: u32, cells: &[Vec<u8>], records: &[(&str, f64)]) -> Vec<u8> {
    let mut bytes = version.to_be_bytes().to_vec();
    bytes.extend(raster(width, cells));
    bytes.extend(sizes(records));
    bytes
}

fn square(from: u16, to: u16) -> Vec<u8> {
    ring(&[(from, from), (from, to), (to, to), (to, from)])
}

fn sample() -> Vec<u8> {
    dataset(
        2,
        2,
        &[
            cell(&["W", "A"], &[area("Ö", &[square(0, 40000), square(50000, 60000)], &[square(10000, 20000)])]),
            cell(&["E", "A"], &[]),
        ],
        &[("A", 800.0), ("W", 15.5), ("Ö", 0.25)],
    )
}

fn at(latitude: i32, longitude: i32) -> LatLon {
    LatLon::new(latitude, longitude).unwrap()
}

fn fault(bytes: &[u8]) -> Option<DecodeError> {
    from_reader(bytes).err()
}

#[test]
fn reads_numbers_most_significant_byte_first() {
    let bytes = [0x01, 0x23, 0x45, 0x67, 0x89, 0xab, 0xcd, 0xef, 0xff];

    assert_eq!(Ok((0x01, 1)), read_u8(&bytes, 0));
    assert_eq!(Ok((0xff, 9)), read_u8(&bytes, 8));
    assert_eq!(Ok((0x0123, 2)), read_u16(&bytes, 0));
    assert_eq!(Ok((0xefff, 9)), read_u16(&bytes, 7));
    assert_eq!(Ok((0x0123_4567, 4)), read_u32(&bytes, 0));
    assert_eq!(Ok((0xabcd_efff, 9)), read_u32(&bytes, 5));
    assert_eq!(Ok((0x0123_4567_89ab_cdef, 8)), read_u64(&bytes, 0));
    assert_eq!(Ok((0x2345_6789_abcd_efff, 9)), read_u64(&bytes, 1));
    assert_eq!(Ok((u64::MAX, 8)), read_u64(&[0xff; 8], 0));
}

#[test]
fn numbers_do_not_reach_beyond_the_stream() {
    let bytes = [0u8; 8];

    assert_eq!(Err(DecodeError::UnexpectedEnd), read_u8(&bytes, 8));
    assert_eq!(Err(DecodeError::UnexpectedEnd), read_u8(&bytes, usize::MAX));
    assert_eq!(Err(DecodeError::UnexpectedEnd), read_u16(&bytes, 7));
    assert_eq!(Err(DecodeError::UnexpectedEnd), read_u16(&bytes, usize::MAX));
    assert_eq!(Err(DecodeError::UnexpectedEnd), read_u32(&bytes, 5));
    assert_eq!(Err(DecodeError::UnexpectedEnd), read_u32(&bytes, 9));
    assert_eq!(Err(DecodeError::UnexpectedEnd), read_u64(&bytes, 1));
    assert_eq!(Err(DecodeError::UnexpectedEnd), read_u64(&[], 0));
}

#[test]
fn reads_ids_as_utf8() {
    assert_eq!(Ok((String::from("DE"), 4)), read_string(&[0, 2, b'D', b'E', b'X'], 0));
    assert_eq!(Ok((String::new(), 2)), read_string(&[0, 0], 0));
    assert_eq!(Ok((String::from("Ö"), 5)), read_string(&[9, 0, 2, 0xc3, 0x96], 1));
    assert_eq!(Ok((String::from("€1"), 6)), read_string(&[0, 4, 0xe2, 0x82, 0xac, b'1'], 0));
}

#[test]
fn rejects_ids_that_are_no_text_or_too_long() {
    // a continuation byte without a leading byte
    assert_eq!(Err(DecodeError::InvalidText), read_string(&[0, 1, 0x96], 0));
    // a leading byte cut off from its continuation byte
    assert_eq!(Err(DecodeError::InvalidText), read_string(&[0, 1, 0xc3, 0x96], 0));
    // an overlong encoding of '/'
    assert_eq!(Err(DecodeError::InvalidText), read_string(&[0, 2, 0xc0, 0xaf], 0));
    // a surrogate
    assert_eq!(Err(DecodeError::InvalidText), read_string(&[0, 3, 0xed, 0xa0, 0x80], 0));
    assert_eq!(Err(DecodeError::LengthExceedsInput), read_string(&[0, 3, b'D', b'E'], 0));
    assert_eq!(Err(DecodeError::LengthExceedsInput), read_string(&[0xff, 0xff], 0));
    assert_eq!(Err(DecodeError::UnexpectedEnd), read_string(&[0], 0));
}

#[test]
fn reads_rings_of_points() {
    let bytes = ring(&[(1, 2), (0x1234, 0xfffe), (65535, 0)]);

    assert_eq!(
        Ok((vec![Point { x: 1, y: 2 }, Point { x: 0x1234, y: 0xfffe }, Point { x: 65535, y: 0 }], 16)),
        read_ring(&bytes, 0)
    );
    assert_eq!(Ok((vec![], 4)), read_ring(&[0, 0, 0, 0], 0));
}

#[test]
fn rejects_rings_that_announce_more_points_than_the_stream_holds() {
    let mut bytes = ring(&[(1, 2), (3, 4)]);
    bytes.pop();

    assert_eq!(Err(DecodeError::LengthExceedsInput), read_ring(&bytes, 0));
    assert_eq!(Err(DecodeError::LengthExceedsInput), read_ring(&[0xff, 0xff, 0xff, 0xff], 0));
    assert_eq!(Err(DecodeError::LengthExceedsInput), read_ring(&[0x40, 0, 0, 0, 1, 2, 3, 4], 0));
    assert_eq!(Err(DecodeError::UnexpectedEnd), read_ring(&[0, 0, 0], 0));
}

#[test]
fn reads_the_rings_of_a_shape() {
    let bytes = rings(&[ring(&[(1, 2)]), ring(&[]), ring(&[(3, 4), (5, 6)])]);

    assert_eq!(
        Ok((
            vec![
                vec![Point { x: 1, y: 2 }],
                vec![],
                vec![Point { x: 3, y: 4 }, Point { x: 5, y: 6 }]
            ],
            bytes.len()
        )),
        read_polygons(&bytes, 0)
    );
    assert_eq!(Ok((vec![], 1)), read_polygons(&[0], 0));
    // three rings need twelve bytes at least
    assert_eq!(Err(DecodeError::LengthExceedsInput), read_polygons(&[3, 0, 0, 0, 0, 0, 0, 0, 0], 0));
    assert_eq!(Err(DecodeError::LengthExceedsInput), read_polygons(&[2, 0, 0, 0, 0, 0, 0, 0], 0));
    // the second ring ends in the number of its points
    assert_eq!(
        Err(DecodeError::UnexpectedEnd),
        read_polygons(&[2, 0, 0, 0, 1, 9, 9, 9, 9, 0, 0, 0], 0)
    );
    assert_eq!(Err(DecodeError::UnexpectedEnd), read_polygons(&[], 0));
}

#[test]
fn reads_boundary_entries() {
    let bytes = area("DE", &[ring(&[(1, 2)])], &[ring(&[(3, 4)]), ring(&[])]);

    assert_eq!(
        Ok((
            (
                String::from("DE"),
                Multipolygon {
                    outer: vec![vec![Point { x: 1, y: 2 }]],
                    inner: vec![vec![Point { x: 3, y: 4 }], vec![]]
                }
            ),
            bytes.len()
        )),
        read_areas(&bytes, 0)
    );
    // the holes announce more rings than follow
    assert_eq!(Err(DecodeError::LengthExceedsInput), read_areas(&bytes[..bytes.len() - 5], 0));
    // the entry ends behind its id
    assert_eq!(Err(DecodeError::UnexpectedEnd), read_areas(&bytes[..4], 0));
}

#[test]
fn reads_cells() {
    let bytes = cell(&["A", "B"], &[area("C", &[ring(&[(1, 2)])], &[])]);

    assert_eq!(
        Ok((
            Cell {
                containing_ids: vec![String::from("A"), String::from("B")],
                intersecting_areas: vec![(
                    String::from("C"),
                    Multipolygon { outer: vec![vec![Point { x: 1, y: 2 }]], inner: vec![] }
                )],
            },
            bytes.len()
        )),
        read_cell(&bytes, 0)
    );
    assert_eq!(
        Ok((Cell { containing_ids: vec![], intersecting_areas: vec![] }, 3)),
        read_cell(&[7, 0, 0], 1)
    );
    // two ids need four bytes at least
    assert_eq!(Err(DecodeError::LengthExceedsInput), read_cell(&[2, 0, 0, 0], 0));
    // two boundary entries need eight bytes at least
    assert_eq!(Err(DecodeError::LengthExceedsInput), read_cell(&[0, 2, 0, 0, 0, 0, 0, 0, 0], 0));
    assert_eq!(Err(DecodeError::UnexpectedEnd), read_cell(&[0], 0));
    assert_eq!(Err(DecodeError::InvalidText), read_cell(&[1, 0, 1, 0xff, 0], 0));
}

#[test]
fn reads_size_records() {
    let bytes = sizes(&[("A", 10.0), ("B", -0.0)]);

    assert_eq!(
        Ok((vec![(String::from("A"), 10.0f64.to_bits()), (String::from("B"), 1 << 63)], bytes.len())),
        read_sizes(&bytes, 0)
    );
    assert_eq!(Ok(((String::from("A"), 0x4024_0000_0000_0000), 15)), read_size(&bytes, 4));
    assert_eq!(Err(DecodeError::UnexpectedEnd), read_size(&bytes[..14], 4));
    // the table announces one record more than follows
    let mut short = sizes(&[("A", 10.0), ("B", -0.0)]);
    short[3] = 3;
    assert_eq!(Err(DecodeError::LengthExceedsInput), read_sizes(&short, 0));
    short.extend_from_slice(&[0; 9]);
    assert_eq!(Err(DecodeError::UnexpectedEnd), read_sizes(&short, 0));
}

#[test]
fn reads_the_raster() {
    let bytes = raster(2, &[cell(&["A"], &[]), cell(&["B"], &[]), cell(&[], &[]), cell(&["C"], &[])]);

    let ((width, cells), end) = read_raster(&bytes, 0).unwrap();

    assert_eq!(2, width);
    assert_eq!(bytes.len(), end);
    assert_eq!(4, cells.len());
    assert_eq!(vec![String::from("B")], cells[1].containing_ids);
    assert!(cells[2].containing_ids.is_empty());
}

#[test]
fn reads_a_dataset() {
    let boundaries = CountryBoundaries::from_reader(&sample()).unwrap();

    assert_eq!(2, boundaries.raster_width());
    assert_eq!(1, boundaries.raster_height());
    // ordered by size; the shape of Ö covers the south west of the western cell
    assert_eq!(vec!["Ö", "W", "A"], boundaries.ids(at(-80 * DEGREE, -170 * DEGREE)));
    assert_eq!(vec!["W", "A"], boundaries.ids(at(80 * DEGREE, -170 * DEGREE)));
    assert_eq!(vec!["E", "A"], boundaries.ids(at(0, 10 * DEGREE)));
    assert!(boundaries.is_in(at(-80 * DEGREE, -170 * DEGREE), "Ö"));
    // x 10000 to 20000 and y 10000 to 20000 is a hole
    assert!(!boundaries.is_in(at(-50 * DEGREE, -140 * DEGREE), "Ö"));
    // x 50000 to 60000 and y 50000 to 60000 is a second outer ring
    assert!(boundaries.is_in(at(60 * DEGREE, -30 * DEGREE), "Ö"));
    let world = BoundingBox::new(-90 * DEGREE, -180 * DEGREE, 90 * DEGREE, 179 * DEGREE).unwrap();
    assert_eq!(vec!["A"], boundaries.containing_ids(world));
    assert_eq!(vec!["W", "A", "Ö", "E"], boundaries.intersecting_ids(world));
}

#[test]
fn free_function_and_method_read_the_same() {
    let bytes = sample();
    let by_function = from_reader(&bytes).unwrap();
    let by_method = CountryBoundaries::from_reader(bytes.as_slice()).unwrap();
    let position = at(-80 * DEGREE, -170 * DEGREE);

    assert_eq!(by_function.ids(position), by_method.ids(position));
}

#[test]
fn ignores_what_follows_the_dataset() {
    let mut bytes = sample();
    bytes.extend_from_slice(&[0xff, 0, 1, 2, 3]);

    let boundaries = from_reader(&bytes).unwrap();

    assert_eq!(vec!["Ö", "W", "A"], boundaries.ids(at(-80 * DEGREE, -170 * DEGREE)));
}

#[test]
fn rejects_every_truncated_dataset() {
    let bytes = sample();

    for keep in 0..bytes.len() {
        assert!(from_reader(&bytes[..keep]).is_err(), "{} of {} bytes", keep, bytes.len());
    }
    assert!(from_reader(&bytes).is_ok());
}

#[test]
fn rejects_a_stream_that_ends_in_a_count() {
    let bytes = dataset(2, 1, &[cell(&["A"], &[])], &[]);

    assert_eq!(Some(DecodeError::UnexpectedEnd), fault(&[]));
    assert_eq!(Some(DecodeError::UnexpectedEnd), fault(&bytes[..1]));
    // in the width, in the number of cells
    assert_eq!(Some(DecodeError::UnexpectedEnd), fault(&bytes[..4]));
    assert_eq!(Some(DecodeError::UnexpectedEnd), fault(&bytes[..9]));
    // in the number of size records
    assert_eq!(Some(DecodeError::UnexpectedEnd), fault(&bytes[..bytes.len() - 1]));
}

#[test]
fn rejects_counts_that_announce_more_than_the_stream_holds() {
    // a million cells in six bytes
    let mut bytes = 2u16.to_be_bytes().to_vec();
    bytes.extend_from_slice(&1000u32.to_be_bytes());
    bytes.extend_from_slice(&1_000_000u32.to_be_bytes());
    bytes.extend_from_slice(&[0; 6]);
    assert_eq!(Some(DecodeError::LengthExceedsInput), fault(&bytes));

    // the number of cells is larger than any stream
    let mut bytes = 2u16.to_be_bytes().to_vec();
    bytes.extend_from_slice(&1u32.to_be_bytes());
    bytes.extend_from_slice(&u32::MAX.to_be_bytes());
    assert_eq!(Some(DecodeError::LengthExceedsInput), fault(&bytes));

    // 255 ids in a cell that is alone in the stream
    let mut bytes = dataset(2, 1, &[cell(&["A"], &[])], &[]);
    bytes[10] = 255;
    assert_eq!(Some(DecodeError::LengthExceedsInput), fault(&bytes));

    // a size table of 100 records without records
    let mut bytes = dataset(2, 1, &[cell(&["A"], &[])], &[]);
    let last = bytes.len() - 1;
    bytes[last] = 100;
    assert_eq!(Some(DecodeError::LengthExceedsInput), fault(&bytes));
}

#[test]
fn rejects_unknown_versions() {
    for version in [0, 1, 3, 0x0200, u16::MAX] {
        let bytes = dataset(version, 1, &[cell(&["A"], &[])], &[]);
        assert_eq!(Some(DecodeError::UnsupportedVersion), fault(&bytes));
    }
    // the version is looked at before anything else
    assert_eq!(Some(DecodeError::UnsupportedVersion), fault(&[0, 1]));
}

#[test]
fn rejects_rasters_without_whole_rows() {
    let one = cell(&["A"], &[]);

    assert_eq!(Some(DecodeError::InvalidRaster), fault(&dataset(2, 0, &[one.clone()], &[])));
    assert_eq!(Some(DecodeError::InvalidRaster), fault(&dataset(2, 1, &[], &[])));
    assert_eq!(Some(DecodeError::InvalidRaster), fault(&dataset(2, 0, &[], &[])));
    assert_eq!(
        Some(DecodeError::InvalidRaster),
        fault(&dataset(2, 2, &[one.clone(), one.clone(), one.clone()], &[]))
    );
    assert!(from_reader(&dataset(2, 3, &[one.clone(), one.clone(), one.clone()], &[])).is_ok());
}

#[test]
fn rejects_ids_that_are_no_text_anywhere_in_the_dataset() {
    let mut in_cell = dataset(2, 1, &[cell(&["A"], &[])], &[("B", 1.0)]);
    in_cell[13] = 0x80;
    assert_eq!(Some(DecodeError::InvalidText), fault(&in_cell));

    let mut in_sizes = dataset(2, 1, &[cell(&["A"], &[])], &[("B", 1.0)]);
    let place = in_sizes.len() - 9;
    in_sizes[place] = 0xff;
    assert_eq!(Some(DecodeError::InvalidText), fault(&in_sizes));
}

fn units(degrees: f64) -> i32 {
    (degrees * 10_000_000.0).round() as i32
}

fn latlon(latitude: f64, longitude: f64) -> LatLon {
    LatLon::new(units(latitude), units(longitude)).unwrap()
}

/// A raster of one degree to a cell, empty but for the given cells.
fn world(cells: &[(usize, usize, Vec<u8>)], records: &[(&str, f64)]) -> CountryBoundaries {
    let mut raster: Vec<Vec<u8>> = (0..360 * 180).map(|_| cell(&[], &[])).collect();
    for (x, y, bytes) in cells {
        raster[y * 360 + x] = bytes.clone();
    }
    from_reader(&dataset(2, 360, &raster, records)).unwrap()
}

#[test]
fn positions_on_cell_edges_resolve_in_a_dataset_of_one_degree_cells() {
    // south of 45.4 degrees the two cells are BA, north of it HR
    let south = |name: &str| area(name, &[ring(&[(0, 0), (0, 26214), (65535, 26214), (65535, 0)])], &[]);
    let north =
        |name: &str| area(name, &[ring(&[(0, 26214), (0, 65535), (65535, 65535), (65535, 26214)])], &[]);
    let split = cell(&[], &[south("BA"), north("HR")]);
    let boundaries = world(
        &[
            (196, 43, cell(&["HR"], &[])),
            (197, 43, cell(&["HR"], &[])),
            (196, 44, split.clone()),
            (197, 44, split),
        ],
        &[],
    );

    // in clockwise order...
    assert_eq!(vec!["HR"], boundaries.ids(latlon(45.5, 16.0)));
    assert_eq!(vec!["HR"], boundaries.ids(latlon(46.0, 16.0)));
    assert_eq!(vec!["HR"], boundaries.ids(latlon(46.0, 16.5)));
    assert_eq!(vec!["HR"], boundaries.ids(latlon(46.0, 17.0)));
    assert_eq!(vec!["HR"], boundaries.ids(latlon(45.5, 17.0)));

    assert_eq!(vec!["BA"], boundaries.ids(latlon(45.0, 17.0)));
    assert_eq!(vec!["BA"], boundaries.ids(latlon(45.0, 16.5)));
    assert_eq!(vec!["BA"], boundaries.ids(latlon(45.0, 16.0)));
}

#[test]
fn containing_ids_reach_across_the_180th_meridian_in_a_dataset() {
    let mut cells = Vec::new();
    for y in 21..=24 {
        for x in [357, 358, 359, 0, 1, 2, 3] {
            let ids: &[&str] = if x == 3 {
                &["US", "US-AK"]
            } else if x % 2 == 0 {
                &["RU-CHU", "RU"]
            } else {
                &["RU"]
            };
            cells.push((x, y, cell(ids, &[])));
        }
    }
    let boundaries = world(&cells, &[("RU", 17.0e12), ("RU-CHU", 0.7e12), ("US", 9.8e12), ("US-AK", 1.7e12)]);
    let bounds = |min_latitude: f64, min_longitude: f64, max_latitude: f64, max_longitude: f64| {
        BoundingBox::new(units(min_latitude), units(min_longitude), units(max_latitude), units(max_longitude))
            .unwrap()
    };
    let set = |ids: Vec<&'static str>| ids.into_iter().collect::<HashSet<&str>>();

    let across: HashSet<&str> =
        boundaries.containing_ids(bounds(66.0, 178.0, 68.0, -178.0)).into_iter().collect();
    assert_eq!(HashSet::from(["RU"]), across);
    let west: HashSet<&str> =
        boundaries.containing_ids(bounds(66.0, 178.0, 68.0, 178.5)).into_iter().collect();
    assert_eq!(set(vec!["RU", "RU-CHU"]), west);
    let wide: HashSet<&str> =
        boundaries.intersecting_ids(bounds(66.0, 178.0, 68.0, -176.5)).into_iter().collect();
    assert_eq!(set(vec!["RU", "RU-CHU", "US", "US-AK"]), wide);
    assert!(boundaries.containing_ids(bounds(66.0, 178.0, 68.0, -176.5)).is_empty());
    assert_eq!(vec!["RU-CHU", "RU"], boundaries.ids(latlon(67.0, 178.5)));
    assert_eq!(vec!["US-AK", "US"], boundaries.ids(latlon(67.0, -176.5)));
}
