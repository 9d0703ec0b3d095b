use country_boundaries::{BoundingBox, DecodeError, Error, LatLon};

const DEGREE: i32 = 10_000_000;

#[test]
fn latlon_keeps_what_it_was_made_of() {
    let position = LatLon::new(45 * DEGREE, -120 * DEGREE).unwrap();
    assert_eq!(45 * DEGREE, position.latitude());
    assert_eq!(-120 * DEGREE, position.longitude());
}

#[test]
fn latlon_accepts_the_poles_and_the_antimeridian() {
    assert!(LatLon::new(90 * DEGREE, 180 * DEGREE).is_ok());
    assert!(LatLon::new(-90 * DEGREE, -180 * DEGREE).is_ok());
    assert!(LatLon::new(0, 0).is_ok());
}

#[test]
fn latlon_rejects_what_is_out_of_range() {
    assert_eq!(Err(Error::LatitudeOutOfBounds), LatLon::new(90 * DEGREE + 1, 0));
    assert_eq!(Err(Error::LatitudeOutOfBounds), LatLon::new(-90 * DEGREE - 1, 0));
    assert_eq!(Err(Error::LongitudeOutOfBounds), LatLon::new(0, 180 * DEGREE + 1));
    assert_eq!(Err(Error::LongitudeOutOfBounds), LatLon::new(0, -180 * DEGREE - 1));
    // the latitude is looked at first
    assert_eq!(Err(Error::LatitudeOutOfBounds), LatLon::new(i32::MAX, i32::MIN));
}

#[test]
fn bounding_box_keeps_what_it_was_made_of() {
    let bounds = BoundingBox::new(-DEGREE, 170 * DEGREE, 2 * DEGREE, -170 * DEGREE).unwrap();
    assert_eq!(-DEGREE, bounds.min_latitude());
    assert_eq!(170 * DEGREE, bounds.min_longitude());
    assert_eq!(2 * DEGREE, bounds.max_latitude());
    assert_eq!(-170 * DEGREE, bounds.max_longitude());
}

#[test]
fn bounding_box_may_be_a_point_and_may_be_the_world() {
    assert!(BoundingBox::new(0, 0, 0, 0).is_ok());
    assert!(BoundingBox::new(-90 * DEGREE, -180 * DEGREE, 90 * DEGREE, 180 * DEGREE).is_ok());
}

#[test]
fn bounding_box_rejects_what_is_out_of_range() {
    assert_eq!(Err(Error::LatitudeOutOfBounds), BoundingBox::new(-90 * DEGREE - 1, 0, 0, 0));
    assert_eq!(Err(Error::LatitudeOutOfBounds), BoundingBox::new(0, 0, 90 * DEGREE + 1, 0));
    assert_eq!(Err(Error::LongitudeOutOfBounds), BoundingBox::new(0, -180 * DEGREE - 1, 0, 0));
    assert_eq!(Err(Error::LongitudeOutOfBounds), BoundingBox::new(0, 0, 0, 180 * DEGREE + 1));
    assert_eq!(Err(Error::MinLatitudeAboveMaxLatitude), BoundingBox::new(1, 0, 0, 0));
    // latitudes first, then longitudes, then the order of the latitudes
    assert_eq!(Err(Error::LatitudeOutOfBounds), BoundingBox::new(0, i32::MAX, i32::MAX, 0));
    assert_eq!(Err(Error::LongitudeOutOfBounds), BoundingBox::new(1, i32::MAX, 0, 0));
}

#[test]
fn every_fault_has_its_own_message() {
    let messages = [
        Error::LatitudeOutOfBounds.message(),
        Error::LongitudeOutOfBounds.message(),
        Error::MinLatitudeAboveMaxLatitude.message(),
        DecodeError::UnexpectedEnd.message(),
        DecodeError::UnsupportedVersion.message(),
        DecodeError::LengthExceedsInput.message(),
        DecodeError::InvalidText.message(),
        DecodeError::InvalidRaster.message(),
    ];
    for (i, message) in messages.iter().enumerate() {
        assert!(!message.is_empty());
        for other in &messages[..i] {
            assert_ne!(other, message);
        }
    }
    assert_eq!("latitude must be between -90 and 90 degrees", Error::LatitudeOutOfBounds.message());
}
