use crate::error::Error;
use crate::grid::{latitude_in_range, longitude_in_range, MAX_LATITUDE, MAX_LONGITUDE};
use vstd::prelude::*;

verus! {

/// A position on earth, in ten-millionths of a degree.
///
/// The latitude lies in `[-90, 90]` degrees and the longitude in
/// `[-180, 180]` degrees; [`LatLon::new`] accepts nothing else.
#[derive(Clone, Copy, Debug, PartialEq, Eq)]
pub struct LatLon {
    latitude: i32,
    longitude: i32,
}

impl LatLon {
    #[verifier::type_invariant]
    spec fn in_range(self) -> bool {
        latitude_in_range(self.latitude as int) && longitude_in_range(self.longitude as int)
    }

    /// The latitude, in ten-millionths of a degree.
    pub closed spec fn lat(self) -> int {
        self.latitude as int
    }

    /// The longitude, in ten-millionths of a degree.
    pub closed spec fn lon(self) -> int {
        self.longitude as int
    }

    /// The position at the given latitude and longitude, both in
    /// ten-millionths of a degree. The latitude is looked at first.
    pub fn new(latitude: i32, longitude: i32) -> (position: Result<LatLon, Error>)
        ensures
            !latitude_in_range(latitude as int) ==> position == Err::<LatLon, Error>(
                Error::LatitudeOutOfBounds,
            ),
            latitude_in_range(latitude as int) && !longitude_in_range(longitude as int)
                ==> position == Err::<LatLon, Error>(Error::LongitudeOutOfBounds),
            latitude_in_range(latitude as int) && longitude_in_range(longitude as int) ==> {
                &&& position is Ok
                &&& position->Ok_0.lat() == latitude
                &&& position->Ok_0.lon() == longitude
            },
    {
        if latitude < -MAX_LATITUDE || latitude > MAX_LATITUDE {
            Err(Error::LatitudeOutOfBounds)
        } else if longitude < -MAX_LONGITUDE || longitude > MAX_LONGITUDE {
            Err(Error::LongitudeOutOfBounds)
        } else {
            Ok(LatLon { latitude, longitude })
        }
    }

    /// The latitude, in ten-millionths of a degree.
    pub fn latitude(&self) -> (latitude: i32)
        ensures
            latitude == self.lat(),
            latitude_in_range(latitude as int),
    {
        proof {
            use_type_invariant(self);
        }
        self.latitude
    }

    /// The longitude, in ten-millionths of a degree.
    pub fn longitude(&self) -> (longitude: i32)
        ensures
            longitude == self.lon(),
            longitude_in_range(longitude as int),
    {
        proof {
            use_type_invariant(self);
        }
        self.longitude
    }
}

} // verus!
