use crate::error::Error;
use crate::grid::{latitude_in_range, longitude_in_range, MAX_LATITUDE, MAX_LONGITUDE};
use vstd::prelude::*;

verus! {

/// A rectangle on earth, in ten-millionths of a degree.
///
/// All four edges lie in the range of their kind and the southern edge is
/// not north of the northern one. The western edge may lie east of the
/// eastern one: such a box reaches across the antimeridian.
#[derive(Clone, Copy, Debug, PartialEq, Eq)]
pub struct BoundingBox {
    min_latitude: i32,
    min_longitude: i32,
    max_latitude: i32,
    max_longitude: i32,
}

/// Whether four edges make a bounding box.
pub open spec fn edges_in_range(
    min_latitude: int,
    min_longitude: int,
    max_latitude: int,
    max_longitude: int,
) -> bool {
    &&& latitude_in_range(min_latitude)
    &&& latitude_in_range(max_latitude)
    &&& longitude_in_range(min_longitude)
    &&& longitude_in_range(max_longitude)
    &&& min_latitude <= max_latitude
}

impl BoundingBox {
    #[verifier::type_invariant]
    spec fn in_range(self) -> bool {
        edges_in_range(
            self.min_latitude as int,
            self.min_longitude as int,
            self.max_latitude as int,
            self.max_longitude as int,
        )
    }

    /// The southern edge.
    pub closed spec fn south(self) -> int {
        self.min_latitude as int
    }

    /// The western edge.
    pub closed spec fn west(self) -> int {
        self.min_longitude as int
    }

    /// The northern edge.
    pub closed spec fn north(self) -> int {
        self.max_latitude as int
    }

    /// The eastern edge.
    pub closed spec fn east(self) -> int {
        self.max_longitude as int
    }

    /// The box with the given edges, all in ten-millionths of a degree.
    ///
    /// The latitudes are looked at first, then the longitudes, then the
    /// order of the latitudes.
    pub fn new(min_latitude: i32, min_longitude: i32, max_latitude: i32, max_longitude: i32) -> (bounds:
        Result<BoundingBox, Error>)
        ensures
            !latitude_in_range(min_latitude as int) || !latitude_in_range(max_latitude as int)
                ==> bounds == Err::<BoundingBox, Error>(Error::LatitudeOutOfBounds),
            latitude_in_range(min_latitude as int) && latitude_in_range(max_latitude as int) && (
            !longitude_in_range(min_longitude as int) || !longitude_in_range(max_longitude as int))
                ==> bounds == Err::<BoundingBox, Error>(Error::LongitudeOutOfBounds),
            latitude_in_range(min_latitude as int) && latitude_in_range(max_latitude as int)
                && longitude_in_range(min_longitude as int) && longitude_in_range(
                max_longitude as int,
            ) && min_latitude > max_latitude ==> bounds == Err::<BoundingBox, Error>(
                Error::MinLatitudeAboveMaxLatitude,
            ),
            edges_in_range(
                min_latitude as int,
                min_longitude as int,
                max_latitude as int,
                max_longitude as int,
            ) ==> {
                &&& bounds is Ok
                &&& bounds->Ok_0.south() == min_latitude
                &&& bounds->Ok_0.west() == min_longitude
                &&& bounds->Ok_0.north() == max_latitude
                &&& bounds->Ok_0.east() == max_longitude
            },
    {
        if min_latitude < -MAX_LATITUDE || min_latitude > MAX_LATITUDE || max_latitude
            < -MAX_LATITUDE || max_latitude > MAX_LATITUDE {
            Err(Error::LatitudeOutOfBounds)
        } else if min_longitude < -MAX_LONGITUDE || min_longitude > MAX_LONGITUDE || max_longitude
            < -MAX_LONGITUDE || max_longitude > MAX_LONGITUDE {
            Err(Error::LongitudeOutOfBounds)
        } else if min_latitude > max_latitude {
            Err(Error::MinLatitudeAboveMaxLatitude)
        } else {
            Ok(BoundingBox { min_latitude, min_longitude, max_latitude, max_longitude })
        }
    }

    /// The southern edge.
    pub fn min_latitude(&self) -> (latitude: i32)
        ensures
            latitude == self.south(),
            latitude_in_range(latitude as int),
            latitude <= self.north(),
    {
        proof {
            use_type_invariant(self);
        }
        self.min_latitude
    }

    /// The western edge.
    pub fn min_longitude(&self) -> (longitude: i32)
        ensures
            longitude == self.west(),
            longitude_in_range(longitude as int),
    {
        proof {
            use_type_invariant(self);
        }
        self.min_longitude
    }

    /// The northern edge.
    pub fn max_latitude(&self) -> (latitude: i32)
        ensures
            latitude == self.north(),
            latitude_in_range(latitude as int),
            self.south() <= latitude,
    {
        proof {
            use_type_invariant(self);
        }
        self.max_latitude
    }

    /// The eastern edge.
    pub fn max_longitude(&self) -> (longitude: i32)
        ensures
            longitude == self.east(),
            longitude_in_range(longitude as int),
    {
        proof {
            use_type_invariant(self);
        }
        self.max_longitude
    }
}

} // verus!
