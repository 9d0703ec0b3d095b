use vstd::prelude::*;

verus! {

/// What [`Error::message`] says of a latitude beyond a pole.
pub const LATITUDE_OUT_OF_BOUNDS: &'static str = "latitude must be between -90 and 90 degrees";

/// What [`Error::message`] says of a longitude beyond the antimeridian.
pub const LONGITUDE_OUT_OF_BOUNDS: &'static str = "longitude must be between -180 and 180 degrees";

/// What [`Error::message`] says of a box that is upside down.
pub const MIN_LATITUDE_ABOVE_MAX_LATITUDE: &'static str = "min latitude is greater than max latitude";

/// What [`DecodeError::message`] says of a stream that ends inside a field.
pub const UNEXPECTED_END: &'static str = "the data ends unexpectedly";

/// What [`DecodeError::message`] says of an unknown format version.
pub const UNSUPPORTED_VERSION: &'static str = "the data is of an unsupported format version";

/// What [`DecodeError::message`] says of a count that the stream cannot
/// hold.
pub const LENGTH_EXCEEDS_INPUT: &'static str = "a length in the data exceeds the remaining data";

/// What [`DecodeError::message`] says of an id that is no text.
pub const INVALID_TEXT: &'static str = "an id in the data is not valid UTF-8";

/// What [`DecodeError::message`] says of a raster without whole rows.
pub const INVALID_RASTER: &'static str = "the raster in the data is empty or has incomplete rows";

/// Why a position or a bounding box was not accepted.
#[derive(Clone, Copy, Debug, PartialEq, Eq, Structural)]
pub enum Error {
    /// A latitude lies beyond one of the poles.
    LatitudeOutOfBounds,
    /// A longitude lies beyond the antimeridian.
    LongitudeOutOfBounds,
    /// The southern edge of a bounding box lies north of its northern edge.
    MinLatitudeAboveMaxLatitude,
}

impl Error {
    /// The sentence that names the fault.
    pub open spec fn text(self) -> &'static str {
        match self {
            Error::LatitudeOutOfBounds => LATITUDE_OUT_OF_BOUNDS,
            Error::LongitudeOutOfBounds => LONGITUDE_OUT_OF_BOUNDS,
            Error::MinLatitudeAboveMaxLatitude => MIN_LATITUDE_ABOVE_MAX_LATITUDE,
        }
    }

    /// A sentence that names the fault.
    pub fn message(&self) -> (text: &'static str)
        ensures
            text == self.text(),
    {
        match self {
            Error::LatitudeOutOfBounds => LATITUDE_OUT_OF_BOUNDS,
            Error::LongitudeOutOfBounds => LONGITUDE_OUT_OF_BOUNDS,
            Error::MinLatitudeAboveMaxLatitude => MIN_LATITUDE_ABOVE_MAX_LATITUDE,
        }
    }
}

/// Why a byte stream was not accepted as a boundaries dataset.
#[derive(Clone, Copy, Debug, PartialEq, Eq, Structural)]
pub enum DecodeError {
    /// The stream ends inside a field.
    UnexpectedEnd,
    /// The stream is of a format version that this reader does not know.
    UnsupportedVersion,
    /// A count or a length announces more than the rest of the stream can
    /// hold.
    LengthExceedsInput,
    /// An id is not valid UTF-8.
    InvalidText,
    /// The raster has no cells, or its cells do not fill whole rows.
    InvalidRaster,
}

impl DecodeError {
    /// The sentence that names the fault.
    pub open spec fn text(self) -> &'static str {
        match self {
            DecodeError::UnexpectedEnd => UNEXPECTED_END,
            DecodeError::UnsupportedVersion => UNSUPPORTED_VERSION,
            DecodeError::LengthExceedsInput => LENGTH_EXCEEDS_INPUT,
            DecodeError::InvalidText => INVALID_TEXT,
            DecodeError::InvalidRaster => INVALID_RASTER,
        }
    }

    /// A sentence that names the fault.
    pub fn message(&self) -> (text: &'static str)
        ensures
            text == self.text(),
    {
        match self {
            DecodeError::UnexpectedEnd => UNEXPECTED_END,
            DecodeError::UnsupportedVersion => UNSUPPORTED_VERSION,
            DecodeError::LengthExceedsInput => LENGTH_EXCEEDS_INPUT,
            DecodeError::InvalidText => INVALID_TEXT,
            DecodeError::InvalidRaster => INVALID_RASTER,
        }
    }
}

} // verus!
