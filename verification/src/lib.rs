//! Offline reverse geocoding over a raster of pre-resolved cells.
//!
//! A [`CountryBoundaries`] index answers in which named regions a position
//! or a bounding box lies. It is read once from a stream of bytes and never
//! changes afterwards.
//!
//! Positions are fixed-point numbers, ten-millionths of a degree, and areas
//! are the bit patterns of doubles, so that every step from the coordinate
//! to the cell, from the cell to the polygon test and from the regions found
//! to their order is exact integer arithmetic.
//!
//! - [`latlon`], [`bbox`]: positions and bounding boxes
//! - [`grid`]: from coordinates to columns, rows and points inside a cell
//! - [`point`], [`multipolygon`], [`cell`]: what the raster is made of
//! - [`walk`]: the cells that a bounding box touches
//! - [`ids`], [`order`]: lists of region ids and their order by area
//! - [`boundaries`]: the index and its queries
//! - [`format`], [`deserializer`]: the byte format and its reader
//! - [`prefix`], [`encoding`]: what holds of cut and of written streams

pub mod bbox;
pub mod boundaries;
pub mod cell;
pub mod deserializer;
pub mod encoding;
pub mod error;
pub mod format;
pub mod grid;
pub mod ids;
pub mod latlon;
pub mod multipolygon;
pub mod order;
pub mod point;
pub mod prefix;
pub mod walk;

pub use crate::bbox::BoundingBox;
pub use crate::boundaries::CountryBoundaries;
pub use crate::cell::Cell;
pub use crate::error::{DecodeError, Error};
pub use crate::latlon::LatLon;
pub use crate::multipolygon::Multipolygon;
pub use crate::point::Point;
