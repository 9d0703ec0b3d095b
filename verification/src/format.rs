use crate::boundaries::{raster_fits, BoundariesView};
use crate::cell::CellView;
use crate::error::DecodeError;
use crate::multipolygon::MultipolygonView;
use crate::order::sizes_map;
use crate::point::Point;
use vstd::prelude::*;
use vstd::utf8::{decode_utf8, valid_utf8};

verus! {

/// The format version that this crate reads.
pub const FORMAT_VERSION: u16 = 2;

/// Fewest bytes that an id takes: its length.
pub const MIN_ID_BYTES: usize = 2;

/// Bytes that a vertex takes.
pub const POINT_BYTES: usize = 4;

/// Fewest bytes that a ring takes: its number of vertices.
pub const MIN_RING_BYTES: usize = 4;

/// Fewest bytes that a boundary entry takes: an id and two numbers of rings.
pub const MIN_AREA_BYTES: usize = 4;

/// Fewest bytes that a cell takes: its two counts.
pub const MIN_CELL_BYTES: usize = 2;

/// Fewest bytes that a size record takes: an id and an area.
pub const MIN_RECORD_BYTES: usize = 10;

/// What reading one item at a place in a stream gives: the item and the
/// place behind it, or the reason why there is none.
pub type Taken<T> = Result<(T, int), DecodeError>;

/// A way to read one item at a place in a stream.
pub type Take<T> = spec_fn(Seq<u8>, int) -> Taken<T>;

/// The number that two bytes spell, most significant byte first.
pub open spec fn u16_at(bytes: Seq<u8>, at: int) -> int {
    bytes[at] * 0x100 + bytes[at + 1]
}

/// The number that four bytes spell, most significant byte first.
pub open spec fn u32_at(bytes: Seq<u8>, at: int) -> int {
    u16_at(bytes, at) * 0x1_0000 + u16_at(bytes, at + 2)
}

/// The number that eight bytes spell, most significant byte first.
pub open spec fn u64_at(bytes: Seq<u8>, at: int) -> int {
    u32_at(bytes, at) * 0x1_0000_0000 + u32_at(bytes, at + 4)
}

/// Whether `size` bytes are left at place `at`.
pub open spec fn has_bytes(bytes: Seq<u8>, at: int, size: int) -> bool {
    0 <= at && at + size <= bytes.len()
}

/// One byte.
pub open spec fn take_u8(bytes: Seq<u8>, at: int) -> Taken<u8> {
    if has_bytes(bytes, at, 1) {
        Ok((bytes[at], at + 1))
    } else {
        Err(DecodeError::UnexpectedEnd)
    }
}

/// A number of two bytes.
pub open spec fn take_u16(bytes: Seq<u8>, at: int) -> Taken<u16> {
    if has_bytes(bytes, at, 2) {
        Ok((u16_at(bytes, at) as u16, at + 2))
    } else {
        Err(DecodeError::UnexpectedEnd)
    }
}

/// A number of four bytes.
pub open spec fn take_u32(bytes: Seq<u8>, at: int) -> Taken<u32> {
    if has_bytes(bytes, at, 4) {
        Ok((u32_at(bytes, at) as u32, at + 4))
    } else {
        Err(DecodeError::UnexpectedEnd)
    }
}

/// A number of eight bytes.
pub open spec fn take_u64(bytes: Seq<u8>, at: int) -> Taken<u64> {
    if has_bytes(bytes, at, 8) {
        Ok((u64_at(bytes, at) as u64, at + 8))
    } else {
        Err(DecodeError::UnexpectedEnd)
    }
}

/// `count` items one behind the other.
pub open spec fn take_many<T>(item: Take<T>, bytes: Seq<u8>, at: int, count: nat) -> Taken<Seq<T>>
    decreases count,
{
    if count == 0 {
        Ok((Seq::empty(), at))
    } else {
        match take_many(item, bytes, at, (count - 1) as nat) {
            Err(fault) => Err(fault),
            Ok((items, next)) => match item(bytes, next) {
                Err(fault) => Err(fault),
                Ok((one, end)) => Ok((items.push(one), end)),
            },
        }
    }
}

/// `count` items one behind the other, if the rest of the stream is long
/// enough for `count` items of the smallest kind.
pub open spec fn take_counted<T>(
    item: Take<T>,
    least: int,
    bytes: Seq<u8>,
    at: int,
    count: nat,
) -> Taken<Seq<T>> {
    if count * least > bytes.len() - at {
        Err(DecodeError::LengthExceedsInput)
    } else {
        take_many(item, bytes, at, count)
    }
}

/// An id: the number of its bytes in two bytes, then its text in UTF-8.
pub open spec fn take_id(bytes: Seq<u8>, at: int) -> Taken<Seq<char>> {
    match take_u16(bytes, at) {
        Err(fault) => Err(fault),
        Ok((length, start)) => if length > bytes.len() - start {
            Err(DecodeError::LengthExceedsInput)
        } else if !valid_utf8(bytes.subrange(start, start + length)) {
            Err(DecodeError::InvalidText)
        } else {
            Ok((decode_utf8(bytes.subrange(start, start + length)), start + length))
        },
    }
}

/// A vertex: `x`, then `y`, two bytes each.
pub open spec fn point_at(bytes: Seq<u8>, at: int) -> Point {
    Point { x: u16_at(bytes, at) as u16, y: u16_at(bytes, at + 2) as u16 }
}

/// A ring: the number of its vertices in four bytes, then the vertices.
pub open spec fn take_ring(bytes: Seq<u8>, at: int) -> Taken<Seq<Point>> {
    match take_u32(bytes, at) {
        Err(fault) => Err(fault),
        Ok((count, start)) => if count * POINT_BYTES > bytes.len() - start {
            Err(DecodeError::LengthExceedsInput)
        } else {
            Ok(
                (
                    Seq::new(count as nat, |i: int| point_at(bytes, start + i * POINT_BYTES)),
                    start + count * POINT_BYTES,
                ),
            )
        },
    }
}

/// How to read a ring.
pub open spec fn ring() -> Take<Seq<Point>> {
    |bytes: Seq<u8>, at: int| take_ring(bytes, at)
}

/// Rings: their number in one byte, then the rings.
pub open spec fn take_rings(bytes: Seq<u8>, at: int) -> Taken<Seq<Seq<Point>>> {
    match take_u8(bytes, at) {
        Err(fault) => Err(fault),
        Ok((count, start)) => take_counted(ring(), MIN_RING_BYTES as int, bytes, start, count as nat),
    }
}

/// A boundary entry: the id of the region, its outer rings, its holes.
pub open spec fn take_area(bytes: Seq<u8>, at: int) -> Taken<(Seq<char>, MultipolygonView)> {
    match take_id(bytes, at) {
        Err(fault) => Err(fault),
        Ok((id, outer_at)) => match take_rings(bytes, outer_at) {
            Err(fault) => Err(fault),
            Ok((outer, inner_at)) => match take_rings(bytes, inner_at) {
                Err(fault) => Err(fault),
                Ok((inner, end)) => Ok(((id, MultipolygonView { outer, inner }), end)),
            },
        },
    }
}

/// How to read an id.
pub open spec fn id() -> Take<Seq<char>> {
    |bytes: Seq<u8>, at: int| take_id(bytes, at)
}

/// How to read a boundary entry.
pub open spec fn area() -> Take<(Seq<char>, MultipolygonView)> {
    |bytes: Seq<u8>, at: int| take_area(bytes, at)
}

/// A cell: the number of regions that cover it in one byte and their ids,
/// then the number of its boundary entries in one byte and the entries.
pub open spec fn take_cell(bytes: Seq<u8>, at: int) -> Taken<CellView> {
    match take_u8(bytes, at) {
        Err(fault) => Err(fault),
        Ok((id_count, ids_at)) => match take_counted(
            id(),
            MIN_ID_BYTES as int,
            bytes,
            ids_at,
            id_count as nat,
        ) {
            Err(fault) => Err(fault),
            Ok((containing_ids, count_at)) => match take_u8(bytes, count_at) {
                Err(fault) => Err(fault),
                Ok((area_count, areas_at)) => match take_counted(
                    area(),
                    MIN_AREA_BYTES as int,
                    bytes,
                    areas_at,
                    area_count as nat,
                ) {
                    Err(fault) => Err(fault),
                    Ok((intersecting_areas, end)) => Ok(
                        (CellView { containing_ids, intersecting_areas }, end),
                    ),
                },
            },
        },
    }
}

/// How to read a cell.
pub open spec fn cell() -> Take<CellView> {
    |bytes: Seq<u8>, at: int| take_cell(bytes, at)
}

/// A size record: the id of a region, then its area in eight bytes.
pub open spec fn take_record(bytes: Seq<u8>, at: int) -> Taken<(Seq<char>, u64)> {
    match take_id(bytes, at) {
        Err(fault) => Err(fault),
        Ok((id, area_at)) => match take_u64(bytes, area_at) {
            Err(fault) => Err(fault),
            Ok((area, end)) => Ok(((id, area), end)),
        },
    }
}

/// How to read a size record.
pub open spec fn record() -> Take<(Seq<char>, u64)> {
    |bytes: Seq<u8>, at: int| take_record(bytes, at)
}

/// The raster: the number of cells in a row and the number of all cells,
/// four bytes each, then the cells row by row.
pub open spec fn take_raster(bytes: Seq<u8>, at: int) -> Taken<(int, Seq<CellView>)> {
    match take_u32(bytes, at) {
        Err(fault) => Err(fault),
        Ok((width, count_at)) => match take_u32(bytes, count_at) {
            Err(fault) => Err(fault),
            Ok((count, cells_at)) => if count * MIN_CELL_BYTES > bytes.len() - cells_at {
                Err(DecodeError::LengthExceedsInput)
            } else if !raster_fits(count as int, width as int) {
                Err(DecodeError::InvalidRaster)
            } else {
                match take_many(cell(), bytes, cells_at, count as nat) {
                    Err(fault) => Err(fault),
                    Ok((cells, end)) => Ok(((width as int, cells), end)),
                }
            },
        },
    }
}

/// The size table: the number of its records in four bytes, then the
/// records.
pub open spec fn take_sizes(bytes: Seq<u8>, at: int) -> Taken<Seq<(Seq<char>, u64)>> {
    match take_u32(bytes, at) {
        Err(fault) => Err(fault),
        Ok((count, start)) => take_counted(
            record(),
            MIN_RECORD_BYTES as int,
            bytes,
            start,
            count as nat,
        ),
    }
}

/// A dataset: the format version in two bytes, the raster, the size table.
/// What follows the size table is not looked at.
pub open spec fn take_boundaries(bytes: Seq<u8>) -> Taken<BoundariesView> {
    match take_u16(bytes, 0) {
        Err(fault) => Err(fault),
        Ok((version, raster_at)) => if version != FORMAT_VERSION {
            Err(DecodeError::UnsupportedVersion)
        } else {
            match take_raster(bytes, raster_at) {
                Err(fault) => Err(fault),
                Ok(((width, raster), sizes_at)) => match take_sizes(bytes, sizes_at) {
                    Err(fault) => Err(fault),
                    Ok((records, end)) => Ok(
                        (BoundariesView { raster, width, sizes: sizes_map(records) }, end),
                    ),
                },
            }
        },
    }
}

/// The index that a stream holds, or why it holds none.
pub open spec fn decode(bytes: Seq<u8>) -> Result<BoundariesView, DecodeError> {
    match take_boundaries(bytes) {
        Err(fault) => Err(fault),
        Ok((boundaries, _)) => Ok(boundaries),
    }
}

} // verus!
