use crate::boundaries::{cells_view, raster_fits, CountryBoundaries};
use crate::cell::{areas_view, Cell, CellView};
use crate::error::DecodeError;
use crate::format::{
    area, cell, decode, has_bytes, id, point_at, record, ring, take_area, take_cell, take_id,
    take_many, take_raster, take_record, take_ring, take_rings, take_sizes, take_u16, take_u32,
    take_u64, take_u8, u16_at, Take, Taken, FORMAT_VERSION, MIN_AREA_BYTES, MIN_CELL_BYTES,
    MIN_ID_BYTES, MIN_RECORD_BYTES, MIN_RING_BYTES, POINT_BYTES,
};
use crate::ids::string_views;
use crate::multipolygon::{rings_view, Multipolygon, MultipolygonView};
use crate::order::records_view;
use crate::point::Point;
use vstd::prelude::*;
use vstd::slice::{slice_subrange, slice_to_vec};
use vstd::utf8::{decode_utf8, valid_utf8};

verus! {

/// Whether what was read is what the format says stands there.
pub open spec fn as_taken<T>(read: Result<(T, usize), DecodeError>, taken: Taken<T>) -> bool {
    match taken {
        Ok((value, end)) => read == Ok::<(T, usize), DecodeError>((value, end as usize)) && 0
            <= end <= usize::MAX,
        Err(fault) => read == Err::<(T, usize), DecodeError>(fault),
    }
}

/// Whether a place that was reached lies behind the place that reading
/// started from, and in the stream.
pub open spec fn moved_on<T>(read: Result<(T, usize), DecodeError>, at: usize, len: nat) -> bool {
    read matches Ok((_, stop)) ==> at <= stop <= len
}

/// Once an item cannot be read, no longer list of items can.
pub proof fn lemma_take_many_stays_failed<T>(
    item: Take<T>,
    bytes: Seq<u8>,
    at: int,
    done: nat,
    count: nat,
)
    requires
        done <= count,
        take_many(item, bytes, at, done) is Err,
    ensures
        take_many(item, bytes, at, count) == take_many(item, bytes, at, done),
    decreases count,
{
    if done < count {
        lemma_take_many_stays_failed(item, bytes, at, done, (count - 1) as nat);
    }
}

/// `String::from_utf8` of the standard library: gives the text that the
/// bytes encode where they are valid UTF-8, and nothing where they are
/// not.
#[verifier::external_body]
fn text_from_utf8(bytes: Vec<u8>) -> (text: Option<String>)
    ensures
        text is Some <==> valid_utf8(bytes@),
        text matches Some(decoded) ==> decoded@ == decode_utf8(bytes@),
{
    String::from_utf8(bytes).ok()
}

/// The number that the two bytes at `at` spell.
fn u16_from(bytes: &[u8], at: usize) -> (value: u16)
    requires
        has_bytes(bytes@, at as int, 2),
    ensures
        value == u16_at(bytes@, at as int),
{
    (bytes[at] as u16) * 0x100 + bytes[at + 1] as u16
}

/// Reads one byte.
pub fn read_u8(bytes: &[u8], at: usize) -> (read: Result<(u8, usize), DecodeError>)
    ensures
        as_taken(read, take_u8(bytes@, at as int)),
        moved_on(read, at, bytes@.len()),
{
    if at >= bytes.len() {
        return Err(DecodeError::UnexpectedEnd);
    }
    Ok((bytes[at], at + 1))
}

/// Reads a number of two bytes.
pub fn read_u16(bytes: &[u8], at: usize) -> (read: Result<(u16, usize), DecodeError>)
    ensures
        as_taken(read, take_u16(bytes@, at as int)),
        moved_on(read, at, bytes@.len()),
{
    if at > bytes.len() || bytes.len() - at < 2 {
        return Err(DecodeError::UnexpectedEnd);
    }
    Ok((u16_from(bytes, at), at + 2))
}

/// Reads a number of four bytes.
pub fn read_u32(bytes: &[u8], at: usize) -> (read: Result<(u32, usize), DecodeError>)
    ensures
        as_taken(read, take_u32(bytes@, at as int)),
        moved_on(read, at, bytes@.len()),
{
    if at > bytes.len() || bytes.len() - at < 4 {
        return Err(DecodeError::UnexpectedEnd);
    }
    let high: u32 = u16_from(bytes, at) as u32;
    let low: u32 = u16_from(bytes, at + 2) as u32;
    Ok((high * 0x1_0000 + low, at + 4))
}

/// Reads a number of eight bytes.
pub fn read_u64(bytes: &[u8], at: usize) -> (read: Result<(u64, usize), DecodeError>)
    ensures
        as_taken(read, take_u64(bytes@, at as int)),
        moved_on(read, at, bytes@.len()),
{
    if at > bytes.len() || bytes.len() - at < 8 {
        return Err(DecodeError::UnexpectedEnd);
    }
    let a: u64 = u16_from(bytes, at) as u64;
    let b: u64 = u16_from(bytes, at + 2) as u64;
    let c: u64 = u16_from(bytes, at + 4) as u64;
    let d: u64 = u16_from(bytes, at + 6) as u64;
    let high: u64 = a * 0x1_0000 + b;
    let low: u64 = c * 0x1_0000 + d;
    Ok((high * 0x1_0000_0000 + low, at + 8))
}

/// Reads an id.
pub fn read_string(bytes: &[u8], at: usize) -> (read: Result<(String, usize), DecodeError>)
    ensures
        match take_id(bytes@, at as int) {
            Ok((id, end)) => read matches Ok((text, stop)) && text@ == id && stop == end,
            Err(fault) => read matches Err(found) && found == fault,
        },
        moved_on(read, at, bytes@.len()),
{
    match read_u16(bytes, at) {
        Err(fault) => Err(fault),
        Ok((length, start)) => {
            let length: usize = length as usize;
            if length > bytes.len() - start {
                return Err(DecodeError::LengthExceedsInput);
            }
            let raw: Vec<u8> = slice_to_vec(slice_subrange(bytes, start, start + length));
            match text_from_utf8(raw) {
                None => Err(DecodeError::InvalidText),
                Some(text) => Ok((text, start + length)),
            }
        },
    }
}

/// Reads a ring.
pub fn read_ring(bytes: &[u8], at: usize) -> (read: Result<(Vec<Point>, usize), DecodeError>)
    ensures
        match take_ring(bytes@, at as int) {
            Ok((points, end)) => read matches Ok((ring, stop)) && ring@ == points && stop == end,
            Err(fault) => read matches Err(found) && found == fault,
        },
        moved_on(read, at, bytes@.len()),
{
    match read_u32(bytes, at) {
        Err(fault) => Err(fault),
        Ok((count, start)) => {
            let count: usize = count as usize;
            if count > (bytes.len() - start) / POINT_BYTES {
                return Err(DecodeError::LengthExceedsInput);
            }
            let mut ring: Vec<Point> = Vec::new();
            let mut i: usize = 0;
            while i < count
                invariant
                    i <= count,
                    start <= bytes.len(),
                    count * POINT_BYTES <= bytes.len() - start,
                    ring.len() == i,
                    forall|k: int|
                        0 <= k < i ==> ring[k] == point_at(bytes@, start + k * POINT_BYTES),
                decreases count - i,
            {
                let place: usize = start + i * POINT_BYTES;
                let x: u16 = u16_from(bytes, place);
                let y: u16 = u16_from(bytes, place + 2);
                ring.push(Point { x, y });
                i += 1;
            }
            assert(ring@ =~= Seq::new(
                count as nat,
                |k: int| point_at(bytes@, start + k * POINT_BYTES),
            ));
            Ok((ring, start + count * POINT_BYTES))
        },
    }
}

/// Reads the rings of one kind of a boundary entry.
pub fn read_polygons(bytes: &[u8], at: usize) -> (read: Result<(Vec<Vec<Point>>, usize), DecodeError>)
    ensures
        match take_rings(bytes@, at as int) {
            Ok((wanted, end)) => read matches Ok((rings, stop)) && rings_view(rings@) == wanted
                && stop == end,
            Err(fault) => read matches Err(found) && found == fault,
        },
        moved_on(read, at, bytes@.len()),
{
    match read_u8(bytes, at) {
        Err(fault) => Err(fault),
        Ok((count, start)) => {
            let count: usize = count as usize;
            if count * MIN_RING_BYTES > bytes.len() - start {
                return Err(DecodeError::LengthExceedsInput);
            }
            let mut rings: Vec<Vec<Point>> = Vec::new();
            let mut place: usize = start;
            let mut i: usize = 0;
            assert(rings_view(rings@) =~= Seq::<Seq<Point>>::empty());
            while i < count
                invariant
                    i <= count,
                    start <= place <= bytes.len(),
                    take_rings(bytes@, at as int) == take_many(
                        ring(),
                        bytes@,
                        start as int,
                        count as nat,
                    ),
                    take_many(ring(), bytes@, start as int, i as nat) == Ok::<
                        (Seq<Seq<Point>>, int),
                        DecodeError,
                    >((rings_view(rings@), place as int)),
                decreases count - i,
            {
                match read_ring(bytes, place) {
                    Err(fault) => {
                        proof {
                            assert(take_many(ring(), bytes@, start as int, (i + 1) as nat) is Err);
                            lemma_take_many_stays_failed(
                                ring(),
                                bytes@,
                                start as int,
                                (i + 1) as nat,
                                count as nat,
                            );
                        }
                        return Err(fault);
                    },
                    Ok((one, next)) => {
                        let ghost before = rings_view(rings@);
                        rings.push(one);
                        assert(rings_view(rings@) =~= before.push(one@));
                        place = next;
                    },
                }
                i += 1;
            }
            Ok((rings, place))
        },
    }
}

/// Reads a boundary entry.
pub fn read_areas(bytes: &[u8], at: usize) -> (read: Result<
    ((String, Multipolygon), usize),
    DecodeError,
>)
    ensures
        match take_area(bytes@, at as int) {
            Ok((wanted, end)) => read matches Ok((entry, stop)) && (entry.0@, entry.1@) == wanted
                && stop == end,
            Err(fault) => read matches Err(found) && found == fault,
        },
        moved_on(read, at, bytes@.len()),
{
    match read_string(bytes, at) {
        Err(fault) => Err(fault),
        Ok((id, outer_at)) => match read_polygons(bytes, outer_at) {
            Err(fault) => Err(fault),
            Ok((outer, inner_at)) => match read_polygons(bytes, inner_at) {
                Err(fault) => Err(fault),
                Ok((inner, end)) => Ok(((id, Multipolygon { outer, inner }), end)),
            },
        },
    }
}

/// Reads a cell.
pub fn read_cell(bytes: &[u8], at: usize) -> (read: Result<(Cell, usize), DecodeError>)
    ensures
        match take_cell(bytes@, at as int) {
            Ok((wanted, end)) => read matches Ok((cell, stop)) && cell@ == wanted && stop == end,
            Err(fault) => read matches Err(found) && found == fault,
        },
        moved_on(read, at, bytes@.len()),
{
    let (id_count, ids_at) = match read_u8(bytes, at) {
        Err(fault) => {
            return Err(fault);
        },
        Ok((count, start)) => (count as usize, start),
    };
    if id_count * MIN_ID_BYTES > bytes.len() - ids_at {
        return Err(DecodeError::LengthExceedsInput);
    }
    let mut containing_ids: Vec<String> = Vec::new();
    let mut place: usize = ids_at;
    let mut i: usize = 0;
    assert(string_views(containing_ids@) =~= Seq::<Seq<char>>::empty());
    while i < id_count
        invariant
            i <= id_count,
            ids_at <= place <= bytes.len(),
            take_many(id(), bytes@, ids_at as int, id_count as nat) is Err ==> take_cell(
                bytes@,
                at as int,
            ) == Err::<(CellView, int), DecodeError>(
                take_many(id(), bytes@, ids_at as int, id_count as nat)->Err_0,
            ),
            take_many(id(), bytes@, ids_at as int, i as nat) == Ok::<
                (Seq<Seq<char>>, int),
                DecodeError,
            >((string_views(containing_ids@), place as int)),
        decreases id_count - i,
    {
        match read_string(bytes, place) {
            Err(fault) => {
                proof {
                    assert(take_many(id(), bytes@, ids_at as int, (i + 1) as nat) is Err);
                    lemma_take_many_stays_failed(
                        id(),
                        bytes@,
                        ids_at as int,
                        (i + 1) as nat,
                        id_count as nat,
                    );
                }
                return Err(fault);
            },
            Ok((one, next)) => {
                let ghost before = string_views(containing_ids@);
                containing_ids.push(one);
                assert(string_views(containing_ids@) =~= before.push(one@));
                place = next;
            },
        }
        i += 1;
    }
    let (area_count, areas_at) = match read_u8(bytes, place) {
        Err(fault) => {
            return Err(fault);
        },
        Ok((count, start)) => (count as usize, start),
    };
    if area_count * MIN_AREA_BYTES > bytes.len() - areas_at {
        return Err(DecodeError::LengthExceedsInput);
    }
    let ghost ids = string_views(containing_ids@);
    let mut intersecting_areas: Vec<(String, Multipolygon)> = Vec::new();
    let mut place: usize = areas_at;
    let mut j: usize = 0;
    assert(areas_view(intersecting_areas@) =~= Seq::<
        (Seq<char>, MultipolygonView),
    >::empty());
    while j < area_count
        invariant
            j <= area_count,
            areas_at <= place <= bytes.len(),
            ids == string_views(containing_ids@),
            match take_many(area(), bytes@, areas_at as int, area_count as nat) {
                Err(fault) => take_cell(bytes@, at as int) == Err::<
                    (CellView, int),
                    DecodeError,
                >(fault),
                Ok((areas, end)) => take_cell(bytes@, at as int) == Ok::<
                    (CellView, int),
                    DecodeError,
                >(
                    (CellView { containing_ids: ids, intersecting_areas: areas }, end),
                ),
            },
            take_many(area(), bytes@, areas_at as int, j as nat) == Ok::<
                (Seq<(Seq<char>, MultipolygonView)>, int),
                DecodeError,
            >((areas_view(intersecting_areas@), place as int)),
        decreases area_count - j,
    {
        match read_areas(bytes, place) {
            Err(fault) => {
                proof {
                    assert(take_many(area(), bytes@, areas_at as int, (j + 1) as nat) is Err);
                    lemma_take_many_stays_failed(
                        area(),
                        bytes@,
                        areas_at as int,
                        (j + 1) as nat,
                        area_count as nat,
                    );
                }
                return Err(fault);
            },
            Ok((one, next)) => {
                let ghost before = areas_view(intersecting_areas@);
                let ghost added = (one.0@, one.1@);
                intersecting_areas.push(one);
                assert(areas_view(intersecting_areas@) =~= before.push(added));
                place = next;
            },
        }
        j += 1;
    }
    Ok((Cell { containing_ids, intersecting_areas }, place))
}

/// Reads a size record.
pub fn read_size(bytes: &[u8], at: usize) -> (read: Result<((String, u64), usize), DecodeError>)
    ensures
        match take_record(bytes@, at as int) {
            Ok((wanted, end)) => read matches Ok((entry, stop)) && (entry.0@, entry.1) == wanted
                && stop == end,
            Err(fault) => read matches Err(found) && found == fault,
        },
        moved_on(read, at, bytes@.len()),
{
    match read_string(bytes, at) {
        Err(fault) => Err(fault),
        Ok((id, area_at)) => match read_u64(bytes, area_at) {
            Err(fault) => Err(fault),
            Ok((area, end)) => Ok(((id, area), end)),
        },
    }
}

/// Reads the raster: the number of cells in a row, and the cells.
pub fn read_raster(bytes: &[u8], at: usize) -> (read: Result<((usize, Vec<Cell>), usize), DecodeError>)
    ensures
        match take_raster(bytes@, at as int) {
            Ok((wanted, end)) => read matches Ok((raster, stop)) && raster.0 == wanted.0
                && cells_view(raster.1@) == wanted.1 && stop == end
                && raster_fits(raster.1.len() as int, raster.0 as int),
            Err(fault) => read matches Err(found) && found == fault,
        },
        moved_on(read, at, bytes@.len()),
{
    let (width, count_at) = match read_u32(bytes, at) {
        Err(fault) => {
            return Err(fault);
        },
        Ok((width, next)) => (width as usize, next),
    };
    let (count, cells_at) = match read_u32(bytes, count_at) {
        Err(fault) => {
            return Err(fault);
        },
        Ok((count, next)) => (count as usize, next),
    };
    if count > (bytes.len() - cells_at) / MIN_CELL_BYTES {
        return Err(DecodeError::LengthExceedsInput);
    }
    if width == 0 || count == 0 || count % width != 0 {
        return Err(DecodeError::InvalidRaster);
    }
    let mut cells: Vec<Cell> = Vec::new();
    let mut place: usize = cells_at;
    let mut i: usize = 0;
    assert(cells_view(cells@) =~= Seq::<CellView>::empty());
    while i < count
        invariant
            i <= count,
            cells.len() == i,
            cells_at <= place <= bytes.len(),
            raster_fits(count as int, width as int),
            match take_many(cell(), bytes@, cells_at as int, count as nat) {
                Err(fault) => take_raster(bytes@, at as int) == Err::<
                    ((int, Seq<CellView>), int),
                    DecodeError,
                >(fault),
                Ok((all, end)) => take_raster(bytes@, at as int) == Ok::<
                    ((int, Seq<CellView>), int),
                    DecodeError,
                >(((width as int, all), end)),
            },
            take_many(cell(), bytes@, cells_at as int, i as nat) == Ok::<
                (Seq<CellView>, int),
                DecodeError,
            >((cells_view(cells@), place as int)),
        decreases count - i,
    {
        match read_cell(bytes, place) {
            Err(fault) => {
                proof {
                    assert(take_many(cell(), bytes@, cells_at as int, (i + 1) as nat) is Err);
                    lemma_take_many_stays_failed(
                        cell(),
                        bytes@,
                        cells_at as int,
                        (i + 1) as nat,
                        count as nat,
                    );
                }
                return Err(fault);
            },
            Ok((one, next)) => {
                let ghost before = cells_view(cells@);
                let ghost added = one@;
                cells.push(one);
                assert(cells_view(cells@) =~= before.push(added));
                place = next;
            },
        }
        i += 1;
    }
    Ok(((width, cells), place))
}

/// Reads the size table.
pub fn read_sizes(bytes: &[u8], at: usize) -> (read: Result<(Vec<(String, u64)>, usize), DecodeError>)
    ensures
        match take_sizes(bytes@, at as int) {
            Ok((wanted, end)) => read matches Ok((records, stop)) && records_view(records@)
                == wanted && stop == end,
            Err(fault) => read matches Err(found) && found == fault,
        },
        moved_on(read, at, bytes@.len()),
{
    let (count, start) = match read_u32(bytes, at) {
        Err(fault) => {
            return Err(fault);
        },
        Ok((count, next)) => (count as usize, next),
    };
    if count > (bytes.len() - start) / MIN_RECORD_BYTES {
        return Err(DecodeError::LengthExceedsInput);
    }
    let mut records: Vec<(String, u64)> = Vec::new();
    let mut place: usize = start;
    let mut i: usize = 0;
    assert(records_view(records@) =~= Seq::<(Seq<char>, u64)>::empty());
    while i < count
        invariant
            i <= count,
            start <= place <= bytes.len(),
            take_sizes(bytes@, at as int) == take_many(
                record(),
                bytes@,
                start as int,
                count as nat,
            ),
            take_many(record(), bytes@, start as int, i as nat) == Ok::<
                (Seq<(Seq<char>, u64)>, int),
                DecodeError,
            >((records_view(records@), place as int)),
        decreases count - i,
    {
        match read_size(bytes, place) {
            Err(fault) => {
                proof {
                    assert(take_many(record(), bytes@, start as int, (i + 1) as nat) is Err);
                    lemma_take_many_stays_failed(
                        record(),
                        bytes@,
                        start as int,
                        (i + 1) as nat,
                        count as nat,
                    );
                }
                return Err(fault);
            },
            Ok((one, next)) => {
                let ghost before = records_view(records@);
                let ghost added = (one.0@, one.1);
                records.push(one);
                assert(records_view(records@) =~= before.push(added));
                place = next;
            },
        }
        i += 1;
    }
    Ok((records, place))
}

/// Builds the index that a stream of bytes holds.
///
/// Every count and every length in the stream is held against what is
/// left of the stream before anything is read or stored on its word.
pub fn from_reader(reader: &[u8]) -> (read: Result<CountryBoundaries, DecodeError>)
    ensures
        match decode(reader@) {
            Ok(wanted) => read matches Ok(boundaries) && boundaries@ == wanted,
            Err(fault) => read matches Err(found) && found == fault,
        },
{
    let raster_at: usize = match read_u16(reader, 0) {
        Err(fault) => {
            return Err(fault);
        },
        Ok((version, next)) => {
            if version != FORMAT_VERSION {
                return Err(DecodeError::UnsupportedVersion);
            }
            next
        },
    };
    let (raster_width, raster, sizes_at) = match read_raster(reader, raster_at) {
        Err(fault) => {
            return Err(fault);
        },
        Ok(((width, cells), next)) => (width, cells, next),
    };
    let geometry_sizes: Vec<(String, u64)> = match read_sizes(reader, sizes_at) {
        Err(fault) => {
            return Err(fault);
        },
        Ok((records, _)) => records,
    };
    match CountryBoundaries::new(raster, raster_width, geometry_sizes) {
        Some(boundaries) => Ok(boundaries),
        None => Err(DecodeError::InvalidRaster),
    }
}

} // verus!
