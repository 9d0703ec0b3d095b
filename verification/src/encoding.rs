use crate::boundaries::{raster_fits, BoundariesView};
use crate::cell::CellView;
use crate::error::DecodeError;
use crate::format::{
    area, cell, decode, id, point_at, record, ring, take_area, take_boundaries, take_cell,
    take_counted, take_id, take_many, take_raster, take_record, take_ring, take_rings, take_sizes,
    take_u16, take_u32, take_u64, take_u8, u16_at, u32_at, u64_at, Take, FORMAT_VERSION,
    MIN_AREA_BYTES, MIN_CELL_BYTES, MIN_ID_BYTES, MIN_RECORD_BYTES, MIN_RING_BYTES, POINT_BYTES,
};
use crate::multipolygon::MultipolygonView;
use crate::order::sizes_map;
use crate::point::Point;
use vstd::prelude::*;
use vstd::utf8::{encode_utf8, encode_utf8_decode_utf8, encode_utf8_valid_utf8};

verus! {

/// A way to write one item.
pub type Put<T> = spec_fn(T) -> Seq<u8>;

/// The two bytes that spell a number below 65536, most significant byte
/// first.
pub open spec fn u16_bytes(value: int) -> Seq<u8> {
    seq![(value / 0x100) as u8, (value % 0x100) as u8]
}

/// The four bytes that spell a number, most significant byte first.
pub open spec fn u32_bytes(value: int) -> Seq<u8> {
    u16_bytes(value / 0x1_0000) + u16_bytes(value % 0x1_0000)
}

/// The eight bytes that spell a number, most significant byte first.
pub open spec fn u64_bytes(value: int) -> Seq<u8> {
    u32_bytes(value / 0x1_0000_0000) + u32_bytes(value % 0x1_0000_0000)
}

/// The bytes of the items, one item behind the other.
pub open spec fn many_bytes<T>(put: Put<T>, items: Seq<T>) -> Seq<u8>
    decreases items.len(),
{
    if items.len() == 0 {
        Seq::empty()
    } else {
        many_bytes(put, items.drop_last()) + put(items.last())
    }
}

/// The bytes of an id.
pub open spec fn id_bytes(id: Seq<char>) -> Seq<u8> {
    u16_bytes(encode_utf8(id).len() as int) + encode_utf8(id)
}

/// Whether an id is short enough to be written.
pub open spec fn id_fits(id: Seq<char>) -> bool {
    encode_utf8(id).len() <= u16::MAX
}

/// The bytes of a vertex.
pub open spec fn point_bytes(point: Point) -> Seq<u8> {
    u16_bytes(point.x as int) + u16_bytes(point.y as int)
}

/// How to write a vertex.
pub open spec fn put_point() -> Put<Point> {
    |point: Point| point_bytes(point)
}

/// The bytes of a ring.
pub open spec fn ring_bytes(ring: Seq<Point>) -> Seq<u8> {
    u32_bytes(ring.len() as int) + many_bytes(put_point(), ring)
}

/// Whether a ring is short enough to be written.
pub open spec fn ring_fits(ring: Seq<Point>) -> bool {
    ring.len() <= u32::MAX
}

/// Whether `bytes` holds `written` at the place `at`.
pub open spec fn holds(bytes: Seq<u8>, at: int, written: Seq<u8>) -> bool {
    &&& 0 <= at
    &&& at + written.len() <= bytes.len()
    &&& bytes.subrange(at, at + written.len()) == written
}

/// A stream that holds two parts one behind the other holds each.
pub proof fn lemma_holds_both(bytes: Seq<u8>, at: int, first: Seq<u8>, second: Seq<u8>)
    requires
        holds(bytes, at, first + second),
    ensures
        holds(bytes, at, first),
        holds(bytes, at + first.len(), second),
{
    let whole = first + second;
    assert(bytes.subrange(at, at + first.len()) =~= first) by {
        assert forall|k: int| 0 <= k < first.len() implies bytes[at + k] == first[k] by {
            assert(bytes.subrange(at, at + whole.len())[k] == whole[k]);
        }
    }
    assert(bytes.subrange(at + first.len(), at + first.len() + second.len()) =~= second) by {
        assert forall|k: int| 0 <= k < second.len() implies bytes[at + first.len() + k]
            == second[k] by {
            assert(bytes.subrange(at, at + whole.len())[first.len() + k] == whole[first.len()
                + k]);
        }
    }
}

/// Two bytes that were written for a number read as that number.
pub proof fn lemma_u16_reads_back(bytes: Seq<u8>, at: int, value: int)
    requires
        0 <= value <= u16::MAX,
        holds(bytes, at, u16_bytes(value)),
    ensures
        u16_at(bytes, at) == value,
        take_u16(bytes, at) == Ok::<(u16, int), DecodeError>((value as u16, at + 2)),
{
    let written = u16_bytes(value);
    assert(bytes.subrange(at, at + 2)[0] == written[0]);
    assert(bytes.subrange(at, at + 2)[1] == written[1]);
}

/// Four bytes that were written for a number read as that number.
pub proof fn lemma_u32_reads_back(bytes: Seq<u8>, at: int, value: int)
    requires
        0 <= value <= u32::MAX,
        holds(bytes, at, u32_bytes(value)),
    ensures
        u32_at(bytes, at) == value,
        take_u32(bytes, at) == Ok::<(u32, int), DecodeError>((value as u32, at + 4)),
{
    lemma_holds_both(bytes, at, u16_bytes(value / 0x1_0000), u16_bytes(value % 0x1_0000));
    lemma_u16_reads_back(bytes, at, value / 0x1_0000);
    lemma_u16_reads_back(bytes, at + 2, value % 0x1_0000);
}

/// Eight bytes that were written for a number read as that number.
pub proof fn lemma_u64_reads_back(bytes: Seq<u8>, at: int, value: int)
    requires
        0 <= value <= u64::MAX,
        holds(bytes, at, u64_bytes(value)),
    ensures
        u64_at(bytes, at) == value,
        take_u64(bytes, at) == Ok::<(u64, int), DecodeError>((value as u64, at + 8)),
{
    lemma_holds_both(
        bytes,
        at,
        u32_bytes(value / 0x1_0000_0000),
        u32_bytes(value % 0x1_0000_0000),
    );
    lemma_u32_reads_back(bytes, at, value / 0x1_0000_0000);
    lemma_u32_reads_back(bytes, at + 4, value % 0x1_0000_0000);
}

/// An id that was written reads as that id.
pub proof fn lemma_id_reads_back(bytes: Seq<u8>, at: int, id: Seq<char>)
    requires
        id_fits(id),
        holds(bytes, at, id_bytes(id)),
    ensures
        take_id(bytes, at) == Ok::<(Seq<char>, int), DecodeError>((id, at + id_bytes(id).len())),
        id_bytes(id).len() >= MIN_ID_BYTES,
{
    let text = encode_utf8(id);
    lemma_holds_both(bytes, at, u16_bytes(text.len() as int), text);
    lemma_u16_reads_back(bytes, at, text.len() as int);
    encode_utf8_valid_utf8(id);
    encode_utf8_decode_utf8(id);
}

/// What the bytes of some vertices are: four bytes each, and at the place
/// of each vertex the vertex.
pub proof fn lemma_points_read_back(bytes: Seq<u8>, at: int, points: Seq<Point>)
    requires
        holds(bytes, at, many_bytes(put_point(), points)),
    ensures
        many_bytes(put_point(), points).len() == points.len() * POINT_BYTES,
        forall|i: int|
            0 <= i < points.len() ==> #[trigger] point_at(bytes, at + i * POINT_BYTES)
                == points[i],
    decreases points.len(),
{
    if points.len() > 0 {
        let rest = points.drop_last();
        let last = points.last();
        let written = many_bytes(put_point(), rest);
        assert(put_point()(last) == point_bytes(last));
        lemma_holds_both(bytes, at, written, point_bytes(last));
        lemma_points_read_back(bytes, at, rest);
        let place = at + written.len();
        lemma_holds_both(bytes, place, u16_bytes(last.x as int), u16_bytes(last.y as int));
        lemma_u16_reads_back(bytes, place, last.x as int);
        lemma_u16_reads_back(bytes, place + 2, last.y as int);
        assert(point_at(bytes, place) == last);
        assert(rest.len() * POINT_BYTES + 4 == points.len() * POINT_BYTES);
        assert forall|i: int| 0 <= i < points.len() implies #[trigger] point_at(
            bytes,
            at + i * POINT_BYTES,
        ) == points[i] by {
            if i < rest.len() {
                assert(rest[i] == points[i]);
            } else {
                assert(at + i * POINT_BYTES == place);
            }
        }
    }
}

/// A ring that was written reads as that ring.
pub proof fn lemma_ring_reads_back(bytes: Seq<u8>, at: int, ring: Seq<Point>)
    requires
        ring_fits(ring),
        holds(bytes, at, ring_bytes(ring)),
    ensures
        take_ring(bytes, at) == Ok::<(Seq<Point>, int), DecodeError>(
            (ring, at + ring_bytes(ring).len()),
        ),
        ring_bytes(ring).len() >= MIN_RING_BYTES,
{
    let points = many_bytes(put_point(), ring);
    lemma_holds_both(bytes, at, u32_bytes(ring.len() as int), points);
    lemma_u32_reads_back(bytes, at, ring.len() as int);
    lemma_points_read_back(bytes, at + 4, ring);
    let read = Seq::new(ring.len(), |i: int| point_at(bytes, at + 4 + i * POINT_BYTES));
    assert(read =~= ring);
}

/// Whether `take` reads what `put` writes for an item that `fits` as that
/// item, and `put` writes `least` bytes at least.
pub open spec fn reads_back<T>(
    take: Take<T>,
    put: Put<T>,
    fits: spec_fn(T) -> bool,
    least: int,
) -> bool {
    forall|bytes: Seq<u8>, at: int, item: T|
        fits(item) && #[trigger] holds(bytes, at, put(item)) ==> take(bytes, at) == Ok::<
            (T, int),
            DecodeError,
        >((item, at + put(item).len())) && put(item).len() >= least
}

/// Items that were written one behind the other read as those items.
pub proof fn lemma_many_read_back<T>(
    take: Take<T>,
    put: Put<T>,
    fits: spec_fn(T) -> bool,
    least: int,
    bytes: Seq<u8>,
    at: int,
    items: Seq<T>,
)
    requires
        reads_back(take, put, fits, least),
        least >= 0,
        forall|i: int| 0 <= i < items.len() ==> fits(#[trigger] items[i]),
        holds(bytes, at, many_bytes(put, items)),
    ensures
        take_many(take, bytes, at, items.len()) == Ok::<(Seq<T>, int), DecodeError>(
            (items, at + many_bytes(put, items).len()),
        ),
        take_counted(take, least, bytes, at, items.len()) == take_many(
            take,
            bytes,
            at,
            items.len(),
        ),
        many_bytes(put, items).len() >= items.len() * least,
    decreases items.len(),
{
    if items.len() == 0 {
        assert(items =~= Seq::<T>::empty());
        assert(items.len() * least == 0) by (nonlinear_arith)
            requires
                items.len() == 0,
        ;
    } else {
        let rest = items.drop_last();
        let last = items.last();
        let written = many_bytes(put, rest);
        lemma_holds_both(bytes, at, written, put(last));
        assert forall|i: int| 0 <= i < rest.len() implies fits(#[trigger] rest[i]) by {
            assert(rest[i] == items[i]);
        }
        lemma_many_read_back(take, put, fits, least, bytes, at, rest);
        assert(fits(items[items.len() - 1]));
        assert(holds(bytes, at + written.len(), put(last)));
        assert(rest.push(last) =~= items);
        assert(rest.len() * least + least == items.len() * least) by (nonlinear_arith)
            requires
                rest.len() + 1 == items.len(),
        ;
    }
}

/// How to write an id.
pub open spec fn put_id() -> Put<Seq<char>> {
    |id: Seq<char>| id_bytes(id)
}

/// Which ids can be written.
pub open spec fn fit_id() -> spec_fn(Seq<char>) -> bool {
    |id: Seq<char>| id_fits(id)
}

/// How to write a ring.
pub open spec fn put_ring() -> Put<Seq<Point>> {
    |ring: Seq<Point>| ring_bytes(ring)
}

/// Which rings can be written.
pub open spec fn fit_ring() -> spec_fn(Seq<Point>) -> bool {
    |ring: Seq<Point>| ring_fits(ring)
}

/// The bytes of the rings of one kind of a boundary entry.
pub open spec fn rings_bytes(rings: Seq<Seq<Point>>) -> Seq<u8> {
    seq![rings.len() as u8] + many_bytes(put_ring(), rings)
}

/// Whether rings are few and short enough to be written.
pub open spec fn rings_fit(rings: Seq<Seq<Point>>) -> bool {
    rings.len() <= u8::MAX && forall|i: int| 0 <= i < rings.len() ==> ring_fits(#[trigger] rings[i])
}

/// The bytes of a boundary entry.
pub open spec fn area_bytes(entry: (Seq<char>, MultipolygonView)) -> Seq<u8> {
    id_bytes(entry.0) + rings_bytes(entry.1.outer) + rings_bytes(entry.1.inner)
}

/// Whether a boundary entry can be written.
pub open spec fn area_fits(entry: (Seq<char>, MultipolygonView)) -> bool {
    id_fits(entry.0) && rings_fit(entry.1.outer) && rings_fit(entry.1.inner)
}

/// How to write a boundary entry.
pub open spec fn put_area() -> Put<(Seq<char>, MultipolygonView)> {
    |entry: (Seq<char>, MultipolygonView)| area_bytes(entry)
}

/// Which boundary entries can be written.
pub open spec fn fit_area() -> spec_fn((Seq<char>, MultipolygonView)) -> bool {
    |entry: (Seq<char>, MultipolygonView)| area_fits(entry)
}

/// The bytes of a cell.
pub open spec fn cell_bytes(cell: CellView) -> Seq<u8> {
    seq![cell.containing_ids.len() as u8] + many_bytes(put_id(), cell.containing_ids)
        + seq![cell.intersecting_areas.len() as u8] + many_bytes(
        put_area(),
        cell.intersecting_areas,
    )
}

/// Whether a cell can be written.
pub open spec fn cell_fits(cell: CellView) -> bool {
    &&& cell.containing_ids.len() <= u8::MAX
    &&& forall|i: int|
        0 <= i < cell.containing_ids.len() ==> id_fits(#[trigger] cell.containing_ids[i])
    &&& cell.intersecting_areas.len() <= u8::MAX
    &&& forall|i: int|
        0 <= i < cell.intersecting_areas.len() ==> area_fits(#[trigger] cell.intersecting_areas[i])
}

/// How to write a cell.
pub open spec fn put_cell() -> Put<CellView> {
    |cell: CellView| cell_bytes(cell)
}

/// Which cells can be written.
pub open spec fn fit_cell() -> spec_fn(CellView) -> bool {
    |cell: CellView| cell_fits(cell)
}

/// The bytes of a size record.
pub open spec fn record_bytes(entry: (Seq<char>, u64)) -> Seq<u8> {
    id_bytes(entry.0) + u64_bytes(entry.1 as int)
}

/// How to write a size record.
pub open spec fn put_record() -> Put<(Seq<char>, u64)> {
    |entry: (Seq<char>, u64)| record_bytes(entry)
}

/// Which size records can be written.
pub open spec fn fit_record() -> spec_fn((Seq<char>, u64)) -> bool {
    |entry: (Seq<char>, u64)| id_fits(entry.0)
}

/// The bytes of a dataset.
pub open spec fn dataset_bytes(
    width: int,
    raster: Seq<CellView>,
    records: Seq<(Seq<char>, u64)>,
) -> Seq<u8> {
    u16_bytes(FORMAT_VERSION as int) + u32_bytes(width) + u32_bytes(raster.len() as int)
        + many_bytes(put_cell(), raster) + u32_bytes(records.len() as int) + many_bytes(
        put_record(),
        records,
    )
}

/// Whether a dataset can be written: the raster is made of whole rows,
/// and every count and every length has room in its field.
pub open spec fn dataset_fits(
    width: int,
    raster: Seq<CellView>,
    records: Seq<(Seq<char>, u64)>,
) -> bool {
    &&& raster_fits(raster.len() as int, width)
    &&& raster.len() <= u32::MAX
    &&& forall|i: int| 0 <= i < raster.len() ==> cell_fits(#[trigger] raster[i])
    &&& records.len() <= u32::MAX
    &&& forall|i: int| 0 <= i < records.len() ==> id_fits((#[trigger] records[i]).0)
}

/// What was written for an id reads as that id.
pub proof fn lemma_ids_read_back()
    ensures
        reads_back(id(), put_id(), fit_id(), MIN_ID_BYTES as int),
{
    assert forall|bytes: Seq<u8>, at: int, item: Seq<char>|
        fit_id()(item) && #[trigger] holds(bytes, at, put_id()(item)) implies id()(bytes, at)
        == Ok::<(Seq<char>, int), DecodeError>((item, at + put_id()(item).len()))
        && put_id()(item).len() >= MIN_ID_BYTES by {
        lemma_id_reads_back(bytes, at, item);
    }
}

/// What was written for a ring reads as that ring.
pub proof fn lemma_rings_read_back()
    ensures
        reads_back(ring(), put_ring(), fit_ring(), MIN_RING_BYTES as int),
{
    assert forall|bytes: Seq<u8>, at: int, item: Seq<Point>|
        fit_ring()(item) && #[trigger] holds(bytes, at, put_ring()(item)) implies ring()(
        bytes,
        at,
    ) == Ok::<(Seq<Point>, int), DecodeError>((item, at + put_ring()(item).len()))
        && put_ring()(item).len() >= MIN_RING_BYTES by {
        lemma_ring_reads_back(bytes, at, item);
    }
}

/// The rings of one kind that were written read as those rings.
pub proof fn lemma_polygons_read_back(bytes: Seq<u8>, at: int, rings: Seq<Seq<Point>>)
    requires
        rings_fit(rings),
        holds(bytes, at, rings_bytes(rings)),
    ensures
        take_rings(bytes, at) == Ok::<(Seq<Seq<Point>>, int), DecodeError>(
            (rings, at + rings_bytes(rings).len()),
        ),
        rings_bytes(rings).len() >= 1,
{
    let count = seq![rings.len() as u8];
    lemma_holds_both(bytes, at, count, many_bytes(put_ring(), rings));
    assert(bytes.subrange(at, at + 1)[0] == count[0]);
    lemma_rings_read_back();
    assert forall|i: int| 0 <= i < rings.len() implies fit_ring()(#[trigger] rings[i]) by {
        assert(ring_fits(rings[i]));
    }
    lemma_many_read_back(
        ring(),
        put_ring(),
        fit_ring(),
        MIN_RING_BYTES as int,
        bytes,
        at + 1,
        rings,
    );
}

/// A boundary entry that was written reads as that entry.
pub proof fn lemma_area_reads_back(bytes: Seq<u8>, at: int, entry: (Seq<char>, MultipolygonView))
    requires
        area_fits(entry),
        holds(bytes, at, area_bytes(entry)),
    ensures
        take_area(bytes, at) == Ok::<((Seq<char>, MultipolygonView), int), DecodeError>(
            (entry, at + area_bytes(entry).len()),
        ),
        area_bytes(entry).len() >= MIN_AREA_BYTES,
{
    let name = id_bytes(entry.0);
    let outer = rings_bytes(entry.1.outer);
    let inner = rings_bytes(entry.1.inner);
    lemma_holds_both(bytes, at, name + outer, inner);
    lemma_holds_both(bytes, at, name, outer);
    lemma_id_reads_back(bytes, at, entry.0);
    lemma_polygons_read_back(bytes, at + name.len(), entry.1.outer);
    lemma_polygons_read_back(bytes, at + name.len() + outer.len(), entry.1.inner);
}

/// What was written for a boundary entry reads as that entry.
pub proof fn lemma_areas_read_back()
    ensures
        reads_back(area(), put_area(), fit_area(), MIN_AREA_BYTES as int),
{
    assert forall|bytes: Seq<u8>, at: int, item: (Seq<char>, MultipolygonView)|
        fit_area()(item) && #[trigger] holds(bytes, at, put_area()(item)) implies area()(
        bytes,
        at,
    ) == Ok::<((Seq<char>, MultipolygonView), int), DecodeError>(
        (item, at + put_area()(item).len()),
    ) && put_area()(item).len() >= MIN_AREA_BYTES by {
        lemma_area_reads_back(bytes, at, item);
    }
}

/// A cell that was written reads as that cell.
pub proof fn lemma_cell_reads_back(bytes: Seq<u8>, at: int, written: CellView)
    requires
        cell_fits(written),
        holds(bytes, at, cell_bytes(written)),
    ensures
        take_cell(bytes, at) == Ok::<(CellView, int), DecodeError>(
            (written, at + cell_bytes(written).len()),
        ),
        cell_bytes(written).len() >= MIN_CELL_BYTES,
{
    let id_count = seq![written.containing_ids.len() as u8];
    let ids = many_bytes(put_id(), written.containing_ids);
    let area_count = seq![written.intersecting_areas.len() as u8];
    let areas = many_bytes(put_area(), written.intersecting_areas);
    lemma_holds_both(bytes, at, id_count + ids + area_count, areas);
    lemma_holds_both(bytes, at, id_count + ids, area_count);
    lemma_holds_both(bytes, at, id_count, ids);
    assert(bytes.subrange(at, at + 1)[0] == id_count[0]);
    lemma_ids_read_back();
    assert forall|i: int| 0 <= i < written.containing_ids.len() implies fit_id()(
        #[trigger] written.containing_ids[i],
    ) by {
        assert(id_fits(written.containing_ids[i]));
    }
    lemma_many_read_back(
        id(),
        put_id(),
        fit_id(),
        MIN_ID_BYTES as int,
        bytes,
        at + 1,
        written.containing_ids,
    );
    let count_at = at + 1 + ids.len();
    assert(bytes.subrange(count_at, count_at + 1)[0] == area_count[0]);
    lemma_areas_read_back();
    assert forall|i: int| 0 <= i < written.intersecting_areas.len() implies fit_area()(
        #[trigger] written.intersecting_areas[i],
    ) by {
        assert(area_fits(written.intersecting_areas[i]));
    }
    lemma_many_read_back(
        area(),
        put_area(),
        fit_area(),
        MIN_AREA_BYTES as int,
        bytes,
        count_at + 1,
        written.intersecting_areas,
    );
}

/// What was written for a cell reads as that cell.
pub proof fn lemma_cells_read_back()
    ensures
        reads_back(cell(), put_cell(), fit_cell(), MIN_CELL_BYTES as int),
{
    assert forall|bytes: Seq<u8>, at: int, item: CellView|
        fit_cell()(item) && #[trigger] holds(bytes, at, put_cell()(item)) implies cell()(
        bytes,
        at,
    ) == Ok::<(CellView, int), DecodeError>((item, at + put_cell()(item).len()))
        && put_cell()(item).len() >= MIN_CELL_BYTES by {
        lemma_cell_reads_back(bytes, at, item);
    }
}

/// A size record that was written reads as that record.
pub proof fn lemma_record_reads_back(bytes: Seq<u8>, at: int, entry: (Seq<char>, u64))
    requires
        id_fits(entry.0),
        holds(bytes, at, record_bytes(entry)),
    ensures
        take_record(bytes, at) == Ok::<((Seq<char>, u64), int), DecodeError>(
            (entry, at + record_bytes(entry).len()),
        ),
        record_bytes(entry).len() >= MIN_RECORD_BYTES,
{
    let name = id_bytes(entry.0);
    lemma_holds_both(bytes, at, name, u64_bytes(entry.1 as int));
    lemma_id_reads_back(bytes, at, entry.0);
    lemma_u64_reads_back(bytes, at + name.len(), entry.1 as int);
}

/// What was written for a size record reads as that record.
pub proof fn lemma_records_read_back()
    ensures
        reads_back(record(), put_record(), fit_record(), MIN_RECORD_BYTES as int),
{
    assert forall|bytes: Seq<u8>, at: int, item: (Seq<char>, u64)|
        fit_record()(item) && #[trigger] holds(bytes, at, put_record()(item)) implies record()(
        bytes,
        at,
    ) == Ok::<((Seq<char>, u64), int), DecodeError>((item, at + put_record()(item).len()))
        && put_record()(item).len() >= MIN_RECORD_BYTES by {
        lemma_record_reads_back(bytes, at, item);
    }
}

/// A stream that starts with what was written for a dataset holds that
/// dataset, whatever follows: reading undoes writing.
pub proof fn lemma_dataset_reads_back(
    bytes: Seq<u8>,
    width: int,
    raster: Seq<CellView>,
    records: Seq<(Seq<char>, u64)>,
)
    requires
        dataset_fits(width, raster, records),
        holds(bytes, 0, dataset_bytes(width, raster, records)),
    ensures
        decode(bytes) == Ok::<BoundariesView, DecodeError>(
            BoundariesView { raster, width, sizes: sizes_map(records) },
        ),
        take_boundaries(bytes)->Ok_0.1 == dataset_bytes(width, raster, records).len(),
{
    let version = u16_bytes(FORMAT_VERSION as int);
    let columns = u32_bytes(width);
    let cell_count = u32_bytes(raster.len() as int);
    let cells = many_bytes(put_cell(), raster);
    let record_count = u32_bytes(records.len() as int);
    let sizes = many_bytes(put_record(), records);
    lemma_holds_both(bytes, 0, version + columns + cell_count + cells + record_count, sizes);
    lemma_holds_both(bytes, 0, version + columns + cell_count + cells, record_count);
    lemma_holds_both(bytes, 0, version + columns + cell_count, cells);
    lemma_holds_both(bytes, 0, version + columns, cell_count);
    lemma_holds_both(bytes, 0, version, columns);
    lemma_u16_reads_back(bytes, 0, FORMAT_VERSION as int);
    assert(width <= raster.len()) by {
        crate::boundaries::lemma_raster_size(raster.len() as int, width);
        let height = (raster.len() as int) / width;
        assert(width <= height * width) by (nonlinear_arith)
            requires
                height >= 1,
                width >= 1,
        ;
    }
    lemma_u32_reads_back(bytes, 2, width);
    lemma_u32_reads_back(bytes, 6, raster.len() as int);
    lemma_cells_read_back();
    assert forall|i: int| 0 <= i < raster.len() implies fit_cell()(#[trigger] raster[i]) by {
        assert(cell_fits(raster[i]));
    }
    lemma_many_read_back(
        cell(),
        put_cell(),
        fit_cell(),
        MIN_CELL_BYTES as int,
        bytes,
        10,
        raster,
    );
    let sizes_at: int = 10 + (cells.len() as int);
    lemma_u32_reads_back(bytes, sizes_at, records.len() as int);
    lemma_records_read_back();
    assert forall|i: int| 0 <= i < records.len() implies fit_record()(#[trigger] records[i]) by {
        assert(id_fits(records[i].0));
    }
    lemma_many_read_back(
        record(),
        put_record(),
        fit_record(),
        MIN_RECORD_BYTES as int,
        bytes,
        sizes_at + 4,
        records,
    );
}

} // verus!
