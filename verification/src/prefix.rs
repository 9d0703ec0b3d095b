use crate::boundaries::BoundariesView;
use crate::error::DecodeError;
use crate::format::{
    u16_at, u32_at, FORMAT_VERSION,
    area, cell, decode, id, record, ring, take_area, take_boundaries, take_cell, take_counted,
    take_id, take_many, take_raster, take_record, take_ring, take_rings, take_sizes, take_u16,
    take_u32, take_u64, take_u8, point_at, Take, Taken, MIN_AREA_BYTES, MIN_CELL_BYTES,
    MIN_ID_BYTES, MIN_RECORD_BYTES, MIN_RING_BYTES, POINT_BYTES,
};
use vstd::prelude::*;

verus! {

/// How reading an item from the first `keep` bytes of a stream compares
/// with reading it from the whole stream, where the whole stream holds
/// the item: the item takes at least `least` bytes and ends in the stream;
/// it reads the same if all of it is kept; it cannot be read if it starts
/// in what is kept and ends behind.
pub open spec fn cut_reads<T>(
    whole: Taken<T>,
    cut: Taken<T>,
    at: int,
    keep: int,
    least: int,
    len: int,
) -> bool {
    let end = whole->Ok_0.1;
    &&& at + least <= end <= len
    &&& keep >= end ==> cut == whole
    &&& at <= keep < end ==> cut is Err
}

/// Whether `item` reads nothing behind itself, needs all of itself, and
/// takes at least `least` bytes.
pub open spec fn self_contained<T>(item: Take<T>, least: int) -> bool {
    forall|bytes: Seq<u8>, at: int, keep: int|
        0 <= at && 0 <= keep <= bytes.len() && item(bytes, at) is Ok ==> cut_reads(
            item(bytes, at),
            #[trigger] item(bytes.take(keep), at),
            at,
            keep,
            least,
            bytes.len() as int,
        )
}

/// One byte reads nothing behind itself and needs itself.
pub proof fn lemma_cut_u8(bytes: Seq<u8>, at: int, keep: int)
    requires
        0 <= at,
        0 <= keep <= bytes.len(),
        take_u8(bytes, at) is Ok,
    ensures
        cut_reads(
            take_u8(bytes, at),
            take_u8(bytes.take(keep), at),
            at,
            keep,
            1,
            bytes.len() as int,
        ),
{
}

/// A number of two bytes reads nothing behind itself and needs all of
/// itself.
pub proof fn lemma_cut_u16(bytes: Seq<u8>, at: int, keep: int)
    requires
        0 <= at,
        0 <= keep <= bytes.len(),
        take_u16(bytes, at) is Ok,
    ensures
        cut_reads(
            take_u16(bytes, at),
            take_u16(bytes.take(keep), at),
            at,
            keep,
            2,
            bytes.len() as int,
        ),
{
}

/// A number of four bytes reads nothing behind itself and needs all of
/// itself.
pub proof fn lemma_cut_u32(bytes: Seq<u8>, at: int, keep: int)
    requires
        0 <= at,
        0 <= keep <= bytes.len(),
        take_u32(bytes, at) is Ok,
    ensures
        cut_reads(
            take_u32(bytes, at),
            take_u32(bytes.take(keep), at),
            at,
            keep,
            4,
            bytes.len() as int,
        ),
{
}

/// A number of eight bytes reads nothing behind itself and needs all of
/// itself.
pub proof fn lemma_cut_u64(bytes: Seq<u8>, at: int, keep: int)
    requires
        0 <= at,
        0 <= keep <= bytes.len(),
        take_u64(bytes, at) is Ok,
    ensures
        cut_reads(
            take_u64(bytes, at),
            take_u64(bytes.take(keep), at),
            at,
            keep,
            8,
            bytes.len() as int,
        ),
{
}

/// A list of items that read nothing behind themselves and need all of
/// themselves does so too.
pub proof fn lemma_cut_many<T>(
    item: Take<T>,
    least: int,
    bytes: Seq<u8>,
    at: int,
    count: nat,
    keep: int,
)
    requires
        self_contained(item, least),
        least >= 0,
        0 <= at <= bytes.len(),
        0 <= keep <= bytes.len(),
        take_many(item, bytes, at, count) is Ok,
    ensures
        cut_reads(
            take_many(item, bytes, at, count),
            take_many(item, bytes.take(keep), at, count),
            at,
            keep,
            count * least,
            bytes.len() as int,
        ),
    decreases count,
{
    if count > 0 {
        let before = (count - 1) as nat;
        lemma_cut_many(item, least, bytes, at, before, keep);
        assert(before * least >= 0 && before * least + least == count * least)
            by (nonlinear_arith)
            requires
                before == count - 1,
                least >= 0,
        ;
        let next = take_many(item, bytes, at, before)->Ok_0.1;
        let whole_one = item(bytes, next);
        let cut_one = item(bytes.take(keep), next);
        assert(cut_reads(whole_one, cut_one, next, keep, least, bytes.len() as int));
    } else {
        assert(count * least == 0) by (nonlinear_arith)
            requires
                count == 0,
        ;
    }
}

/// A counted list of such items does so too: a list that fits into the
/// whole stream fits into what is kept if all of the list is kept.
pub proof fn lemma_cut_counted<T>(
    item: Take<T>,
    least: int,
    bytes: Seq<u8>,
    at: int,
    count: nat,
    keep: int,
)
    requires
        self_contained(item, least),
        least >= 0,
        0 <= at <= bytes.len(),
        0 <= keep <= bytes.len(),
        take_counted(item, least, bytes, at, count) is Ok,
    ensures
        cut_reads(
            take_counted(item, least, bytes, at, count),
            take_counted(item, least, bytes.take(keep), at, count),
            at,
            keep,
            count * least,
            bytes.len() as int,
        ),
{
    lemma_cut_many(item, least, bytes, at, count, keep);
}

/// An id reads nothing behind itself and needs all of itself.
pub proof fn lemma_cut_id(bytes: Seq<u8>, at: int, keep: int)
    requires
        0 <= at,
        0 <= keep <= bytes.len(),
        take_id(bytes, at) is Ok,
    ensures
        cut_reads(
            take_id(bytes, at),
            take_id(bytes.take(keep), at),
            at,
            keep,
            MIN_ID_BYTES as int,
            bytes.len() as int,
        ),
{
    lemma_cut_u16(bytes, at, keep);
    let (length, start) = take_u16(bytes, at)->Ok_0;
    if keep >= start + length {
        assert(bytes.take(keep).subrange(start, start + length) =~= bytes.subrange(
            start,
            start + length,
        ));
    }
}

/// A ring reads nothing behind itself and needs all of itself.
pub proof fn lemma_cut_ring(bytes: Seq<u8>, at: int, keep: int)
    requires
        0 <= at,
        0 <= keep <= bytes.len(),
        take_ring(bytes, at) is Ok,
    ensures
        cut_reads(
            take_ring(bytes, at),
            take_ring(bytes.take(keep), at),
            at,
            keep,
            MIN_RING_BYTES as int,
            bytes.len() as int,
        ),
{
    lemma_cut_u32(bytes, at, keep);
    let (count, start) = take_u32(bytes, at)->Ok_0;
    if keep >= start + count * POINT_BYTES {
        let whole = Seq::new(count as nat, |i: int| point_at(bytes, start + i * POINT_BYTES));
        let cut = Seq::new(
            count as nat,
            |i: int| point_at(bytes.take(keep), start + i * POINT_BYTES),
        );
        assert forall|i: int| 0 <= i < count implies whole[i] == cut[i] by {
            assert(0 <= i * 4 && i * 4 + 4 <= count * 4);
        }
        assert(whole =~= cut);
    }
}

/// How to read an id reads nothing behind the id and needs all of it.
pub proof fn lemma_id_self_contained()
    ensures
        self_contained(id(), MIN_ID_BYTES as int),
{
    assert forall|bytes: Seq<u8>, at: int, keep: int|
        0 <= at && 0 <= keep <= bytes.len() && id()(bytes, at) is Ok implies cut_reads(
        id()(bytes, at),
        #[trigger] id()(bytes.take(keep), at),
        at,
        keep,
        MIN_ID_BYTES as int,
        bytes.len() as int,
    ) by {
        lemma_cut_id(bytes, at, keep);
    }
}

/// How to read a ring reads nothing behind the ring and needs all of it.
pub proof fn lemma_ring_self_contained()
    ensures
        self_contained(ring(), MIN_RING_BYTES as int),
{
    assert forall|bytes: Seq<u8>, at: int, keep: int|
        0 <= at && 0 <= keep <= bytes.len() && ring()(bytes, at) is Ok implies cut_reads(
        ring()(bytes, at),
        #[trigger] ring()(bytes.take(keep), at),
        at,
        keep,
        MIN_RING_BYTES as int,
        bytes.len() as int,
    ) by {
        lemma_cut_ring(bytes, at, keep);
    }
}

/// The rings of one kind read nothing behind themselves and need all of
/// themselves.
pub proof fn lemma_cut_rings(bytes: Seq<u8>, at: int, keep: int)
    requires
        0 <= at,
        0 <= keep <= bytes.len(),
        take_rings(bytes, at) is Ok,
    ensures
        cut_reads(
            take_rings(bytes, at),
            take_rings(bytes.take(keep), at),
            at,
            keep,
            1,
            bytes.len() as int,
        ),
{
    lemma_cut_u8(bytes, at, keep);
    lemma_ring_self_contained();
    let (count, start) = take_u8(bytes, at)->Ok_0;
    lemma_cut_counted(ring(), MIN_RING_BYTES as int, bytes, start, count as nat, keep);
    assert(count * MIN_RING_BYTES >= 0);
}

/// A boundary entry reads nothing behind itself and needs all of itself.
pub proof fn lemma_cut_area(bytes: Seq<u8>, at: int, keep: int)
    requires
        0 <= at,
        0 <= keep <= bytes.len(),
        take_area(bytes, at) is Ok,
    ensures
        cut_reads(
            take_area(bytes, at),
            take_area(bytes.take(keep), at),
            at,
            keep,
            MIN_AREA_BYTES as int,
            bytes.len() as int,
        ),
{
    lemma_cut_id(bytes, at, keep);
    let outer_at = take_id(bytes, at)->Ok_0.1;
    lemma_cut_rings(bytes, outer_at, keep);
    let inner_at = take_rings(bytes, outer_at)->Ok_0.1;
    lemma_cut_rings(bytes, inner_at, keep);
}

/// How to read a boundary entry reads nothing behind the entry and needs
/// all of it.
pub proof fn lemma_area_self_contained()
    ensures
        self_contained(area(), MIN_AREA_BYTES as int),
{
    assert forall|bytes: Seq<u8>, at: int, keep: int|
        0 <= at && 0 <= keep <= bytes.len() && area()(bytes, at) is Ok implies cut_reads(
        area()(bytes, at),
        #[trigger] area()(bytes.take(keep), at),
        at,
        keep,
        MIN_AREA_BYTES as int,
        bytes.len() as int,
    ) by {
        lemma_cut_area(bytes, at, keep);
    }
}

/// A cell reads nothing behind itself and needs all of itself.
pub proof fn lemma_cut_cell(bytes: Seq<u8>, at: int, keep: int)
    requires
        0 <= at,
        0 <= keep <= bytes.len(),
        take_cell(bytes, at) is Ok,
    ensures
        cut_reads(
            take_cell(bytes, at),
            take_cell(bytes.take(keep), at),
            at,
            keep,
            MIN_CELL_BYTES as int,
            bytes.len() as int,
        ),
{
    lemma_id_self_contained();
    lemma_area_self_contained();
    lemma_cut_u8(bytes, at, keep);
    let (id_count, ids_at) = take_u8(bytes, at)->Ok_0;
    lemma_cut_counted(id(), MIN_ID_BYTES as int, bytes, ids_at, id_count as nat, keep);
    assert(id_count * MIN_ID_BYTES >= 0);
    let count_at = take_counted(id(), MIN_ID_BYTES as int, bytes, ids_at, id_count as nat)->Ok_0.1;
    lemma_cut_u8(bytes, count_at, keep);
    let (area_count, areas_at) = take_u8(bytes, count_at)->Ok_0;
    lemma_cut_counted(area(), MIN_AREA_BYTES as int, bytes, areas_at, area_count as nat, keep);
    assert(area_count * MIN_AREA_BYTES >= 0);
}

/// How to read a cell reads nothing behind the cell and needs all of it.
pub proof fn lemma_cell_self_contained()
    ensures
        self_contained(cell(), MIN_CELL_BYTES as int),
{
    assert forall|bytes: Seq<u8>, at: int, keep: int|
        0 <= at && 0 <= keep <= bytes.len() && cell()(bytes, at) is Ok implies cut_reads(
        cell()(bytes, at),
        #[trigger] cell()(bytes.take(keep), at),
        at,
        keep,
        MIN_CELL_BYTES as int,
        bytes.len() as int,
    ) by {
        lemma_cut_cell(bytes, at, keep);
    }
}

/// A size record reads nothing behind itself and needs all of itself.
pub proof fn lemma_cut_record(bytes: Seq<u8>, at: int, keep: int)
    requires
        0 <= at,
        0 <= keep <= bytes.len(),
        take_record(bytes, at) is Ok,
    ensures
        cut_reads(
            take_record(bytes, at),
            take_record(bytes.take(keep), at),
            at,
            keep,
            MIN_RECORD_BYTES as int,
            bytes.len() as int,
        ),
{
    lemma_cut_id(bytes, at, keep);
    let area_at = take_id(bytes, at)->Ok_0.1;
    lemma_cut_u64(bytes, area_at, keep);
}

/// How to read a size record reads nothing behind the record and needs
/// all of it.
pub proof fn lemma_record_self_contained()
    ensures
        self_contained(record(), MIN_RECORD_BYTES as int),
{
    assert forall|bytes: Seq<u8>, at: int, keep: int|
        0 <= at && 0 <= keep <= bytes.len() && record()(bytes, at) is Ok implies cut_reads(
        record()(bytes, at),
        #[trigger] record()(bytes.take(keep), at),
        at,
        keep,
        MIN_RECORD_BYTES as int,
        bytes.len() as int,
    ) by {
        lemma_cut_record(bytes, at, keep);
    }
}

/// The raster reads nothing behind itself and needs all of itself.
pub proof fn lemma_cut_raster(bytes: Seq<u8>, at: int, keep: int)
    requires
        0 <= at,
        0 <= keep <= bytes.len(),
        take_raster(bytes, at) is Ok,
    ensures
        cut_reads(
            take_raster(bytes, at),
            take_raster(bytes.take(keep), at),
            at,
            keep,
            8,
            bytes.len() as int,
        ),
{
    lemma_cell_self_contained();
    lemma_cut_u32(bytes, at, keep);
    let count_at = take_u32(bytes, at)->Ok_0.1;
    lemma_cut_u32(bytes, count_at, keep);
    let (count, cells_at) = take_u32(bytes, count_at)->Ok_0;
    lemma_cut_many(cell(), MIN_CELL_BYTES as int, bytes, cells_at, count as nat, keep);
    assert(count * MIN_CELL_BYTES >= 0);
}

/// The size table reads nothing behind itself and needs all of itself.
pub proof fn lemma_cut_sizes(bytes: Seq<u8>, at: int, keep: int)
    requires
        0 <= at,
        0 <= keep <= bytes.len(),
        take_sizes(bytes, at) is Ok,
    ensures
        cut_reads(
            take_sizes(bytes, at),
            take_sizes(bytes.take(keep), at),
            at,
            keep,
            4,
            bytes.len() as int,
        ),
{
    lemma_record_self_contained();
    lemma_cut_u32(bytes, at, keep);
    let (count, start) = take_u32(bytes, at)->Ok_0;
    lemma_cut_counted(record(), MIN_RECORD_BYTES as int, bytes, start, count as nat, keep);
    assert(count * MIN_RECORD_BYTES >= 0);
}

/// A list that announces more items than the rest of the stream can hold
/// is not read, whatever follows.
pub proof fn lemma_count_beyond_stream<T>(
    item: Take<T>,
    least: int,
    bytes: Seq<u8>,
    at: int,
    count: nat,
)
    requires
        count * least > bytes.len() - at,
    ensures
        take_counted(item, least, bytes, at, count) == Err::<(Seq<T>, int), DecodeError>(
            DecodeError::LengthExceedsInput,
        ),
{
}

/// A dataset that announces more cells than the stream behind the
/// announcement can hold is not read.
pub proof fn lemma_cell_count_beyond_stream(bytes: Seq<u8>)
    requires
        bytes.len() >= 10,
        u16_at(bytes, 0) == FORMAT_VERSION,
        u32_at(bytes, 6) * MIN_CELL_BYTES > bytes.len() - 10,
    ensures
        decode(bytes) == Err::<BoundariesView, DecodeError>(DecodeError::LengthExceedsInput),
{
}

/// Where the dataset of a stream ends.
pub open spec fn dataset_end(bytes: Seq<u8>) -> int {
    take_boundaries(bytes)->Ok_0.1
}

/// A stream that holds a dataset holds none once it is cut off anywhere
/// before the end of the dataset; cut off behind the dataset, it holds the
/// same dataset.
pub proof fn lemma_truncated_stream_fails(bytes: Seq<u8>, keep: int)
    requires
        decode(bytes) is Ok,
        0 <= keep <= bytes.len(),
    ensures
        14 <= dataset_end(bytes) <= bytes.len(),
        keep < dataset_end(bytes) ==> decode(bytes.take(keep)) is Err,
        keep >= dataset_end(bytes) ==> decode(bytes.take(keep)) == decode(bytes),
{
    lemma_cut_u16(bytes, 0, keep);
    let raster_at = take_u16(bytes, 0)->Ok_0.1;
    lemma_cut_raster(bytes, raster_at, keep);
    let sizes_at = take_raster(bytes, raster_at)->Ok_0.1;
    lemma_cut_sizes(bytes, sizes_at, keep);
}

} // verus!
