use crate::bbox::{edges_in_range, BoundingBox};
use crate::cell::{lemma_is_in_iff_listed, Cell, CellView};
use crate::error::DecodeError;
use crate::format::decode;
use crate::grid::{
    cell_x, cell_y, latitude_in_range, lemma_cell_x, lemma_cell_y, lemma_cell_y_antitone,
    lemma_normalized_longitude, lemma_wrap, local_x, local_y, longitude_in_range,
    normalized_longitude, wrap, LATITUDE_SPAN, LOCAL_MAX, LONGITUDE_SPAN, MAX_LATITUDE,
    MAX_LONGITUDE,
};
use crate::ids::{add_missing, distinct_ids, retain_known, str_views};
use crate::latlon::LatLon;
use crate::order::{
    build_sizes, lemma_sorted_holds_the_same, records_view, sizes_map, sort_by_size, stably_sorted,
};
use crate::walk::CellWalk;
use crate::point::Point;
use vstd::hash_map::StringHashMap;
use vstd::prelude::*;

verus! {

/// The raster of cells, how many of them make a row, and the area of each
/// region by which answers are ordered.
pub struct CountryBoundaries {
    /// the rows of the raster from north to south, each from west to east
    raster: Vec<Cell>,
    /// number of cells in a row
    raster_width: usize,
    /// area of each region, as the bits of an IEEE 754 double
    geometry_sizes: StringHashMap<u64>,
}

/// The mathematical content of a [`CountryBoundaries`].
pub struct BoundariesView {
    pub raster: Seq<CellView>,
    pub width: int,
    pub sizes: Map<Seq<char>, u64>,
}

/// The cells of a vector of cells.
pub open spec fn cells_view(cells: Seq<Cell>) -> Seq<CellView> {
    Seq::new(cells.len(), |i: int| cells[i]@)
}

/// Whether `len` cells fill at least one row of `width` cells, and only
/// whole rows.
pub open spec fn raster_fits(len: int, width: int) -> bool {
    width >= 1 && len >= 1 && len % width == 0
}

impl BoundariesView {
    /// Whether the raster is made of whole rows, at least one.
    pub open spec fn wf(self) -> bool {
        raster_fits(self.raster.len() as int, self.width)
    }

    /// Number of rows of the raster.
    pub open spec fn height(self) -> int {
        (self.raster.len() as int) / self.width
    }

    /// Place in the raster of the cell that a position falls in.
    pub open spec fn cell_index(self, latitude: int, longitude: int) -> int {
        cell_y(self.height(), latitude) * self.width + cell_x(
            self.width,
            normalized_longitude(longitude),
        )
    }

    /// The cell that a position falls in.
    pub open spec fn cell_at(self, latitude: int, longitude: int) -> CellView {
        self.raster[self.cell_index(latitude, longitude)]
    }

    /// Whether a position lies in region `id`.
    pub open spec fn is_in(self, latitude: int, longitude: int, id: Seq<char>) -> bool {
        self.cell_at(latitude, longitude).is_in(self.local_point(latitude, longitude), id)
    }

    /// Whether a position lies in at least one of the regions `ids`.
    pub open spec fn is_in_any(self, latitude: int, longitude: int, ids: Seq<Seq<char>>) -> bool {
        self.cell_at(latitude, longitude).is_in_any(self.local_point(latitude, longitude), ids)
    }

    /// The regions that a position lies in, in the order in which its cell
    /// lists them.
    pub open spec fn listed_ids(self, latitude: int, longitude: int) -> Seq<Seq<char>> {
        self.cell_at(latitude, longitude).get_ids(self.local_point(latitude, longitude))
    }

    /// The rectangle of cells that a bounding box touches: from the column of
    /// its western edge eastwards to the column of its eastern edge, around
    /// the raster where the western edge lies east of the eastern one, and
    /// from the row of its northern edge to the row of its southern edge.
    pub open spec fn walk(self, south: int, west: int, north: int, east: int) -> CellWalk {
        let min_x = cell_x(self.width, normalized_longitude(west));
        let max_x = cell_x(self.width, normalized_longitude(east));
        let min_y = cell_y(self.height(), north);
        let max_y = cell_y(self.height(), south);
        CellWalk {
            cells: self.raster.len() as usize,
            width: self.width as usize,
            min_x: min_x as usize,
            min_y: min_y as usize,
            steps_x: (if min_x > max_x {
                self.width - min_x + max_x
            } else {
                max_x - min_x
            }) as usize,
            steps_y: (max_y - min_y) as usize,
            x_step: 0,
            y_step: 0,
        }
    }

    /// The regions that cover every cell that a bounding box touches.
    pub open spec fn containing_ids(self, south: int, west: int, north: int, east: int) -> Set<
        Seq<char>,
    > {
        let walk = self.walk(south, west, north, east);
        Set::new(
            |id: Seq<char>|
                forall|i: int, j: int|
                    walk.covers(i, j) ==> self.raster[#[trigger] walk.index(
                        i,
                        j,
                    )].containing_ids.contains(id),
        )
    }

    /// The regions that have a part in some cell that a bounding box
    /// touches.
    pub open spec fn intersecting_ids(self, south: int, west: int, north: int, east: int) -> Set<
        Seq<char>,
    > {
        let walk = self.walk(south, west, north, east);
        Set::new(
            |id: Seq<char>|
                exists|i: int, j: int|
                    walk.covers(i, j) && self.raster[#[trigger] walk.index(
                        i,
                        j,
                    )].get_all_ids().contains(id),
        )
    }

    /// Where inside its cell a position lies.
    pub open spec fn local_point(self, latitude: int, longitude: int) -> Point {
        Point {
            x: local_x(
                self.width,
                cell_x(self.width, normalized_longitude(longitude)),
                normalized_longitude(longitude),
            ) as u16,
            y: local_y(self.height(), cell_y(self.height(), latitude), latitude) as u16,
        }
    }
}

/// Whether region `id` covers every cell that `walk` has passed.
pub open spec fn covers_all_passed(raster: Seq<CellView>, walk: CellWalk, id: Seq<char>) -> bool {
    forall|i: int, j: int|
        walk.passed(i, j) ==> raster[#[trigger] walk.index(i, j)].containing_ids.contains(id)
}

/// Whether region `id` has a part in some cell that `walk` has passed.
pub open spec fn met_on_the_way(raster: Seq<CellView>, walk: CellWalk, id: Seq<char>) -> bool {
    exists|i: int, j: int|
        walk.passed(i, j) && raster[#[trigger] walk.index(i, j)].get_all_ids().contains(id)
}

/// What one more cell changes: a region covers all cells passed if it
/// covered those passed before and covers the new one; it has been met if
/// it had been met before or has a part in the new one.
pub proof fn lemma_one_more_cell(raster: Seq<CellView>, walk: CellWalk, id: Seq<char>)
    requires
        walk.wf(),
        !walk.done(),
    ensures
        covers_all_passed(raster, walk.advanced(), id) <==> covers_all_passed(raster, walk, id)
            && raster[walk.index(
            walk.x_step as int,
            walk.y_step as int,
        )].containing_ids.contains(id),
        met_on_the_way(raster, walk.advanced(), id) <==> met_on_the_way(raster, walk, id)
            || raster[walk.index(walk.x_step as int, walk.y_step as int)].get_all_ids().contains(
            id,
        ),
{
    let next = walk.advanced();
    let x = walk.x_step as int;
    let y = walk.y_step as int;
    assert forall|i: int, j: int| next.index(i, j) == walk.index(i, j) by {}
    assert forall|i: int, j: int|
        next.passed(i, j) <==> walk.passed(i, j) || (i == x && j == y) by {
        walk.lemma_passed(i, j);
    }
    if covers_all_passed(raster, next, id) {
        assert(next.passed(x, y));
        assert(raster[next.index(x, y)].containing_ids.contains(id));
        assert forall|i: int, j: int| walk.passed(i, j) implies raster[#[trigger] walk.index(
            i,
            j,
        )].containing_ids.contains(id) by {
            assert(next.passed(i, j));
            assert(raster[next.index(i, j)].containing_ids.contains(id));
        }
    }
    if covers_all_passed(raster, walk, id) && raster[walk.index(x, y)].containing_ids.contains(id) {
        assert forall|i: int, j: int| next.passed(i, j) implies raster[#[trigger] next.index(
            i,
            j,
        )].containing_ids.contains(id) by {
            if walk.passed(i, j) {
                assert(raster[walk.index(i, j)].containing_ids.contains(id));
            }
        }
    }
    if met_on_the_way(raster, next, id) {
        let (i, j) = choose|i: int, j: int|
            next.passed(i, j) && raster[#[trigger] next.index(i, j)].get_all_ids().contains(id);
        if walk.passed(i, j) {
            assert(raster[walk.index(i, j)].get_all_ids().contains(id));
        }
    }
    if met_on_the_way(raster, walk, id) {
        let (i, j) = choose|i: int, j: int|
            walk.passed(i, j) && raster[#[trigger] walk.index(i, j)].get_all_ids().contains(id);
        assert(next.passed(i, j));
        assert(raster[next.index(i, j)].get_all_ids().contains(id));
    }
    if raster[walk.index(x, y)].get_all_ids().contains(id) {
        assert(next.passed(x, y));
        assert(raster[next.index(x, y)].get_all_ids().contains(id));
    }
}

/// A raster of whole rows has as many cells as rows times columns.
pub proof fn lemma_raster_size(len: int, width: int)
    requires
        raster_fits(len, width),
    ensures
        len / width >= 1,
        (len / width) * width == len,
{
    vstd::arithmetic::div_mod::lemma_fundamental_div_mod(len, width);
    let h = len / width;
    assert(h * width == width * h) by (nonlinear_arith);
    assert(h >= 1) by (nonlinear_arith)
        requires
            h * width == len,
            len >= 1,
            width >= 1,
    ;
}

/// Column `x` of row `y` is a cell of the raster.
pub proof fn lemma_cell_in_raster(len: int, width: int, x: int, y: int)
    requires
        raster_fits(len, width),
        0 <= x < width,
        0 <= y < len / width,
    ensures
        0 <= y * width + x < len,
        y * width <= len,
{
    lemma_raster_size(len, width);
    let h = len / width;
    assert(0 <= y * width && y * width + width <= h * width) by (nonlinear_arith)
        requires
            0 <= y < h,
            width >= 1,
    ;
}

/// The rectangle of cells that a bounding box touches lies in the raster.
pub proof fn lemma_walk_in_raster(
    boundaries: BoundariesView,
    south: int,
    west: int,
    north: int,
    east: int,
)
    requires
        boundaries.wf(),
        boundaries.raster.len() <= usize::MAX,
        edges_in_range(south, west, north, east),
    ensures
        boundaries.walk(south, west, north, east).wf(),
        boundaries.walk(south, west, north, east).covers(0, 0),
{
    let len = boundaries.raster.len() as int;
    let width = boundaries.width;
    let height = boundaries.height();
    lemma_raster_size(len, width);
    assert(width <= len) by (nonlinear_arith)
        requires
            height * width == len,
            height >= 1,
            width >= 1,
    ;
    assert(height <= len) by (nonlinear_arith)
        requires
            height * width == len,
            height >= 1,
            width >= 1,
    ;
    lemma_normalized_longitude(west);
    lemma_normalized_longitude(east);
    lemma_cell_x(width, normalized_longitude(west));
    lemma_cell_x(width, normalized_longitude(east));
    lemma_cell_y(height, north);
    lemma_cell_y(height, south);
    lemma_cell_y_antitone(height, south, north);
    let max_y = cell_y(height, south);
    assert((max_y + 1) * width <= height * width) by (nonlinear_arith)
        requires
            0 <= max_y < height,
            width >= 1,
    ;
}

/// Both sides of the antimeridian are one place: at the same latitude,
/// longitude 180 and longitude -180 fall in the same cell and on the same
/// point of it.
pub proof fn lemma_antimeridian_is_one_place(boundaries: BoundariesView, latitude: int)
    ensures
        boundaries.cell_index(latitude, MAX_LONGITUDE as int) == boundaries.cell_index(
            latitude,
            -MAX_LONGITUDE as int,
        ),
        boundaries.cell_at(latitude, MAX_LONGITUDE as int) == boundaries.cell_at(
            latitude,
            -MAX_LONGITUDE as int,
        ),
        boundaries.local_point(latitude, MAX_LONGITUDE as int) == boundaries.local_point(
            latitude,
            -MAX_LONGITUDE as int,
        ),
        boundaries.listed_ids(latitude, MAX_LONGITUDE as int) == boundaries.listed_ids(
            latitude,
            -MAX_LONGITUDE as int,
        ),
        forall|id: Seq<char>|
            boundaries.is_in(latitude, MAX_LONGITUDE as int, id) == boundaries.is_in(
                latitude,
                -MAX_LONGITUDE as int,
                id,
            ),
        forall|ids: Seq<Seq<char>>|
            boundaries.is_in_any(latitude, MAX_LONGITUDE as int, ids) == boundaries.is_in_any(
                latitude,
                -MAX_LONGITUDE as int,
                ids,
            ),
{
    lemma_normalized_longitude(MAX_LONGITUDE as int);
    lemma_normalized_longitude(-MAX_LONGITUDE as int);
}

/// A bounding box whose eastern or western edge is the antimeridian
/// touches the same cells whichever side of it the edge is given on.
pub proof fn lemma_antimeridian_is_one_edge(
    boundaries: BoundariesView,
    south: int,
    north: int,
    other: int,
)
    ensures
        boundaries.walk(south, MAX_LONGITUDE as int, north, other) == boundaries.walk(
            south,
            -MAX_LONGITUDE as int,
            north,
            other,
        ),
        boundaries.walk(south, other, north, MAX_LONGITUDE as int) == boundaries.walk(
            south,
            other,
            north,
            -MAX_LONGITUDE as int,
        ),
        boundaries.containing_ids(south, MAX_LONGITUDE as int, north, other)
            == boundaries.containing_ids(south, -MAX_LONGITUDE as int, north, other),
        boundaries.containing_ids(south, other, north, MAX_LONGITUDE as int)
            == boundaries.containing_ids(south, other, north, -MAX_LONGITUDE as int),
        boundaries.intersecting_ids(south, MAX_LONGITUDE as int, north, other)
            == boundaries.intersecting_ids(south, -MAX_LONGITUDE as int, north, other),
        boundaries.intersecting_ids(south, other, north, MAX_LONGITUDE as int)
            == boundaries.intersecting_ids(south, other, north, -MAX_LONGITUDE as int),
{
    lemma_normalized_longitude(MAX_LONGITUDE as int);
    lemma_normalized_longitude(-MAX_LONGITUDE as int);
}

/// A region that covers every cell that a bounding box touches has a part
/// in some cell that it touches.
pub proof fn lemma_containing_ids_intersect(
    boundaries: BoundariesView,
    south: int,
    west: int,
    north: int,
    east: int,
)
    requires
        boundaries.wf(),
        boundaries.raster.len() <= usize::MAX,
        edges_in_range(south, west, north, east),
    ensures
        boundaries.containing_ids(south, west, north, east).subset_of(
            boundaries.intersecting_ids(south, west, north, east),
        ),
{
    lemma_walk_in_raster(boundaries, south, west, north, east);
    let walk = boundaries.walk(south, west, north, east);
    assert forall|id: Seq<char>|
        boundaries.containing_ids(south, west, north, east).contains(
            id,
        ) implies boundaries.intersecting_ids(south, west, north, east).contains(id) by {
        let first = boundaries.raster[walk.index(0, 0)];
        assert(walk.covers(0, 0));
        assert(first.containing_ids.contains(id));
        let k = choose|k: int| 0 <= k < first.containing_ids.len() && first.containing_ids[k] == id;
        assert(first.get_all_ids()[k] == id);
    }
}

/// The regions that are given for a position are the regions that the
/// position lies in: whatever orders the regions that the cell lists
/// holds a region exactly if the position lies in it.
pub proof fn lemma_ids_are_where_the_position_is(
    boundaries: BoundariesView,
    latitude: int,
    longitude: int,
    ids: Seq<Seq<char>>,
    id: Seq<char>,
)
    requires
        stably_sorted(boundaries.sizes, ids, boundaries.listed_ids(latitude, longitude)),
    ensures
        ids.contains(id) <==> boundaries.is_in(latitude, longitude, id),
{
    lemma_sorted_holds_the_same(
        boundaries.sizes,
        ids,
        boundaries.listed_ids(latitude, longitude),
        id,
    );
    lemma_is_in_iff_listed(
        boundaries.cell_at(latitude, longitude),
        boundaries.local_point(latitude, longitude),
        id,
    );
}

/// A cell that no region covers leaves no region that covers a bounding
/// box that touches it, whatever the other cells hold.
pub proof fn lemma_empty_cell_leaves_nothing(
    boundaries: BoundariesView,
    south: int,
    west: int,
    north: int,
    east: int,
    i: int,
    j: int,
)
    requires
        boundaries.walk(south, west, north, east).covers(i, j),
        boundaries.raster[boundaries.walk(south, west, north, east).index(
            i,
            j,
        )].containing_ids.len() == 0,
    ensures
        boundaries.containing_ids(south, west, north, east) == Set::<Seq<char>>::empty(),
{
    let walk = boundaries.walk(south, west, north, east);
    assert forall|id: Seq<char>| !boundaries.containing_ids(south, west, north, east).contains(
        id,
    ) by {
        assert(!boundaries.raster[walk.index(i, j)].containing_ids.contains(id));
    }
    assert(boundaries.containing_ids(south, west, north, east) =~= Set::<Seq<char>>::empty());
}

/// Moves `value` by a whole number of `base` into `[start_at, start_at + base)`.
pub fn normalize(value: i64, start_at: i64, base: i64) -> (wrapped: i64)
    requires
        base > 0,
        start_at + base - 1 <= i64::MAX,
    ensures
        wrapped == wrap(value as int, start_at as int, base as int),
        start_at <= wrapped < start_at + base,
{
    proof {
        lemma_wrap(value as int, start_at as int, base as int);
    }
    let distance: i128 = value as i128 - start_at as i128;
    let modulus: u128 = base as u128;
    let rest: u128 = if distance >= 0 {
        (distance as u128) % modulus
    } else {
        let beyond: u128 = ((-distance) as u128) % modulus;
        proof {
            let d = distance as int;
            let b = base as int;
            vstd::arithmetic::div_mod::lemma_fundamental_div_mod(-d, b);
            let q = (-d) / b;
            if beyond == 0 {
                assert(d == (-q) * b + 0) by (nonlinear_arith)
                    requires
                        -d == b * q,
                ;
                vstd::arithmetic::div_mod::lemma_fundamental_div_mod_converse(d, b, -q, 0);
            } else {
                assert(d == (-q - 1) * b + (b - beyond)) by (nonlinear_arith)
                    requires
                        -d == b * q + beyond,
                ;
                vstd::arithmetic::div_mod::lemma_fundamental_div_mod_converse(
                    d,
                    b,
                    -q - 1,
                    b - beyond,
                );
            }
        }
        if beyond == 0 {
            0
        } else {
            modulus - beyond
        }
    };
    (start_at as i128 + rest as i128) as i64
}

impl View for CountryBoundaries {
    type V = BoundariesView;

    closed spec fn view(&self) -> BoundariesView {
        BoundariesView {
            raster: cells_view(self.raster@),
            width: self.raster_width as int,
            sizes: self.geometry_sizes@,
        }
    }
}

impl CountryBoundaries {
    #[verifier::type_invariant]
    spec fn whole_rows(self) -> bool {
        raster_fits(self.raster.len() as int, self.raster_width as int)
    }

    /// An index over `raster`, whose cells are the rows of the raster from
    /// north to south, each row `raster_width` cells from west to east.
    /// `geometry_sizes` gives the area of regions as the bits of a double.
    ///
    /// There is no index over an empty raster or over one with an incomplete
    /// row.
    pub fn new(raster: Vec<Cell>, raster_width: usize, geometry_sizes: Vec<(String, u64)>) -> (boundaries:
        Option<CountryBoundaries>)
        ensures
            boundaries is Some <==> raster_fits(raster.len() as int, raster_width as int),
            boundaries matches Some(made) ==> made@ == (BoundariesView {
                raster: cells_view(raster@),
                width: raster_width as int,
                sizes: sizes_map(records_view(geometry_sizes@)),
            }),
    {
        if raster_width == 0 || raster.len() == 0 || raster.len() % raster_width != 0 {
            return None;
        }
        let sizes: StringHashMap<u64> = build_sizes(&geometry_sizes);
        Some(CountryBoundaries { raster, raster_width, geometry_sizes: sizes })
    }

    /// Builds the index that a stream of bytes holds, or says why the
    /// stream holds none.
    pub fn from_reader(reader: &[u8]) -> (read: Result<CountryBoundaries, DecodeError>)
        ensures
            match decode(reader@) {
                Ok(wanted) => read matches Ok(boundaries) && boundaries@ == wanted,
                Err(fault) => read matches Err(found) && found == fault,
            },
    {
        crate::deserializer::from_reader(reader)
    }

    /// Whether `position` lies in the region `id`.
    pub fn is_in(&self, position: LatLon, id: &str) -> (inside: bool)
        ensures
            inside == self@.is_in(position.lat(), position.lon(), id@),
    {
        let (cell, point) = self.cell_and_local_point(position);
        cell.is_in(point, id)
    }

    /// Whether `position` lies in at least one of the regions `ids`.
    pub fn is_in_any(&self, position: LatLon, ids: &[&str]) -> (inside: bool)
        ensures
            inside == self@.is_in_any(position.lat(), position.lon(), str_views(ids@)),
    {
        let (cell, point) = self.cell_and_local_point(position);
        cell.is_in_any(point, ids)
    }

    /// The regions that `position` lies in, smallest area first. Regions of
    /// equal area, and so all regions of unknown area, stay in the order
    /// in which the cell lists them.
    pub fn ids(&self, position: LatLon) -> (ids: Vec<&str>)
        ensures
            stably_sorted(
                self@.sizes,
                str_views(ids@),
                self@.listed_ids(position.lat(), position.lon()),
            ),
    {
        let (cell, point) = self.cell_and_local_point(position);
        let listed: Vec<&str> = cell.get_ids(point);
        sort_by_size(&listed, &self.geometry_sizes)
    }

    /// A walk over the cells that `bounds` touches.
    pub fn cells(&self, bounds: &BoundingBox) -> (walk: CellWalk)
        ensures
            walk == self@.walk(bounds.south(), bounds.west(), bounds.north(), bounds.east()),
            walk.wf(),
            walk.cells == self@.raster.len(),
            !walk.done(),
    {
        let south: i32 = bounds.min_latitude();
        let west: i32 = bounds.min_longitude();
        let north: i32 = bounds.max_latitude();
        let east: i32 = bounds.max_longitude();
        proof {
            use_type_invariant(self);
            lemma_normalized_longitude(west as int);
            lemma_normalized_longitude(east as int);
            lemma_walk_in_raster(self@, south as int, west as int, north as int, east as int);
            lemma_raster_size(self.raster.len() as int, self.raster_width as int);
            lemma_cell_y_antitone(self@.height(), south as int, north as int);
        }
        let normalized_min_longitude: i32 = normalize(
            west as i64,
            -(MAX_LONGITUDE as i64),
            LONGITUDE_SPAN,
        ) as i32;
        let normalized_max_longitude: i32 = normalize(
            east as i64,
            -(MAX_LONGITUDE as i64),
            LONGITUDE_SPAN,
        ) as i32;

        let min_x: usize = self.longitude_to_cell_x(normalized_min_longitude);
        let max_y: usize = self.latitude_to_cell_y(south);
        let max_x: usize = self.longitude_to_cell_x(normalized_max_longitude);
        let min_y: usize = self.latitude_to_cell_y(north);

        let steps_y: usize = max_y - min_y;
        // might wrap around
        let steps_x: usize = if min_x > max_x {
            self.raster_width - min_x + max_x
        } else {
            max_x - min_x
        };

        CellWalk {
            cells: self.raster.len(),
            width: self.raster_width,
            min_x,
            min_y,
            steps_x,
            steps_y,
            x_step: 0,
            y_step: 0,
        }
    }

    /// The regions that cover all of `bounds`, each once.
    ///
    /// The box may reach across the antimeridian: its western edge may be
    /// 170 degrees and its eastern edge -170 degrees.
    pub fn containing_ids(&self, bounds: BoundingBox) -> (ids: Vec<&str>)
        ensures
            str_views(ids@).no_duplicates(),
            str_views(ids@).to_set() == self@.containing_ids(
                bounds.south(),
                bounds.west(),
                bounds.north(),
                bounds.east(),
            ),
    {
        let mut walk: CellWalk = self.cells(&bounds);
        let ghost start = walk;
        let mut ids: Vec<&str> = Vec::new();
        let mut first_cell: bool = true;
        assert(str_views(ids@) =~= Seq::<Seq<char>>::empty());
        loop
            invariant
                walk.wf(),
                walk.restarted() == start,
                walk.cells == self.raster.len(),
                first_cell ==> walk == start && !walk.done(),
                str_views(ids@).no_duplicates(),
                !first_cell ==> forall|id: Seq<char>|
                    str_views(ids@).contains(id) <==> covers_all_passed(self@.raster, walk, id),
            ensures
                walk.done(),
            decreases walk.steps_y + 1 - walk.y_step, walk.steps_x - walk.x_step,
        {
            let ghost before = walk;
            match walk.next() {
                None => {
                    break ;
                },
                Some(at) => {
                    let cell: &Cell = &self.raster[at];
                    if first_cell {
                        ids = distinct_ids(&cell.containing_ids);
                        first_cell = false;
                    } else {
                        ids = retain_known(&ids, &cell.containing_ids);
                    }
                    proof {
                        before.lemma_rows_fit();
                        before.lemma_index_in_raster(before.x_step as int, before.y_step as int);
                        assert(cell@ == self@.raster[before.index(
                            before.x_step as int,
                            before.y_step as int,
                        )]);
                        assert forall|id: Seq<char>|
                            str_views(ids@).contains(id) <==> covers_all_passed(
                                self@.raster,
                                walk,
                                id,
                            ) by {
                            lemma_one_more_cell(self@.raster, before, id);
                            if before == start {
                                assert forall|i: int, j: int| !start.passed(i, j) by {
                                    start.lemma_passed(i, j);
                                }
                            }
                        }
                    }
                },
            }
        }
        proof {
            assert forall|id: Seq<char>|
                str_views(ids@).to_set().contains(id) <==> self@.containing_ids(
                    bounds.south(),
                    bounds.west(),
                    bounds.north(),
                    bounds.east(),
                ).contains(id) by {
                assert forall|i: int, j: int| walk.passed(i, j) <==> start.covers(i, j) by {
                    walk.lemma_passed(i, j);
                }
                assert forall|i: int, j: int| walk.index(i, j) == start.index(i, j) by {}
                if covers_all_passed(self@.raster, walk, id) {
                    assert forall|i: int, j: int| start.covers(i, j) implies self@.raster[
                    #[trigger] start.index(i, j)].containing_ids.contains(id) by {
                        assert(walk.passed(i, j));
                        assert(self@.raster[walk.index(i, j)].containing_ids.contains(id));
                    }
                }
            }
            assert(str_views(ids@).to_set() =~= self@.containing_ids(
                bounds.south(),
                bounds.west(),
                bounds.north(),
                bounds.east(),
            ));
        }
        ids
    }

    /// The regions that cover or at least reach into `bounds`, each once.
    ///
    /// The box may reach across the antimeridian: its western edge may be
    /// 170 degrees and its eastern edge -170 degrees.
    pub fn intersecting_ids(&self, bounds: BoundingBox) -> (ids: Vec<&str>)
        ensures
            str_views(ids@).no_duplicates(),
            str_views(ids@).to_set() == self@.intersecting_ids(
                bounds.south(),
                bounds.west(),
                bounds.north(),
                bounds.east(),
            ),
    {
        let mut walk: CellWalk = self.cells(&bounds);
        let ghost start = walk;
        let mut ids: Vec<&str> = Vec::new();
        assert(str_views(ids@) =~= Seq::<Seq<char>>::empty());
        proof {
            assert forall|id: Seq<char>| !met_on_the_way(self@.raster, walk, id) by {
                assert forall|i: int, j: int| !start.passed(i, j) by {
                    start.lemma_passed(i, j);
                }
            }
        }
        loop
            invariant
                walk.wf(),
                walk.restarted() == start,
                walk.cells == self.raster.len(),
                str_views(ids@).no_duplicates(),
                forall|id: Seq<char>|
                    str_views(ids@).contains(id) <==> met_on_the_way(self@.raster, walk, id),
            ensures
                walk.done(),
            decreases walk.steps_y + 1 - walk.y_step, walk.steps_x - walk.x_step,
        {
            let ghost before = walk;
            let ghost held = str_views(ids@);
            match walk.next() {
                None => {
                    break ;
                },
                Some(at) => {
                    let found: Vec<&str> = self.raster[at].get_all_ids();
                    add_missing(&mut ids, &found);
                    proof {
                        before.lemma_rows_fit();
                        before.lemma_index_in_raster(before.x_step as int, before.y_step as int);
                        assert(self.raster[at as int]@ == self@.raster[before.index(
                            before.x_step as int,
                            before.y_step as int,
                        )]);
                        assert forall|id: Seq<char>|
                            str_views(ids@).contains(id) <==> met_on_the_way(
                                self@.raster,
                                walk,
                                id,
                            ) by {
                            lemma_one_more_cell(self@.raster, before, id);
                            assert(held.contains(id) <==> met_on_the_way(
                                self@.raster,
                                before,
                                id,
                            ));
                            assert(str_views(ids@).contains(id) <==> held.contains(id)
                                || str_views(found@).contains(id));
                        }
                    }
                },
            }
        }
        proof {
            assert forall|id: Seq<char>|
                str_views(ids@).to_set().contains(id) <==> self@.intersecting_ids(
                    bounds.south(),
                    bounds.west(),
                    bounds.north(),
                    bounds.east(),
                ).contains(id) by {
                assert forall|i: int, j: int| walk.passed(i, j) <==> start.covers(i, j) by {
                    walk.lemma_passed(i, j);
                }
                assert forall|i: int, j: int| walk.index(i, j) == start.index(i, j) by {}
                if met_on_the_way(self@.raster, walk, id) {
                    let (i, j) = choose|i: int, j: int|
                        walk.passed(i, j) && self@.raster[#[trigger] walk.index(
                            i,
                            j,
                        )].get_all_ids().contains(id);
                    assert(start.covers(i, j));
                    assert(self@.raster[start.index(i, j)].get_all_ids().contains(id));
                }
                if self@.intersecting_ids(
                    bounds.south(),
                    bounds.west(),
                    bounds.north(),
                    bounds.east(),
                ).contains(id) {
                    let (i, j) = choose|i: int, j: int|
                        start.covers(i, j) && self@.raster[#[trigger] start.index(
                            i,
                            j,
                        )].get_all_ids().contains(id);
                    assert(walk.passed(i, j));
                    assert(self@.raster[walk.index(i, j)].get_all_ids().contains(id));
                }
            }
            assert(str_views(ids@).to_set() =~= self@.intersecting_ids(
                bounds.south(),
                bounds.west(),
                bounds.north(),
                bounds.east(),
            ));
        }
        ids
    }

    /// Number of cells in a row of the raster.
    pub fn raster_width(&self) -> (width: usize)
        ensures
            width == self@.width,
            self@.wf(),
    {
        proof {
            use_type_invariant(self);
        }
        self.raster_width
    }

    /// Number of rows of the raster.
    pub fn raster_height(&self) -> (height: usize)
        ensures
            height == self@.height(),
            height >= 1,
            self@.wf(),
    {
        proof {
            use_type_invariant(self);
            lemma_raster_size(self.raster.len() as int, self.raster_width as int);
        }
        self.raster.len() / self.raster_width
    }

    /// The cell in column `x` of row `y`.
    pub fn cell(&self, x: usize, y: usize) -> (cell: &Cell)
        requires
            x < self@.width,
            y < self@.height(),
        ensures
            cell@ == self@.raster[y * self@.width + x],
    {
        proof {
            use_type_invariant(self);
            lemma_cell_in_raster(
                self.raster.len() as int,
                self.raster_width as int,
                x as int,
                y as int,
            );
        }
        &self.raster[y * self.raster_width + x]
    }

    /// The column that a longitude of `[-180, 180]` degrees falls in.
    pub fn longitude_to_cell_x(&self, longitude: i32) -> (column: usize)
        requires
            longitude_in_range(longitude as int),
        ensures
            column == cell_x(self@.width, longitude as int),
            column < self@.width,
    {
        proof {
            use_type_invariant(self);
            lemma_cell_x(self.raster_width as int, longitude as int);
        }
        let east: u128 = (longitude as i64 + MAX_LONGITUDE as i64) as u128;
        let width: u128 = self.raster_width as u128;
        assert(width * east <= 0xffff_ffff_ffff_ffff * 3_600_000_000) by (nonlinear_arith)
            requires
                width <= 0xffff_ffff_ffff_ffff,
                east <= 3_600_000_000,
        ;
        let column: u128 = width * east / (LONGITUDE_SPAN as u128);
        if column >= width {
            self.raster_width - 1
        } else {
            column as usize
        }
    }

    /// The row that a latitude of `[-90, 90]` degrees falls in.
    pub fn latitude_to_cell_y(&self, latitude: i32) -> (row: usize)
        requires
            latitude_in_range(latitude as int),
        ensures
            row == cell_y(self@.height(), latitude as int),
            row < self@.height(),
    {
        let height: u128 = self.raster_height() as u128;
        proof {
            lemma_cell_y(height as int, latitude as int);
        }
        let south: u128 = (MAX_LATITUDE as i64 - latitude as i64) as u128;
        assert(height * south <= 0xffff_ffff_ffff_ffff * 1_800_000_000) by (nonlinear_arith)
            requires
                height <= 0xffff_ffff_ffff_ffff,
                south <= 1_800_000_000,
        ;
        let rows: u128 = (height * south + (LATITUDE_SPAN as u128 - 1)) / (LATITUDE_SPAN as u128);
        if rows == 0 {
            0
        } else {
            (rows - 1) as usize
        }
    }

    /// How far east of the west edge of column `cell_x` a longitude lies,
    /// in 65535ths of the column's width, rounded down and held to what a
    /// local coordinate can be.
    pub fn longitude_to_local_x(&self, cell_x: usize, longitude: i32) -> (x: u16)
        requires
            longitude_in_range(longitude as int),
        ensures
            x == local_x(self@.width, cell_x as int, longitude as int),
    {
        let east: i128 = longitude as i128 + MAX_LONGITUDE as i128;
        let width: i128 = self.raster_width as i128;
        let column: i128 = cell_x as i128;
        assert(0 <= width * east <= 0xffff_ffff_ffff_ffff * 3_600_000_000) by (nonlinear_arith)
            requires
                0 <= width <= 0xffff_ffff_ffff_ffff,
                0 <= east <= 3_600_000_000,
        ;
        assert(0 <= column * 3_600_000_000 <= 0xffff_ffff_ffff_ffff * 3_600_000_000)
            by (nonlinear_arith)
            requires
                0 <= column <= 0xffff_ffff_ffff_ffff,
        ;
        let offset: i128 = width * east - column * (LONGITUDE_SPAN as i128);
        scale_offset(offset, LONGITUDE_SPAN)
    }

    /// How far north of the south edge of row `cell_y` a latitude lies, in
    /// 65535ths of the row's height, rounded down and held to what a local
    /// coordinate can be.
    pub fn latitude_to_local_y(&self, cell_y: usize, latitude: i32) -> (y: u16)
        requires
            latitude_in_range(latitude as int),
        ensures
            y == local_y(self@.height(), cell_y as int, latitude as int),
    {
        let height: i128 = self.raster_height() as i128;
        let south: i128 = MAX_LATITUDE as i128 - latitude as i128;
        let row: i128 = cell_y as i128;
        assert(0 <= height * south <= 0xffff_ffff_ffff_ffff * 1_800_000_000) by (nonlinear_arith)
            requires
                0 <= height <= 0xffff_ffff_ffff_ffff,
                0 <= south <= 1_800_000_000,
        ;
        assert(0 <= (row + 1) * 1_800_000_000 <= 0x1_0000_0000_0000_0000 * 1_800_000_000)
            by (nonlinear_arith)
            requires
                0 <= row <= 0xffff_ffff_ffff_ffff,
        ;
        let offset: i128 = (row + 1) * (LATITUDE_SPAN as i128) - height * south;
        scale_offset(offset, LATITUDE_SPAN)
    }

    /// The cell that `position` falls in, and where in that cell it lies.
    pub fn cell_and_local_point(&self, position: LatLon) -> (found: (&Cell, Point))
        ensures
            found.0@ == self@.cell_at(position.lat(), position.lon()),
            found.1 == self@.local_point(position.lat(), position.lon()),
            self@.wf(),
    {
        let latitude: i32 = position.latitude();
        let longitude: i32 = position.longitude();
        proof {
            use_type_invariant(self);
            lemma_normalized_longitude(longitude as int);
        }
        let normalized_longitude: i32 = normalize(
            longitude as i64,
            -(MAX_LONGITUDE as i64),
            LONGITUDE_SPAN,
        ) as i32;
        let cell_x: usize = self.longitude_to_cell_x(normalized_longitude);
        let cell_y: usize = self.latitude_to_cell_y(latitude);
        (
            self.cell(cell_x, cell_y),
            Point {
                x: self.longitude_to_local_x(cell_x, normalized_longitude),
                y: self.latitude_to_local_y(cell_y, latitude),
            },
        )
    }
}

/// An offset inside a cell, where `span` is the extent of the whole
/// raster: scaled so that the cell's extent counts as 65535, rounded down
/// and held to what a local coordinate can be.
fn scale_offset(offset: i128, span: i64) -> (local: u16)
    requires
        span > 0,
        -0x1_0000_0000_0000_0000_0000_0000 <= offset <= 0x1_0000_0000_0000_0000_0000_0000,
    ensures
        local == crate::grid::clamp(offset * LOCAL_MAX / (span as int), 0, LOCAL_MAX as int),
{
    if offset <= 0 {
        proof {
            let scaled = offset * LOCAL_MAX;
            vstd::arithmetic::div_mod::lemma_fundamental_div_mod(scaled, span as int);
            vstd::arithmetic::div_mod::lemma_mod_bound(scaled, span as int);
            let q = scaled / (span as int);
            assert(q <= 0) by (nonlinear_arith)
                requires
                    scaled <= 0,
                    span > 0,
                    scaled == span * q + scaled % (span as int),
                    0 <= scaled % (span as int),
            ;
        }
        return 0;
    }
    assert(offset * 0xffff <= 0x1_0000_0000_0000_0000_0000_0000 * 0xffff) by (nonlinear_arith)
        requires
            offset <= 0x1_0000_0000_0000_0000_0000_0000,
    ;
    let scaled: u128 = (offset as u128) * (LOCAL_MAX as u128) / (span as u128);
    if scaled > LOCAL_MAX as u128 {
        LOCAL_MAX
    } else {
        scaled as u16
    }
}

} // verus!
