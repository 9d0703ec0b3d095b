use vstd::prelude::*;

verus! {

/// Coordinates are whole multiples of a ten-millionth of a degree.
pub const UNITS_PER_DEGREE: i32 = 10_000_000;

/// 90 degrees, the latitude of the north pole.
pub const MAX_LATITUDE: i32 = 900_000_000;

/// 180 degrees, the longitude of the antimeridian.
pub const MAX_LONGITUDE: i32 = 1_800_000_000;

/// 360 degrees, the way once around the earth.
pub const LONGITUDE_SPAN: i64 = 3_600_000_000;

/// 180 degrees, the way from pole to pole.
pub const LATITUDE_SPAN: i64 = 1_800_000_000;

/// The largest local coordinate inside a cell.
pub const LOCAL_MAX: u16 = 0xffff;

/// `value` moved by a whole number of `base` into `[start, start + base)`.
pub open spec fn wrap(value: int, start: int, base: int) -> int {
    start + (value - start) % base
}

/// A longitude folded into `[-180, 180)` degrees.
pub open spec fn normalized_longitude(longitude: int) -> int {
    wrap(longitude, -MAX_LONGITUDE as int, LONGITUDE_SPAN as int)
}

/// `a / b` rounded towards positive infinity, for a positive `b`.
pub open spec fn div_ceil(a: int, b: int) -> int {
    (a + b - 1) / b
}

/// `value` held to `[low, high]`.
pub open spec fn clamp(value: int, low: int, high: int) -> int {
    if value < low {
        low
    } else if value > high {
        high
    } else {
        value
    }
}

/// The column of a raster of `width` columns that `longitude` falls in:
/// `floor(width * (180 + longitude) / 360)`, held to the last column.
pub open spec fn cell_x(width: int, longitude: int) -> int {
    clamp(width * (MAX_LONGITUDE + longitude) / (LONGITUDE_SPAN as int), 0, width - 1)
}

/// The row of a raster of `height` rows that `latitude` falls in, counted
/// from the north: `ceil(height * (90 - latitude) / 180) - 1`, but never
/// below row 0.
pub open spec fn cell_y(height: int, latitude: int) -> int {
    clamp(div_ceil(height * (MAX_LATITUDE - latitude), LATITUDE_SPAN as int) - 1, 0, height - 1)
}

/// How far east of the west edge of column `column` the `longitude` lies,
/// where the width of one column counts as [`LOCAL_MAX`], rounded down
/// and held to `[0, LOCAL_MAX]`.
pub open spec fn local_x(width: int, column: int, longitude: int) -> int {
    clamp(
        (width * (MAX_LONGITUDE + longitude) - column * LONGITUDE_SPAN) * LOCAL_MAX / (LONGITUDE_SPAN as int),
        0,
        LOCAL_MAX as int,
    )
}

/// How far north of the south edge of row `row` the `latitude` lies,
/// where the height of one row counts as [`LOCAL_MAX`], rounded down and
/// held to `[0, LOCAL_MAX]`.
pub open spec fn local_y(height: int, row: int, latitude: int) -> int {
    clamp(
        ((row + 1) * LATITUDE_SPAN - height * (MAX_LATITUDE - latitude)) * LOCAL_MAX / (LATITUDE_SPAN as int),
        0,
        LOCAL_MAX as int,
    )
}

/// Whether a latitude lies between the poles.
pub open spec fn latitude_in_range(latitude: int) -> bool {
    -MAX_LATITUDE <= latitude <= MAX_LATITUDE
}

/// Whether a longitude lies between the two sides of the antimeridian.
pub open spec fn longitude_in_range(longitude: int) -> bool {
    -MAX_LONGITUDE <= longitude <= MAX_LONGITUDE
}

/// A wrapped value lies in `[start, start + base)` and differs from
/// `value` by a multiple of `base`.
pub proof fn lemma_wrap(value: int, start: int, base: int)
    requires
        base > 0,
    ensures
        start <= wrap(value, start, base) < start + base,
        (wrap(value, start, base) - value) % base == 0,
        start <= value < start + base ==> wrap(value, start, base) == value,
{
    let d = value - start;
    vstd::arithmetic::div_mod::lemma_fundamental_div_mod(d, base);
    vstd::arithmetic::div_mod::lemma_mod_bound(d, base);
    let q = d / base;
    assert(wrap(value, start, base) - value == (-q) * base) by (nonlinear_arith)
        requires
            wrap(value, start, base) - value == -(base * q),
    ;
    vstd::arithmetic::div_mod::lemma_mod_multiples_basic(-q, base);
    if start <= value < start + base {
        vstd::arithmetic::div_mod::lemma_small_mod(d as nat, base as nat);
    }
}

/// Both sides of the antimeridian fold to the same longitude, and every
/// other longitude in range stays what it is.
pub proof fn lemma_normalized_longitude(longitude: int)
    requires
        longitude_in_range(longitude),
    ensures
        -MAX_LONGITUDE <= normalized_longitude(longitude) < MAX_LONGITUDE,
        longitude < MAX_LONGITUDE ==> normalized_longitude(longitude) == longitude,
        longitude == MAX_LONGITUDE ==> normalized_longitude(longitude) == -MAX_LONGITUDE,
{
}

/// The column of a longitude in range is a column of the raster, and the
/// longitude lies between that column's west edge (which belongs to it)
/// and its east edge (which belongs to the next column, but for the
/// raster's own east edge).
pub proof fn lemma_cell_x(width: int, longitude: int)
    requires
        width >= 1,
        longitude_in_range(longitude),
    ensures
        0 <= cell_x(width, longitude) < width,
        cell_x(width, longitude) * LONGITUDE_SPAN <= width * (MAX_LONGITUDE + longitude),
        longitude < MAX_LONGITUDE ==> width * (MAX_LONGITUDE + longitude) < (cell_x(
            width,
            longitude,
        ) + 1) * LONGITUDE_SPAN,
        longitude == MAX_LONGITUDE ==> cell_x(width, longitude) == width - 1,
{
    let east = MAX_LONGITUDE + longitude;
    let t = width * east;
    assert(0 <= t <= width * 3_600_000_000) by (nonlinear_arith)
        requires
            t == width * east,
            width >= 1,
            0 <= east <= 3_600_000_000,
    ;
    assert(east < 3_600_000_000 ==> t <= width * 3_600_000_000 - width) by (nonlinear_arith)
        requires
            t == width * east,
            width >= 1,
            0 <= east <= 3_600_000_000,
    ;
    assert(east == 3_600_000_000 ==> t == width * 3_600_000_000);
}

/// [`div_ceil`] is the least number of divisors that reaches the dividend.
pub proof fn lemma_div_ceil(a: int, b: int)
    requires
        b > 0,
    ensures
        b * (div_ceil(a, b) - 1) < a <= b * div_ceil(a, b),
{
    vstd::arithmetic::div_mod::lemma_fundamental_div_mod(a + b - 1, b);
    vstd::arithmetic::div_mod::lemma_mod_bound(a + b - 1, b);
    let c = div_ceil(a, b);
    assert(b * (c - 1) == b * c - b) by (nonlinear_arith);
}

/// The row of a latitude in range is a row of the raster, and the
/// latitude lies between that row's south edge (which belongs to it) and
/// its north edge (which belongs to the row above, but for the raster's
/// own north edge).
pub proof fn lemma_cell_y(height: int, latitude: int)
    requires
        height >= 1,
        latitude_in_range(latitude),
    ensures
        0 <= cell_y(height, latitude) < height,
        height * (MAX_LATITUDE - latitude) <= (cell_y(height, latitude) + 1) * LATITUDE_SPAN,
        latitude < MAX_LATITUDE ==> cell_y(height, latitude) * LATITUDE_SPAN < height * (
        MAX_LATITUDE - latitude),
        latitude == MAX_LATITUDE ==> cell_y(height, latitude) == 0,
        latitude == -MAX_LATITUDE ==> cell_y(height, latitude) == height - 1,
{
    let south = MAX_LATITUDE - latitude;
    let t = height * south;
    assert(0 <= t <= height * 1_800_000_000) by (nonlinear_arith)
        requires
            t == height * south,
            height >= 1,
            0 <= south <= 1_800_000_000,
    ;
    assert(south > 0 ==> t >= 1) by (nonlinear_arith)
        requires
            t == height * south,
            height >= 1,
            0 <= south,
    ;
    assert(south == 1_800_000_000 ==> t == height * 1_800_000_000);
    assert(south == 0 ==> t == 0) by (nonlinear_arith)
        requires
            t == height * south,
    ;
}

/// Further north never means a higher row number.
pub proof fn lemma_cell_y_antitone(height: int, south: int, north: int)
    requires
        height >= 1,
        latitude_in_range(south),
        latitude_in_range(north),
        south <= north,
    ensures
        cell_y(height, north) <= cell_y(height, south),
{
    let a = height * (MAX_LATITUDE - north);
    let b = height * (MAX_LATITUDE - south);
    assert(a <= b) by (nonlinear_arith)
        requires
            a == height * (MAX_LATITUDE - north),
            b == height * (MAX_LATITUDE - south),
            height >= 1,
            south <= north,
    ;
    lemma_cell_y(height, south);
    lemma_cell_y(height, north);
}

/// Inside its own column a longitude needs no clamping: its offset from
/// the west edge, scaled to [`LOCAL_MAX`], is a local coordinate as it is.
pub proof fn lemma_local_x(width: int, longitude: int)
    requires
        width >= 1,
        longitude_in_range(longitude),
    ensures
        ({
            let column = cell_x(width, longitude);
            let offset = width * (MAX_LONGITUDE + longitude) - column * LONGITUDE_SPAN;
            &&& 0 <= offset <= LONGITUDE_SPAN
            &&& local_x(width, column, longitude) == offset * LOCAL_MAX / (LONGITUDE_SPAN as int)
            &&& longitude < MAX_LONGITUDE ==> local_x(width, column, longitude) < LOCAL_MAX
        }),
{
    lemma_cell_x(width, longitude);
    let column = cell_x(width, longitude);
    assert((column + 1) * LONGITUDE_SPAN == column * LONGITUDE_SPAN + LONGITUDE_SPAN) by (nonlinear_arith);
    assert((width - 1) * LONGITUDE_SPAN == width * LONGITUDE_SPAN - LONGITUDE_SPAN)
        by (nonlinear_arith);
}

/// Inside its own row a latitude needs no clamping: its offset from the
/// south edge, scaled to [`LOCAL_MAX`], is a local coordinate as it is.
pub proof fn lemma_local_y(height: int, latitude: int)
    requires
        height >= 1,
        latitude_in_range(latitude),
    ensures
        ({
            let row = cell_y(height, latitude);
            let offset = (row + 1) * LATITUDE_SPAN - height * (MAX_LATITUDE - latitude);
            &&& 0 <= offset <= LATITUDE_SPAN
            &&& local_y(height, row, latitude) == offset * LOCAL_MAX / (LATITUDE_SPAN as int)
            &&& latitude < MAX_LATITUDE ==> local_y(height, row, latitude) < LOCAL_MAX
        }),
{
    lemma_cell_y(height, latitude);
    let row = cell_y(height, latitude);
    assert((row + 1) * LATITUDE_SPAN == row * LATITUDE_SPAN + LATITUDE_SPAN)
        by (nonlinear_arith);
}

} // verus!
