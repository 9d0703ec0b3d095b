use crate::point::Point;
use vstd::prelude::*;

verus! {

/// Outer rings and holes of one region inside one cell. Every ring is
/// closed implicitly: its last vertex connects back to its first.
#[derive(Clone, Debug, PartialEq, Eq)]
pub struct Multipolygon {
    pub outer: Vec<Vec<Point>>,
    pub inner: Vec<Vec<Point>>,
}

/// The mathematical content of a [`Multipolygon`].
pub struct MultipolygonView {
    pub outer: Seq<Seq<Point>>,
    pub inner: Seq<Seq<Point>>,
}

/// The rings of a vector of rings, as sequences of points.
pub open spec fn rings_view(rings: Seq<Vec<Point>>) -> Seq<Seq<Point>> {
    Seq::new(rings.len(), |i: int| rings[i]@)
}

impl View for Multipolygon {
    type V = MultipolygonView;

    open spec fn view(&self) -> MultipolygonView {
        MultipolygonView { outer: rings_view(self.outer@), inner: rings_view(self.inner@) }
    }
}

/// Cross product of the vectors `p0 -> p1` and `p0 -> p`: positive when `p`
/// lies to the left of the directed line through `p0` and `p1`, negative
/// when it lies to the right, zero when it lies on the line.
pub open spec fn cross(p0: Point, p1: Point, p: Point) -> int {
    (p1.x - p0.x) * (p.y - p0.y) - (p.x - p0.x) * (p1.y - p0.y)
}

/// What the directed edge `a -> b` adds to the winding number around `p`:
/// `+1` for an edge that crosses the scanline of `p` upwards with `p` on its
/// left, `-1` for one that crosses it downwards with `p` on its right.
pub open spec fn edge_turn(a: Point, b: Point, p: Point) -> int {
    if a.y <= p.y < b.y && cross(a, b, p) > 0 {
        1
    } else if b.y <= p.y < a.y && cross(a, b, p) < 0 {
        -1
    } else {
        0
    }
}

/// The vertex that the edge ending in vertex `j` starts from.
pub open spec fn edge_start(ring: Seq<Point>, j: int) -> Point {
    if j == 0 {
        ring[ring.len() - 1]
    } else {
        ring[j - 1]
    }
}

/// Sum of [`edge_turn`] over the edges that end in the first `n` vertices.
pub open spec fn winding_upto(ring: Seq<Point>, p: Point, n: nat) -> int
    decreases n,
{
    if n == 0 {
        0
    } else {
        winding_upto(ring, p, (n - 1) as nat) + edge_turn(
            edge_start(ring, n - 1),
            ring[n - 1],
            p,
        )
    }
}

/// How often the closed ring winds around `p`.
pub open spec fn winding_number(ring: Seq<Point>, p: Point) -> int {
    winding_upto(ring, p, ring.len())
}

/// A ring contains the points it winds around.
pub open spec fn ring_contains(ring: Seq<Point>, p: Point) -> bool {
    winding_number(ring, p) != 0
}

/// Number of rings that contain `p`.
pub open spec fn rings_containing(rings: Seq<Seq<Point>>, p: Point) -> nat
    decreases rings.len(),
{
    if rings.len() == 0 {
        0
    } else {
        rings_containing(rings.drop_last(), p) + if ring_contains(rings.last(), p) {
            1nat
        } else {
            0nat
        }
    }
}

impl MultipolygonView {
    /// Each outer ring around `p` counts `+1`, each hole around it `-1`;
    /// `p` is covered when the sum is positive.
    pub open spec fn covers(self, p: Point) -> bool {
        rings_containing(self.outer, p) - rings_containing(self.inner, p) > 0
    }
}

/// A hole takes a point out of the region, and a ring inside the hole puts
/// it back: a point inside one outer ring and one hole is not covered, a
/// point inside two outer rings and one hole is.
pub proof fn lemma_hole_and_island(
    outer: Seq<Point>,
    hole: Seq<Point>,
    island: Seq<Point>,
    p: Point,
)
    requires
        ring_contains(outer, p),
        ring_contains(hole, p),
    ensures
        (MultipolygonView { outer: seq![outer], inner: Seq::empty() }).covers(p),
        !(MultipolygonView { outer: seq![outer], inner: seq![hole] }).covers(p),
        ring_contains(island, p) ==> (MultipolygonView {
            outer: seq![outer, island],
            inner: seq![hole],
        }).covers(p),
{
    reveal_with_fuel(rings_containing, 3);
    assert(seq![outer].drop_last() =~= Seq::<Seq<Point>>::empty());
    assert(seq![hole].drop_last() =~= Seq::<Seq<Point>>::empty());
    assert(seq![outer, island].drop_last() =~= seq![outer]);
}

/// The ring around an upright rectangle, from the lower left corner over
/// the upper left, the upper right and the lower right one.
pub open spec fn rectangle(left: u16, bottom: u16, right: u16, top: u16) -> Seq<Point> {
    seq![
        Point { x: left, y: bottom },
        Point { x: left, y: top },
        Point { x: right, y: top },
        Point { x: right, y: bottom },
    ]
}

/// The left and the lower edge of a rectangle belong to it, the right and
/// the upper edge do not.
pub proof fn lemma_rectangle_contains(left: u16, bottom: u16, right: u16, top: u16, p: Point)
    requires
        left < right,
        bottom < top,
    ensures
        ring_contains(rectangle(left, bottom, right, top), p) <==> left <= p.x < right && bottom
            <= p.y < top,
{
    let ring = rectangle(left, bottom, right, top);
    reveal_with_fuel(winding_upto, 5);
    let height = top - bottom;
    // the edge up the left side
    assert(cross(ring[0], ring[1], p) == -((p.x - left) * height)) by (nonlinear_arith)
        requires
            cross(ring[0], ring[1], p) == (left - left) * (p.y - bottom) - (p.x - left) * (top
                - bottom),
            height == top - bottom,
    ;
    assert((p.x - left) * height < 0 <==> p.x < left) by (nonlinear_arith)
        requires
            height > 0,
    ;
    // the edge down the right side
    assert(cross(ring[2], ring[3], p) == (p.x - right) * height) by (nonlinear_arith)
        requires
            cross(ring[2], ring[3], p) == (right - right) * (p.y - top) - (p.x - right) * (bottom
                - top),
            height == top - bottom,
    ;
    assert((p.x - right) * height < 0 <==> p.x < right) by (nonlinear_arith)
        requires
            height > 0,
    ;
    assert(edge_turn(ring[1], ring[2], p) == 0);
    assert(edge_turn(ring[3], ring[0], p) == 0);
}

/// Tells on which side of the line through `p0` and `p1` the point `p` lies.
pub fn is_left(p0: &Point, p1: &Point, p: &Point) -> (side: i64)
    ensures
        side == cross(*p0, *p1, *p),
{
    let ax: i64 = p1.x as i64 - p0.x as i64;
    let ay: i64 = p.y as i64 - p0.y as i64;
    let bx: i64 = p.x as i64 - p0.x as i64;
    let by: i64 = p1.y as i64 - p0.y as i64;
    assert(-0xffff_0000 <= ax * ay <= 0xffff_0000) by (nonlinear_arith)
        requires
            -0xffff <= ax <= 0xffff,
            -0xffff <= ay <= 0xffff,
    ;
    assert(-0xffff_0000 <= bx * by <= 0xffff_0000) by (nonlinear_arith)
        requires
            -0xffff <= bx <= 0xffff,
            -0xffff <= by <= 0xffff,
    ;
    ax * ay - bx * by
}

/// Winding number test of `p` against the closed ring `v`.
///
/// Points on a left or lower edge of the ring are inside, points on a
/// right or upper edge are outside. A ring without vertices contains
/// nothing.
pub fn is_point_in_polygon(p: &Point, v: &[Point]) -> (inside: bool)
    ensures
        inside == ring_contains(v@, *p),
{
    let n: usize = v.len();
    if n == 0 {
        return false;
    }
    // wide enough for a slice of any length
    let mut wn: i128 = 0;
    let mut i: usize = n - 1;
    let mut j: usize = 0;
    while j < n
        invariant
            n == v.len(),
            0 < n,
            j <= n,
            i == if j == 0 { n - 1 } else { j - 1 },
            wn == winding_upto(v@, *p, j as nat),
            -(j as int) <= wn <= j as int,
        decreases n - j,
    {
        if v[i].y <= p.y {
            if v[j].y > p.y {
                if is_left(&v[i], &v[j], p) > 0 {
                    wn += 1;
                }
            }
        } else {
            if v[j].y <= p.y {
                if is_left(&v[i], &v[j], p) < 0 {
                    wn -= 1;
                }
            }
        }
        i = j;
        j += 1;
    }
    wn != 0
}

/// Counts the rings that contain `point`.
fn count_containing(rings: &Vec<Vec<Point>>, point: &Point) -> (count: usize)
    ensures
        count == rings_containing(rings_view(rings@), *point),
{
    let ghost all = rings_view(rings@);
    let mut count: usize = 0;
    let mut i: usize = 0;
    while i < rings.len()
        invariant
            i <= rings.len(),
            all == rings_view(rings@),
            count <= i,
            count == rings_containing(all.take(i as int), *point),
        decreases rings.len() - i,
    {
        assert(all.take(i + 1).drop_last() =~= all.take(i as int));
        assert(all.take(i + 1).last() == rings[i as int]@);
        if is_point_in_polygon(point, rings[i].as_slice()) {
            count += 1;
        }
        i += 1;
    }
    assert(all.take(i as int) =~= all);
    count
}

impl Multipolygon {
    /// Whether `point` lies in the region: inside more outer rings than
    /// holes.
    pub fn covers(&self, point: &Point) -> (covered: bool)
        ensures
            covered == self@.covers(*point),
    {
        let outside: usize = count_containing(&self.outer, point);
        let holes: usize = count_containing(&self.inner, point);
        outside > holes
    }
}

} // verus!
