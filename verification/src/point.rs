use vstd::prelude::*;

verus! {

/// A position inside one raster cell.
///
/// `x` grows eastwards and `y` northwards; `0` is the cell's west (south)
/// edge and `0xffff` its east (north) edge.
#[derive(Clone, Copy, Debug, PartialEq, Eq, Structural)]
pub struct Point {
    pub x: u16,
    pub y: u16,
}

} // verus!
