use vstd::prelude::*;

verus! {

/// A walk over the cells of a rectangle of the raster, row by row from
/// north to south and in each row from west to east.
///
/// The rectangle starts in column `min_x` of row `min_y` and reaches
/// `steps_x` columns further east and `steps_y` rows further south. East
/// of the last column of the raster it goes on in the first. `x_step` and
/// `y_step` tell which cell comes next.
#[derive(Clone, Copy, Debug)]
pub struct CellWalk {
    /// number of cells of the raster
    pub cells: usize,
    /// number of cells in a row of the raster
    pub width: usize,
    pub min_x: usize,
    pub min_y: usize,
    pub steps_x: usize,
    pub steps_y: usize,
    pub x_step: usize,
    pub y_step: usize,
}

impl CellWalk {
    /// Whether the rectangle lies in the raster and the next cell, if one
    /// is left, in the rectangle.
    pub open spec fn wf(self) -> bool {
        &&& self.width >= 1
        &&& self.min_x < self.width
        &&& self.steps_x < self.width
        &&& (self.min_y + self.steps_y + 1) * self.width <= self.cells
        &&& self.x_step <= self.steps_x
        &&& self.y_step <= self.steps_y + 1
        &&& self.y_step > self.steps_y ==> self.x_step == 0
    }

    /// Whether the cell `i` columns east and `j` rows south of the first
    /// belongs to the rectangle.
    pub open spec fn covers(self, i: int, j: int) -> bool {
        0 <= i <= self.steps_x && 0 <= j <= self.steps_y
    }

    /// Place in the raster of the cell `i` columns east and `j` rows south
    /// of the first.
    pub open spec fn index(self, i: int, j: int) -> int {
        (self.min_y + j) * self.width + (self.min_x + i) % (self.width as int)
    }

    /// Whether the walk is past the cell `i` columns east and `j` rows
    /// south of the first.
    pub open spec fn passed(self, i: int, j: int) -> bool {
        self.covers(i, j) && (j < self.y_step || (j == self.y_step && i < self.x_step))
    }

    /// Whether no cell is left.
    pub open spec fn done(self) -> bool {
        self.y_step > self.steps_y
    }

    /// The walk one cell further.
    pub open spec fn advanced(self) -> CellWalk {
        if self.x_step < self.steps_x {
            CellWalk { x_step: (self.x_step + 1) as usize, ..self }
        } else {
            CellWalk { x_step: 0, y_step: (self.y_step + 1) as usize, ..self }
        }
    }

    /// The same walk before its first cell.
    pub open spec fn restarted(self) -> CellWalk {
        CellWalk { x_step: 0, y_step: 0, ..self }
    }

    /// Every cell of the rectangle is a cell of the raster.
    pub proof fn lemma_index_in_raster(self, i: int, j: int)
        requires
            self.wf(),
            self.covers(i, j),
        ensures
            0 <= self.index(i, j) < self.cells,
            0 <= (self.min_y + j) * self.width <= self.cells - self.width,
    {
        let w = self.width as int;
        let row = self.min_y + j;
        let last = self.min_y + self.steps_y + 1;
        assert(0 <= row * w && row * w + w <= last * w) by (nonlinear_arith)
            requires
                0 <= row < last,
                w >= 1,
        ;
    }

    /// The raster has at least as many cells as the rectangle has rows.
    pub proof fn lemma_rows_fit(self)
        requires
            self.wf(),
        ensures
            self.min_y + self.steps_y + 1 <= self.cells,
    {
        let w = self.width as int;
        let last = self.min_y + self.steps_y + 1;
        assert(last <= last * w) by (nonlinear_arith)
            requires
                0 <= last,
                w >= 1,
        ;
    }

    /// A finished walk has passed every cell of its rectangle, and a walk
    /// that has taken one more cell has passed that cell besides.
    pub proof fn lemma_passed(self, i: int, j: int)
        requires
            self.wf(),
        ensures
            !self.restarted().passed(i, j),
            self.done() ==> (self.passed(i, j) <==> self.covers(i, j)),
            !self.done() ==> (self.advanced().passed(i, j) <==> self.passed(i, j) || (i
                == self.x_step && j == self.y_step)),
            !self.done() ==> self.advanced().wf() && self.covers(
                self.x_step as int,
                self.y_step as int,
            ),
    {
        self.lemma_rows_fit();
    }

    /// The place in the raster of the next cell, or `None` when the walk
    /// is over. Each call moves the walk one cell on.
    pub fn next(&mut self) -> (index: Option<usize>)
        requires
            old(self).wf(),
        ensures
            final(self).wf(),
            old(self).done() ==> index.is_none() && *final(self) == *old(self),
            !old(self).done() ==> index == Some(
                old(self).index(old(self).x_step as int, old(self).y_step as int) as usize,
            ) && index->Some_0 < old(self).cells && *final(self) == old(self).advanced(),
    {
        if self.y_step > self.steps_y {
            return None;
        }
        proof {
            self.lemma_rows_fit();
            self.lemma_index_in_raster(self.x_step as int, self.y_step as int);
        }
        let to_edge: usize = self.width - self.min_x;
        let x: usize = if self.x_step < to_edge {
            proof {
                vstd::arithmetic::div_mod::lemma_small_mod(
                    (self.min_x + self.x_step) as nat,
                    self.width as nat,
                );
            }
            self.min_x + self.x_step
        } else {
            proof {
                let around = self.min_x + self.x_step - self.width;
                vstd::arithmetic::div_mod::lemma_fundamental_div_mod_converse(
                    self.min_x + self.x_step,
                    self.width as int,
                    1,
                    around,
                );
            }
            self.x_step - to_edge
        };
        let y: usize = self.min_y + self.y_step;
        let index: usize = y * self.width + x;
        if self.x_step < self.steps_x {
            self.x_step += 1;
        } else {
            self.x_step = 0;
            self.y_step += 1;
        }
        Some(index)
    }
}

} // verus!
