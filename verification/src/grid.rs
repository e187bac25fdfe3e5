//! Row-major square grids of elevation samples and of quantized levels.

use vstd::prelude::*;

verus! {

/// A square, row-major grid of raw elevation samples. Row 0 is the
/// northernmost row; column 0 is the westernmost column.
pub struct ElevationGrid {
    pub size: usize,
    pub cells: Vec<i32>,
}

impl ElevationGrid {
    pub open spec fn wf(&self) -> bool {
        &&& 1 <= self.size <= 1000
        &&& self.cells.len() == self.size * self.size
    }

    /// The sample at row `y`, column `x`.
    pub open spec fn cell_spec(&self, y: int, x: int) -> int {
        self.cells@[y * self.size + x] as int
    }

    /// Wraps `size * size` row-major samples; answers `None` iff the side
    /// length is out of range or the cell count does not match.
    pub fn from_cells(size: usize, cells: Vec<i32>) -> (r: Option<ElevationGrid>)
        ensures
            r.is_some() <==> (1 <= size <= 1000 && cells.len() == size * size),
            r.is_some() ==> r->0.size == size && r->0.cells == cells && r->0.wf(),
    {
        if 1 <= size && size <= 1000 {
            proof {
                vstd::arithmetic::mul::lemma_mul_upper_bound(size as int, 1000, size as int, 1000);
            }
            if cells.len() == size * size {
                Some(ElevationGrid { size, cells })
            } else {
                None
            }
        } else {
            None
        }
    }

    pub fn get(&self, y: usize, x: usize) -> (v: i32)
        requires
            self.wf(),
            y < self.size,
            x < self.size,
        ensures
            v as int == self.cell_spec(y as int, x as int),
    {
        proof {
            vstd::arithmetic::mul::lemma_mul_inequality(y as int + 1, self.size as int, self.size as int);
            vstd::arithmetic::mul::lemma_mul_is_distributive_add_other_way(self.size as int, y as int, 1);
        }
        self.cells[y * self.size + x]
    }
}

/// A square, row-major grid of quantized levels, in the same orientation as
/// the elevation grid it came from.
pub struct LevelGrid {
    pub size: usize,
    pub cells: Vec<u8>,
}

impl LevelGrid {
    pub open spec fn wf(&self) -> bool {
        &&& 1 <= self.size <= 1000
        &&& self.cells.len() == self.size * self.size
    }

    /// The level at row `y`, column `x`.
    pub open spec fn cell_spec(&self, y: int, x: int) -> int {
        self.cells@[y * self.size + x] as int
    }

    pub fn get(&self, y: usize, x: usize) -> (v: u8)
        requires
            self.wf(),
            y < self.size,
            x < self.size,
        ensures
            v as int == self.cell_spec(y as int, x as int),
    {
        proof {
            vstd::arithmetic::mul::lemma_mul_inequality(y as int + 1, self.size as int, self.size as int);
            vstd::arithmetic::mul::lemma_mul_is_distributive_add_other_way(self.size as int, y as int, 1);
        }
        self.cells[y * self.size + x]
    }
}

} // verus!
