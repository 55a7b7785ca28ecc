//! Cell addressing: from a position to the identifier of its cell.
use vstd::prelude::*;

use crate::geometry::{floor_div, Point};

verus! {

/// The flattened identifier of a cell. It is a hash of the cell's column and
/// row, `column + row * width`; positions outside the world may share one.
pub type CellId = i128;

/// The column and row of a cell: the floors of a position divided by the cell size.
#[derive(Clone, Copy, Debug, PartialEq, Eq, Structural)]
pub struct CellCoord {
    pub col: i64,
    pub row: i64,
}

/// Number of cells of side `cell_size` needed to cover `extent` units.
pub open spec fn cells_to_cover(extent: int, cell_size: int) -> int {
    if extent % cell_size == 0 {
        extent / cell_size
    } else {
        extent / cell_size + 1
    }
}

/// Cell size and grid dimensions (in cells).
#[derive(Clone, Copy, Debug, PartialEq, Eq, Structural)]
pub struct GridInfo {
    pub cell_size: u32,
    pub width: u32,
    pub height: u32,
}

impl GridInfo {
    /// Cell size positive and at least one cell in each direction.
    pub open spec fn wf(self) -> bool {
        &&& self.cell_size > 0
        &&& self.width >= 1
        &&& self.height >= 1
    }

    /// Column of the cell holding the coordinate `x`.
    pub open spec fn spec_col(self, x: int) -> int {
        x / (self.cell_size as int)
    }

    /// The cell coordinates of a position.
    pub open spec fn spec_coord_of(self, p: Point) -> (int, int) {
        (self.spec_col(p.x as int), self.spec_col(p.y as int))
    }

    /// The cell at `(col, row)` is one of the grid's `width * height` cells.
    pub open spec fn in_grid(self, col: int, row: int) -> bool {
        0 <= col < self.width && 0 <= row < self.height
    }

    /// `p` lies inside the world that the grid covers.
    pub open spec fn in_world(self, p: Point) -> bool {
        self.in_grid(self.spec_col(p.x as int), self.spec_col(p.y as int))
    }

    /// Flattened identifier of the cell at column `col` and row `row`.
    pub open spec fn spec_id_of_coord(self, col: int, row: int) -> int {
        col + row * (self.width as int)
    }

    /// Identifier of the cell holding `p`: `floor(x / s) + floor(y / s) * width`.
    pub open spec fn spec_cell_id(self, p: Point) -> int {
        self.spec_id_of_coord(self.spec_col(p.x as int), self.spec_col(p.y as int))
    }

    pub fn new(cell_size: u32, width: u32, height: u32) -> (r: GridInfo)
        ensures
            r.cell_size == cell_size,
            r.width == width,
            r.height == height,
    {
        GridInfo { cell_size, width, height }
    }

    /// Column and row of the cell holding the coordinates `(x, y)`.
    pub fn coord_of(&self, x: i64, y: i64) -> (r: CellCoord)
        requires
            self.wf(),
        ensures
            r.col as int == self.spec_col(x as int),
            r.row as int == self.spec_col(y as int),
    {
        CellCoord { col: floor_div(x, self.cell_size), row: floor_div(y, self.cell_size) }
    }

    /// Flattened identifier of a cell given by its coordinates.
    pub fn id_of_coord(&self, c: CellCoord) -> (r: CellId)
        ensures
            r as int == self.spec_id_of_coord(c.col as int, c.row as int),
    {
        let w = self.width as i128;
        proof {
            let row = c.row as int;
            let wi = w as int;
            assert(-0x8000_0000_0000_0000 <= row < 0x8000_0000_0000_0000);
            assert(0 <= wi < 0x1_0000_0000);
            assert(-0x8000_0000_0000_0000_0000_0000 <= row * wi <= 0x8000_0000_0000_0000_0000_0000)
                by (nonlinear_arith)
                requires
                    -0x8000_0000_0000_0000 <= row < 0x8000_0000_0000_0000,
                    0 <= wi < 0x1_0000_0000,
            ;
        }
        c.col as i128 + (c.row as i128) * w
    }

    /// Identifier of the cell that holds `position`.
    pub fn get_grid_id(&self, position: Point) -> (r: CellId)
        requires
            self.wf(),
        ensures
            r as int == self.spec_cell_id(position),
    {
        let c = self.coord_of(position.x as i64, position.y as i64);
        self.id_of_coord(c)
    }

    /// Whether `position` lies inside the world that the grid covers.
    pub fn contains(&self, position: Point) -> (r: bool)
        requires
            self.wf(),
        ensures
            r == self.in_world(position),
    {
        let c = self.coord_of(position.x as i64, position.y as i64);
        0 <= c.col && c.col < self.width as i64 && 0 <= c.row && c.row < self.height as i64
    }

    /// Replaces the grid dimensions; the cell size stays.
    pub fn update_grid_dimensions(&mut self, width: u32, height: u32)
        ensures
            final(self).cell_size == old(self).cell_size,
            final(self).width == width,
            final(self).height == height,
    {
        self.width = width;
        self.height = height;
    }
}

/// Cells of side `cell_size` needed to cover `extent` units: `ceil(extent / cell_size)`.
pub fn cells_for_extent(extent: u32, cell_size: u32) -> (r: u32)
    requires
        cell_size > 0,
    ensures
        r as int == cells_to_cover(extent as int, cell_size as int),
        extent > 0 ==> r >= 1,
{
    let q = extent / cell_size;
    if extent % cell_size == 0 {
        proof {
            if q == 0 {
                vstd::arithmetic::div_mod::lemma_fundamental_div_mod(extent as int, cell_size as int);
                assert(cell_size as int * 0 == 0);
            }
        }
        q
    } else {
        proof {
            assert(q as int * cell_size as int <= extent as int) by (nonlinear_arith)
                requires
                    q as int == extent as int / cell_size as int,
                    cell_size > 0,
            ;
            vstd::arithmetic::div_mod::lemma_fundamental_div_mod(extent as int, cell_size as int);
            assert(q as int * cell_size as int != extent as int) by (nonlinear_arith)
                requires
                    extent as int == cell_size as int * (extent as int / cell_size as int)
                        + extent as int % cell_size as int,
                    q as int == extent as int / cell_size as int,
                    extent as int % cell_size as int != 0,
            ;
            assert(q < extent) by (nonlinear_arith)
                requires
                    q as int * cell_size as int <= extent as int,
                    q as int * cell_size as int != extent as int,
                    cell_size >= 1,
            ;
        }
        q + 1
    }
}

} // verus!
