//! Square range queries: an exact containment test and a walk over the grid
//! cells that the query box overlaps.
use vstd::prelude::*;
use vstd::arithmetic::div_mod::{
    lemma_div_is_ordered, lemma_fundamental_div_mod, lemma_fundamental_div_mod_converse,
};

use crate::geometry::Point;
use crate::grid_info::{CellCoord, GridInfo};

verus! {

/// What the grid's walk needs from a query shape: the grid cells to visit, in
/// an order with positions `0 .. walk_len` and rising identifiers, and an
/// exact containment test.
pub trait GridQuery: Sized {
    /// `p` lies in the shape.
    spec fn spec_in_range(&self, p: Point) -> bool;

    /// The cell at `(col, row)` is on the walk.
    spec fn on_walk(&self, info: GridInfo, col: int, row: int) -> bool;

    /// Position of a cell of the walk, from 0.
    spec fn walk_index(&self, info: GridInfo, col: int, row: int) -> int;

    /// Number of cells on the walk.
    spec fn walk_len(&self, info: GridInfo) -> int;

    /// The first cell of the walk; `None` when the walk is empty.
    fn first_cell(&self, info: GridInfo) -> (r: Option<CellCoord>)
        requires
            info.wf(),
        ensures
            r is None ==> forall|c: int, w: int| !#[trigger] self.on_walk(info, c, w),
            r matches Some(c) ==> {
                &&& self.on_walk(info, c.col as int, c.row as int)
                &&& self.walk_index(info, c.col as int, c.row as int) == 0
                &&& info.in_grid(c.col as int, c.row as int)
            },
    ;

    /// The cell after `cell` on the walk; `None` after the last one. The
    /// next cell lies in the grid and has a larger identifier.
    fn next_cell(&self, cell: CellCoord, info: GridInfo) -> (r: Option<CellCoord>)
        requires
            info.wf(),
            self.on_walk(info, cell.col as int, cell.row as int),
        ensures
            r is None <==> self.walk_index(info, cell.col as int, cell.row as int) == self.walk_len(
                info,
            ) - 1,
            r matches Some(n) ==> {
                &&& self.on_walk(info, n.col as int, n.row as int)
                &&& self.walk_index(info, n.col as int, n.row as int) == self.walk_index(
                    info,
                    cell.col as int,
                    cell.row as int,
                ) + 1
                &&& info.in_grid(n.col as int, n.row as int)
                &&& info.spec_id_of_coord(n.col as int, n.row as int) > info.spec_id_of_coord(
                    cell.col as int,
                    cell.row as int,
                )
            },
    ;

    /// Exact containment test.
    fn in_range(&self, position: Point) -> (r: bool)
        ensures
            r == self.spec_in_range(position),
    ;

    /// Every point of the shape inside the world lies in a cell on the walk.
    proof fn lemma_in_range_on_walk(&self, info: GridInfo, p: Point)
        requires
            info.wf(),
            self.spec_in_range(p),
            info.in_world(p),
        ensures
            self.on_walk(info, info.spec_col(p.x as int), info.spec_col(p.y as int)),
    ;

    /// Cells on the walk are grid cells; their positions lie in
    /// `0 .. walk_len`, tell cells apart, and the walk has at most
    /// `width * height` cells.
    proof fn lemma_walk_index(&self, info: GridInfo, c1: int, r1: int, c2: int, r2: int)
        requires
            info.wf(),
            self.on_walk(info, c1, r1),
            self.on_walk(info, c2, r2),
        ensures
            info.in_grid(c1, r1),
            0 <= self.walk_index(info, c1, r1) < self.walk_len(info),
            self.walk_index(info, c1, r1) == self.walk_index(info, c2, r2) ==> c1 == c2 && r1 == r2,
            self.walk_len(info) <= info.width * info.height,
    ;
}

/// An axis-aligned square of half-width `radius` centred at `center`.
#[derive(Clone, Copy, Debug, PartialEq, Eq, Structural)]
pub struct SquareQuery {
    pub center: Point,
    pub radius: u32,
}

pub open spec fn max_int(a: int, b: int) -> int {
    if a >= b { a } else { b }
}

pub open spec fn min_int(a: int, b: int) -> int {
    if a <= b { a } else { b }
}

impl SquareQuery {
    /// Leftmost column that the box overlaps.
    pub open spec fn col_lo(self, info: GridInfo) -> int {
        info.spec_col(self.center.x - self.radius)
    }

    /// Rightmost column that the box overlaps.
    pub open spec fn col_hi(self, info: GridInfo) -> int {
        info.spec_col(self.center.x + self.radius - 1)
    }

    /// Lowest row that the box overlaps.
    pub open spec fn row_lo(self, info: GridInfo) -> int {
        info.spec_col(self.center.y - self.radius)
    }

    /// Highest row that the box overlaps.
    pub open spec fn row_hi(self, info: GridInfo) -> int {
        info.spec_col(self.center.y + self.radius - 1)
    }

    /// First column of the walk: the box's leftmost, but not left of the grid.
    pub open spec fn walk_col_lo(self, info: GridInfo) -> int {
        max_int(self.col_lo(info), 0)
    }

    /// Last column of the walk: the box's rightmost, but not past the grid.
    pub open spec fn walk_col_hi(self, info: GridInfo) -> int {
        min_int(self.col_hi(info), info.width - 1)
    }

    /// First row of the walk.
    pub open spec fn walk_row_lo(self, info: GridInfo) -> int {
        max_int(self.row_lo(info), 0)
    }

    /// Last row of the walk.
    pub open spec fn walk_row_hi(self, info: GridInfo) -> int {
        min_int(self.row_hi(info), info.height - 1)
    }

    /// Number of columns of the walk.
    pub open spec fn n_cols(self, info: GridInfo) -> int {
        self.walk_col_hi(info) - self.walk_col_lo(info) + 1
    }

    /// Number of rows of the walk.
    pub open spec fn n_rows(self, info: GridInfo) -> int {
        self.walk_row_hi(info) - self.walk_row_lo(info) + 1
    }

    /// The walk has at least one cell.
    pub open spec fn walk_nonempty(self, info: GridInfo) -> bool {
        &&& self.radius > 0
        &&& self.walk_col_lo(info) <= self.walk_col_hi(info)
        &&& self.walk_row_lo(info) <= self.walk_row_hi(info)
    }

    /// The grid cell at `(col, row)` overlaps the query box.
    pub open spec fn covers(self, info: GridInfo, col: int, row: int) -> bool {
        &&& self.radius > 0
        &&& self.walk_col_lo(info) <= col <= self.walk_col_hi(info)
        &&& self.walk_row_lo(info) <= row <= self.walk_row_hi(info)
    }

    pub fn new(center: Point, radius: u32) -> (r: SquareQuery)
        ensures
            r.center == center,
            r.radius == radius,
    {
        SquareQuery { center, radius }
    }

    /// First and last column, first and last row of the walk.
    fn walk_bounds(&self, info: GridInfo) -> (r: (i64, i64, i64, i64))
        requires
            info.wf(),
        ensures
            r.0 == self.walk_col_lo(info),
            r.1 == self.walk_col_hi(info),
            r.2 == self.walk_row_lo(info),
            r.3 == self.walk_row_hi(info),
    {
        let r = self.radius as i64;
        let lo = info.coord_of(self.center.x as i64 - r, self.center.y as i64 - r);
        let hi = info.coord_of(self.center.x as i64 + r - 1, self.center.y as i64 + r - 1);
        let w = info.width as i64 - 1;
        let h = info.height as i64 - 1;
        (
            if lo.col >= 0 { lo.col } else { 0 },
            if hi.col <= w { hi.col } else { w },
            if lo.row >= 0 { lo.row } else { 0 },
            if hi.row <= h { hi.row } else { h },
        )
    }

    /// Every cell that the walk visits meets the query box: it holds a point
    /// of the box (over the integers).
    pub proof fn lemma_covered_cell_meets_box(self, info: GridInfo, col: int, row: int)
        requires
            info.wf(),
            self.covers(info, col, row),
        ensures
            exists|x: int, y: int|
                self.center.x - self.radius <= x < self.center.x + self.radius && self.center.y
                    - self.radius <= y < self.center.y + self.radius && #[trigger] info.spec_col(x) == col
                    && #[trigger] info.spec_col(y) == row,
    {
        let s = info.cell_size as int;
        let r = self.radius as int;
        let x = Self::lemma_meets_axis(s, self.center.x - r, self.center.x + r - 1, col);
        let y = Self::lemma_meets_axis(s, self.center.y - r, self.center.y + r - 1, row);
        assert(info.spec_col(x) == col && info.spec_col(y) == row);
    }

    /// On one axis: a column between those of `lo` and `hi` holds a value of
    /// `[lo, hi]`.
    proof fn lemma_meets_axis(s: int, lo: int, hi: int, col: int) -> (x: int)
        requires
            s > 0,
            lo <= hi,
            lo / s <= col <= hi / s,
        ensures
            lo <= x <= hi,
            x / s == col,
    {
        lemma_fundamental_div_mod(lo, s);
        lemma_fundamental_div_mod(hi, s);
        if col * s <= lo {
            assert(col <= lo / s) by (nonlinear_arith)
                requires
                    col * s <= lo,
                    lo == s * (lo / s) + lo % s,
                    0 <= lo % s < s,
                    s > 0,
            ;
            lo
        } else {
            assert(col * s <= hi) by (nonlinear_arith)
                requires
                    col <= hi / s,
                    hi == s * (hi / s) + hi % s,
                    0 <= hi % s,
                    s > 0,
            ;
            lemma_fundamental_div_mod_converse(col * s, s, col, 0);
            col * s
        }
    }

    /// The top-right cell of the walk is its last.
    proof fn lemma_last_index(self, info: GridInfo)
        requires
            info.wf(),
            self.walk_nonempty(info),
        ensures
            self.walk_index(info, self.walk_col_hi(info), self.walk_row_hi(info)) == self.walk_len(info) - 1,
    {
        let k = self.n_cols(info);
        let n = self.n_rows(info);
        assert((n - 1) * k + (k - 1) == n * k - 1) by (nonlinear_arith);
    }
}

/// The walk goes row by row from the bottom-left grid cell of the box, each
/// row from left to right, and keeps to the grid.
impl GridQuery for SquareQuery {
    /// `center.x - radius <= x < center.x + radius`, and the same for `y`.
    open spec fn spec_in_range(&self, p: Point) -> bool {
        let r = self.radius as int;
        &&& self.center.x - r <= p.x < self.center.x + r
        &&& self.center.y - r <= p.y < self.center.y + r
    }

    open spec fn on_walk(&self, info: GridInfo, col: int, row: int) -> bool {
        self.covers(info, col, row)
    }

    open spec fn walk_index(&self, info: GridInfo, col: int, row: int) -> int {
        (row - self.walk_row_lo(info)) * self.n_cols(info) + (col - self.walk_col_lo(info))
    }

    open spec fn walk_len(&self, info: GridInfo) -> int {
        if self.walk_nonempty(info) {
            self.n_rows(info) * self.n_cols(info)
        } else {
            0
        }
    }

    /// The bottom-left grid cell of the box.
    fn first_cell(&self, info: GridInfo) -> (r: Option<CellCoord>) {
        let (clo, chi, rlo, rhi) = self.walk_bounds(info);
        if self.radius == 0 || clo > chi || rlo > rhi {
            None
        } else {
            Some(CellCoord { col: clo, row: rlo })
        }
    }

    /// The next column, else the first column of the next row, else `None`
    /// past the top-right cell.
    fn next_cell(&self, cell: CellCoord, info: GridInfo) -> (r: Option<CellCoord>) {
        let (clo, chi, rlo, rhi) = self.walk_bounds(info);
        proof {
            self.lemma_walk_index(info, cell.col as int, cell.row as int, chi as int, rhi as int);
            self.lemma_last_index(info);
        }
        if cell.col < chi {
            let n = CellCoord { col: cell.col + 1, row: cell.row };
            proof {
                self.lemma_walk_index(info, n.col as int, n.row as int, n.col as int, n.row as int);
            }
            Some(n)
        } else if cell.row < rhi {
            let n = CellCoord { col: clo, row: cell.row + 1 };
            proof {
                let k = self.n_cols(info);
                let d = cell.row - self.walk_row_lo(info);
                let w = info.width as int;
                assert((d + 1) * k == d * k + k) by (nonlinear_arith);
                assert((cell.row + 1) * w == cell.row * w + w) by (nonlinear_arith);
                self.lemma_walk_index(info, n.col as int, n.row as int, n.col as int, n.row as int);
            }
            Some(n)
        } else {
            None
        }
    }

    /// Half-open on both axes.
    fn in_range(&self, position: Point) -> (r: bool) {
        let r = self.radius as i64;
        let cx = self.center.x as i64;
        let cy = self.center.y as i64;
        let px = position.x as i64;
        let py = position.y as i64;
        cx - r <= px && px < cx + r && cy - r <= py && py < cy + r
    }

    proof fn lemma_in_range_on_walk(&self, info: GridInfo, p: Point) {
        let s = info.cell_size as int;
        let r = self.radius as int;
        lemma_div_is_ordered(self.center.x - r, p.x as int, s);
        lemma_div_is_ordered(p.x as int, self.center.x + r - 1, s);
        lemma_div_is_ordered(self.center.y - r, p.y as int, s);
        lemma_div_is_ordered(p.y as int, self.center.y + r - 1, s);
    }

    proof fn lemma_walk_index(&self, info: GridInfo, c1: int, r1: int, c2: int, r2: int) {
        let k = self.n_cols(info);
        let n = self.n_rows(info);
        let a1 = r1 - self.walk_row_lo(info);
        let b1 = c1 - self.walk_col_lo(info);
        let a2 = r2 - self.walk_row_lo(info);
        let b2 = c2 - self.walk_col_lo(info);
        let w = info.width as int;
        let h = info.height as int;
        assert(0 <= a1 * k + b1 < n * k) by (nonlinear_arith)
            requires
                0 <= a1 < n,
                0 <= b1 < k,
        ;
        assert(n * k <= h * w) by (nonlinear_arith)
            requires
                1 <= n <= h,
                1 <= k <= w,
        ;
        if a1 * k + b1 == a2 * k + b2 {
            lemma_fundamental_div_mod_converse(a1 * k + b1, k, a1, b1);
            lemma_fundamental_div_mod_converse(a2 * k + b2, k, a2, b2);
        }
    }
}

} // verus!
