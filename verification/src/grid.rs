//! Row-major layout of a rectangular grid of cells, and the neighbourhoods
//! that the terrain algorithms visit on it.
//!
//! A grid of `width × height` cells stores cell `(x, z)` at position
//! `z * width + x` of a flat buffer. The height values themselves live in the
//! caller's buffer; this module decides which positions are read and written.

use vstd::prelude::*;

verus! {

/// One of the four axis-aligned directions on the grid.
#[derive(Clone, Copy, Debug, PartialEq, Eq)]
pub enum Direction {
    /// Towards larger `x`.
    PosX,
    /// Towards smaller `x`.
    NegX,
    /// Towards larger `z`.
    PosZ,
    /// Towards smaller `z`.
    NegZ,
}

/// The `x` offset of one step of length `d` in direction `dir`.
pub open spec fn dir_dx(dir: Direction, d: int) -> int {
    match dir {
        Direction::PosX => d,
        Direction::NegX => -d,
        _ => 0,
    }
}

/// The `z` offset of one step of length `d` in direction `dir`.
pub open spec fn dir_dz(dir: Direction, d: int) -> int {
    match dir {
        Direction::PosZ => d,
        Direction::NegZ => -d,
        _ => 0,
    }
}

/// The shape of a `width × height` row-major grid.
#[derive(Clone, Copy, Debug)]
pub struct GridShape {
    width: usize,
    height: usize,
}

/// A cell of a square neighbourhood: its offset from the centre and its
/// position in the row-major buffer.
#[derive(Clone, Copy, Debug)]
pub struct WindowCell {
    /// Offset along `x` from the centre.
    pub dx: i32,
    /// Offset along `z` from the centre.
    pub dz: i32,
    /// Row-major position of the cell.
    pub index: usize,
}

/// `(dx, dz)` lies in the square of Chebyshev radius `r`; with `ring_only`,
/// on its border.
pub open spec fn in_window(dx: int, dz: int, r: int, ring_only: bool) -> bool {
    &&& -r <= dx <= r
    &&& -r <= dz <= r
    &&& ring_only ==> (dx == r || dx == -r || dz == r || dz == -r)
}

/// Row-major (`dz` first, then `dx`) strict order of offsets.
pub open spec fn offset_before(dz1: int, dx1: int, dz2: int, dx2: int) -> bool {
    dz1 < dz2 || (dz1 == dz2 && dx1 < dx2)
}

/// `v` clamped into `[lo, hi]`.
pub open spec fn clamp_i32(v: i32, lo: i32, hi: i32) -> i32 {
    if v < lo {
        lo
    } else if v > hi {
        hi
    } else {
        v
    }
}

impl GridShape {
    /// Number of columns.
    pub closed spec fn cols(self) -> int {
        self.width as int
    }

    /// Number of rows.
    pub closed spec fn rows(self) -> int {
        self.height as int
    }

    /// Both sides are positive and the cell count fits in `usize`.
    pub open spec fn wf(self) -> bool {
        &&& self.cols() > 0
        &&& self.rows() > 0
        &&& self.cols() * self.rows() <= usize::MAX
    }

    /// Number of cells.
    pub open spec fn cell_count(self) -> int {
        self.cols() * self.rows()
    }

    /// `(x, z)` is a cell of the grid.
    pub open spec fn contains(self, x: int, z: int) -> bool {
        0 <= x < self.cols() && 0 <= z < self.rows()
    }

    /// Row-major position of cell `(x, z)`.
    pub open spec fn index_of(self, x: int, z: int) -> int {
        z * self.cols() + x
    }

    /// A grid of `width × height` cells.
    pub fn new(width: usize, height: usize) -> (g: GridShape)
        requires
            width > 0,
            height > 0,
            width * height <= usize::MAX,
        ensures
            g.wf(),
            g.cols() == width,
            g.rows() == height,
    {
        GridShape { width, height }
    }

    /// Number of columns.
    pub fn width(&self) -> (w: usize)
        ensures
            w == self.cols(),
    {
        self.width
    }

    /// Number of rows.
    pub fn height(&self) -> (h: usize)
        ensures
            h == self.rows(),
    {
        self.height
    }

    /// Number of cells, `width * height`.
    pub fn len(&self) -> (n: usize)
        requires
            self.wf(),
        ensures
            n == self.cell_count(),
    {
        self.width * self.height
    }

    /// Row-major position of cell `(x, z)`.
    pub fn index(&self, x: usize, z: usize) -> (i: usize)
        requires
            self.wf(),
            self.contains(x as int, z as int),
        ensures
            i == self.index_of(x as int, z as int),
            i < self.cell_count(),
    {
        proof {
            lemma_index_in_bounds(self.cols(), self.rows(), x as int, z as int);
        }
        z * self.width + x
    }

    /// Position of the cell nearest to `(x, z)`: each coordinate is clamped
    /// into `[0, side as i32 - 1]`.
    pub fn clamped_index(&self, x: i32, z: i32) -> (i: usize)
        requires
            self.wf(),
            (self.cols() as i32) >= 1,
            (self.rows() as i32) >= 1,
        ensures
            ({
                let cx = clamp_i32(x, 0, ((self.cols() as i32) - 1) as i32);
                let cz = clamp_i32(z, 0, ((self.rows() as i32) - 1) as i32);
                &&& self.contains(cx as int, cz as int)
                &&& i == self.index_of(cx as int, cz as int)
            }),
    {
        let wi = self.width as i32;
        let hi = self.height as i32;
        let w = self.width;
        let h = self.height;
        assert(wi >= 1 ==> wi as usize <= w) by (bit_vector)
            requires
                wi == w as i32,
        ;
        assert(hi >= 1 ==> hi as usize <= h) by (bit_vector)
            requires
                hi == h as i32,
        ;
        let cx: i32 = if x < 0 {
            0
        } else if x > wi - 1 {
            wi - 1
        } else {
            x
        };
        let cz: i32 = if z < 0 {
            0
        } else if z > hi - 1 {
            hi - 1
        } else {
            z
        };
        self.index(cx as usize, cz as usize)
    }

    /// Position of the cell `d` steps from `(x, z)` in direction `dir`, or
    /// `None` where that cell lies outside the grid.
    pub fn step(&self, x: usize, z: usize, dir: Direction, d: usize) -> (r: Option<usize>)
        requires
            self.wf(),
            self.contains(x as int, z as int),
        ensures
            ({
                let nx = x + dir_dx(dir, d as int);
                let nz = z + dir_dz(dir, d as int);
                match r {
                    Some(i) => self.contains(nx, nz) && i == self.index_of(nx, nz),
                    None => !self.contains(nx, nz),
                }
            }),
    {
        match dir {
            Direction::PosX => {
                if d < self.width - x {
                    Some(self.index(x + d, z))
                } else {
                    None
                }
            },
            Direction::NegX => {
                if d <= x {
                    Some(self.index(x - d, z))
                } else {
                    None
                }
            },
            Direction::PosZ => {
                if d < self.height - z {
                    Some(self.index(x, z + d))
                } else {
                    None
                }
            },
            Direction::NegZ => {
                if d <= z {
                    Some(self.index(x, z - d))
                } else {
                    None
                }
            },
        }
    }

    /// Positions of the 2×2 block whose lower corner is `(x, z)`, in the
    /// order `(x, z)`, `(x + 1, z)`, `(x, z + 1)`, `(x + 1, z + 1)`.
    pub fn quad(&self, x: usize, z: usize) -> (q: [usize; 4])
        requires
            self.wf(),
            x + 1 < self.cols(),
            z + 1 < self.rows(),
        ensures
            q[0] == self.index_of(x as int, z as int),
            q[1] == self.index_of(x + 1, z as int),
            q[2] == self.index_of(x as int, z + 1),
            q[3] == self.index_of(x + 1, z + 1),
            q[0] < q[1] < q[2] < q[3] < self.cell_count(),
    {
        let a = self.index(x, z);
        let b = self.index(x + 1, z);
        let c = self.index(x, z + 1);
        let d = self.index(x + 1, z + 1);
        proof {
            let w = self.cols();
            assert((z + 1) * w == z * w + w) by (nonlinear_arith);
        }
        [a, b, c, d]
    }
}

impl GridShape {
    /// The cells of the square of Chebyshev radius `r` round `(cx, cz)` that
    /// lie inside the grid, row by row (`dz` from `-r` to `r`, and within a
    /// row `dx` from `-r` to `r`). With `ring_only`, only the cells on the
    /// square's border. A negative radius gives no cells.
    pub fn window(&self, cx: i32, cz: i32, r: i32, ring_only: bool) -> (cells: Vec<WindowCell>)
        requires
            self.wf(),
            r > i32::MIN,
            r >= 0 ==> i32::MIN <= cx - r && cx + r <= i32::MAX,
            r >= 0 ==> i32::MIN <= cz - r && cz + r <= i32::MAX,
        ensures
            forall|k: int|
                0 <= k < cells.len() ==> {
                    let c = #[trigger] cells@[k];
                    &&& in_window(c.dx as int, c.dz as int, r as int, ring_only)
                    &&& self.contains(cx + c.dx, cz + c.dz)
                    &&& c.index == self.index_of(cx + c.dx, cz + c.dz)
                },
            forall|k: int, l: int|
                0 <= k < l < cells.len() ==> offset_before(
                    #[trigger] cells@[k].dz as int,
                    cells@[k].dx as int,
                    #[trigger] cells@[l].dz as int,
                    cells@[l].dx as int,
                ),
            forall|dx: int, dz: int|
                in_window(dx, dz, r as int, ring_only) && #[trigger] self.contains(cx + dx, cz + dz)
                    ==> exists|k: int|
                    0 <= k < cells.len() && #[trigger] cells@[k].dx == dx && cells@[k].dz == dz,
    {
        let mut cells: Vec<WindowCell> = Vec::new();
        if r < 0 {
            return cells;
        }
        let w = self.width;
        let h = self.height;
        let mut dz: i64 = -(r as i64);
        while dz <= r as i64
            invariant
                self.wf(),
                w == self.cols(),
                h == self.rows(),
                0 <= r,
                i32::MIN <= cx - r && cx + r <= i32::MAX,
                i32::MIN <= cz - r && cz + r <= i32::MAX,
                -r <= dz <= r + 1,
                forall|k: int|
                    0 <= k < cells.len() ==> {
                        let c = #[trigger] cells@[k];
                        &&& in_window(c.dx as int, c.dz as int, r as int, ring_only)
                        &&& self.contains(cx + c.dx, cz + c.dz)
                        &&& c.index == self.index_of(cx + c.dx, cz + c.dz)
                        &&& c.dz < dz
                    },
                forall|k: int, l: int|
                    0 <= k < l < cells.len() ==> offset_before(
                        #[trigger] cells@[k].dz as int,
                        cells@[k].dx as int,
                        #[trigger] cells@[l].dz as int,
                        cells@[l].dx as int,
                    ),
                forall|ddx: int, ddz: int|
                    ddz < dz && in_window(ddx, ddz, r as int, ring_only) && #[trigger] self.contains(
                        cx + ddx,
                        cz + ddz,
                    ) ==> exists|k: int|
                        0 <= k < cells.len() && #[trigger] cells@[k].dx == ddx && cells@[k].dz == ddz,
            decreases r + 1 - dz,
        {
            let mut dx: i64 = -(r as i64);
            while dx <= r as i64
                invariant
                    self.wf(),
                    w == self.cols(),
                    h == self.rows(),
                    0 <= r,
                    i32::MIN <= cx - r && cx + r <= i32::MAX,
                    i32::MIN <= cz - r && cz + r <= i32::MAX,
                    -r <= dz <= r,
                    -r <= dx <= r + 1,
                    forall|k: int|
                        0 <= k < cells.len() ==> {
                            let c = #[trigger] cells@[k];
                            &&& in_window(c.dx as int, c.dz as int, r as int, ring_only)
                            &&& self.contains(cx + c.dx, cz + c.dz)
                            &&& c.index == self.index_of(cx + c.dx, cz + c.dz)
                            &&& offset_before(c.dz as int, c.dx as int, dz as int, dx as int)
                        },
                    forall|k: int, l: int|
                        0 <= k < l < cells.len() ==> offset_before(
                            #[trigger] cells@[k].dz as int,
                            cells@[k].dx as int,
                            #[trigger] cells@[l].dz as int,
                            cells@[l].dx as int,
                        ),
                    forall|ddx: int, ddz: int|
                        offset_before(ddz, ddx, dz as int, dx as int) && in_window(
                            ddx,
                            ddz,
                            r as int,
                            ring_only,
                        ) && #[trigger] self.contains(cx + ddx, cz + ddz) ==> exists|k: int|
                            0 <= k < cells.len() && #[trigger] cells@[k].dx == ddx && cells@[k].dz
                                == ddz,
                decreases r + 1 - dx,
            {
                let ri = r as i64;
                let on_border = dx == ri || dx == -ri || dz == ri || dz == -ri;
                let dxi: i32 = dx as i32;
                let dzi: i32 = dz as i32;
                let nx: i32 = cx + dxi;
                let nz: i32 = cz + dzi;
                if (!ring_only || on_border) && nx >= 0 && nz >= 0 && (nx as usize) < w
                    && (nz as usize) < h {
                    let index = self.index(nx as usize, nz as usize);
                    let cell = WindowCell { dx: dxi, dz: dzi, index };
                    let ghost old_cells = cells@;
                    cells.push(cell);
                    proof {
                        assert(cells@[cells.len() - 1] == cell);
                        assert forall|ddx: int, ddz: int|
                            offset_before(ddz, ddx, dz as int, dx + 1) && in_window(
                                ddx,
                                ddz,
                                r as int,
                                ring_only,
                            ) && #[trigger] self.contains(cx + ddx, cz + ddz) implies exists|k: int|
                            0 <= k < cells.len() && #[trigger] cells@[k].dx == ddx && cells@[k].dz
                                == ddz by {
                            if ddz == dz && ddx == dx {
                                assert(cells@[cells.len() - 1].dx == ddx);
                            } else {
                                let k = choose|k: int|
                                    0 <= k < old_cells.len() && #[trigger] old_cells[k].dx == ddx
                                        && old_cells[k].dz == ddz;
                                assert(cells@[k] == old_cells[k]);
                            }
                        }
                    }
                }
                dx = dx + 1;
            }
            dz = dz + 1;
        }
        cells
    }
}

/// The cell of row `z` and column `x` of a `cols × rows` grid lies before the
/// end of its buffer.
pub proof fn lemma_index_in_bounds(cols: int, rows: int, x: int, z: int)
    requires
        0 <= x < cols,
        0 <= z < rows,
    ensures
        0 <= z * cols + x < cols * rows,
{
    assert(z * cols + x < (z + 1) * cols) by (nonlinear_arith)
        requires
            x < cols,
    ;
    assert((z + 1) * cols <= rows * cols) by (nonlinear_arith)
        requires
            z + 1 <= rows,
            cols > 0,
    ;
    assert(0 <= z * cols) by (nonlinear_arith)
        requires
            z >= 0,
            cols > 0,
    ;
    assert(rows * cols == cols * rows) by (nonlinear_arith);
}

/// Distinct cells of a grid occupy distinct positions of its buffer, so a
/// value written at one cell is read back there and nowhere else.
pub proof fn lemma_index_injective(g: GridShape, x1: int, z1: int, x2: int, z2: int)
    requires
        g.wf(),
        g.contains(x1, z1),
        g.contains(x2, z2),
    ensures
        g.index_of(x1, z1) == g.index_of(x2, z2) <==> (x1 == x2 && z1 == z2),
{
    let w = g.cols();
    if z1 < z2 {
        assert(z1 * w + x1 < z2 * w + x2) by (nonlinear_arith)
            requires
                z1 < z2,
                0 <= x1 < w,
                0 <= x2,
        ;
    } else if z2 < z1 {
        assert(z2 * w + x2 < z1 * w + x1) by (nonlinear_arith)
            requires
                z2 < z1,
                0 <= x2 < w,
                0 <= x1,
        ;
    }
}

} // verus!
