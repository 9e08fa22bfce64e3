//! The mathematical model of a grid, and the arithmetic of its positions.
use vstd::arithmetic::div_mod::lemma_fundamental_div_mod;
use vstd::arithmetic::div_mod::lemma_fundamental_div_mod_converse;
use vstd::prelude::*;

verus! {

/// A dense three-dimensional block of cells: the mathematical value that every
/// array of this library stands for. Cells are stored row by row, the last
/// axis running fastest; a cell holding `1` is occupied.
pub struct Grid {
    pub nx: nat,
    pub ny: nat,
    pub nz: nat,
    pub cells: Seq<u8>,
}

/// The position in the flattened cell sequence of the cell `(x, y, z)` of a
/// block whose second and third axes have lengths `ny` and `nz`.
pub open spec fn offset(ny: nat, nz: nat, x: int, y: int, z: int) -> int {
    (x * ny + y) * nz + z
}

/// The cell that sits at position `i` of the flattened cell sequence.
pub open spec fn coords(ny: nat, nz: nat, i: int) -> (int, int, int) {
    ((i / nz as int) / ny as int, (i / nz as int) % ny as int, i % nz as int)
}

/// The coordinate of the position `(x, y, z)` along `axis`: `0` names the
/// first axis, `1` the second, any other number the third.
pub open spec fn pick(axis: int, x: int, y: int, z: int) -> int {
    if axis == 0 {
        x
    } else if axis == 1 {
        y
    } else {
        z
    }
}

/// The product of the axis lengths that are not zero. Arrays exist only where
/// this number is at most `isize::MAX`.
pub open spec fn span(nx: nat, ny: nat, nz: nat) -> nat {
    (if nx == 0 { 1 } else { nx }) * (if ny == 0 { 1 } else { ny }) * (if nz == 0 { 1 } else { nz })
}

/// Whether a block of these axis lengths can be held in memory.
pub open spec fn fits(nx: nat, ny: nat, nz: nat) -> bool {
    span(nx, ny, nz) <= isize::MAX
}

impl Grid {
    /// The length of the grid along `axis`.
    pub open spec fn extent(self, axis: int) -> nat {
        if axis == 0 {
            self.nx
        } else if axis == 1 {
            self.ny
        } else {
            self.nz
        }
    }

    /// The number of cells.
    pub open spec fn size(self) -> nat {
        self.nx * self.ny * self.nz
    }

    /// A grid is well formed when it holds one cell per position.
    pub open spec fn wf(self) -> bool {
        self.cells.len() == self.size()
    }

    /// Whether `(x, y, z)` is a position of this grid.
    pub open spec fn inside(self, x: int, y: int, z: int) -> bool {
        0 <= x < self.nx && 0 <= y < self.ny && 0 <= z < self.nz
    }

    /// The value of the cell at `(x, y, z)`.
    pub open spec fn at(self, x: int, y: int, z: int) -> u8 {
        self.cells[offset(self.ny, self.nz, x, y, z)]
    }

    /// Whether `(x, y, z)` is a position of this grid whose cell is occupied.
    pub open spec fn filled(self, x: int, y: int, z: int) -> bool {
        self.inside(x, y, z) && self.at(x, y, z) == 1
    }

    /// Whether every cell is `0` or `1`.
    pub open spec fn binary(self) -> bool {
        forall|i: int| 0 <= i < self.cells.len() ==> #[trigger] self.cells[i] <= 1
    }

    /// The grid of the given axis lengths whose every cell is occupied.
    pub open spec fn solid(nx: nat, ny: nat, nz: nat) -> Grid {
        Grid { nx, ny, nz, cells: Seq::new(nx * ny * nz, |i: int| 1u8) }
    }

    /// The grid of the given axis lengths whose cell at `(x, y, z)` is `f(x, y, z)`.
    pub open spec fn tabulate(nx: nat, ny: nat, nz: nat, f: spec_fn(int, int, int) -> u8) -> Grid {
        Grid {
            nx,
            ny,
            nz,
            cells: Seq::new(
                nx * ny * nz,
                |i: int|
                    {
                        let c = coords(ny, nz, i);
                        f(c.0, c.1, c.2)
                    },
            ),
        }
    }
}

/// The product of three axis lengths is bounded by the product of the
/// non-zero ones, and so is every partial product.
pub proof fn lemma_span_bounds(nx: nat, ny: nat, nz: nat)
    ensures
        nx * ny * nz <= span(nx, ny, nz),
        nx * ny <= span(nx, ny, nz),
        ny * nz <= span(nx, ny, nz),
        nx <= span(nx, ny, nz),
        ny <= span(nx, ny, nz),
        nz <= span(nx, ny, nz),
        nx * ny * nz == nx * (ny * nz),
{
    let a: nat = if nx == 0 { 1 } else { nx };
    let b: nat = if ny == 0 { 1 } else { ny };
    let c: nat = if nz == 0 { 1 } else { nz };
    assert(nx * ny * nz <= a * b * c && nx * ny <= a * b * c && ny * nz <= a * b * c && nx <= a * b
        * c && ny <= a * b * c && nz <= a * b * c && nx * ny * nz == nx * (ny * nz))
        by (nonlinear_arith)
        requires
            nx <= a,
            ny <= b,
            nz <= c,
            a >= 1,
            b >= 1,
            c >= 1,
    ;
}

/// Shrinking axis lengths never grows the product of the non-zero ones.
pub proof fn lemma_span_monotonic(nx: nat, ny: nat, nz: nat, mx: nat, my: nat, mz: nat)
    requires
        nx <= mx || nx <= 1,
        ny <= my || ny <= 1,
        nz <= mz || nz <= 1,
    ensures
        span(nx, ny, nz) <= span(mx, my, mz),
{
    let a: nat = if nx == 0 { 1 } else { nx };
    let b: nat = if ny == 0 { 1 } else { ny };
    let c: nat = if nz == 0 { 1 } else { nz };
    let d: nat = if mx == 0 { 1 } else { mx };
    let e: nat = if my == 0 { 1 } else { my };
    let f: nat = if mz == 0 { 1 } else { mz };
    assert(a * b * c <= d * e * f) by (nonlinear_arith)
        requires
            1 <= a <= d,
            1 <= b <= e,
            1 <= c <= f,
    ;
}

/// Positions inside a block flatten to indices inside its cell sequence.
pub proof fn lemma_offset_bounds(nx: nat, ny: nat, nz: nat, x: int, y: int, z: int)
    requires
        0 <= x < nx,
        0 <= y < ny,
        0 <= z < nz,
    ensures
        0 <= x * ny + y < nx * ny,
        0 <= offset(ny, nz, x, y, z) < nx * ny * nz,
{
    assert(0 <= x * ny + y < nx * ny) by (nonlinear_arith)
        requires
            0 <= x < nx,
            0 <= y < ny,
    ;
    let r = x * ny + y;
    let m = nx * ny;
    assert(0 <= r * nz + z < m * nz) by (nonlinear_arith)
        requires
            0 <= r < m,
            0 <= z < nz,
    ;
}

/// Flattening a position and reading the index back gives the position.
pub proof fn lemma_coords_of_offset(nx: nat, ny: nat, nz: nat, x: int, y: int, z: int)
    requires
        0 <= x < nx,
        0 <= y < ny,
        0 <= z < nz,
    ensures
        coords(ny, nz, offset(ny, nz, x, y, z)) == (x, y, z),
{
    let r = x * ny + y;
    let i = r * nz + z;
    lemma_fundamental_div_mod_converse(i, nz as int, r, z);
    lemma_fundamental_div_mod_converse(r, ny as int, x, y);
}

/// Every index of the cell sequence is the flattening of a position inside the block.
pub proof fn lemma_offset_of_coords(nx: nat, ny: nat, nz: nat, i: int)
    requires
        0 <= i < nx * ny * nz,
    ensures
        ({
            let c = coords(ny, nz, i);
            &&& 0 <= c.0 < nx
            &&& 0 <= c.1 < ny
            &&& 0 <= c.2 < nz
            &&& offset(ny, nz, c.0, c.1, c.2) == i
        }),
{
    assert(ny > 0 && nz > 0) by (nonlinear_arith)
        requires
            0 <= i < nx * ny * nz,
    ;
    let r = i / nz as int;
    let z = i % nz as int;
    lemma_fundamental_div_mod(i, nz as int);
    let x = r / ny as int;
    let y = r % ny as int;
    lemma_fundamental_div_mod(r, ny as int);
    assert(r == ny * x + y);
    assert(i == nz * r + z);
    assert(0 <= r) by (nonlinear_arith)
        requires
            i == nz * r + z,
            0 <= i,
            0 <= z < nz,
    ;
    assert(0 <= x) by (nonlinear_arith)
        requires
            r == ny * x + y,
            0 <= r,
            0 <= y < ny,
    ;
    assert(x < nx) by (nonlinear_arith)
        requires
            r == ny * x + y,
            i == nz * r + z,
            0 <= y,
            0 <= z,
            i < nx * ny * nz,
            ny > 0,
            nz > 0,
    ;
    assert((x * ny + y) * nz + z == i) by (nonlinear_arith)
        requires
            r == ny * x + y,
            i == nz * r + z,
    ;
}

/// The position that follows `(x, y, z)` in row order.
pub open spec fn successor(ny: nat, nz: nat, x: int, y: int, z: int) -> (int, int, int) {
    if z + 1 < nz {
        (x, y, z + 1)
    } else if y + 1 < ny {
        (x, y + 1, 0)
    } else {
        (x + 1, 0, 0)
    }
}

/// The position that follows in row order flattens to the next index, and
/// lies inside the block unless that index is past the last cell.
pub proof fn lemma_successor(nx: nat, ny: nat, nz: nat, x: int, y: int, z: int)
    requires
        0 <= x < nx,
        0 <= y < ny,
        0 <= z < nz,
    ensures
        ({
            let n = successor(ny, nz, x, y, z);
            &&& offset(ny, nz, n.0, n.1, n.2) == offset(ny, nz, x, y, z) + 1
            &&& 0 <= n.0 && 0 <= n.1 < ny && 0 <= n.2 < nz
            &&& offset(ny, nz, x, y, z) + 1 < nx * ny * nz ==> n.0 < nx
        }),
{
    let n = successor(ny, nz, x, y, z);
    assert(offset(ny, nz, n.0, n.1, n.2) == offset(ny, nz, x, y, z) + 1) by (nonlinear_arith)
        requires
            (n.0 == x && n.1 == y && n.2 == z + 1) || (n.0 == x && n.1 == y + 1 && n.2 == 0 && z + 1
                == nz) || (n.0 == x + 1 && n.1 == 0 && n.2 == 0 && z + 1 == nz && y + 1 == ny),
    ;
    if offset(ny, nz, x, y, z) + 1 < nx * ny * nz && n.0 >= nx {
        assert(false) by (nonlinear_arith)
            requires
                (n.0 * ny + n.1) * nz + n.2 < nx * ny * nz,
                n.0 >= nx,
                n.1 >= 0,
                n.2 >= 0,
        ;
    }
}

/// A tabulated grid is well formed and holds at each position the value of
/// its defining function.
pub proof fn lemma_tabulate(nx: nat, ny: nat, nz: nat, f: spec_fn(int, int, int) -> u8)
    ensures
        Grid::tabulate(nx, ny, nz, f).wf(),
        forall|x: int, y: int, z: int|
            0 <= x < nx && 0 <= y < ny && 0 <= z < nz ==> #[trigger] Grid::tabulate(
                nx,
                ny,
                nz,
                f,
            ).at(x, y, z) == f(x, y, z),
{
    let g = Grid::tabulate(nx, ny, nz, f);
    assert forall|x: int, y: int, z: int|
        0 <= x < nx && 0 <= y < ny && 0 <= z < nz implies #[trigger] g.at(x, y, z) == f(x, y, z) by {
        lemma_offset_bounds(nx, ny, nz, x, y, z);
        lemma_coords_of_offset(nx, ny, nz, x, y, z);
    }
}

/// Two well-formed grids with the same axis lengths and the same value at
/// every position are the same grid.
pub proof fn lemma_grid_ext(a: Grid, b: Grid)
    requires
        a.wf(),
        b.wf(),
        a.nx == b.nx,
        a.ny == b.ny,
        a.nz == b.nz,
        forall|x: int, y: int, z: int| a.inside(x, y, z) ==> #[trigger] a.at(x, y, z) == b.at(x, y, z),
    ensures
        a == b,
{
    assert forall|i: int| 0 <= i < a.cells.len() implies a.cells[i] == b.cells[i] by {
        lemma_offset_of_coords(a.nx, a.ny, a.nz, i);
        let c = coords(a.ny, a.nz, i);
        assert(a.inside(c.0, c.1, c.2));
        assert(a.at(c.0, c.1, c.2) == b.at(c.0, c.1, c.2));
    }
    assert(a.cells =~= b.cells);
}

} // verus!
