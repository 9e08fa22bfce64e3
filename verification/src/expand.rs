//! Growing a shape by one cube in every possible way.
use crate::array::Polycube;
use crate::block::Block;
use crate::crop::{lemma_bounds, lemma_crop_cells, lemma_crop_trimmed};
use crate::grid::{
    coords, fits, lemma_coords_of_offset, lemma_grid_ext, lemma_offset_bounds,
    lemma_offset_of_coords, lemma_span_bounds, lemma_successor, lemma_tabulate, offset, Grid,
};
use crate::remap::{lemma_resample, AxisMap, Remap};
use vstd::prelude::*;

verus! {

impl Grid {
    /// The grid with one layer of empty cells added on each of its six faces.
    pub open spec fn padded(self) -> Grid {
        Grid::tabulate(
            self.nx + 2,
            self.ny + 2,
            self.nz + 2,
            |x: int, y: int, z: int|
                if self.inside(x - 1, y - 1, z - 1) {
                    self.at(x - 1, y - 1, z - 1)
                } else {
                    0u8
                },
        )
    }

    /// Whether the position `(x, y, z)` shares a face with an occupied cell.
    pub open spec fn touches(self, x: int, y: int, z: int) -> bool {
        ||| self.filled(x - 1, y, z)
        ||| self.filled(x + 1, y, z)
        ||| self.filled(x, y - 1, z)
        ||| self.filled(x, y + 1, z)
        ||| self.filled(x, y, z - 1)
        ||| self.filled(x, y, z + 1)
    }

    /// Whether a cube can be attached at `(x, y, z)`: the cell is not
    /// occupied, and it shares a face with one that is.
    pub open spec fn attachable(self, x: int, y: int, z: int) -> bool {
        self.inside(x, y, z) && self.at(x, y, z) != 1 && self.touches(x, y, z)
    }

    /// The grid with the cell at `(x, y, z)` occupied.
    pub open spec fn with_cube(self, x: int, y: int, z: int) -> Grid {
        Grid {
            nx: self.nx,
            ny: self.ny,
            nz: self.nz,
            cells: self.cells.update(offset(self.ny, self.nz, x, y, z), 1u8),
        }
    }

    /// The candidates that the first `k` positions of this grid give, in row
    /// order: for each position where a cube can be attached, the grid with
    /// that cube, cropped.
    pub open spec fn grown(self, k: nat) -> Seq<Grid>
        decreases k,
    {
        if k == 0 {
            Seq::empty()
        } else {
            let c = coords(self.ny, self.nz, k - 1);
            let before = self.grown((k - 1) as nat);
            if self.attachable(c.0, c.1, c.2) {
                before.push(self.with_cube(c.0, c.1, c.2).crop())
            } else {
                before
            }
        }
    }

    /// Every shape that comes of attaching one cube to this grid: one
    /// candidate for each empty cell, of the grid or of the layer around it,
    /// that shares a face with an occupied cell; in row order of those cells,
    /// each cropped to its bounding box.
    pub open spec fn expand(self) -> Seq<Grid> {
        self.padded().grown(self.padded().size())
    }
}

/// The grids that a sequence of arrays stands for.
pub open spec fn views(v: Seq<Polycube>) -> Seq<Grid> {
    Seq::new(v.len(), |i: int| v[i]@)
}

/// A padded grid is well formed, and is made of `0` and `1` where the grid was.
pub proof fn lemma_padded(g: Grid)
    requires
        g.wf(),
    ensures
        g.padded().wf(),
        g.binary() ==> g.padded().binary(),
{
    let p = g.padded();
    lemma_tabulate(
        g.nx + 2,
        g.ny + 2,
        g.nz + 2,
        |x: int, y: int, z: int|
            if g.inside(x - 1, y - 1, z - 1) {
                g.at(x - 1, y - 1, z - 1)
            } else {
                0u8
            },
    );
    if g.binary() {
        assert forall|i: int| 0 <= i < p.cells.len() implies #[trigger] p.cells[i] <= 1 by {
            let c = coords(p.ny, p.nz, i);
            if g.inside(c.0 - 1, c.1 - 1, c.2 - 1) {
                lemma_offset_bounds(g.nx, g.ny, g.nz, c.0 - 1, c.1 - 1, c.2 - 1);
            }
        }
    }
}

/// A cropped grid is no longer than the grid along any axis, and is made of
/// `0` and `1` where the grid was.
pub proof fn lemma_crop_within(g: Grid)
    requires
        g.wf(),
    ensures
        g.crop().nx <= g.nx,
        g.crop().ny <= g.ny,
        g.crop().nz <= g.nz,
        g.binary() ==> g.crop().binary(),
{
    let c = g.crop();
    lemma_crop_cells(g);
    lemma_bounds(g, 0);
    lemma_bounds(g, 1);
    lemma_bounds(g, 2);
    if g.binary() {
        assert forall|i: int| 0 <= i < c.cells.len() implies #[trigger] c.cells[i] <= 1 by {
            lemma_offset_of_coords(c.nx, c.ny, c.nz, i);
            let p = coords(c.ny, c.nz, i);
            assert(c.inside(p.0, p.1, p.2));
            assert(c.cells[i] == c.at(p.0, p.1, p.2));
            lemma_offset_bounds(g.nx, g.ny, g.nz, p.0 + g.lo(0), p.1 + g.lo(1), p.2 + g.lo(2));
        }
    }
}

/// Every candidate is its own bounding box, exceeds the grid it was grown
/// from by at most the added layer, and is made of `0` and `1` where that
/// grid was.
pub proof fn lemma_grown_members(p: Grid, k: nat, i: int)
    requires
        p.wf(),
        k <= p.size(),
        0 <= i < p.grown(k).len(),
    ensures
        p.grown(k)[i].trimmed(),
        p.grown(k)[i].nx <= p.nx,
        p.grown(k)[i].ny <= p.ny,
        p.grown(k)[i].nz <= p.nz,
        p.binary() ==> p.grown(k)[i].binary(),
    decreases k,
{
    if k > 0 {
        let c = coords(p.ny, p.nz, k - 1);
        let before = p.grown((k - 1) as nat);
        if i < before.len() {
            lemma_grown_members(p, (k - 1) as nat, i);
        } else {
            let q = p.with_cube(c.0, c.1, c.2);
            lemma_offset_of_coords(p.nx, p.ny, p.nz, k - 1);
            assert(q.wf());
            lemma_crop_trimmed(q);
            lemma_crop_within(q);
        }
    }
}

/// Every candidate of a well-formed grid is its own bounding box, exceeds the
/// grid by at most two along any axis, and is made of `0` and `1` where the
/// grid was.
pub proof fn lemma_expand_members(g: Grid, i: int)
    requires
        g.wf(),
        0 <= i < g.expand().len(),
    ensures
        g.expand()[i].trimmed(),
        g.expand()[i].nx <= g.nx + 2,
        g.expand()[i].ny <= g.ny + 2,
        g.expand()[i].nz <= g.nz + 2,
        g.binary() ==> g.expand()[i].binary(),
{
    lemma_padded(g);
    lemma_grown_members(g.padded(), g.padded().size(), i);
}

impl Block {
    /// Decides whether `(x, y, z)` is a position of the block whose cell is occupied.
    pub fn filled(&self, x: usize, y: usize, z: usize) -> (r: bool)
        requires
            self@.wf(),
        ensures
            r == self@.filled(x as int, y as int, z as int),
    {
        x < self.nx && y < self.ny && z < self.nz && self.get(x, y, z) == 1
    }

    /// Decides whether the position `(x, y, z)` shares a face with an occupied cell.
    pub fn touches(&self, x: usize, y: usize, z: usize) -> (r: bool)
        requires
            self@.wf(),
            self@.inside(x as int, y as int, z as int),
        ensures
            r == self@.touches(x as int, y as int, z as int),
    {
        (x > 0 && self.filled(x - 1, y, z)) || self.filled(x + 1, y, z) || (y > 0 && self.filled(
            x,
            y - 1,
            z,
        )) || self.filled(x, y + 1, z) || (z > 0 && self.filled(x, y, z - 1)) || self.filled(
            x,
            y,
            z + 1,
        )
    }

    /// Adds one layer of empty cells on each of the six faces.
    pub fn pad(&self) -> (out: Block)
        requires
            self.wf(),
            fits(self@.nx + 2, self@.ny + 2, self@.nz + 2),
        ensures
            out@ == self@.padded(),
            out.wf(),
    {
        proof {
            lemma_span_bounds(self.nx as nat, self.ny as nat, self.nz as nat);
            lemma_span_bounds(self@.nx + 2, self@.ny + 2, self@.nz + 2);
        }
        let m = Remap {
            x: AxisMap { from: 0, flip: false, shift: -1 },
            y: AxisMap { from: 1, flip: false, shift: -1 },
            z: AxisMap { from: 2, flip: false, shift: -1 },
        };
        let out = self.resample(self.nx + 2, self.ny + 2, self.nz + 2, &m);
        proof {
            lemma_resample(self@, self@.nx + 2, self@.ny + 2, self@.nz + 2, m);
            lemma_padded(self@);
            lemma_tabulate(
                self@.nx + 2,
                self@.ny + 2,
                self@.nz + 2,
                |x: int, y: int, z: int|
                    if self@.inside(x - 1, y - 1, z - 1) {
                        self@.at(x - 1, y - 1, z - 1)
                    } else {
                        0u8
                    },
            );
            lemma_grid_ext(out@, self@.padded());
        }
        out
    }
}

/// Returns every candidate that comes of attaching one cube to the polycube:
/// one for each cell that is not occupied, in the array or in the layer
/// around it, and shares a face with an occupied cell. The candidates come in
/// row order of those cells, each cropped to its bounding box. The array with
/// the layer around it must be one that can exist.
pub fn expand_cube(cube: &Polycube) -> (out: Vec<Polycube>)
    requires
        fits(cube@.nx + 2, cube@.ny + 2, cube@.nz + 2),
    ensures
        views(out@) == cube@.expand(),
{
    let b = Block::read(cube);
    let mut p = b.pad();
    let ghost padded = cube@.padded();
    let total: usize = p.cells.len();
    let mut out: Vec<Polycube> = Vec::new();
    let mut x: usize = 0;
    let mut y: usize = 0;
    let mut z: usize = 0;
    let mut i: usize = 0;
    proof {
        assert(0 < total ==> p.nx > 0 && p.ny > 0 && p.nz > 0) by (nonlinear_arith)
            requires
                total == p.nx * p.ny * p.nz,
        ;
        assert((0 * p.ny + 0) * p.nz + 0 == 0) by (nonlinear_arith);
        assert(views(out@) =~= padded.grown(0));
    }
    while i < total
        invariant
            p@ == padded,
            p.wf(),
            total == padded.size(),
            i <= total,
            offset(p.ny as nat, p.nz as nat, x as int, y as int, z as int) == i,
            i < total ==> x < p.nx && y < p.ny && z < p.nz,
            views(out@) == padded.grown(i as nat),
        decreases total - i,
    {
        proof {
            lemma_coords_of_offset(
                p.nx as nat,
                p.ny as nat,
                p.nz as nat,
                x as int,
                y as int,
                z as int,
            );
            lemma_successor(p.nx as nat, p.ny as nat, p.nz as nat, x as int, y as int, z as int);
        }
        let v = p.cells[i];
        if v != 1 && p.touches(x, y, z) {
            p.cells.set(i, 1);
            assert(p@ == padded.with_cube(x as int, y as int, z as int));
            let candidate = p.crop().write();
            let ghost was = out@;
            out.push(candidate);
            p.cells.set(i, v);
            proof {
                assert(p.cells@ =~= padded.cells);
                assert(views(out@) =~= views(was).push(candidate@));
            }
        }
        i += 1;
        if z + 1 < p.nz {
            z += 1;
        } else if y + 1 < p.ny {
            z = 0;
            y += 1;
        } else {
            z = 0;
            y = 0;
            x += 1;
        }
    }
    out
}

} // verus!
