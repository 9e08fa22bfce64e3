//! Grids as plain values, and the one loop that builds a grid from another.
use crate::array::{array_dim, array_from_shape_vec, array_iter, Polycube};
use crate::grid::{
    coords, fits, lemma_coords_of_offset, lemma_offset_bounds, lemma_span_bounds, lemma_successor,
    offset, Grid,
};
use crate::remap::Remap;
use vstd::prelude::*;

verus! {

/// The working form of a grid: its axis lengths and its cells as plain values.
pub struct Block {
    pub nx: usize,
    pub ny: usize,
    pub nz: usize,
    pub cells: Vec<u8>,
}

impl View for Block {
    type V = Grid;

    open spec fn view(&self) -> Grid {
        Grid { nx: self.nx as nat, ny: self.ny as nat, nz: self.nz as nat, cells: self.cells@ }
    }
}

impl Block {
    /// A block is well formed when it holds one cell per position and an
    /// array of its shape can exist.
    pub open spec fn wf(&self) -> bool {
        self@.wf() && fits(self.nx as nat, self.ny as nat, self.nz as nat)
    }

    /// Reads an array into a block.
    pub fn read(p: &Polycube) -> (b: Block)
        ensures
            b@ == p@,
            b.wf(),
    {
        let d = array_dim(p);
        let cells = array_iter(p);
        Block { nx: d.0, ny: d.1, nz: d.2, cells }
    }

    /// Turns a block into an array.
    pub fn write(self) -> (p: Polycube)
        requires
            self.wf(),
        ensures
            p@ == self@,
    {
        let r = array_from_shape_vec(self.nx, self.ny, self.nz, self.cells);
        r.unwrap()
    }

    /// The cell at `(x, y, z)`.
    pub fn get(&self, x: usize, y: usize, z: usize) -> (v: u8)
        requires
            self@.wf(),
            self@.inside(x as int, y as int, z as int),
        ensures
            v == self@.at(x as int, y as int, z as int),
    {
        let count: usize = self.cells.len();
        proof {
            lemma_offset_bounds(
                self.nx as nat,
                self.ny as nat,
                self.nz as nat,
                x as int,
                y as int,
                z as int,
            );
            let nx = self.nx as int;
            let ny = self.ny as int;
            let nz = self.nz as int;
            let len = count as int;
            assert(0 <= x * ny <= x * ny + y <= (x * ny + y) * nz <= (x * ny + y) * nz + z < len)
                by (nonlinear_arith)
                requires
                    0 <= x < nx,
                    0 <= y < ny,
                    0 <= z < nz,
                    (x * ny + y) * nz + z < nx * ny * nz,
                    len == nx * ny * nz,
            ;
        }
        self.cells[(x * self.ny + y) * self.nz + z]
    }

    /// The value that the target position `(x, y, z)` takes from this block under `m`.
    pub fn sample(&self, m: &Remap, x: usize, y: usize, z: usize) -> (v: u8)
        requires
            self@.wf(),
        ensures
            v == self@.sample(*m, x as int, y as int, z as int),
    {
        let sx = m.x.locate(x, y, z);
        let sy = m.y.locate(x, y, z);
        let sz = m.z.locate(x, y, z);
        if 0 <= sx && sx < self.nx as i128 && 0 <= sy && sy < self.ny as i128 && 0 <= sz && sz
            < self.nz as i128 {
            self.get(sx as usize, sy as usize, sz as usize)
        } else {
            0
        }
    }

    /// Builds the block of the given axis lengths whose every cell is taken
    /// from this block under `m`.
    pub fn resample(&self, nx: usize, ny: usize, nz: usize, m: &Remap) -> (out: Block)
        requires
            self@.wf(),
            fits(nx as nat, ny as nat, nz as nat),
        ensures
            out@ == self@.resample(nx as nat, ny as nat, nz as nat, *m),
            out.wf(),
    {
        proof {
            lemma_span_bounds(nx as nat, ny as nat, nz as nat);
        }
        let total: usize = nx * ny * nz;
        let ghost target = self@.resample(nx as nat, ny as nat, nz as nat, *m);
        let mut cells: Vec<u8> = Vec::with_capacity(total);
        let mut x: usize = 0;
        let mut y: usize = 0;
        let mut z: usize = 0;
        let mut i: usize = 0;
        proof {
            assert(0 < total ==> nx > 0 && ny > 0 && nz > 0) by (nonlinear_arith)
                requires
                    total == nx * ny * nz,
            ;
            assert((0 * ny + 0) * nz + 0 == 0) by (nonlinear_arith);
        }
        while i < total
            invariant
                self@.wf(),
                total == nx * ny * nz,
                target == self@.resample(nx as nat, ny as nat, nz as nat, *m),
                i <= total,
                cells@.len() == i,
                offset(ny as nat, nz as nat, x as int, y as int, z as int) == i,
                i < total ==> x < nx && y < ny && z < nz,
                forall|k: int| 0 <= k < i ==> cells@[k] == target.cells[k],
            decreases total - i,
        {
            let v = self.sample(m, x, y, z);
            proof {
                lemma_coords_of_offset(nx as nat, ny as nat, nz as nat, x as int, y as int, z as int);
                assert(coords(ny as nat, nz as nat, i as int) == (x as int, y as int, z as int));
                assert(target.cells[i as int] == v);
            }
            cells.push(v);
            proof {
                lemma_successor(nx as nat, ny as nat, nz as nat, x as int, y as int, z as int);
            }
            i += 1;
            if z + 1 < nz {
                z += 1;
            } else if y + 1 < ny {
                z = 0;
                y += 1;
            } else {
                z = 0;
                y = 0;
                x += 1;
            }
        }
        assert(cells@ =~= target.cells);
        Block { nx, ny, nz, cells }
    }
}

} // verus!
