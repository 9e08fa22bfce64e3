//! Maps between the positions of two grids.
use crate::grid::{lemma_tabulate, Grid};
use vstd::prelude::*;

verus! {

/// How one coordinate of a source cell is found from the position of a target
/// cell: take the target coordinate along the axis `from`, and add it to
/// `shift`, or subtract it where `flip` is set.
#[derive(Clone, Copy, Debug)]
pub struct AxisMap {
    pub from: u8,
    pub flip: bool,
    pub shift: isize,
}

/// A map from the positions of a target grid to positions of a source grid,
/// one [`AxisMap`] for each source axis. Translations, axis permutations and
/// reflections along an axis are all of this form.
#[derive(Clone, Copy, Debug)]
pub struct Remap {
    pub x: AxisMap,
    pub y: AxisMap,
    pub z: AxisMap,
}

impl AxisMap {
    /// The source coordinate for the target position `(x, y, z)`.
    pub open spec fn source(self, x: int, y: int, z: int) -> int {
        let o = if self.from == 0 {
            x
        } else if self.from == 1 {
            y
        } else {
            z
        };
        if self.flip {
            self.shift - o
        } else {
            self.shift + o
        }
    }

    /// Computes the source coordinate for the target position `(x, y, z)`.
    pub fn locate(&self, x: usize, y: usize, z: usize) -> (s: i128)
        ensures
            s == self.source(x as int, y as int, z as int),
    {
        let o: usize = if self.from == 0 {
            x
        } else if self.from == 1 {
            y
        } else {
            z
        };
        if self.flip {
            self.shift as i128 - o as i128
        } else {
            self.shift as i128 + o as i128
        }
    }
}

impl Remap {
    /// The source position for the target position `(x, y, z)`.
    pub open spec fn source(self, x: int, y: int, z: int) -> (int, int, int) {
        (self.x.source(x, y, z), self.y.source(x, y, z), self.z.source(x, y, z))
    }
}

impl Grid {
    /// The value that the target position `(x, y, z)` takes from this grid
    /// under `m`: the cell at its source position, or `0` where that position
    /// lies outside this grid.
    pub open spec fn sample(self, m: Remap, x: int, y: int, z: int) -> u8 {
        let s = m.source(x, y, z);
        if self.inside(s.0, s.1, s.2) {
            self.at(s.0, s.1, s.2)
        } else {
            0
        }
    }

    /// The grid of the given axis lengths whose every cell is taken from this
    /// grid under `m`.
    pub open spec fn resample(self, nx: nat, ny: nat, nz: nat, m: Remap) -> Grid {
        Grid::tabulate(nx, ny, nz, |x: int, y: int, z: int| self.sample(m, x, y, z))
    }
}

/// A resampled grid is well formed and holds at each of its positions the
/// sampled value.
pub proof fn lemma_resample(g: Grid, nx: nat, ny: nat, nz: nat, m: Remap)
    ensures
        g.resample(nx, ny, nz, m).wf(),
        g.resample(nx, ny, nz, m).nx == nx,
        g.resample(nx, ny, nz, m).ny == ny,
        g.resample(nx, ny, nz, m).nz == nz,
        forall|x: int, y: int, z: int|
            0 <= x < nx && 0 <= y < ny && 0 <= z < nz ==> #[trigger] g.resample(nx, ny, nz, m).at(
                x,
                y,
                z,
            ) == g.sample(m, x, y, z),
{
    lemma_tabulate(nx, ny, nz, |x: int, y: int, z: int| g.sample(m, x, y, z));
}

} // verus!
