//! Cropping a grid to the bounding box of its occupied cells.
use crate::array::Polycube;
use crate::block::Block;
use crate::grid::{
    lemma_grid_ext, lemma_span_bounds, lemma_span_monotonic, lemma_tabulate, pick, span, Grid,
};
use crate::remap::{lemma_resample, AxisMap, Remap};
use vstd::prelude::*;

verus! {

impl Grid {
    /// Whether the grid has no occupied cell.
    pub open spec fn vacant(self) -> bool {
        forall|x: int, y: int, z: int| !#[trigger] self.filled(x, y, z)
    }

    /// Whether the slab of cells whose coordinate along `axis` is `k` holds an
    /// occupied cell.
    pub open spec fn slab_filled(self, axis: int, k: int) -> bool {
        exists|x: int, y: int, z: int| #[trigger] self.filled(x, y, z) && pick(axis, x, y, z) == k
    }

    /// The first slab along `axis`, at or after `from`, that holds an
    /// occupied cell; the length of the axis where there is none.
    pub open spec fn first_filled(self, axis: int, from: nat) -> nat
        decreases self.extent(axis) - from,
    {
        if from >= self.extent(axis) {
            self.extent(axis)
        } else if self.slab_filled(axis, from as int) {
            from
        } else {
            self.first_filled(axis, from + 1)
        }
    }

    /// One more than the last slab along `axis`, below `upto`, that holds an
    /// occupied cell; `0` where there is none.
    pub open spec fn last_filled(self, axis: int, upto: nat) -> nat
        decreases upto,
    {
        if upto == 0 {
            0
        } else if self.slab_filled(axis, upto - 1) {
            upto
        } else {
            self.last_filled(axis, (upto - 1) as nat)
        }
    }

    /// The least coordinate along `axis` of an occupied cell.
    pub open spec fn lo(self, axis: int) -> nat {
        self.first_filled(axis, 0)
    }

    /// One more than the greatest coordinate along `axis` of an occupied cell.
    pub open spec fn hi(self, axis: int) -> nat {
        self.last_filled(axis, self.extent(axis))
    }

    /// The grid cut down to the bounding box of its occupied cells. A grid
    /// without occupied cells is cut down to the grid without cells.
    pub open spec fn crop(self) -> Grid {
        if self.vacant() {
            Grid { nx: 0, ny: 0, nz: 0, cells: Seq::empty() }
        } else {
            Grid::tabulate(
                (self.hi(0) - self.lo(0)) as nat,
                (self.hi(1) - self.lo(1)) as nat,
                (self.hi(2) - self.lo(2)) as nat,
                |x: int, y: int, z: int| self.at(x + self.lo(0), y + self.lo(1), z + self.lo(2)),
            )
        }
    }

    /// Whether the grid is its own bounding box: it is well formed, each of
    /// its six boundary slabs holds an occupied cell, and it has no cells at
    /// all where none is occupied.
    pub open spec fn trimmed(self) -> bool {
        &&& self.wf()
        &&& self.vacant() ==> self.nx == 0 && self.ny == 0 && self.nz == 0
        &&& !self.vacant() ==> forall|axis: int|
            0 <= axis < 3 ==> #[trigger] self.slab_filled(axis, 0) && self.slab_filled(
                axis,
                self.extent(axis) - 1,
            )
    }
}

/// What `first_filled` finds: nothing before it is occupied, and the slab it
/// names is, unless it ran off the axis.
pub proof fn lemma_first_filled(g: Grid, axis: int, from: nat)
    requires
        from <= g.extent(axis),
    ensures
        from <= g.first_filled(axis, from) <= g.extent(axis),
        g.first_filled(axis, from) < g.extent(axis) ==> g.slab_filled(
            axis,
            g.first_filled(axis, from) as int,
        ),
        forall|k: int| from <= k < g.first_filled(axis, from) ==> !g.slab_filled(axis, k),
    decreases g.extent(axis) - from,
{
    if from < g.extent(axis) && !g.slab_filled(axis, from as int) {
        lemma_first_filled(g, axis, from + 1);
    }
}

/// What `last_filled` finds: nothing at or after it is occupied, and the slab
/// just below it is, unless it ran down to `0`.
pub proof fn lemma_last_filled(g: Grid, axis: int, upto: nat)
    ensures
        g.last_filled(axis, upto) <= upto,
        g.last_filled(axis, upto) > 0 ==> g.slab_filled(axis, g.last_filled(axis, upto) - 1),
        forall|k: int| g.last_filled(axis, upto) <= k < upto ==> !g.slab_filled(axis, k),
    decreases upto,
{
    if upto > 0 && !g.slab_filled(axis, upto - 1) {
        lemma_last_filled(g, axis, (upto - 1) as nat);
    }
}

/// The bounds along an axis enclose every occupied cell, and are tight: in a
/// grid with an occupied cell, the first and the last slab within them hold one.
pub proof fn lemma_bounds(g: Grid, axis: int)
    requires
        0 <= axis < 3,
    ensures
        g.lo(axis) <= g.extent(axis),
        g.hi(axis) <= g.extent(axis),
        forall|x: int, y: int, z: int| #[trigger]
            g.filled(x, y, z) ==> g.lo(axis) <= pick(axis, x, y, z) < g.hi(axis),
        !g.vacant() ==> g.lo(axis) < g.hi(axis) && g.slab_filled(axis, g.lo(axis) as int)
            && g.slab_filled(axis, g.hi(axis) - 1),
        g.vacant() ==> g.lo(axis) == g.extent(axis) && g.hi(axis) == 0,
{
    lemma_first_filled(g, axis, 0);
    lemma_last_filled(g, axis, g.extent(axis));
    assert forall|x: int, y: int, z: int| #[trigger] g.filled(x, y, z) implies g.lo(axis) <= pick(
        axis,
        x,
        y,
        z,
    ) < g.hi(axis) by {
        assert(g.slab_filled(axis, pick(axis, x, y, z)));
    }
    if g.vacant() {
        if g.lo(axis) < g.extent(axis) {
            assert(g.slab_filled(axis, g.lo(axis) as int));
        }
        if g.hi(axis) > 0 {
            assert(g.slab_filled(axis, g.hi(axis) - 1));
        }
    } else {
        let (x, y, z) = choose|x: int, y: int, z: int| g.filled(x, y, z);
        assert(g.filled(x, y, z));
    }
}

/// The lower bound along an axis is the one coordinate that some occupied
/// cell has and none goes below.
pub proof fn lemma_lo_unique(g: Grid, axis: int, k: int)
    requires
        0 <= axis < 3,
        g.slab_filled(axis, k),
        forall|x: int, y: int, z: int| #[trigger] g.filled(x, y, z) ==> k <= pick(axis, x, y, z),
    ensures
        g.lo(axis) == k,
{
    lemma_bounds(g, axis);
    let (x, y, z) = choose|x: int, y: int, z: int| #[trigger]
        g.filled(x, y, z) && pick(axis, x, y, z) == k;
    assert(g.filled(x, y, z));
    let l = g.lo(axis) as int;
    let (a, b, c) = choose|a: int, b: int, c: int| #[trigger]
        g.filled(a, b, c) && pick(axis, a, b, c) == l;
    assert(g.filled(a, b, c));
}

/// The upper bound along an axis is one more than the one coordinate that
/// some occupied cell has and none exceeds.
pub proof fn lemma_hi_unique(g: Grid, axis: int, k: int)
    requires
        0 <= axis < 3,
        g.slab_filled(axis, k - 1),
        forall|x: int, y: int, z: int| #[trigger] g.filled(x, y, z) ==> pick(axis, x, y, z) < k,
    ensures
        g.hi(axis) == k,
{
    lemma_bounds(g, axis);
    let (x, y, z) = choose|x: int, y: int, z: int| #[trigger]
        g.filled(x, y, z) && pick(axis, x, y, z) == k - 1;
    assert(g.filled(x, y, z));
    let h = g.hi(axis) - 1;
    let (a, b, c) = choose|a: int, b: int, c: int| #[trigger]
        g.filled(a, b, c) && pick(axis, a, b, c) == h;
    assert(g.filled(a, b, c));
}

/// The cells of a cropped grid are the cells of the bounding box: a position
/// of the cropped grid is occupied exactly when the position shifted by the
/// lower bounds is occupied in the grid it was cut from.
pub proof fn lemma_crop_cells(g: Grid)
    requires
        g.wf(),
    ensures
        g.crop().wf(),
        g.vacant() ==> g.crop().vacant(),
        !g.vacant() ==> g.crop().nx == g.hi(0) - g.lo(0) && g.crop().ny == g.hi(1) - g.lo(1)
            && g.crop().nz == g.hi(2) - g.lo(2),
        forall|x: int, y: int, z: int|
            g.crop().inside(x, y, z) ==> #[trigger] g.crop().at(x, y, z) == g.at(
                x + g.lo(0),
                y + g.lo(1),
                z + g.lo(2),
            ),
        forall|x: int, y: int, z: int| #[trigger]
            g.crop().filled(x, y, z) <==> g.filled(x + g.lo(0), y + g.lo(1), z + g.lo(2)) && x >= 0
                && y >= 0 && z >= 0,
{
    lemma_bounds(g, 0);
    lemma_bounds(g, 1);
    lemma_bounds(g, 2);
    if g.vacant() {
        assert(g.crop().size() == 0) by (nonlinear_arith)
            requires
                g.crop().nx == 0,
                g.crop().ny == 0,
                g.crop().nz == 0,
        ;
    } else {
        lemma_tabulate(
            (g.hi(0) - g.lo(0)) as nat,
            (g.hi(1) - g.lo(1)) as nat,
            (g.hi(2) - g.lo(2)) as nat,
            |x: int, y: int, z: int| g.at(x + g.lo(0), y + g.lo(1), z + g.lo(2)),
        );
    }
    assert forall|x: int, y: int, z: int| #[trigger]
        g.crop().filled(x, y, z) <==> g.filled(x + g.lo(0), y + g.lo(1), z + g.lo(2)) && x >= 0 && y
            >= 0 && z >= 0 by {
        if g.filled(x + g.lo(0), y + g.lo(1), z + g.lo(2)) {
            assert(pick(0, x + g.lo(0), y + g.lo(1), z + g.lo(2)) == x + g.lo(0));
            assert(pick(1, x + g.lo(0), y + g.lo(1), z + g.lo(2)) == y + g.lo(1));
            assert(pick(2, x + g.lo(0), y + g.lo(1), z + g.lo(2)) == z + g.lo(2));
        }
    }
}

/// A cropped grid is its own bounding box.
pub proof fn lemma_crop_trimmed(g: Grid)
    requires
        g.wf(),
    ensures
        g.crop().trimmed(),
{
    let c = g.crop();
    lemma_crop_cells(g);
    lemma_bounds(g, 0);
    lemma_bounds(g, 1);
    lemma_bounds(g, 2);
    if !g.vacant() {
        let l = (g.lo(0) as int, g.lo(1) as int, g.lo(2) as int);
        assert forall|axis: int| 0 <= axis < 3 implies #[trigger] c.slab_filled(axis, 0)
            && c.slab_filled(axis, c.extent(axis) - 1) by {
            let (x, y, z) = choose|x: int, y: int, z: int| #[trigger]
                g.filled(x, y, z) && pick(axis, x, y, z) == g.lo(axis);
            assert(g.filled(x, y, z));
            assert(c.filled(x - l.0, y - l.1, z - l.2));
            assert(pick(axis, x - l.0, y - l.1, z - l.2) == 0);
            let (a, b, d) = choose|a: int, b: int, d: int| #[trigger]
                g.filled(a, b, d) && pick(axis, a, b, d) == g.hi(axis) - 1;
            assert(g.filled(a, b, d));
            assert(c.filled(a - l.0, b - l.1, d - l.2));
            assert(pick(axis, a - l.0, b - l.1, d - l.2) == c.extent(axis) - 1);
        }
        assert(c.filled(0, 0, 0) || !c.vacant()) by {
            let (x, y, z) = choose|x: int, y: int, z: int| g.filled(x, y, z);
            assert(g.filled(x, y, z));
            assert(c.filled(x - l.0, y - l.1, z - l.2));
        }
    }
}

/// Cropping a grid that is its own bounding box changes nothing.
pub proof fn lemma_crop_of_trimmed(g: Grid)
    requires
        g.trimmed(),
    ensures
        g.crop() == g,
{
    if g.vacant() {
        assert(g.cells.len() == 0) by (nonlinear_arith)
            requires
                g.cells.len() == g.nx * g.ny * g.nz,
                g.nx == 0,
        ;
        assert(g.cells =~= Seq::<u8>::empty());
    } else {
        assert forall|axis: int| 0 <= axis < 3 implies g.lo(axis) == 0 && g.hi(axis) == g.extent(
            axis,
        ) by {
            assert(g.slab_filled(axis, 0));
            lemma_lo_unique(g, axis, 0);
            lemma_hi_unique(g, axis, g.extent(axis) as int);
        }
        assert(g.lo(0) == 0 && g.hi(0) == g.nx);
        assert(g.lo(1) == 0 && g.hi(1) == g.ny);
        assert(g.lo(2) == 0 && g.hi(2) == g.nz);
        lemma_crop_cells(g);
        lemma_grid_ext(g.crop(), g);
    }
}

/// Cropping twice is cropping once.
pub proof fn lemma_crop_idempotent(g: Grid)
    requires
        g.wf(),
    ensures
        g.crop().crop() == g.crop(),
{
    lemma_crop_trimmed(g);
    lemma_crop_of_trimmed(g.crop());
}

/// The bounding box of the occupied cells of a block: for each axis the least
/// coordinate of an occupied cell, and one more than the greatest.
pub struct Bounds {
    pub lo: (usize, usize, usize),
    pub hi: (usize, usize, usize),
}

/// Whether `(a, b, c)` comes before `(x, y, z)` in row order.
pub open spec fn comes_before(a: int, b: int, c: int, x: int, y: int, z: int) -> bool {
    a < x || (a == x && (b < y || (b == y && c < z)))
}

/// What a row-order scan knows when it stands at `(x, y, z)`: whether an
/// occupied cell came before, and if so the tight bounds of all that did.
pub open spec fn scanned(g: Grid, x: int, y: int, z: int, found: bool, b: Bounds) -> bool {
    &&& forall|i: int, j: int, k: int| #[trigger]
        g.filled(i, j, k) && comes_before(i, j, k, x, y, z) ==> found && b.lo.0 <= i < b.hi.0
            && b.lo.1 <= j < b.hi.1 && b.lo.2 <= k < b.hi.2
    &&& found ==> g.slab_filled(0, b.lo.0 as int) && g.slab_filled(0, b.hi.0 - 1) && g.slab_filled(
        1,
        b.lo.1 as int,
    ) && g.slab_filled(1, b.hi.1 - 1) && g.slab_filled(2, b.lo.2 as int) && g.slab_filled(
        2,
        b.hi.2 - 1,
    ) && b.hi.0 <= g.nx && b.hi.1 <= g.ny && b.hi.2 <= g.nz
}

impl Block {
    /// Finds the bounding box of the occupied cells, if there is any such cell.
    pub fn bounds(&self) -> (r: Option<Bounds>)
        requires
            self@.wf(),
        ensures
            r is None <==> self@.vacant(),
            r matches Some(b) ==> b.lo.0 == self@.lo(0) && b.lo.1 == self@.lo(1) && b.lo.2
                == self@.lo(2) && b.hi.0 == self@.hi(0) && b.hi.1 == self@.hi(1) && b.hi.2
                == self@.hi(2),
    {
        let mut found = false;
        let mut b = Bounds { lo: (0, 0, 0), hi: (0, 0, 0) };
        let mut x: usize = 0;
        while x < self.nx
            invariant
                self@.wf(),
                x <= self.nx,
                scanned(self@, x as int, 0, 0, found, b),
            decreases self.nx - x,
        {
            let mut y: usize = 0;
            while y < self.ny
                invariant
                    self@.wf(),
                    x < self.nx,
                    y <= self.ny,
                    scanned(self@, x as int, y as int, 0, found, b),
                decreases self.ny - y,
            {
                let mut z: usize = 0;
                while z < self.nz
                    invariant
                        self@.wf(),
                        x < self.nx,
                        y < self.ny,
                        z <= self.nz,
                        scanned(self@, x as int, y as int, z as int, found, b),
                    decreases self.nz - z,
                {
                    if self.get(x, y, z) == 1 {
                        assert(self@.filled(x as int, y as int, z as int));
                        assert(pick(0, x as int, y as int, z as int) == x);
                        assert(pick(1, x as int, y as int, z as int) == y);
                        assert(pick(2, x as int, y as int, z as int) == z);
                        if !found {
                            found = true;
                            b = Bounds { lo: (x, y, z), hi: (x + 1, y + 1, z + 1) };
                        } else {
                            if x < b.lo.0 {
                                b.lo.0 = x;
                            }
                            if y < b.lo.1 {
                                b.lo.1 = y;
                            }
                            if z < b.lo.2 {
                                b.lo.2 = z;
                            }
                            if x >= b.hi.0 {
                                b.hi.0 = x + 1;
                            }
                            if y >= b.hi.1 {
                                b.hi.1 = y + 1;
                            }
                            if z >= b.hi.2 {
                                b.hi.2 = z + 1;
                            }
                        }
                    }
                    z += 1;
                }
                y += 1;
            }
            x += 1;
        }
        if found {
            proof {
                lemma_lo_unique(self@, 0, b.lo.0 as int);
                lemma_lo_unique(self@, 1, b.lo.1 as int);
                lemma_lo_unique(self@, 2, b.lo.2 as int);
                lemma_hi_unique(self@, 0, b.hi.0 as int);
                lemma_hi_unique(self@, 1, b.hi.1 as int);
                lemma_hi_unique(self@, 2, b.hi.2 as int);
                assert(self@.filled(b.lo.0 as int, 0, 0) || !self@.vacant()) by {
                    let (i, j, k) = choose|i: int, j: int, k: int| #[trigger]
                        self@.filled(i, j, k) && pick(0, i, j, k) == b.lo.0;
                    assert(self@.filled(i, j, k));
                }
            }
            Some(b)
        } else {
            None
        }
    }

    /// Cuts the block down to the bounding box of its occupied cells.
    pub fn crop(&self) -> (out: Block)
        requires
            self.wf(),
        ensures
            out@ == self@.crop(),
            out@.trimmed(),
            out.wf(),
    {
        proof {
            lemma_crop_trimmed(self@);
        }
        match self.bounds() {
            None => {
                let out = Block { nx: 0, ny: 0, nz: 0, cells: Vec::new() };
                assert(out@.cells =~= Seq::<u8>::empty());
                assert(span(0, 0, 0) == 1) by (nonlinear_arith)
                    requires
                        span(0, 0, 0) == 1 * 1 * 1,
                ;
                out
            },
            Some(b) => {
                proof {
                    lemma_span_bounds(self.nx as nat, self.ny as nat, self.nz as nat);
                    lemma_bounds(self@, 0);
                    lemma_bounds(self@, 1);
                    lemma_bounds(self@, 2);
                    lemma_span_monotonic(
                        (b.hi.0 - b.lo.0) as nat,
                        (b.hi.1 - b.lo.1) as nat,
                        (b.hi.2 - b.lo.2) as nat,
                        self.nx as nat,
                        self.ny as nat,
                        self.nz as nat,
                    );
                }
                let m = Remap {
                    x: AxisMap { from: 0, flip: false, shift: b.lo.0 as isize },
                    y: AxisMap { from: 1, flip: false, shift: b.lo.1 as isize },
                    z: AxisMap { from: 2, flip: false, shift: b.lo.2 as isize },
                };
                let out = self.resample(b.hi.0 - b.lo.0, b.hi.1 - b.lo.1, b.hi.2 - b.lo.2, &m);
                proof {
                    lemma_resample(
                        self@,
                        (b.hi.0 - b.lo.0) as nat,
                        (b.hi.1 - b.lo.1) as nat,
                        (b.hi.2 - b.lo.2) as nat,
                        m,
                    );
                    lemma_crop_cells(self@);
                    lemma_grid_ext(out@, self@.crop());
                }
                out
            },
        }
    }
}

/// Returns the polycube cut down to the bounding box of its cells of value
/// `1`: every slab without such a cell is stripped from each of the six
/// faces. An array without any such cell is cut down to the array without cells.
pub fn crop_cube(cube: &Polycube) -> (out: Polycube)
    ensures
        out@ == cube@.crop(),
        out@.trimmed(),
{
    Block::read(cube).crop().write()
}

} // verus!
