//! The 24 rotations of the cube, applied to grids.
use crate::array::Polycube;
use crate::crop::{lemma_bounds, lemma_crop_cells, lemma_hi_unique, lemma_lo_unique};
use crate::block::Block;
use crate::grid::{lemma_grid_ext, lemma_span_bounds, lemma_tabulate, pick, span, Grid};
use crate::remap::{lemma_resample, AxisMap, Remap};
use vstd::prelude::*;

verus! {

/// A symmetry of the lattice that sends axes to axes. It is written down from
/// the side of the grid that is turned: the coordinate of a source cell along
/// its first, second and third axis is read from the target position along
/// the axis `axes.0`, `axes.1` and `axes.2`, and is counted from the far end
/// of the source axis where the flag in `flip` is set.
#[derive(Clone, Copy, Debug)]
pub struct Turn {
    pub axes: (u8, u8, u8),
    pub flip: (bool, bool, bool),
}

impl Turn {
    /// Whether `axes` names each of the three axes once.
    pub open spec fn valid(self) -> bool {
        ||| self.axes == (0u8, 1u8, 2u8)
        ||| self.axes == (0u8, 2u8, 1u8)
        ||| self.axes == (1u8, 0u8, 2u8)
        ||| self.axes == (1u8, 2u8, 0u8)
        ||| self.axes == (2u8, 0u8, 1u8)
        ||| self.axes == (2u8, 1u8, 0u8)
    }

    /// Whether the permutation of the axes is odd.
    pub open spec fn odd(self) -> bool {
        ||| self.axes == (0u8, 2u8, 1u8)
        ||| self.axes == (1u8, 0u8, 2u8)
        ||| self.axes == (2u8, 1u8, 0u8)
    }

    /// Whether the symmetry is a rotation: it keeps orientation, which is to
    /// say that it reverses an odd number of axes exactly when it permutes
    /// the axes oddly.
    pub open spec fn proper(self) -> bool {
        self.valid() && (self.odd() == ((self.flip.0 != self.flip.1) != self.flip.2))
    }

    /// The source axis that is read from the target axis `k`.
    pub open spec fn origin(self, k: int) -> int {
        if self.axes.0 == k {
            0
        } else if self.axes.1 == k {
            1
        } else {
            2
        }
    }

    /// Whether the source axis `j` is reversed.
    pub open spec fn flipped(self, j: int) -> bool {
        if j == 0 {
            self.flip.0
        } else if j == 1 {
            self.flip.1
        } else {
            self.flip.2
        }
    }

    /// The coordinate of the source cell along an axis of length `n` that is
    /// read from the target coordinate `o`.
    pub open spec fn coordinate(flip: bool, n: nat, o: int) -> int {
        if flip {
            n - 1 - o
        } else {
            o
        }
    }

    /// The position in `g` of the cell that lands on the target position `(x, y, z)`.
    pub open spec fn source(self, g: Grid, x: int, y: int, z: int) -> (int, int, int) {
        (
            Self::coordinate(self.flip.0, g.nx, pick(self.axes.0 as int, x, y, z)),
            Self::coordinate(self.flip.1, g.ny, pick(self.axes.1 as int, x, y, z)),
            Self::coordinate(self.flip.2, g.nz, pick(self.axes.2 as int, x, y, z)),
        )
    }

    /// The target position on which the cell `(x, y, z)` of `g` lands.
    pub open spec fn target(self, g: Grid, x: int, y: int, z: int) -> (int, int, int) {
        let a = Self::coordinate(self.flip.0, g.nx, x);
        let b = Self::coordinate(self.flip.1, g.ny, y);
        let c = Self::coordinate(self.flip.2, g.nz, z);
        (
            pick(self.origin(0), a, b, c),
            pick(self.origin(1), a, b, c),
            pick(self.origin(2), a, b, c),
        )
    }

    /// The symmetry that undoes this one.
    pub open spec fn inverse(self) -> Turn {
        Turn {
            axes: (self.origin(0) as u8, self.origin(1) as u8, self.origin(2) as u8),
            flip: (
                self.flipped(self.origin(0)),
                self.flipped(self.origin(1)),
                self.flipped(self.origin(2)),
            ),
        }
    }

    /// The rotation that leaves every grid as it is.
    pub open spec fn identity() -> Turn {
        Turn { axes: (0, 1, 2), flip: (false, false, false) }
    }

    /// The target axis from which the source axis `j` is read.
    pub open spec fn axis(self, j: int) -> u8 {
        if j == 0 {
            self.axes.0
        } else if j == 1 {
            self.axes.1
        } else {
            self.axes.2
        }
    }

    /// The symmetry that turns by this one first and by `t` after it.
    pub open spec fn followed_by(self, t: Turn) -> Turn {
        Turn {
            axes: (
                t.axis(self.axes.0 as int),
                t.axis(self.axes.1 as int),
                t.axis(self.axes.2 as int),
            ),
            flip: (
                self.flip.0 != t.flipped(self.axes.0 as int),
                self.flip.1 != t.flipped(self.axes.1 as int),
                self.flip.2 != t.flipped(self.axes.2 as int),
            ),
        }
    }
}

/// The `r`-th of the 24 rotations of the cube: the six permutations of the
/// axes in dictionary order, each with the four choices of reversed axes that
/// keep orientation.
pub open spec fn rotation(r: int) -> Turn {
    let p = r / 4;
    let a = (r % 4) / 2 == 1;
    let b = r % 2 == 1;
    let axes = if p == 0 {
        (0u8, 1u8, 2u8)
    } else if p == 1 {
        (0u8, 2u8, 1u8)
    } else if p == 2 {
        (1u8, 0u8, 2u8)
    } else if p == 3 {
        (1u8, 2u8, 0u8)
    } else if p == 4 {
        (2u8, 0u8, 1u8)
    } else {
        (2u8, 1u8, 0u8)
    };
    let odd = p == 1 || p == 2 || p == 5;
    Turn { axes, flip: (a, b, (a != b) != odd) }
}

impl Grid {
    /// The grid turned by `t`: the target axis `k` has the length of the
    /// source axis it is read from, and each target cell holds the value of
    /// its source cell.
    pub open spec fn turned(self, t: Turn) -> Grid {
        Grid::tabulate(
            self.extent(t.origin(0)),
            self.extent(t.origin(1)),
            self.extent(t.origin(2)),
            |x: int, y: int, z: int|
                {
                    let s = t.source(self, x, y, z);
                    self.at(s.0, s.1, s.2)
                },
        )
    }
}

/// Each of the 24 rotations keeps orientation, and no two of them are the same.
pub proof fn lemma_rotations_proper()
    ensures
        forall|r: int| 0 <= r < 24 ==> (#[trigger] rotation(r)).proper(),
        forall|r: int, s: int| 0 <= r < s < 24 ==> rotation(r) != rotation(s),
        rotation(0) == Turn::identity(),
{
}

/// The number of the rotation `t` among the 24.
pub open spec fn rotation_index(t: Turn) -> int {
    let p: int = if t.axes == (0u8, 1u8, 2u8) {
        0
    } else if t.axes == (0u8, 2u8, 1u8) {
        1
    } else if t.axes == (1u8, 0u8, 2u8) {
        2
    } else if t.axes == (1u8, 2u8, 0u8) {
        3
    } else if t.axes == (2u8, 0u8, 1u8) {
        4
    } else {
        5
    };
    4 * p + (if t.flip.0 {
        2int
    } else {
        0int
    }) + (if t.flip.1 {
        1int
    } else {
        0int
    })
}

/// The 24 rotations are all there are: every symmetry that keeps orientation
/// is one of them.
pub proof fn lemma_rotations_complete(t: Turn)
    requires
        t.proper(),
    ensures
        0 <= rotation_index(t) < 24,
        rotation(rotation_index(t)) == t,
{
}

/// The inverse of a rotation is a rotation, and undoing it gives the rotation back.
pub proof fn lemma_inverse_proper(t: Turn)
    requires
        t.proper(),
    ensures
        t.inverse().proper(),
        t.inverse().inverse() == t,
{
}

/// What turning does: the turned grid is well formed, its axis lengths are
/// those of the source permuted, and target and source positions correspond
/// one to one, each target cell holding the value of its source cell.
pub proof fn lemma_turned(g: Grid, t: Turn)
    requires
        g.wf(),
        t.valid(),
    ensures
        g.turned(t).wf(),
        forall|k: int| 0 <= k < 3 ==> #[trigger] g.turned(t).extent(k) == g.extent(t.origin(k)),
        forall|x: int, y: int, z: int| #[trigger]
            g.turned(t).inside(x, y, z) ==> ({
                let s = t.source(g, x, y, z);
                g.inside(s.0, s.1, s.2) && g.turned(t).at(x, y, z) == g.at(s.0, s.1, s.2)
                    && t.target(g, s.0, s.1, s.2) == (x, y, z)
            }),
        forall|x: int, y: int, z: int| #[trigger]
            g.inside(x, y, z) ==> ({
                let o = t.target(g, x, y, z);
                g.turned(t).inside(o.0, o.1, o.2) && t.source(g, o.0, o.1, o.2) == (x, y, z)
            }),
{
    lemma_tabulate(
        g.extent(t.origin(0)),
        g.extent(t.origin(1)),
        g.extent(t.origin(2)),
        |x: int, y: int, z: int|
            {
                let s = t.source(g, x, y, z);
                g.at(s.0, s.1, s.2)
            },
    );
}

/// Turning by a rotation and then by its inverse gives the grid back.
pub proof fn lemma_turn_back(g: Grid, t: Turn)
    requires
        g.wf(),
        t.valid(),
    ensures
        g.turned(t).turned(t.inverse()) == g,
{
    let h = g.turned(t);
    let u = t.inverse();
    lemma_turned(g, t);
    lemma_turned(h, u);
    let back = h.turned(u);
    assert(h.extent(0) == g.extent(t.origin(0)));
    assert(h.extent(1) == g.extent(t.origin(1)));
    assert(h.extent(2) == g.extent(t.origin(2)));
    assert(back.extent(0) == h.extent(u.origin(0)));
    assert(back.extent(1) == h.extent(u.origin(1)));
    assert(back.extent(2) == h.extent(u.origin(2)));
    assert forall|x: int, y: int, z: int| back.inside(x, y, z) implies #[trigger] back.at(x, y, z)
        == g.at(x, y, z) by {
        let s = u.source(h, x, y, z);
        assert(h.inside(s.0, s.1, s.2));
        assert(t.source(g, s.0, s.1, s.2) == (x, y, z));
    }
    lemma_grid_ext(back, g);
}

/// One rotation after another is a rotation.
pub proof fn lemma_followed_by_proper(s: Turn, t: Turn)
    requires
        s.proper(),
        t.proper(),
    ensures
        s.followed_by(t).proper(),
{
}

/// Turning twice is turning once by the two symmetries in a row.
pub proof fn lemma_turned_twice(g: Grid, s: Turn, t: Turn)
    requires
        g.wf(),
        s.valid(),
        t.valid(),
    ensures
        g.turned(s).turned(t) == g.turned(s.followed_by(t)),
{
    let h = g.turned(s);
    let u = s.followed_by(t);
    let left = h.turned(t);
    let right = g.turned(u);
    assert(u.valid());
    lemma_turned(g, s);
    lemma_turned(h, t);
    lemma_turned(g, u);
    assert(h.extent(0) == g.extent(s.origin(0)));
    assert(h.extent(1) == g.extent(s.origin(1)));
    assert(h.extent(2) == g.extent(s.origin(2)));
    assert(left.extent(0) == h.extent(t.origin(0)));
    assert(left.extent(1) == h.extent(t.origin(1)));
    assert(left.extent(2) == h.extent(t.origin(2)));
    assert(right.extent(0) == g.extent(u.origin(0)));
    assert(right.extent(1) == g.extent(u.origin(1)));
    assert(right.extent(2) == g.extent(u.origin(2)));
    assert(left.nx == right.nx && left.ny == right.ny && left.nz == right.nz);
    assert forall|x: int, y: int, z: int| left.inside(x, y, z) implies #[trigger] left.at(x, y, z)
        == right.at(x, y, z) by {
        assert(right.inside(x, y, z));
        let p = t.source(h, x, y, z);
        assert(h.inside(p.0, p.1, p.2));
        assert(s.source(g, p.0, p.1, p.2) == u.source(g, x, y, z));
    }
    lemma_grid_ext(left, right);
}

/// Turning by the identity changes nothing.
pub proof fn lemma_turn_identity(g: Grid)
    requires
        g.wf(),
    ensures
        g.turned(Turn::identity()) == g,
{
    lemma_turned(g, Turn::identity());
    lemma_grid_ext(g.turned(Turn::identity()), g);
}

/// Turning moves occupied cells to occupied cells, there and back.
pub proof fn lemma_turned_filled(g: Grid, t: Turn)
    requires
        g.wf(),
        t.valid(),
    ensures
        forall|x: int, y: int, z: int| #[trigger]
            g.turned(t).filled(x, y, z) ==> ({
                let s = t.source(g, x, y, z);
                g.filled(s.0, s.1, s.2)
            }),
        forall|x: int, y: int, z: int| #[trigger]
            g.filled(x, y, z) ==> ({
                let o = t.target(g, x, y, z);
                g.turned(t).filled(o.0, o.1, o.2)
            }),
        g.turned(t).vacant() == g.vacant(),
{
    let h = g.turned(t);
    lemma_turned(g, t);
    assert forall|x: int, y: int, z: int| #[trigger] h.filled(x, y, z) implies ({
        let s = t.source(g, x, y, z);
        g.filled(s.0, s.1, s.2)
    }) by {
        assert(h.inside(x, y, z));
    }
    assert forall|x: int, y: int, z: int| #[trigger] g.filled(x, y, z) implies ({
        let o = t.target(g, x, y, z);
        h.filled(o.0, o.1, o.2)
    }) by {
        assert(g.inside(x, y, z));
        let o = t.target(g, x, y, z);
        assert(h.inside(o.0, o.1, o.2));
    }
    if !g.vacant() {
        let (x, y, z) = choose|x: int, y: int, z: int| g.filled(x, y, z);
        assert(g.filled(x, y, z));
    }
    if !h.vacant() {
        let (x, y, z) = choose|x: int, y: int, z: int| h.filled(x, y, z);
        assert(h.filled(x, y, z));
    }
}

/// The bounds of a turned grid along a target axis are the bounds of the
/// source along the axis it is read from, counted from the far end where that
/// axis is reversed.
pub proof fn lemma_turned_bounds(g: Grid, t: Turn, k: int)
    requires
        g.wf(),
        t.valid(),
        0 <= k < 3,
        !g.vacant(),
    ensures
        ({
            let j = t.origin(k);
            let h = g.turned(t);
            if t.flipped(j) {
                h.lo(k) == g.extent(j) - g.hi(j) && h.hi(k) == g.extent(j) - g.lo(j)
            } else {
                h.lo(k) == g.lo(j) && h.hi(k) == g.hi(j)
            }
        }),
{
    let j = t.origin(k);
    let h = g.turned(t);
    let n = g.extent(j) as int;
    lemma_turned(g, t);
    lemma_turned_filled(g, t);
    lemma_bounds(g, j);
    let low = if t.flipped(j) { n - g.hi(j) } else { g.lo(j) as int };
    let high = if t.flipped(j) { n - g.lo(j) } else { g.hi(j) as int };
    let (x, y, z) = choose|x: int, y: int, z: int| #[trigger]
        g.filled(x, y, z) && pick(j, x, y, z) == g.lo(j);
    let (a, b, c) = choose|a: int, b: int, c: int| #[trigger]
        g.filled(a, b, c) && pick(j, a, b, c) == g.hi(j) - 1;
    let first = t.target(g, x, y, z);
    let last = t.target(g, a, b, c);
    assert(g.filled(x, y, z));
    assert(g.filled(a, b, c));
    assert(h.filled(first.0, first.1, first.2));
    assert(h.filled(last.0, last.1, last.2));
    assert(pick(k, first.0, first.1, first.2) == Turn::coordinate(t.flipped(j), g.extent(j), g.lo(j) as int));
    assert(pick(k, last.0, last.1, last.2) == Turn::coordinate(t.flipped(j), g.extent(j), g.hi(j) - 1));
    if t.flipped(j) {
        assert(h.slab_filled(k, low)) by {
            assert(h.filled(last.0, last.1, last.2) && pick(k, last.0, last.1, last.2) == low);
        }
        assert(h.slab_filled(k, high - 1)) by {
            assert(h.filled(first.0, first.1, first.2) && pick(k, first.0, first.1, first.2) == high - 1);
        }
    } else {
        assert(h.slab_filled(k, low)) by {
            assert(h.filled(first.0, first.1, first.2) && pick(k, first.0, first.1, first.2) == low);
        }
        assert(h.slab_filled(k, high - 1)) by {
            assert(h.filled(last.0, last.1, last.2) && pick(k, last.0, last.1, last.2) == high - 1);
        }
    }
    assert forall|u: int, v: int, w: int| #[trigger] h.filled(u, v, w) implies low <= pick(
        k,
        u,
        v,
        w,
    ) < high by {
        let s = t.source(g, u, v, w);
        assert(g.filled(s.0, s.1, s.2));
        assert(pick(j, s.0, s.1, s.2) == Turn::coordinate(t.flipped(j), g.extent(j), pick(k, u, v, w)));
    }
    lemma_lo_unique(h, k, low);
    lemma_hi_unique(h, k, high);
}

/// The value of one cell of a turned grid.
pub proof fn lemma_turned_at(g: Grid, t: Turn, x: int, y: int, z: int)
    requires
        g.wf(),
        t.valid(),
        g.turned(t).inside(x, y, z),
    ensures
        ({
            let s = t.source(g, x, y, z);
            g.inside(s.0, s.1, s.2) && g.turned(t).at(x, y, z) == g.at(s.0, s.1, s.2)
        }),
{
    lemma_turned(g, t);
}

/// The value of one cell of a cropped grid.
pub proof fn lemma_crop_at(g: Grid, x: int, y: int, z: int)
    requires
        g.wf(),
        g.crop().inside(x, y, z),
    ensures
        g.crop().at(x, y, z) == g.at(x + g.lo(0), y + g.lo(1), z + g.lo(2)),
{
    lemma_crop_cells(g);
}

/// Reading a source coordinate commutes with cutting a window out of the
/// source: within a window of widths `w` that starts at `lo` in a source of
/// lengths `n`, the source coordinate read in the window and moved by `lo` is
/// the source coordinate read in the whole, from the target position moved by
/// the start `hlo` of the turned window.
proof fn lemma_shift(
    t: Turn,
    n: (nat, nat, nat),
    lo: (int, int, int),
    w: (nat, nat, nat),
    hlo: (int, int, int),
    x: int,
    y: int,
    z: int,
)
    requires
        t.valid(),
        hlo.0 == (if t.flipped(t.origin(0)) {
            pick(t.origin(0), n.0 as int, n.1 as int, n.2 as int) - pick(
                t.origin(0),
                lo.0 + w.0,
                lo.1 + w.1,
                lo.2 + w.2,
            )
        } else {
            pick(t.origin(0), lo.0, lo.1, lo.2)
        }),
        hlo.1 == (if t.flipped(t.origin(1)) {
            pick(t.origin(1), n.0 as int, n.1 as int, n.2 as int) - pick(
                t.origin(1),
                lo.0 + w.0,
                lo.1 + w.1,
                lo.2 + w.2,
            )
        } else {
            pick(t.origin(1), lo.0, lo.1, lo.2)
        }),
        hlo.2 == (if t.flipped(t.origin(2)) {
            pick(t.origin(2), n.0 as int, n.1 as int, n.2 as int) - pick(
                t.origin(2),
                lo.0 + w.0,
                lo.1 + w.1,
                lo.2 + w.2,
            )
        } else {
            pick(t.origin(2), lo.0, lo.1, lo.2)
        }),
    ensures
        Turn::coordinate(t.flip.0, n.0, pick(t.axes.0 as int, x + hlo.0, y + hlo.1, z + hlo.2))
            == Turn::coordinate(t.flip.0, w.0, pick(t.axes.0 as int, x, y, z)) + lo.0,
        Turn::coordinate(t.flip.1, n.1, pick(t.axes.1 as int, x + hlo.0, y + hlo.1, z + hlo.2))
            == Turn::coordinate(t.flip.1, w.1, pick(t.axes.1 as int, x, y, z)) + lo.1,
        Turn::coordinate(t.flip.2, n.2, pick(t.axes.2 as int, x + hlo.0, y + hlo.1, z + hlo.2))
            == Turn::coordinate(t.flip.2, w.2, pick(t.axes.2 as int, x, y, z)) + lo.2,
{
}

/// The bounds of a turned grid, for the three target axes at once.
proof fn lemma_turned_low(g: Grid, t: Turn)
    requires
        g.wf(),
        t.valid(),
        !g.vacant(),
    ensures
        ({
            let h = g.turned(t);
            let n = (g.nx as int, g.ny as int, g.nz as int);
            let top = (g.hi(0) as int, g.hi(1) as int, g.hi(2) as int);
            let low = (g.lo(0) as int, g.lo(1) as int, g.lo(2) as int);
            &&& forall|k: int|
                0 <= k < 3 ==> #[trigger] h.lo(k) == (if t.flipped(t.origin(k)) {
                    pick(t.origin(k), n.0, n.1, n.2) - pick(t.origin(k), top.0, top.1, top.2)
                } else {
                    pick(t.origin(k), low.0, low.1, low.2)
                })
            &&& forall|k: int|
                0 <= k < 3 ==> #[trigger] h.hi(k) - h.lo(k) == pick(
                    t.origin(k),
                    top.0 - low.0,
                    top.1 - low.1,
                    top.2 - low.2,
                )
        }),
{
    lemma_turned_bounds(g, t, 0);
    lemma_turned_bounds(g, t, 1);
    lemma_turned_bounds(g, t, 2);
}

/// Cropping after turning and turning after cropping give grids of the same
/// axis lengths.
proof fn lemma_crop_turned_shape(g: Grid, t: Turn)
    requires
        g.wf(),
        t.valid(),
        !g.vacant(),
    ensures
        ({
            let h = g.turned(t);
            let c = g.crop();
            let left = h.crop();
            let right = c.turned(t);
            &&& h.wf() && c.wf() && left.wf() && right.wf()
            &&& left.nx == right.nx && left.ny == right.ny && left.nz == right.nz
            &&& c.nx == g.hi(0) - g.lo(0) && c.ny == g.hi(1) - g.lo(1) && c.nz == g.hi(2) - g.lo(2)
        }),
{
    let h = g.turned(t);
    let c = g.crop();
    let left = h.crop();
    let right = c.turned(t);
    assert(h.wf() && c.wf() && left.wf() && right.wf() && !h.vacant()) by {
        lemma_turned(g, t);
        lemma_turned_filled(g, t);
        lemma_crop_cells(g);
        lemma_crop_cells(h);
        lemma_turned(c, t);
    }
    assert(right.nx == c.extent(t.origin(0)) && right.ny == c.extent(t.origin(1)) && right.nz
        == c.extent(t.origin(2)));
    assert(c.nx == g.hi(0) - g.lo(0) && c.ny == g.hi(1) - g.lo(1) && c.nz == g.hi(2) - g.lo(2))
        by {
        lemma_bounds(g, 0);
        lemma_bounds(g, 1);
        lemma_bounds(g, 2);
    }
    assert(left.nx == h.hi(0) - h.lo(0) && left.ny == h.hi(1) - h.lo(1) && left.nz == h.hi(2)
        - h.lo(2)) by {
        lemma_bounds(h, 0);
        lemma_bounds(h, 1);
        lemma_bounds(h, 2);
    }
    assert(left.nx == right.nx && left.ny == right.ny && left.nz == right.nz) by {
        lemma_turned_low(g, t);
        assert(h.hi(0) - h.lo(0) == pick(t.origin(0), c.nx as int, c.ny as int, c.nz as int));
        assert(h.hi(1) - h.lo(1) == pick(t.origin(1), c.nx as int, c.ny as int, c.nz as int));
        assert(h.hi(2) - h.lo(2) == pick(t.origin(2), c.nx as int, c.ny as int, c.nz as int));
    }
}

/// Cropping after turning and turning after cropping give the same cell at
/// each position.
proof fn lemma_crop_turned_cell(g: Grid, t: Turn, x: int, y: int, z: int)
    requires
        g.wf(),
        t.valid(),
        !g.vacant(),
        g.turned(t).crop().inside(x, y, z),
    ensures
        g.turned(t).crop().at(x, y, z) == g.crop().turned(t).at(x, y, z),
{
    let h = g.turned(t);
    let c = g.crop();
    let left = h.crop();
    let right = c.turned(t);
    lemma_crop_turned_shape(g, t);
    lemma_turned_low(g, t);
    let hl = (h.lo(0) as int, h.lo(1) as int, h.lo(2) as int);
    let o = (x + hl.0, y + hl.1, z + hl.2);
    assert(h.inside(o.0, o.1, o.2)) by {
        lemma_bounds(h, 0);
        lemma_bounds(h, 1);
        lemma_bounds(h, 2);
    }
    assert(right.inside(x, y, z));
    lemma_crop_at(h, x, y, z);
    lemma_turned_at(g, t, o.0, o.1, o.2);
    lemma_turned_at(c, t, x, y, z);
    let s = t.source(c, x, y, z);
    lemma_crop_at(g, s.0, s.1, s.2);
    lemma_shift(
        t,
        (g.nx, g.ny, g.nz),
        (g.lo(0) as int, g.lo(1) as int, g.lo(2) as int),
        (c.nx, c.ny, c.nz),
        hl,
        x,
        y,
        z,
    );
    let q = t.source(g, o.0, o.1, o.2);
    assert(q == (s.0 + g.lo(0), s.1 + g.lo(1), s.2 + g.lo(2)));
}

/// Cropping and turning can be done in either order.
pub proof fn lemma_crop_turned(g: Grid, t: Turn)
    requires
        g.wf(),
        t.valid(),
    ensures
        g.turned(t).crop() == g.crop().turned(t),
{
    let left = g.turned(t).crop();
    let right = g.crop().turned(t);
    if g.vacant() {
        lemma_turned(g, t);
        lemma_turned_filled(g, t);
        lemma_crop_cells(g);
        lemma_turned(g.crop(), t);
        assert(right.nx == g.crop().extent(t.origin(0)) && right.ny == g.crop().extent(
            t.origin(1),
        ) && right.nz == g.crop().extent(t.origin(2)));
        assert(right.cells.len() == 0) by (nonlinear_arith)
            requires
                right.cells.len() == right.nx * right.ny * right.nz,
                right.nx == 0,
        ;
        assert(left.cells =~= right.cells);
    } else {
        lemma_crop_turned_shape(g, t);
        assert forall|x: int, y: int, z: int| left.inside(x, y, z) implies #[trigger] left.at(
            x,
            y,
            z,
        ) == right.at(x, y, z) by {
            lemma_crop_turned_cell(g, t, x, y, z);
        }
        lemma_grid_ext(left, right);
    }
}

/// Permuting axis lengths keeps the product of the non-zero ones.
pub proof fn lemma_span_turned(g: Grid, t: Turn)
    requires
        t.valid(),
    ensures
        span(g.extent(t.origin(0)), g.extent(t.origin(1)), g.extent(t.origin(2))) == span(
            g.nx,
            g.ny,
            g.nz,
        ),
{
    let a: nat = if g.nx == 0 { 1 } else { g.nx };
    let b: nat = if g.ny == 0 { 1 } else { g.ny };
    let c: nat = if g.nz == 0 { 1 } else { g.nz };
    assert(a * b * c == a * c * b && a * b * c == b * a * c && a * b * c == b * c * a && a * b * c
        == c * a * b && a * b * c == c * b * a) by (nonlinear_arith);
}

impl Turn {
    /// The `r`-th of the 24 rotations.
    pub fn nth(r: usize) -> (t: Turn)
        requires
            r < 24,
        ensures
            t == rotation(r as int),
    {
        let p: usize = r / 4;
        let a: bool = (r % 4) / 2 == 1;
        let b: bool = r % 2 == 1;
        let axes: (u8, u8, u8) = if p == 0 {
            (0, 1, 2)
        } else if p == 1 {
            (0, 2, 1)
        } else if p == 2 {
            (1, 0, 2)
        } else if p == 3 {
            (1, 2, 0)
        } else if p == 4 {
            (2, 0, 1)
        } else {
            (2, 1, 0)
        };
        let odd: bool = p == 1 || p == 2 || p == 5;
        Turn { axes, flip: (a, b, (a != b) != odd) }
    }

    /// The source axis that is read from the target axis `k`.
    pub fn origin_of(&self, k: u8) -> (j: u8)
        ensures
            j == self.origin(k as int),
    {
        if self.axes.0 == k {
            0
        } else if self.axes.1 == k {
            1
        } else {
            2
        }
    }
}

impl Block {
    /// The length of the block along `axis`.
    pub fn extent(&self, axis: u8) -> (n: usize)
        ensures
            n == self@.extent(axis as int),
    {
        if axis == 0 {
            self.nx
        } else if axis == 1 {
            self.ny
        } else {
            self.nz
        }
    }

    /// Turns the block by `t`.
    pub fn turn(&self, t: &Turn) -> (out: Block)
        requires
            self.wf(),
            t.valid(),
        ensures
            out@ == self@.turned(*t),
            out.wf(),
    {
        proof {
            lemma_span_bounds(self.nx as nat, self.ny as nat, self.nz as nat);
            lemma_span_turned(self@, *t);
        }
        let nx = self.extent(t.origin_of(0));
        let ny = self.extent(t.origin_of(1));
        let nz = self.extent(t.origin_of(2));
        let m = Remap {
            x: AxisMap {
                from: t.axes.0,
                flip: t.flip.0,
                shift: if t.flip.0 {
                    self.nx as isize - 1
                } else {
                    0
                },
            },
            y: AxisMap {
                from: t.axes.1,
                flip: t.flip.1,
                shift: if t.flip.1 {
                    self.ny as isize - 1
                } else {
                    0
                },
            },
            z: AxisMap {
                from: t.axes.2,
                flip: t.flip.2,
                shift: if t.flip.2 {
                    self.nz as isize - 1
                } else {
                    0
                },
            },
        };
        let out = self.resample(nx, ny, nz, &m);
        proof {
            lemma_resample(self@, nx as nat, ny as nat, nz as nat, m);
            lemma_turned(self@, *t);
            let goal = self@.turned(*t);
            assert(goal.extent(0) == nx && goal.extent(1) == ny && goal.extent(2) == nz);
            assert forall|x: int, y: int, z: int| out@.inside(x, y, z) implies #[trigger] out@.at(
                x,
                y,
                z,
            ) == goal.at(x, y, z) by {
                assert(goal.inside(x, y, z));
                assert(m.source(x, y, z) == t.source(self@, x, y, z));
            }
            lemma_grid_ext(out@, goal);
        }
        out
    }
}

/// Returns the 24 images of the polycube under the rotations of the cube, in
/// the order of [`rotation`]. Images of a shape with symmetries repeat; none
/// is cropped.
pub fn all_rotations(polycube: &Polycube) -> (out: Vec<Polycube>)
    ensures
        out@.len() == 24,
        forall|r: int| 0 <= r < 24 ==> (#[trigger] out@[r])@ == polycube@.turned(rotation(r)),
{
    let b = Block::read(polycube);
    let mut out: Vec<Polycube> = Vec::new();
    let mut r: usize = 0;
    while r < 24
        invariant
            b.wf(),
            b@ == polycube@,
            r <= 24,
            out@.len() == r,
            forall|i: int| 0 <= i < r ==> (#[trigger] out@[i])@ == polycube@.turned(rotation(i)),
        decreases 24 - r,
    {
        let t = Turn::nth(r);
        proof {
            lemma_rotations_proper();
        }
        out.push(b.turn(&t).write());
        r += 1;
    }
    out
}

} // verus!
