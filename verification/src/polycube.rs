//! What makes a grid a polycube: cubes that hang together.
use crate::crop::{lemma_bounds, lemma_crop_cells};
use crate::expand::lemma_padded;
use crate::grid::{
    coords, lemma_coords_of_offset, lemma_offset_bounds, lemma_offset_of_coords, lemma_tabulate,
    offset, pick, Grid,
};
use vstd::prelude::*;
use vstd::relations::injective_on;
use vstd::set_lib::{lemma_int_range, lemma_map_size, lemma_set_subset_finite, set_int_range};

verus! {

/// Whether two positions are those of cubes that share a face.
pub open spec fn adjacent(a: (int, int, int), b: (int, int, int)) -> bool {
    ||| a.1 == b.1 && a.2 == b.2 && (a.0 == b.0 + 1 || b.0 == a.0 + 1)
    ||| a.0 == b.0 && a.2 == b.2 && (a.1 == b.1 + 1 || b.1 == a.1 + 1)
    ||| a.0 == b.0 && a.1 == b.1 && (a.2 == b.2 + 1 || b.2 == a.2 + 1)
}

/// The position `p` moved back by `d`.
pub open spec fn moved(p: (int, int, int), d: (int, int, int)) -> (int, int, int) {
    (p.0 - d.0, p.1 - d.1, p.2 - d.2)
}

impl Grid {
    /// Whether `p` is the position of an occupied cell.
    pub open spec fn has(self, p: (int, int, int)) -> bool {
        self.filled(p.0, p.1, p.2)
    }

    /// The positions of the occupied cells.
    pub open spec fn cubes(self) -> Set<(int, int, int)> {
        Set::new(|p: (int, int, int)| self.has(p))
    }

    /// The number of occupied cells.
    pub open spec fn count(self) -> nat {
        self.cubes().len()
    }

    /// Whether `path` goes from occupied cell to occupied cell, each step
    /// through a shared face.
    pub open spec fn walk(self, path: Seq<(int, int, int)>) -> bool {
        &&& path.len() > 0
        &&& forall|i: int| 0 <= i < path.len() ==> self.has(#[trigger] path[i])
        &&& forall|i: int| 0 <= i < path.len() - 1 ==> adjacent(#[trigger] path[i], path[i + 1])
    }

    /// Whether a walk leads from `a` to `b`.
    pub open spec fn linked(self, a: (int, int, int), b: (int, int, int)) -> bool {
        exists|path: Seq<(int, int, int)>| #[trigger]
            self.walk(path) && path[0] == a && path.last() == b
    }

    /// Whether the occupied cells hang together: a walk leads from each of
    /// them to each other.
    pub open spec fn connected(self) -> bool {
        forall|a: (int, int, int), b: (int, int, int)|
            self.has(a) && self.has(b) ==> #[trigger] self.linked(a, b)
    }

    /// Whether the grid holds a polycube of `n` cubes: it is the bounding box
    /// of `n` cells of value `1` that hang together, and its other cells are `0`.
    pub open spec fn polycube(self, n: nat) -> bool {
        &&& self.trimmed()
        &&& self.binary()
        &&& self.connected()
        &&& self.cubes().finite()
        &&& self.count() == n
    }

    /// Whether the occupied cells of `h` are those of this grid, each moved
    /// back by `d`.
    pub open spec fn moved_to(self, h: Grid, d: (int, int, int)) -> bool {
        forall|p: (int, int, int)| #[trigger] h.has(p) <==> self.has((p.0 + d.0, p.1 + d.1, p.2 + d.2))
    }
}

/// A grid has finitely many occupied cells.
pub proof fn lemma_cubes_finite(g: Grid)
    requires
        g.wf(),
    ensures
        g.cubes().finite(),
{
    let indices = set_int_range(0, g.size() as int);
    let place = |i: int| coords(g.ny, g.nz, i);
    lemma_int_range(0, g.size() as int);
    indices.lemma_map_finite(place);
    assert forall|p: (int, int, int)| g.cubes().contains(p) implies indices.map(place).contains(
        p,
    ) by {
        lemma_offset_bounds(g.nx, g.ny, g.nz, p.0, p.1, p.2);
        lemma_coords_of_offset(g.nx, g.ny, g.nz, p.0, p.1, p.2);
        let i = offset(g.ny, g.nz, p.0, p.1, p.2);
        assert(indices.contains(i) && p == place(i));
    }
    assert(g.cubes().subset_of(indices.map(place)));
    lemma_set_subset_finite(indices.map(place), g.cubes());
}

/// Moving all occupied cells by the same step keeps their number, and keeps
/// them hanging together.
pub proof fn lemma_moved(g: Grid, h: Grid, d: (int, int, int))
    requires
        g.cubes().finite(),
        g.moved_to(h, d),
    ensures
        h.cubes().finite(),
        h.count() == g.count(),
        g.connected() ==> h.connected(),
{
    let back = |p: (int, int, int)| moved(p, d);
    assert(injective_on(back, g.cubes()));
    assert forall|p: (int, int, int)| g.cubes().map(back).contains(p) <==> h.cubes().contains(
        p,
    ) by {
        if h.cubes().contains(p) {
            let q = (p.0 + d.0, p.1 + d.1, p.2 + d.2);
            assert(h.has(p));
            assert(g.cubes().contains(q) && p == back(q));
        }
        if g.cubes().map(back).contains(p) {
            let q = choose|q: (int, int, int)| g.cubes().contains(q) && p == back(q);
            assert(q == (p.0 + d.0, p.1 + d.1, p.2 + d.2));
            assert(h.has(p));
        }
    }
    assert(g.cubes().map(back) =~= h.cubes());
    lemma_map_size(g.cubes(), h.cubes(), back);
    if g.connected() {
        assert forall|a: (int, int, int), b: (int, int, int)| h.has(a) && h.has(b) implies #[trigger] h.linked(
            a,
            b,
        ) by {
            let a0 = (a.0 + d.0, a.1 + d.1, a.2 + d.2);
            let b0 = (b.0 + d.0, b.1 + d.1, b.2 + d.2);
            assert(g.has(a0) && g.has(b0));
            assert(g.linked(a0, b0));
            let path = choose|path: Seq<(int, int, int)>| #[trigger]
                g.walk(path) && path[0] == a0 && path.last() == b0;
            let there = Seq::new(path.len(), |i: int| moved(path[i], d));
            assert forall|i: int| 0 <= i < there.len() implies h.has(#[trigger] there[i]) by {
                assert(g.has(path[i]));
            }
            assert forall|i: int| 0 <= i < there.len() - 1 implies adjacent(
                #[trigger] there[i],
                there[i + 1],
            ) by {
                assert(adjacent(path[i], path[i + 1]));
            }
            assert(h.walk(there) && there[0] == a && there.last() == b);
        }
    }
}

/// Occupying one more cell adds its position to the occupied ones and
/// leaves the others as they were.
pub proof fn lemma_with_cube_cubes(g: Grid, c: (int, int, int))
    requires
        g.wf(),
        g.inside(c.0, c.1, c.2),
    ensures
        g.with_cube(c.0, c.1, c.2).wf(),
        forall|p: (int, int, int)| #[trigger]
            g.with_cube(c.0, c.1, c.2).has(p) <==> g.has(p) || p == c,
        g.with_cube(c.0, c.1, c.2).cubes() == g.cubes().insert(c),
{
    let h = g.with_cube(c.0, c.1, c.2);
    lemma_offset_bounds(g.nx, g.ny, g.nz, c.0, c.1, c.2);
    lemma_coords_of_offset(g.nx, g.ny, g.nz, c.0, c.1, c.2);
    assert forall|p: (int, int, int)| #[trigger] h.has(p) <==> g.has(p) || p == c by {
        if g.inside(p.0, p.1, p.2) {
            lemma_offset_bounds(g.nx, g.ny, g.nz, p.0, p.1, p.2);
            lemma_coords_of_offset(g.nx, g.ny, g.nz, p.0, p.1, p.2);
        }
    }
    assert(h.cubes() =~= g.cubes().insert(c));
}

/// Attaching a cube to cubes that hang together gives cubes that hang
/// together, one more than before.
pub proof fn lemma_attached(g: Grid, c: (int, int, int))
    requires
        g.wf(),
        g.attachable(c.0, c.1, c.2),
    ensures
        g.with_cube(c.0, c.1, c.2).count() == g.count() + 1,
        g.connected() ==> g.with_cube(c.0, c.1, c.2).connected(),
{
    let h = g.with_cube(c.0, c.1, c.2);
    lemma_with_cube_cubes(g, c);
    lemma_cubes_finite(g);
    assert(!g.cubes().contains(c));
    let d: (int, int, int) = if g.filled(c.0 - 1, c.1, c.2) {
        (c.0 - 1, c.1, c.2)
    } else if g.filled(c.0 + 1, c.1, c.2) {
        (c.0 + 1, c.1, c.2)
    } else if g.filled(c.0, c.1 - 1, c.2) {
        (c.0, c.1 - 1, c.2)
    } else if g.filled(c.0, c.1 + 1, c.2) {
        (c.0, c.1 + 1, c.2)
    } else if g.filled(c.0, c.1, c.2 - 1) {
        (c.0, c.1, c.2 - 1)
    } else {
        (c.0, c.1, c.2 + 1)
    };
    assert(g.has(d) && adjacent(c, d));
    if g.connected() {
        assert forall|a: (int, int, int), b: (int, int, int)| h.has(a) && h.has(b) implies #[trigger] h.linked(
            a,
            b,
        ) by {
            if a == c && b == c {
                let path = seq![c];
                assert(h.walk(path) && path[0] == a && path.last() == b);
            } else if a == c {
                assert(g.linked(d, b));
                let old = choose|path: Seq<(int, int, int)>| #[trigger]
                    g.walk(path) && path[0] == d && path.last() == b;
                let path = seq![c] + old;
                assert forall|i: int| 0 <= i < path.len() implies h.has(#[trigger] path[i]) by {
                    if i > 0 {
                        assert(g.has(old[i - 1]));
                    }
                }
                assert forall|i: int| 0 <= i < path.len() - 1 implies adjacent(
                    #[trigger] path[i],
                    path[i + 1],
                ) by {
                    if i > 0 {
                        assert(adjacent(old[i - 1], old[i - 1 + 1]));
                    }
                }
                assert(h.walk(path) && path[0] == a && path.last() == b);
            } else if b == c {
                assert(g.linked(a, d));
                let old = choose|path: Seq<(int, int, int)>| #[trigger]
                    g.walk(path) && path[0] == a && path.last() == d;
                let path = old.push(c);
                assert forall|i: int| 0 <= i < path.len() implies h.has(#[trigger] path[i]) by {
                    if i < old.len() {
                        assert(g.has(old[i]));
                    }
                }
                assert forall|i: int| 0 <= i < path.len() - 1 implies adjacent(
                    #[trigger] path[i],
                    path[i + 1],
                ) by {
                    if i < old.len() - 1 {
                        assert(adjacent(old[i], old[i + 1]));
                    }
                }
                assert(h.walk(path) && path[0] == a && path.last() == b);
            } else {
                assert(g.linked(a, b));
                let path = choose|path: Seq<(int, int, int)>| #[trigger]
                    g.walk(path) && path[0] == a && path.last() == b;
                assert forall|i: int| 0 <= i < path.len() implies h.has(#[trigger] path[i]) by {
                    assert(g.has(path[i]));
                }
                assert(h.walk(path) && path[0] == a && path.last() == b);
            }
        }
    }
}

/// The occupied cells of a padded grid are those of the grid, each moved by
/// one along every axis.
pub proof fn lemma_padded_moved(g: Grid)
    requires
        g.wf(),
    ensures
        g.moved_to(g.padded(), (-1, -1, -1)),
{
    let h = g.padded();
    lemma_padded(g);
    lemma_tabulate(
        g.nx + 2,
        g.ny + 2,
        g.nz + 2,
        |x: int, y: int, z: int|
            if g.inside(x - 1, y - 1, z - 1) {
                g.at(x - 1, y - 1, z - 1)
            } else {
                0u8
            },
    );
    assert forall|p: (int, int, int)| #[trigger] h.has(p) <==> g.has((p.0 - 1, p.1 - 1, p.2 - 1)) by {
        if h.inside(p.0, p.1, p.2) {
            assert(h.at(p.0, p.1, p.2) == if g.inside(p.0 - 1, p.1 - 1, p.2 - 1) {
                g.at(p.0 - 1, p.1 - 1, p.2 - 1)
            } else {
                0u8
            });
        }
    }
}

/// The occupied cells of a cropped grid are those of the grid, each moved
/// back by the lower bounds.
pub proof fn lemma_crop_moved(g: Grid)
    requires
        g.wf(),
    ensures
        g.moved_to(g.crop(), (g.lo(0) as int, g.lo(1) as int, g.lo(2) as int)),
{
    let h = g.crop();
    lemma_crop_cells(g);
    lemma_bounds(g, 0);
    lemma_bounds(g, 1);
    lemma_bounds(g, 2);
    assert forall|p: (int, int, int)| #[trigger]
        h.has(p) <==> g.has((p.0 + g.lo(0), p.1 + g.lo(1), p.2 + g.lo(2))) by {
        let q = (p.0 + g.lo(0), p.1 + g.lo(1), p.2 + g.lo(2));
        assert(h.filled(p.0, p.1, p.2) <==> g.filled(q.0, q.1, q.2) && p.0 >= 0 && p.1 >= 0 && p.2
            >= 0);
        if g.filled(q.0, q.1, q.2) {
            assert(pick(0, q.0, q.1, q.2) == q.0);
            assert(pick(1, q.0, q.1, q.2) == q.1);
            assert(pick(2, q.0, q.1, q.2) == q.2);
        }
    }
}

/// Every candidate grown from cubes that hang together holds cubes that hang
/// together, one more than it was grown from.
pub proof fn lemma_grown_polycubes(p: Grid, k: nat, i: int)
    requires
        p.wf(),
        k <= p.size(),
        0 <= i < p.grown(k).len(),
    ensures
        p.grown(k)[i].cubes().finite(),
        p.grown(k)[i].count() == p.count() + 1,
        p.connected() ==> p.grown(k)[i].connected(),
    decreases k,
{
    if k > 0 {
        let c = coords(p.ny, p.nz, k - 1);
        let before = p.grown((k - 1) as nat);
        if i < before.len() {
            lemma_grown_polycubes(p, (k - 1) as nat, i);
        } else {
            let q = p.with_cube(c.0, c.1, c.2);
            lemma_offset_of_coords(p.nx, p.ny, p.nz, k - 1);
            lemma_attached(p, c);
            lemma_with_cube_cubes(p, c);
            lemma_cubes_finite(q);
            lemma_crop_moved(q);
            lemma_moved(q, q.crop(), (q.lo(0) as int, q.lo(1) as int, q.lo(2) as int));
        }
    }
}

/// Every candidate of a polycube of `n` cubes holds `n + 1` cubes that hang together.
pub proof fn lemma_expand_polycubes(g: Grid, n: nat, i: int)
    requires
        g.wf(),
        g.connected(),
        g.count() == n,
        0 <= i < g.expand().len(),
    ensures
        g.expand()[i].cubes().finite(),
        g.expand()[i].count() == n + 1,
        g.expand()[i].connected(),
{
    let p = g.padded();
    lemma_padded(g);
    lemma_cubes_finite(g);
    lemma_padded_moved(g);
    lemma_moved(g, p, (-1, -1, -1));
    lemma_grown_polycubes(p, p.size(), i);
}

/// A block of one or two occupied cells in a row holds that many cubes, and
/// they hang together.
pub proof fn lemma_solid_polycube(n: nat)
    requires
        n == 1 || n == 2,
    ensures
        Grid::solid(n, 1, 1).cubes().finite(),
        Grid::solid(n, 1, 1).count() == n,
        Grid::solid(n, 1, 1).connected(),
{
    let g = Grid::solid(n, 1, 1);
    assert(g.wf()) by (nonlinear_arith)
        requires
            g.cells.len() == n * 1 * 1,
            g.nx == n,
            g.ny == 1,
            g.nz == 1,
            g.wf() == (g.cells.len() == g.nx * g.ny * g.nz),
    ;
    let first = (0int, 0int, 0int);
    let second = (1int, 0int, 0int);
    lemma_offset_bounds(n, 1, 1, 0, 0, 0);
    assert(g.has(first));
    if n == 1 {
        assert(g.cubes() =~= Set::<(int, int, int)>::empty().insert(first));
    } else {
        lemma_offset_bounds(n, 1, 1, 1, 0, 0);
        assert(g.has(second));
        assert(g.cubes() =~= Set::<(int, int, int)>::empty().insert(first).insert(second));
    }
    assert forall|a: (int, int, int), b: (int, int, int)| g.has(a) && g.has(b) implies #[trigger] g.linked(
        a,
        b,
    ) by {
        if a == b {
            let path = seq![a];
            assert(g.walk(path) && path[0] == a && path.last() == b);
        } else {
            let path = seq![a, b];
            assert(adjacent(a, b));
            assert(g.walk(path) && path[0] == a && path.last() == b);
        }
    }
}

} // verus!
