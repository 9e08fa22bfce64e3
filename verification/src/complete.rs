//! The generations are complete: no polycube is missing from them.
use crate::congruence::{congruent, image, lemma_congruent_reflexive, lemma_congruent_transitive};
use crate::crop::lemma_crop_of_trimmed;
use crate::descent::lemma_descent;
use crate::equivariance::lemma_expand_turned;
use crate::expand::lemma_expand_members;
use crate::generate::{generation, lemma_generation_covers, lemma_generation_members, lemma_solid};
use crate::grid::{lemma_grid_ext, lemma_offset_bounds, pick, Grid};
use crate::polycube::adjacent;
use crate::removal::lemma_least;
use crate::rotation::{lemma_crop_turned, lemma_rotations_proper, lemma_turned, rotation, Turn};
use vstd::prelude::*;
use vstd::set_lib::lemma_len_subset;

verus! {

/// Among the occupied cells of a grid that has one, any two are the same.
pub proof fn lemma_one_cube(g: Grid, a: (int, int, int), b: (int, int, int))
    requires
        g.cubes().finite(),
        g.count() == 1,
        g.has(a),
        g.has(b),
    ensures
        a == b,
{
    if a != b {
        let two = Set::<(int, int, int)>::empty().insert(a).insert(b);
        assert(two.subset_of(g.cubes()));
        lemma_len_subset(two, g.cubes());
    }
}

/// Among the occupied cells of a grid that has two, any three hold two that
/// are the same.
pub proof fn lemma_two_cubes(g: Grid, a: (int, int, int), b: (int, int, int), c: (int, int, int))
    requires
        g.cubes().finite(),
        g.count() == 2,
        g.has(a),
        g.has(b),
        g.has(c),
    ensures
        a == b || a == c || b == c,
{
    if a != b && a != c && b != c {
        let three = Set::<(int, int, int)>::empty().insert(a).insert(b).insert(c);
        assert(three.subset_of(g.cubes()));
        lemma_len_subset(three, g.cubes());
    }
}

/// A block of occupied cells holds `1` at each of its positions.
pub proof fn lemma_solid_at(nx: nat, ny: nat, nz: nat, x: int, y: int, z: int)
    requires
        0 <= x < nx,
        0 <= y < ny,
        0 <= z < nz,
    ensures
        Grid::solid(nx, ny, nz).wf(),
        Grid::solid(nx, ny, nz).at(x, y, z) == 1,
{
    lemma_offset_bounds(nx, ny, nz, x, y, z);
}

/// A grid whose every cell is `1` is the block of occupied cells of its axis
/// lengths.
pub proof fn lemma_all_filled(g: Grid)
    requires
        g.wf(),
        forall|x: int, y: int, z: int| g.inside(x, y, z) ==> #[trigger] g.at(x, y, z) == 1,
    ensures
        g == Grid::solid(g.nx, g.ny, g.nz),
{
    let s = Grid::solid(g.nx, g.ny, g.nz);
    assert forall|x: int, y: int, z: int| g.inside(x, y, z) implies #[trigger] g.at(x, y, z)
        == s.at(x, y, z) by {
        lemma_solid_at(g.nx, g.ny, g.nz, x, y, z);
    }
    lemma_grid_ext(g, s);
}

/// A block of occupied cells, turned, is a block of occupied cells.
pub proof fn lemma_solid_turned(nx: nat, ny: nat, nz: nat, t: Turn)
    requires
        t.valid(),
        nx > 0,
        ny > 0,
        nz > 0,
    ensures
        ({
            let g = Grid::solid(nx, ny, nz);
            g.turned(t) == Grid::solid(
                g.extent(t.origin(0)),
                g.extent(t.origin(1)),
                g.extent(t.origin(2)),
            )
        }),
{
    let g = Grid::solid(nx, ny, nz);
    let h = g.turned(t);
    lemma_solid_at(nx, ny, nz, 0, 0, 0);
    lemma_turned(g, t);
    assert(h.extent(0) == g.extent(t.origin(0)));
    assert(h.extent(1) == g.extent(t.origin(1)));
    assert(h.extent(2) == g.extent(t.origin(2)));
    assert forall|x: int, y: int, z: int| h.inside(x, y, z) implies #[trigger] h.at(x, y, z)
        == 1 by {
        let s = t.source(g, x, y, z);
        lemma_solid_at(nx, ny, nz, s.0, s.1, s.2);
    }
    lemma_all_filled(h);
}

/// The coordinates that an occupied cell of a grid that is its own bounding
/// box can have along an axis: some occupied cell has `0`, and some has the
/// last.
proof fn lemma_trimmed_ends(g: Grid, axis: int)
    requires
        g.trimmed(),
        !g.vacant(),
        0 <= axis < 3,
    ensures
        exists|p: (int, int, int)| #[trigger] g.has(p) && pick(axis, p.0, p.1, p.2) == 0,
        exists|p: (int, int, int)| #[trigger]
            g.has(p) && pick(axis, p.0, p.1, p.2) == g.extent(axis) - 1,
{
    assert(g.slab_filled(axis, 0) && g.slab_filled(axis, g.extent(axis) - 1));
    let (x, y, z) = choose|x: int, y: int, z: int| #[trigger]
        g.filled(x, y, z) && pick(axis, x, y, z) == 0;
    assert(g.has((x, y, z)) && pick(axis, x, y, z) == 0);
    let (u, v, w) = choose|u: int, v: int, w: int| #[trigger]
        g.filled(u, v, w) && pick(axis, u, v, w) == g.extent(axis) - 1;
    assert(g.has((u, v, w)) && pick(axis, u, v, w) == g.extent(axis) - 1);
}

/// The polycube of one cube is the single cube.
pub proof fn lemma_single(s: Grid)
    requires
        s.polycube(1),
    ensures
        s == Grid::solid(1, 1, 1),
{
    let c = s.cubes().choose();
    assert(s.cubes().contains(c));
    assert(s.has(c));
    assert(!s.vacant()) by {
        assert(s.filled(c.0, c.1, c.2));
    }
    assert forall|axis: int| 0 <= axis < 3 implies pick(axis, c.0, c.1, c.2) == 0 && #[trigger] s.extent(
        axis,
    ) == 1 by {
        lemma_trimmed_ends(s, axis);
        let p = choose|p: (int, int, int)| #[trigger] s.has(p) && pick(axis, p.0, p.1, p.2) == 0;
        let q = choose|q: (int, int, int)| #[trigger]
            s.has(q) && pick(axis, q.0, q.1, q.2) == s.extent(axis) - 1;
        lemma_one_cube(s, c, p);
        lemma_one_cube(s, c, q);
    }
    assert(s.extent(0) == 1 && s.extent(1) == 1 && s.extent(2) == 1);
    assert(pick(0, c.0, c.1, c.2) == 0 && pick(1, c.0, c.1, c.2) == 0 && pick(2, c.0, c.1, c.2)
        == 0) by {
        assert(s.extent(0) == 1 && s.extent(1) == 1 && s.extent(2) == 1);
    }
    assert forall|x: int, y: int, z: int| s.inside(x, y, z) implies #[trigger] s.at(x, y, z)
        == 1 by {
        assert((x, y, z) == c);
    }
    lemma_all_filled(s);
}

/// The two cubes of a polycube of two share a face.
proof fn lemma_pair_adjacent(s: Grid, a: (int, int, int), b: (int, int, int))
    requires
        s.polycube(2),
        s.has(a),
        s.has(b),
        a != b,
    ensures
        adjacent(a, b),
{
    assert(s.linked(a, b));
    let path = choose|path: Seq<(int, int, int)>| #[trigger]
        s.walk(path) && path[0] == a && path.last() == b;
    let arrived = |k: nat| k < path.len() && path[k as int] == b;
    assert(arrived((path.len() - 1) as nat));
    lemma_least(arrived, (path.len() - 1) as nat);
    let m = choose|m: nat| #[trigger] arrived(m) && forall|j: nat| j < m ==> !#[trigger] arrived(j);
    assert(m > 0);
    assert(!arrived((m - 1) as nat));
    assert(s.has(path[m - 1]));
    lemma_two_cubes(s, a, b, path[m - 1]);
    assert(adjacent(path[m - 1], path[m - 1 + 1]));
}

/// A polycube of two cubes is a block of two occupied cells in a row, along
/// one of the three axes.
proof fn lemma_pair_shape(s: Grid)
    requires
        s.polycube(2),
    ensures
        s == Grid::solid(2, 1, 1) || s == Grid::solid(1, 2, 1) || s == Grid::solid(1, 1, 2),
{
    let a = s.cubes().choose();
    assert(s.cubes().contains(a));
    let b = s.cubes().remove(a).choose();
    assert(s.cubes().remove(a).len() == 1);
    assert(s.cubes().remove(a).contains(b));
    assert(s.has(a) && s.has(b) && a != b);
    assert(!s.vacant()) by {
        assert(s.filled(a.0, a.1, a.2));
    }
    lemma_pair_adjacent(s, a, b);
    assert forall|axis: int| 0 <= axis < 3 implies ({
        let i = pick(axis, a.0, a.1, a.2);
        let j = pick(axis, b.0, b.1, b.2);
        (i == 0 || j == 0) && (i == #[trigger] s.extent(axis) - 1 || j == s.extent(axis) - 1)
    }) by {
        lemma_trimmed_ends(s, axis);
        let p = choose|p: (int, int, int)| #[trigger] s.has(p) && pick(axis, p.0, p.1, p.2) == 0;
        let q = choose|q: (int, int, int)| #[trigger]
            s.has(q) && pick(axis, q.0, q.1, q.2) == s.extent(axis) - 1;
        lemma_two_cubes(s, a, b, p);
        lemma_two_cubes(s, a, b, q);
    }
    assert(s.extent(0) - 1 == s.nx - 1 && s.extent(1) - 1 == s.ny - 1 && s.extent(2) - 1 == s.nz
        - 1);
    assert((a.0 == 0 || b.0 == 0) && (a.0 == s.extent(0) - 1 || b.0 == s.extent(0) - 1));
    assert((a.1 == 0 || b.1 == 0) && (a.1 == s.extent(1) - 1 || b.1 == s.extent(1) - 1));
    assert((a.2 == 0 || b.2 == 0) && (a.2 == s.extent(2) - 1 || b.2 == s.extent(2) - 1));
    assert((s.nx == 2 && s.ny == 1 && s.nz == 1) || (s.nx == 1 && s.ny == 2 && s.nz == 1) || (s.nx
        == 1 && s.ny == 1 && s.nz == 2));
    assert forall|x: int, y: int, z: int| s.inside(x, y, z) implies #[trigger] s.at(x, y, z)
        == 1 by {
        assert((x, y, z) == a || (x, y, z) == b);
    }
    lemma_all_filled(s);
}

/// Every polycube of two cubes holds the shape of two cubes in a row along
/// the first axis.
pub proof fn lemma_pair(s: Grid)
    requires
        s.polycube(2),
    ensures
        congruent(s, Grid::solid(2, 1, 1)),
{
    let row = Grid::solid(2, 1, 1);
    lemma_pair_shape(s);
    lemma_solid(2, 1, 1);
    lemma_crop_of_trimmed(row);
    lemma_rotations_proper();
    if s == row {
        lemma_congruent_reflexive(s);
    } else if s == Grid::solid(1, 2, 1) {
        lemma_solid_turned(1, 2, 1, rotation(16));
        assert(image(s, 16) == row.crop());
    } else {
        lemma_solid_turned(1, 1, 2, rotation(12));
        assert(image(s, 12) == row.crop());
    }
}

/// A grid that is its own bounding box, turned, is its own image.
pub proof fn lemma_image_of_trimmed_turned(g: Grid, r: int)
    requires
        g.trimmed(),
        0 <= r < 24,
    ensures
        image(g, r) == g.turned(rotation(r)),
{
    lemma_rotations_proper();
    lemma_crop_turned(g, rotation(r));
    lemma_crop_of_trimmed(g);
}

/// The generations are complete: every polycube of `n` cubes holds the same
/// shape, up to rotation, as a member of the generation of `n` cubes.
pub proof fn lemma_generation_complete(n: nat, s: Grid)
    requires
        n >= 1,
        s.polycube(n),
    ensures
        exists|i: int|
            0 <= i < generation(n).len() && congruent(s, #[trigger] generation(n)[i]),
    decreases n,
{
    if n == 1 {
        lemma_single(s);
        lemma_congruent_reflexive(s);
        assert(congruent(s, generation(1)[0]));
    } else if n == 2 {
        lemma_pair(s);
        assert(congruent(s, generation(2)[0]));
    } else {
        lemma_descent(s, n);
        let (m, i) = choose|m: Grid, i: int|
            #![trigger m.expand()[i]]
            m.polycube((n - 1) as nat) && 0 <= i < m.expand().len() && m.expand()[i] == s;
        lemma_generation_complete((n - 1) as nat, m);
        let j = choose|j: int|
            0 <= j < generation((n - 1) as nat).len() && congruent(
                m,
                #[trigger] generation((n - 1) as nat)[j],
            );
        let parent = generation((n - 1) as nat)[j];
        let r = choose|r: int| 0 <= r < 24 && #[trigger] image(m, r) == parent.crop();
        let t = rotation(r);
        lemma_rotations_proper();
        lemma_generation_members((n - 1) as nat, j);
        lemma_crop_of_trimmed(parent);
        lemma_image_of_trimmed_turned(m, r);
        assert(parent == m.turned(t));
        lemma_expand_turned(m, t, i);
        let k = choose|k: int|
            0 <= k < parent.expand().len() && #[trigger] parent.expand()[k] == s.turned(t);
        let child = parent.expand()[k];
        lemma_image_of_trimmed_turned(s, r);
        lemma_expand_members(parent, k);
        lemma_crop_of_trimmed(child);
        assert(image(s, r) == child.crop());
        assert(congruent(s, child));
        lemma_generation_covers((n - 1) as nat, j, k);
        assert((n - 1 + 1) as nat == n);
        let w = choose|w: int|
            0 <= w < generation(n).len() && congruent(child, #[trigger] generation(n)[w]);
        lemma_congruent_transitive(s, child, generation(n)[w]);
    }
}

} // verus!
