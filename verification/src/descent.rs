//! Every polycube comes of attaching a cube to a polycube of one cube less.
use crate::crop::{
    lemma_bounds, lemma_crop_cells, lemma_crop_trimmed, lemma_hi_unique, lemma_lo_unique,
};
use crate::expand::{lemma_crop_within, lemma_padded};
use crate::grid::{
    coords, lemma_coords_of_offset, lemma_grid_ext, lemma_offset_bounds, offset, pick, Grid,
};
use crate::polycube::{
    adjacent, lemma_crop_moved, lemma_cubes_finite, lemma_moved, lemma_padded_moved,
    lemma_with_cube_cubes,
};
use crate::removal::{lemma_removable, lemma_without_cubes};
use vstd::prelude::*;

verus! {

/// A grid that is its own bounding box and has an occupied cell has its
/// lower bounds at `0` and its upper bounds at its axis lengths.
pub proof fn lemma_trimmed_bounds(g: Grid)
    requires
        g.trimmed(),
        !g.vacant(),
    ensures
        g.lo(0) == 0 && g.lo(1) == 0 && g.lo(2) == 0,
        g.hi(0) == g.nx && g.hi(1) == g.ny && g.hi(2) == g.nz,
{
    assert(g.slab_filled(0, 0) && g.slab_filled(0, g.extent(0) - 1));
    assert(g.slab_filled(1, 0) && g.slab_filled(1, g.extent(1) - 1));
    assert(g.slab_filled(2, 0) && g.slab_filled(2, g.extent(2) - 1));
    lemma_lo_unique_at(g, 0);
    lemma_lo_unique_at(g, 1);
    lemma_lo_unique_at(g, 2);
}

/// Along an axis whose first and last slab hold an occupied cell, the bounds
/// are `0` and the length of the axis.
proof fn lemma_lo_unique_at(g: Grid, axis: int)
    requires
        0 <= axis < 3,
        g.slab_filled(axis, 0),
        g.slab_filled(axis, g.extent(axis) - 1),
    ensures
        g.lo(axis) == 0,
        g.hi(axis) == g.extent(axis),
{
    lemma_bounds(g, axis);
    lemma_lo_unique(g, axis, 0);
    lemma_hi_unique(g, axis, g.extent(axis) as int);
}

/// The bounds of a grid whose occupied cells are those of another, moved.
pub proof fn lemma_moved_bounds(a: Grid, b: Grid, d: (int, int, int), axis: int)
    requires
        a.moved_to(b, d),
        !a.vacant(),
        0 <= axis < 3,
    ensures
        !b.vacant(),
        b.lo(axis) == a.lo(axis) - pick(axis, d.0, d.1, d.2),
        b.hi(axis) == a.hi(axis) - pick(axis, d.0, d.1, d.2),
{
    let shift = pick(axis, d.0, d.1, d.2);
    lemma_bounds(a, axis);
    let (x, y, z) = choose|x: int, y: int, z: int| #[trigger]
        a.filled(x, y, z) && pick(axis, x, y, z) == a.lo(axis);
    let (u, v, w) = choose|u: int, v: int, w: int| #[trigger]
        a.filled(u, v, w) && pick(axis, u, v, w) == a.hi(axis) - 1;
    assert(a.has((x, y, z)) && a.has((u, v, w)));
    assert(b.has((x - d.0, y - d.1, z - d.2)));
    assert(b.has((u - d.0, v - d.1, w - d.2)));
    assert(b.filled(x - d.0, y - d.1, z - d.2) && pick(axis, x - d.0, y - d.1, z - d.2) == a.lo(axis)
        - shift);
    assert(b.filled(u - d.0, v - d.1, w - d.2) && pick(axis, u - d.0, v - d.1, w - d.2) == a.hi(axis)
        - 1 - shift);
    assert forall|i: int, j: int, k: int| #[trigger] b.filled(i, j, k) implies a.lo(axis) - shift
        <= pick(axis, i, j, k) < a.hi(axis) - shift by {
        assert(b.has((i, j, k)));
        assert(a.filled(i + d.0, j + d.1, k + d.2));
        assert(pick(axis, i + d.0, j + d.1, k + d.2) == pick(axis, i, j, k) + shift);
    }
    lemma_lo_unique(b, axis, a.lo(axis) - shift);
    lemma_hi_unique(b, axis, a.hi(axis) - shift);
}

/// A grid that is its own bounding box and is made of `0` and `1` is fixed by
/// where its occupied cells lie relative to each other.
pub proof fn lemma_trimmed_unique(a: Grid, b: Grid, d: (int, int, int))
    requires
        a.trimmed(),
        b.trimmed(),
        a.binary(),
        b.binary(),
        a.moved_to(b, d),
        !a.vacant(),
    ensures
        a == b,
{
    lemma_moved_bounds(a, b, d, 0);
    lemma_moved_bounds(a, b, d, 1);
    lemma_moved_bounds(a, b, d, 2);
    lemma_trimmed_bounds(a);
    lemma_trimmed_bounds(b);
    assert(d == (0int, 0int, 0int));
    assert forall|x: int, y: int, z: int| a.inside(x, y, z) implies #[trigger] a.at(x, y, z)
        == b.at(x, y, z) by {
        lemma_offset_bounds(a.nx, a.ny, a.nz, x, y, z);
        assert(b.has((x, y, z)) <==> a.has((x, y, z)));
        assert(a.cells[offset(a.ny, a.nz, x, y, z)] <= 1);
        assert(b.cells[offset(b.ny, b.nz, x, y, z)] <= 1);
    }
    lemma_grid_ext(a, b);
}

/// Where a cube can be attached, the grid with that cube, cropped, is among
/// the candidates.
pub proof fn lemma_grown_contains(p: Grid, k: nat, c: (int, int, int))
    requires
        p.wf(),
        p.attachable(c.0, c.1, c.2),
        offset(p.ny, p.nz, c.0, c.1, c.2) < k <= p.size(),
    ensures
        exists|i: int|
            0 <= i < p.grown(k).len() && #[trigger] p.grown(k)[i] == p.with_cube(
                c.0,
                c.1,
                c.2,
            ).crop(),
    decreases k,
{
    let grid = p.with_cube(c.0, c.1, c.2).crop();
    let before = p.grown((k - 1) as nat);
    lemma_coords_of_offset(p.nx, p.ny, p.nz, c.0, c.1, c.2);
    if k - 1 == offset(p.ny, p.nz, c.0, c.1, c.2) {
        assert(coords(p.ny, p.nz, k - 1) == c);
        assert(p.grown(k)[before.len() as int] == grid);
    } else {
        lemma_grown_contains(p, (k - 1) as nat, c);
        let i = choose|i: int| 0 <= i < before.len() && #[trigger] before[i] == grid;
        assert(p.grown(k)[i] == grid);
    }
}

/// Moving occupied cells twice is moving them once by both steps.
pub proof fn lemma_moved_twice(
    a: Grid,
    b: Grid,
    c: Grid,
    d: (int, int, int),
    e: (int, int, int),
)
    requires
        a.moved_to(b, d),
        b.moved_to(c, e),
    ensures
        a.moved_to(c, (d.0 + e.0, d.1 + e.1, d.2 + e.2)),
{
    assert forall|p: (int, int, int)| #[trigger] c.has(p) <==> a.has(
        (p.0 + (d.0 + e.0), p.1 + (d.1 + e.1), p.2 + (d.2 + e.2)),
    ) by {
        let q = (p.0 + e.0, p.1 + e.1, p.2 + e.2);
        assert(c.has(p) <==> b.has(q));
        assert(b.has(q) <==> a.has((q.0 + d.0, q.1 + d.1, q.2 + d.2)));
    }
}

/// Occupying a cell of a grid of `0` and `1` gives a grid of `0` and `1`.
pub proof fn lemma_with_cube_binary(p: Grid, c: (int, int, int))
    requires
        p.wf(),
        p.inside(c.0, c.1, c.2),
        p.binary(),
    ensures
        p.with_cube(c.0, c.1, c.2).binary(),
        p.with_cube(c.0, c.1, c.2).wf(),
{
    let q = p.with_cube(c.0, c.1, c.2);
    let at = offset(p.ny, p.nz, c.0, c.1, c.2);
    lemma_offset_bounds(p.nx, p.ny, p.nz, c.0, c.1, c.2);
    assert forall|i: int| 0 <= i < q.cells.len() implies #[trigger] q.cells[i] <= 1 by {
        if i != at {
            assert(q.cells[i] == p.cells[i]);
        }
    }
}

/// Where `p` holds the cubes of a shape but one, moved, and has room for the
/// one that is missing, that cube can be attached, and `p` with it holds the
/// cubes of the shape, moved.
pub proof fn lemma_attach_back(
    s: Grid,
    rest: Grid,
    p: Grid,
    e: (int, int, int),
    c: (int, int, int),
    d: (int, int, int),
)
    requires
        p.wf(),
        rest.moved_to(p, e),
        forall|x: (int, int, int)| #[trigger] rest.has(x) <==> s.has(x) && x != c,
        s.has(c),
        s.has(d),
        adjacent(c, d),
        p.inside(c.0 - e.0, c.1 - e.1, c.2 - e.2),
    ensures
        p.attachable(c.0 - e.0, c.1 - e.1, c.2 - e.2),
        s.moved_to(p.with_cube(c.0 - e.0, c.1 - e.1, c.2 - e.2), e),
{
    let c2 = (c.0 - e.0, c.1 - e.1, c.2 - e.2);
    let d2 = (d.0 - e.0, d.1 - e.1, d.2 - e.2);
    assert(rest.has(d));
    assert(p.has(d2) <==> rest.has((d2.0 + e.0, d2.1 + e.1, d2.2 + e.2)));
    assert(p.has(c2) <==> rest.has((c2.0 + e.0, c2.1 + e.1, c2.2 + e.2)));
    assert(p.filled(d2.0, d2.1, d2.2));
    assert(!p.filled(c2.0, c2.1, c2.2));
    assert(p.touches(c2.0, c2.1, c2.2));
    let q = p.with_cube(c2.0, c2.1, c2.2);
    lemma_with_cube_cubes(p, c2);
    assert forall|x: (int, int, int)| #[trigger] q.has(x) <==> s.has(
        (x.0 + e.0, x.1 + e.1, x.2 + e.2),
    ) by {
        assert(p.has(x) <==> rest.has((x.0 + e.0, x.1 + e.1, x.2 + e.2)));
    }
}

/// A cube next to an occupied cell lies within the bounds of the occupied
/// cells, or just outside them.
pub proof fn lemma_next_to_bounds(g: Grid, c: (int, int, int), d: (int, int, int))
    requires
        g.has(d),
        adjacent(c, d),
    ensures
        g.lo(0) - 1 <= c.0 <= g.hi(0),
        g.lo(1) - 1 <= c.1 <= g.hi(1),
        g.lo(2) - 1 <= c.2 <= g.hi(2),
{
    lemma_bounds(g, 0);
    lemma_bounds(g, 1);
    lemma_bounds(g, 2);
    assert(g.filled(d.0, d.1, d.2));
    assert(pick(0, d.0, d.1, d.2) == d.0 && pick(1, d.0, d.1, d.2) == d.1 && pick(2, d.0, d.1, d.2)
        == d.2);
}

/// The axis lengths of a cropped grid with an occupied cell.
pub proof fn lemma_crop_dims(g: Grid)
    requires
        g.wf(),
        !g.vacant(),
    ensures
        g.crop().nx == g.hi(0) - g.lo(0),
        g.crop().ny == g.hi(1) - g.lo(1),
        g.crop().nz == g.hi(2) - g.lo(2),
{
    lemma_crop_cells(g);
}

/// What is left of a shape, cropped and padded, holds the cubes that are
/// left, moved, and has room for a cube next to one of them.
pub proof fn lemma_candidate_frame(rest: Grid, c: (int, int, int), d: (int, int, int))
    requires
        rest.wf(),
        rest.binary(),
        rest.has(d),
        adjacent(c, d),
    ensures
        ({
            let p = rest.crop().padded();
            let e = (rest.lo(0) + (-1), rest.lo(1) + (-1), rest.lo(2) + (-1));
            &&& p.wf()
            &&& p.binary()
            &&& rest.moved_to(p, e)
            &&& p.inside(c.0 - e.0, c.1 - e.1, c.2 - e.2)
        }),
{
    let base = rest.crop();
    let p = base.padded();
    let low = (rest.lo(0) as int, rest.lo(1) as int, rest.lo(2) as int);
    assert(!rest.vacant()) by {
        assert(rest.filled(d.0, d.1, d.2));
    }
    lemma_crop_dims(rest);
    lemma_next_to_bounds(rest, c, d);
    assert(base.wf() && base.binary()) by {
        lemma_crop_trimmed(rest);
        lemma_crop_within(rest);
    }
    lemma_padded(base);
    assert(rest.moved_to(p, (low.0 + (-1), low.1 + (-1), low.2 + (-1)))) by {
        lemma_crop_moved(rest);
        lemma_padded_moved(base);
        lemma_moved_twice(rest, base, p, low, (-1, -1, -1));
    }
}

/// A shape whose cubes, moved, are the occupied cells of a grid, is that
/// grid cropped.
pub proof fn lemma_candidate_close(s: Grid, q: Grid, e: (int, int, int))
    requires
        s.trimmed(),
        s.binary(),
        !s.vacant(),
        q.wf(),
        q.binary(),
        s.moved_to(q, e),
    ensures
        q.crop() == s,
{
    let top = (q.lo(0) as int, q.lo(1) as int, q.lo(2) as int);
    let sum = (e.0 + top.0, e.1 + top.1, e.2 + top.2);
    lemma_crop_moved(q);
    lemma_crop_trimmed(q);
    lemma_crop_within(q);
    lemma_moved_twice(s, q, q.crop(), e, top);
    lemma_trimmed_unique(s, q.crop(), sum);
}

/// Take from a shape a cube that shares a face with another, crop what is
/// left, and the shape is among the candidates of what is left.
pub proof fn lemma_candidate(s: Grid, c: (int, int, int), d: (int, int, int))
    requires
        s.trimmed(),
        s.binary(),
        s.has(c),
        s.has(d),
        adjacent(c, d),
    ensures
        exists|i: int|
            0 <= i < s.without(c.0, c.1, c.2).crop().expand().len() && #[trigger] s.without(
                c.0,
                c.1,
                c.2,
            ).crop().expand()[i] == s,
{
    let rest = s.without(c.0, c.1, c.2);
    let p = rest.crop().padded();
    let e = (rest.lo(0) + (-1), rest.lo(1) + (-1), rest.lo(2) + (-1));
    let c2 = (c.0 - e.0, c.1 - e.1, c.2 - e.2);
    let q = p.with_cube(c2.0, c2.1, c2.2);
    assert(rest.wf() && rest.binary() && rest.has(d) && (forall|x: (int, int, int)| #[trigger]
        rest.has(x) <==> s.has(x) && x != c)) by {
        lemma_cubes_finite(s);
        lemma_without_cubes(s, c);
    }
    lemma_candidate_frame(rest, c, d);
    lemma_attach_back(s, rest, p, e, c, d);
    lemma_with_cube_binary(p, c2);
    assert(!s.vacant()) by {
        assert(s.filled(c.0, c.1, c.2));
    }
    lemma_candidate_close(s, q, e);
    lemma_offset_bounds(p.nx, p.ny, p.nz, c2.0, c2.1, c2.2);
    lemma_grown_contains(p, p.size(), c2);
    let i = choose|i: int|
        0 <= i < p.grown(p.size()).len() && #[trigger] p.grown(p.size())[i] == q.crop();
    assert(rest.crop().expand() == p.grown(p.size()));
    assert(rest.crop().expand()[i] == s);
}

/// Every polycube of two or more cubes is among the candidates of a polycube
/// of one cube less.
pub proof fn lemma_descent(s: Grid, n: nat)
    requires
        s.polycube(n),
        n >= 2,
    ensures
        exists|m: Grid, i: int|
            #![trigger m.expand()[i]]
            m.polycube((n - 1) as nat) && 0 <= i < m.expand().len() && m.expand()[i] == s,
{
    lemma_removable(s);
    let (c, d) = choose|c: (int, int, int), d: (int, int, int)|
        #![trigger s.has(c), s.has(d)]
        s.has(c) && s.has(d) && adjacent(c, d) && s.without(c.0, c.1, c.2).connected();
    let rest = s.without(c.0, c.1, c.2);
    let m = rest.crop();
    lemma_without_cubes(s, c);
    lemma_crop_moved(rest);
    lemma_moved(rest, m, (rest.lo(0) as int, rest.lo(1) as int, rest.lo(2) as int));
    lemma_crop_trimmed(rest);
    lemma_crop_within(rest);
    lemma_candidate(s, c, d);
    let i = choose|i: int| 0 <= i < m.expand().len() && #[trigger] m.expand()[i] == s;
    assert(m.polycube((n - 1) as nat) && 0 <= i < m.expand().len() && m.expand()[i] == s);
}

} // verus!
