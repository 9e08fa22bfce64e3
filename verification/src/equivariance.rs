//! Attaching a cube and turning can be done in either order.
use crate::descent::lemma_grown_contains;
use crate::expand::lemma_padded;
use crate::grid::{
    coords, lemma_coords_of_offset, lemma_grid_ext, lemma_offset_bounds, lemma_offset_of_coords,
    lemma_tabulate, Grid,
};
use crate::polycube::adjacent;
use crate::rotation::{
    lemma_crop_turned, lemma_turned, lemma_turned_at, lemma_turned_filled, Turn,
};
use vstd::prelude::*;

verus! {

/// The value of one cell of a padded grid.
pub proof fn lemma_padded_at(g: Grid, x: int, y: int, z: int)
    requires
        g.wf(),
        g.padded().inside(x, y, z),
    ensures
        g.padded().at(x, y, z) == (if g.inside(x - 1, y - 1, z - 1) {
            g.at(x - 1, y - 1, z - 1)
        } else {
            0u8
        }),
{
    lemma_tabulate(
        g.nx + 2,
        g.ny + 2,
        g.nz + 2,
        |x: int, y: int, z: int|
            if g.inside(x - 1, y - 1, z - 1) {
                g.at(x - 1, y - 1, z - 1)
            } else {
                0u8
            },
    );
}

/// The value of one cell of a grid in which a cell has been occupied.
pub proof fn lemma_with_cube_at(g: Grid, c: (int, int, int), x: int, y: int, z: int)
    requires
        g.wf(),
        g.inside(c.0, c.1, c.2),
        g.inside(x, y, z),
    ensures
        g.with_cube(c.0, c.1, c.2).at(x, y, z) == (if (x, y, z) == c {
            1u8
        } else {
            g.at(x, y, z)
        }),
{
    lemma_offset_bounds(g.nx, g.ny, g.nz, c.0, c.1, c.2);
    lemma_coords_of_offset(g.nx, g.ny, g.nz, c.0, c.1, c.2);
    lemma_offset_bounds(g.nx, g.ny, g.nz, x, y, z);
    lemma_coords_of_offset(g.nx, g.ny, g.nz, x, y, z);
}

/// Reading a source coordinate commutes with padding: the source coordinate
/// read in the padded grid lies one further than the one read in the grid
/// from the target position one nearer.
proof fn lemma_padded_source(t: Turn, g: Grid, x: int, y: int, z: int)
    requires
        t.valid(),
    ensures
        ({
            let s = t.source(g.padded(), x, y, z);
            let r = t.source(g, x - 1, y - 1, z - 1);
            s == (r.0 + 1, r.1 + 1, r.2 + 1)
        }),
{
}

/// A target position lies in the turned grid exactly when its source
/// position lies in the grid.
proof fn lemma_inside_turned(t: Turn, g: Grid, x: int, y: int, z: int)
    requires
        g.wf(),
        t.valid(),
    ensures
        ({
            let s = t.source(g, x, y, z);
            g.turned(t).inside(x, y, z) <==> g.inside(s.0, s.1, s.2)
        }),
{
    lemma_turned(g, t);
    let h = g.turned(t);
    assert(h.extent(0) == g.extent(t.origin(0)));
    assert(h.extent(1) == g.extent(t.origin(1)));
    assert(h.extent(2) == g.extent(t.origin(2)));
}

/// Padding and turning can be done in either order.
pub proof fn lemma_padded_turned(g: Grid, t: Turn)
    requires
        g.wf(),
        t.valid(),
    ensures
        g.turned(t).padded() == g.padded().turned(t),
{
    let h = g.turned(t);
    let p = g.padded();
    let left = h.padded();
    let right = p.turned(t);
    lemma_turned(g, t);
    lemma_padded(g);
    lemma_padded(h);
    lemma_turned(p, t);
    assert(h.extent(0) == g.extent(t.origin(0)));
    assert(h.extent(1) == g.extent(t.origin(1)));
    assert(h.extent(2) == g.extent(t.origin(2)));
    assert(right.extent(0) == p.extent(t.origin(0)));
    assert(right.extent(1) == p.extent(t.origin(1)));
    assert(right.extent(2) == p.extent(t.origin(2)));
    assert(left.nx == right.nx && left.ny == right.ny && left.nz == right.nz);
    assert forall|x: int, y: int, z: int| left.inside(x, y, z) implies #[trigger] left.at(x, y, z)
        == right.at(x, y, z) by {
        lemma_padded_cell(g, t, x, y, z);
    }
    lemma_grid_ext(left, right);
}

/// Padding and turning in either order give the same cell at each position.
proof fn lemma_padded_cell(g: Grid, t: Turn, x: int, y: int, z: int)
    requires
        g.wf(),
        t.valid(),
        g.turned(t).padded().inside(x, y, z),
        g.padded().turned(t).inside(x, y, z),
    ensures
        g.turned(t).padded().at(x, y, z) == g.padded().turned(t).at(x, y, z),
{
    let h = g.turned(t);
    let p = g.padded();
    lemma_turned(g, t);
    lemma_padded(g);
    lemma_padded_at(h, x, y, z);
    lemma_turned_at(p, t, x, y, z);
    let s = t.source(p, x, y, z);
    lemma_padded_at(g, s.0, s.1, s.2);
    lemma_padded_source(t, g, x, y, z);
    lemma_inside_turned(t, g, x - 1, y - 1, z - 1);
    if h.inside(x - 1, y - 1, z - 1) {
        lemma_turned_at(g, t, x - 1, y - 1, z - 1);
    }
}

/// Occupying a cell and turning can be done in either order.
pub proof fn lemma_with_cube_turned(p: Grid, t: Turn, c: (int, int, int))
    requires
        p.wf(),
        t.valid(),
        p.inside(c.0, c.1, c.2),
    ensures
        ({
            let o = t.target(p, c.0, c.1, c.2);
            p.turned(t).with_cube(o.0, o.1, o.2) == p.with_cube(c.0, c.1, c.2).turned(t)
        }),
{
    let o = t.target(p, c.0, c.1, c.2);
    let h = p.turned(t);
    let q = p.with_cube(c.0, c.1, c.2);
    let left = h.with_cube(o.0, o.1, o.2);
    let right = q.turned(t);
    lemma_turned(p, t);
    lemma_offset_bounds(p.nx, p.ny, p.nz, c.0, c.1, c.2);
    assert(q.wf());
    lemma_turned(q, t);
    assert(h.inside(o.0, o.1, o.2));
    lemma_offset_bounds(h.nx, h.ny, h.nz, o.0, o.1, o.2);
    assert(left.wf());
    assert(h.extent(0) == p.extent(t.origin(0)));
    assert(h.extent(1) == p.extent(t.origin(1)));
    assert(h.extent(2) == p.extent(t.origin(2)));
    assert(right.extent(0) == q.extent(t.origin(0)));
    assert(right.extent(1) == q.extent(t.origin(1)));
    assert(right.extent(2) == q.extent(t.origin(2)));
    assert(left.nx == right.nx && left.ny == right.ny && left.nz == right.nz);
    assert forall|x: int, y: int, z: int| left.inside(x, y, z) implies #[trigger] left.at(x, y, z)
        == right.at(x, y, z) by {
        lemma_with_cube_at(h, o, x, y, z);
        let s = t.source(p, x, y, z);
        assert(h.inside(x, y, z));
        assert(p.inside(s.0, s.1, s.2));
        assert(right.inside(x, y, z));
        assert(t.source(q, x, y, z) == s);
        lemma_with_cube_at(p, c, s.0, s.1, s.2);
        assert(t.target(p, s.0, s.1, s.2) == (x, y, z));
        assert(t.source(p, o.0, o.1, o.2) == c);
    }
    lemma_grid_ext(left, right);
}

/// Turning keeps neighbours neighbours.
proof fn lemma_adjacent_turned(t: Turn, g: Grid, c: (int, int, int), d: (int, int, int))
    requires
        t.valid(),
        adjacent(c, d),
    ensures
        adjacent(t.target(g, c.0, c.1, c.2), t.target(g, d.0, d.1, d.2)),
{
}

/// A position shares a face with an occupied cell exactly when an occupied
/// cell is next to it.
pub proof fn lemma_touches(g: Grid, c: (int, int, int))
    ensures
        g.touches(c.0, c.1, c.2) <==> exists|d: (int, int, int)| #[trigger]
            g.has(d) && adjacent(c, d),
{
    if g.touches(c.0, c.1, c.2) {
        let d: (int, int, int) = if g.filled(c.0 - 1, c.1, c.2) {
            (c.0 - 1, c.1, c.2)
        } else if g.filled(c.0 + 1, c.1, c.2) {
            (c.0 + 1, c.1, c.2)
        } else if g.filled(c.0, c.1 - 1, c.2) {
            (c.0, c.1 - 1, c.2)
        } else if g.filled(c.0, c.1 + 1, c.2) {
            (c.0, c.1 + 1, c.2)
        } else if g.filled(c.0, c.1, c.2 - 1) {
            (c.0, c.1, c.2 - 1)
        } else {
            (c.0, c.1, c.2 + 1)
        };
        assert(g.has(d) && adjacent(c, d));
    }
    if exists|d: (int, int, int)| #[trigger] g.has(d) && adjacent(c, d) {
        let d = choose|d: (int, int, int)| #[trigger] g.has(d) && adjacent(c, d);
        assert(g.filled(d.0, d.1, d.2));
    }
}

/// Where a cube can be attached, a cube can be attached to the turned grid
/// at the position on which that place lands.
pub proof fn lemma_attachable_turned(p: Grid, t: Turn, c: (int, int, int))
    requires
        p.wf(),
        t.valid(),
        p.attachable(c.0, c.1, c.2),
    ensures
        ({
            let o = t.target(p, c.0, c.1, c.2);
            p.turned(t).attachable(o.0, o.1, o.2)
        }),
{
    let o = t.target(p, c.0, c.1, c.2);
    let h = p.turned(t);
    lemma_turned(p, t);
    lemma_turned_filled(p, t);
    assert(h.inside(o.0, o.1, o.2));
    assert(t.source(p, o.0, o.1, o.2) == c);
    assert(h.at(o.0, o.1, o.2) == p.at(c.0, c.1, c.2));
    lemma_touches(p, c);
    let d = choose|d: (int, int, int)| #[trigger] p.has(d) && adjacent(c, d);
    let e = t.target(p, d.0, d.1, d.2);
    assert(p.filled(d.0, d.1, d.2));
    assert(h.filled(e.0, e.1, e.2));
    lemma_adjacent_turned(t, p, c, d);
    assert(h.has(e) && adjacent(o, e));
    lemma_touches(h, o);
}

/// Every candidate comes of attaching a cube where one can be attached.
pub proof fn lemma_grown_origin(p: Grid, k: nat, i: int)
    requires
        p.wf(),
        k <= p.size(),
        0 <= i < p.grown(k).len(),
    ensures
        exists|c: (int, int, int)|
            p.attachable(c.0, c.1, c.2) && #[trigger] p.with_cube(c.0, c.1, c.2).crop()
                == p.grown(k)[i],
    decreases k,
{
    if k > 0 {
        let c = coords(p.ny, p.nz, k - 1);
        let before = p.grown((k - 1) as nat);
        if i < before.len() {
            lemma_grown_origin(p, (k - 1) as nat, i);
            let b = choose|b: (int, int, int)|
                p.attachable(b.0, b.1, b.2) && #[trigger] p.with_cube(b.0, b.1, b.2).crop()
                    == before[i];
            assert(p.with_cube(b.0, b.1, b.2).crop() == p.grown(k)[i]);
        } else {
            lemma_offset_of_coords(p.nx, p.ny, p.nz, k - 1);
            assert(p.attachable(c.0, c.1, c.2) && p.with_cube(c.0, c.1, c.2).crop() == p.grown(
                k,
            )[i]);
        }
    }
}

/// The candidates of a turned grid are the candidates of the grid, turned:
/// each candidate of the grid, turned, is a candidate of the turned grid.
pub proof fn lemma_expand_turned(g: Grid, t: Turn, i: int)
    requires
        g.wf(),
        t.valid(),
        0 <= i < g.expand().len(),
    ensures
        exists|j: int|
            0 <= j < g.turned(t).expand().len() && #[trigger] g.turned(t).expand()[j]
                == g.expand()[i].turned(t),
{
    let p = g.padded();
    let h = g.turned(t);
    let pt = h.padded();
    lemma_padded(g);
    lemma_turned(g, t);
    lemma_padded(h);
    lemma_padded_turned(g, t);
    lemma_grown_origin(p, p.size(), i);
    let c = choose|c: (int, int, int)|
        p.attachable(c.0, c.1, c.2) && #[trigger] p.with_cube(c.0, c.1, c.2).crop() == p.grown(
            p.size(),
        )[i];
    let o = t.target(p, c.0, c.1, c.2);
    lemma_attachable_turned(p, t, c);
    lemma_with_cube_turned(p, t, c);
    let q = p.with_cube(c.0, c.1, c.2);
    lemma_offset_bounds(p.nx, p.ny, p.nz, c.0, c.1, c.2);
    assert(q.wf());
    lemma_crop_turned(q, t);
    assert(pt.with_cube(o.0, o.1, o.2).crop() == q.crop().turned(t));
    lemma_offset_bounds(pt.nx, pt.ny, pt.nz, o.0, o.1, o.2);
    lemma_grown_contains(pt, pt.size(), o);
    let j = choose|j: int|
        0 <= j < pt.grown(pt.size()).len() && #[trigger] pt.grown(pt.size())[j] == pt.with_cube(
            o.0,
            o.1,
            o.2,
        ).crop();
    assert(h.expand()[j] == g.expand()[i].turned(t));
}

} // verus!
