//! Taking a cube away from cubes that hang together.
use crate::grid::{lemma_coords_of_offset, lemma_offset_bounds, offset, Grid};
use crate::polycube::adjacent;
use vstd::prelude::*;

verus! {

impl Grid {
    /// The grid with the cell at `(x, y, z)` emptied.
    pub open spec fn without(self, x: int, y: int, z: int) -> Grid {
        Grid {
            nx: self.nx,
            ny: self.ny,
            nz: self.nz,
            cells: self.cells.update(offset(self.ny, self.nz, x, y, z), 0u8),
        }
    }

    /// Whether a walk of `k` cells leads from `a` to `b`.
    pub open spec fn linked_by(self, a: (int, int, int), b: (int, int, int), k: nat) -> bool {
        exists|path: Seq<(int, int, int)>| #[trigger]
            self.walk(path) && path[0] == a && path.last() == b && path.len() == k
    }

    /// The number of cells of a shortest walk from `a` to `b`.
    pub open spec fn far(self, a: (int, int, int), b: (int, int, int)) -> nat {
        choose|k: nat|
            self.linked_by(a, b, k) && forall|j: nat| j < k ==> !self.linked_by(a, b, j)
    }
}

/// Where some number has a property, a least number has it.
pub proof fn lemma_least(p: spec_fn(nat) -> bool, k: nat)
    requires
        p(k),
    ensures
        exists|m: nat| #[trigger] p(m) && forall|j: nat| j < m ==> !#[trigger] p(j),
    decreases k,
{
    if forall|j: nat| j < k ==> !#[trigger] p(j) {
        assert(p(k) && forall|j: nat| j < k ==> !#[trigger] p(j));
    } else {
        let j = choose|j: nat| j < k && #[trigger] p(j);
        lemma_least(p, j);
    }
}

/// Among finitely many things, one is valued highest.
pub proof fn lemma_highest<A>(s: Set<A>, f: spec_fn(A) -> nat)
    requires
        s.finite(),
        s.len() > 0,
    ensures
        exists|m: A| #[trigger] s.contains(m) && forall|x: A| s.contains(x) ==> f(x) <= f(m),
    decreases s.len(),
{
    let a = s.choose();
    let rest = s.remove(a);
    if rest.len() == 0 {
        assert forall|x: A| s.contains(x) implies f(x) <= f(a) by {
            if x != a {
                assert(rest.contains(x));
            }
        }
        assert(s.contains(a));
    } else {
        lemma_highest(rest, f);
        let m = choose|m: A| #[trigger]
            rest.contains(m) && forall|x: A| rest.contains(x) ==> f(x) <= f(m);
        let top = if f(a) <= f(m) {
            m
        } else {
            a
        };
        assert forall|x: A| s.contains(x) implies f(x) <= f(top) by {
            if x != a {
                assert(rest.contains(x));
            }
        }
        assert(s.contains(top));
    }
}

/// Between cells that a walk joins there is a shortest walk.
pub proof fn lemma_far(g: Grid, a: (int, int, int), b: (int, int, int))
    requires
        g.linked(a, b),
    ensures
        g.linked_by(a, b, g.far(a, b)),
        forall|j: nat| j < g.far(a, b) ==> !g.linked_by(a, b, j),
        g.far(a, b) >= 1,
        a != b ==> g.far(a, b) >= 2,
{
    let path = choose|path: Seq<(int, int, int)>| #[trigger]
        g.walk(path) && path[0] == a && path.last() == b;
    assert(g.linked_by(a, b, path.len()));
    let p = |k: nat| g.linked_by(a, b, k);
    assert(p(path.len()));
    lemma_least(p, path.len());
    let m = choose|m: nat| #[trigger] p(m) && forall|j: nat| j < m ==> !#[trigger] p(j);
    assert forall|j: nat| j < m implies !g.linked_by(a, b, j) by {
        assert(!p(j));
    }
    assert(g.linked_by(a, b, m) && forall|j: nat| j < m ==> !g.linked_by(a, b, j));
    let k = g.far(a, b);
    let short = choose|short: Seq<(int, int, int)>| #[trigger]
        g.walk(short) && short[0] == a && short.last() == b && short.len() == k;
    assert(short.len() >= 1);
}

/// A walk, walked backwards, is a walk.
pub proof fn lemma_walk_back(g: Grid, path: Seq<(int, int, int)>)
    requires
        g.walk(path),
    ensures
        g.walk(Seq::new(path.len(), |i: int| path[path.len() - 1 - i])),
{
    let back = Seq::new(path.len(), |i: int| path[path.len() - 1 - i]);
    assert forall|i: int| 0 <= i < back.len() implies g.has(#[trigger] back[i]) by {
        assert(g.has(path[path.len() - 1 - i]));
    }
    assert forall|i: int| 0 <= i < back.len() - 1 implies adjacent(#[trigger] back[i], back[i + 1]) by {
        let j = path.len() - 2 - i;
        assert(adjacent(path[j], path[j + 1]));
    }
}

/// A walk that ends where another begins goes on with it.
pub proof fn lemma_walk_on(g: Grid, p: Seq<(int, int, int)>, q: Seq<(int, int, int)>)
    requires
        g.walk(p),
        g.walk(q),
        p.last() == q[0],
    ensures
        g.walk(p + q.subrange(1, q.len() as int)),
        (p + q.subrange(1, q.len() as int))[0] == p[0],
        (p + q.subrange(1, q.len() as int)).last() == q.last(),
{
    let all = p + q.subrange(1, q.len() as int);
    assert forall|i: int| 0 <= i < all.len() implies g.has(#[trigger] all[i]) by {
        if i < p.len() {
            assert(g.has(p[i]));
        } else {
            assert(g.has(q[i - p.len() + 1]));
        }
    }
    assert forall|i: int| 0 <= i < all.len() - 1 implies adjacent(#[trigger] all[i], all[i + 1]) by {
        if i < p.len() - 1 {
            assert(adjacent(p[i], p[i + 1]));
        } else {
            let j = i - p.len() + 1;
            assert(adjacent(q[j], q[j + 1]));
        }
    }
}

/// Emptying a cell takes its position from the occupied ones and leaves the
/// others as they were.
pub proof fn lemma_without_cubes(g: Grid, c: (int, int, int))
    requires
        g.wf(),
        g.has(c),
        g.cubes().finite(),
    ensures
        g.without(c.0, c.1, c.2).wf(),
        forall|p: (int, int, int)| #[trigger]
            g.without(c.0, c.1, c.2).has(p) <==> g.has(p) && p != c,
        g.without(c.0, c.1, c.2).cubes() == g.cubes().remove(c),
        g.without(c.0, c.1, c.2).cubes().finite(),
        g.without(c.0, c.1, c.2).count() == g.count() - 1,
        g.binary() ==> g.without(c.0, c.1, c.2).binary(),
{
    let h = g.without(c.0, c.1, c.2);
    lemma_offset_bounds(g.nx, g.ny, g.nz, c.0, c.1, c.2);
    lemma_coords_of_offset(g.nx, g.ny, g.nz, c.0, c.1, c.2);
    assert forall|p: (int, int, int)| #[trigger] h.has(p) <==> g.has(p) && p != c by {
        if g.inside(p.0, p.1, p.2) {
            lemma_offset_bounds(g.nx, g.ny, g.nz, p.0, p.1, p.2);
            lemma_coords_of_offset(g.nx, g.ny, g.nz, p.0, p.1, p.2);
        }
    }
    assert(h.cubes() =~= g.cubes().remove(c));
    assert(g.cubes().contains(c));
}

/// Cubes that hang together, two or more, have one among them that can be
/// taken away: the others still hang together, and one of them shares a face
/// with it.
pub proof fn lemma_removable(g: Grid)
    requires
        g.wf(),
        g.connected(),
        g.cubes().finite(),
        g.count() >= 2,
    ensures
        exists|c: (int, int, int), d: (int, int, int)|
            #![trigger g.has(c), g.has(d)]
            g.has(c) && g.has(d) && adjacent(c, d) && g.without(c.0, c.1, c.2).connected(),
{
    let root = g.cubes().choose();
    assert(g.cubes().contains(root));
    assert(g.has(root));
    let depth = |v: (int, int, int)| g.far(root, v);
    lemma_highest(g.cubes(), depth);
    let c = choose|c: (int, int, int)| #[trigger]
        g.cubes().contains(c) && forall|x: (int, int, int)|
            g.cubes().contains(x) ==> depth(x) <= depth(c);
    assert(g.has(c));
    // Some cube is not the root, and lies deeper than the root.
    let other = g.cubes().remove(root).choose();
    assert(g.cubes().remove(root).len() >= 1);
    assert(g.cubes().remove(root).contains(other));
    assert(g.has(other) && other != root);
    assert(g.linked(root, other));
    assert(g.linked(root, c));
    assert(g.linked(root, root));
    lemma_far(g, root, other);
    lemma_far(g, root, c);
    lemma_far(g, root, root);
    assert(g.linked_by(root, root, 1)) by {
        let stay = seq![root];
        assert(g.walk(stay) && stay[0] == root && stay.last() == root && stay.len() == 1);
    }
    assert(g.far(root, root) == 1);
    assert(depth(other) <= depth(c));
    assert(c != root);
    // The last step of a shortest walk to `c` comes from a neighbour.
    let down = choose|down: Seq<(int, int, int)>| #[trigger]
        g.walk(down) && down[0] == root && down.last() == c && down.len() == g.far(root, c);
    let d = down[down.len() - 2];
    assert(adjacent(down[down.len() - 2], down[down.len() - 2 + 1]));
    assert(g.has(d));
    // Every other cube is reached from the root without passing `c`.
    let h = g.without(c.0, c.1, c.2);
    lemma_without_cubes(g, c);
    assert forall|v: (int, int, int)| h.has(v) implies #[trigger] h.linked(root, v) by {
        assert(g.has(v) && v != c);
        assert(g.linked(root, v));
        lemma_far(g, root, v);
        let short = choose|short: Seq<(int, int, int)>| #[trigger]
            g.walk(short) && short[0] == root && short.last() == v && short.len() == g.far(
                root,
                v,
            );
        assert(g.cubes().contains(v));
        assert(depth(v) <= depth(c));
        assert forall|i: int| 0 <= i < short.len() implies h.has(#[trigger] short[i]) by {
            assert(g.has(short[i]));
            if short[i] == c {
                let head = short.take(i + 1);
                assert forall|j: int| 0 <= j < head.len() implies g.has(#[trigger] head[j]) by {
                    assert(g.has(short[j]));
                }
                assert forall|j: int| 0 <= j < head.len() - 1 implies adjacent(
                    #[trigger] head[j],
                    head[j + 1],
                ) by {
                    assert(adjacent(short[j], short[j + 1]));
                }
                assert(g.walk(head) && head[0] == root && head.last() == c && head.len() == i + 1);
                assert(g.linked_by(root, c, (i + 1) as nat));
                assert(i + 1 < short.len());
                assert(false);
            }
        }
        assert(h.walk(short) && short[0] == root && short.last() == v);
    }
    assert forall|a: (int, int, int), b: (int, int, int)| h.has(a) && h.has(b) implies #[trigger] h.linked(
        a,
        b,
    ) by {
        assert(h.linked(root, a));
        assert(h.linked(root, b));
        let pa = choose|path: Seq<(int, int, int)>| #[trigger]
            h.walk(path) && path[0] == root && path.last() == a;
        let pb = choose|path: Seq<(int, int, int)>| #[trigger]
            h.walk(path) && path[0] == root && path.last() == b;
        let back = Seq::new(pa.len(), |i: int| pa[pa.len() - 1 - i]);
        lemma_walk_back(h, pa);
        lemma_walk_on(h, back, pb);
        let all = back + pb.subrange(1, pb.len() as int);
        assert(h.walk(all) && all[0] == a && all.last() == b);
    }
    assert(g.has(c) && g.has(d) && adjacent(c, d) && h.connected());
}

} // verus!
