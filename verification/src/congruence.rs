//! Sameness of shape up to rotation.
use crate::crop::{lemma_crop_cells, lemma_crop_idempotent, lemma_crop_of_trimmed};
use crate::grid::Grid;
use crate::rotation::{
    lemma_crop_turned, lemma_inverse_proper, lemma_rotations_complete, lemma_rotations_proper,
    lemma_followed_by_proper, lemma_turn_back, lemma_turn_identity, lemma_turned, lemma_turned_twice,
    rotation, rotation_index,
};
use vstd::prelude::*;

verus! {

/// The image of a grid under the `r`-th rotation, cropped.
pub open spec fn image(g: Grid, r: int) -> Grid {
    g.turned(rotation(r)).crop()
}

/// Whether two grids hold the same shape up to rotation: one of the 24
/// cropped images of `a` is the cropped `b`.
pub open spec fn congruent(a: Grid, b: Grid) -> bool {
    exists|r: int| 0 <= r < 24 && #[trigger] image(a, r) == b.crop()
}

/// The number of the rotation that undoes the `r`-th.
pub open spec fn opposite(r: int) -> int {
    rotation_index(rotation(r).inverse())
}

/// The rotation that undoes one of the 24 is one of the 24.
pub proof fn lemma_opposite(r: int)
    requires
        0 <= r < 24,
    ensures
        0 <= opposite(r) < 24,
        rotation(opposite(r)) == rotation(r).inverse(),
{
    lemma_rotations_proper();
    lemma_inverse_proper(rotation(r));
    lemma_rotations_complete(rotation(r).inverse());
}

/// Taking the image under a rotation and then under the rotation that undoes
/// it gives the cropped grid back.
pub proof fn lemma_image_back(g: Grid, r: int)
    requires
        g.wf(),
        0 <= r < 24,
    ensures
        image(image(g, r), opposite(r)) == g.crop(),
{
    let t = rotation(r);
    let u = rotation(opposite(r));
    lemma_opposite(r);
    lemma_rotations_proper();
    lemma_inverse_proper(t);
    lemma_crop_turned(g, t);
    lemma_crop_cells(g);
    let c = g.crop();
    lemma_turned(c, t);
    lemma_crop_turned(c.turned(t), u);
    lemma_turn_back(c, t);
    lemma_crop_idempotent(g);
    assert(image(g, r) == c.turned(t));
    assert(image(c.turned(t), opposite(r)) == c.turned(t).turned(u).crop());
}

/// Every grid holds the same shape as itself.
pub proof fn lemma_congruent_reflexive(g: Grid)
    requires
        g.wf(),
    ensures
        congruent(g, g),
{
    lemma_rotations_proper();
    lemma_turn_identity(g);
    assert(image(g, 0) == g.crop());
}

/// If `a` holds the same shape as `b`, then `b` holds the same shape as `a`.
pub proof fn lemma_congruent_symmetric(a: Grid, b: Grid)
    requires
        a.wf(),
        b.wf(),
        congruent(a, b),
    ensures
        congruent(b, a),
{
    let r = choose|r: int| 0 <= r < 24 && #[trigger] image(a, r) == b.crop();
    let s = opposite(r);
    lemma_opposite(r);
    lemma_rotations_proper();
    lemma_image_back(a, r);
    lemma_crop_turned(b, rotation(s));
    lemma_crop_cells(b);
    lemma_crop_turned(b.crop(), rotation(s));
    lemma_crop_idempotent(b);
    assert(image(b, s) == b.crop().turned(rotation(s)));
    assert(image(b.crop(), s) == b.crop().crop().turned(rotation(s)));
    assert(image(b, s) == image(image(a, r), s));
    assert(image(b, s) == a.crop());
}

/// If `a` holds the same shape as `b`, and `b` the same as `c`, then `a`
/// holds the same shape as `c`.
pub proof fn lemma_congruent_transitive(a: Grid, b: Grid, c: Grid)
    requires
        a.wf(),
        b.wf(),
        congruent(a, b),
        congruent(b, c),
    ensures
        congruent(a, c),
{
    let r = choose|r: int| 0 <= r < 24 && #[trigger] image(a, r) == b.crop();
    let q = choose|q: int| 0 <= q < 24 && #[trigger] image(b, q) == c.crop();
    let s = rotation(r);
    let t = rotation(q);
    let u = s.followed_by(t);
    lemma_rotations_proper();
    lemma_followed_by_proper(s, t);
    lemma_rotations_complete(u);
    let k = rotation_index(u);
    lemma_turned(a, s);
    lemma_crop_turned(b, t);
    lemma_crop_turned(a.turned(s), t);
    lemma_turned_twice(a, s, t);
    assert(image(b, q) == b.crop().turned(t));
    assert(b.crop().turned(t) == a.turned(s).turned(t).crop());
    assert(image(a, k) == c.crop());
}

/// A grid that is its own bounding box is the image, under the rotation that
/// undoes the `r`-th, of its own `r`-th image.
pub proof fn lemma_image_of_trimmed(g: Grid, r: int)
    requires
        g.trimmed(),
        0 <= r < 24,
    ensures
        image(g, 0) == g,
        image(image(g, r), opposite(r)) == g,
{
    lemma_crop_of_trimmed(g);
    lemma_turn_identity(g);
    lemma_rotations_proper();
    lemma_image_back(g, r);
}

} // verus!
