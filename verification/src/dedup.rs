//! Deciding whether a shape has been seen before.
use crate::array::Polycube;
use crate::congruence::{image, lemma_image_of_trimmed, lemma_opposite, opposite};
use crate::crop::crop_cube;
use crate::fingerprint_set::FingerprintSet;
use crate::grid::Grid;
use crate::rle::{fingerprint, rle};
use crate::rotation::{all_rotations, rotation};
use vstd::prelude::*;

verus! {

/// Whether the shape of `g` is known to a set of fingerprints: the
/// fingerprint of one of its 24 cropped images is in the set.
pub open spec fn known(g: Grid, prints: Set<Seq<int>>) -> bool {
    exists|r: int| 0 <= r < 24 && prints.contains(#[trigger] fingerprint(image(g, r)))
}

/// A grid that is its own bounding box is known to the set that holds just
/// its fingerprint, and so is each of its 24 cropped images.
pub proof fn lemma_known_by_own_fingerprint(g: Grid, r: int)
    requires
        g.trimmed(),
        0 <= r < 24,
    ensures
        known(g, set![fingerprint(g)]),
        known(image(g, r), set![fingerprint(g)]),
{
    lemma_image_of_trimmed(g, r);
    lemma_opposite(r);
    let prints = set![fingerprint(g)];
    assert(prints.contains(fingerprint(image(g, 0))));
    assert(prints.contains(fingerprint(image(image(g, r), opposite(r)))));
}

/// Every grid is known to the set that holds just the fingerprint of one of
/// its 24 cropped images.
pub proof fn lemma_known_by_image(g: Grid, r: int)
    requires
        0 <= r < 24,
    ensures
        known(g, set![fingerprint(image(g, r))]),
{
    assert(set![fingerprint(image(g, r))].contains(fingerprint(image(g, r))));
}

/// Decides whether the shape of a polycube has been seen before: whether the
/// fingerprint of one of its 24 cropped rotations is in `polycubes_rle`.
pub fn cube_exists_rle(polycube: &Polycube, polycubes_rle: &FingerprintSet) -> (seen: bool)
    requires
        polycubes_rle.wf(),
    ensures
        seen == known(polycube@, polycubes_rle@),
{
    let rotations = all_rotations(polycube);
    let mut r: usize = 0;
    while r < 24
        invariant
            r <= 24,
            polycubes_rle.wf(),
            rotations@.len() == 24,
            forall|i: int| 0 <= i < 24 ==> (#[trigger] rotations@[i])@ == polycube@.turned(
                rotation(i),
            ),
            forall|i: int| 0 <= i < r ==> !polycubes_rle@.contains(#[trigger] fingerprint(image(polycube@, i))),
        decreases 24 - r,
    {
        let f = rle(&crop_cube(&rotations[r]));
        if polycubes_rle.contains(&f) {
            assert(polycubes_rle@.contains(fingerprint(image(polycube@, r as int))));
            return true;
        }
        r += 1;
    }
    false
}

} // verus!
