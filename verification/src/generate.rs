//! The generations of polycubes, each built from the one before.
use crate::array::Polycube;
use crate::complete::lemma_generation_complete;
use crate::congruence::{congruent, image, lemma_congruent_reflexive, lemma_congruent_symmetric};
use crate::crop::{lemma_crop_of_trimmed, lemma_crop_cells};
use crate::dedup::{cube_exists_rle, known};
use crate::expand::{expand_cube, lemma_crop_within, lemma_expand_members, views};
use crate::fingerprint_set::FingerprintSet;
use crate::grid::{
    coords, fits, lemma_offset_bounds, lemma_offset_of_coords, lemma_span_monotonic, pick, span,
    Grid,
};
use crate::polycube::{lemma_expand_polycubes, lemma_solid_polycube};
use crate::rle::{fingerprint, lemma_fingerprint_injective, rle};
use crate::rotation::{lemma_rotations_proper, lemma_turned, rotation};
use vstd::prelude::*;

verus! {

/// The fingerprints of a sequence of grids.
pub open spec fn prints(shapes: Seq<Grid>) -> Set<Seq<int>> {
    Set::new(
        |f: Seq<int>| exists|i: int| 0 <= i < shapes.len() && #[trigger] fingerprint(shapes[i]) == f,
    )
}

/// The candidates in the order given, without those whose shape is known
/// from a candidate kept before.
pub open spec fn distinct(candidates: Seq<Grid>) -> Seq<Grid>
    decreases candidates.len(),
{
    if candidates.len() == 0 {
        Seq::empty()
    } else {
        let kept = distinct(candidates.drop_last());
        if known(candidates.last(), prints(kept)) {
            kept
        } else {
            kept.push(candidates.last())
        }
    }
}

/// The candidates of every base shape, base shape after base shape.
pub open spec fn offspring(base: Seq<Grid>) -> Seq<Grid>
    decreases base.len(),
{
    if base.len() == 0 {
        Seq::empty()
    } else {
        offspring(base.drop_last()) + base.last().expand()
    }
}

/// The generation that follows `base`: the candidates of its shapes, one for
/// each shape up to rotation, in the orientation in which it came first.
pub open spec fn successors(base: Seq<Grid>) -> Seq<Grid> {
    distinct(offspring(base))
}

/// The polycubes of `n` cubes. There is none of no cubes, the single cube is
/// the one of one, two cubes side by side are the one of two, and each
/// generation after that follows from the one before.
pub open spec fn generation(n: nat) -> Seq<Grid>
    decreases n,
{
    if n == 0 {
        Seq::empty()
    } else if n == 1 {
        seq![Grid::solid(1, 1, 1)]
    } else if n == 2 {
        seq![Grid::solid(2, 1, 1)]
    } else {
        successors(generation((n - 1) as nat))
    }
}

/// Whether a grid is a shape as the generations hold them: its own bounding
/// box, made of `0` and `1`, and no longer than `bound` along any axis.
pub open spec fn shapely(g: Grid, bound: nat) -> bool {
    g.trimmed() && g.binary() && g.nx <= bound && g.ny <= bound && g.nz <= bound
}

/// Keeping one more grid adds its fingerprint.
pub proof fn lemma_prints_push(kept: Seq<Grid>, g: Grid)
    ensures
        prints(kept.push(g)) == prints(kept).insert(fingerprint(g)),
{
    let more = kept.push(g);
    assert forall|f: Seq<int>| prints(more).contains(f) <==> prints(kept).insert(
        fingerprint(g),
    ).contains(f) by {
        if prints(more).contains(f) {
            let i = choose|i: int| 0 <= i < more.len() && #[trigger] fingerprint(more[i]) == f;
            if i < kept.len() {
                assert(fingerprint(kept[i]) == f);
            }
        }
        if prints(kept).contains(f) {
            let i = choose|i: int| 0 <= i < kept.len() && #[trigger] fingerprint(kept[i]) == f;
            assert(fingerprint(more[i]) == f);
        }
        if f == fingerprint(g) {
            assert(fingerprint(more[kept.len() as int]) == f);
        }
    }
    assert(prints(more) =~= prints(kept).insert(fingerprint(g)));
}

/// Every grid that is kept is one of the candidates.
pub proof fn lemma_distinct_members(candidates: Seq<Grid>, i: int)
    requires
        0 <= i < distinct(candidates).len(),
    ensures
        exists|j: int| 0 <= j < candidates.len() && #[trigger] candidates[j] == distinct(candidates)[i],
    decreases candidates.len(),
{
    let kept = distinct(candidates.drop_last());
    if i < kept.len() {
        lemma_distinct_members(candidates.drop_last(), i);
        let j = choose|j: int|
            0 <= j < candidates.drop_last().len() && #[trigger] candidates.drop_last()[j] == kept[i];
        assert(candidates[j] == distinct(candidates)[i]);
    } else {
        assert(candidates[candidates.len() - 1] == distinct(candidates)[i]);
    }
}

/// Every candidate is a candidate of one of the base shapes.
pub proof fn lemma_offspring_members(base: Seq<Grid>, j: int)
    requires
        0 <= j < offspring(base).len(),
    ensures
        exists|b: int, c: int|
            0 <= b < base.len() && 0 <= c < base[b].expand().len() && #[trigger] base[b].expand()[c]
                == offspring(base)[j],
    decreases base.len(),
{
    let before = offspring(base.drop_last());
    if j < before.len() {
        lemma_offspring_members(base.drop_last(), j);
        let (b, c) = choose|b: int, c: int|
            0 <= b < base.drop_last().len() && 0 <= c < base.drop_last()[b].expand().len()
                && #[trigger] base.drop_last()[b].expand()[c] == before[j];
        assert(base[b].expand()[c] == offspring(base)[j]);
    } else {
        let b = base.len() - 1;
        assert(base[b].expand()[j - before.len()] == offspring(base)[j]);
    }
}

/// The shapes that follow a generation of shapes are shapes, at most two
/// longer along any axis.
pub proof fn lemma_successors_members(base: Seq<Grid>, bound: nat, i: int)
    requires
        forall|b: int| 0 <= b < base.len() ==> shapely(#[trigger] base[b], bound),
        0 <= i < successors(base).len(),
    ensures
        shapely(successors(base)[i], bound + 2),
{
    lemma_distinct_members(offspring(base), i);
    let j = choose|j: int|
        0 <= j < offspring(base).len() && #[trigger] offspring(base)[j] == successors(base)[i];
    lemma_offspring_members(base, j);
    let (b, c) = choose|b: int, c: int|
        0 <= b < base.len() && 0 <= c < base[b].expand().len() && #[trigger] base[b].expand()[c]
            == offspring(base)[j];
    assert(shapely(base[b], bound));
    lemma_expand_members(base[b], c);
}

/// A block of occupied cells is its own bounding box.
pub proof fn lemma_solid(nx: nat, ny: nat, nz: nat)
    requires
        nx > 0,
        ny > 0,
        nz > 0,
    ensures
        Grid::solid(nx, ny, nz).trimmed(),
        Grid::solid(nx, ny, nz).binary(),
{
    let g = Grid::solid(nx, ny, nz);
    lemma_offset_bounds(nx, ny, nz, 0, 0, 0);
    lemma_offset_bounds(nx, ny, nz, nx - 1, ny - 1, nz - 1);
    assert(g.filled(0, 0, 0));
    assert(g.filled(nx - 1, ny - 1, nz - 1));
    assert forall|axis: int| 0 <= axis < 3 implies #[trigger] g.slab_filled(axis, 0)
        && g.slab_filled(axis, g.extent(axis) - 1) by {
        assert(g.filled(0, 0, 0) && pick(axis, 0, 0, 0) == 0);
        assert(g.filled(nx - 1, ny - 1, nz - 1) && pick(axis, nx - 1, ny - 1, nz - 1)
            == g.extent(axis) - 1);
    }
}

/// Every member of a generation is a shape, at most twice as long along any
/// axis as it has cubes.
pub proof fn lemma_generation_members(n: nat, i: int)
    requires
        0 <= i < generation(n).len(),
    ensures
        shapely(generation(n)[i], 2 * n),
    decreases n,
{
    if n == 1 {
        lemma_solid(1, 1, 1);
    } else if n == 2 {
        lemma_solid(2, 1, 1);
    } else if n > 2 {
        let base = generation((n - 1) as nat);
        assert forall|b: int| 0 <= b < base.len() implies shapely(
            #[trigger] base[b],
            (2 * (n - 1)) as nat,
        ) by {
            lemma_generation_members((n - 1) as nat, b);
        }
        lemma_successors_members(base, (2 * (n - 1)) as nat, i);
    }
}

/// Every member of the generation of `n` cubes is a polycube of `n` cubes.
pub proof fn lemma_generation_polycubes(n: nat, i: int)
    requires
        0 <= i < generation(n).len(),
    ensures
        generation(n)[i].polycube(n),
    decreases n,
{
    lemma_generation_members(n, i);
    if n == 1 || n == 2 {
        lemma_solid_polycube(n);
    } else if n > 2 {
        let base = generation((n - 1) as nat);
        lemma_distinct_members(offspring(base), i);
        let j = choose|j: int|
            0 <= j < offspring(base).len() && #[trigger] offspring(base)[j] == generation(n)[i];
        lemma_offspring_members(base, j);
        let (b, c) = choose|b: int, c: int|
            0 <= b < base.len() && 0 <= c < base[b].expand().len() && #[trigger] base[b].expand()[c]
                == offspring(base)[j];
        lemma_generation_polycubes((n - 1) as nat, b);
        lemma_expand_polycubes(base[b], (n - 1) as nat, c);
    }
}

/// Every generation of at most 255 cubes can grow.
pub proof fn lemma_generation_roomy(n: nat)
    requires
        n <= 255,
    ensures
        roomy(generation(n)),
{
    assert forall|i: int| 0 <= i < generation(n).len() implies fits(
        (#[trigger] generation(n)[i]).nx + 2,
        generation(n)[i].ny + 2,
        generation(n)[i].nz + 2,
    ) by {
        lemma_generation_members(n, i);
        let g = generation(n)[i];
        assert(span(512, 512, 512) == 134217728) by (nonlinear_arith)
            requires
                span(512, 512, 512) == 512 * 512 * 512,
        ;
        lemma_span_monotonic(g.nx + 2, g.ny + 2, g.nz + 2, 512, 512, 512);
    }
}

/// No two of the grids that are kept hold the same shape up to rotation.
pub proof fn lemma_distinct_pairwise(candidates: Seq<Grid>, i: int, j: int)
    requires
        forall|k: int| 0 <= k < candidates.len() ==> (#[trigger] candidates[k]).trimmed(),
        0 <= i < j < distinct(candidates).len(),
    ensures
        !congruent(distinct(candidates)[i], distinct(candidates)[j]),
        !congruent(distinct(candidates)[j], distinct(candidates)[i]),
    decreases candidates.len(),
{
    let kept = distinct(candidates.drop_last());
    let last = candidates.last();
    if j < kept.len() {
        assert forall|k: int| 0 <= k < candidates.drop_last().len() implies (
        #[trigger] candidates.drop_last()[k]).trimmed() by {
            assert(candidates[k].trimmed());
        }
        lemma_distinct_pairwise(candidates.drop_last(), i, j);
    } else {
        assert(distinct(candidates) == kept.push(last));
        assert(!known(last, prints(kept)));
        lemma_distinct_members(candidates.drop_last(), i);
        let m = choose|m: int|
            0 <= m < candidates.drop_last().len() && #[trigger] candidates.drop_last()[m] == kept[i];
        assert(candidates[m].trimmed());
        assert(candidates[candidates.len() - 1].trimmed());
        lemma_crop_of_trimmed(kept[i]);
        if congruent(kept[i], last) {
            lemma_congruent_symmetric(kept[i], last);
        }
        if congruent(last, kept[i]) {
            let r = choose|r: int| 0 <= r < 24 && #[trigger] image(last, r) == kept[i].crop();
            assert(fingerprint(kept[i]) == fingerprint(image(last, r)));
            assert(prints(kept).contains(fingerprint(image(last, r))));
            assert(false);
        }
    }
}

/// The images of a grid of `0` and `1` are grids of `0` and `1`.
pub proof fn lemma_image_binary(g: Grid, r: int)
    requires
        g.wf(),
        g.binary(),
        0 <= r < 24,
    ensures
        image(g, r).binary(),
        image(g, r).wf(),
{
    let t = rotation(r);
    let h = g.turned(t);
    lemma_rotations_proper();
    lemma_turned(g, t);
    assert forall|i: int| 0 <= i < h.cells.len() implies #[trigger] h.cells[i] <= 1 by {
        lemma_offset_of_coords(h.nx, h.ny, h.nz, i);
        let c = coords(h.ny, h.nz, i);
        assert(h.inside(c.0, c.1, c.2));
        assert(h.cells[i] == h.at(c.0, c.1, c.2));
        let s = t.source(g, c.0, c.1, c.2);
        lemma_offset_bounds(g.nx, g.ny, g.nz, s.0, s.1, s.2);
    }
    lemma_crop_within(h);
    lemma_crop_cells(h);
}

/// Every candidate holds the same shape as one of the grids that are kept.
pub proof fn lemma_distinct_covers(candidates: Seq<Grid>, k: int)
    requires
        forall|m: int|
            0 <= m < candidates.len() ==> (#[trigger] candidates[m]).trimmed() && candidates[m].binary(),
        0 <= k < candidates.len(),
    ensures
        exists|i: int|
            0 <= i < distinct(candidates).len() && congruent(
                candidates[k],
                #[trigger] distinct(candidates)[i],
            ),
    decreases candidates.len(),
{
    let kept = distinct(candidates.drop_last());
    let last = candidates.last();
    let all = distinct(candidates);
    assert forall|m: int| 0 <= m < candidates.drop_last().len() implies (
    #[trigger] candidates.drop_last()[m]).trimmed() && candidates.drop_last()[m].binary() by {
        assert(candidates[m].trimmed());
    }
    if k < candidates.len() - 1 {
        lemma_distinct_covers(candidates.drop_last(), k);
        let i = choose|i: int|
            0 <= i < kept.len() && congruent(candidates.drop_last()[k], #[trigger] kept[i]);
        assert(all[i] == kept[i]);
        assert(congruent(candidates[k], all[i]));
    } else {
        assert(candidates[k] == last);
        assert(last.trimmed() && last.binary());
        if known(last, prints(kept)) {
            let r = choose|r: int|
                0 <= r < 24 && prints(kept).contains(#[trigger] fingerprint(image(last, r)));
            let i = choose|i: int|
                0 <= i < kept.len() && #[trigger] fingerprint(kept[i]) == fingerprint(
                    image(last, r),
                );
            lemma_distinct_members(candidates.drop_last(), i);
            let m = choose|m: int|
                0 <= m < candidates.drop_last().len() && #[trigger] candidates.drop_last()[m]
                    == kept[i];
            assert(candidates[m].trimmed() && candidates[m].binary());
            lemma_image_binary(last, r);
            lemma_fingerprint_injective(kept[i], image(last, r));
            lemma_crop_of_trimmed(kept[i]);
            assert(image(last, r) == kept[i].crop());
            assert(congruent(last, all[i]));
        } else {
            lemma_congruent_reflexive(last);
            assert(all[kept.len() as int] == last);
            assert(congruent(last, all[kept.len() as int]));
        }
    }
}

/// No two members of a generation hold the same shape up to rotation.
pub proof fn lemma_generation_pairwise(n: nat, i: int, j: int)
    requires
        0 <= i < j < generation(n).len(),
    ensures
        !congruent(generation(n)[i], generation(n)[j]),
        !congruent(generation(n)[j], generation(n)[i]),
{
    if n > 2 {
        let base = generation((n - 1) as nat);
        let candidates = offspring(base);
        assert forall|k: int| 0 <= k < candidates.len() implies (#[trigger] candidates[k]).trimmed() by {
            lemma_offspring_members(base, k);
            let (b, c) = choose|b: int, c: int|
                0 <= b < base.len() && 0 <= c < base[b].expand().len() && #[trigger] base[b].expand()[c]
                    == candidates[k];
            lemma_generation_members((n - 1) as nat, b);
            lemma_expand_members(base[b], c);
        }
        lemma_distinct_pairwise(candidates, i, j);
    }
}

/// Every shape that comes of attaching one cube to a member of a generation
/// holds the same shape as a member of the generation that follows.
pub proof fn lemma_generation_covers(n: nat, b: int, c: int)
    requires
        n >= 2,
        0 <= b < generation(n).len(),
        0 <= c < generation(n)[b].expand().len(),
    ensures
        exists|i: int|
            0 <= i < generation(n + 1).len() && congruent(
                generation(n)[b].expand()[c],
                #[trigger] generation(n + 1)[i],
            ),
{
    let base = generation(n);
    let candidates = offspring(base);
    assert forall|k: int| 0 <= k < candidates.len() implies (#[trigger] candidates[k]).trimmed()
        && candidates[k].binary() by {
        lemma_offspring_members(base, k);
        let (p, q) = choose|p: int, q: int|
            0 <= p < base.len() && 0 <= q < base[p].expand().len() && #[trigger] base[p].expand()[q]
                == candidates[k];
        lemma_generation_members(n, p);
        lemma_expand_members(base[p], q);
    }
    lemma_offspring_place(base, b, c);
    let k = choose|k: int|
        0 <= k < candidates.len() && #[trigger] candidates[k] == base[b].expand()[c];
    lemma_distinct_covers(candidates, k);
    assert((n + 1 - 1) as nat == n);
    assert(generation(n + 1) == distinct(candidates));
    let i = choose|i: int|
        0 <= i < distinct(candidates).len() && congruent(
            candidates[k],
            #[trigger] distinct(candidates)[i],
        );
    assert(congruent(base[b].expand()[c], generation(n + 1)[i]));
}

/// Every candidate of a base shape is among the candidates of all base shapes.
pub proof fn lemma_offspring_place(base: Seq<Grid>, b: int, c: int)
    requires
        0 <= b < base.len(),
        0 <= c < base[b].expand().len(),
    ensures
        exists|k: int|
            0 <= k < offspring(base).len() && #[trigger] offspring(base)[k] == base[b].expand()[c],
    decreases base.len(),
{
    let before = offspring(base.drop_last());
    if b < base.len() - 1 {
        lemma_offspring_place(base.drop_last(), b, c);
        let k = choose|k: int|
            0 <= k < before.len() && #[trigger] before[k] == base.drop_last()[b].expand()[c];
        assert(offspring(base)[k] == base[b].expand()[c]);
    } else {
        assert(offspring(base)[before.len() + c] == base[b].expand()[c]);
    }
}

/// Whether the generation after these shapes can be built: each of them,
/// with a layer of cells around it, is an array that can exist.
pub open spec fn roomy(shapes: Seq<Grid>) -> bool {
    forall|i: int|
        0 <= i < shapes.len() ==> fits(
            (#[trigger] shapes[i]).nx + 2,
            shapes[i].ny + 2,
            shapes[i].nz + 2,
        )
}

/// Builds the generation that follows `base`: every candidate of every base
/// shape, in order, is kept unless its shape is known from one kept before.
pub fn next_generation(base: &Vec<Polycube>) -> (polycubes: Vec<Polycube>)
    requires
        roomy(views(base@)),
    ensures
        views(polycubes@) == successors(views(base@)),
{
    let mut polycubes: Vec<Polycube> = Vec::new();
    let mut polycubes_rle = FingerprintSet::new();
    let mut idx: usize = 0;
    proof {
        assert(views(base@).take(0) =~= Seq::<Grid>::empty());
        assert(views(polycubes@) =~= Seq::<Grid>::empty());
        assert(prints(Seq::<Grid>::empty()) =~= Set::<Seq<int>>::empty());
    }
    while idx < base.len()
        invariant
            idx <= base@.len(),
            roomy(views(base@)),
            polycubes_rle.wf(),
            polycubes_rle@ == prints(views(polycubes@)),
            views(polycubes@) == distinct(offspring(views(base@).take(idx as int))),
        decreases base@.len() - idx,
    {
        proof {
            assert(views(base@)[idx as int] == base@[idx as int]@);
        }
        let candidates = expand_cube(&base[idx]);
        let ghost done = offspring(views(base@).take(idx as int));
        let ghost fresh = views(candidates@);
        proof {
            assert(done + fresh.take(0) =~= done);
        }
        for new_cube in it: candidates.into_iter()
            invariant
                views(it.seq()) == fresh,
                polycubes_rle.wf(),
                polycubes_rle@ == prints(views(polycubes@)),
                views(polycubes@) == distinct(done + fresh.take(it.index())),
        {
            let ghost kept = views(polycubes@);
            let ghost upto = it.index();
            proof {
                assert(new_cube@ == fresh[upto]);
                assert((done + fresh.take(upto + 1)).drop_last() =~= done + fresh.take(upto));
                assert((done + fresh.take(upto + 1)).last() == new_cube@);
            }
            if !cube_exists_rle(&new_cube, &polycubes_rle) {
                polycubes_rle.insert(rle(&new_cube));
                polycubes.push(new_cube);
                proof {
                    assert(views(polycubes@) =~= kept.push(new_cube@));
                    lemma_prints_push(kept, new_cube@);
                }
            }
        }
        proof {
            let upto = views(base@).take(idx + 1);
            assert(fresh.take(fresh.len() as int) =~= fresh);
            assert(upto.drop_last() =~= views(base@).take(idx as int));
            assert(upto.last() == base@[idx as int]@);
        }
        idx += 1;
    }
    proof {
        assert(views(base@).take(base@.len() as int) =~= views(base@));
    }
    polycubes
}

/// Generates all polycubes of `number` cubes: every shape that `number` unit
/// cubes joined face to face can make, each once up to rotation. Mirror
/// images that no rotation joins count as two. Each generation is built from
/// the one before.
pub fn generate_polycubes(number: u8) -> (polycubes: Vec<Polycube>)
    ensures
        views(polycubes@) == generation(number as nat),
        forall|i: int| 0 <= i < polycubes@.len() ==> (#[trigger] polycubes@[i])@.polycube(number as nat),
        forall|i: int, j: int|
            0 <= i < j < polycubes@.len() ==> !congruent(
                (#[trigger] polycubes@[i])@,
                (#[trigger] polycubes@[j])@,
            ),
        forall|s: Grid| #[trigger]
            s.polycube(number as nat) && number >= 1 ==> exists|i: int|
                0 <= i < polycubes@.len() && congruent(s, (#[trigger] polycubes@[i])@),
{
    let polycubes = generation_of(number);
    proof {
        assert forall|s: Grid| #[trigger] s.polycube(number as nat) && number >= 1 implies exists|
            i: int,
        | 0 <= i < polycubes@.len() && congruent(s, (#[trigger] polycubes@[i])@) by {
            lemma_generation_complete(number as nat, s);
            let i = choose|i: int|
                0 <= i < generation(number as nat).len() && congruent(
                    s,
                    #[trigger] generation(number as nat)[i],
                );
            assert(views(polycubes@)[i] == polycubes@[i]@);
        }
        assert forall|i: int| 0 <= i < polycubes@.len() implies (#[trigger] polycubes@[i])@.polycube(
            number as nat,
        ) by {
            assert(views(polycubes@)[i] == polycubes@[i]@);
            lemma_generation_polycubes(number as nat, i);
        }
        assert forall|i: int, j: int| 0 <= i < j < polycubes@.len() implies !congruent(
            (#[trigger] polycubes@[i])@,
            (#[trigger] polycubes@[j])@,
        ) by {
            assert(views(polycubes@)[i] == polycubes@[i]@);
            assert(views(polycubes@)[j] == polycubes@[j]@);
            lemma_generation_pairwise(number as nat, i, j);
        }
    }
    polycubes
}

/// Builds the generation of `number` cubes, generation by generation.
fn generation_of(number: u8) -> (polycubes: Vec<Polycube>)
    ensures
        views(polycubes@) == generation(number as nat),
{
    let mut polycubes: Vec<Polycube> = Vec::new();
    if number < 1 {
        assert(views(polycubes@) =~= generation(0));
        return polycubes;
    }
    proof {
        assert(span(1, 1, 1) == 1 && span(2, 1, 1) == 2) by (nonlinear_arith)
            requires
                span(1, 1, 1) == 1 * 1 * 1,
                span(2, 1, 1) == 2 * 1 * 1,
        ;
    }
    if number == 1 {
        polycubes.push(Polycube::ones(1, 1, 1).unwrap());
        assert(views(polycubes@) =~= generation(1));
        return polycubes;
    }
    polycubes.push(Polycube::ones(2, 1, 1).unwrap());
    assert(views(polycubes@) =~= generation(2));
    let mut n: u8 = 2;
    while n < number
        invariant
            2 <= n <= number,
            views(polycubes@) == generation(n as nat),
        decreases number - n,
    {
        proof {
            lemma_generation_roomy(n as nat);
        }
        polycubes = next_generation(&polycubes);
        n += 1;
    }
    polycubes
}

} // verus!
