//! Polycubes as arrays of the `ndarray` crate, and what is assumed of them.
use crate::grid::{fits, Grid};
use vstd::prelude::*;

verus! {

/// A polycube as the rest of the world holds it: a dense three-dimensional
/// byte array of the `ndarray` crate, in which a cell of value `1` is part of
/// the shape. The array itself is hidden from the verifier; what it holds is
/// spoken of through [`cells`] and [`extents`].
#[verifier::external_body]
#[derive(Debug)]
pub struct Polycube {
    pub(crate) array: ndarray::Array3<u8>,
}

/// The elements of the array in its logical order: the last index runs fastest.
pub uninterp spec fn cells(p: Polycube) -> Seq<u8>;

/// The lengths of the three axes of the array.
pub uninterp spec fn extents(p: Polycube) -> (nat, nat, nat);

impl View for Polycube {
    type V = Grid;

    open spec fn view(&self) -> Grid {
        Grid { nx: extents(*self).0, ny: extents(*self).1, nz: extents(*self).2, cells: cells(*self) }
    }
}

/// `ArrayBase::dim`: the axis lengths of the array. Every array that `ndarray`
/// hands out keeps the product of its non-zero axis lengths within
/// `isize::MAX`; its constructors refuse any other shape.
#[verifier::external_body]
pub(crate) fn array_dim(p: &Polycube) -> (d: (usize, usize, usize))
    ensures
        extents(*p) == (d.0 as nat, d.1 as nat, d.2 as nat),
        fits(d.0 as nat, d.1 as nat, d.2 as nat),
{
    p.array.dim()
}

/// `ArrayBase::iter`, collected: the elements in logical order, one for each
/// index triple within the axis lengths.
#[verifier::external_body]
pub(crate) fn array_iter(p: &Polycube) -> (v: Vec<u8>)
    ensures
        v@ == cells(*p),
        v@.len() == extents(*p).0 * extents(*p).1 * extents(*p).2,
{
    p.array.iter().copied().collect()
}

/// `ArrayBase::from_shape_vec` with a plain shape: it succeeds exactly when
/// the vector holds one element per index triple and the product of the
/// non-zero axis lengths is within `isize::MAX`; the array then holds the
/// vector's elements in logical order.
#[verifier::external_body]
pub(crate) fn array_from_shape_vec(nx: usize, ny: usize, nz: usize, v: Vec<u8>) -> (r: Option<
    Polycube,
>)
    ensures
        r is Some <==> (v@.len() == nx * ny * nz && fits(nx as nat, ny as nat, nz as nat)),
        r matches Some(p) ==> extents(p) == (nx as nat, ny as nat, nz as nat) && cells(p) == v@,
{
    ndarray::Array3::from_shape_vec((nx, ny, nz), v).ok().map(|array| Polycube { array })
}

/// `ArrayBase::ones`: an array of the given shape whose every element is `1`.
/// It panics where the product of the non-zero axis lengths exceeds `isize::MAX`.
#[verifier::external_body]
pub(crate) fn array_ones(nx: usize, ny: usize, nz: usize) -> (p: Polycube)
    requires
        fits(nx as nat, ny as nat, nz as nat),
    ensures
        extents(p) == (nx as nat, ny as nat, nz as nat),
        cells(p) == Seq::new((nx * ny * nz) as nat, |i: int| 1u8),
{
    Polycube { array: ndarray::Array3::ones((nx, ny, nz)) }
}

/// Decides whether an array of these axis lengths can exist.
pub fn shape_fits(nx: usize, ny: usize, nz: usize) -> (b: bool)
    ensures
        b == fits(nx as nat, ny as nat, nz as nat),
{
    let a: usize = if nx == 0 { 1 } else { nx };
    let b: usize = if ny == 0 { 1 } else { ny };
    let c: usize = if nz == 0 { 1 } else { nz };
    let limit: usize = isize::MAX as usize;
    match a.checked_mul(b) {
        None => {
            assert(a * b * c >= a * b) by (nonlinear_arith)
                requires
                    c >= 1,
                    a >= 0,
                    b >= 0,
            ;
            false
        },
        Some(ab) => match ab.checked_mul(c) {
            None => false,
            Some(abc) => abc <= limit,
        },
    }
}

impl Polycube {
    /// The lengths of the three axes.
    pub fn dim(&self) -> (d: (usize, usize, usize))
        ensures
            d.0 == self@.nx,
            d.1 == self@.ny,
            d.2 == self@.nz,
            fits(self@.nx, self@.ny, self@.nz),
    {
        array_dim(self)
    }

    /// The cells, row by row, the last axis running fastest.
    pub fn to_vec(&self) -> (v: Vec<u8>)
        ensures
            v@ == self@.cells,
            self@.wf(),
    {
        array_iter(self)
    }

    /// The fully occupied block of the given axis lengths, if such an array can exist.
    pub fn ones(nx: usize, ny: usize, nz: usize) -> (r: Option<Polycube>)
        ensures
            r is Some <==> fits(nx as nat, ny as nat, nz as nat),
            r matches Some(p) ==> p@ == Grid::solid(nx as nat, ny as nat, nz as nat),
    {
        if shape_fits(nx, ny, nz) {
            let p = array_ones(nx, ny, nz);
            assert(p@.cells =~= Grid::solid(nx as nat, ny as nat, nz as nat).cells);
            Some(p)
        } else {
            None
        }
    }

    /// The array of the given axis lengths that holds `cells` row by row, the
    /// last axis running fastest. There is none where the number of cells is
    /// not the product of the axis lengths, or where no array of that shape
    /// can exist.
    pub fn from_shape_vec(nx: usize, ny: usize, nz: usize, cells: Vec<u8>) -> (r: Option<Polycube>)
        ensures
            r is Some <==> (cells@.len() == nx * ny * nz && fits(nx as nat, ny as nat, nz as nat)),
            r matches Some(p) ==> p@ == (Grid {
                nx: nx as nat,
                ny: ny as nat,
                nz: nz as nat,
                cells: cells@,
            }),
    {
        array_from_shape_vec(nx, ny, nz, cells)
    }
}

} // verus!
