//! Stored generations as bytes.
use crate::array::Polycube;
use crate::expand::views;
use crate::grid::Grid;
use vstd::prelude::*;

verus! {

/// `bincode::ErrorKind`: why `bincode` could not read or write a value.
#[verifier::external_type_specification]
#[verifier::external_body]
pub struct ExBincodeErrorKind(bincode::ErrorKind);

/// `std::io::Error`: why a file could not be read or written.
#[verifier::external_type_specification]
#[verifier::external_body]
pub struct ExIoError(std::io::Error);

/// Why a stored generation could not be read or written.
#[derive(Debug)]
pub enum Error {
    /// The bytes are not a stored generation, or the shapes could not be
    /// turned into bytes.
    Bincode(Box<bincode::ErrorKind>),
    /// The file could not be read or written.
    Io(std::io::Error),
}

/// The list of arrays that `bincode::deserialize` reads from a byte string,
/// if it reads one.
pub uninterp spec fn decoded(bin: Seq<u8>) -> Option<Seq<Grid>>;

/// The byte string that `bincode::serialize` writes for a list of arrays, if
/// it writes one.
pub uninterp spec fn encoded(data: Seq<Grid>) -> Option<Seq<u8>>;

/// `bincode::deserialize`, asked for a list of three-dimensional byte arrays:
/// what it returns is fixed by the bytes alone.
#[verifier::external_body]
fn bincode_deserialize(bin: &[u8]) -> (r: Result<Vec<Polycube>, Box<bincode::ErrorKind>>)
    ensures
        r matches Ok(data) ==> decoded(bin@) == Some(views(data@)),
        r is Err ==> decoded(bin@) is None,
{
    let arrays: Vec<ndarray::Array3<u8>> = bincode::deserialize(bin)?;
    Ok(arrays.into_iter().map(|array| Polycube { array }).collect())
}

/// `bincode::serialize`, given a list of three-dimensional byte arrays: what
/// it returns is fixed by the axis lengths and the cells of the arrays.
#[verifier::external_body]
fn bincode_serialize(data: &Vec<Polycube>) -> (r: Result<Vec<u8>, Box<bincode::ErrorKind>>)
    ensures
        r matches Ok(bin) ==> encoded(views(data@)) == Some(bin@),
        r is Err ==> encoded(views(data@)) is None,
{
    let arrays: Vec<&ndarray::Array3<u8>> = data.iter().map(|p| &p.array).collect();
    bincode::serialize(&arrays)
}

/// Reads a stored generation from the bytes of its file. Bytes that are not
/// a stored generation give [`Error::Bincode`].
pub fn get_cache(bin: &[u8]) -> (r: Result<Vec<Polycube>, Error>)
    ensures
        r matches Ok(data) ==> decoded(bin@) == Some(views(data@)),
        r matches Err(e) ==> decoded(bin@) is None && e is Bincode,
{
    match bincode_deserialize(bin) {
        Ok(data) => Ok(data),
        Err(e) => Err(Error::Bincode(e)),
    }
}

/// Turns a generation into the bytes of its file. Shapes that cannot be
/// turned into bytes give [`Error::Bincode`].
pub fn save_cache(data: &Vec<Polycube>) -> (r: Result<Vec<u8>, Error>)
    ensures
        r matches Ok(bin) ==> encoded(views(data@)) == Some(bin@),
        r matches Err(e) ==> encoded(views(data@)) is None && e is Bincode,
{
    match bincode_serialize(data) {
        Ok(bin) => Ok(bin),
        Err(e) => Err(Error::Bincode(e)),
    }
}

} // verus!
