//! Enumerates the polycubes of a given number of cubes: the shapes that unit
//! cubes joined face to face can make, each once up to rotation.
//!
//! Every function of this library is verified against its contract. The
//! shapes themselves are arrays of the `ndarray` crate; what is assumed of
//! that crate, and of `bincode`, is stated where it is called.
pub mod array;
pub mod block;
pub mod cache;
pub mod complete;
pub mod congruence;
pub mod crop;
pub mod dedup;
pub mod descent;
pub mod driver;
pub mod equivariance;
pub mod expand;
pub mod fingerprint_set;
pub mod generate;
pub mod grid;
pub mod polycube;
pub mod remap;
pub mod removal;
pub mod rle;
pub mod rotation;

pub use crate::array::Polycube;
pub use crate::cache::{get_cache, save_cache, Error};
pub use crate::crop::crop_cube;
pub use crate::dedup::cube_exists_rle;
pub use crate::driver::{Driver, Phase, Reply, Request};
pub use crate::expand::expand_cube;
pub use crate::fingerprint_set::FingerprintSet;
pub use crate::generate::{generate_polycubes, next_generation};
pub use crate::rle::rle;
pub use crate::rotation::all_rotations;
