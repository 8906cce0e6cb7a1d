//! Core of a compact binary interchange format for triangle meshes: the
//! bit-packed normal array, the merging of normals that quantize alike, and
//! the framing of meshes into a versioned container.

pub mod bit_seq;
pub mod le_bytes;
pub mod merge;
pub mod normals;
pub mod tmf_exporter;
pub mod unaligned_rw;

use vstd::prelude::*;

verus! {

/// The type of an index into an array of a mesh.
pub type IndexType = u32;

/// The major version of the format that this library writes.
pub const TMF_MAJOR: u16 = 0;

/// The minor version of the format that this library writes.
pub const TMF_MINOR: u16 = 2;

/// The major version of the oldest readers that can read what this library
/// writes.
pub const MIN_TMF_MAJOR: u16 = 0;

/// The minor version of the oldest readers that can read what this library
/// writes.
pub const MIN_TMF_MINOR: u16 = 2;

} // verus!
