//! Mesh geometry kernel: the binary STL format, indexed triangle meshes and
//! their neighbour topology, and the discrete parts of the mesh boolean
//! operations (enumeration of triangle pairs, inner/outer marking).
//!
//! Coordinates are carried as the IEEE-754 bit patterns of `f32` values; all
//! floating-point geometry lives outside this crate.

pub mod qm;
pub mod cf;
pub mod bo;
