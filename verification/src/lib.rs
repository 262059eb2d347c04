//! Triangulated surfaces of solids of revolution, written out as binary STL.
//!
//! A solid is described by a radius at every angle and height. The library
//! samples such a description on a cylindrical grid ([`point_cloud`]), joins
//! neighbouring rings of samples into triangles ([`triangles`]) and lays the
//! triangles out in the binary mesh format ([`stl`]); [`pipeline`] runs the
//! three in a row.
//!
//! Every coordinate is held as the bit pattern of an IEEE 754 single-precision
//! number in a `u32` ([`binary32`]). The mesh format is defined on exactly
//! those bits. The arithmetic that produces them is not done here: the caller
//! hands in a function that gives the point at a place of the grid, and one
//! that gives the normal of a triangle, and the contracts say where each value
//! that these functions return ends up.
pub mod binary32;
pub mod pipeline;
pub mod point_cloud;
pub mod stl;
pub mod triangles;
