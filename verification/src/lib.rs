//! Exact intersection tests for line segments on the integer grid, and the
//! count of intersecting pairs in a collection of segments.

pub mod geometry;
pub mod incidence;
pub mod pairwise;
