//! A spatial index over a static set of 3-D points.
//!
//! The index partitions point indices into an octree of axis-aligned
//! cubes and answers radius-bounded neighbor queries without comparing
//! every pair of points.  Coordinates are plain integers; callers pick
//! a fixed-point scale for their data.

pub mod element;
pub mod geom;
pub mod molecule;
pub mod mouse;
pub mod octree;
pub mod sorting;
