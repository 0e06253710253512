//! Level-of-detail octree indexing of point clouds on an integer lattice.
//!
//! Coordinates are fixed-point numbers: one lattice unit is one
//! ten-thousandth of a length unit. A point set is sampled into an octree
//! whose nodes hold progressively denser samples (`potree`, `model::node`),
//! the tree is flattened into fixed-size point records (`writer`), and a
//! chunked binary index over the tree is encoded (`model::hierarchy`).
//! `sampling` holds the laws of the octree.

pub mod model;
pub mod potree;
pub mod sampling;
pub mod writer;
