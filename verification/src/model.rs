//! The data model shared by the octree builder, the serializer and the
//! hierarchy encoder.

use vstd::prelude::*;

pub mod attributes;
pub mod bounds;
pub mod hierarchy;
pub mod metadata;
pub mod node;
pub mod options;
pub mod path;
pub mod tree;
pub mod vector3;

verus! {

/// Progress record of a conversion job.
pub struct State {
    pub name: String,
    pub points_total: u64,
}

} // verus!
