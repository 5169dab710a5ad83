//! Integer voxel positions.

pub mod coordinates;
pub mod region;
