//! Light storage, propagation and removal, and the model they are stated over.

pub mod color;
pub mod field;
pub mod finite_sum;
pub mod grid_world;
pub mod laws;
pub mod lighting_world;
pub mod lightmap;
pub mod paths;
pub mod propagation;
pub mod removal;
pub mod round_trip;
