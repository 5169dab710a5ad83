//! The dynamic illumination of a voxel world, with the small pieces of engine
//! logic that can be stated exactly.
//!
//! Given a sparse set of light emitters and an opacity for every voxel, the
//! `lighting` module computes and maintains a light value for every voxel:
//!
//! * `lighting::lightmap` stores the light of a box of voxels;
//! * `lighting::lighting_world` is the interface through which the algorithms
//!   see a world of any shape;
//! * `lighting::propagation` spreads light from seeds by flood fill and seeds
//!   sky light down the columns of a box;
//! * `lighting::removal` retracts the light of removed sources and refills
//!   what went dark.
//!
//! What these functions leave behind is stated over a mathematical model of
//! light transport (`lighting::field`): the result of a flood is the least
//! field in which every voxel that gained light has passed it on. The modules
//! `lighting::laws`, `lighting::paths` and `lighting::round_trip` derive from
//! that statement what follows of every flood.
//!
//! The other modules hold engine logic that needs neither the graphics driver
//! nor floating point: voxel positions, typed resource handles and their
//! storage, materials, the packing of glyph bitmaps into an atlas, the state of
//! keys and buttons across frames, the binding decisions of the render pass,
//! and the resolution of logical file paths.

pub mod files;
pub mod graphics;
pub mod input;
pub mod lighting;
pub mod physics;
pub mod render;
pub mod resource;
