//! Descriptions of what the renderer draws with.

pub mod glyph_atlas;
pub mod material;
pub mod shader;
pub mod texture;
