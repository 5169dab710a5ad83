//! Textures as the library names them: the driver's identifier and the size
//! in texels.

use vstd::prelude::*;

verus! {

/// A 2D texture.
#[derive(Clone, Copy)]
pub struct Texture {
    /// The driver's identifier of the texture.
    pub id: u32,
    /// Texture width in pixels.
    pub width: u32,
    /// Texture height in pixels.
    pub height: u32,
    /// The driver's texture target the texture is bound to.
    pub target: u32,
}

/// A 2D texture array for layered textures (e.g. voxel block faces).
pub struct TextureArray {
    /// The driver's identifier of the texture.
    pub id: u32,
    /// Width of each layer in pixels.
    pub width: u32,
    /// Height of each layer in pixels.
    pub height: u32,
    /// Number of layers in the array.
    pub layers: u32,
}

/// A 3D texture (used for lightmaps).
pub struct Texture3D {
    /// The driver's identifier of the texture.
    pub id: u32,
    /// Texture width in texels.
    pub width: u32,
    /// Texture height in texels.
    pub height: u32,
    /// Texture depth in texels.
    pub depth: u32,
}

/// A 2D texture subdivided into uniform tiles.
pub struct TextureAtlas {
    /// The underlying texture.
    pub texture: Texture,
    /// Width and height of each tile in pixels.
    pub tile_size: (u32, u32),
    /// Total width and height of the atlas in pixels.
    pub atlas_size: (u32, u32),
}

impl TextureAtlas {
    /// The tile at grid position `(x, y)` lies wholly inside the atlas.
    pub open spec fn has_tile(&self, x: u32, y: u32) -> bool {
        &&& (x + 1) * self.tile_size.0 <= self.atlas_size.0
        &&& (y + 1) * self.tile_size.1 <= self.atlas_size.1
    }

    /// Makes the atlas of a texture cut into tiles of the given size.
    pub fn from_texture(texture: Texture, tile_size: (u32, u32)) -> (atlas: TextureAtlas)
        ensures
            atlas.texture == texture,
            atlas.tile_size == tile_size,
            atlas.atlas_size == (texture.width, texture.height),
    {
        TextureAtlas { texture, tile_size, atlas_size: (texture.width, texture.height) }
    }

    /// Returns the pixel position of the corner of the tile at grid position
    /// `(x, y)`, or `None` when that tile does not lie wholly inside the
    /// atlas.
    pub fn tile_origin(&self, x: u32, y: u32) -> (origin: Option<(u32, u32)>)
        ensures
            origin.is_some() == self.has_tile(x, y),
            origin matches Some(corner) ==> corner.0 == x * self.tile_size.0 && corner.1 == y
                * self.tile_size.1,
    {
        assert((x + 1) * self.tile_size.0 <= 0x1_0000_0000 * 0xffff_ffff && (y + 1)
            * self.tile_size.1 <= 0x1_0000_0000 * 0xffff_ffff) by (nonlinear_arith)
            requires
                x <= 0xffff_ffff,
                y <= 0xffff_ffff,
                self.tile_size.0 <= 0xffff_ffff,
                self.tile_size.1 <= 0xffff_ffff,
        ;
        let right = (x as u64 + 1) * (self.tile_size.0 as u64);
        let bottom = (y as u64 + 1) * (self.tile_size.1 as u64);
        if right <= self.atlas_size.0 as u64 && bottom <= self.atlas_size.1 as u64 {
            assert(x * self.tile_size.0 <= (x + 1) * self.tile_size.0 && y * self.tile_size.1 <= (y
                + 1) * self.tile_size.1) by (nonlinear_arith);
            Some((x * self.tile_size.0, y * self.tile_size.1))
        } else {
            None
        }
    }
}

} // verus!
